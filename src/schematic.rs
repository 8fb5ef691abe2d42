//! Engine schematics: a grid of bytes, one row per line, holding numbers
//! (maximal runs of digits) and symbols (any byte but a digit or `.`), of
//! which `*` marks a gear.
use crate::text::{decimal, is_digit, is_number, parse_u64, views};
use vstd::prelude::*;

verus! {

/// A number of the grid: its row, its first column, its width and its value.
#[derive(Clone, Copy, Debug, PartialEq, Eq, Structural)]
pub struct PartNumber {
    pub row: usize,
    pub col: usize,
    pub len: usize,
    pub value: u64,
}

/// The position of a symbol or a gear.
#[derive(Clone, Copy, Debug, PartialEq, Eq, Structural)]
pub struct Mark {
    pub row: usize,
    pub col: usize,
}

/// The runs of digits of row `s` from position `i` on, each as (row, column,
/// digits), where `start` is the column at which the run that position `i`
/// is inside of began.
pub open spec fn runs_from(s: Seq<u8>, row: int, i: int, start: Option<int>) -> Seq<(int, int, Seq<u8>)>
    decreases s.len() - i,
{
    if i < 0 || i >= s.len() {
        match start {
            Some(st) => seq![(row, st, s.subrange(st, s.len() as int))],
            None => Seq::empty(),
        }
    } else if is_digit(s[i]) {
        runs_from(s, row, i + 1, if start is Some { start } else { Some(i) })
    } else {
        match start {
            Some(st) => seq![(row, st, s.subrange(st, i))] + runs_from(s, row, i + 1, None),
            None => runs_from(s, row, i + 1, None),
        }
    }
}

/// The runs of digits of the first `n` rows of `g`, row by row.
pub open spec fn grid_runs(g: Seq<Seq<u8>>, n: int) -> Seq<(int, int, Seq<u8>)>
    decreases n,
{
    if n <= 0 {
        Seq::empty()
    } else {
        grid_runs(g, n - 1) + runs_from(g[n - 1], n - 1, 0, None)
    }
}

/// `p` is the number that the run `t` spells.
pub open spec fn spells(p: PartNumber, t: (int, int, Seq<u8>)) -> bool {
    p.row == t.0 && p.col == t.1 && p.len == t.2.len() && p.value == decimal(t.2)
}

/// Every run of `runs` fits in a `u64`.
pub open spec fn runs_fit(runs: Seq<(int, int, Seq<u8>)>) -> bool {
    forall|k: int| 0 <= k < runs.len() ==> is_number(#[trigger] runs[k].2, u64::MAX as nat)
}

proof fn lemma_run_digits(s: Seq<u8>, st: int, i: int)
    requires
        0 <= st <= i <= s.len(),
        forall|j: int| st <= j < i ==> is_digit(#[trigger] s[j]),
    ensures
        crate::text::all_digits(s.subrange(st, i)),
{
    assert forall|j: int| 0 <= j < i - st implies is_digit(#[trigger] s.subrange(st, i)[j]) by {
        assert(s.subrange(st, i)[j] == s[st + j]);
    }
}

/// The numbers of one row.
fn row_numbers(s: &[u8], row: usize, out: &mut Vec<PartNumber>) -> (ok: bool)
    ensures
        ok <==> runs_fit(runs_from(s@, row as int, 0, None)),
        ok ==> final(out)@.len() == old(out)@.len() + runs_from(s@, row as int, 0, None).len(),
        ok ==> final(out)@.subrange(0, old(out)@.len() as int) == old(out)@,
        ok ==> forall|k: int|
            0 <= k < runs_from(s@, row as int, 0, None).len() ==> spells(
                #[trigger] final(out)@[old(out)@.len() + k],
                runs_from(s@, row as int, 0, None)[k],
            ),
{
    let ghost all = runs_from(s@, row as int, 0, None);
    let ghost base = out@;
    let ghost done: Seq<(int, int, Seq<u8>)> = Seq::empty();
    let n = s.len();
    let mut start: Option<usize> = None;
    let mut i: usize = 0;
    while i < n
        invariant
            n == s@.len(),
            i <= n,
            all == runs_from(s@, row as int, 0, None),
            done + runs_from(s@, row as int, i as int, if start is Some { Some(start->0 as int) } else { None }) == all,
            start matches Some(st) ==> st <= i && forall|j: int| st <= j < i ==> is_digit(#[trigger] s@[j]),
            runs_fit(done),
            out@.len() == base.len() + done.len(),
            out@.subrange(0, base.len() as int) == base,
            forall|k: int| 0 <= k < done.len() ==> spells(#[trigger] out@[base.len() + k], done[k]),
        decreases n - i,
    {
        let b = s[i];
        if 48 <= b && b <= 57 {
            if start.is_none() {
                start = Some(i);
            }
        } else {
            match start {
                Some(st) => {
                    let digits = crate::text::copy_range(s, st, i);
                    proof { lemma_run_digits(s@, st as int, i as int); }
                    let ghost t = (row as int, st as int, s@.subrange(st as int, i as int));
                    match parse_u64(digits.as_slice()) {
                        Some(v) => {
                            out.push(PartNumber { row, col: st, len: i - st, value: v });
                            proof {
                                assert(done.push(t) + runs_from(s@, row as int, i + 1, None) =~= done + (seq![t]
                                    + runs_from(s@, row as int, i + 1, None)));
                                done = done.push(t);
                                assert(out@.subrange(0, base.len() as int) =~= base);
                            }
                        },
                        None => {
                            assert((done + runs_from(s@, row as int, i as int, Some(st as int)))[done.len() as int] == t);
                            assert(all[done.len() as int] == t);
                            assert(!is_number(all[done.len() as int].2, u64::MAX as nat));
                            return false;
                        },
                    }
                    start = None;
                },
                None => {},
            }
        }
        i += 1;
    }
    match start {
        Some(st) => {
            let digits = crate::text::copy_range(s, st, n);
            proof { lemma_run_digits(s@, st as int, n as int); }
            let ghost t = (row as int, st as int, s@.subrange(st as int, n as int));
            match parse_u64(digits.as_slice()) {
                Some(v) => {
                    out.push(PartNumber { row, col: st, len: n - st, value: v });
                    proof {
                        done = done.push(t);
                        assert(out@.subrange(0, base.len() as int) =~= base);
                    }
                },
                None => {
                    assert((done + runs_from(s@, row as int, n as int, Some(st as int)))[done.len() as int] == t);
                    assert(all[done.len() as int] == t);
                    assert(!is_number(all[done.len() as int].2, u64::MAX as nat));
                    return false;
                },
            }
        },
        None => {
            assert(done + Seq::<(int, int, Seq<u8>)>::empty() == done);
        },
    }
    true
}

/// Finds every number of the grid, row by row and left to right.
fn find_numbers(grid: &Vec<Vec<u8>>) -> (r: Option<Vec<PartNumber>>)
    ensures
        r is Some <==> runs_fit(grid_runs(views(grid@), grid@.len() as int)),
        r matches Some(ns) ==> ns@.len() == grid_runs(views(grid@), grid@.len() as int).len() && forall|k: int|
            0 <= k < ns@.len() ==> spells(#[trigger] ns@[k], grid_runs(views(grid@), grid@.len() as int)[k]),
{
    let ghost g = views(grid@);
    let mut out: Vec<PartNumber> = Vec::new();
    let mut row: usize = 0;
    while row < grid.len()
        invariant
            row <= grid@.len(),
            g == views(grid@),
            runs_fit(grid_runs(g, row as int)),
            out@.len() == grid_runs(g, row as int).len(),
            forall|k: int| 0 <= k < out@.len() ==> spells(#[trigger] out@[k], grid_runs(g, row as int)[k]),
        decreases grid.len() - row,
    {
        assert(g[row as int] == grid@[row as int]@);
        let ghost before = out@;
        let ghost rr = runs_from(g[row as int], row as int, 0, None);
        let ok = row_numbers(grid[row].as_slice(), row, &mut out);
        let ghost next = grid_runs(g, row + 1);
        assert(next == grid_runs(g, row as int) + rr);
        if !ok {
            assert(!runs_fit(next)) by {
                let k = choose|k: int| 0 <= k < rr.len() && !is_number(#[trigger] rr[k].2, u64::MAX as nat);
                assert(next[grid_runs(g, row as int).len() + k] == rr[k]);
            }
            proof { lemma_runs_unfit(g, row + 1, grid@.len() as int); }
            return None;
        }
        assert forall|k: int| 0 <= k < out@.len() implies spells(#[trigger] out@[k], next[k]) by {
            if k < before.len() {
                assert(out@[k] == out@.subrange(0, before.len() as int)[k]);
            } else {
                assert(next[k] == rr[k - before.len()]);
                let j = k - before.len();
                assert(spells(out@[before.len() + j], rr[j]));
            }
        }
        assert(runs_fit(next)) by {
            assert forall|k: int| 0 <= k < next.len() implies is_number(#[trigger] next[k].2, u64::MAX as nat) by {
                if k >= grid_runs(g, row as int).len() {
                    assert(next[k] == rr[k - grid_runs(g, row as int).len()]);
                }
            }
        }
        row += 1;
    }
    Some(out)
}

proof fn lemma_runs_unfit(g: Seq<Seq<u8>>, i: int, n: int)
    requires
        0 < i <= n,
        !runs_fit(grid_runs(g, i)),
    ensures
        !runs_fit(grid_runs(g, n)),
    decreases n - i,
{
    if i < n {
        lemma_runs_unfit(g, i, n - 1);
        let a = grid_runs(g, n - 1);
        let k = choose|k: int| 0 <= k < a.len() && !is_number(#[trigger] a[k].2, u64::MAX as nat);
        assert(grid_runs(g, n)[k] == a[k]);
    }
}

/// The number that a run (row, column, digits) spells.
pub open spec fn number_of(t: (int, int, Seq<u8>)) -> PartNumber {
    PartNumber { row: t.0 as usize, col: t.1 as usize, len: t.2.len() as usize, value: decimal(t.2) as u64 }
}

/// The numbers of grid `g`, row by row and left to right.
pub open spec fn grid_numbers(g: Seq<Seq<u8>>) -> Seq<PartNumber> {
    grid_runs(g, g.len() as int).map_values(|t: (int, int, Seq<u8>)| number_of(t))
}

/// Finds every number of the grid, row by row and left to right; `None`
/// where one does not fit in a `u64`.
pub fn scan_numbers(grid: &Vec<Vec<u8>>) -> (r: Option<Vec<PartNumber>>)
    ensures
        r is Some <==> runs_fit(grid_runs(views(grid@), grid@.len() as int)),
        r matches Some(ns) ==> ns@ == grid_numbers(views(grid@)),
{
    let r = find_numbers(grid);
    match r {
        Some(ns) => {
            let ghost runs = grid_runs(views(grid@), grid@.len() as int);
            assert(views(grid@).len() == grid@.len());
            assert forall|k: int| 0 <= k < ns@.len() implies ns@[k] == #[trigger] grid_numbers(views(grid@))[k] by {
                assert(spells(ns@[k], runs[k]));
            }
            assert(ns@ =~= grid_numbers(views(grid@)));
            Some(ns)
        },
        None => None,
    }
}

/// A symbol byte: any byte but a digit or `.`; with `gears`, only `*`.
pub open spec fn is_mark(b: u8, gears: bool) -> bool {
    if gears {
        b == 42
    } else {
        !is_digit(b) && b != 46
    }
}

/// The marks of row `s` from position `i` on.
pub open spec fn marks_from(s: Seq<u8>, row: int, i: int, gears: bool) -> Seq<Mark>
    decreases s.len() - i,
{
    if i < 0 || i >= s.len() {
        Seq::empty()
    } else if is_mark(s[i], gears) {
        seq![Mark { row: row as usize, col: i as usize }] + marks_from(s, row, i + 1, gears)
    } else {
        marks_from(s, row, i + 1, gears)
    }
}

/// The marks of the first `n` rows of `g`, row by row and left to right.
pub open spec fn grid_marks(g: Seq<Seq<u8>>, n: int, gears: bool) -> Seq<Mark>
    decreases n,
{
    if n <= 0 {
        Seq::empty()
    } else {
        grid_marks(g, n - 1, gears) + marks_from(g[n - 1], n - 1, 0, gears)
    }
}

/// Finds every symbol of the grid (with `gears`, every `*`), row by row and
/// left to right.
pub fn scan_marks(grid: &Vec<Vec<u8>>, gears: bool) -> (r: Vec<Mark>)
    ensures
        r@ == grid_marks(views(grid@), grid@.len() as int, gears),
{
    let ghost g = views(grid@);
    let mut out: Vec<Mark> = Vec::new();
    let mut row: usize = 0;
    while row < grid.len()
        invariant
            row <= grid@.len(),
            g == views(grid@),
            out@ == grid_marks(g, row as int, gears),
        decreases grid.len() - row,
    {
        let s = grid[row].as_slice();
        assert(g[row as int] == s@);
        let ghost base = out@;
        let n = s.len();
        let mut i: usize = 0;
        while i < n
            invariant
                n == s@.len(),
                i <= n,
                out@ + marks_from(s@, row as int, i as int, gears) == base + marks_from(s@, row as int, 0, gears),
            decreases n - i,
        {
            let b = s[i];
            let hit = if gears {
                b == 42
            } else {
                !(48 <= b && b <= 57) && b != 46
            };
            if hit {
                let ghost prev = out@;
                out.push(Mark { row, col: i });
                assert(prev + marks_from(s@, row as int, i as int, gears) == out@ + marks_from(
                    s@,
                    row as int,
                    i + 1,
                    gears,
                ));
            }
            i += 1;
        }
        assert(out@ + Seq::<Mark>::empty() == out@);
        row += 1;
    }
    out
}

/// A number touches a mark: on the same row it ends just before the mark or
/// starts just after it; on a neighbouring row its columns, widened by one on
/// each side, reach the mark's column.
pub open spec fn touches(n: PartNumber, m: Mark) -> bool {
    if m.row == n.row {
        n.col == m.col + 1 || n.col + n.len == m.col
    } else if m.row + 1 == n.row || n.row + 1 == m.row {
        n.col + n.len >= m.col && n.col <= m.col + 1
    } else {
        false
    }
}

/// Whether number `n` touches mark `m`.
pub fn is_adjacent(n: &PartNumber, m: &Mark) -> (r: bool)
    ensures
        r == touches(*n, *m),
{
    if m.row == n.row {
        (n.col >= 1 && n.col - 1 == m.col) || (m.col >= n.col && m.col - n.col == n.len)
    } else if (n.row >= 1 && n.row - 1 == m.row) || (m.row >= 1 && m.row - 1 == n.row) {
        (m.col <= n.col || m.col - n.col <= n.len) && (n.col == 0 || n.col - 1 <= m.col)
    } else {
        false
    }
}

/// Some mark of `ms` touches `n`.
pub open spec fn touches_any(n: PartNumber, ms: Seq<Mark>) -> bool {
    exists|j: int| 0 <= j < ms.len() && touches(n, #[trigger] ms[j])
}

/// Whether some mark of `marks` touches `n`.
pub fn touches_some(n: &PartNumber, marks: &Vec<Mark>) -> (r: bool)
    ensures
        r == touches_any(*n, marks@),
{
    let mut j: usize = 0;
    while j < marks.len()
        invariant
            j <= marks@.len(),
            forall|k: int| 0 <= k < j ==> !touches(*n, #[trigger] marks@[k]),
        decreases marks.len() - j,
    {
        if is_adjacent(n, &marks[j]) {
            return true;
        }
        j += 1;
    }
    false
}

/// The sum of the values of the first `k` numbers of `ns` that a mark of
/// `ms` touches; `None` where the running sum passes `u64::MAX`.
pub open spec fn part_sum_upto(ns: Seq<PartNumber>, ms: Seq<Mark>, k: int) -> Option<nat>
    decreases k,
{
    if k <= 0 {
        Some(0)
    } else {
        match part_sum_upto(ns, ms, k - 1) {
            None => None,
            Some(total) => if !touches_any(ns[k - 1], ms) {
                Some(total)
            } else if total + ns[k - 1].value > u64::MAX {
                None
            } else {
                Some((total + ns[k - 1].value) as nat)
            },
        }
    }
}

proof fn lemma_part_sum_none(ns: Seq<PartNumber>, ms: Seq<Mark>, i: int, n: int)
    requires
        0 < i <= n,
        part_sum_upto(ns, ms, i) is None,
    ensures
        part_sum_upto(ns, ms, n) is None,
    decreases n - i,
{
    if i < n {
        lemma_part_sum_none(ns, ms, i, n - 1);
    }
}

/// The sum of the numbers that some symbol touches.
pub fn part_number_sum(numbers: &Vec<PartNumber>, symbols: &Vec<Mark>) -> (r: Option<u64>)
    ensures
        r is Some <==> part_sum_upto(numbers@, symbols@, numbers@.len() as int) is Some,
        r is Some ==> r->0 == part_sum_upto(numbers@, symbols@, numbers@.len() as int)->0,
{
    let mut total: u64 = 0;
    let mut k: usize = 0;
    while k < numbers.len()
        invariant
            k <= numbers@.len(),
            part_sum_upto(numbers@, symbols@, k as int) == Some(total as nat),
        decreases numbers.len() - k,
    {
        let n = numbers[k];
        if touches_some(&n, symbols) {
            if total > u64::MAX - n.value {
                proof { lemma_part_sum_none(numbers@, symbols@, k + 1, numbers@.len() as int); }
                return None;
            }
            total = total + n.value;
        }
        k += 1;
    }
    Some(total)
}

/// The first `k` numbers of `ns` that touch the gear `g`, in order.
pub open spec fn touching_upto(ns: Seq<PartNumber>, g: Mark, k: int) -> Seq<PartNumber>
    decreases k,
{
    if k <= 0 {
        Seq::empty()
    } else if touches(ns[k - 1], g) {
        touching_upto(ns, g, k - 1).push(ns[k - 1])
    } else {
        touching_upto(ns, g, k - 1)
    }
}

/// The ratio of a gear: the product of the two numbers that touch it where
/// exactly two do, else nothing.
pub open spec fn gear_ratio(ns: Seq<PartNumber>, g: Mark) -> nat {
    let t = touching_upto(ns, g, ns.len() as int);
    if t.len() == 2 {
        (t[0].value * t[1].value) as nat
    } else {
        0
    }
}

/// The ratio of gear `g`.
pub fn ratio(numbers: &Vec<PartNumber>, g: &Mark) -> (r: u128)
    ensures
        r == gear_ratio(numbers@, *g),
{
    let mut count: usize = 0;
    let mut a: u64 = 0;
    let mut b: u64 = 0;
    let mut k: usize = 0;
    while k < numbers.len()
        invariant
            k <= numbers@.len(),
            count == touching_upto(numbers@, *g, k as int).len(),
            count <= k,
            count >= 1 ==> a == touching_upto(numbers@, *g, k as int)[0].value,
            count >= 2 ==> b == touching_upto(numbers@, *g, k as int)[1].value,
        decreases numbers.len() - k,
    {
        if is_adjacent(&numbers[k], g) {
            if count == 0 {
                a = numbers[k].value;
            } else if count == 1 {
                b = numbers[k].value;
            }
            count += 1;
        }
        k += 1;
    }
    if count == 2 {
        assert((a as u128) * (b as u128) <= 0xffff_ffff_ffff_ffff * 0xffff_ffff_ffff_ffff) by (nonlinear_arith)
            requires
                a <= 0xffff_ffff_ffff_ffff,
                b <= 0xffff_ffff_ffff_ffff,
        ;
        (a as u128) * (b as u128)
    } else {
        0
    }
}

/// The sum of the ratios of the first `k` gears of `gs`; `None` where the
/// running sum passes `u64::MAX`.
pub open spec fn gear_sum_upto(ns: Seq<PartNumber>, gs: Seq<Mark>, k: int) -> Option<nat>
    decreases k,
{
    if k <= 0 {
        Some(0)
    } else {
        match gear_sum_upto(ns, gs, k - 1) {
            None => None,
            Some(total) => if total + gear_ratio(ns, gs[k - 1]) > u64::MAX {
                None
            } else {
                Some(total + gear_ratio(ns, gs[k - 1]))
            },
        }
    }
}

proof fn lemma_gear_sum_none(ns: Seq<PartNumber>, gs: Seq<Mark>, i: int, n: int)
    requires
        0 < i <= n,
        gear_sum_upto(ns, gs, i) is None,
    ensures
        gear_sum_upto(ns, gs, n) is None,
    decreases n - i,
{
    if i < n {
        lemma_gear_sum_none(ns, gs, i, n - 1);
    }
}

/// The sum of the ratios of all gears.
pub fn gear_ratio_sum(numbers: &Vec<PartNumber>, gears: &Vec<Mark>) -> (r: Option<u64>)
    ensures
        r is Some <==> gear_sum_upto(numbers@, gears@, gears@.len() as int) is Some,
        r is Some ==> r->0 == gear_sum_upto(numbers@, gears@, gears@.len() as int)->0,
{
    let mut total: u64 = 0;
    let mut k: usize = 0;
    while k < gears.len()
        invariant
            k <= gears@.len(),
            gear_sum_upto(numbers@, gears@, k as int) == Some(total as nat),
        decreases gears.len() - k,
    {
        let p = ratio(numbers, &gears[k]);
        if p > (u64::MAX - total) as u128 {
            proof { lemma_gear_sum_none(numbers@, gears@, k + 1, gears@.len() as int); }
            return None;
        }
        total = total + p as u64;
        k += 1;
    }
    Some(total)
}

/// The sum of the numbers of the grid that touch a symbol.
pub fn engine_part_sum(grid: &Vec<Vec<u8>>) -> (r: Option<u64>)
    ensures
        r is Some <==> runs_fit(grid_runs(views(grid@), grid@.len() as int)) && part_sum_upto(
            grid_numbers(views(grid@)),
            grid_marks(views(grid@), grid@.len() as int, false),
            grid_numbers(views(grid@)).len() as int,
        ) is Some,
        r is Some ==> r->0 == part_sum_upto(
            grid_numbers(views(grid@)),
            grid_marks(views(grid@), grid@.len() as int, false),
            grid_numbers(views(grid@)).len() as int,
        )->0,
{
    let numbers = match scan_numbers(grid) {
        Some(ns) => ns,
        None => return None,
    };
    let symbols = scan_marks(grid, false);
    part_number_sum(&numbers, &symbols)
}

/// The sum of the ratios of the gears of the grid.
pub fn engine_gear_sum(grid: &Vec<Vec<u8>>) -> (r: Option<u64>)
    ensures
        r is Some <==> runs_fit(grid_runs(views(grid@), grid@.len() as int)) && gear_sum_upto(
            grid_numbers(views(grid@)),
            grid_marks(views(grid@), grid@.len() as int, true),
            grid_marks(views(grid@), grid@.len() as int, true).len() as int,
        ) is Some,
        r is Some ==> r->0 == gear_sum_upto(
            grid_numbers(views(grid@)),
            grid_marks(views(grid@), grid@.len() as int, true),
            grid_marks(views(grid@), grid@.len() as int, true).len() as int,
        )->0,
{
    let numbers = match scan_numbers(grid) {
        Some(ns) => ns,
        None => return None,
    };
    let gears = scan_marks(grid, true);
    gear_ratio_sum(&numbers, &gears)
}

} // verus!
