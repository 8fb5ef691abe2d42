//! Scratchcards: each card is "<label>: <winning numbers> | <our numbers>".
//! A card scores by the count of distinct winning numbers that we hold, and
//! each win hands copies of the current card's multiplicity to later cards.
use crate::text::{after, before, fields, numbers_ok, parse_numbers, split_once, values};
use vstd::arithmetic::power2::{lemma2_to64, lemma_pow2_strictly_increases, lemma_pow2_unfold, pow2};
use vstd::prelude::*;

verus! {

/// `t` extended with ones until it holds at least `n` entries.
pub open spec fn padded(t: Seq<u32>, n: nat) -> Seq<u32> {
    if t.len() >= n {
        t
    } else {
        t + Seq::new((n - t.len()) as nat, |_i: int| 1u32)
    }
}

/// A growable sequence of counters where every entry not yet stored reads as 1.
pub struct DefaultValueVec(Vec<u32>);

impl View for DefaultValueVec {
    type V = Seq<u32>;

    closed spec fn view(&self) -> Seq<u32> {
        self.0@
    }
}

impl DefaultValueVec {
    /// A table with no stored entry.
    pub fn new() -> (r: DefaultValueVec)
        ensures
            r@ == Seq::<u32>::empty(),
    {
        DefaultValueVec(Vec::new())
    }

    fn grow(&mut self, index: usize)
        requires
            index < usize::MAX,
        ensures
            final(self)@ == padded(old(self)@, (index + 1) as nat),
    {
        let ghost start = self@;
        let mut n: usize = self.0.len();
        while n < index + 1
            invariant
                n == self@.len(),
                index < usize::MAX,
                start.len() <= index + 1 ==> self@ == padded(start, n as nat) && n <= index + 1,
                start.len() > index + 1 ==> self@ == start,
            decreases index + 1 - n,
        {
            self.0.push(1);
            n += 1;
            assert(self@ =~= padded(start, n as nat));
        }
        assert(start.len() <= index + 1 ==> self@ =~= padded(start, (index + 1) as nat));
    }

    /// Adds `value` to the counter at `index`, first extending the table with
    /// ones up to and including `index`.
    pub fn add(&mut self, index: usize, value: u32)
        requires
            index < usize::MAX,
            padded(old(self)@, (index + 1) as nat)[index as int] + value <= u32::MAX,
        ensures
            final(self)@ == padded(old(self)@, (index + 1) as nat).update(
                index as int,
                (padded(old(self)@, (index + 1) as nat)[index as int] + value) as u32,
            ),
    {
        self.grow(index);
        let cur = self.0[index];
        self.0.set(index, cur + value);
    }

    /// The counter at `index`, first extending the table with ones up to and
    /// including `index`.
    pub fn get(&mut self, index: usize) -> (r: u32)
        requires
            index < usize::MAX,
        ensures
            final(self)@ == padded(old(self)@, (index + 1) as nat),
            r == final(self)@[index as int],
    {
        self.grow(index);
        self.0[index]
    }
}

impl Default for DefaultValueVec {
    fn default() -> (r: DefaultValueVec)
        ensures
            r@ == Seq::<u32>::empty(),
    {
        DefaultValueVec::new()
    }
}

/// How many distinct values among `w[0..n]` occur in `o`.
pub open spec fn common_prefix(w: Seq<u64>, o: Seq<u64>, n: int) -> nat
    decreases n,
{
    if n <= 0 {
        0
    } else {
        common_prefix(w, o, n - 1) + if o.contains(w[n - 1]) && !w.subrange(0, n - 1).contains(
            w[n - 1],
        ) {
            1nat
        } else {
            0nat
        }
    }
}

/// The number of distinct winning numbers `w` that also occur among ours, `o`.
pub open spec fn overlap(w: Seq<u64>, o: Seq<u64>) -> nat {
    common_prefix(w, o, w.len() as int)
}

fn contains_before(v: &Vec<u64>, n: usize, x: u64) -> (r: bool)
    requires
        n <= v@.len(),
    ensures
        r == v@.subrange(0, n as int).contains(x),
{
    let mut i: usize = 0;
    while i < n
        invariant
            i <= n <= v@.len(),
            !v@.subrange(0, i as int).contains(x),
        decreases n - i,
    {
        if v[i] == x {
            assert(v@.subrange(0, n as int)[i as int] == x);
            return true;
        }
        assert(v@.subrange(0, i + 1) == v@.subrange(0, i as int).push(v@[i as int]));
        i += 1;
    }
    false
}

/// Counts the distinct winning numbers that also occur among ours.
pub fn overlap_count(winning: &Vec<u64>, ours: &Vec<u64>) -> (r: usize)
    ensures
        r == overlap(winning@, ours@),
{
    let mut count: usize = 0;
    let mut i: usize = 0;
    while i < winning.len()
        invariant
            i <= winning@.len(),
            count == common_prefix(winning@, ours@, i as int),
            count <= i,
        decreases winning.len() - i,
    {
        let x = winning[i];
        let ours_has = contains_before(ours, ours.len(), x);
        let seen = contains_before(winning, i, x);
        assert(ours@.subrange(0, ours@.len() as int) == ours@);
        if ours_has && !seen {
            count += 1;
        }
        i += 1;
    }
    count
}

/// The score of a card with `k` matches: nothing without one, else `2^(k-1)`.
pub open spec fn score(k: nat) -> nat {
    if k == 0 {
        0
    } else {
        pow2((k - 1) as nat)
    }
}

/// The score of a card with `k` matches, where it fits in a `u64`.
pub fn card_score(k: usize) -> (r: Option<u64>)
    ensures
        r is Some <==> k <= 64,
        r is Some ==> r->0 == score(k as nat),
{
    if k == 0 {
        return Some(0);
    }
    if k > 64 {
        return None;
    }
    let mut v: u64 = 1;
    let mut j: usize = 0;
    proof {
        lemma2_to64();
    }
    while j < k - 1
        invariant
            j <= k - 1,
            k <= 64,
            v == pow2(j as nat),
            pow2(64) == 0x10000000000000000,
        decreases k - 1 - j,
    {
        proof {
            lemma_pow2_unfold((j + 1) as nat);
            lemma_pow2_strictly_increases((j + 1) as nat, 64);
        }
        v = v * 2;
        j += 1;
    }
    Some(v)
}

/// The winning numbers and our numbers of a card line, where it is well formed.
pub open spec fn card_numbers(line: Seq<u8>) -> Option<(Seq<u64>, Seq<u64>)> {
    if !line.contains(58u8) {
        None
    } else {
        let rest = after(line, 58u8);
        if !rest.contains(124u8) {
            None
        } else {
            let w = before(rest, 124u8);
            let o = after(rest, 124u8);
            if numbers_ok(w) && numbers_ok(o) {
                Some((values(fields(w)), values(fields(o))))
            } else {
                None
            }
        }
    }
}

/// Reads a card line: the label before `:` is ignored, `|` separates the
/// winning numbers from ours.
pub fn parse_card(line: &[u8]) -> (r: Option<(Vec<u64>, Vec<u64>)>)
    ensures
        r is Some <==> card_numbers(line@) is Some,
        r matches Some((w, o)) ==> card_numbers(line@) == Some((w@, o@)),
{
    let (_label, rest) = match split_once(line, 58u8) {
        Some(parts) => parts,
        None => return None,
    };
    let (w, o) = match split_once(rest.as_slice(), 124u8) {
        Some(parts) => parts,
        None => return None,
    };
    let winning = match parse_numbers(w.as_slice()) {
        Some(v) => v,
        None => return None,
    };
    let ours = match parse_numbers(o.as_slice()) {
        Some(v) => v,
        None => return None,
    };
    Some((winning, ours))
}

/// The match count of a card line, where it is well formed.
#[verifier::opaque]
pub open spec fn card_matches(line: Seq<u8>) -> Option<nat> {
    match card_numbers(line) {
        Some((w, o)) => Some(overlap(w, o)),
        None => None,
    }
}

/// The match count of a card line.
pub fn card_overlap(line: &[u8]) -> (r: Option<usize>)
    ensures
        r is Some <==> card_matches(line@) is Some,
        r is Some ==> r->0 == card_matches(line@)->0,
{
    proof {
        reveal(card_matches);
    }
    match parse_card(line) {
        Some((w, o)) => Some(overlap_count(&w, &o)),
        None => None,
    }
}

/// The total score of the first `n` cards; `None` where a card is malformed,
/// scores past `u64`, or the running total passes `u64::MAX`.
pub open spec fn score_prefix(lines: Seq<Seq<u8>>, n: int) -> Option<nat>
    decreases n,
{
    if n <= 0 {
        Some(0)
    } else {
        match score_prefix(lines, n - 1) {
            None => None,
            Some(total) => match card_matches(lines[n - 1]) {
                None => None,
                Some(k) => if k > 64 || total + score(k) > u64::MAX {
                    None
                } else {
                    Some(total + score(k))
                },
            },
        }
    }
}

/// The sum of the scores of all cards.
#[verifier::spinoff_prover]
pub fn score_total(lines: &Vec<Vec<u8>>) -> (r: Option<u64>)
    ensures
        r is Some <==> score_prefix(crate::text::views(lines@), lines@.len() as int) is Some,
        r is Some ==> r->0 == score_prefix(crate::text::views(lines@), lines@.len() as int)->0,
{
    let ghost ls = crate::text::views(lines@);
    let mut total: u64 = 0;
    let mut i: usize = 0;
    while i < lines.len()
        invariant
            i <= lines@.len(),
            ls == crate::text::views(lines@),
            score_prefix(ls, i as int) == Some(total as nat),
        decreases lines.len() - i,
    {
        assert(ls[i as int] == lines@[i as int]@);
        let k = match card_overlap(lines[i].as_slice()) {
            Some(k) => k,
            None => {
                proof { lemma_score_prefix_none(ls, i as int + 1, lines@.len() as int); }
                return None;
            },
        };
        let s = match card_score(k) {
            Some(s) => s,
            None => {
                proof { lemma_score_prefix_none(ls, i as int + 1, lines@.len() as int); }
                return None;
            },
        };
        if total > u64::MAX - s {
            proof { lemma_score_prefix_none(ls, i as int + 1, lines@.len() as int); }
            return None;
        }
        total = total + s;
        assert(score_prefix(ls, i + 1) == Some(total as nat));
        i += 1;
    }
    Some(total)
}

proof fn lemma_score_prefix_none(lines: Seq<Seq<u8>>, i: int, n: int)
    requires
        0 < i <= n,
        score_prefix(lines, i) is None,
    ensures
        score_prefix(lines, n) is None,
    decreases n - i,
{
    if i < n {
        lemma_score_prefix_none(lines, i, n - 1);
    }
}

/// The table after the current multiplicity `c` of card `card` has been added
/// to cards `card + 1 ..= card + k`, in that order; `None` where an index or a
/// counter would leave its machine type.
pub open spec fn spread(t: Seq<u32>, card: int, c: u32, k: int) -> Option<Seq<u32>>
    decreases k,
{
    if k <= 0 {
        Some(t)
    } else {
        match spread(t, card, c, k - 1) {
            None => None,
            Some(u) => {
                let idx = card + k;
                if idx >= usize::MAX {
                    None
                } else {
                    let p = padded(u, (idx + 1) as nat);
                    if p[idx] + c > u32::MAX {
                        None
                    } else {
                        Some(p.update(idx, (p[idx] + c) as u32))
                    }
                }
            },
        }
    }
}

/// The copy table and the number of card instances counted after the first
/// `n` cards have been processed in order, where `ov` holds each card's match
/// count; `None` where a counter or the total would leave its machine type.
pub open spec fn play(ov: Seq<usize>, n: int) -> Option<(Seq<u32>, nat)>
    decreases n,
{
    if n <= 0 {
        Some((Seq::empty(), 0))
    } else {
        match play(ov, n - 1) {
            None => None,
            Some((t, total)) => {
                let p = padded(t, n as nat);
                let c = p[n - 1];
                if total + c > u64::MAX {
                    None
                } else {
                    match spread(p, n - 1, c, ov[n - 1] as int) {
                        None => None,
                        Some(u) => Some((u, (total + c) as nat)),
                    }
                }
            },
        }
    }
}

proof fn lemma_play_none(ov: Seq<usize>, i: int, n: int)
    requires
        0 < i <= n,
        play(ov, i) is None,
    ensures
        play(ov, n) is None,
    decreases n - i,
{
    if i < n {
        lemma_play_none(ov, i, n - 1);
    }
}

/// The total number of card instances once every card has handed copies of
/// itself to the cards after it: card `i` with `ov[i]` matches adds its
/// multiplicity to each of the next `ov[i]` cards.
pub fn total_cards(ov: &Vec<usize>) -> (r: Option<u64>)
    ensures
        r is Some <==> play(ov@, ov@.len() as int) is Some,
        r is Some ==> r->0 == copies_sum(ov@, ov@.len() as int),
{
    let n = ov.len();
    let mut copies = DefaultValueVec::new();
    let mut total: u64 = 0;
    let mut i: usize = 0;
    while i < n
        invariant
            n == ov@.len(),
            i <= ov@.len(),
            play(ov@, i as int) == Some((copies@, total as nat)),
            ov@.len() <= usize::MAX,
        decreases ov.len() - i,
    {
        let c = copies.get(i);
        if total > u64::MAX - c as u64 {
            proof { lemma_play_none(ov@, i + 1, ov@.len() as int); }
            return None;
        }
        total = total + c as u64;
        let ghost p = copies@;
        let k = ov[i];
        let mut j: usize = 0;
        while j < k
            invariant
                j <= k,
                i < ov@.len(),
                k == ov@[i as int],
                spread(p, i as int, c, j as int) == Some(copies@),
                play(ov@, i + 1) == match spread(p, i as int, c, k as int) {
                    None => None,
                    Some(u) => Some((u, total as nat)),
                },
                i < usize::MAX,
            decreases k - j,
        {
            if j >= usize::MAX - 1 - i {
                proof {
                    lemma_spread_none(p, i as int, c, j as int + 1, k as int);
                    lemma_play_none(ov@, i + 1, ov@.len() as int);
                }
                return None;
            }
            let idx = i + 1 + j;
            let cur = copies.get(idx);
            if cur > u32::MAX - c {
                proof {
                    lemma_spread_none(p, i as int, c, j as int + 1, k as int);
                    lemma_play_none(ov@, i + 1, ov@.len() as int);
                }
                return None;
            }
            copies.add(idx, c);
            j += 1;
        }
        i += 1;
    }
    proof {
        lemma_total_cards_closed_form(ov@);
    }
    Some(total)
}

proof fn lemma_spread_none(t: Seq<u32>, card: int, c: u32, j: int, k: int)
    requires
        0 < j <= k,
        spread(t, card, c, j) is None,
    ensures
        spread(t, card, c, k) is None,
    decreases k - j,
{
    if j < k {
        lemma_spread_none(t, card, c, j, k - 1);
    }
}

/// The total number of card instances for a list of card lines.
pub fn card_count_total(lines: &Vec<Vec<u8>>) -> (r: Option<u64>)
    ensures
        r is Some <==> exists|ov: Seq<usize>|
            #![trigger play(ov, ov.len() as int)]
            ov.len() == lines@.len() && (forall|i: int|
                0 <= i < ov.len() ==> card_matches(#[trigger] lines@[i]@) == Some(ov[i] as nat))
                && play(ov, ov.len() as int) is Some,
        forall|ov: Seq<usize>|
            ov.len() == lines@.len() && (forall|i: int|
                0 <= i < ov.len() ==> card_matches(#[trigger] lines@[i]@) == Some(ov[i] as nat))
                ==> (r is Some ==> r->0 == #[trigger] copies_sum(ov, ov.len() as int)),
{
    let mut ov: Vec<usize> = Vec::new();
    let mut i: usize = 0;
    while i < lines.len()
        invariant
            i <= lines@.len(),
            ov@.len() == i,
            forall|j: int| 0 <= j < i ==> card_matches(#[trigger] lines@[j]@) == Some(ov@[j] as nat),
        decreases lines.len() - i,
    {
        match card_overlap(lines[i].as_slice()) {
            Some(k) => ov.push(k),
            None => {
                assert forall|o: Seq<usize>|
                    o.len() == lines@.len() && (forall|j: int|
                        0 <= j < o.len() ==> card_matches(#[trigger] lines@[j]@) == Some(o[j] as nat))
                    implies !(play(o, o.len() as int) is Some) by {
                    assert(card_matches(lines@[i as int]@) == Some(o[i as int] as nat));
                }
                return None;
            },
        }
        i += 1;
    }
    let r = total_cards(&ov);
    assert forall|o: Seq<usize>|
        o.len() == lines@.len() && (forall|j: int|
            0 <= j < o.len() ==> card_matches(#[trigger] lines@[j]@) == Some(o[j] as nat))
        implies #[trigger] play(o, o.len() as int) == play(ov@, ov@.len() as int) by {
        assert forall|j: int| 0 <= j < o.len() implies o[j] == ov@[j] by {
            assert(card_matches(lines@[j]@) == Some(o[j] as nat));
        }
        assert(o =~= ov@);
    }
    assert forall|o: Seq<usize>|
        o.len() == lines@.len() && (forall|j: int|
            0 <= j < o.len() ==> card_matches(#[trigger] lines@[j]@) == Some(o[j] as nat))
        implies #[trigger] copies_sum(o, o.len() as int) == copies_sum(ov@, ov@.len() as int) by {
        assert forall|j: int| 0 <= j < o.len() implies o[j] == ov@[j] by {
            assert(card_matches(lines@[j]@) == Some(o[j] as nat));
        }
        assert(o =~= ov@);
    }
    r
}

proof fn lemma_push_to_set(p: Seq<u64>, x: u64)
    ensures
        p.push(x).to_set() == p.to_set().insert(x),
{
    assert forall|y: u64| #[trigger] p.push(x).to_set().contains(y) == p.to_set().insert(x).contains(y) by {
        if p.contains(y) {
            let k = choose|k: int| 0 <= k < p.len() && p[k] == y;
            assert(p.push(x)[k] == y);
        }
        if y == x {
            assert(p.push(x)[p.len() as int] == x);
        }
        if p.push(x).contains(y) {
            let k = choose|k: int| 0 <= k < p.push(x).len() && p.push(x)[k] == y;
            if k < p.len() {
                assert(p[k] == y);
            }
        }
    }
    assert(p.push(x).to_set() =~= p.to_set().insert(x));
}

proof fn lemma_common_prefix_set(w: Seq<u64>, o: Seq<u64>, n: int)
    requires
        0 <= n <= w.len(),
    ensures
        w.subrange(0, n).to_set().intersect(o.to_set()).finite(),
        common_prefix(w, o, n) == w.subrange(0, n).to_set().intersect(o.to_set()).len(),
    decreases n,
{
    let a = w.subrange(0, n).to_set().intersect(o.to_set());
    if n == 0 {
        assert(a =~= Set::<u64>::empty());
    } else {
        lemma_common_prefix_set(w, o, n - 1);
        let p = w.subrange(0, n - 1);
        let x = w[n - 1];
        let b = p.to_set().intersect(o.to_set());
        assert(w.subrange(0, n) == p.push(x));
        lemma_push_to_set(p, x);
        if o.contains(x) && !p.contains(x) {
            assert(a =~= b.insert(x));
            assert(!b.contains(x));
        } else {
            assert(a =~= b);
        }
    }
}

/// The match count of a card is the size of the intersection of its winning
/// numbers and our numbers, taken as sets.
pub proof fn lemma_overlap_is_intersection(w: Seq<u64>, o: Seq<u64>)
    ensures
        overlap(w, o) == w.to_set().intersect(o.to_set()).len(),
{
    lemma_common_prefix_set(w, o, w.len() as int);
    assert(w.subrange(0, w.len() as int) == w);
}

/// Handing out copies: once a card at index `card` with multiplicity `c` has
/// won `k` matches, each of the next `k` counters holds `c` more than it did
/// (an unset counter reading as 1), and every other counter is unchanged.
pub proof fn lemma_spread_adds(t: Seq<u32>, card: int, c: u32, k: int)
    requires
        0 <= card,
        0 <= k,
        spread(t, card, c, k) is Some,
    ensures
        spread(t, card, c, k)->0.len() >= t.len(),
        k > 0 ==> spread(t, card, c, k)->0.len() >= card + k + 1,
        forall|j: int|
            0 <= j < spread(t, card, c, k)->0.len() ==> #[trigger] spread(t, card, c, k)->0[j] == padded(
                t,
                spread(t, card, c, k)->0.len(),
            )[j] + if card < j <= card + k {
                c as int
            } else {
                0
            },
    decreases k,
{
    if k > 0 {
        lemma_spread_adds(t, card, c, k - 1);
        let u1 = spread(t, card, c, k - 1)->0;
        let idx = card + k;
        let p = padded(u1, (idx + 1) as nat);
        let u = spread(t, card, c, k)->0;
        assert(u == p.update(idx, (p[idx] + c) as u32));
        assert forall|j: int| 0 <= j < u.len() implies #[trigger] u[j] == padded(t, u.len())[j] + if card < j <= card + k {
            c as int
        } else {
            0
        } by {
            if j < u1.len() {
                assert(p[j] == u1[j]);
                assert(u1[j] == padded(t, u1.len())[j] + if card < j <= card + k - 1 {
                    c as int
                } else {
                    0
                });
                if j < t.len() {
                    assert(padded(t, u1.len())[j] == t[j]);
                    assert(padded(t, u.len())[j] == t[j]);
                } else {
                    assert(padded(t, u1.len())[j] == 1);
                    assert(padded(t, u.len())[j] == 1);
                }
            } else {
                assert(p[j] == 1);
                assert(j >= t.len());
                assert(padded(t, u.len())[j] == 1);
            }
        }
    } else {
        assert(padded(t, t.len()) == t);
    }
}

/// The number of copies of card `i` once every card has handed out its own:
/// one, plus the copies of each earlier card whose wins reach card `i`.
pub open spec fn copies(ov: Seq<usize>, i: int) -> int
    decreases i, 1int,
{
    1 + reach_sum(ov, i, i)
}

/// The copies of the cards `j < m` with `j < x <= j + ov[j]`.
pub open spec fn reach_sum(ov: Seq<usize>, x: int, m: int) -> int
    decreases m, 0int,
{
    if m <= 0 {
        0
    } else {
        reach_sum(ov, x, m - 1) + if m - 1 < x && x <= m - 1 + ov[m - 1] {
            copies(ov, m - 1)
        } else {
            0
        }
    }
}

/// The copies of the first `n` cards, added up.
pub open spec fn copies_sum(ov: Seq<usize>, n: int) -> int
    decreases n,
{
    if n <= 0 {
        0
    } else {
        copies_sum(ov, n - 1) + copies(ov, n - 1)
    }
}

/// The counter at index `x` of table `t`, an unset one reading as 1.
pub open spec fn at(t: Seq<u32>, x: int) -> int {
    if x < t.len() {
        t[x] as int
    } else {
        1
    }
}

/// After the first `n` cards have handed out their copies, each counter of
/// the table holds one plus the copies of the processed cards that reach
/// it, and the count of card instances so far is the sum of their copies.
pub proof fn lemma_play_closed_form(ov: Seq<usize>, n: int)
    requires
        0 <= n <= ov.len(),
        play(ov, n) is Some,
    ensures
        (play(ov, n)->0).1 == copies_sum(ov, n),
        forall|x: int|
            0 <= x ==> #[trigger] at((play(ov, n)->0).0, x) == 1 + reach_sum(
                ov,
                x,
                if x < n {
                    x
                } else {
                    n
                },
            ),
    decreases n,
{
    if n > 0 {
        let m = n - 1;
        lemma_play_none_prefix(ov, m, n);
        lemma_play_closed_form(ov, m);
        let (t, total) = play(ov, m)->0;
        let p = padded(t, n as nat);
        let c = p[m];
        let k = ov[m] as int;
        assert(at(t, m) == 1 + reach_sum(ov, m, m));
        assert(c == at(t, m));
        assert(c == copies(ov, m));
        lemma_spread_adds(p, m, c, k);
        let u = spread(p, m, c, k)->0;
        assert(play(ov, n)->0 == (u, (total + c) as nat));
        assert forall|x: int| 0 <= x implies #[trigger] at(u, x) == 1 + reach_sum(
            ov,
            x,
            if x < n {
                x
            } else {
                n
            },
        ) by {
            assert(at(t, x) == 1 + reach_sum(ov, x, if x < m { x } else { m }));
            if x < u.len() {
                assert(u[x] == padded(p, u.len())[x] + if m < x <= m + k {
                    c as int
                } else {
                    0
                });
                assert(padded(p, u.len())[x] == at(t, x));
            } else {
                assert(at(t, x) == 1);
            }
        }
    }
}

proof fn lemma_play_none_prefix(ov: Seq<usize>, i: int, n: int)
    requires
        0 <= i <= n,
        play(ov, n) is Some,
    ensures
        play(ov, i) is Some,
    decreases n - i,
{
    if i < n {
        if play(ov, i) is None {
            if i > 0 {
                lemma_play_none(ov, i, n);
            }
        }
    }
}

/// The total that `total_cards` returns is the sum over all cards of their
/// copies in closed form.
pub proof fn lemma_total_cards_closed_form(ov: Seq<usize>)
    requires
        play(ov, ov.len() as int) is Some,
    ensures
        (play(ov, ov.len() as int)->0).1 == copies_sum(ov, ov.len() as int),
{
    lemma_play_closed_form(ov, ov.len() as int);
}

} // verus!
