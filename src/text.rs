//! Byte-level scanning shared by the solvers: digits, decimal numbers,
//! whitespace-separated fields and separator-delimited pieces.
use vstd::prelude::*;

verus! {

pub open spec fn is_digit(b: u8) -> bool {
    48 <= b && b <= 57
}

/// ASCII whitespace: space, tab, line feed, form feed, carriage return.
pub open spec fn is_space(b: u8) -> bool {
    b == 32 || b == 9 || b == 10 || b == 12 || b == 13
}

/// The value of a run of decimal digits, most significant first.
pub open spec fn decimal(s: Seq<u8>) -> nat
    decreases s.len(),
{
    if s.len() == 0 {
        0
    } else {
        decimal(s.drop_last()) * 10 + (s.last() - 48) as nat
    }
}

pub open spec fn all_digits(s: Seq<u8>) -> bool {
    forall|i: int| 0 <= i < s.len() ==> is_digit(#[trigger] s[i])
}

/// `s` is a non-empty run of digits whose value is at most `max`.
pub open spec fn is_number(s: Seq<u8>, max: nat) -> bool {
    s.len() > 0 && all_digits(s) && decimal(s) <= max
}

proof fn lemma_decimal_prefix(s: Seq<u8>, i: int)
    requires
        0 <= i <= s.len(),
    ensures
        decimal(s.subrange(0, i)) <= decimal(s),
    decreases s.len(),
{
    if i < s.len() {
        assert(s.drop_last() == s.subrange(0, s.len() - 1));
        lemma_decimal_prefix(s.drop_last(), i);
        assert(s.drop_last().subrange(0, i) == s.subrange(0, i));
    } else {
        assert(s.subrange(0, i) == s);
    }
}

/// Reads a decimal number made of digits alone.
pub fn parse_u64(s: &[u8]) -> (r: Option<u64>)
    ensures
        r is Some <==> is_number(s@, u64::MAX as nat),
        r is Some ==> r->0 == decimal(s@),
{
    if s.len() == 0 {
        return None;
    }
    let mut v: u64 = 0;
    let mut i: usize = 0;
    while i < s.len()
        invariant
            0 <= i <= s.len(),
            v == decimal(s@.subrange(0, i as int)),
            all_digits(s@.subrange(0, i as int)),
        decreases s.len() - i,
    {
        let b = s[i];
        if b < 48 || b > 57 {
            assert(!is_digit(s@[i as int]));
            return None;
        }
        let d = (b - 48) as u64;
        assert(s@.subrange(0, i + 1).drop_last() == s@.subrange(0, i as int));
        if v > (u64::MAX - d) / 10 {
            assert(v * 10 + d > u64::MAX) by (nonlinear_arith)
                requires
                    v > (u64::MAX - d) / 10,
                    d <= 9,
            ;
            proof {
                lemma_decimal_prefix(s@, i + 1);
            }
            return None;
        }
        assert(v * 10 + d <= u64::MAX) by (nonlinear_arith)
            requires
                v <= (u64::MAX - d) / 10,
                d <= 9,
        ;
        v = v * 10 + d;
        i += 1;
        assert(all_digits(s@.subrange(0, i as int))) by {
            assert forall|j: int| 0 <= j < i implies is_digit(#[trigger] s@.subrange(0, i as int)[j]) by {
                if j < i - 1 {
                    assert(s@.subrange(0, i as int)[j] == s@.subrange(0, i - 1)[j]);
                }
            }
        }
    }
    assert(s@.subrange(0, s.len() as int) == s@);
    Some(v)
}

/// The whitespace-separated fields of `s` from position `i` on, where `cur`
/// holds the bytes of the field that position `i` is inside of.
pub open spec fn fields_from(s: Seq<u8>, i: int, cur: Seq<u8>) -> Seq<Seq<u8>>
    decreases s.len() - i,
{
    if i >= s.len() {
        if cur.len() > 0 {
            seq![cur]
        } else {
            Seq::empty()
        }
    } else if is_space(s[i]) {
        if cur.len() > 0 {
            seq![cur] + fields_from(s, i + 1, Seq::empty())
        } else {
            fields_from(s, i + 1, Seq::empty())
        }
    } else {
        fields_from(s, i + 1, cur.push(s[i]))
    }
}

/// The maximal runs of non-whitespace bytes of `s`, in order.
pub open spec fn fields(s: Seq<u8>) -> Seq<Seq<u8>> {
    fields_from(s, 0, Seq::empty())
}

/// The pieces of `s` from position `i` on between occurrences of `sep`,
/// where `cur` holds the bytes of the piece that position `i` is inside of.
pub open spec fn pieces_from(s: Seq<u8>, sep: u8, i: int, cur: Seq<u8>) -> Seq<Seq<u8>>
    decreases s.len() - i,
{
    if i >= s.len() {
        seq![cur]
    } else if s[i] == sep {
        seq![cur] + pieces_from(s, sep, i + 1, Seq::empty())
    } else {
        pieces_from(s, sep, i + 1, cur.push(s[i]))
    }
}

/// `s` cut at every occurrence of `sep`; `n` separators give `n + 1` pieces.
pub open spec fn pieces(s: Seq<u8>, sep: u8) -> Seq<Seq<u8>> {
    pieces_from(s, sep, 0, Seq::empty())
}

pub open spec fn views(v: Seq<Vec<u8>>) -> Seq<Seq<u8>> {
    v.map_values(|x: Vec<u8>| x@)
}

/// The decimal values of a sequence of fields that are all numbers.
pub open spec fn values(fs: Seq<Seq<u8>>) -> Seq<u64> {
    fs.map_values(|f: Seq<u8>| decimal(f) as u64)
}

/// Every whitespace-separated field of `s` is a number that fits in a `u64`.
pub open spec fn numbers_ok(s: Seq<u8>) -> bool {
    forall|k: int| 0 <= k < fields(s).len() ==> is_number(#[trigger] fields(s)[k], u64::MAX as nat)
}

/// The position of the first occurrence of `b` in `s`, where there is one.
pub open spec fn first_index(s: Seq<u8>, b: u8) -> int {
    choose|p: int| 0 <= p < s.len() && s[p] == b && !s.subrange(0, p).contains(b)
}

/// What comes before the first `b` of `s`.
pub open spec fn before(s: Seq<u8>, b: u8) -> Seq<u8> {
    s.subrange(0, first_index(s, b))
}

/// What comes after the first `b` of `s`.
pub open spec fn after(s: Seq<u8>, b: u8) -> Seq<u8> {
    s.subrange(first_index(s, b) + 1, s.len() as int)
}

proof fn lemma_first_index(s: Seq<u8>, b: u8, p: int)
    requires
        0 <= p < s.len(),
        s[p] == b,
        !s.subrange(0, p).contains(b),
    ensures
        first_index(s, b) == p,
{
    let q = first_index(s, b);
    assert(0 <= q < s.len() && s[q] == b && !s.subrange(0, q).contains(b));
    if q < p {
        assert(s.subrange(0, p)[q] == b);
    } else if p < q {
        assert(s.subrange(0, q)[p] == b);
    }
}

/// Splits `s` into its whitespace-separated fields.
pub fn split_fields(s: &[u8]) -> (r: Vec<Vec<u8>>)
    ensures
        views(r@) == fields(s@),
{
    let mut out: Vec<Vec<u8>> = Vec::new();
    let mut cur: Vec<u8> = Vec::new();
    let mut i: usize = 0;
    while i < s.len()
        invariant
            0 <= i <= s.len(),
            views(out@) + fields_from(s@, i as int, cur@) == fields(s@),
        decreases s.len() - i,
    {
        let b = s[i];
        if b == 32 || b == 9 || b == 10 || b == 12 || b == 13 {
            if cur.len() > 0 {
                let ghost old_out = views(out@);
                let ghost c = cur@;
                out.push(cur);
                cur = Vec::new();
                assert(views(out@) == old_out.push(c));
                assert(old_out + (seq![c] + fields_from(s@, i + 1, Seq::empty())) == old_out.push(c)
                    + fields_from(s@, i + 1, Seq::empty()));
            } else {
                assert(cur@ =~= Seq::<u8>::empty());
            }
        } else {
            cur.push(b);
        }
        i += 1;
    }
    if cur.len() > 0 {
        let ghost old_out = views(out@);
        let ghost c = cur@;
        out.push(cur);
        assert(views(out@) == old_out.push(c));
    } else {
        assert(views(out@) + Seq::<Seq<u8>>::empty() == views(out@));
    }
    out
}

/// Splits `s` at every occurrence of `sep`.
pub fn split_on(s: &[u8], sep: u8) -> (r: Vec<Vec<u8>>)
    ensures
        views(r@) == pieces(s@, sep),
{
    let mut out: Vec<Vec<u8>> = Vec::new();
    let mut cur: Vec<u8> = Vec::new();
    let mut i: usize = 0;
    while i < s.len()
        invariant
            0 <= i <= s.len(),
            views(out@) + pieces_from(s@, sep, i as int, cur@) == pieces(s@, sep),
        decreases s.len() - i,
    {
        let b = s[i];
        if b == sep {
            let ghost old_out = views(out@);
            let ghost c = cur@;
            out.push(cur);
            cur = Vec::new();
            assert(views(out@) == old_out.push(c));
            assert(old_out + (seq![c] + pieces_from(s@, sep, i + 1, Seq::empty())) == old_out.push(c)
                + pieces_from(s@, sep, i + 1, Seq::empty()));
        } else {
            cur.push(b);
        }
        i += 1;
    }
    let ghost old_out = views(out@);
    let ghost c = cur@;
    out.push(cur);
    assert(views(out@) == old_out.push(c));
    out
}

/// Reads every whitespace-separated field of `s` as a decimal number.
pub fn parse_numbers(s: &[u8]) -> (r: Option<Vec<u64>>)
    ensures
        r is Some <==> numbers_ok(s@),
        r is Some ==> r->0@ == values(fields(s@)),
{
    let fs = split_fields(s);
    let mut out: Vec<u64> = Vec::new();
    let mut k: usize = 0;
    while k < fs.len()
        invariant
            0 <= k <= fs.len(),
            views(fs@) == fields(s@),
            out@.len() == k,
            forall|j: int| 0 <= j < k ==> is_number(#[trigger] fields(s@)[j], u64::MAX as nat),
            forall|j: int| 0 <= j < k ==> out@[j] == decimal(#[trigger] fields(s@)[j]),
        decreases fs.len() - k,
    {
        assert(fs@[k as int]@ == fields(s@)[k as int]);
        match parse_u64(fs[k].as_slice()) {
            Some(v) => {
                out.push(v);
            },
            None => {
                return None;
            },
        }
        k += 1;
    }
    assert(out@ =~= values(fields(s@)));
    Some(out)
}

/// The position of the first occurrence of `b` in `s`.
pub fn find_byte(s: &[u8], b: u8) -> (r: Option<usize>)
    ensures
        r is None <==> !s@.contains(b),
        r is Some ==> r->0 < s@.len() && r->0 == first_index(s@, b),
{
    let mut i: usize = 0;
    while i < s.len()
        invariant
            0 <= i <= s.len(),
            !s@.subrange(0, i as int).contains(b),
        decreases s.len() - i,
    {
        if s[i] == b {
            proof {
                lemma_first_index(s@, b, i as int);
            }
            return Some(i);
        }
        assert(s@.subrange(0, i + 1) == s@.subrange(0, i as int).push(s@[i as int]));
        i += 1;
    }
    assert(s@.subrange(0, s.len() as int) == s@);
    None
}

/// A copy of `s[lo..hi]`.
pub fn copy_range(s: &[u8], lo: usize, hi: usize) -> (r: Vec<u8>)
    requires
        lo <= hi <= s@.len(),
    ensures
        r@ == s@.subrange(lo as int, hi as int),
{
    let mut out: Vec<u8> = Vec::new();
    let mut i: usize = lo;
    while i < hi
        invariant
            lo <= i <= hi,
            hi <= s@.len(),
            out@ == s@.subrange(lo as int, i as int),
        decreases hi - i,
    {
        out.push(s[i]);
        i += 1;
        assert(out@ =~= s@.subrange(lo as int, i as int));
    }
    out
}

/// Cuts `s` at the first occurrence of `b`: the bytes before it and after it.
pub fn split_once(s: &[u8], b: u8) -> (r: Option<(Vec<u8>, Vec<u8>)>)
    ensures
        r is None <==> !s@.contains(b),
        r matches Some((x, y)) ==> x@ == before(s@, b) && y@ == after(s@, b),
{
    match find_byte(s, b) {
        None => None,
        Some(p) => {
            let n = s.len();
            assert(p < n);
            let x = copy_range(s, 0, p);
            let y = copy_range(s, p + 1, n);
            Some((x, y))
        },
    }
}

/// Whether two byte strings are equal.
pub fn bytes_eq(a: &[u8], b: &[u8]) -> (r: bool)
    ensures
        r == (a@ == b@),
{
    if a.len() != b.len() {
        return false;
    }
    let mut i: usize = 0;
    while i < a.len()
        invariant
            i <= a@.len(),
            a@.len() == b@.len(),
            a@.subrange(0, i as int) == b@.subrange(0, i as int),
        decreases a.len() - i,
    {
        if a[i] != b[i] {
            return false;
        }
        assert(a@.subrange(0, i + 1) == a@.subrange(0, i as int).push(a@[i as int]));
        assert(b@.subrange(0, i + 1) == b@.subrange(0, i as int).push(b@[i as int]));
        i += 1;
    }
    assert(a@ == a@.subrange(0, a@.len() as int));
    assert(b@ == b@.subrange(0, b@.len() as int));
    true
}

/// The value of a decimal number with an optional leading `-` or `+`, where
/// it fits in an `i64`.
pub open spec fn signed_value(s: Seq<u8>) -> Option<int> {
    let d = s.subrange(1, s.len() as int);
    if s.len() > 0 && s[0] == 45 {
        if is_number(d, 0x8000_0000_0000_0000) {
            Some(-(decimal(d) as int))
        } else {
            None
        }
    } else if s.len() > 0 && s[0] == 43 {
        if is_number(d, i64::MAX as nat) {
            Some(decimal(d) as int)
        } else {
            None
        }
    } else if is_number(s, i64::MAX as nat) {
        Some(decimal(s) as int)
    } else {
        None
    }
}

/// Reads a decimal number with an optional leading sign.
pub fn parse_i64(s: &[u8]) -> (r: Option<i64>)
    ensures
        r is Some <==> signed_value(s@) is Some,
        r is Some ==> r->0 == signed_value(s@)->0,
{
    let n = s.len();
    if n > 0 && (s[0] == 45 || s[0] == 43) {
        let digits = copy_range(s, 1, n);
        let v = match parse_u64(digits.as_slice()) {
            Some(v) => v,
            None => return None,
        };
        if s[0] == 45 {
            if v > 0x8000_0000_0000_0000 {
                None
            } else if v == 0x8000_0000_0000_0000 {
                Some(i64::MIN)
            } else {
                Some(-(v as i64))
            }
        } else if v > i64::MAX as u64 {
            None
        } else {
            Some(v as i64)
        }
    } else {
        match parse_u64(s) {
            Some(v) => if v > i64::MAX as u64 {
                None
            } else {
                Some(v as i64)
            },
            None => None,
        }
    }
}

/// Every whitespace-separated field of `s` is a signed number that fits in
/// an `i64`.
pub open spec fn signed_ok(s: Seq<u8>) -> bool {
    forall|k: int| 0 <= k < fields(s).len() ==> (#[trigger] signed_value(fields(s)[k])) is Some
}

/// The values of a sequence of fields that are all signed numbers.
pub open spec fn signed_values(fs: Seq<Seq<u8>>) -> Seq<i64> {
    fs.map_values(|f: Seq<u8>| signed_value(f)->0 as i64)
}

/// Reads every whitespace-separated field of `s` as a signed decimal number.
pub fn parse_signed_numbers(s: &[u8]) -> (r: Option<Vec<i64>>)
    ensures
        r is Some <==> signed_ok(s@),
        r is Some ==> r->0@ == signed_values(fields(s@)),
{
    let fs = split_fields(s);
    let mut out: Vec<i64> = Vec::new();
    let mut k: usize = 0;
    while k < fs.len()
        invariant
            0 <= k <= fs.len(),
            views(fs@) == fields(s@),
            out@.len() == k,
            forall|j: int| 0 <= j < k ==> (#[trigger] signed_value(fields(s@)[j])) is Some,
            forall|j: int| 0 <= j < k ==> out@[j] == (#[trigger] signed_value(fields(s@)[j]))->0,
        decreases fs.len() - k,
    {
        assert(fs@[k as int]@ == fields(s@)[k as int]);
        match parse_i64(fs[k].as_slice()) {
            Some(v) => {
                out.push(v);
            },
            None => {
                return None;
            },
        }
        k += 1;
    }
    assert(out@ =~= signed_values(fields(s@)));
    Some(out)
}

} // verus!
