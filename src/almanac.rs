//! The seed almanac: seven piecewise-linear remapping stages, each a list of
//! half-open source ranges with an offset, applied in order from seed to
//! location.
use crate::text::{bytes_eq, copy_range, fields, parse_signed_numbers, signed_ok, signed_values, views};
use rayon::prelude::{IntoParallelRefIterator, ParallelIterator};
use vstd::prelude::*;
use vstd::string::StringSliceAdditionalSpecFns;

verus! {

/// Moves the values in `[source_start, source_end)` by `delta`.
#[derive(Clone, Copy, Debug)]
pub struct Range {
    pub source_start: i64,
    pub source_end: i64,
    pub delta: i64,
}

/// The seven stage headers, in pipeline order.
pub open spec fn header(k: int) -> Seq<u8> {
    if k == 0 {
        "seed-to-soil map:".spec_bytes()
    } else if k == 1 {
        "soil-to-fertilizer map:".spec_bytes()
    } else if k == 2 {
        "fertilizer-to-water map:".spec_bytes()
    } else if k == 3 {
        "water-to-light map:".spec_bytes()
    } else if k == 4 {
        "light-to-temperature map:".spec_bytes()
    } else if k == 5 {
        "temperature-to-humidity map:".spec_bytes()
    } else {
        "humidity-to-location map:".spec_bytes()
    }
}

/// The stage that a header line opens, if it is one.
pub open spec fn header_of(s: Seq<u8>) -> Option<int> {
    if s == header(0) {
        Some(0)
    } else if s == header(1) {
        Some(1)
    } else if s == header(2) {
        Some(2)
    } else if s == header(3) {
        Some(3)
    } else if s == header(4) {
        Some(4)
    } else if s == header(5) {
        Some(5)
    } else if s == header(6) {
        Some(6)
    } else {
        None
    }
}

/// The range that a line "<dest-start> <source-start> <length>" describes,
/// where it has three signed numbers and its end and its offset fit in an
/// `i64`.
pub open spec fn range_of(s: Seq<u8>) -> Option<Range> {
    let fs = fields(s);
    if signed_ok(s) && fs.len() == 3 {
        let v = signed_values(fs);
        let (a, b, c) = (v[0] as int, v[1] as int, v[2] as int);
        if fits(b + c) && fits(a - b) {
            Some(Range { source_start: b as i64, source_end: (b + c) as i64, delta: (a - b) as i64 })
        } else {
            None
        }
    } else {
        None
    }
}

/// `x` is a value of `i64`.
pub open spec fn fits(x: int) -> bool {
    i64::MIN <= x <= i64::MAX
}

impl Range {

    /// Where the range sends `v`, if it covers it.
    pub open spec fn maps(self, v: int) -> Option<int> {
        if self.source_start <= v < self.source_end {
            Some(v + self.delta)
        } else {
            None
        }
    }

    /// Reads a line "<dest-start> <source-start> <length>".
    pub fn new(line: &[u8]) -> (r: Option<Range>)
        ensures
            r == range_of(line@),
    {
        let nums = match parse_signed_numbers(line) {
            Some(v) => v,
            None => return None,
        };
        if nums.len() != 3 {
            return None;
        }
        let a = nums[0];
        let b = nums[1];
        let c = nums[2];
        let end = match b.checked_add(c) {
            Some(e) => e,
            None => return None,
        };
        let delta = match a.checked_sub(b) {
            Some(d) => d,
            None => return None,
        };
        Some(Range { source_start: b, source_end: end, delta })
    }

    /// `v` moved by the range, where the range covers it and the moved
    /// value fits in an `i64`.
    pub fn apply(&self, v: i64) -> (r: Option<i64>)
        ensures
            r is Some <==> self.maps(v as int) is Some && fits(self.maps(v as int)->0),
            r is Some ==> r->0 == self.maps(v as int)->0,
    {
        if self.source_start <= v && v < self.source_end {
            v.checked_add(self.delta)
        } else {
            None
        }
    }
}

/// Where the first range of `rs[i..]` that covers `v` sends it; `v` itself
/// where none does.
pub open spec fn map_from(rs: Seq<Range>, i: int, v: int) -> int
    decreases rs.len() - i,
{
    if i >= rs.len() {
        v
    } else {
        match rs[i].maps(v) {
            Some(w) => w,
            None => map_from(rs, i + 1, v),
        }
    }
}

/// The remapping of one stage: the first range that covers `v` wins.
pub open spec fn map_value(rs: Seq<Range>, v: int) -> int {
    map_from(rs, 0, v)
}


/// One stage of the almanac: an ordered list of ranges.
pub struct RangeMap {
    pub ranges: Vec<Range>,
}

impl RangeMap {
    /// A stage without ranges: every value passes through.
    pub fn new() -> (r: RangeMap)
        ensures
            r.ranges@ == Seq::<Range>::empty(),
    {
        RangeMap { ranges: Vec::new() }
    }

    /// Appends the range that `line` describes; `false`, with the stage
    /// unchanged, where the line describes none.
    pub fn feed(&mut self, line: &[u8]) -> (ok: bool)
        ensures
            ok <==> range_of(line@) is Some,
            ok ==> final(self).ranges@ == old(self).ranges@.push(range_of(line@)->0),
            !ok ==> *final(self) == *old(self),
    {
        match Range::new(line) {
            Some(r) => {
                self.ranges.push(r);
                true
            },
            None => false,
        }
    }

    /// `v` sent through the stage; `None` where the value it is sent to does
    /// not fit in an `i64`.
    pub fn apply(&self, v: i64) -> (r: Option<i64>)
        ensures
            r is Some <==> fits(map_value(self.ranges@, v as int)),
            r is Some ==> r->0 == map_value(self.ranges@, v as int),
    {
        let mut i: usize = 0;
        while i < self.ranges.len()
            invariant
                i <= self.ranges@.len(),
                map_from(self.ranges@, i as int, v as int) == map_value(self.ranges@, v as int),
            decreases self.ranges.len() - i,
        {
            let range = &self.ranges[i];
            if range.source_start <= v && v < range.source_end {
                return range.apply(v);
            }
            i += 1;
        }
        Some(v)
    }
}

/// The stage that a header line opens, if it is one.
pub fn header_index(line: &[u8]) -> (r: Option<usize>)
    ensures
        r is Some <==> header_of(line@) is Some,
        r is Some ==> r->0 == header_of(line@)->0,
{
    if bytes_eq(line, "seed-to-soil map:".as_bytes()) {
        Some(0)
    } else if bytes_eq(line, "soil-to-fertilizer map:".as_bytes()) {
        Some(1)
    } else if bytes_eq(line, "fertilizer-to-water map:".as_bytes()) {
        Some(2)
    } else if bytes_eq(line, "water-to-light map:".as_bytes()) {
        Some(3)
    } else if bytes_eq(line, "light-to-temperature map:".as_bytes()) {
        Some(4)
    } else if bytes_eq(line, "temperature-to-humidity map:".as_bytes()) {
        Some(5)
    } else if bytes_eq(line, "humidity-to-location map:".as_bytes()) {
        Some(6)
    } else {
        None
    }
}

/// The stages read from `lines[i..]`, where `stage` is the stage that data
/// lines currently feed (none yet where negative) and `acc` the stages read
/// so far. Blank lines are skipped; a data line before any header, or one
/// that is no range, makes the whole almanac malformed.
pub open spec fn stages_from(lines: Seq<Seq<u8>>, i: int, stage: int, acc: Seq<Seq<Range>>) -> Option<
    Seq<Seq<Range>>,
>
    decreases lines.len() - i,
{
    if i < 0 || i >= lines.len() {
        Some(acc)
    } else if lines[i].len() == 0 {
        stages_from(lines, i + 1, stage, acc)
    } else {
        match header_of(lines[i]) {
            Some(k) => stages_from(lines, i + 1, k, acc),
            None => if stage < 0 {
                None
            } else {
                match range_of(lines[i]) {
                    None => None,
                    Some(r) => stages_from(lines, i + 1, stage, acc.update(stage, acc[stage].push(r))),
                }
            },
        }
    }
}

/// The seven stages that `lines[from..]` describe.
pub open spec fn stages_of(lines: Seq<Seq<u8>>, from: int) -> Option<Seq<Seq<Range>>> {
    stages_from(lines, from, -1, Seq::new(7, |_k: int| Seq::<Range>::empty()))
}

/// `v` sent through the first `k` stages of `maps`.
/// `v` sent through the first `k` stages of `maps`; `None` where a value on
/// the way leaves `i64`.
pub open spec fn chain(maps: Seq<Seq<Range>>, k: int, v: int) -> Option<int>
    decreases k,
{
    if k <= 0 {
        if fits(v) {
            Some(v)
        } else {
            None
        }
    } else {
        match chain(maps, k - 1, v) {
            None => None,
            Some(w) => if fits(map_value(maps[k - 1], w)) {
                Some(map_value(maps[k - 1], w))
            } else {
                None
            },
        }
    }
}

/// The full pipeline, seed to location.
pub struct Almanac {
    pub seed_to_soil: RangeMap,
    pub soil_to_fertilizer: RangeMap,
    pub fertilizer_to_water: RangeMap,
    pub water_to_light: RangeMap,
    pub light_to_temperature: RangeMap,
    pub temperature_to_humidity: RangeMap,
    pub humidity_to_location: RangeMap,
}

impl Almanac {
    /// The ranges of each stage, in pipeline order.
    pub open spec fn stages(&self) -> Seq<Seq<Range>> {
        seq![
            self.seed_to_soil.ranges@,
            self.soil_to_fertilizer.ranges@,
            self.fertilizer_to_water.ranges@,
            self.water_to_light.ranges@,
            self.light_to_temperature.ranges@,
            self.temperature_to_humidity.ranges@,
            self.humidity_to_location.ranges@,
        ]
    }

    /// The location that `seed` ends at.
    pub open spec fn locate(&self, seed: int) -> Option<int> {
        chain(self.stages(), 7, seed)
    }

    /// Reads the stages from `lines[from..]`.
    pub fn new(lines: &Vec<Vec<u8>>, from: usize) -> (r: Option<Almanac>)
        ensures
            r is Some <==> stages_of(views(lines@), from as int) is Some,
            r matches Some(a) ==> a.stages() == stages_of(views(lines@), from as int)->0,
    {
        let ghost ls = views(lines@);
        let mut out = Almanac {
            seed_to_soil: RangeMap::new(),
            soil_to_fertilizer: RangeMap::new(),
            fertilizer_to_water: RangeMap::new(),
            water_to_light: RangeMap::new(),
            light_to_temperature: RangeMap::new(),
            temperature_to_humidity: RangeMap::new(),
            humidity_to_location: RangeMap::new(),
        };
        assert(out.stages() =~= Seq::new(7, |_k: int| Seq::<Range>::empty()));
        let mut stage: Option<usize> = None;
        let mut i: usize = from;
        while i < lines.len()
            invariant
                ls == views(lines@),
                from <= i,
                i <= lines@.len() || i == from,
                stage matches Some(k) ==> k < 7,
                stages_from(ls, i as int, if stage is Some { stage->0 as int } else { -1 }, out.stages())
                    == stages_of(ls, from as int),
            decreases lines.len() - i,
        {
            let line = lines[i].as_slice();
            assert(ls[i as int] == line@);
            if line.len() == 0 {
            } else {
                match header_index(line) {
                    Some(k) => {
                        stage = Some(k);
                    },
                    None => {
                        let ghost before = out.stages();
                        let ok = match stage {
                            None => false,
                            Some(0) => out.seed_to_soil.feed(line),
                            Some(1) => out.soil_to_fertilizer.feed(line),
                            Some(2) => out.fertilizer_to_water.feed(line),
                            Some(3) => out.water_to_light.feed(line),
                            Some(4) => out.light_to_temperature.feed(line),
                            Some(5) => out.temperature_to_humidity.feed(line),
                            Some(_) => out.humidity_to_location.feed(line),
                        };
                        if !ok {
                            return None;
                        }
                        assert(out.stages() =~= before.update(
                            stage->0 as int,
                            before[stage->0 as int].push(range_of(line@)->0),
                        ));
                    },
                }
            }
            i += 1;
        }
        Some(out)
    }

    /// The location that `seed` ends at; `None` where a value on the way
    /// leaves `i64`.
    pub fn location(&self, seed: i64) -> (r: Option<i64>)
        ensures
            r is Some <==> self.locate(seed as int) is Some,
            r is Some ==> r->0 == self.locate(seed as int)->0,
    {
        proof {
            reveal_with_fuel(chain, 8);
        }
        let v = match self.seed_to_soil.apply(seed) {
            Some(v) => v,
            None => return None,
        };
        let v = match self.soil_to_fertilizer.apply(v) {
            Some(v) => v,
            None => return None,
        };
        let v = match self.fertilizer_to_water.apply(v) {
            Some(v) => v,
            None => return None,
        };
        let v = match self.water_to_light.apply(v) {
            Some(v) => v,
            None => return None,
        };
        let v = match self.light_to_temperature.apply(v) {
            Some(v) => v,
            None => return None,
        };
        let v = match self.temperature_to_humidity.apply(v) {
            Some(v) => v,
            None => return None,
        };
        self.humidity_to_location.apply(v)
    }

    /// The lowest location that any of `seeds` ends at; `None` where there
    /// is no seed, or where a seed's location cannot be worked out in `i64`.
    pub fn resolve(&self, seeds: &Vec<i64>) -> (r: Option<i64>)
        ensures
            r is Some <==> seeds@.len() > 0 && all_located(self.stages(), seeds@),
            r matches Some(m) ==> is_lowest(m as int, self.stages(), seeds@),
    {
        match min_location(self, seeds) {
            None => None,
            Some(x) => x,
        }
    }
}

/// Relies on rayon's `par_iter().map(..).min()`: `None` for no seed, else the
/// least of the values that `Almanac::location` gives for the seeds, ordered
/// as std orders `Option` (`None` below every `Some`).
#[verifier::external_body]
fn min_location(almanac: &Almanac, seeds: &Vec<i64>) -> (r: Option<Option<i64>>)
    ensures
        r is None <==> seeds@.len() == 0,
        r matches Some(x) ==> (x is None <==> exists|i: int|
            0 <= i < seeds@.len() && (#[trigger] almanac.locate(seeds@[i] as int)) is None),
        r matches Some(x) ==> (x matches Some(m) ==> is_lowest(m as int, almanac.stages(), seeds@)),
{
    seeds.par_iter().map(|s| almanac.location(*s)).min()
}

/// Every seed of `seeds` reaches a location within `i64` through `maps`.
pub open spec fn all_located(maps: Seq<Seq<Range>>, seeds: Seq<i64>) -> bool {
    forall|i: int| 0 <= i < seeds.len() ==> (#[trigger] chain(maps, 7, seeds[i] as int)) is Some
}

/// The seeds that a line "seeds: <n> <n> ..." lists, where each is a signed
/// number that fits in an `i64`.
pub open spec fn seeds_of(line: Seq<u8>) -> Option<Seq<i64>> {
    let rest = line.subrange(6, line.len() as int);
    if line.len() >= 6 && line.subrange(0, 6) == "seeds:".spec_bytes() && signed_ok(rest) {
        Some(signed_values(fields(rest)))
    } else {
        None
    }
}

/// Reads the first line of an almanac, "seeds: <n> <n> ...".
pub fn parse_seeds(line: &[u8]) -> (r: Option<Vec<i64>>)
    ensures
        r is Some <==> seeds_of(line@) is Some,
        r is Some ==> r->0@ == seeds_of(line@)->0,
{
    let n = line.len();
    if n < 6 {
        return None;
    }
    let head = copy_range(line, 0, 6);
    if !bytes_eq(head.as_slice(), "seeds:".as_bytes()) {
        return None;
    }
    let rest = copy_range(line, 6, n);
    parse_signed_numbers(rest.as_slice())
}

/// The values `start, start + 1, ..., start + len - 1`.
pub open spec fn span(start: int, len: int) -> Seq<i64> {
    Seq::new(if len > 0 { len as nat } else { 0 }, |t: int| (start + t) as i64)
}

/// The first `k` pairs `(start, len)` of `nums`, each expanded to its values.
pub open spec fn expand_upto(nums: Seq<i64>, k: int) -> Seq<i64>
    decreases k,
{
    if k <= 0 {
        Seq::empty()
    } else {
        expand_upto(nums, k - 1) + span(nums[2 * k - 2] as int, nums[2 * k - 1] as int)
    }
}

/// `nums` is a list of pairs `(start, len)` whose ends fit in an `i64`.
pub open spec fn pairs_ok(nums: Seq<i64>) -> bool {
    nums.len() % 2 == 0 && forall|k: int|
        0 <= k < nums.len() / 2 ==> i64::MIN <= #[trigger] nums[2 * k] + nums[2 * k + 1] <= i64::MAX
}

/// Expands each pair `(start, len)` of `nums` into every value of the range.
pub fn expand_seed_ranges(nums: &Vec<i64>) -> (r: Option<Vec<i64>>)
    ensures
        r is Some <==> pairs_ok(nums@),
        r is Some ==> r->0@ == expand_upto(nums@, nums@.len() as int / 2),
{
    let n = nums.len();
    if n % 2 != 0 {
        return None;
    }
    let mut out: Vec<i64> = Vec::new();
    let mut k: usize = 0;
    while k < n / 2
        invariant
            n == nums@.len(),
            n % 2 == 0,
            k <= n / 2,
            out@ == expand_upto(nums@, k as int),
            forall|j: int| 0 <= j < k ==> i64::MIN <= #[trigger] nums@[2 * j] + nums@[2 * j + 1] <= i64::MAX,
        decreases n / 2 - k,
    {
        let start = nums[2 * k];
        let len = nums[2 * k + 1];
        if start.checked_add(len).is_none() {
            return None;
        }
        let ghost prefix = out@;
        let mut t: i64 = 0;
        while t < len
            invariant
                0 <= t,
                len > 0 ==> t <= len,
                len <= 0 ==> t == 0,
                i64::MIN <= start + len <= i64::MAX,
                out@ == prefix + span(start as int, t as int),
            decreases len - t,
        {
            out.push(start + t);
            t += 1;
            assert(out@ =~= prefix + span(start as int, t as int));
        }
        assert(span(start as int, t as int) =~= span(start as int, len as int));
        k += 1;
    }
    Some(out)
}

/// The seeds that an almanac's first line gives: as listed, or with `ranges`
/// each pair `(start, len)` expanded to its values.
pub open spec fn seed_values(line: Seq<u8>, ranges: bool) -> Option<Seq<i64>> {
    match seeds_of(line) {
        None => None,
        Some(s) => if !ranges {
            Some(s)
        } else if pairs_ok(s) {
            Some(expand_upto(s, s.len() as int / 2))
        } else {
            None
        },
    }
}

/// `m` is the least location that a seed of `seeds` reaches through `maps`.
pub open spec fn is_lowest(m: int, maps: Seq<Seq<Range>>, seeds: Seq<i64>) -> bool {
    &&& exists|i: int| 0 <= i < seeds.len() && chain(maps, 7, #[trigger] seeds[i] as int) == Some(m)
    &&& forall|i: int|
        0 <= i < seeds.len() ==> (#[trigger] chain(maps, 7, seeds[i] as int)) is Some && m <= chain(
            maps,
            7,
            seeds[i] as int,
        )->0
}

/// The lowest location of an almanac: its first line lists the seeds (as
/// single values, or with `ranges` as pairs `(start, len)`), the rest its
/// stages.
pub fn lowest_location(lines: &Vec<Vec<u8>>, ranges: bool) -> (r: Option<i64>)
    ensures
        r is Some <==> lines@.len() > 0 && seed_values(lines@[0]@, ranges) is Some
            && seed_values(lines@[0]@, ranges)->0.len() > 0 && stages_of(views(lines@), 1) is Some
            && all_located(stages_of(views(lines@), 1)->0, seed_values(lines@[0]@, ranges)->0),
        r matches Some(m) ==> is_lowest(
            m as int,
            stages_of(views(lines@), 1)->0,
            seed_values(lines@[0]@, ranges)->0,
        ),
{
    if lines.len() == 0 {
        return None;
    }
    let listed = match parse_seeds(lines[0].as_slice()) {
        Some(v) => v,
        None => return None,
    };
    let seeds = if ranges {
        match expand_seed_ranges(&listed) {
            Some(v) => v,
            None => return None,
        }
    } else {
        listed
    };
    let almanac = match Almanac::new(lines, 1) {
        Some(a) => a,
        None => return None,
    };
    let r = almanac.resolve(&seeds);
    assert(almanac.stages() == stages_of(views(lines@), 1)->0);
    r
}

/// A range is half open: it moves its first value and every value up to, but
/// not including, its end; the end itself, and a value below the start, go
/// through a stage made of that range alone unchanged.
pub proof fn lemma_range_half_open(x: Range, v: int)
    ensures
        x.maps(x.source_end as int) is None,
        x.source_start < x.source_end ==> x.maps(x.source_start as int) == Some(x.source_start + x.delta),
        x.source_start <= v < x.source_end ==> map_value(seq![x], v) == v + x.delta,
        !(x.source_start <= v < x.source_end) ==> map_value(seq![x], v) == v,
{
    reveal_with_fuel(map_from, 2);
}

/// The lowest location is determined by the stages and the seeds alone: two
/// answers that both meet the contract of `Almanac::resolve` are equal,
/// whatever order the seeds were evaluated in.
pub proof fn lemma_lowest_unique(m1: int, m2: int, maps: Seq<Seq<Range>>, seeds: Seq<i64>)
    requires
        is_lowest(m1, maps, seeds),
        is_lowest(m2, maps, seeds),
    ensures
        m1 == m2,
{
    let i = choose|i: int| 0 <= i < seeds.len() && chain(maps, 7, #[trigger] seeds[i] as int) == Some(m1);
    let j = choose|j: int| 0 <= j < seeds.len() && chain(maps, 7, #[trigger] seeds[j] as int) == Some(m2);
    assert(m2 <= chain(maps, 7, seeds[i] as int)->0);
    assert(m1 <= chain(maps, 7, seeds[j] as int)->0);
}

} // verus!
