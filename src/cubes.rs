//! Cube games: "Game <id>: <round>; <round>; ..." where each round is
//! "<count> <colour>, <count> <colour>, ...".
use crate::text::{
    after, before, bytes_eq, decimal, fields, is_number, parse_u64, pieces, split_fields,
    split_on, split_once, views,
};
use vstd::prelude::*;
use vstd::string::StringSliceAdditionalSpecFns;

verus! {

/// How many cubes of each colour the bag holds.
pub struct Config {
    pub r: u32,
    pub g: u32,
    pub b: u32,
}

impl Config {
    /// The bag of the puzzle: 12 red, 13 green and 14 blue cubes.
    pub fn bag() -> (c: Config)
        ensures
            c.r == 12 && c.g == 13 && c.b == 14,
    {
        Config { r: 12, g: 13, b: 14 }
    }
}

/// The cubes of each colour shown in one round.
#[derive(Clone, Copy, Debug, PartialEq, Eq, Structural)]
pub struct Round {
    pub r: u32,
    pub g: u32,
    pub b: u32,
}

/// The colour that a name denotes: 0 for red, 1 for green, 2 for blue.
pub open spec fn colour_of(s: Seq<u8>) -> Option<int> {
    if s == "red".spec_bytes() {
        Some(0)
    } else if s == "green".spec_bytes() {
        Some(1)
    } else if s == "blue".spec_bytes() {
        Some(2)
    } else {
        None
    }
}

/// The round that the first `n` of its comma-separated parts `ps` give; a
/// colour named twice keeps its last count, one never named counts 0.
pub open spec fn round_upto(ps: Seq<Seq<u8>>, n: int) -> Option<Round>
    decreases n,
{
    if n <= 0 {
        Some(Round { r: 0, g: 0, b: 0 })
    } else {
        match round_upto(ps, n - 1) {
            None => None,
            Some(x) => {
                let f = fields(ps[n - 1]);
                if f.len() == 2 && is_number(f[0], u32::MAX as nat) {
                    let v = decimal(f[0]) as u32;
                    match colour_of(f[1]) {
                        None => None,
                        Some(c) => if c == 0 {
                            Some(Round { r: v, ..x })
                        } else if c == 1 {
                            Some(Round { g: v, ..x })
                        } else {
                            Some(Round { b: v, ..x })
                        },
                    }
                } else {
                    None
                }
            },
        }
    }
}

/// The round that `s` describes, where it is well formed.
#[verifier::opaque]
pub open spec fn round_of(s: Seq<u8>) -> Option<Round> {
    round_upto(pieces(s, 44u8), pieces(s, 44u8).len() as int)
}

proof fn lemma_round_none(ps: Seq<Seq<u8>>, i: int, n: int)
    requires
        0 < i <= n,
        round_upto(ps, i) is None,
    ensures
        round_upto(ps, n) is None,
    decreases n - i,
{
    if i < n {
        lemma_round_none(ps, i, n - 1);
    }
}

fn colour_index(s: &[u8]) -> (r: Option<usize>)
    ensures
        r is Some <==> colour_of(s@) is Some,
        r is Some ==> r->0 == colour_of(s@)->0,
{
    if bytes_eq(s, "red".as_bytes()) {
        Some(0)
    } else if bytes_eq(s, "green".as_bytes()) {
        Some(1)
    } else if bytes_eq(s, "blue".as_bytes()) {
        Some(2)
    } else {
        None
    }
}

impl Round {
    /// Reads a round "<count> <colour>, <count> <colour>, ...".
    pub fn new(input: &[u8]) -> (r: Option<Round>)
        ensures
            r == round_of(input@),
    {
        reveal(round_of);
        let parts = split_on(input, 44u8);
        let ghost ps = views(parts@);
        let mut x = Round { r: 0, g: 0, b: 0 };
        let mut i: usize = 0;
        while i < parts.len()
            invariant
                i <= parts@.len(),
                ps == views(parts@),
                ps == pieces(input@, 44u8),
                ps.len() == parts@.len(),
                round_upto(ps, i as int) == Some(x),
            decreases parts.len() - i,
        {
            proof {
                reveal(round_of);
            }
            assert(ps[i as int] == parts@[i as int]@);
            let f = split_fields(parts[i].as_slice());
            assert(views(f@).len() == f@.len());
            assert(fields(ps[i as int]) == views(f@));
            if f.len() != 2 {
                assert(round_upto(ps, i + 1) is None);
                proof { lemma_round_none(ps, i + 1, ps.len() as int); }
                return None;
            }
            assert(views(f@)[0] == f@[0]@ && views(f@)[1] == f@[1]@);
            let v = match parse_u64(f[0].as_slice()) {
                Some(v) => v,
                None => {
                    assert(round_upto(ps, i + 1) is None);
                    proof { lemma_round_none(ps, i + 1, ps.len() as int); }
                    return None;
                },
            };
            if v > u32::MAX as u64 {
                assert(round_upto(ps, i + 1) is None);
                proof { lemma_round_none(ps, i + 1, ps.len() as int); }
                return None;
            }
            match colour_index(f[1].as_slice()) {
                Some(0) => {
                    x = Round { r: v as u32, ..x };
                },
                Some(1) => {
                    x = Round { g: v as u32, ..x };
                },
                Some(_) => {
                    x = Round { b: v as u32, ..x };
                },
                None => {
                    proof { lemma_round_none(ps, i + 1, ps.len() as int); }
                    return None;
                },
            }
            i += 1;
        }
        Some(x)
    }

    /// Whether the bag `cfg` could have shown this round.
    pub fn is_valid(&self, cfg: &Config) -> (r: bool)
        ensures
            r == (self.r <= cfg.r && self.g <= cfg.g && self.b <= cfg.b),
    {
        self.r <= cfg.r && self.g <= cfg.g && self.b <= cfg.b
    }
}

/// The largest count of each colour seen so far in a game.
#[derive(Clone, Copy, Debug, PartialEq, Eq, Structural)]
pub struct Game {
    pub r: u32,
    pub g: u32,
    pub b: u32,
}

pub open spec fn max(a: u32, b: u32) -> u32 {
    if a >= b {
        a
    } else {
        b
    }
}

impl Game {
    /// A game before any round.
    pub fn new() -> (g: Game)
        ensures
            g == (Game { r: 0, g: 0, b: 0 }),
    {
        Game { r: 0, g: 0, b: 0 }
    }

    /// Takes a round into the per-colour maxima.
    pub fn update(&mut self, round: &Round)
        ensures
            *final(self) == (Game {
                r: max(old(self).r, round.r),
                g: max(old(self).g, round.g),
                b: max(old(self).b, round.b),
            }),
    {
        if round.r > self.r {
            self.r = round.r;
        }
        if round.g > self.g {
            self.g = round.g;
        }
        if round.b > self.b {
            self.b = round.b;
        }
    }

    /// The product of the three maxima.
    pub fn power(&self) -> (p: u128)
        ensures
            p == self.r * self.g * self.b,
    {
        let r = self.r as u128;
        let g = self.g as u128;
        let b = self.b as u128;
        assert(r * g <= 0xffff_ffff * 0xffff_ffff) by (nonlinear_arith)
            requires
                r <= 0xffff_ffff,
                g <= 0xffff_ffff,
        ;
        assert(r * g * b <= 0xffff_ffff * 0xffff_ffff * 0xffff_ffff) by (nonlinear_arith)
            requires
                r * g <= 0xffff_ffff * 0xffff_ffff,
                b <= 0xffff_ffff,
        ;
        r * g * b
    }
}

/// The rounds that the first `n` of the `;`-separated parts `ps` give.
pub open spec fn rounds_upto(ps: Seq<Seq<u8>>, n: int) -> Option<Seq<Round>>
    decreases n,
{
    if n <= 0 {
        Some(Seq::empty())
    } else {
        match rounds_upto(ps, n - 1) {
            None => None,
            Some(rs) => match round_of(ps[n - 1]) {
                None => None,
                Some(x) => Some(rs.push(x)),
            },
        }
    }
}

/// The id and the rounds of a line "Game <id>: <round>; <round>; ...", where
/// it is well formed.
#[verifier::opaque]
pub open spec fn game_of(line: Seq<u8>) -> Option<(u32, Seq<Round>)> {
    if !line.contains(58u8) {
        None
    } else {
        let h = fields(before(line, 58u8));
        if h.len() == 2 && h[0] == "Game".spec_bytes() && is_number(h[1], u32::MAX as nat) {
            let ps = pieces(after(line, 58u8), 59u8);
            match rounds_upto(ps, ps.len() as int) {
                None => None,
                Some(rs) => Some((decimal(h[1]) as u32, rs)),
            }
        } else {
            None
        }
    }
}

proof fn lemma_rounds_none(ps: Seq<Seq<u8>>, i: int, n: int)
    requires
        0 < i <= n,
        rounds_upto(ps, i) is None,
    ensures
        rounds_upto(ps, n) is None,
    decreases n - i,
{
    if i < n {
        lemma_rounds_none(ps, i, n - 1);
    }
}

/// Reads the `;`-separated rounds of a game.
pub fn parse_rounds(s: &[u8]) -> (r: Option<Vec<Round>>)
    ensures
        r is Some <==> rounds_upto(pieces(s@, 59u8), pieces(s@, 59u8).len() as int) is Some,
        r matches Some(rs) ==> rounds_upto(pieces(s@, 59u8), pieces(s@, 59u8).len() as int) == Some(rs@),
{
    let parts = split_on(s, 59u8);
    let ghost ps = views(parts@);
    assert(ps.len() == parts@.len());
    let mut rounds: Vec<Round> = Vec::new();
    let mut i: usize = 0;
    while i < parts.len()
        invariant
            i <= parts@.len(),
            ps == views(parts@),
            ps == pieces(s@, 59u8),
            ps.len() == parts@.len(),
            rounds_upto(ps, i as int) == Some(rounds@),
        decreases parts.len() - i,
    {
        assert(ps[i as int] == parts@[i as int]@);
        match Round::new(parts[i].as_slice()) {
            Some(x) => rounds.push(x),
            None => {
                assert(rounds_upto(ps, i + 1) is None);
                proof { lemma_rounds_none(ps, i + 1, ps.len() as int); }
                return None;
            },
        }
        i += 1;
    }
    Some(rounds)
}

/// Reads a game line.
pub fn parse_game(line: &[u8]) -> (r: Option<(u32, Vec<Round>)>)
    ensures
        r is Some <==> game_of(line@) is Some,
        r matches Some((id, rs)) ==> game_of(line@) == Some((id, rs@)),
{
    reveal(game_of);
    let (head, rest) = match split_once(line, 58u8) {
        Some(parts) => parts,
        None => return None,
    };
    let h = split_fields(head.as_slice());
    assert(views(h@).len() == h@.len());
    if h.len() != 2 {
        return None;
    }
    assert(views(h@)[0] == h@[0]@ && views(h@)[1] == h@[1]@);
    if !bytes_eq(h[0].as_slice(), "Game".as_bytes()) {
        return None;
    }
    let id = match parse_u64(h[1].as_slice()) {
        Some(v) => v,
        None => return None,
    };
    if id > u32::MAX as u64 {
        return None;
    }
    let rounds = match parse_rounds(rest.as_slice()) {
        Some(rs) => rs,
        None => return None,
    };
    Some((id as u32, rounds))
}

/// Every round of `rs` fits in the bag `cfg`.
pub open spec fn possible(rs: Seq<Round>, cfg: Config) -> bool {
    forall|i: int| 0 <= i < rs.len() ==> (#[trigger] rs[i]).r <= cfg.r && rs[i].g <= cfg.g && rs[i].b <= cfg.b
}

/// Whether every round fits in the bag `cfg`.
pub fn all_possible(rounds: &Vec<Round>, cfg: &Config) -> (r: bool)
    ensures
        r == possible(rounds@, *cfg),
{
    let mut i: usize = 0;
    while i < rounds.len()
        invariant
            i <= rounds@.len(),
            possible(rounds@.subrange(0, i as int), *cfg),
        decreases rounds.len() - i,
    {
        if !rounds[i].is_valid(cfg) {
            assert(!(rounds@[i as int].r <= cfg.r && rounds@[i as int].g <= cfg.g && rounds@[i as int].b <= cfg.b));
            return false;
        }
        assert(rounds@.subrange(0, i + 1) == rounds@.subrange(0, i as int).push(rounds@[i as int]));
        i += 1;
    }
    assert(rounds@.subrange(0, rounds@.len() as int) == rounds@);
    true
}

/// The sum of the ids of the first `n` games that the bag of 12 red, 13 green
/// and 14 blue cubes makes possible; `None` where a line is malformed or the
/// running sum passes `u64::MAX`.
pub open spec fn id_sum_upto(ls: Seq<Seq<u8>>, n: int) -> Option<nat>
    decreases n,
{
    if n <= 0 {
        Some(0)
    } else {
        match id_sum_upto(ls, n - 1) {
            None => None,
            Some(total) => match game_of(ls[n - 1]) {
                None => None,
                Some((id, rs)) => if !possible(rs, Config { r: 12, g: 13, b: 14 }) {
                    Some(total)
                } else if total + id > u64::MAX {
                    None
                } else {
                    Some((total + id) as nat)
                },
            },
        }
    }
}

proof fn lemma_id_sum_none(ls: Seq<Seq<u8>>, i: int, n: int)
    requires
        0 < i <= n,
        id_sum_upto(ls, i) is None,
    ensures
        id_sum_upto(ls, n) is None,
    decreases n - i,
{
    if i < n {
        lemma_id_sum_none(ls, i, n - 1);
    }
}

/// The sum of the ids of the possible games.
pub fn possible_id_sum(lines: &Vec<Vec<u8>>) -> (r: Option<u64>)
    ensures
        r is Some <==> id_sum_upto(views(lines@), lines@.len() as int) is Some,
        r is Some ==> r->0 == id_sum_upto(views(lines@), lines@.len() as int)->0,
{
    let ghost ls = views(lines@);
    let cfg = Config::bag();
    let mut total: u64 = 0;
    let mut i: usize = 0;
    while i < lines.len()
        invariant
            i <= lines@.len(),
            ls == views(lines@),
            cfg.r == 12 && cfg.g == 13 && cfg.b == 14,
            id_sum_upto(ls, i as int) == Some(total as nat),
        decreases lines.len() - i,
    {
        assert(ls[i as int] == lines@[i as int]@);
        let (id, rounds) = match parse_game(lines[i].as_slice()) {
            Some(g) => g,
            None => {
                proof { lemma_id_sum_none(ls, i + 1, ls.len() as int); }
                return None;
            },
        };
        assert(cfg == Config { r: 12, g: 13, b: 14 });
        if all_possible(&rounds, &cfg) {
            if total > u64::MAX - id as u64 {
                proof { lemma_id_sum_none(ls, i + 1, ls.len() as int); }
                return None;
            }
            total = total + id as u64;
        }
        i += 1;
    }
    Some(total)
}

/// The per-colour maxima over the first `n` rounds of `rs`.
pub open spec fn fold_max(rs: Seq<Round>, n: int) -> Game
    decreases n,
{
    if n <= 0 {
        Game { r: 0, g: 0, b: 0 }
    } else {
        let m = fold_max(rs, n - 1);
        Game { r: max(m.r, rs[n - 1].r), g: max(m.g, rs[n - 1].g), b: max(m.b, rs[n - 1].b) }
    }
}

/// The power of a list of rounds: the product of its per-colour maxima.
pub open spec fn power_of(rs: Seq<Round>) -> nat {
    let m = fold_max(rs, rs.len() as int);
    (m.r * m.g * m.b) as nat
}

/// The product of the per-colour maxima over all rounds.
pub fn game_power(rounds: &Vec<Round>) -> (p: u128)
    ensures
        p == power_of(rounds@),
{
    let mut game = Game::new();
    let mut i: usize = 0;
    while i < rounds.len()
        invariant
            i <= rounds@.len(),
            game == fold_max(rounds@, i as int),
        decreases rounds.len() - i,
    {
        game.update(&rounds[i]);
        i += 1;
    }
    game.power()
}

/// The sum of the powers of the first `n` games; `None` where a line is
/// malformed or the running sum passes `u64::MAX`.
pub open spec fn power_sum_upto(ls: Seq<Seq<u8>>, n: int) -> Option<nat>
    decreases n,
{
    if n <= 0 {
        Some(0)
    } else {
        match power_sum_upto(ls, n - 1) {
            None => None,
            Some(total) => match game_of(ls[n - 1]) {
                None => None,
                Some((_id, rs)) => if total + power_of(rs) > u64::MAX {
                    None
                } else {
                    Some(total + power_of(rs))
                },
            },
        }
    }
}

proof fn lemma_power_sum_none(ls: Seq<Seq<u8>>, i: int, n: int)
    requires
        0 < i <= n,
        power_sum_upto(ls, i) is None,
    ensures
        power_sum_upto(ls, n) is None,
    decreases n - i,
{
    if i < n {
        lemma_power_sum_none(ls, i, n - 1);
    }
}

/// The sum of the powers of all games.
pub fn power_sum(lines: &Vec<Vec<u8>>) -> (r: Option<u64>)
    ensures
        r is Some <==> power_sum_upto(views(lines@), lines@.len() as int) is Some,
        r is Some ==> r->0 == power_sum_upto(views(lines@), lines@.len() as int)->0,
{
    let ghost ls = views(lines@);
    let mut total: u64 = 0;
    let mut i: usize = 0;
    while i < lines.len()
        invariant
            i <= lines@.len(),
            ls == views(lines@),
            power_sum_upto(ls, i as int) == Some(total as nat),
        decreases lines.len() - i,
    {
        assert(ls[i as int] == lines@[i as int]@);
        let (_id, rounds) = match parse_game(lines[i].as_slice()) {
            Some(g) => g,
            None => {
                proof { lemma_power_sum_none(ls, i + 1, ls.len() as int); }
                return None;
            },
        };
        let p = game_power(&rounds);
        if p > (u64::MAX - total) as u128 {
            proof { lemma_power_sum_none(ls, i + 1, ls.len() as int); }
            return None;
        }
        total = total + p as u64;
        i += 1;
    }
    Some(total)
}

} // verus!
