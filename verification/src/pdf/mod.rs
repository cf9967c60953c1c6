//! Turning group assignments into the list of scorecards to print.
use std::collections::HashMap;

use vstd::arithmetic::div_mod::{
    lemma_fundamental_div_mod, lemma_fundamental_div_mod_converse, lemma_mod_bound,
};
use vstd::prelude::*;

pub mod csv;
pub mod scorecard;

use crate::language::{english_words, Language};
use crate::text::string_from;
use crate::wcif::json::Wcif;
use crate::wcif::{
    advancing_to, try_get_scorecard_info_for_round, id_map_spec, info_error, names_match, round_limit,
    InfoError,
};
use scorecard::{LimitTable, Scorecard};

verus! {

/// The number of groups a round of `n` competitors is split into when a group
/// holds at most `max` of them: `n / max` rounded up.
pub open spec fn group_count(n: int, max: int) -> int {
    (n + max - 1) / max
}

/// The size of the smaller groups.
pub open spec fn base_size(n: int, max: int) -> int {
    n / group_count(n, max)
}

/// How many groups hold one competitor more than the smaller ones; they come first.
pub open spec fn larger_groups(n: int, max: int) -> int {
    n % group_count(n, max)
}

/// The size of group `g` (counted from 1).
pub open spec fn group_size(n: int, max: int, g: int) -> int {
    base_size(n, max) + if g <= larger_groups(n, max) {
        1int
    } else {
        0int
    }
}

/// The group (counted from 1) of the competitor at position `k` (counted from 0):
/// the larger groups are filled first, then the smaller ones, in order.
pub open spec fn seat_group(n: int, max: int, k: int) -> int {
    let q = base_size(n, max);
    let r = larger_groups(n, max);
    if k < r * (q + 1) {
        k / (q + 1) + 1
    } else {
        r + (k - r * (q + 1)) / q + 1
    }
}

/// The station (counted from 1) of the competitor at position `k` within its group.
pub open spec fn seat_station(n: int, max: int, k: int) -> int {
    let q = base_size(n, max);
    let r = larger_groups(n, max);
    if k < r * (q + 1) {
        k % (q + 1) + 1
    } else {
        (k - r * (q + 1)) % q + 1
    }
}

/// The facts about the group count and sizes that the seating rests on.
pub proof fn lemma_group_shape(n: int, max: int)
    requires
        n >= 1,
        max >= 1,
    ensures
        1 <= group_count(n, max) <= n,
        base_size(n, max) >= 1,
        0 <= larger_groups(n, max) < group_count(n, max),
        n == group_count(n, max) * base_size(n, max) + larger_groups(n, max),
        group_count(n, max) * base_size(n, max) <= n,
        n <= group_count(n, max) * max,
        base_size(n, max) <= max,
        larger_groups(n, max) > 0 ==> base_size(n, max) + 1 <= max,
{
    let g = group_count(n, max);
    assert(g >= 1) by (nonlinear_arith)
        requires
            g == (n + max - 1) / max,
            n >= 1,
            max >= 1,
    ;
    assert(g <= n) by (nonlinear_arith)
        requires
            g == (n + max - 1) / max,
            n >= 1,
            max >= 1,
    ;
    assert(n <= g * max) by (nonlinear_arith)
        requires
            g == (n + max - 1) / max,
            n >= 1,
            max >= 1,
    ;
    let q = n / g;
    let r = n % g;
    assert(n == g * q + r && 0 <= r < g && q >= 1) by (nonlinear_arith)
        requires
            q == n / g,
            r == n % g,
            1 <= g <= n,
    ;
    assert(q <= max) by (nonlinear_arith)
        requires
            n == g * q + r,
            0 <= r,
            n <= g * max,
            g >= 1,
    ;
    assert(r > 0 ==> q + 1 <= max) by (nonlinear_arith)
        requires
            n == g * q + r,
            0 <= r,
            n <= g * max,
            g >= 1,
    ;
}

/// The round is split into the fewest groups of at most `max` competitors.
pub proof fn lemma_fewest_groups(n: int, max: int)
    requires
        n >= 1,
        max >= 1,
    ensures
        (group_count(n, max) - 1) * max < n <= group_count(n, max) * max,
{
    lemma_group_shape(n, max);
    let g = group_count(n, max);
    assert((g - 1) * max < n) by (nonlinear_arith)
        requires
            g == (n + max - 1) / max,
            max >= 1,
            n >= 1,
    ;
}

/// A position written as whole groups plus a station determines its seat.
proof fn lemma_seat(n: int, max: int, k: int, g: int, s: int)
    requires
        n >= 1,
        max >= 1,
        g >= 1,
        1 <= s,
        ({
            let q = base_size(n, max);
            let r = larger_groups(n, max);
            ||| (g <= r && s <= q + 1 && k == (g - 1) * (q + 1) + (s - 1))
            ||| (g > r && s <= q && k == r * (q + 1) + (g - 1 - r) * q + (s - 1))
        }),
    ensures
        seat_group(n, max, k) == g,
        seat_station(n, max, k) == s,
{
    lemma_group_shape(n, max);
    let q = base_size(n, max);
    let r = larger_groups(n, max);
    if g <= r {
        assert(k < r * (q + 1)) by (nonlinear_arith)
            requires
                k == (g - 1) * (q + 1) + (s - 1),
                s <= q + 1,
                g <= r,
                q >= 1,
        ;
        lemma_fundamental_div_mod_converse(k, q + 1, g - 1, s - 1);
    } else {
        assert(k >= r * (q + 1)) by (nonlinear_arith)
            requires
                k == r * (q + 1) + (g - 1 - r) * q + (s - 1),
                s >= 1,
                g > r,
                q >= 1,
        ;
        lemma_fundamental_div_mod_converse(k - r * (q + 1), q, g - 1 - r, s - 1);
    }
}

/// Every position is a seat within a group: whole groups before it plus a station.
proof fn lemma_seat_decompose(n: int, max: int, k: int)
    requires
        n >= 1,
        max >= 1,
        0 <= k < n,
    ensures
        ({
            let q = base_size(n, max);
            let r = larger_groups(n, max);
            let g = seat_group(n, max, k);
            let s = seat_station(n, max, k);
            &&& 1 <= g <= group_count(n, max)
            &&& 1 <= s <= group_size(n, max, g)
            &&& (g <= r && k == (g - 1) * (q + 1) + (s - 1)) || (g > r && k == r * (q + 1) + (g
                - 1 - r) * q + (s - 1))
        }),
{
    lemma_group_shape(n, max);
    let q = base_size(n, max);
    let r = larger_groups(n, max);
    let big = group_count(n, max);
    let d = q + 1;
    if k < r * d {
        lemma_fundamental_div_mod(k, d);
        lemma_mod_bound(k, d);
        let a = k / d;
        let b = k % d;
        assert(0 <= a < r) by (nonlinear_arith)
            requires
                k == d * a + b,
                0 <= b < d,
                0 <= k < r * d,
                d >= 1,
        ;
        assert(k == (a + 1 - 1) * (q + 1) + (b + 1 - 1)) by (nonlinear_arith)
            requires
                k == d * a + b,
                d == q + 1,
        ;
    } else {
        let j = k - r * d;
        lemma_fundamental_div_mod(j, q);
        lemma_mod_bound(j, q);
        let a = j / q;
        let b = j % q;
        assert(0 <= a < big - r) by (nonlinear_arith)
            requires
                j == q * a + b,
                0 <= b < q,
                0 <= j,
                j + r * d < n,
                n == big * q + r,
                d == q + 1,
                q >= 1,
        ;
        assert(k == r * (q + 1) + (r + a + 1 - 1 - r) * q + (b + 1 - 1)) by (nonlinear_arith)
            requires
                j == q * a + b,
                j == k - r * d,
                d == q + 1,
        ;
    }
}

/// Every competitor sits in one of the groups, at a station within that group's
/// size, and no group is larger than `max`.
pub proof fn lemma_seats_within_groups(n: int, max: int, k: int)
    requires
        n >= 1,
        max >= 1,
        0 <= k < n,
    ensures
        1 <= seat_group(n, max, k) <= group_count(n, max),
        1 <= seat_station(n, max, k) <= group_size(n, max, seat_group(n, max, k)),
        group_size(n, max, seat_group(n, max, k)) <= max,
{
    lemma_seat_decompose(n, max, k);
    lemma_group_shape(n, max);
}

/// No two competitors share a seat.
pub proof fn lemma_seats_distinct(n: int, max: int, k1: int, k2: int)
    requires
        n >= 1,
        max >= 1,
        0 <= k1 < n,
        0 <= k2 < n,
        k1 != k2,
    ensures
        seat_group(n, max, k1) != seat_group(n, max, k2) || seat_station(n, max, k1)
            != seat_station(n, max, k2),
{
    lemma_seat_decompose(n, max, k1);
    lemma_seat_decompose(n, max, k2);
}

/// Every station of every group is taken by some competitor, so group `g` holds
/// exactly `group_size(n, max, g)` competitors.
pub proof fn lemma_every_seat_taken(n: int, max: int, g: int, s: int)
    requires
        n >= 1,
        max >= 1,
        1 <= g <= group_count(n, max),
        1 <= s <= group_size(n, max, g),
    ensures
        exists|k: int|
            0 <= k < n && seat_group(n, max, k) == g && #[trigger] seat_station(n, max, k) == s,
{
    lemma_group_shape(n, max);
    let q = base_size(n, max);
    let r = larger_groups(n, max);
    let big = group_count(n, max);
    if g <= r {
        let k = (g - 1) * (q + 1) + (s - 1);
        assert(0 <= k < n) by (nonlinear_arith)
            requires
                k == (g - 1) * (q + 1) + (s - 1),
                1 <= g <= r,
                1 <= s <= q + 1,
                n == big * q + r,
                r < big,
                q >= 1,
        ;
        lemma_seat(n, max, k, g, s);
    } else {
        let k = r * (q + 1) + (g - 1 - r) * q + (s - 1);
        assert(0 <= k < n) by (nonlinear_arith)
            requires
                k == r * (q + 1) + (g - 1 - r) * q + (s - 1),
                r < g <= big,
                1 <= s <= q,
                n == big * q + r,
                r >= 0,
                q >= 1,
        ;
        lemma_seat(n, max, k, g, s);
    }
}

/// Groups are filled in order: a later competitor is never in an earlier group.
pub proof fn lemma_groups_in_order(n: int, max: int, k1: int, k2: int)
    requires
        n >= 1,
        max >= 1,
        0 <= k1 <= k2 < n,
    ensures
        seat_group(n, max, k1) <= seat_group(n, max, k2),
{
    lemma_seat_decompose(n, max, k1);
    lemma_seat_decompose(n, max, k2);
    lemma_group_shape(n, max);
    let q = base_size(n, max);
    let r = larger_groups(n, max);
    let g1 = seat_group(n, max, k1);
    let g2 = seat_group(n, max, k2);
    let s1 = seat_station(n, max, k1);
    let s2 = seat_station(n, max, k2);
    if g1 > g2 {
        if g1 <= r {
            assert((g1 - 1) * (q + 1) - (g2 - 1) * (q + 1) >= q + 1) by (nonlinear_arith)
                requires
                    g1 > g2,
                    q >= 1,
            ;
        } else if g2 <= r {
            assert(false) by (nonlinear_arith)
                requires
                    k1 == r * (q + 1) + (g1 - 1 - r) * q + (s1 - 1),
                    k2 == (g2 - 1) * (q + 1) + (s2 - 1),
                    1 <= s1,
                    s2 <= q + 1,
                    g2 <= r,
                    g1 > r,
                    k1 <= k2,
                    q >= 1,
            ;
        } else {
            assert((g1 - 1 - r) * q - (g2 - 1 - r) * q >= q) by (nonlinear_arith)
                requires
                    g1 > g2,
                    q >= 1,
            ;
        }
    }
}

/// The group and station of each of `n` competitors, in order, when groups hold
/// at most `max` competitors.
pub fn assign_groups(n: usize, max: usize) -> (seats: Vec<(usize, usize)>)
    requires
        n >= 1,
        max >= 1,
        n + max <= usize::MAX,
    ensures
        seats@.len() == n,
        forall|k: int|
            0 <= k < n ==> (#[trigger] seats@[k]).0 == seat_group(n as int, max as int, k)
                && seats@[k].1 == seat_station(n as int, max as int, k),
{
    proof {
        lemma_group_shape(n as int, max as int);
    }
    let number_of_groups = (n + max - 1) / max;
    let group_size = n / number_of_groups;
    let modulo = n % number_of_groups;
    let ghost q = group_size as int;
    let ghost r = modulo as int;
    let mut curr_group: usize = 1;
    let mut curr_station: usize = 0;
    let mut seats: Vec<(usize, usize)> = Vec::new();
    let mut i: usize = 0;
    assert(0 == (1 - 1) * (q + 1) + 0 && 0 == r * (q + 1) + (1 - 1 - r) * q + 0 || r > 0) by (
    nonlinear_arith)
        requires
            r >= 0,
    ;
    while i < n
        invariant
            n >= 1,
            max >= 1,
            n + max <= usize::MAX,
            r > 0 ==> q + 1 <= max,
            q == base_size(n as int, max as int),
            r == larger_groups(n as int, max as int),
            q >= 1,
            group_size == q,
            modulo == r,
            i <= n,
            1 <= curr_group <= i + 1,
            seats@.len() == i,
            ({
                let g = curr_group as int;
                let s = curr_station as int;
                ||| (g <= r && 0 <= s <= q + 1 && i == (g - 1) * (q + 1) + s)
                ||| (g > r && 0 <= s <= q && i == r * (q + 1) + (g - 1 - r) * q + s)
            }),
            forall|k: int|
                0 <= k < i ==> (#[trigger] seats@[k]).0 == seat_group(n as int, max as int, k)
                    && seats@[k].1 == seat_station(n as int, max as int, k),
        decreases n - i,
    {
        let this_group_size = group_size + if modulo >= curr_group {
            1usize
        } else {
            0usize
        };
        curr_station = curr_station + 1;
        if curr_station > this_group_size {
            proof {
                let g = curr_group as int;
                if g <= r {
                    if g < r {
                        assert(i + 1 == g * (q + 1) + 1) by (nonlinear_arith)
                            requires
                                i == (g - 1) * (q + 1) + (q + 1),
                        ;
                    } else {
                        assert(i + 1 == r * (q + 1) + (g + 1 - 1 - r) * q + 1) by (nonlinear_arith)
                            requires
                                i == (g - 1) * (q + 1) + (q + 1),
                                g == r,
                        ;
                    }
                } else {
                    assert(i + 1 == r * (q + 1) + (g + 1 - 1 - r) * q + 1) by (nonlinear_arith)
                        requires
                            i == r * (q + 1) + (g - 1 - r) * q + q,
                    ;
                }
            }
            curr_station = 1;
            curr_group = curr_group + 1;
        }
        proof {
            lemma_seat(n as int, max as int, i as int, curr_group as int, curr_station as int);
        }
        seats.push((curr_group, curr_station));
        i = i + 1;
    }
    seats
}

/// Everything a sheet of scorecards is printed from.
pub struct PrintJob {
    /// The scorecards, in the order they are laid out.
    pub scorecards: Vec<Scorecard>,
    /// Competitor names by registrant id.
    pub names: HashMap<usize, String>,
    /// Time limits by event id.
    pub limits: LimitTable,
    /// The competition's name, printed on every card.
    pub competition: String,
    /// The words printed on the cards.
    pub language: Language,
}

/// Why the scorecards of a round could not be made from a WCIF document.
#[derive(Debug, PartialEq, Eq)]
pub enum RoundError {
    /// The document lacks what the round needs.
    Info(InfoError),
    /// A group must hold at least one competitor.
    NoGroupSize,
    /// The number of competitors plus the group size does not fit in a `usize`.
    TooManyCompetitors,
    /// Nobody advanced to the round.
    NoCompetitors,
}

/// The scorecards of round `round` of `event`: the competitors who advanced
/// from the round before, in their order there, split into groups of at most
/// `max_group_size` with the stations numbered within each group; or why they
/// cannot be made.
pub fn try_run_from_wcif(wcif: Wcif, event: &str, round: usize, max_group_size: usize) -> (r:
    core::result::Result<PrintJob, RoundError>)
    ensures
        ({
            let ids = advancing_to(wcif, event@, round);
            let n = ids.len() as int;
            let max = max_group_size as int;
            match r {
                Err(RoundError::Info(e)) => info_error(wcif, event@, round) == Some(e),
                Err(RoundError::NoGroupSize) => info_error(wcif, event@, round) is None && max
                    == 0,
                Err(RoundError::TooManyCompetitors) => info_error(wcif, event@, round) is None
                    && max >= 1 && n + max > usize::MAX,
                Err(RoundError::NoCompetitors) => info_error(wcif, event@, round) is None && max
                    >= 1 && n + max <= usize::MAX && n == 0,
                Ok(job) => {
                    &&& info_error(wcif, event@, round) is None
                    &&& max >= 1 && n >= 1 && n + max <= usize::MAX
                    &&& job.scorecards@.len() == n
                    &&& forall|k: int|
                        0 <= k < n ==> {
                            let c = #[trigger] job.scorecards@[k];
                            &&& c.event@ == event@
                            &&& c.round == round as i8
                            &&& c.group == seat_group(n, max, k) as i8
                            &&& c.station == seat_station(n, max, k) as i8
                            &&& c.id == ids[k]
                        }
                    &&& names_match(job.names@, id_map_spec(wcif.persons@))
                    &&& job.limits@ == Map::<Seq<char>, scorecard::LimitModel>::empty().insert(
                        event@,
                        round_limit(wcif, event@, round),
                    )
                    &&& job.competition@ == wcif.name@
                    &&& job.language@ == english_words()
                },
            }
        }),
{
    let (competitors, map, limit, competition) = match try_get_scorecard_info_for_round(
        wcif,
        event,
        round,
    ) {
        Ok(info) => info,
        Err(e) => {
            return Err(RoundError::Info(e));
        },
    };
    let mut limits = LimitTable::new();
    limits.insert(string_from(event), limit);
    let n = competitors.len();
    if max_group_size == 0 {
        return Err(RoundError::NoGroupSize);
    }
    if n > usize::MAX - max_group_size {
        return Err(RoundError::TooManyCompetitors);
    }
    if n == 0 {
        return Err(RoundError::NoCompetitors);
    }
    let seats = assign_groups(n, max_group_size);
    let mut scorecards: Vec<Scorecard> = Vec::new();
    let mut i: usize = 0;
    while i < n
        invariant
            n == competitors@.len(),
            seats@.len() == n,
            i <= n,
            scorecards@.len() == i,
            forall|k: int|
                0 <= k < n ==> (#[trigger] seats@[k]).0 == seat_group(
                    n as int,
                    max_group_size as int,
                    k,
                ) && seats@[k].1 == seat_station(n as int, max_group_size as int, k),
            forall|k: int|
                0 <= k < i ==> {
                    let c = #[trigger] scorecards@[k];
                    &&& c.event@ == event@
                    &&& c.round == round as i8
                    &&& c.group == seat_group(n as int, max_group_size as int, k) as i8
                    &&& c.station == seat_station(n as int, max_group_size as int, k) as i8
                    &&& c.id == competitors@[k]
                },
        decreases n - i,
    {
        let (group, station) = seats[i];
        scorecards.push(
            Scorecard {
                event: string_from(event),
                round: #[verifier::truncate] (round as i8),
                group: #[verifier::truncate] (group as i8),
                station: #[verifier::truncate] (station as i8),
                id: competitors[i],
            },
        );
        i = i + 1;
    }
    Ok(PrintJob { scorecards, names: map, limits, competition, language: Language::english() })
}

/// Whether the scorecards of round `round` of `event` can be made with groups
/// of at most `max_group_size`: the document holds what the round needs,
/// somebody advanced to it, and a group holds at least one competitor.
pub open spec fn run_ok(wcif: Wcif, event: Seq<char>, round: usize, max_group_size: usize) -> bool {
    let n = advancing_to(wcif, event, round).len();
    &&& info_error(wcif, event, round) is None
    &&& max_group_size >= 1
    &&& n >= 1
    &&& n + max_group_size <= usize::MAX
}

/// The scorecards of round `round` of `event`: the competitors who advanced
/// from the round before, in their order there, split into groups of at most
/// `max_group_size` with the stations numbered within each group.
pub fn run_from_wcif(wcif: Wcif, event: &str, round: usize, max_group_size: usize) -> (job:
    PrintJob)
    requires
        run_ok(wcif, event@, round, max_group_size),
    ensures
        ({
            let ids = advancing_to(wcif, event@, round);
            let n = ids.len() as int;
            let max = max_group_size as int;
            &&& job.scorecards@.len() == n
            &&& forall|k: int|
                0 <= k < n ==> {
                    let c = #[trigger] job.scorecards@[k];
                    &&& c.event@ == event@
                    &&& c.round == round as i8
                    &&& c.group == seat_group(n, max, k) as i8
                    &&& c.station == seat_station(n, max, k) as i8
                    &&& c.id == ids[k]
                }
            &&& names_match(job.names@, id_map_spec(wcif.persons@))
            &&& job.limits@ == Map::<Seq<char>, scorecard::LimitModel>::empty().insert(
                event@,
                round_limit(wcif, event@, round),
            )
            &&& job.competition@ == wcif.name@
            &&& job.language@ == english_words()
        }),
{
    match try_run_from_wcif(wcif, event, round, max_group_size) {
        Ok(job) => job,
        Err(_) => vstd::pervasive::unreached(),
    }
}

} // verus!
