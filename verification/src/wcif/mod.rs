//! Reading rounds, advancement and time limits out of a WCIF document.
use std::collections::HashMap;

use vstd::prelude::*;

use crate::pdf::scorecard::{LimitModel, TimeLimit};
use crate::text::{
    chars_of, decimal, parse_usize, parse_usize_spec, push_char, push_decimal, string_from,
    string_of, strings_view,
};
use json::Wcif;

pub mod json;
pub mod oauth;

verus! {

broadcast use vstd::std_specs::hash::group_hash_axioms;

/// The rounds of all events, event after event, each event's rounds in order.
pub open spec fn all_rounds(events: Seq<json::Event>) -> Seq<json::Round>
    decreases events.len(),
{
    if events.len() == 0 {
        Seq::empty()
    } else {
        all_rounds(events.drop_last()) + events.last().rounds@
    }
}

/// The index of the first round whose id is `id`.
pub open spec fn first_with_id(rounds: Seq<json::Round>, id: Seq<char>) -> Option<int>
    decreases rounds.len(),
{
    if rounds.len() == 0 {
        None
    } else if rounds[0].id@ == id {
        Some(0)
    } else {
        match first_with_id(rounds.drop_first(), id) {
            Some(k) => Some(k + 1),
            None => None,
        }
    }
}

/// `first_with_id` is the least index with that id.
proof fn lemma_first_with_id(rounds: Seq<json::Round>, id: Seq<char>, k: int)
    requires
        0 <= k <= rounds.len(),
        forall|m: int| 0 <= m < k ==> (#[trigger] rounds[m]).id@ != id,
    ensures
        k < rounds.len() && rounds[k].id@ == id ==> first_with_id(rounds, id) == Some(k),
        k == rounds.len() ==> first_with_id(rounds, id) is None,
    decreases rounds.len(),
{
    if rounds.len() > 0 && k > 0 {
        assert forall|m: int| 0 <= m < k - 1 implies (#[trigger] rounds.drop_first()[m]).id@ != id by {
            assert(rounds.drop_first()[m] == rounds[m + 1]);
        }
        lemma_first_with_id(rounds.drop_first(), id, k - 1);
    }
}

/// The rounds that a list of references points to.
pub open spec fn derefs(rs: Seq<&json::Round>) -> Seq<json::Round> {
    rs.map_values(|r: &json::Round| *r)
}

/// The id of round `n` of `event`: `<event>-r<n>`.
pub open spec fn round_id(event: Seq<char>, n: nat) -> Seq<char> {
    event + seq!['-', 'r'] + decimal(n)
}

/// The first position at or after `from` where `a` is directly followed by `b`.
pub open spec fn find_pair(s: Seq<char>, from: int, a: char, b: char) -> Option<int>
    decreases s.len() - from,
{
    if from < 0 || from + 1 >= s.len() {
        None
    } else if s[from] == a && s[from + 1] == b {
        Some(from)
    } else {
        find_pair(s, from + 1, a, b)
    }
}

/// The event and the round number that a round id names, read as the first two
/// pieces of the id split at `-r`, the second parsed as a number.
pub open spec fn round_name(id: Seq<char>) -> Option<(Seq<char>, nat)> {
    match find_pair(id, 0, '-', 'r') {
        None => None,
        Some(i) => {
            let end = match find_pair(id, i + 2, '-', 'r') {
                Some(j) => j,
                None => id.len() as int,
            };
            match parse_usize_spec(id.subrange(i + 2, end)) {
                Some(n) => Some((id.take(i), n)),
                None => None,
            }
        },
    }
}

/// Where no pair is found, no position from `from` on holds one.
proof fn lemma_find_pair_none(s: Seq<char>, from: int, a: char, b: char)
    requires
        from >= 0,
        find_pair(s, from, a, b) is None,
    ensures
        forall|i: int| from <= i && i + 1 < s.len() ==> !(#[trigger] s[i] == a && s[i + 1] == b),
    decreases s.len() - from,
{
    if from + 1 < s.len() {
        lemma_find_pair_none(s, from + 1, a, b);
    }
}

/// The pair is found at the first position from `from` that holds it.
proof fn lemma_find_pair_first(s: Seq<char>, from: int, at: int, a: char, b: char)
    requires
        0 <= from <= at,
        at + 1 < s.len(),
        s[at] == a && s[at + 1] == b,
        forall|i: int| from <= i < at ==> !(#[trigger] s[i] == a && s[i + 1] == b),
    ensures
        find_pair(s, from, a, b) == Some(at),
    decreases at - from,
{
    if from < at {
        lemma_find_pair_first(s, from + 1, at, a, b);
    }
}

/// No pair is found where no position from `from` on holds `a`.
proof fn lemma_find_pair_absent(s: Seq<char>, from: int, a: char, b: char)
    requires
        from >= 0,
        forall|i: int| from <= i < s.len() ==> #[trigger] s[i] != a,
    ensures
        find_pair(s, from, a, b) is None,
    decreases s.len() - from,
{
    if from + 1 < s.len() {
        lemma_find_pair_absent(s, from + 1, a, b);
    }
}

/// The id of round `n` of an event names that event and round, as long as the
/// event id itself holds no `-r`: reading back a round id gives what it was
/// made from.
pub proof fn lemma_round_id_names_round(event: Seq<char>, n: usize)
    requires
        find_pair(event, 0, '-', 'r') is None,
    ensures
        round_name(round_id(event, n as nat)) == Some((event, n as nat)),
{
    let d = decimal(n as nat);
    let id = round_id(event, n as nat);
    let l = event.len() as int;
    crate::text::lemma_decimal_reads_back(n as nat);
    crate::text::lemma_parse_decimal(n);
    lemma_find_pair_none(event, 0, '-', 'r');
    assert forall|i: int| 0 <= i < l implies !(#[trigger] id[i] == '-' && id[i + 1] == 'r') by {
        if i + 1 < l {
            assert(id[i] == event[i] && id[i + 1] == event[i + 1]);
        } else {
            assert(id[i + 1] == '-');
        }
    }
    assert(id[l] == '-' && id[l + 1] == 'r');
    lemma_find_pair_first(id, 0, l, '-', 'r');
    assert forall|i: int| l + 2 <= i < id.len() implies #[trigger] id[i] != '-' by {
        assert(id[i] == d[i - l - 2]);
        assert(crate::text::is_digit(d[i - l - 2]));
    }
    lemma_find_pair_absent(id, l + 2, '-', 'r');
    assert(id.subrange(l + 2, id.len() as int) =~= d);
    assert(id.take(l) =~= event);
}

/// Finds `a` followed by `b` at or after `from`.
fn find_pair_exec(s: &[char], from: usize, a: char, b: char) -> (r: Option<usize>)
    ensures
        r matches Some(i) ==> find_pair(s@, from as int, a, b) == Some(i as int) && from <= i
            && i + 1 < s@.len(),
        r is None ==> find_pair(s@, from as int, a, b) is None,
{
    if s.len() < 2 {
        return None;
    }
    let mut i: usize = from;
    while i < s.len() - 1
        invariant
            s.len() >= 2,
            from <= i,
            find_pair(s@, from as int, a, b) == find_pair(s@, i as int, a, b),
        decreases s.len() - i,
    {
        if s[i] == a && s[i + 1] == b {
            return Some(i);
        }
        i = i + 1;
    }
    None
}

/// The event and round number that a round id names, if it names one.
pub fn parse_round_id(id: &str) -> (r: Option<(String, usize)>)
    ensures
        r matches Some(p) ==> round_name(id@) == Some((p.0@, p.1 as nat)),
        r is None ==> round_name(id@) is None,
{
    let s = chars_of(id);
    match find_pair_exec(s.as_slice(), 0, '-', 'r') {
        None => None,
        Some(i) => {
            assert(i + 1 < s@.len());
            assert(i + 2 <= s.len());
            let end = match find_pair_exec(s.as_slice(), i + 2, '-', 'r') {
                Some(j) => j,
                None => s.len(),
            };
            let mut piece: Vec<char> = Vec::new();
            let mut k: usize = i + 2;
            while k < end
                invariant
                    i + 2 <= k <= end <= s.len(),
                    piece@ == s@.subrange(i + 2, k as int),
                decreases end - k,
            {
                piece.push(s[k]);
                k = k + 1;
            }
            match parse_usize(piece.as_slice()) {
                None => None,
                Some(n) => {
                    let mut name: Vec<char> = Vec::new();
                    let mut k: usize = 0;
                    while k < i
                        invariant
                            k <= i < s.len(),
                            name@ == s@.take(k as int),
                        decreases i - k,
                    {
                        name.push(s[k]);
                        k = k + 1;
                    }
                    Some((string_of(name.as_slice()), n))
                },
            }
        },
    }
}

/// The id of round `n` of `event`.
pub fn round_id_string(event: &str, n: usize) -> (s: String)
    ensures
        s@ == round_id(event@, n as nat),
{
    let mut s = string_from(event);
    push_char(&mut s, '-');
    push_char(&mut s, 'r');
    push_decimal(&mut s, n);
    assert(s@ =~= round_id(event@, n as nat));
    s
}

/// All rounds of all events, in order.
fn rounds_of(events: &Vec<json::Event>) -> (rs: Vec<&json::Round>)
    ensures
        derefs(rs@) == all_rounds(events@),
{
    let mut rs: Vec<&json::Round> = Vec::new();
    let mut i: usize = 0;
    while i < events.len()
        invariant
            i <= events.len(),
            derefs(rs@) == all_rounds(events@.take(i as int)),
        decreases events.len() - i,
    {
        let rounds = &events[i].rounds;
        let ghost start = derefs(rs@);
        let mut j: usize = 0;
        while j < rounds.len()
            invariant
                j <= rounds.len(),
                i < events.len(),
                rounds == &events@[i as int].rounds,
                derefs(rs@) == start + rounds@.take(j as int),
            decreases rounds.len() - j,
        {
            let ghost before = rs@;
            rs.push(&rounds[j]);
            proof {
                let now = derefs(rs@);
                let want = start + rounds@.take(j + 1);
                assert(rs@ == before.push(&rounds[j as int]));
                assert(rounds@.take(j + 1).len() == j + 1);
                assert(derefs(before).len() == before.len());
                assert(now.len() == want.len());
                assert forall|m: int| 0 <= m < now.len() implies now[m] == want[m] by {
                    if m < before.len() {
                        assert(rs@[m] == before[m]);
                        assert(derefs(before)[m] == *before[m]);
                    }
                }
                assert(now =~= want);
            }
            j = j + 1;
        }
        assert(events@.take(i + 1).drop_last() == events@.take(i as int));
        assert(rounds@.take(j as int) == rounds@);
        i = i + 1;
    }
    assert(events@.take(i as int) == events@);
    rs
}

/// The index of the first of `rounds` whose id is `id`.
fn find_round(rounds: &Vec<&json::Round>, id: &String) -> (r: Option<usize>)
    ensures
        r matches Some(k) ==> k < rounds@.len() && first_with_id(
            derefs(rounds@),
            id@,
        ) == Some(k as int),
        r is None ==> first_with_id(derefs(rounds@), id@) is None,
{
    let ghost rs = derefs(rounds@);
    let mut k: usize = 0;
    while k < rounds.len()
        invariant
            k <= rounds.len(),
            rs == derefs(rounds@),
            forall|m: int| 0 <= m < k ==> (#[trigger] rs[m]).id@ != id@,
        decreases rounds.len() - k,
    {
        if rounds[k].id == *id {
            proof {
                lemma_first_with_id(rs, id@, k as int);
            }
            return Some(k);
        }
        k = k + 1;
    }
    proof {
        lemma_first_with_id(rs, id@, k as int);
    }
    None
}

/// Whether every round id of the document names an event and a round number.
pub open spec fn round_ids_ok(wcif: Wcif) -> bool {
    let rounds = all_rounds(wcif.events@);
    forall|k: int| 0 <= k < rounds.len() ==> (#[trigger] round_name(rounds[k].id@)) is Some
}

/// The event and the number of every round of every event, in order, if every
/// round id names one (else `None`).
pub fn try_get_rounds(wcif: Wcif) -> (r: Option<Vec<(String, usize)>>)
    ensures
        ({
            let rounds = all_rounds(wcif.events@);
            match r {
                Some(v) => v@.len() == rounds.len() && forall|k: int|
                    0 <= k < rounds.len() ==> round_name((#[trigger] rounds[k]).id@) == Some(
                        (v@[k].0@, v@[k].1 as nat),
                    ),
                None => exists|k: int|
                    0 <= k < rounds.len() && round_name((#[trigger] rounds[k]).id@) is None,
            }
        }),
{
    let rounds = rounds_of(&wcif.events);
    let ghost rs = derefs(rounds@);
    let mut out: Vec<(String, usize)> = Vec::new();
    let mut k: usize = 0;
    while k < rounds.len()
        invariant
            k <= rounds.len(),
            rs == derefs(rounds@),
            rs == all_rounds(wcif.events@),
            out@.len() == k,
            forall|m: int|
                0 <= m < k ==> round_name((#[trigger] rs[m]).id@) == Some(
                    (out@[m].0@, out@[m].1 as nat),
                ),
        decreases rounds.len() - k,
    {
        match parse_round_id(rounds[k].id.as_str()) {
            Some(p) => {
                out.push(p);
            },
            None => {
                assert(round_name(rs[k as int].id@) is None);
                return None;
            },
        }
        k = k + 1;
    }
    Some(out)
}

/// The event and the number of every round of every event, in order; every
/// round id names one.
pub fn get_rounds(wcif: Wcif) -> (r: Vec<(String, usize)>)
    requires
        round_ids_ok(wcif),
    ensures
        ({
            let rounds = all_rounds(wcif.events@);
            &&& r@.len() == rounds.len()
            &&& forall|k: int|
                0 <= k < rounds.len() ==> round_name((#[trigger] rounds[k]).id@) == Some(
                    (r@[k].0@, r@[k].1 as nat),
                )
        }),
{
    let ghost w = wcif;
    match try_get_rounds(wcif) {
        Some(v) => v,
        None => {
            proof {
                let rounds = all_rounds(w.events@);
                let k = choose|k: int|
                    0 <= k < rounds.len() && round_name((#[trigger] rounds[k]).id@) is None;
                assert(round_name(rounds[k].id@) is Some);
            }
            vstd::pervasive::unreached()
        },
    }
}

/// The names of the persons by registrant id; a later person with the same id
/// replaces an earlier one, and persons without an id are left out.
pub open spec fn id_map_spec(persons: Seq<json::Person>) -> Map<usize, Seq<char>>
    decreases persons.len(),
{
    if persons.len() == 0 {
        Map::empty()
    } else {
        let m = id_map_spec(persons.drop_last());
        match persons.last().registrant_id {
            Some(v) => m.insert(v, persons.last().name@),
            None => m,
        }
    }
}

/// A map of strings holds exactly the given keys, each with the given contents.
pub open spec fn names_match(m: Map<usize, String>, names: Map<usize, Seq<char>>) -> bool {
    &&& m.dom() == names.dom()
    &&& forall|k: usize| #[trigger] m.contains_key(k) ==> m[k]@ == names[k]
}

/// The names of the persons by registrant id.
pub fn get_id_map(persons: &Vec<json::Person>) -> (map: HashMap<usize, String>)
    ensures
        names_match(map@, id_map_spec(persons@)),
{
    let mut map: HashMap<usize, String> = HashMap::new();
    let mut i: usize = 0;
    while i < persons.len()
        invariant
            i <= persons.len(),
            names_match(map@, id_map_spec(persons@.take(i as int))),
        decreases persons.len() - i,
    {
        assert(persons@.take(i + 1).drop_last() == persons@.take(i as int));
        let p = &persons[i];
        match p.registrant_id {
            Some(v) => {
                let name = p.name.clone();
                map.insert(v, name);
                assert(map@.dom() =~= id_map_spec(persons@.take(i + 1)).dom());
            },
            None => {},
        }
        i = i + 1;
    }
    assert(persons@.take(i as int) == persons@);
    map
}

/// Whether a result misses the level of an attempt-result condition: a DNF
/// average, or an average above the level.
pub open spec fn misses_level(r: json::Result, level: usize) -> bool {
    r.average == -1 || (r.average as usize) > level
}

/// The index of the first result that misses the level.
pub open spec fn first_missing(results: Seq<json::Result>, level: usize) -> Option<int>
    decreases results.len(),
{
    if results.len() == 0 {
        None
    } else if misses_level(results[0], level) {
        Some(0)
    } else {
        match first_missing(results.drop_first(), level) {
            Some(k) => Some(k + 1),
            None => None,
        }
    }
}

/// The first result that misses the level is one of the results.
proof fn lemma_first_missing_in_range(results: Seq<json::Result>, level: usize)
    ensures
        first_missing(results, level) matches Some(k) ==> 0 <= k < results.len(),
    decreases results.len(),
{
    if results.len() > 0 {
        lemma_first_missing_in_range(results.drop_first(), level);
    }
}

proof fn lemma_first_missing(results: Seq<json::Result>, level: usize, k: int)
    requires
        0 <= k <= results.len(),
        forall|m: int| 0 <= m < k ==> !misses_level(#[trigger] results[m], level),
    ensures
        k < results.len() && misses_level(results[k], level) ==> first_missing(results, level)
            == Some(k),
        k == results.len() ==> first_missing(results, level) is None,
    decreases results.len(),
{
    if results.len() > 0 && k > 0 {
        assert forall|m: int| 0 <= m < k - 1 implies !misses_level(
            #[trigger] results.drop_first()[m],
            level,
        ) by {
            assert(results.drop_first()[m] == results[m + 1]);
        }
        lemma_first_missing(results.drop_first(), level, k - 1);
    }
}

/// Whether computing the number of advancing competitors stays within `usize`.
pub open spec fn advancement_fits(n: nat, cond: Option<json::AdvancementCondition>) -> bool {
    match cond {
        Some(json::AdvancementCondition::Percent(level)) => n * level <= usize::MAX,
        Some(json::AdvancementCondition::AttemptResult(_)) => n * 75 <= usize::MAX,
        _ => true,
    }
}

/// How many competitors of a round with `results` advance under `cond`: a
/// percentage of the competitors (rounded down), a fixed ranking, or for an
/// attempt-result condition those before the first result that misses the
/// level, but at most 75 percent.
pub open spec fn advancement_amount(
    results: Seq<json::Result>,
    cond: Option<json::AdvancementCondition>,
) -> Option<nat> {
    let n = results.len();
    match cond {
        None => None,
        Some(json::AdvancementCondition::Percent(level)) => Some((n * level / 100) as nat),
        Some(json::AdvancementCondition::Ranking(level)) => Some(level as nat),
        Some(json::AdvancementCondition::AttemptResult(level)) => {
            let percent = n * 75 / 100;
            match first_missing(results, level) {
                Some(x) => if x < percent {
                    Some(x as nat)
                } else {
                    Some(percent)
                },
                None => Some(percent),
            }
        },
    }
}

/// Whether the advancement of a round can be computed without overflow.
pub fn check_advancement_fits(
    round: &json::Round,
    advancement_condition: &Option<json::AdvancementCondition>,
) -> (b: bool)
    ensures
        b == advancement_fits(round.results@.len(), *advancement_condition),
{
    let n = round.results.len();
    match advancement_condition {
        Some(json::AdvancementCondition::Percent(level)) => n.checked_mul(*level).is_some(),
        Some(json::AdvancementCondition::AttemptResult(_)) => n.checked_mul(75).is_some(),
        _ => true,
    }
}

/// The number of competitors of `round` that advance under the condition.
pub fn get_advancement_amount(
    round: &json::Round,
    advancement_condition: &Option<json::AdvancementCondition>,
) -> (r: Option<usize>)
    requires
        advancement_fits(round.results@.len(), *advancement_condition),
    ensures
        match r {
            Some(a) => advancement_amount(round.results@, *advancement_condition) == Some(a as nat),
            None => advancement_amount(round.results@, *advancement_condition) is None,
        },
{
    let number_of_competitors = round.results.len();
    match advancement_condition {
        None => None,
        Some(json::AdvancementCondition::Percent(level)) => Some(
            number_of_competitors * *level / 100,
        ),
        Some(json::AdvancementCondition::Ranking(level)) => Some(*level),
        Some(json::AdvancementCondition::AttemptResult(level)) => {
            let results = &round.results;
            let mut x: Option<usize> = None;
            let mut i: usize = 0;
            while i < results.len()
                invariant_except_break
                    x is None,
                invariant
                    i <= results.len(),
                    forall|m: int| 0 <= m < i ==> !misses_level(#[trigger] results@[m], *level),
                ensures
                    i <= results.len(),
                    forall|m: int| 0 <= m < i ==> !misses_level(#[trigger] results@[m], *level),
                    x matches Some(v) ==> v == i && i < results.len() && misses_level(
                        results@[i as int],
                        *level,
                    ),
                    x is None ==> i == results.len(),
                decreases results.len() - i,
            {
                let average = results[i].average;
                if average == -1 || #[verifier::truncate] (average as usize) > *level {
                    x = Some(i);
                    break;
                }
                i = i + 1;
            }
            proof {
                lemma_first_missing(results@, *level, i as int);
            }
            let percent = number_of_competitors * 75 / 100;
            match x {
                Some(v) => if v < percent {
                    Some(v)
                } else {
                    Some(percent)
                },
                None => Some(percent),
            }
        },
    }
}

/// The results with a ranking of at most `amount`, in order.
pub open spec fn ranked_within(results: Seq<json::Result>, amount: nat) -> Seq<json::Result>
    decreases results.len(),
{
    if results.len() == 0 {
        Seq::empty()
    } else {
        let prev = ranked_within(results.drop_last(), amount);
        if results.last().ranking <= amount {
            prev.push(results.last())
        } else {
            prev
        }
    }
}

/// The results whose ranking is not `ranking`, in order.
pub open spec fn ranked_other_than(results: Seq<json::Result>, ranking: usize) -> Seq<
    json::Result,
>
    decreases results.len(),
{
    if results.len() == 0 {
        Seq::empty()
    } else {
        let prev = ranked_other_than(results.drop_last(), ranking);
        if results.last().ranking != ranking {
            prev.push(results.last())
        } else {
            prev
        }
    }
}

/// The person ids of the results, in order.
pub open spec fn person_ids(results: Seq<json::Result>) -> Seq<usize> {
    results.map_values(|r: json::Result| r.person_id)
}

/// The person ids of the competitors that advance: those ranked within the
/// advancement amount, but when that takes in more competitors than the amount,
/// without those who share the ranking of the last of them; nobody when the
/// round has no advancement condition.
pub open spec fn advancing_ids(
    results: Seq<json::Result>,
    cond: Option<json::AdvancementCondition>,
) -> Seq<usize> {
    match advancement_amount(results, cond) {
        None => Seq::empty(),
        Some(amount) => {
            let within = ranked_within(results, amount);
            if within.len() > amount {
                person_ids(ranked_other_than(within, within.last().ranking))
            } else {
                person_ids(within)
            }
        },
    }
}

/// The person ids of the competitors of `round` that advance under the condition.
pub fn get_advancement_ids(
    round: &json::Round,
    advancement_condition: &Option<json::AdvancementCondition>,
) -> (ids: Vec<usize>)
    requires
        advancement_fits(round.results@.len(), *advancement_condition),
    ensures
        ids@ == advancing_ids(round.results@, *advancement_condition),
{
    let advancement_amount = get_advancement_amount(round, advancement_condition);
    match advancement_amount {
        None => Vec::new(),
        Some(amount) => {
            let results = &round.results;
            let mut filtered: Vec<json::Result> = Vec::new();
            let mut i: usize = 0;
            while i < results.len()
                invariant
                    i <= results.len(),
                    filtered@ == ranked_within(results@.take(i as int), amount as nat),
                decreases results.len() - i,
            {
                assert(results@.take(i + 1).drop_last() == results@.take(i as int));
                if results[i].ranking <= amount {
                    filtered.push(results[i]);
                }
                i = i + 1;
            }
            assert(results@.take(i as int) == results@);
            let mut ids: Vec<usize> = Vec::new();
            if filtered.len() > amount {
                let not_included = filtered[filtered.len() - 1].ranking;
                let ghost kept = ranked_other_than(filtered@, not_included);
                let mut j: usize = 0;
                while j < filtered.len()
                    invariant
                        j <= filtered.len(),
                        ids@ == person_ids(ranked_other_than(filtered@.take(j as int), not_included)),
                    decreases filtered.len() - j,
                {
                    assert(filtered@.take(j + 1).drop_last() == filtered@.take(j as int));
                    let ghost before = ranked_other_than(filtered@.take(j as int), not_included);
                    if filtered[j].ranking != not_included {
                        ids.push(filtered[j].person_id);
                        assert(person_ids(before.push(filtered@[j as int])) =~= person_ids(before).push(filtered@[j as int].person_id));
                    }
                    j = j + 1;
                }
                assert(filtered@.take(j as int) == filtered@);
            } else {
                let mut j: usize = 0;
                while j < filtered.len()
                    invariant
                        j <= filtered.len(),
                        ids@ == person_ids(filtered@.take(j as int)),
                    decreases filtered.len() - j,
                {
                    ids.push(filtered[j].person_id);
                    assert(person_ids(filtered@.take(j + 1)) =~= person_ids(filtered@.take(j as int)).push(filtered@[j as int].person_id));
                    j = j + 1;
                }
                assert(filtered@.take(j as int) == filtered@);
            }
            ids
        },
    }
}

/// Every result kept by the ranking filter is a result of the round ranked
/// within the amount.
proof fn lemma_ranked_within_from(results: Seq<json::Result>, amount: nat)
    ensures
        forall|k: int|
            0 <= k < ranked_within(results, amount).len() ==> {
                let x = #[trigger] ranked_within(results, amount)[k];
                x.ranking <= amount && results.contains(x)
            },
    decreases results.len(),
{
    if results.len() > 0 {
        lemma_ranked_within_from(results.drop_last(), amount);
        let prev = ranked_within(results.drop_last(), amount);
        assert forall|k: int| 0 <= k < ranked_within(results, amount).len() implies {
            let x = #[trigger] ranked_within(results, amount)[k];
            x.ranking <= amount && results.contains(x)
        } by {
            let x = ranked_within(results, amount)[k];
            if k < prev.len() {
                assert(x == prev[k]);
                let j = choose|j: int| 0 <= j < results.drop_last().len() && results.drop_last()[j] == x;
                assert(results[j] == x);
            } else {
                assert(results[results.len() - 1] == x);
            }
        }
    }
}

/// Every result kept by dropping a ranking is one of the results it started from.
proof fn lemma_ranked_other_than_from(results: Seq<json::Result>, ranking: usize)
    ensures
        forall|k: int|
            0 <= k < ranked_other_than(results, ranking).len() ==> results.contains(
                #[trigger] ranked_other_than(results, ranking)[k],
            ),
    decreases results.len(),
{
    if results.len() > 0 {
        lemma_ranked_other_than_from(results.drop_last(), ranking);
        let prev = ranked_other_than(results.drop_last(), ranking);
        assert forall|k: int| 0 <= k < ranked_other_than(results, ranking).len() implies results.contains(
            #[trigger] ranked_other_than(results, ranking)[k],
        ) by {
            let x = ranked_other_than(results, ranking)[k];
            if k < prev.len() {
                assert(x == prev[k]);
                let j = choose|j: int| 0 <= j < results.drop_last().len() && results.drop_last()[j] == x;
                assert(results[j] == x);
            } else {
                assert(results[results.len() - 1] == x);
            }
        }
    }
}

/// Everyone who advances has a result in the round, ranked within the number
/// of competitors that advance.
pub proof fn lemma_advancing_ranked_within(
    results: Seq<json::Result>,
    cond: Option<json::AdvancementCondition>,
    k: int,
)
    requires
        0 <= k < advancing_ids(results, cond).len(),
    ensures
        advancement_amount(results, cond) is Some,
        exists|j: int|
            0 <= j < results.len() && (#[trigger] results[j]).person_id == advancing_ids(
                results,
                cond,
            )[k] && results[j].ranking <= advancement_amount(results, cond)->0,
{
    let amount = advancement_amount(results, cond)->0;
    let within = ranked_within(results, amount);
    lemma_ranked_within_from(results, amount);
    if within.len() > amount {
        let kept = ranked_other_than(within, within.last().ranking);
        lemma_ranked_other_than_from(within, within.last().ranking);
        let x = kept[k];
        let i = choose|i: int| 0 <= i < within.len() && within[i] == x;
        assert(within[i].ranking <= amount);
    } else {
        let x = within[k];
        assert(x.ranking <= amount);
    }
}

/// Whether the results are in ranking order with standard competition
/// rankings: each ranking is its position (counted from 1) or ties with the
/// result before.
pub open spec fn standard_rankings(results: Seq<json::Result>) -> bool {
    forall|i: int|
        0 <= i < results.len() ==> (#[trigger] results[i]).ranking == i + 1 || (i > 0
            && results[i].ranking == results[i - 1].ranking)
}

/// Standard rankings never exceed the position and never go down.
proof fn lemma_standard_rankings_order(results: Seq<json::Result>, i: int, j: int)
    requires
        standard_rankings(results),
        0 <= i <= j < results.len(),
    ensures
        results[j].ranking <= j + 1,
        results[i].ranking <= results[j].ranking,
    decreases j,
{
    if j > 0 && results[j].ranking != j + 1 {
        lemma_standard_rankings_order(results, if i < j { i } else { j - 1 }, j - 1);
    } else if j > 0 && i < j {
        lemma_standard_rankings_order(results, i, j - 1);
    }
}

/// The number of results, from the front, before the first one ranked above
/// `amount` (when rankings never go down, those are the ones ranked within it).
pub open spec fn within_prefix(results: Seq<json::Result>, amount: nat) -> int
    decreases results.len(),
{
    if results.len() == 0 {
        0
    } else if results.last().ranking <= amount {
        results.len() as int
    } else {
        within_prefix(results.drop_last(), amount)
    }
}

/// When every result is ranked within the amount, the filter keeps them all.
proof fn lemma_all_within(results: Seq<json::Result>, amount: nat)
    requires
        forall|i: int| 0 <= i < results.len() ==> (#[trigger] results[i]).ranking <= amount,
    ensures
        ranked_within(results, amount) == results,
    decreases results.len(),
{
    if results.len() > 0 {
        lemma_all_within(results.drop_last(), amount);
        assert(results.drop_last().push(results.last()) =~= results);
    }
}

/// With standard rankings, the results ranked within the amount are a prefix.
proof fn lemma_within_is_prefix(results: Seq<json::Result>, amount: nat)
    requires
        standard_rankings(results),
    ensures
        0 <= within_prefix(results, amount) <= results.len(),
        ranked_within(results, amount) == results.take(within_prefix(results, amount)),
    decreases results.len(),
{
    if results.len() > 0 {
        let last = results.len() - 1;
        if results[last].ranking <= amount {
            assert forall|i: int| 0 <= i < results.len() implies (#[trigger] results[i]).ranking
                <= amount by {
                lemma_standard_rankings_order(results, i, last);
            }
            lemma_all_within(results, amount);
            assert(results.take(results.len() as int) == results);
        } else {
            let rest = results.drop_last();
            assert(standard_rankings(rest)) by {
                assert forall|i: int| 0 <= i < rest.len() implies (#[trigger] rest[i]).ranking == i
                    + 1 || (i > 0 && rest[i].ranking == rest[i - 1].ranking) by {
                    assert(rest[i] == results[i]);
                    if i > 0 {
                        assert(rest[i - 1] == results[i - 1]);
                    }
                }
            }
            lemma_within_is_prefix(rest, amount);
            assert(rest.take(within_prefix(rest, amount)) == results.take(
                within_prefix(rest, amount),
            ));
        }
    }
}

/// Dropping the ranking of the last of the first `l` results leaves one result
/// fewer than that ranking.
proof fn lemma_tie_dropped(results: Seq<json::Result>, l: int)
    requires
        standard_rankings(results),
        1 <= l <= results.len(),
    ensures
        ranked_other_than(results.take(l), results[l - 1].ranking).len() == results[l
            - 1].ranking - 1,
    decreases l,
{
    let p = results.take(l);
    let r = results[l - 1].ranking;
    assert(p.drop_last() == results.take(l - 1));
    assert(p.last() == results[l - 1]);
    assert(ranked_other_than(p, r) == ranked_other_than(p.drop_last(), r));
    if l == 1 {
        assert(results[0].ranking == 1);
        assert(p.drop_last() =~= Seq::<json::Result>::empty());
        assert(ranked_other_than(p.drop_last(), r).len() == 0);
    } else if r == results[l - 2].ranking {
        lemma_tie_dropped(results, l - 1);
    } else {
        assert(r == l);
        let q = results.take(l - 1);
        assert(standard_rankings(q)) by {
            assert forall|i: int| 0 <= i < q.len() implies (#[trigger] q[i]).ranking == i + 1 || (i
                > 0 && q[i].ranking == q[i - 1].ranking) by {
                assert(q[i] == results[i]);
                if i > 0 {
                    assert(q[i - 1] == results[i - 1]);
                }
            }
        }
        lemma_none_of_ranking(q, r);
    }
}

/// Where no result has the ranking, dropping it keeps them all.
proof fn lemma_none_of_ranking(results: Seq<json::Result>, r: usize)
    requires
        standard_rankings(results),
        results.len() < r,
    ensures
        ranked_other_than(results, r).len() == results.len(),
    decreases results.len(),
{
    if results.len() > 0 {
        let rest = results.drop_last();
        lemma_standard_rankings_order(results, results.len() - 1, results.len() - 1);
        assert(standard_rankings(rest)) by {
            assert forall|i: int| 0 <= i < rest.len() implies (#[trigger] rest[i]).ranking == i + 1
                || (i > 0 && rest[i].ranking == rest[i - 1].ranking) by {
                assert(rest[i] == results[i]);
                if i > 0 {
                    assert(rest[i - 1] == results[i - 1]);
                }
            }
        }
        lemma_none_of_ranking(rest, r);
    }
}

/// With standard rankings in ranking order, no more competitors advance than
/// the advancement amount: a tie across the limit keeps the whole tie out.
pub proof fn lemma_no_more_advance_than_amount(
    results: Seq<json::Result>,
    cond: Option<json::AdvancementCondition>,
)
    requires
        standard_rankings(results),
        advancement_amount(results, cond) is Some,
    ensures
        advancing_ids(results, cond).len() <= advancement_amount(results, cond)->0,
{
    let amount = advancement_amount(results, cond)->0;
    lemma_within_is_prefix(results, amount);
    let l = within_prefix(results, amount);
    let within = ranked_within(results, amount);
    if within.len() > amount {
        assert(within.last() == results[l - 1]);
        lemma_within_ranked(results, amount, l);
        lemma_tie_dropped(results, l);
    }
}

/// The last result of the prefix ranked within the amount is ranked within it.
proof fn lemma_within_ranked(results: Seq<json::Result>, amount: nat, l: int)
    requires
        standard_rankings(results),
        l == within_prefix(results, amount),
        l >= 1,
    ensures
        results[l - 1].ranking <= amount,
    decreases results.len(),
{
    if results.last().ranking > amount {
        let rest = results.drop_last();
        assert(standard_rankings(rest)) by {
            assert forall|i: int| 0 <= i < rest.len() implies (#[trigger] rest[i]).ranking == i + 1
                || (i > 0 && rest[i].ranking == rest[i - 1].ranking) by {
                assert(rest[i] == results[i]);
                if i > 0 {
                    assert(rest[i - 1] == results[i - 1]);
                }
            }
        }
        lemma_within_is_prefix(rest, amount);
        lemma_within_ranked(rest, amount, l);
        assert(rest[l - 1] == results[l - 1]);
    }
}

/// An attempt-result condition lets at most 75 percent of the competitors
/// advance, and a percentage of at most 100 at most all of them.
pub proof fn lemma_advancement_bounded(
    results: Seq<json::Result>,
    cond: Option<json::AdvancementCondition>,
)
    ensures
        cond matches Some(json::AdvancementCondition::AttemptResult(_)) ==> advancement_amount(
            results,
            cond,
        )->0 <= results.len() * 75 / 100,
        cond matches Some(json::AdvancementCondition::Percent(level)) && level <= 100
            ==> advancement_amount(results, cond)->0 <= results.len(),
{
    if let Some(json::AdvancementCondition::AttemptResult(level)) = cond {
        lemma_first_missing_in_range(results, level);
    }
    if let Some(json::AdvancementCondition::Percent(level)) = cond {
        let n = results.len();
        assert(level <= 100 ==> n * level / 100 <= n) by (nonlinear_arith);
    }
}

/// The time limit printed for a round: multi-blind's when the round has none,
/// the cutoff and limit when there is a cutoff, else a single, cumulative or
/// shared cumulative limit after the number of rounds it is cumulative over.
pub open spec fn time_limit_spec(round: json::Round) -> LimitModel {
    match round.time_limit {
        None => LimitModel::Multi,
        Some(v) => match round.cutoff {
            None => if v.cumulative_round_ids@.len() == 0 {
                LimitModel::Single(v.centiseconds)
            } else if v.cumulative_round_ids@.len() == 1 {
                LimitModel::Cumulative(v.centiseconds)
            } else {
                LimitModel::SharedCumulative(v.centiseconds, strings_view(v.cumulative_round_ids@))
            },
            Some(c) => LimitModel::Cutoff(v.centiseconds, c.attempt_result),
        },
    }
}

/// The time limit printed for a round.
pub fn time_limit_of(round: &json::Round) -> (t: TimeLimit)
    ensures
        t@ == time_limit_spec(*round),
{
    match &round.time_limit {
        None => TimeLimit::Multi,
        Some(v) => match round.cutoff {
            None => if v.cumulative_round_ids.len() == 0 {
                TimeLimit::Single(v.centiseconds)
            } else if v.cumulative_round_ids.len() == 1 {
                TimeLimit::Cumulative(v.centiseconds)
            } else {
                let ids = v.cumulative_round_ids.clone();
                assert(strings_view(ids@) =~= strings_view(v.cumulative_round_ids@));
                TimeLimit::SharedCumulative(v.centiseconds, ids)
            },
            Some(c) => TimeLimit::Cutoff(v.centiseconds, c.attempt_result),
        },
    }
}

/// Why the scorecard information for a round could not be gathered.
#[derive(Debug, PartialEq, Eq)]
pub enum InfoError {
    /// The round before the requested one is not in the document (or the
    /// requested round is round 0).
    NoPreviousRound,
    /// The number of advancing competitors of the previous round does not fit in
    /// a `usize`.
    AdvancementOverflow,
    /// The requested round is not in the document.
    NoRound,
}

/// The position of the round before round `round` of `event` among all rounds.
pub open spec fn previous_round(wcif: Wcif, event: Seq<char>, round: usize) -> Option<int> {
    if round >= 1 {
        first_with_id(all_rounds(wcif.events@), round_id(event, (round - 1) as nat))
    } else {
        None
    }
}

/// The position of round `round` of `event` among all rounds.
pub open spec fn this_round(wcif: Wcif, event: Seq<char>, round: usize) -> Option<int> {
    first_with_id(all_rounds(wcif.events@), round_id(event, round as nat))
}

/// Why the information for round `round` of `event` cannot be gathered, if it
/// cannot: the previous round is checked first, then its advancement, then the
/// round itself.
pub open spec fn info_error(wcif: Wcif, event: Seq<char>, round: usize) -> Option<InfoError> {
    let rounds = all_rounds(wcif.events@);
    let prev = previous_round(wcif, event, round);
    if prev is None {
        Some(InfoError::NoPreviousRound)
    } else if !advancement_fits(
        rounds[prev->0].results@.len(),
        rounds[prev->0].advancement_condition,
    ) {
        Some(InfoError::AdvancementOverflow)
    } else if this_round(wcif, event, round) is None {
        Some(InfoError::NoRound)
    } else {
        None
    }
}

/// The competitors who advance to round `round` of `event` from the round before.
pub open spec fn advancing_to(wcif: Wcif, event: Seq<char>, round: usize) -> Seq<usize> {
    let rounds = all_rounds(wcif.events@);
    let prev = previous_round(wcif, event, round)->0;
    advancing_ids(rounds[prev].results@, rounds[prev].advancement_condition)
}

/// The time limit of round `round` of `event`.
pub open spec fn round_limit(wcif: Wcif, event: Seq<char>, round: usize) -> LimitModel {
    time_limit_spec(all_rounds(wcif.events@)[this_round(wcif, event, round)->0])
}

/// What the scorecards of round `round` of `event` are made from: the ids of
/// the competitors who advanced from the previous round, the names by
/// registrant id, the round's time limit and the competition's name; or why
/// the document lacks them.
pub fn try_get_scorecard_info_for_round(wcif: Wcif, event: &str, round: usize) -> (r: core::result::Result<
    (Vec<usize>, HashMap<usize, String>, TimeLimit, String),
    InfoError,
>)
    ensures
        match r {
            Ok(info) => {
                &&& info_error(wcif, event@, round) is None
                &&& info.0@ == advancing_to(wcif, event@, round)
                &&& names_match(info.1@, id_map_spec(wcif.persons@))
                &&& info.2@ == round_limit(wcif, event@, round)
                &&& info.3@ == wcif.name@
            },
            Err(e) => info_error(wcif, event@, round) == Some(e),
        },
{
    let id_map = get_id_map(&wcif.persons);
    let rounds = rounds_of(&wcif.events);
    if round == 0 {
        return Err(InfoError::NoPreviousRound);
    }
    let activity_id = round_id_string(event, round - 1);
    let prev = match find_round(&rounds, &activity_id) {
        Some(k) => k,
        None => {
            return Err(InfoError::NoPreviousRound);
        },
    };
    let round_json = rounds[prev];
    if !check_advancement_fits(round_json, &round_json.advancement_condition) {
        return Err(InfoError::AdvancementOverflow);
    }
    let advancement_ids = get_advancement_ids(round_json, &round_json.advancement_condition);
    let activity_id = round_id_string(event, round);
    let cur = match find_round(&rounds, &activity_id) {
        Some(k) => k,
        None => {
            return Err(InfoError::NoRound);
        },
    };
    let time_limit = time_limit_of(rounds[cur]);
    Ok((advancement_ids, id_map, time_limit, wcif.name))
}

/// What the scorecards of round `round` of `event` are made from: the ids of
/// the competitors who advanced from the previous round, the names by
/// registrant id, the round's time limit and the competition's name. The
/// document holds the round and the one before it, and the number advancing
/// from that one fits in a `usize`.
pub fn get_scorecard_info_for_round(wcif: Wcif, event: &str, round: usize) -> (r: (
    Vec<usize>,
    HashMap<usize, String>,
    TimeLimit,
    String,
))
    requires
        info_error(wcif, event@, round) is None,
    ensures
        r.0@ == advancing_to(wcif, event@, round),
        names_match(r.1@, id_map_spec(wcif.persons@)),
        r.2@ == round_limit(wcif, event@, round),
        r.3@ == wcif.name@,
{
    match try_get_scorecard_info_for_round(wcif, event, round) {
        Ok(info) => info,
        Err(_) => vstd::pervasive::unreached(),
    }
}

} // verus!
