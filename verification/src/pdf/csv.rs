//! Reading the groups and time limits of a first round from CSV exports.
use std::collections::HashMap;

use vstd::prelude::*;

use crate::language::same_text;
use crate::pdf::scorecard::{
    card_views, cards_sorted, sort_scorecards, CardModel, LimitModel, LimitTable, Scorecard,
    TimeLimit,
};
use crate::text::{
    chars_of, lines, lines_spec, parse_i8, parse_i8_spec, parse_usize, parse_usize_spec, seqs_of,
    split, split_spec, string_of, strings_view,
};
use crate::wcif::names_match;

verus! {

broadcast use vstd::std_specs::hash::group_hash_axioms;

/// Which CSV file could not be read.
#[derive(Debug, PartialEq, Eq)]
pub enum CsvError {
    /// The groups file has no header line, or a competitor's line lacks a
    /// registrant id or has an assignment that is not `<group>;<station>`.
    Groups,
    /// The time limits file lacks its second line, or a limit is malformed.
    Limits,
}

/// The event ids of the groups file: the header's fields after the first two.
pub open spec fn header_events(header: Seq<char>) -> Seq<Seq<char>> {
    let h = split_spec(header, ',');
    if h.len() >= 2 {
        h.skip(2)
    } else {
        Seq::empty()
    }
}

/// Whether an assignment field is empty or `<group>;<station>` with both small numbers.
pub open spec fn assignment_ok(a: Seq<char>) -> bool {
    a.len() == 0 || {
        let info = split_spec(a, ';');
        &&& parse_i8_spec(info[0]) is Some
        &&& info.len() >= 2
        &&& parse_i8_spec(info[1]) is Some
    }
}

/// The number of assignment fields of a competitor's line that are read: those
/// that have an event in the header.
pub open spec fn columns(fields: Seq<Seq<char>>, events: Seq<Seq<char>>) -> int {
    if fields.len() - 2 < events.len() {
        fields.len() - 2
    } else {
        events.len() as int
    }
}

/// Whether a competitor's line reads: a name, a registrant id, then assignments.
pub open spec fn person_ok(line: Seq<char>, events: Seq<Seq<char>>) -> bool {
    let f = split_spec(line, ',');
    &&& f.len() >= 2
    &&& parse_usize_spec(f[1]) is Some
    &&& forall|j: int| 0 <= j < columns(f, events) ==> assignment_ok(#[trigger] f[j + 2])
}

/// The scorecards of the first `k` assignment fields of a competitor's line:
/// one for each non-empty assignment, except for FMC.
pub open spec fn person_cards(line: Seq<char>, events: Seq<Seq<char>>, k: int) -> Seq<CardModel>
    decreases k,
{
    if k <= 0 {
        Seq::empty()
    } else {
        let f = split_spec(line, ',');
        let prev = person_cards(line, events, k - 1);
        let a = f[k + 1];
        let e = events[k - 1];
        if a.len() > 0 && e != "333fm"@ {
            let info = split_spec(a, ';');
            prev.push(
                CardModel {
                    event: e,
                    round: 1,
                    group: parse_i8_spec(info[0])->0 as i8,
                    station: parse_i8_spec(info[1])->0 as i8,
                    id: parse_usize_spec(f[1])->0 as usize,
                },
            )
        } else {
            prev
        }
    }
}

/// A competitor's scorecards are for round 1, never for FMC, and carry the
/// competitor's registrant id.
proof fn lemma_person_cards_first_round(line: Seq<char>, events: Seq<Seq<char>>, k: int)
    ensures
        forall|i: int|
            0 <= i < person_cards(line, events, k).len() ==> {
                let c = #[trigger] person_cards(line, events, k)[i];
                &&& c.round == 1
                &&& c.event != "333fm"@
                &&& c.id == parse_usize_spec(split_spec(line, ',')[1])->0 as usize
            },
    decreases k,
{
    if k > 0 {
        lemma_person_cards_first_round(line, events, k - 1);
        let prev = person_cards(line, events, k - 1);
        assert forall|i: int| 0 <= i < person_cards(line, events, k).len() implies {
            let c = #[trigger] person_cards(line, events, k)[i];
            &&& c.round == 1
            &&& c.event != "333fm"@
            &&& c.id == parse_usize_spec(split_spec(line, ',')[1])->0 as usize
        } by {
            if i < prev.len() {
                assert(person_cards(line, events, k)[i] == prev[i]);
            }
        }
    }
}

/// Every scorecard read from a groups file is for round 1 and never for FMC.
pub proof fn lemma_first_round_cards(persons: Seq<Seq<char>>, events: Seq<Seq<char>>)
    ensures
        forall|i: int|
            0 <= i < all_cards(persons, events).len() ==> {
                let c = #[trigger] all_cards(persons, events)[i];
                c.round == 1 && c.event != "333fm"@
            },
    decreases persons.len(),
{
    if persons.len() > 0 {
        let line = persons.last();
        let k = columns(split_spec(line, ','), events);
        lemma_first_round_cards(persons.drop_last(), events);
        lemma_person_cards_first_round(line, events, k);
        let prev = all_cards(persons.drop_last(), events);
        assert forall|i: int| 0 <= i < all_cards(persons, events).len() implies {
            let c = #[trigger] all_cards(persons, events)[i];
            c.round == 1 && c.event != "333fm"@
        } by {
            if i < prev.len() {
                assert(all_cards(persons, events)[i] == prev[i]);
            } else {
                assert(all_cards(persons, events)[i] == person_cards(line, events, k)[i - prev.len()]);
            }
        }
    }
}

/// The scorecard that assignment field `j` (counted after the name and the
/// id) of a competitor's line gives for `event`: round 1, the group and
/// station of the field, and the line's registrant id.
pub open spec fn assignment_card(line: Seq<char>, event: Seq<char>, j: int) -> CardModel {
    let f = split_spec(line, ',');
    let info = split_spec(f[j + 2], ';');
    CardModel {
        event,
        round: 1,
        group: parse_i8_spec(info[0])->0 as i8,
        station: parse_i8_spec(info[1])->0 as i8,
        id: parse_usize_spec(f[1])->0 as usize,
    }
}

/// The scorecards of a line's first `k` fields are the cards of its
/// non-empty assignments whose event is not FMC, and only those.
proof fn lemma_person_cards_are_assignments(line: Seq<char>, events: Seq<Seq<char>>, k: int)
    requires
        0 <= k <= events.len(),
    ensures
        forall|j: int|
            0 <= j < k && split_spec(line, ',')[j + 2].len() > 0 && events[j] != "333fm"@
                ==> person_cards(line, events, k).contains(
                #[trigger] assignment_card(line, events[j], j),
            ),
        forall|c: CardModel|
            #[trigger] person_cards(line, events, k).contains(c) ==> exists|j: int|
                0 <= j < k && split_spec(line, ',')[j + 2].len() > 0 && events[j] != "333fm"@ && c
                    == #[trigger] assignment_card(line, events[j], j),
    decreases k,
{
    if k > 0 {
        lemma_person_cards_are_assignments(line, events, k - 1);
        let prev = person_cards(line, events, k - 1);
        let cur = person_cards(line, events, k);
        assert forall|j: int|
            0 <= j < k && split_spec(line, ',')[j + 2].len() > 0 && events[j] != "333fm"@ implies cur.contains(
            #[trigger] assignment_card(line, events[j], j),
        ) by {
            if j < k - 1 {
                let m = choose|m: int| 0 <= m < prev.len() && prev[m] == assignment_card(line, events[j], j);
                assert(cur[m] == prev[m]);
            } else {
                assert(cur[prev.len() as int] == assignment_card(line, events[j], j));
            }
        }
        assert forall|c: CardModel| #[trigger] cur.contains(c) implies exists|j: int|
            0 <= j < k && split_spec(line, ',')[j + 2].len() > 0 && events[j] != "333fm"@ && c
                == #[trigger] assignment_card(line, events[j], j) by {
            let m = choose|m: int| 0 <= m < cur.len() && cur[m] == c;
            if m < prev.len() {
                assert(prev[m] == c);
                assert(prev.contains(c));
            } else {
                assert(c == assignment_card(line, events[k - 1], k - 1));
            }
        }
    }
}

/// Every competitor's non-empty assignment under an event other than FMC
/// gives its scorecard: that event, round 1, the assignment's group and
/// station, the competitor's registrant id. And every scorecard comes from
/// such an assignment.
pub proof fn lemma_cards_are_assignments(persons: Seq<Seq<char>>, events: Seq<Seq<char>>)
    ensures
        forall|p: int, j: int|
            0 <= p < persons.len() && 0 <= j < columns(split_spec(persons[p], ','), events)
                && split_spec(persons[p], ',')[j + 2].len() > 0 && events[j] != "333fm"@
                ==> all_cards(persons, events).contains(
                #[trigger] assignment_card(persons[p], events[j], j),
            ),
        forall|c: CardModel|
            #[trigger] all_cards(persons, events).contains(c) ==> exists|p: int, j: int|
                0 <= p < persons.len() && 0 <= j < columns(split_spec(persons[p], ','), events)
                    && split_spec(persons[p], ',')[j + 2].len() > 0 && events[j] != "333fm"@ && c
                    == #[trigger] assignment_card(persons[p], events[j], j),
    decreases persons.len(),
{
    if persons.len() > 0 {
        let rest = persons.drop_last();
        let line = persons.last();
        let k = columns(split_spec(line, ','), events);
        lemma_cards_are_assignments(rest, events);
        let prev = all_cards(rest, events);
        let mine = if k >= 0 { person_cards(line, events, k) } else { Seq::empty() };
        if k >= 0 {
            lemma_person_cards_are_assignments(line, events, k);
        }
        let all = all_cards(persons, events);
        assert(all == prev + person_cards(line, events, k));
        assert forall|p: int, j: int|
            0 <= p < persons.len() && 0 <= j < columns(split_spec(persons[p], ','), events)
                && split_spec(persons[p], ',')[j + 2].len() > 0 && events[j] != "333fm"@ implies all.contains(
            #[trigger] assignment_card(persons[p], events[j], j),
        ) by {
            let c = assignment_card(persons[p], events[j], j);
            if p < rest.len() {
                assert(rest[p] == persons[p]);
                let m = choose|m: int| 0 <= m < prev.len() && prev[m] == c;
                assert(all[m] == prev[m]);
            } else {
                let m = choose|m: int| 0 <= m < mine.len() && mine[m] == c;
                assert(all[prev.len() + m] == mine[m]);
            }
        }
        assert forall|c: CardModel| #[trigger] all.contains(c) implies exists|p: int, j: int|
            0 <= p < persons.len() && 0 <= j < columns(split_spec(persons[p], ','), events)
                && split_spec(persons[p], ',')[j + 2].len() > 0 && events[j] != "333fm"@ && c
                == #[trigger] assignment_card(persons[p], events[j], j) by {
            let m = choose|m: int| 0 <= m < all.len() && all[m] == c;
            if m < prev.len() {
                assert(prev[m] == c);
                assert(prev.contains(c));
                let (p, j) = choose|p: int, j: int|
                    0 <= p < rest.len() && 0 <= j < columns(split_spec(rest[p], ','), events)
                        && split_spec(rest[p], ',')[j + 2].len() > 0 && events[j] != "333fm"@ && c
                        == #[trigger] assignment_card(rest[p], events[j], j);
                assert(rest[p] == persons[p]);
            } else {
                assert(mine[m - prev.len()] == c);
                assert(mine.contains(c));
                let j = choose|j: int|
                    0 <= j < k && split_spec(line, ',')[j + 2].len() > 0 && events[j] != "333fm"@ && c
                        == #[trigger] assignment_card(line, events[j], j);
                assert(persons[persons.len() - 1] == line);
            }
        }
    }
}

/// The non-empty lines.
pub open spec fn nonempty(ls: Seq<Seq<char>>) -> Seq<Seq<char>>
    decreases ls.len(),
{
    if ls.len() == 0 {
        Seq::empty()
    } else if ls.last().len() > 0 {
        nonempty(ls.drop_last()).push(ls.last())
    } else {
        nonempty(ls.drop_last())
    }
}

/// The scorecards of the competitors' lines, line after line.
pub open spec fn all_cards(persons: Seq<Seq<char>>, events: Seq<Seq<char>>) -> Seq<CardModel>
    decreases persons.len(),
{
    if persons.len() == 0 {
        Seq::empty()
    } else {
        let line = persons.last();
        all_cards(persons.drop_last(), events) + person_cards(
            line,
            events,
            columns(split_spec(line, ','), events),
        )
    }
}

/// The names by registrant id of the competitors' lines; a later line with the
/// same id replaces an earlier one.
pub open spec fn csv_names(persons: Seq<Seq<char>>) -> Map<usize, Seq<char>>
    decreases persons.len(),
{
    if persons.len() == 0 {
        Map::empty()
    } else {
        let f = split_spec(persons.last(), ',');
        csv_names(persons.drop_last()).insert(parse_usize_spec(f[1])->0 as usize, f[0])
    }
}

/// Whether a groups file reads: a header line, then lines that are empty or
/// well-formed competitor lines.
pub open spec fn groups_ok(data: Seq<char>) -> bool {
    let ls = lines_spec(data);
    &&& ls.len() >= 1
    &&& forall|k: int|
        1 <= k < ls.len() && (#[trigger] ls[k]).len() > 0 ==> person_ok(
            ls[k],
            header_events(ls[0]),
        )
}

/// The competitors' lines of a groups file.
pub open spec fn person_lines(data: Seq<char>) -> Seq<Seq<char>> {
    let ls = lines_spec(data);
    nonempty(ls.subrange(1, ls.len() as int))
}

/// The scorecards of the first round and the competitors' names, read from a
/// groups file: a header `name,id,<event>,...` and a line per competitor
/// `<name>,<id>,<group>;<station>,...`, an empty field for an event the
/// competitor is not in. The scorecards come in printing order.
pub fn try_parse_groups_csv(data: &str) -> (r: Result<
    (Vec<Scorecard>, HashMap<usize, String>),
    CsvError,
>)
    ensures
        match r {
            Ok((cards, names)) => {
                let ls = lines_spec(data@);
                &&& groups_ok(data@)
                &&& cards_sorted(card_views(cards@))
                &&& card_views(cards@).to_multiset() == all_cards(
                    person_lines(data@),
                    header_events(ls[0]),
                ).to_multiset()
                &&& names_match(names@, csv_names(person_lines(data@)))
            },
            Err(e) => !groups_ok(data@) && e == CsvError::Groups,
        },
{
    proof {
        reveal_strlit("333fm");
    }
    let text = chars_of(data);
    let ls = lines(text.as_slice());
    let ghost lsv = seqs_of(ls@);
    if ls.len() == 0 {
        return Err(CsvError::Groups);
    }
    let header = split(ls[0].as_slice(), ',');
    let mut events: Vec<Vec<char>> = Vec::new();
    let mut h: usize = 2;
    while h < header.len()
        invariant
            2 <= h,
            header.len() >= 2 ==> h <= header.len(),
            seqs_of(events@) == if h <= header.len() {
                seqs_of(header@).subrange(2, h as int)
            } else {
                Seq::<Seq<char>>::empty()
            },
        decreases header.len() - h,
    {
        let c = header[h].clone();
        assert(c@ =~= header@[h as int]@);
        let ghost old_events = seqs_of(events@);
        assert(old_events == seqs_of(header@).subrange(2, h as int));
        events.push(c);
        assert(seqs_of(events@) =~= old_events.push(c@));
        assert(seqs_of(events@) =~= seqs_of(header@).subrange(2, h + 1));
        h = h + 1;
    }
    let ghost ev = seqs_of(events@);
    assert(ev == header_events(lsv[0])) by {
        if header.len() >= 2 {
            assert(seqs_of(header@).subrange(2, header.len() as int) == seqs_of(header@).skip(2));
        } else {
            assert(ev =~= Seq::<Seq<char>>::empty());
        }
    }
    let mut cards: Vec<Scorecard> = Vec::new();
    let mut names: HashMap<usize, String> = HashMap::new();
    let mut k: usize = 1;
    while k < ls.len()
        invariant
            lsv == seqs_of(ls@),
            lsv == lines_spec(data@),
            ev == seqs_of(events@),
            ev == header_events(lsv[0]),
            1 <= k <= ls.len(),
            forall|m: int| 1 <= m < k && (#[trigger] lsv[m]).len() > 0 ==> person_ok(lsv[m], ev),
            card_views(cards@) == all_cards(nonempty(lsv.subrange(1, k as int)), ev),
            names_match(names@, csv_names(nonempty(lsv.subrange(1, k as int)))),
        decreases ls.len() - k,
    {
        assert(lsv.subrange(1, k + 1).drop_last() == lsv.subrange(1, k as int));
        let ghost prefix = nonempty(lsv.subrange(1, k as int));
        let line = &ls[k];
        if line.len() > 0 {
            let fields = split(line.as_slice(), ',');
            let ghost f = seqs_of(fields@);
            if fields.len() < 2 {
                assert(!person_ok(lsv[k as int], ev));
                return Err(CsvError::Groups);
            }
            let id = match parse_usize(fields[1].as_slice()) {
                Some(v) => v,
                None => {
                    assert(!person_ok(lsv[k as int], ev));
                    return Err(CsvError::Groups);
                },
            };
            names.insert(id, string_of(fields[0].as_slice()));
            let m: usize = if fields.len() - 2 < events.len() {
                fields.len() - 2
            } else {
                events.len()
            };
            let ghost before = card_views(cards@);
            let mut j: usize = 0;
            while j < m
                invariant
                    lsv == seqs_of(ls@),
                    lsv == lines_spec(data@),
                    ev == header_events(lsv[0]),
                    1 <= k < lsv.len(),
                    lsv[k as int].len() > 0,
                    f == seqs_of(fields@),
                    f == split_spec(lsv[k as int], ','),
                    fields.len() >= 2,
                    m <= fields.len() - 2,
                    f.len() >= 2,
                    parse_usize_spec(f[1]) == Some(id as nat),
                    ev == seqs_of(events@),
                    m == columns(f, ev),
                    j <= m,
                    forall|jj: int| 0 <= jj < j ==> assignment_ok(#[trigger] f[jj + 2]),
                    card_views(cards@) == before + person_cards(lsv[k as int], ev, j as int),
                decreases m - j,
            {
                let a = &fields[j + 2];
                if a.len() > 0 {
                    let info = split(a.as_slice(), ';');
                    proof {
                        crate::text::lemma_split_nonempty(a@, ';');
                    }
                    let group = match parse_i8(info[0].as_slice()) {
                        Some(g) => g,
                        None => {
                            assert(!assignment_ok(f[j + 2]));
                            assert(!person_ok(lsv[k as int], ev));
                            return Err(CsvError::Groups);
                        },
                    };
                    if info.len() < 2 {
                        assert(!assignment_ok(f[j + 2]));
                        assert(!person_ok(lsv[k as int], ev));
                        return Err(CsvError::Groups);
                    }
                    let station = match parse_i8(info[1].as_slice()) {
                        Some(s) => s,
                        None => {
                            assert(!assignment_ok(f[j + 2]));
                            assert(!person_ok(lsv[k as int], ev));
                            return Err(CsvError::Groups);
                        },
                    };
                    let event = string_of(events[j].as_slice());
                    if !same_text(event.as_str(), "333fm") {
                        let ghost old_cards = card_views(cards@);
                        cards.push(Scorecard { event, round: 1, group, station, id });
                        assert(card_views(cards@) =~= old_cards.push(cards@.last()@));
                    }
                }
                j = j + 1;
            }
            assert(prefix.push(lsv[k as int]).drop_last() == prefix);
        }
        k = k + 1;
    }
    assert(lsv.subrange(1, k as int) == lsv.subrange(1, lsv.len() as int));
    let sorted = sort_scorecards(cards);
    Ok((sorted, names))
}

/// The time limit a field of the limits file gives: `T;<cs>` a limit per
/// attempt, `C;<cs>` a cumulative one, `K;<cutoff>;<cs>` a cutoff and limit,
/// `S;<cs>;<event>;...` a cumulative limit shared with the events listed, `M`
/// multi-blind's; anything else is malformed.
pub open spec fn limit_field(x: Seq<char>) -> Option<LimitModel> {
    let parts = split_spec(x, ';');
    let t = parts[0];
    if t == "T"@ {
        if parts.len() >= 2 && parse_usize_spec(parts[1]) is Some {
            Some(LimitModel::Single(parse_usize_spec(parts[1])->0 as usize))
        } else {
            None
        }
    } else if t == "C"@ {
        if parts.len() >= 2 && parse_usize_spec(parts[1]) is Some {
            Some(LimitModel::Cumulative(parse_usize_spec(parts[1])->0 as usize))
        } else {
            None
        }
    } else if t == "K"@ {
        if parts.len() >= 3 && parse_usize_spec(parts[1]) is Some && parse_usize_spec(
            parts[2],
        ) is Some {
            Some(
                LimitModel::Cutoff(
                    parse_usize_spec(parts[1])->0 as usize,
                    parse_usize_spec(parts[2])->0 as usize,
                ),
            )
        } else {
            None
        }
    } else if t == "S"@ {
        if parts.len() >= 2 && parse_usize_spec(parts[1]) is Some {
            Some(
                LimitModel::SharedCumulative(
                    parse_usize_spec(parts[1])->0 as usize,
                    parts.subrange(2, parts.len() as int),
                ),
            )
        } else {
            None
        }
    } else if t == "M"@ {
        Some(LimitModel::Multi)
    } else {
        None
    }
}

/// The number of limit fields read: those that have an event in the first line.
pub open spec fn limit_columns(events: Seq<Seq<char>>, fields: Seq<Seq<char>>) -> int {
    if events.len() < fields.len() {
        events.len() as int
    } else {
        fields.len() as int
    }
}

/// Whether a limits file reads: a line of event ids, then a line with a
/// well-formed limit for each of them.
pub open spec fn limits_ok(data: Seq<char>) -> bool {
    let ls = lines_spec(data);
    ls.len() >= 2 && {
        let events = split_spec(ls[0], ',');
        let fields = split_spec(ls[1], ',');
        forall|j: int|
            0 <= j < limit_columns(events, fields) ==> (#[trigger] limit_field(fields[j])) is Some
    }
}

/// The limits of the first `k` events; a later column for the same event wins.
pub open spec fn limits_map(events: Seq<Seq<char>>, fields: Seq<Seq<char>>, k: int) -> Map<
    Seq<char>,
    LimitModel,
>
    decreases k,
{
    if k <= 0 {
        Map::empty()
    } else {
        limits_map(events, fields, k - 1).insert(events[k - 1], limit_field(fields[k - 1])->0)
    }
}

/// The time limit of one field of the limits file.
fn parse_limit_field(x: &Vec<char>) -> (r: Option<TimeLimit>)
    ensures
        match r {
            Some(t) => limit_field(x@) == Some(t@),
            None => limit_field(x@) is None,
        },
{
    proof {
        crate::text::lemma_split_nonempty(x@, ';');
    }
    let parts = split(x.as_slice(), ';');
    let t = string_of(parts[0].as_slice());
    if same_text(t.as_str(), "T") || same_text(t.as_str(), "C") {
        if parts.len() < 2 {
            return None;
        }
        match parse_usize(parts[1].as_slice()) {
            Some(v) => if same_text(t.as_str(), "T") {
                Some(TimeLimit::Single(v))
            } else {
                Some(TimeLimit::Cumulative(v))
            },
            None => None,
        }
    } else if same_text(t.as_str(), "K") {
        if parts.len() < 3 {
            return None;
        }
        match (parse_usize(parts[1].as_slice()), parse_usize(parts[2].as_slice())) {
            (Some(a), Some(b)) => Some(TimeLimit::Cutoff(a, b)),
            _ => None,
        }
    } else if same_text(t.as_str(), "S") {
        if parts.len() < 2 {
            return None;
        }
        match parse_usize(parts[1].as_slice()) {
            Some(v) => {
                let mut rest: Vec<String> = Vec::new();
                let mut i: usize = 2;
                while i < parts.len()
                    invariant
                        2 <= i <= parts.len(),
                        strings_view(rest@) == seqs_of(parts@).subrange(2, i as int),
                    decreases parts.len() - i,
                {
                    let ghost before = strings_view(rest@);
                    rest.push(string_of(parts[i].as_slice()));
                    assert(strings_view(rest@) =~= before.push(parts@[i as int]@));
                    assert(strings_view(rest@) =~= seqs_of(parts@).subrange(2, i + 1));
                    i = i + 1;
                }
                Some(TimeLimit::SharedCumulative(v, rest))
            },
            None => None,
        }
    } else if same_text(t.as_str(), "M") {
        Some(TimeLimit::Multi)
    } else {
        None
    }
}

/// The time limits read from a limits file: a line of event ids and a line of
/// limits, column by column.
pub fn try_parse_limits_csv(data: &str) -> (r: Result<LimitTable, CsvError>)
    ensures
        match r {
            Ok(table) => {
                let ls = lines_spec(data@);
                let events = split_spec(ls[0], ',');
                let fields = split_spec(ls[1], ',');
                &&& limits_ok(data@)
                &&& table@ == limits_map(events, fields, limit_columns(events, fields))
            },
            Err(e) => !limits_ok(data@) && e == CsvError::Limits,
        },
{
    let text = chars_of(data);
    let ls = lines(text.as_slice());
    let ghost lsv = seqs_of(ls@);
    if ls.len() < 2 {
        return Err(CsvError::Limits);
    }
    let event_list = split(ls[0].as_slice(), ',');
    let limit_data = split(ls[1].as_slice(), ',');
    let ghost events = seqs_of(event_list@);
    let ghost fields = seqs_of(limit_data@);
    let n: usize = if event_list.len() < limit_data.len() {
        event_list.len()
    } else {
        limit_data.len()
    };
    let mut limits = LimitTable::new();
    let mut j: usize = 0;
    while j < n
        invariant
            lsv == lines_spec(data@),
            lsv.len() >= 2,
            events == split_spec(lsv[0], ','),
            fields == split_spec(lsv[1], ','),
            events == seqs_of(event_list@),
            fields == seqs_of(limit_data@),
            n == limit_columns(events, fields),
            j <= n,
            forall|jj: int| 0 <= jj < j ==> (#[trigger] limit_field(fields[jj])) is Some,
            limits@ == limits_map(events, fields, j as int),
        decreases n - j,
    {
        match parse_limit_field(&limit_data[j]) {
            Some(t) => {
                limits.insert(string_of(event_list[j].as_slice()), t);
            },
            None => {
                assert(limit_field(fields[j as int]) is None);
                assert(!limits_ok(data@));
                return Err(CsvError::Limits);
            },
        }
        j = j + 1;
    }
    Ok(limits)
}

/// The scorecards of the first round and the competitors' names, read from a
/// well-formed groups file; the scorecards come in printing order.
pub fn parse_groups_csv(data: &str) -> (r: (Vec<Scorecard>, HashMap<usize, String>))
    requires
        groups_ok(data@),
    ensures
        cards_sorted(card_views(r.0@)),
        card_views(r.0@).to_multiset() == all_cards(
            person_lines(data@),
            header_events(lines_spec(data@)[0]),
        ).to_multiset(),
        names_match(r.1@, csv_names(person_lines(data@))),
{
    match try_parse_groups_csv(data) {
        Ok(v) => v,
        Err(_) => vstd::pervasive::unreached(),
    }
}

/// The time limits read from a well-formed limits file.
pub fn parse_limits_csv(data: &str) -> (table: LimitTable)
    requires
        limits_ok(data@),
    ensures
        ({
            let ls = lines_spec(data@);
            let events = split_spec(ls[0], ',');
            let fields = split_spec(ls[1], ',');
            table@ == limits_map(events, fields, limit_columns(events, fields))
        }),
{
    match try_parse_limits_csv(data) {
        Ok(t) => t,
        Err(_) => vstd::pervasive::unreached(),
    }
}

} // verus!
