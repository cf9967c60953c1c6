//! Scorecards, time limits, and the text and layout of a printed sheet.
use std::collections::HashMap;

use vstd::arithmetic::div_mod::{
    lemma_fundamental_div_mod, lemma_fundamental_div_mod_converse, lemma_mod_bound,
};
use vstd::prelude::*;

use crate::language::{english_words, language_key, lemma_key_texts, same_text, Language};
use crate::text::{
    decimal, decimal2, digits_value, lemma_decimal2_reads_back, lemma_decimal_reads_back,
    push_char, push_decimal, push_decimal2, push_str, string_from, strings_view,
};

verus! {

/// The time limit printed at the bottom of a scorecard.
pub enum TimeLimit {
    /// A limit per attempt, in centiseconds.
    Single(usize),
    /// A limit on the sum of the attempts, in centiseconds.
    Cumulative(usize),
    /// A cumulative limit shared with the rounds of other events.
    SharedCumulative(usize, Vec<String>),
    /// A cutoff and a limit per attempt, in centiseconds.
    Cutoff(usize, usize),
    /// The limit of multi-blind, which depends on the number of cubes.
    Multi,
    /// No limit is printed.
    NoLimit,
}

/// What a [`TimeLimit`] holds, with the shared events as character sequences.
pub enum LimitModel {
    Single(usize),
    Cumulative(usize),
    SharedCumulative(usize, Seq<Seq<char>>),
    Cutoff(usize, usize),
    Multi,
    NoLimit,
}

impl View for TimeLimit {
    type V = LimitModel;

    open spec fn view(&self) -> LimitModel {
        match self {
            TimeLimit::Single(z) => LimitModel::Single(*z),
            TimeLimit::Cumulative(z) => LimitModel::Cumulative(*z),
            TimeLimit::SharedCumulative(z, v) => LimitModel::SharedCumulative(*z, strings_view(v@)),
            TimeLimit::Cutoff(x, z) => LimitModel::Cutoff(*x, *z),
            TimeLimit::Multi => LimitModel::Multi,
            TimeLimit::NoLimit => LimitModel::NoLimit,
        }
    }
}

/// One scorecard: a competitor's seat in a group of a round of an event.
#[derive(Debug, PartialEq, Eq, PartialOrd, Ord)]
pub struct Scorecard {
    pub event: String,
    pub round: i8,
    pub group: i8,
    pub station: i8,
    pub id: usize,
}

/// What a scorecard holds, with the event id as characters.
pub struct CardModel {
    pub event: Seq<char>,
    pub round: i8,
    pub group: i8,
    pub station: i8,
    pub id: usize,
}

impl View for Scorecard {
    type V = CardModel;

    open spec fn view(&self) -> CardModel {
        CardModel {
            event: self.event@,
            round: self.round,
            group: self.group,
            station: self.station,
            id: self.id,
        }
    }
}

/// What each of a list of scorecards holds.
pub open spec fn card_views(s: Seq<Scorecard>) -> Seq<CardModel> {
    s.map_values(|c: Scorecard| c@)
}

impl Scorecard {
    /// A copy of this scorecard.
    pub fn copy(&self) -> (c: Scorecard)
        ensures
            c == *self,
    {
        Scorecard {
            event: self.event.clone(),
            round: self.round,
            group: self.group,
            station: self.station,
            id: self.id,
        }
    }
}

/// The time limits of a set of events, as a map from event id to limit; a
/// later entry for an event replaces an earlier one.
///
/// The entries are kept in a list and looked up by comparing ids: a
/// `HashMap` keyed by `String` has no model of its keys that a contract could
/// speak of, so the limits of a table could not be stated through one.
pub struct LimitTable {
    entries: Vec<(String, TimeLimit)>,
}

/// The map that a list of entries describes, later entries winning.
pub open spec fn entries_map(entries: Seq<(String, TimeLimit)>) -> Map<Seq<char>, LimitModel>
    decreases entries.len(),
{
    if entries.len() == 0 {
        Map::empty()
    } else {
        entries_map(entries.drop_last()).insert(entries.last().0@, entries.last().1@)
    }
}

/// Entries after position `j` with another key leave the map's value at `key` as it was.
proof fn lemma_entries_map_suffix(entries: Seq<(String, TimeLimit)>, j: int, key: Seq<char>)
    requires
        0 <= j <= entries.len(),
        forall|m: int| j <= m < entries.len() ==> (#[trigger] entries[m]).0@ != key,
    ensures
        entries_map(entries).contains_key(key) == entries_map(entries.take(j)).contains_key(key),
        entries_map(entries).contains_key(key) ==> entries_map(entries)[key] == entries_map(
            entries.take(j),
        )[key],
    decreases entries.len(),
{
    if j < entries.len() {
        assert(entries.drop_last().take(j) == entries.take(j));
        lemma_entries_map_suffix(entries.drop_last(), j, key);
    } else {
        assert(entries.take(j) == entries);
    }
}

impl View for LimitTable {
    type V = Map<Seq<char>, LimitModel>;

    closed spec fn view(&self) -> Map<Seq<char>, LimitModel> {
        entries_map(self.entries@)
    }
}

impl LimitTable {
    /// A table with no limits.
    pub fn new() -> (t: LimitTable)
        ensures
            t@ == Map::<Seq<char>, LimitModel>::empty(),
    {
        LimitTable { entries: Vec::new() }
    }

    /// Sets the limit of `event`.
    pub fn insert(&mut self, event: String, limit: TimeLimit)
        ensures
            final(self)@ == old(self)@.insert(event@, limit@),
    {
        let ghost before = self.entries@;
        self.entries.push((event, limit));
        assert(self.entries@.drop_last() == before);
    }

    /// The limit of `event`, if the table has one.
    pub fn get(&self, event: &str) -> (r: Option<&TimeLimit>)
        ensures
            match r {
                Some(t) => self@.contains_key(event@) && self@[event@] == t@,
                None => !self@.contains_key(event@),
            },
    {
        let key = crate::text::string_from(event);
        let mut i: usize = self.entries.len();
        while i > 0
            invariant
                i <= self.entries.len(),
                key@ == event@,
                forall|m: int| i <= m < self.entries@.len() ==> (#[trigger] self.entries@[m]).0@ != event@,
            decreases i,
        {
            if self.entries[i - 1].0 == key {
                proof {
                    lemma_entries_map_suffix(self.entries@, i as int, event@);
                    assert(self.entries@.take(i as int).drop_last() == self.entries@.take(i - 1));
                }
                return Some(&self.entries[i - 1].1);
            }
            i = i - 1;
        }
        proof {
            lemma_entries_map_suffix(self.entries@, 0, event@);
        }
        None
    }
}

/// A table that prints no time limit for the event of any of `cards`.
pub fn no_limits(cards: &Vec<Scorecard>) -> (t: LimitTable)
    ensures
        forall|e: Seq<char>|
            #[trigger] t@.contains_key(e) <==> exists|i: int|
                0 <= i < cards@.len() && (#[trigger] cards@[i]).event@ == e,
        forall|e: Seq<char>| #[trigger] t@.contains_key(e) ==> t@[e] == LimitModel::NoLimit,
{
    let mut t = LimitTable::new();
    let mut i: usize = 0;
    while i < cards.len()
        invariant
            i <= cards@.len(),
            forall|e: Seq<char>|
                #[trigger] t@.contains_key(e) <==> exists|j: int|
                    0 <= j < i && (#[trigger] cards@[j]).event@ == e,
            forall|e: Seq<char>| #[trigger] t@.contains_key(e) ==> t@[e] == LimitModel::NoLimit,
        decreases cards.len() - i,
    {
        t.insert(cards[i].event.clone(), TimeLimit::NoLimit);
        proof {
            assert forall|e: Seq<char>| #[trigger] t@.contains_key(e) implies exists|j: int|
                0 <= j < i + 1 && (#[trigger] cards@[j]).event@ == e by {
                if e == cards@[i as int].event@ {
                    assert(cards@[i as int].event@ == e);
                }
            }
        }
        i = i + 1;
    }
    t
}

/// A time in centiseconds as printed: `m:ss.cc` from one minute on, else `s.cc`.
pub open spec fn time_text(z: nat) -> Seq<char> {
    if z >= 6000 {
        decimal(z / 6000) + seq![':'] + decimal2((z % 6000) / 100) + seq!['.'] + decimal2(z % 100)
    } else {
        decimal(z / 100) + seq!['.'] + decimal2(z % 100)
    }
}

/// The time in centiseconds that a printed time reads as: with a `:` six
/// characters from the end, minutes before it, then seconds and hundredths;
/// else seconds before the last three characters, then hundredths.
pub open spec fn read_time(s: Seq<char>) -> nat {
    let n = s.len() as int;
    if n >= 7 && s[n - 6] == ':' {
        digits_value(s.take(n - 6)) * 6000 + digits_value(s.subrange(n - 5, n - 3)) * 100
            + digits_value(s.subrange(n - 2, n))
    } else {
        digits_value(s.take(n - 3)) * 100 + digits_value(s.subrange(n - 2, n))
    }
}

/// A printed time reads back as the time it was printed from.
pub proof fn lemma_time_text_reads_back(z: nat)
    ensures
        read_time(time_text(z)) == z,
{
    let s = time_text(z);
    let n = s.len() as int;
    lemma_decimal2_reads_back(z % 100);
    if z >= 6000 {
        let a = decimal(z / 6000);
        let b = decimal2((z % 6000) / 100);
        let c = decimal2(z % 100);
        lemma_decimal_reads_back(z / 6000);
        assert((z % 6000) / 100 < 60) by (nonlinear_arith);
        lemma_decimal2_reads_back((z % 6000) / 100);
        assert(n == a.len() + 6);
        assert(s[n - 6] == ':');
        assert(s.take(n - 6) =~= a);
        assert(s.subrange(n - 5, n - 3) =~= b);
        assert(s.subrange(n - 2, n) =~= c);
        assert((z / 6000) * 6000 + ((z % 6000) / 100) * 100 + z % 100 == z) by (nonlinear_arith);
        assert(digits_value(s.take(n - 6)) == z / 6000);
        assert(digits_value(s.subrange(n - 5, n - 3)) == (z % 6000) / 100);
        assert(digits_value(s.subrange(n - 2, n)) == z % 100);
    } else {
        let a = decimal(z / 100);
        let c = decimal2(z % 100);
        assert(z / 100 < 60);
        lemma_decimal2_reads_back(z / 100);
        lemma_decimal_reads_back(z / 100);
        assert(n == a.len() + 3);
        assert(n < 7);
        assert(s.take(n - 3) =~= a);
        assert(s.subrange(n - 2, n) =~= c);
        assert((z / 100) * 100 + z % 100 == z) by (nonlinear_arith);
        assert(digits_value(s.take(n - 3)) == z / 100);
        assert(digits_value(s.subrange(n - 2, n)) == z % 100);
    }
}

/// Different times are printed differently.
pub proof fn lemma_time_text_injective(z1: nat, z2: nat)
    requires
        time_text(z1) == time_text(z2),
    ensures
        z1 == z2,
{
    lemma_time_text_reads_back(z1);
    lemma_time_text_reads_back(z2);
}

/// Appends the printed form of a time in centiseconds.
pub fn push_time(s: &mut String, z: usize)
    ensures
        final(s)@ == old(s)@ + time_text(z as nat),
{
    if z >= 6000 {
        push_decimal(s, z / 6000);
        push_char(s, ':');
        let rest = z % 6000;
        push_decimal2(s, rest / 100);
        push_char(s, '.');
        push_decimal2(s, rest % 100);
        assert(rest % 100 == z % 100) by (nonlinear_arith)
            requires
                rest == z % 6000,
        ;
    } else {
        push_decimal(s, z / 100);
        push_char(s, '.');
        push_decimal2(s, z % 100);
    }
    assert(final(s)@ =~= old(s)@ + time_text(z as nat));
}

/// The printed form of a time in centiseconds.
pub fn time_string(z: usize) -> (s: String)
    ensures
        s@ == time_text(z as nat),
{
    let mut s = String::new();
    push_time(&mut s, z);
    assert(s@ =~= time_text(z as nat));
    s
}

/// Scorecards per printed page.
pub const PER_PAGE: usize = 6;

/// The number of pages that `n` scorecards take: `n / 6` rounded up.
pub open spec fn page_count(n: int) -> int {
    (n + 5) / 6
}

/// The position in the scorecard list of the card printed at place `pos` of
/// page `page`: the list runs down each place across all pages before the next
/// place, so that cutting the stacked pages keeps the cards in order.
pub open spec fn card_index(pages: int, page: int, pos: int) -> int {
    pos * pages + page
}

/// What is printed at a place: the scorecard at `card_index`, or nothing past
/// the end of the list.
pub open spec fn card_at(cards: Seq<Scorecard>, pages: int, page: int, pos: int) -> Option<
    Scorecard,
> {
    let i = card_index(pages, page, pos);
    if i < cards.len() {
        Some(cards[i])
    } else {
        None
    }
}

/// The scorecards laid out on pages of six places.
pub fn arrange_pages(scorecards: &Vec<Scorecard>) -> (pages: Vec<Vec<Option<Scorecard>>>)
    requires
        scorecards@.len() + 5 <= usize::MAX,
    ensures
        pages@.len() == page_count(scorecards@.len() as int),
        forall|p: int|
            0 <= p < pages@.len() ==> (#[trigger] pages@[p])@.len() == PER_PAGE,
        forall|p: int, pos: int|
            0 <= p < pages@.len() && 0 <= pos < PER_PAGE ==> #[trigger] pages@[p]@[pos]
                == card_at(scorecards@, pages@.len() as int, p, pos),
{
    let n = scorecards.len();
    let n_pages = (n + 5) / 6;
    let mut pages: Vec<Vec<Option<Scorecard>>> = Vec::new();
    let mut p: usize = 0;
    while p < n_pages
        invariant
            n == scorecards@.len(),
            n + 5 <= usize::MAX,
            n_pages == page_count(n as int),
            p <= n_pages,
            pages@.len() == p,
            forall|q: int| 0 <= q < p ==> (#[trigger] pages@[q])@.len() == PER_PAGE,
            forall|q: int, pos: int|
                0 <= q < p && 0 <= pos < PER_PAGE ==> #[trigger] pages@[q]@[pos] == card_at(
                    scorecards@,
                    n_pages as int,
                    q,
                    pos,
                ),
        decreases n_pages - p,
    {
        let mut page: Vec<Option<Scorecard>> = Vec::new();
        let mut pos: usize = 0;
        while pos < PER_PAGE
            invariant
                n == scorecards@.len(),
                n + 5 <= usize::MAX,
                n_pages == page_count(n as int),
                p < n_pages,
                pos <= PER_PAGE,
                page@.len() == pos,
                forall|k: int| 0 <= k < pos ==> (#[trigger] page@[k]) == card_at(
                    scorecards@,
                    n_pages as int,
                    p as int,
                    k,
                ),
            decreases PER_PAGE - pos,
        {
            assert(pos * n_pages + p < 6 * n_pages) by (nonlinear_arith)
                requires
                    pos < 6,
                    p < n_pages,
            ;
            assert(6 * n_pages <= n + 5) by (nonlinear_arith)
                requires
                    n_pages == (n + 5) / 6,
            ;
            let idx = pos * n_pages + p;
            if idx < n {
                page.push(Some(scorecards[idx].copy()));
            } else {
                page.push(None);
            }
            pos = pos + 1;
        }
        pages.push(page);
        p = p + 1;
    }
    pages
}

/// Each scorecard of the list is printed: card `i` stands at place `i / pages`
/// of page `i % pages`.
pub proof fn lemma_every_card_placed(n: int, i: int)
    requires
        0 <= i < n,
    ensures
        0 <= i % page_count(n) < page_count(n),
        0 <= i / page_count(n) < PER_PAGE,
        card_index(page_count(n), i % page_count(n), i / page_count(n)) == i,
{
    let pc = page_count(n);
    assert(pc >= 1 && i < 6 * pc) by (nonlinear_arith)
        requires
            pc == (n + 5) / 6,
            0 <= i < n,
    ;
    lemma_fundamental_div_mod(i, pc);
    lemma_mod_bound(i, pc);
    assert(0 <= i / pc < 6) by (nonlinear_arith)
        requires
            i == pc * (i / pc) + i % pc,
            0 <= i % pc < pc,
            0 <= i < 6 * pc,
            pc >= 1,
    ;
    assert(card_index(pc, i % pc, i / pc) == i) by (nonlinear_arith)
        requires
            i == pc * (i / pc) + i % pc,
    ;
}

/// No two places show the same scorecard: distinct places have distinct
/// positions in the list.
pub proof fn lemma_places_distinct(pages: int, p1: int, pos1: int, p2: int, pos2: int)
    requires
        0 <= p1 < pages,
        0 <= p2 < pages,
        0 <= pos1,
        0 <= pos2,
        p1 != p2 || pos1 != pos2,
    ensures
        card_index(pages, p1, pos1) != card_index(pages, p2, pos2),
{
    if card_index(pages, p1, pos1) == card_index(pages, p2, pos2) {
        let i = card_index(pages, p1, pos1);
        lemma_fundamental_div_mod_converse(i, pages, pos1, p1);
        lemma_fundamental_div_mod_converse(i, pages, pos2, p2);
    }
}

/// Whether text `a` comes before text `b`: character by character, a proper
/// prefix first. (On `str` this is the order of the UTF-8 bytes, which orders
/// characters by their code points as this does.)
pub open spec fn text_lt(a: Seq<char>, b: Seq<char>) -> bool
    decreases a.len(),
{
    if a.len() == 0 {
        b.len() > 0
    } else if b.len() == 0 {
        false
    } else if a[0] != b[0] {
        a[0] < b[0]
    } else {
        text_lt(a.drop_first(), b.drop_first())
    }
}

/// Any two texts are equal or one comes before the other, never both.
pub proof fn lemma_text_order_total(a: Seq<char>, b: Seq<char>)
    ensures
        text_lt(a, b) || a == b || text_lt(b, a),
        !(text_lt(a, b) && text_lt(b, a)),
        !(text_lt(a, b) && a == b),
    decreases a.len(),
{
    if a.len() > 0 && b.len() > 0 && a[0] == b[0] {
        lemma_text_order_total(a.drop_first(), b.drop_first());
        if a.drop_first() == b.drop_first() {
            assert(a =~= seq![a[0]] + a.drop_first());
            assert(b =~= seq![b[0]] + b.drop_first());
        }
    } else if a.len() == 0 && b.len() == 0 {
        assert(a =~= b);
    }
}

/// The order on texts is transitive.
pub proof fn lemma_text_order_transitive(a: Seq<char>, b: Seq<char>, c: Seq<char>)
    requires
        text_lt(a, b),
        text_lt(b, c),
    ensures
        text_lt(a, c),
    decreases a.len(),
{
    if a.len() > 0 && b.len() > 0 && c.len() > 0 && a[0] == b[0] && b[0] == c[0] {
        lemma_text_order_transitive(a.drop_first(), b.drop_first(), c.drop_first());
    }
}

/// Whether `a` comes before `b` in text order: character by character by code
/// point, a proper prefix first.
pub fn text_less(a: &str, b: &str) -> (r: bool)
    ensures
        r == text_lt(a@, b@),
{
    let x = crate::text::chars_of(a);
    let y = crate::text::chars_of(b);
    let mut i: usize = 0;
    assert(x@.skip(0) == x@ && y@.skip(0) == y@);
    while i < x.len() && i < y.len()
        invariant
            i <= x@.len(),
            i <= y@.len(),
            text_lt(a@, b@) == text_lt(x@.skip(i as int), y@.skip(i as int)),
        decreases x.len() - i,
    {
        if x[i] != y[i] {
            return x[i] < y[i];
        }
        assert(x@.skip(i as int).drop_first() == x@.skip(i + 1));
        assert(y@.skip(i as int).drop_first() == y@.skip(i + 1));
        i = i + 1;
    }
    i < y.len()
}

/// The order scorecards are printed in: by event id, then round, group,
/// station and registrant id.
pub open spec fn card_le(a: CardModel, b: CardModel) -> bool {
    ||| text_lt(a.event, b.event)
    ||| a.event == b.event && (a.round < b.round || (a.round == b.round && (a.group < b.group
        || (a.group == b.group && (a.station < b.station || (a.station == b.station && a.id
        <= b.id))))))
}

/// Any two scorecards are ordered one way or the other.
pub proof fn lemma_card_order_total(a: CardModel, b: CardModel)
    ensures
        card_le(a, b) || card_le(b, a),
{
    lemma_text_order_total(a.event, b.event);
}

/// The scorecard order is transitive.
pub proof fn lemma_card_order_transitive(a: CardModel, b: CardModel, c: CardModel)
    requires
        card_le(a, b),
        card_le(b, c),
    ensures
        card_le(a, c),
{
    lemma_text_order_total(a.event, b.event);
    lemma_text_order_total(b.event, c.event);
    lemma_text_order_total(a.event, c.event);
    if text_lt(a.event, b.event) && text_lt(b.event, c.event) {
        lemma_text_order_transitive(a.event, b.event, c.event);
    }
}

/// Two scorecards that may each be printed before the other are the same.
pub proof fn lemma_card_order_antisymmetric(a: CardModel, b: CardModel)
    requires
        card_le(a, b),
        card_le(b, a),
    ensures
        a == b,
{
    lemma_text_order_total(a.event, b.event);
}

/// The printing order is determined by the cards: two lists in printing
/// order that hold the same scorecards are the same list.
pub proof fn lemma_sorted_cards_unique(s: Seq<CardModel>, t: Seq<CardModel>)
    requires
        cards_sorted(s),
        cards_sorted(t),
        s.to_multiset() == t.to_multiset(),
    ensures
        s == t,
{
    let leq = |a: CardModel, b: CardModel| card_le(a, b);
    assert forall|a: CardModel| #[trigger] leq(a, a) by {
        lemma_card_order_total(a, a);
    }
    assert forall|a: CardModel, b: CardModel| #[trigger] leq(a, b) && #[trigger] leq(b, a) implies a
        == b by {
        lemma_card_order_antisymmetric(a, b);
    }
    assert forall|a: CardModel, b: CardModel, c: CardModel| #[trigger] leq(a, b) && #[trigger] leq(
        b,
        c,
    ) implies leq(a, c) by {
        lemma_card_order_transitive(a, b, c);
    }
    assert forall|a: CardModel, b: CardModel| #[trigger] leq(a, b) || #[trigger] leq(b, a) by {
        lemma_card_order_total(a, b);
    }
    assert(vstd::relations::total_ordering(leq));
    assert(vstd::relations::sorted_by(s, leq));
    assert(vstd::relations::sorted_by(t, leq));
    vstd::seq_lib::lemma_sorted_unique(s, t, leq);
}

/// Whether scorecard `a` may be printed before `b`.
pub fn card_before(a: &Scorecard, b: &Scorecard) -> (r: bool)
    ensures
        r == card_le(a@, b@),
{
    if text_less(a.event.as_str(), b.event.as_str()) {
        return true;
    }
    if a.event != b.event {
        return false;
    }
    if a.round != b.round {
        return a.round < b.round;
    }
    if a.group != b.group {
        return a.group < b.group;
    }
    if a.station != b.station {
        return a.station < b.station;
    }
    a.id <= b.id
}

/// Whether a list of scorecards is in printing order.
pub open spec fn cards_sorted(s: Seq<CardModel>) -> bool {
    forall|i: int, j: int| 0 <= i < j < s.len() ==> card_le(#[trigger] s[i], #[trigger] s[j])
}

/// The scorecards in printing order.
pub fn sort_scorecards(cards: Vec<Scorecard>) -> (sorted: Vec<Scorecard>)
    ensures
        cards_sorted(card_views(sorted@)),
        card_views(sorted@).to_multiset() == card_views(cards@).to_multiset(),
{
    let mut out: Vec<Scorecard> = Vec::new();
    let mut i: usize = 0;
    assert(card_views(out@) =~= card_views(cards@).take(0));
    while i < cards.len()
        invariant
            i <= cards.len(),
            cards_sorted(card_views(out@)),
            card_views(out@).to_multiset() == card_views(cards@).take(i as int).to_multiset(),
        decreases cards.len() - i,
    {
        let x = cards[i].copy();
        let ghost v = card_views(out@);
        let mut j: usize = 0;
        while j < out.len() && card_before(&out[j], &x)
            invariant
                j <= out.len(),
                v == card_views(out@),
                forall|m: int| 0 <= m < j ==> card_le(#[trigger] v[m], x@),
            decreases out.len() - j,
        {
            j = j + 1;
        }
        proof {
            assert forall|m: int| j <= m < v.len() implies card_le(x@, #[trigger] v[m]) by {
                lemma_card_order_total(v[j as int], x@);
                if m > j {
                    lemma_card_order_transitive(x@, v[j as int], v[m]);
                }
            }
        }
        out.insert(j, x);
        proof {
            let w = card_views(out@);
            assert(w =~= v.insert(j as int, x@));
            assert(card_views(cards@).take(i + 1) == card_views(cards@).take(i as int).push(
                cards@[i as int]@,
            ));
            vstd::seq_lib::to_multiset_insert(v, j as int, x@);
            vstd::seq_lib::to_multiset_build(card_views(cards@).take(i as int), cards@[i as int]@);
            assert forall|a: int, b: int| 0 <= a < b < w.len() implies card_le(
                #[trigger] w[a],
                #[trigger] w[b],
            ) by {
                if b < j {
                    assert(w[a] == v[a] && w[b] == v[b]);
                } else if a < j && b == j {
                } else if a < j && b > j {
                    assert(w[a] == v[a] && w[b] == v[b - 1]);
                } else if a == j {
                    assert(w[b] == v[b - 1]);
                } else {
                    assert(w[a] == v[a - 1] && w[b] == v[b - 1]);
                }
            }
        }
        i = i + 1;
    }
    assert(card_views(cards@).take(i as int) == card_views(cards@));
    out
}

/// The name printed for an event id.
pub open spec fn event_name(words: Seq<Seq<char>>, e: Seq<char>) -> Seq<char> {
    if e == "333"@ {
        words[13]
    } else if e == "444"@ {
        words[14]
    } else if e == "555"@ {
        words[15]
    } else if e == "666"@ {
        words[16]
    } else if e == "777"@ {
        words[17]
    } else if e == "222"@ {
        words[18]
    } else if e == "333oh"@ {
        words[19]
    } else if e == "333fm"@ {
        "Filter out FMC"@
    } else if e == "333bf"@ {
        words[24]
    } else if e == "pyram"@ {
        words[21]
    } else if e == "333mbf"@ {
        words[27]
    } else if e == "minx"@ {
        words[20]
    } else if e == "clock"@ {
        words[28]
    } else if e == "444bf"@ {
        words[25]
    } else if e == "555bf"@ {
        words[26]
    } else if e == "skewb"@ {
        words[22]
    } else if e == "sq1"@ {
        words[23]
    } else {
        "Please fix your csv"@
    }
}

/// The name printed for an event is the word of the language stored under
/// that event's id as a key; an id that is no event's key, other than FMC's,
/// is printed as a request to fix the file.
pub proof fn lemma_event_name_is_its_word(words: Seq<Seq<char>>, e: Seq<char>)
    ensures
        language_key(e) is Some && language_key(e)->0 >= 13 ==> event_name(words, e)
            == words[language_key(e)->0],
        !(language_key(e) is Some && language_key(e)->0 >= 13) && e != "333fm"@ ==> event_name(
            words,
            e,
        ) == "Please fix your csv"@,
        e != "333"@ && e != "444"@ && e != "555"@ && e != "666"@ && e != "777"@ && e != "222"@
            && e != "333oh"@ && e != "minx"@ && e != "pyram"@ && e != "skewb"@ && e != "sq1"@
            && e != "333bf"@ && e != "444bf"@ && e != "555bf"@ && e != "333mbf"@ && e != "clock"@
            && e != "333fm"@ ==> event_name(words, e) == "Please fix your csv"@,
{
    lemma_key_texts();
}

/// Each event's cards carry the language's name for that event: the 3x3x3
/// name on `333` cards, the 4x4x4 name on `444` cards, and so on; FMC cards
/// are marked to be filtered out.
pub proof fn lemma_event_labels_are_named_words(language: Language)
    ensures
        event_name(language@, "333"@) == language.e333@,
        event_name(language@, "444"@) == language.e444@,
        event_name(language@, "555"@) == language.e555@,
        event_name(language@, "666"@) == language.e666@,
        event_name(language@, "777"@) == language.e777@,
        event_name(language@, "222"@) == language.e222@,
        event_name(language@, "333oh"@) == language.e333oh@,
        event_name(language@, "minx"@) == language.eminx@,
        event_name(language@, "pyram"@) == language.epyram@,
        event_name(language@, "skewb"@) == language.eskewb@,
        event_name(language@, "sq1"@) == language.esq1@,
        event_name(language@, "333bf"@) == language.e333bf@,
        event_name(language@, "444bf"@) == language.e444bf@,
        event_name(language@, "555bf"@) == language.e555bf@,
        event_name(language@, "333mbf"@) == language.e333mbf@,
        event_name(language@, "clock"@) == language.eclock@,
        event_name(language@, "333fm"@) == "Filter out FMC"@,
{
    lemma_key_texts();
}

/// The name printed for an event id.
pub fn event_label(language: &Language, event: &str) -> (name: String)
    ensures
        name@ == event_name(language@, event@),
{
    if same_text(event, "333") {
        language.e333.clone()
    } else if same_text(event, "444") {
        language.e444.clone()
    } else if same_text(event, "555") {
        language.e555.clone()
    } else if same_text(event, "666") {
        language.e666.clone()
    } else if same_text(event, "777") {
        language.e777.clone()
    } else if same_text(event, "222") {
        language.e222.clone()
    } else if same_text(event, "333oh") {
        language.e333oh.clone()
    } else if same_text(event, "333fm") {
        string_from("Filter out FMC")
    } else if same_text(event, "333bf") {
        language.e333bf.clone()
    } else if same_text(event, "pyram") {
        language.epyram.clone()
    } else if same_text(event, "333mbf") {
        language.e333mbf.clone()
    } else if same_text(event, "minx") {
        language.eminx.clone()
    } else if same_text(event, "clock") {
        language.eclock.clone()
    } else if same_text(event, "444bf") {
        language.e444bf.clone()
    } else if same_text(event, "555bf") {
        language.e555bf.clone()
    } else if same_text(event, "skewb") {
        language.eskewb.clone()
    } else if same_text(event, "sq1") {
        language.esq1.clone()
    } else {
        string_from("Please fix your csv")
    }
}

/// Whether an event's scorecards have three attempts (the big cubes and the
/// blindfolded events) rather than five.
pub open spec fn has_three_attempts(e: Seq<char>) -> bool {
    e == "666"@ || e == "777"@ || e == "333mbf"@ || e == "333bf"@ || e == "444bf"@ || e
        == "555bf"@
}

/// Of the events, the 6x6x6 and 7x7x7 cubes, multi-blind and the
/// blindfolded events (the words under positions 16, 17 and 24 to 27) are the
/// ones with three attempts; every other event, Megaminx and 4x4x4 among
/// them, and every id that names no event, has five.
pub proof fn lemma_three_attempt_events(e: Seq<char>)
    ensures
        has_three_attempts(e) <==> language_key(e) is Some && {
            let i = language_key(e)->0;
            i == 16 || i == 17 || 24 <= i <= 27
        },
        has_three_attempts(e) ==> event_name(english_words(), e) == "6x6x6 Cube"@ || event_name(
            english_words(),
            e,
        ) == "7x7x7 Cube"@ || event_name(english_words(), e) == "3x3x3 Multi-Blind"@
            || event_name(english_words(), e) == "3x3x3 Blindfolded"@ || event_name(
            english_words(),
            e,
        ) == "4x4x4 Blindfolded"@ || event_name(english_words(), e) == "5x5x5 Blindfolded"@,
{
    lemma_key_texts();
}

/// The number of attempts on an event's scorecards.
pub fn attempts_amount(event: &str) -> (n: usize)
    ensures
        n == if has_three_attempts(event@) {
            3usize
        } else {
            5usize
        },
{
    if same_text(event, "666") || same_text(event, "777") || same_text(event, "333mbf")
        || same_text(event, "333bf") || same_text(event, "444bf") || same_text(event, "555bf") {
        3
    } else {
        5
    }
}

/// The texts of `list` with `sep` between each two.
pub open spec fn join_spec(list: Seq<Seq<char>>, sep: Seq<char>) -> Seq<char>
    decreases list.len(),
{
    if list.len() == 0 {
        Seq::empty()
    } else if list.len() == 1 {
        list[0]
    } else {
        join_spec(list.drop_last(), sep) + sep + list.last()
    }
}

/// The text of a number that may be negative.
pub open spec fn int_text(v: int) -> Seq<char> {
    if v < 0 {
        seq!['-'] + decimal((-v) as nat)
    } else {
        decimal(v as nat)
    }
}

/// Appends the text of a small number that may be negative.
pub fn push_i8(s: &mut String, v: i8)
    ensures
        final(s)@ == old(s)@ + int_text(v as int),
{
    if v < 0 {
        push_char(s, '-');
        let m: i16 = 0 - (v as i16);
        push_decimal(s, m as usize);
    } else {
        push_decimal(s, v as usize);
    }
    assert(final(s)@ =~= old(s)@ + int_text(v as int));
}

/// The time limit line of a scorecard (words: see the view of [`Language`]).
pub open spec fn limit_text(words: Seq<Seq<char>>, limit: LimitModel) -> Seq<char> {
    match limit {
        LimitModel::Single(z) => words[7] + ": "@ + time_text(z as nat),
        LimitModel::Cumulative(z) => words[8] + ": "@ + time_text(z as nat),
        LimitModel::Cutoff(x, z) => words[11] + ": "@ + time_text(x as nat) + ", "@ + words[7]
            + ": "@ + time_text(z as nat),
        LimitModel::SharedCumulative(z, events) => words[8] + ": "@ + time_text(z as nat) + " "@
            + words[9] + " "@ + join_spec(
            events.map_values(|e: Seq<char>| event_name(words, e)),
            " "@ + words[10] + " "@,
        ),
        LimitModel::Multi => words[12],
        LimitModel::NoLimit => Seq::empty(),
    }
}

/// The time limit line of a scorecard.
pub fn limit_line(language: &Language, limit: &TimeLimit) -> (s: String)
    ensures
        s@ == limit_text(language@, limit@),
{
    proof {
        reveal_strlit(": ");
        reveal_strlit(", ");
        reveal_strlit(" ");
    }
    let mut s = String::new();
    match limit {
        TimeLimit::Single(z) => {
            push_str(&mut s, language.time_limit.as_str());
            push_str(&mut s, ": ");
            push_time(&mut s, *z);
        },
        TimeLimit::Cumulative(z) => {
            push_str(&mut s, language.cumulative_limit.as_str());
            push_str(&mut s, ": ");
            push_time(&mut s, *z);
        },
        TimeLimit::Cutoff(x, z) => {
            push_str(&mut s, language.curoff.as_str());
            push_str(&mut s, ": ");
            push_time(&mut s, *x);
            push_str(&mut s, ", ");
            push_str(&mut s, language.time_limit.as_str());
            push_str(&mut s, ": ");
            push_time(&mut s, *z);
        },
        TimeLimit::SharedCumulative(z, events) => {
            push_str(&mut s, language.cumulative_limit.as_str());
            push_str(&mut s, ": ");
            push_time(&mut s, *z);
            push_str(&mut s, " ");
            push_str(&mut s, language.for_scl.as_str());
            push_str(&mut s, " ");
            let ghost names = strings_view(events@).map_values(
                |e: Seq<char>| event_name(language@, e),
            );
            let ghost sep = " "@ + language@[10] + " "@;
            let ghost start = s@;
            let mut i: usize = 0;
            while i < events.len()
                invariant
                    i <= events@.len(),
                    names == strings_view(events@).map_values(
                        |e: Seq<char>| event_name(language@, e),
                    ),
                    sep == " "@ + language@[10] + " "@,
                    s@ == start + join_spec(names.take(i as int), sep),
                decreases events.len() - i,
            {
                assert(names.take(i + 1).drop_last() == names.take(i as int));
                if i > 0 {
                    push_str(&mut s, " ");
                    push_str(&mut s, language.and_scl.as_str());
                    push_str(&mut s, " ");
                }
                let name = event_label(language, events[i].as_str());
                push_str(&mut s, name.as_str());
                proof {
                    if i == 0 {
                        assert(names.take(1) =~= seq![names[0]]);
                    }
                }
                i = i + 1;
            }
            assert(names.take(i as int) == names);
        },
        TimeLimit::Multi => {
            push_str(&mut s, language.multi_tl.as_str());
        },
        TimeLimit::NoLimit => {},
    }
    assert(s@ =~= limit_text(language@, limit@));
    s
}

/// The texts printed on one scorecard, and its number of attempt rows.
pub struct CardText {
    /// The competition's name, at the top.
    pub competition: String,
    /// `<round label>: <round> | `, left of the event name.
    pub round: String,
    /// The event's name, in bold.
    pub event: String,
    /// ` | <group label>: <group>`, right of the event name.
    pub group: String,
    /// The competitor's registrant id.
    pub id: String,
    /// The competitor's name.
    pub name: String,
    /// The number of attempt rows.
    pub attempts: usize,
    /// The time limit line.
    pub limit: String,
    /// The station number, in large bold figures.
    pub station: String,
}

/// The texts printed on scorecard `card`.
pub fn card_text(
    card: &Scorecard,
    competition: &str,
    names: &HashMap<usize, String>,
    limits: &LimitTable,
    language: &Language,
) -> (t: CardText)
    requires
        names@.contains_key(card.id),
        limits@.contains_key(card.event@),
    ensures
        t.competition@ == competition@,
        t.round@ == language@[0] + ": "@ + int_text(card.round as int) + " | "@,
        t.event@ == event_name(language@, card.event@),
        t.group@ == " | "@ + language@[1] + ": "@ + int_text(card.group as int),
        t.id@ == decimal(card.id as nat),
        t.name@ == names@[card.id]@,
        t.attempts == if has_three_attempts(card.event@) {
            3usize
        } else {
            5usize
        },
        t.limit@ == limit_text(language@, limits@[card.event@]),
        t.station@ == int_text(card.station as int),
{
    broadcast use vstd::std_specs::hash::group_hash_axioms;

    let mut round = String::new();
    push_str(&mut round, language.round.as_str());
    push_str(&mut round, ": ");
    push_i8(&mut round, card.round);
    push_str(&mut round, " | ");
    let mut group = String::new();
    push_str(&mut group, " | ");
    push_str(&mut group, language.group.as_str());
    push_str(&mut group, ": ");
    push_i8(&mut group, card.group);
    let mut station = String::new();
    push_i8(&mut station, card.station);
    let name = match names.get(&card.id) {
        Some(n) => n.clone(),
        None => String::new(),
    };
    let limit = match limits.get(card.event.as_str()) {
        Some(l) => limit_line(language, l),
        None => String::new(),
    };
    assert(round@ =~= language@[0] + ": "@ + int_text(card.round as int) + " | "@);
    assert(group@ =~= " | "@ + language@[1] + ": "@ + int_text(card.group as int));
    assert(station@ =~= int_text(card.station as int));
    CardText {
        competition: string_from(competition),
        round,
        event: event_label(language, card.event.as_str()),
        group,
        id: crate::text::decimal_string(card.id),
        name,
        attempts: attempts_amount(card.event.as_str()),
        limit,
        station,
    }
}

} // verus!
