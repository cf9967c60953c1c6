//! Scorecards for WCA competitions: reading group assignments, time limits and
//! results, seating competitors in groups, and laying out the printed sheets.
use vstd::prelude::*;

pub mod language;
pub mod localhost;
pub mod pdf;
pub mod text;
pub mod wcif;

use language::{english_words, Language};
use pdf::csv::{
    all_cards, csv_names, groups_ok, header_events, limit_columns, limits_map, limits_ok,
    parse_groups_csv, parse_limits_csv, person_lines,
};
use pdf::scorecard::{card_views, cards_sorted, lemma_sorted_cards_unique, no_limits, LimitModel};
use pdf::PrintJob;
use text::{chars_of, lines_spec, push_char, push_str, split_spec, string_from};
use wcif::names_match;

verus! {

/// The name printed when none is given.
pub open spec fn default_competition() -> Seq<char> {
    "No competion name given"@
}

/// What a first round is printed from, read from the groups file, the limits
/// file and the competition's name (a default text when there is none), with
/// the given words.
pub open spec fn round_one_ok(
    groups_csv: Seq<char>,
    limits_csv: Seq<char>,
    competition: Option<Seq<char>>,
    words: Seq<Seq<char>>,
    job: PrintJob,
) -> bool {
    let ls = lines_spec(groups_csv);
    let lim = lines_spec(limits_csv);
    let events = split_spec(lim[0], ',');
    let fields = split_spec(lim[1], ',');
    &&& cards_sorted(card_views(job.scorecards@))
    &&& card_views(job.scorecards@).to_multiset() == all_cards(
        person_lines(groups_csv),
        header_events(ls[0]),
    ).to_multiset()
    &&& names_match(job.names@, csv_names(person_lines(groups_csv)))
    &&& job.limits@ == limits_map(events, fields, limit_columns(events, fields))
    &&& job.competition@ == match competition {
        Some(c) => c,
        None => default_competition(),
    }
    &&& job.language@ == words
}

/// The competition's name as given, or the default text when there is none.
pub open spec fn competition_name(competition: Option<String>) -> Seq<char> {
    match competition {
        Some(c) => c@,
        None => default_competition(),
    }
}

/// The name printed on a competition's cards: the given one, else the default.
fn name_or_default(competition: Option<String>) -> (name: String)
    ensures
        name@ == competition_name(competition),
{
    match competition {
        Some(c) => c,
        None => string_from("No competion name given"),
    }
}

/// The first round's scorecards, read from the contents of a well-formed
/// groups file and a well-formed limits file, with the given words.
pub fn print_round_1_with_language(
    groups_csv: &str,
    limits_csv: &str,
    competition: Option<String>,
    language: Language,
) -> (job: PrintJob)
    requires
        groups_ok(groups_csv@),
        limits_ok(limits_csv@),
    ensures
        round_one_ok(
            groups_csv@,
            limits_csv@,
            match competition {
                Some(c) => Some(c@),
                None => None,
            },
            language@,
            job,
        ),
{
    let (scorecards, names) = parse_groups_csv(groups_csv);
    let limits = parse_limits_csv(limits_csv);
    let competition = name_or_default(competition);
    PrintJob { scorecards, names, limits, competition, language }
}

/// The first round's scorecards with English words.
pub fn print_round_1(groups_csv: &str, limits_csv: &str, competition: Option<String>) -> (job:
    PrintJob)
    requires
        groups_ok(groups_csv@),
        limits_ok(limits_csv@),
    ensures
        round_one_ok(
            groups_csv@,
            limits_csv@,
            match competition {
                Some(c) => Some(c@),
                None => None,
            },
            english_words(),
            job,
        ),
{
    print_round_1_with_language(groups_csv, limits_csv, competition, Language::english())
}

/// The first round's scorecards without time limits, read from the contents
/// of a well-formed groups file: every event of a card is marked as having no
/// limit.
pub fn print_round_1_without_limits(
    groups_csv: &str,
    competition: Option<String>,
    language: Language,
) -> (job: PrintJob)
    requires
        groups_ok(groups_csv@),
    ensures
        cards_sorted(card_views(job.scorecards@)),
        card_views(job.scorecards@).to_multiset() == all_cards(
            person_lines(groups_csv@),
            header_events(lines_spec(groups_csv@)[0]),
        ).to_multiset(),
        names_match(job.names@, csv_names(person_lines(groups_csv@))),
        forall|e: Seq<char>|
            #[trigger] job.limits@.contains_key(e) <==> exists|i: int|
                0 <= i < job.scorecards@.len() && (#[trigger] job.scorecards@[i]).event@ == e,
        forall|e: Seq<char>|
            #[trigger] job.limits@.contains_key(e) ==> job.limits@[e] == LimitModel::NoLimit,
        job.competition@ == competition_name(competition),
        job.language@ == language@,
{
    let (scorecards, names) = parse_groups_csv(groups_csv);
    let limits = no_limits(&scorecards);
    let competition = name_or_default(competition);
    let job = PrintJob { scorecards, names, limits, competition, language };
    assert(job.scorecards@ == scorecards@ && job.limits@ == limits@);
    job
}

/// Two print jobs hold the same scorecards, names, limits, competition name
/// and words.
pub open spec fn same_job(a: PrintJob, b: PrintJob) -> bool {
    &&& card_views(a.scorecards@) == card_views(b.scorecards@)
    &&& a.names@.dom() == b.names@.dom()
    &&& forall|k: usize| #[trigger] a.names@.contains_key(k) ==> a.names@[k]@ == b.names@[k]@
    &&& a.limits@ == b.limits@
    &&& a.competition@ == b.competition@
    &&& a.language@ == b.language@
}

/// Printing a first round with English words is printing it with the
/// language whose words are the English ones: on the same files and name,
/// the two give the same scorecards, names, limits, name and words.
pub proof fn lemma_print_round_1_is_english(
    groups_csv: Seq<char>,
    limits_csv: Seq<char>,
    competition: Option<Seq<char>>,
    english: Language,
    job: PrintJob,
    job_with_language: PrintJob,
)
    requires
        english@ == english_words(),
        round_one_ok(groups_csv, limits_csv, competition, english_words(), job),
        round_one_ok(groups_csv, limits_csv, competition, english@, job_with_language),
    ensures
        same_job(job, job_with_language),
{
    lemma_sorted_cards_unique(
        card_views(job.scorecards@),
        card_views(job_with_language.scorecards@),
    );
}

/// Whether `c` is ASCII whitespace: space, tab, line feed, form feed or carriage return.
pub open spec fn is_ascii_space(c: char) -> bool {
    c == ' ' || c == '\t' || c == '\n' || c == '\x0C' || c == '\r'
}

/// The characters of `s` that are not ASCII whitespace.
pub open spec fn without_ascii_space(s: Seq<char>) -> Seq<char>
    decreases s.len(),
{
    if s.len() == 0 {
        Seq::empty()
    } else if is_ascii_space(s.last()) {
        without_ascii_space(s.drop_last())
    } else {
        without_ascii_space(s.drop_last()).push(s.last())
    }
}

/// The name of the PDF file of a competition's first round: its name without
/// whitespace, then `.pdf`.
pub fn pdf_file_name(competition: &str) -> (name: String)
    ensures
        name@ == without_ascii_space(competition@) + ".pdf"@,
{
    proof {
        reveal_strlit(".pdf");
    }
    let cs = chars_of(competition);
    let mut name = String::new();
    let mut i: usize = 0;
    while i < cs.len()
        invariant
            i <= cs@.len(),
            cs@ == competition@,
            name@ == without_ascii_space(cs@.take(i as int)),
        decreases cs.len() - i,
    {
        assert(cs@.take(i + 1).drop_last() == cs@.take(i as int));
        let c = cs[i];
        if !(c == ' ' || c == '\t' || c == '\n' || c == '\x0C' || c == '\r') {
            push_char(&mut name, c);
        }
        i = i + 1;
    }
    assert(cs@.take(i as int) == cs@);
    push_char(&mut name, '.');
    push_char(&mut name, 'p');
    push_char(&mut name, 'd');
    push_char(&mut name, 'f');
    assert(name@ =~= without_ascii_space(competition@) + ".pdf"@);
    name
}

/// The name of the PDF file that the scorecards of a groups file are saved
/// to: the file's path without its last four bytes (its `.csv`), then
/// `_scorecards.pdf`. The path is at least four bytes long, a character ends
/// four bytes before its end, and its length fits in a `usize`.
pub fn scorecard_file_name(groups_path: &str) -> (name: String)
    requires
        4 <= vstd::utf8::encode_utf8(groups_path@).len() <= usize::MAX,
        vstd::utf8::is_char_boundary(
            vstd::utf8::encode_utf8(groups_path@),
            vstd::utf8::encode_utf8(groups_path@).len() - 4,
        ),
    ensures
        name@ == vstd::utf8::decode_utf8(
            vstd::utf8::encode_utf8(groups_path@).subrange(0, vstd::utf8::encode_utf8(groups_path@).len() - 4),
        ) + "_scorecards.pdf"@,
{
    let n = groups_path.len();
    proof {
        vstd::utf8::encode_utf8_valid_utf8(groups_path@);
        assert(n == vstd::utf8::encode_utf8(groups_path@).len());
    }
    let (stem, _) = groups_path.split_at(n - 4);
    proof {
        vstd::utf8::encode_utf8_decode_utf8(stem@);
        reveal_strlit("_scorecards.pdf");
    }
    let mut name = string_from(stem);
    push_str(&mut name, "_scorecards.pdf");
    name
}

} // verus!
