use wca_scorecards_lib::language::{read_language, Language};
use wca_scorecards_lib::localhost::html::event_list_to_html;
use wca_scorecards_lib::localhost::{parse_round_query, try_parse_round_query, QueryError};
use wca_scorecards_lib::pdf::csv::{try_parse_groups_csv, try_parse_limits_csv, CsvError};
use wca_scorecards_lib::pdf::scorecard::TimeLimit;
use wca_scorecards_lib::wcif::oauth::{accept_wcif, wcif_url};
use wca_scorecards_lib::{
    pdf_file_name, print_round_1, print_round_1_with_language, print_round_1_without_limits,
    scorecard_file_name,
};

fn pair(k: &str, v: &str) -> (String, String) {
    (k.to_string(), v.to_string())
}

#[test]
fn round_links() {
    let page = event_list_to_html("Comp2024", vec![("333".to_string(), 1), ("pyram".to_string(), 2)]);
    assert_eq!(
        page,
        "<a href=round/?eventid=333&round=1 download=Comp20243331.pdf>333, 1</a><br>\
         <a href=round/?eventid=pyram&round=2 download=Comp2024pyram2.pdf>pyram, 2</a><br>"
    );
    assert_eq!(event_list_to_html("x", vec![]), "");
}

#[test]
fn round_queries() {
    assert_eq!(parse_round_query(&vec![pair("eventid", "333"), pair("round", "2")]), ("333".to_string(), 2));
    assert_eq!(parse_round_query(&vec![pair("round", "3")]), ("".to_string(), 3));
    assert_eq!(parse_round_query(&vec![]), ("".to_string(), 0));
    assert_eq!(parse_round_query(&vec![pair("round", "1"), pair("round", "+4")]), ("".to_string(), 4));
    assert_eq!(try_parse_round_query(&vec![pair("eventid", "333"), pair("round", "2")]), Ok(("333".to_string(), 2)));
    assert_eq!(try_parse_round_query(&vec![pair("eventid", "333"), pair("page", "1")]), Err(QueryError::UnknownParameter));
    assert_eq!(try_parse_round_query(&vec![pair("round", "two")]), Err(QueryError::BadRound));
    assert_eq!(try_parse_round_query(&vec![pair("round", "")]), Err(QueryError::BadRound));
    assert_eq!(try_parse_round_query(&vec![pair("round", "x"), pair("page", "1")]), Err(QueryError::BadRound));
}

#[test]
fn wcif_answers() {
    assert_eq!(wcif_url("Test2024"), "https://www.worldcubeassociation.org/api/v0/competitions/Test2024/wcif");
    assert_eq!(accept_wcif("x".repeat(1000)), None);
    assert_eq!(accept_wcif("x".repeat(1001)), Some("x".repeat(1001)));
    // Length counts bytes: 500 two-byte characters are 1000 bytes.
    assert_eq!(accept_wcif("é".repeat(500)), None);
    assert_eq!(accept_wcif("é".repeat(501)), Some("é".repeat(501)));
}

#[test]
fn file_names() {
    assert_eq!(pdf_file_name("My Open 2024"), "MyOpen2024.pdf");
    assert_eq!(pdf_file_name(" \tA\r\nB\x0C"), "AB.pdf");
    assert_eq!(pdf_file_name(""), ".pdf");
}

#[test]
fn language_files() {
    let l = read_language("round:Runde\r\ngroup:Gruppe:x\nfoo:bar\nno colon\n333:3x3x3 Würfel\nextra attempts:Extra\n");
    let en = Language::english();
    assert_eq!(l.round, "Runde");
    assert_eq!(l.group, "Gruppe");
    assert_eq!(l.e333, "3x3x3 Würfel");
    assert_eq!(l.extra_attempts, "Extra");
    assert_eq!(l.judge, en.judge);
    let l2 = read_language("");
    assert_eq!(l2.eclock, en.eclock);
    assert_eq!(l2.round, "Round");
}

const GROUPS: &str = "Name,Id,333\nAnn,1,1;1\n";
const LIMITS: &str = "333\nT;1000\n";

#[test]
fn first_round_jobs() {
    let job = print_round_1(GROUPS, LIMITS, None);
    assert_eq!(job.competition, "No competion name given");
    assert_eq!(job.scorecards.len(), 1);
    assert_eq!(job.language.round, "Round");
    assert!(matches!(job.limits.get("333"), Some(TimeLimit::Single(1000))));
    let mut de = Language::english();
    de.round = "Runde".to_string();
    let job = print_round_1_with_language(GROUPS, LIMITS, Some("Open".to_string()), de);
    assert_eq!(job.competition, "Open");
    assert_eq!(job.language.round, "Runde");
    assert_eq!(try_parse_groups_csv("").err(), Some(CsvError::Groups));
    assert_eq!(try_parse_limits_csv("333\n").err(), Some(CsvError::Limits));
}

#[test]
fn english_first_round_is_the_english_language() {
    let a = print_round_1(GROUPS, LIMITS, Some("Open".to_string()));
    let b = print_round_1_with_language(GROUPS, LIMITS, Some("Open".to_string()), Language::english());
    assert_eq!(a.scorecards, b.scorecards);
    assert_eq!(a.names, b.names);
    assert_eq!(a.competition, b.competition);
    assert_eq!(a.language.round, b.language.round);
    assert_eq!(a.language.eclock, b.language.eclock);
    assert!(matches!(a.limits.get("333"), Some(TimeLimit::Single(1000))));
    assert!(matches!(b.limits.get("333"), Some(TimeLimit::Single(1000))));
}

#[test]
fn first_round_without_limits() {
    let groups = "Name,Id,333,pyram,333fm\nAnn,1,1;1,,2;1\nBo,2,1;2,2;1,\n";
    let job = print_round_1_without_limits(groups, None, Language::english());
    assert_eq!(job.competition, "No competion name given");
    assert_eq!(job.scorecards.len(), 3);
    assert!(matches!(job.limits.get("333"), Some(TimeLimit::NoLimit)));
    assert!(matches!(job.limits.get("pyram"), Some(TimeLimit::NoLimit)));
    assert!(job.limits.get("333fm").is_none());
    assert_eq!(job.names.get(&2).map(|s| s.as_str()), Some("Bo"));
    let job = print_round_1_without_limits(groups, Some("Open".to_string()), Language::english());
    assert_eq!(job.competition, "Open");
}

#[test]
fn scorecard_file_names() {
    assert_eq!(scorecard_file_name("groups.csv"), "groups_scorecards.pdf");
    assert_eq!(scorecard_file_name("dir/Wü.csv"), "dir/Wü_scorecards.pdf");
    assert_eq!(scorecard_file_name(".csv"), "_scorecards.pdf");
    assert_eq!(scorecard_file_name("abcdef"), "ab_scorecards.pdf");
}

#[test]
fn link_parameters_ask_for_their_round() {
    for (e, r) in [("333", 1usize), ("clock", 12)] {
        let r_text = r.to_string();
        let forward = vec![pair("eventid", e), pair("round", &r_text)];
        let backward = vec![pair("round", &r_text), pair("eventid", e)];
        assert_eq!(parse_round_query(&forward), (e.to_string(), r));
        assert_eq!(parse_round_query(&backward), (e.to_string(), r));
    }
}
