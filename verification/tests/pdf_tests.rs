use std::collections::HashMap;

use wca_scorecards_lib::language::Language;
use wca_scorecards_lib::pdf::csv::{
    parse_groups_csv, parse_limits_csv, try_parse_groups_csv, try_parse_limits_csv, CsvError,
};
use wca_scorecards_lib::pdf::scorecard::{
    arrange_pages, attempts_amount, card_text, event_label, limit_line, no_limits, sort_scorecards,
    text_less, time_string, LimitTable, Scorecard, TimeLimit,
};
use wca_scorecards_lib::pdf::assign_groups;

fn card(event: &str, group: i8, station: i8, id: usize) -> Scorecard {
    Scorecard { event: event.to_string(), round: 1, group, station, id }
}

#[test]
fn time_strings() {
    assert_eq!(time_string(0), "0.00");
    assert_eq!(time_string(5), "0.05");
    assert_eq!(time_string(1234), "12.34");
    assert_eq!(time_string(5999), "59.99");
    assert_eq!(time_string(6000), "1:00.00");
    assert_eq!(time_string(65432), "10:54.32");
    assert_eq!(time_string(360000), "60:00.00");
}

#[test]
fn printed_times_read_back() {
    let read = |s: &str| -> usize {
        let (minutes, rest) = match s.split_once(':') {
            Some((m, r)) => (m.parse::<usize>().unwrap(), r),
            None => (0, s),
        };
        let (seconds, hundredths) = rest.split_once('.').unwrap();
        assert_eq!(hundredths.len(), 2);
        minutes * 6000 + seconds.parse::<usize>().unwrap() * 100 + hundredths.parse::<usize>().unwrap()
    };
    let mut seen = std::collections::HashSet::new();
    for z in (0..20000).chain([359999, 360000, 1234567]) {
        let s = time_string(z);
        assert_eq!(read(&s), z);
        assert!(seen.insert(s));
    }
}

#[test]
fn printing_order_does_not_depend_on_input_order() {
    let cards = vec![card("444", 1, 1, 3), card("333", 2, 1, 5), card("333", 1, 1, 9), card("333", 1, 1, 2)];
    let reversed: Vec<Scorecard> = cards.iter().rev().map(|c| c.copy()).collect();
    assert_eq!(sort_scorecards(cards), sort_scorecards(reversed));
}

#[test]
fn groups_of_five_by_two() {
    assert_eq!(assign_groups(5, 2), vec![(1, 1), (1, 2), (2, 1), (2, 2), (3, 1)]);
}

#[test]
fn larger_groups_come_first() {
    assert_eq!(assign_groups(7, 3), vec![(1, 1), (1, 2), (1, 3), (2, 1), (2, 2), (3, 1), (3, 2)]);
    assert_eq!(assign_groups(3, 20), vec![(1, 1), (1, 2), (1, 3)]);
    assert_eq!(assign_groups(1, 1), vec![(1, 1)]);
}

#[test]
fn seats_are_distinct_balanced_and_bounded() {
    for n in 1..60usize {
        for max in 1..12usize {
            let seats = assign_groups(n, max);
            let groups = (n + max - 1) / max;
            let mut sizes = vec![0usize; groups + 1];
            for (k, &(g, s)) in seats.iter().enumerate() {
                assert!(g >= 1 && g <= groups && s >= 1 && s <= max);
                sizes[g] += 1;
                assert_eq!(s, sizes[g]);
                if k > 0 {
                    assert!(seats[k - 1].0 <= g);
                }
            }
            let smallest = sizes[1..].iter().min().unwrap();
            let largest = sizes[1..].iter().max().unwrap();
            assert!(largest - smallest <= 1);
        }
    }
}

#[test]
fn pages_run_down_each_place() {
    let cards: Vec<Scorecard> = (0..7).map(|i| card("333", 1, 1, i)).collect();
    let pages = arrange_pages(&cards);
    assert_eq!(pages.len(), 2);
    let ids: Vec<Vec<Option<usize>>> =
        pages.iter().map(|p| p.iter().map(|c| c.as_ref().map(|c| c.id)).collect()).collect();
    assert_eq!(ids[0], vec![Some(0), Some(2), Some(4), Some(6), None, None]);
    assert_eq!(ids[1], vec![Some(1), Some(3), Some(5), None, None, None]);
    assert!(arrange_pages(&Vec::new()).is_empty());
}

#[test]
fn every_card_is_placed_once() {
    for n in 0..40usize {
        let cards: Vec<Scorecard> = (0..n).map(|i| card("333", 1, 1, i)).collect();
        let pages = arrange_pages(&cards);
        let mut seen = vec![0; n];
        for p in &pages {
            assert_eq!(p.len(), 6);
            for c in p.iter().flatten() {
                seen[c.id] += 1;
            }
        }
        assert!(seen.iter().all(|&x| x == 1));
    }
}

#[test]
fn sorting_follows_field_order() {
    let cards = vec![
        card("444", 1, 1, 3),
        card("333", 2, 1, 5),
        card("333", 1, 2, 1),
        card("333", 1, 1, 9),
        card("3333", 1, 1, 1),
        card("333", 1, 1, 2),
    ];
    let mut expected: Vec<Scorecard> = cards.iter().map(|c| c.copy()).collect();
    expected.sort();
    assert_eq!(sort_scorecards(cards), expected);
    assert!(text_less("333", "3333"));
    assert!(text_less("333bf", "444"));
    assert!(!text_less("b", "a"));
    assert!(!text_less("a", "a"));
}

#[test]
fn event_names_in_english() {
    let en = Language::english();
    assert_eq!(event_label(&en, "333"), "3x3x3 Cube");
    assert_eq!(event_label(&en, "333mbf"), "3x3x3 Multi-Blind");
    assert_eq!(event_label(&en, "333fm"), "Filter out FMC");
    assert_eq!(event_label(&en, "444bf-r1"), "Please fix your csv");
}

#[test]
fn attempts_per_event() {
    for e in ["666", "777", "333mbf", "333bf", "444bf", "555bf"] {
        assert_eq!(attempts_amount(e), 3);
    }
    for e in ["333", "222", "sq1", "333fm", ""] {
        assert_eq!(attempts_amount(e), 5);
    }
}

#[test]
fn limit_lines() {
    let en = Language::english();
    assert_eq!(limit_line(&en, &TimeLimit::Single(6000)), "Time limit: 1:00.00");
    assert_eq!(limit_line(&en, &TimeLimit::Cumulative(1234)), "Cumulative limit: 12.34");
    assert_eq!(limit_line(&en, &TimeLimit::Cutoff(3000, 60000)), "Cutoff: 30.00, Time limit: 10:00.00");
    assert_eq!(
        limit_line(&en, &TimeLimit::SharedCumulative(360000, vec!["444bf".to_string(), "555bf".to_string()])),
        "Cumulative limit: 60:00.00 for 4x4x4 Blindfolded and 5x5x5 Blindfolded"
    );
    assert_eq!(limit_line(&en, &TimeLimit::SharedCumulative(100, vec![])), "Cumulative limit: 1.00 for ");
    assert_eq!(limit_line(&en, &TimeLimit::Multi), en.multi_tl);
    assert_eq!(limit_line(&en, &TimeLimit::NoLimit), "");
}

#[test]
fn limit_table_keeps_last() {
    let mut t = LimitTable::new();
    assert!(t.get("333").is_none());
    t.insert("333".to_string(), TimeLimit::Single(1));
    t.insert("444".to_string(), TimeLimit::Multi);
    t.insert("333".to_string(), TimeLimit::Cumulative(2));
    assert!(matches!(t.get("333"), Some(TimeLimit::Cumulative(2))));
    assert!(matches!(t.get("444"), Some(TimeLimit::Multi)));
    assert!(t.get("555").is_none());
}

#[test]
fn card_texts() {
    let en = Language::english();
    let mut names = HashMap::new();
    names.insert(42usize, "Jane Doe".to_string());
    let mut limits = LimitTable::new();
    limits.insert("333bf".to_string(), TimeLimit::Cumulative(60000));
    let c = Scorecard { event: "333bf".to_string(), round: 2, group: -3, station: 17, id: 42 };
    let t = card_text(&c, "Open", &names, &limits, &en);
    assert_eq!(t.competition, "Open");
    assert_eq!(t.round, "Round: 2 | ");
    assert_eq!(t.event, "3x3x3 Blindfolded");
    assert_eq!(t.group, " | Group: -3");
    assert_eq!(t.id, "42");
    assert_eq!(t.name, "Jane Doe");
    assert_eq!(t.attempts, 3);
    assert_eq!(t.limit, "Cumulative limit: 10:00.00");
    assert_eq!(t.station, "17");
}

const GROUPS: &str = "Name,Id,333,333fm,pyram\r\nAnn,2,1;4,1;1,\n\nBob,1,2;1,,1;2\nCid,3,,,2;7,extra\n";

#[test]
fn groups_file_is_read() {
    let (cards, names) = parse_groups_csv(GROUPS);
    let got: Vec<(String, i8, i8, i8, usize)> =
        cards.iter().map(|c| (c.event.clone(), c.round, c.group, c.station, c.id)).collect();
    let expected: Vec<(String, i8, i8, i8, usize)> = vec![
        ("333".to_string(), 1, 1, 4, 2),
        ("333".to_string(), 1, 2, 1, 1),
        ("pyram".to_string(), 1, 1, 2, 1),
        ("pyram".to_string(), 1, 2, 7, 3),
    ];
    assert_eq!(got, expected);
    assert_eq!(names.len(), 3);
    assert_eq!(names[&2], "Ann");
    assert_eq!(names[&3], "Cid");
}

#[test]
fn groups_file_errors() {
    assert_eq!(try_parse_groups_csv("").err(), Some(CsvError::Groups));
    assert_eq!(try_parse_groups_csv("N,I,333\nAnn\n").err(), Some(CsvError::Groups));
    assert_eq!(try_parse_groups_csv("N,I,333\nAnn,x,1;1\n").err(), Some(CsvError::Groups));
    assert_eq!(try_parse_groups_csv("N,I,333\nAnn,1,1\n").err(), Some(CsvError::Groups));
    assert_eq!(try_parse_groups_csv("N,I,333fm\nAnn,1,a;1\n").err(), Some(CsvError::Groups));
    assert!(parse_groups_csv("N,I,333\n").0.is_empty());
}

#[test]
fn limits_file_is_read() {
    let t = parse_limits_csv("333,444bf,333mbf,clock,555\nT;1000,S;6000;444bf;555bf,M,K;500;3000,C;9000\n");
    assert!(matches!(t.get("333"), Some(TimeLimit::Single(1000))));
    match t.get("444bf") {
        Some(TimeLimit::SharedCumulative(6000, v)) => assert_eq!(v, &vec!["444bf".to_string(), "555bf".to_string()]),
        _ => panic!("expected a shared limit"),
    }
    assert!(matches!(t.get("333mbf"), Some(TimeLimit::Multi)));
    assert!(matches!(t.get("clock"), Some(TimeLimit::Cutoff(500, 3000))));
    assert!(matches!(t.get("555"), Some(TimeLimit::Cumulative(9000))));
}

#[test]
fn limits_file_errors() {
    assert_eq!(try_parse_limits_csv("333\n").err(), Some(CsvError::Limits));
    assert_eq!(try_parse_limits_csv("333\nX;100\n").err(), Some(CsvError::Limits));
    assert_eq!(try_parse_limits_csv("333\nT\n").err(), Some(CsvError::Limits));
    assert_eq!(try_parse_limits_csv("333\nK;1\n").err(), Some(CsvError::Limits));
    assert_eq!(try_parse_limits_csv("333\n\n").err(), Some(CsvError::Limits));
    assert!(parse_limits_csv("333,444\nM\n").get("444").is_none());
}

#[test]
fn blank_limits_cover_every_event() {
    let cards = vec![card("333", 1, 1, 1), card("pyram", 1, 1, 2), card("333", 2, 1, 3)];
    let t = no_limits(&cards);
    assert!(matches!(t.get("333"), Some(TimeLimit::NoLimit)));
    assert!(matches!(t.get("pyram"), Some(TimeLimit::NoLimit)));
    assert!(t.get("444").is_none());
    let en = Language::english();
    assert_eq!(limit_line(&en, t.get("333").unwrap()), "");
}

#[test]
fn fewest_groups() {
    for n in 1..80usize {
        for max in 1..15usize {
            let groups = assign_groups(n, max).iter().map(|s| s.0).max().unwrap();
            assert!((groups - 1) * max < n && n <= groups * max);
        }
    }
}
