use wca_scorecards_lib::pdf::scorecard::TimeLimit;
use wca_scorecards_lib::pdf::{run_from_wcif, try_run_from_wcif, RoundError};
use wca_scorecards_lib::wcif::json::{
    AdvancementCondition, Cutoff, Event, Person, Result as RoundResult, Round, TimeLimit as WcifLimit,
    Wcif,
};
use wca_scorecards_lib::wcif::{
    get_advancement_amount, get_advancement_ids, get_id_map, get_rounds,
    get_scorecard_info_for_round, parse_round_id, round_id_string, try_get_rounds,
    try_get_scorecard_info_for_round, InfoError,
};

fn result(person_id: usize, ranking: usize, average: isize) -> RoundResult {
    RoundResult { person_id, ranking, average }
}

fn round(id: &str, cond: Option<AdvancementCondition>, results: Vec<RoundResult>) -> Round {
    Round {
        id: id.to_string(),
        time_limit: Some(WcifLimit { centiseconds: 60000, cumulative_round_ids: vec![] }),
        cutoff: None,
        advancement_condition: cond,
        results,
    }
}

fn competition() -> Wcif {
    let r1 = round(
        "333-r1",
        Some(AdvancementCondition::Ranking(3)),
        vec![result(10, 1, 900), result(11, 2, 950), result(12, 3, 1000), result(13, 4, 1200), result(14, 5, -1)],
    );
    let mut r2 = round("333-r2", None, vec![]);
    r2.time_limit = Some(WcifLimit { centiseconds: 30000, cumulative_round_ids: vec![] });
    r2.cutoff = Some(Cutoff { number_of_attempts: 2, attempt_result: 12000 });
    let p1 = round("pyram-r1", Some(AdvancementCondition::Percent(50)), vec![result(10, 1, 300), result(12, 2, 400)]);
    let mut p2 = round("pyram-r2", None, vec![]);
    p2.time_limit = None;
    Wcif {
        name: "Test Open 2024".to_string(),
        events: vec![
            Event { id: "333".to_string(), rounds: vec![r1, r2] },
            Event { id: "pyram".to_string(), rounds: vec![p1, p2] },
        ],
        persons: vec![
            Person { name: "Ann".to_string(), registrant_id: Some(10) },
            Person { name: "Bob".to_string(), registrant_id: Some(11) },
            Person { name: "Cid".to_string(), registrant_id: Some(12) },
            Person { name: "Guest".to_string(), registrant_id: None },
            Person { name: "Dee".to_string(), registrant_id: Some(13) },
        ],
    }
}

#[test]
fn rounds_are_listed_in_order() {
    let rounds = get_rounds(competition());
    let expected: Vec<(String, usize)> = vec![
        ("333".to_string(), 1),
        ("333".to_string(), 2),
        ("pyram".to_string(), 1),
        ("pyram".to_string(), 2),
    ];
    assert_eq!(rounds, expected);
    assert_eq!(try_get_rounds(competition()), Some(expected));
}

#[test]
fn malformed_round_id_is_refused() {
    let mut w = competition();
    w.events[0].rounds[0].id = "333r1".to_string();
    assert!(try_get_rounds(w).is_none());
    let mut w = competition();
    w.events[0].rounds[0].id = "333-rx".to_string();
    assert!(try_get_rounds(w).is_none());
}

#[test]
fn round_ids() {
    assert_eq!(parse_round_id("333-r1"), Some(("333".to_string(), 1)));
    assert_eq!(parse_round_id("333mbf-r12"), Some(("333mbf".to_string(), 12)));
    assert_eq!(parse_round_id("333"), None);
    assert_eq!(parse_round_id("333-rx"), None);
    assert_eq!(parse_round_id("a-r2-r3"), Some(("a".to_string(), 2)));
    assert_eq!(round_id_string("sq1", 3), "sq1-r3");
}

#[test]
fn round_id_reads_back() {
    for (event, n) in [("333", 1usize), ("clock", 4), ("a-", 0), ("444bf", 123456)] {
        let id = round_id_string(event, n);
        assert_eq!(parse_round_id(&id), Some((event.to_string(), n)));
    }
}

#[test]
fn id_map_keeps_last_name() {
    let persons = vec![
        Person { name: "A".to_string(), registrant_id: Some(1) },
        Person { name: "B".to_string(), registrant_id: None },
        Person { name: "C".to_string(), registrant_id: Some(1) },
        Person { name: "D".to_string(), registrant_id: Some(2) },
    ];
    let map = get_id_map(&persons);
    assert_eq!(map.len(), 2);
    assert_eq!(map[&1], "C");
    assert_eq!(map[&2], "D");
}

#[test]
fn advancement_amounts() {
    let rs = vec![result(1, 1, 500), result(2, 2, 700), result(3, 3, -1), result(4, 4, 900)];
    let r = round("x-r1", None, rs);
    assert_eq!(get_advancement_amount(&r, &None), None);
    assert_eq!(get_advancement_amount(&r, &Some(AdvancementCondition::Percent(75))), Some(3));
    assert_eq!(get_advancement_amount(&r, &Some(AdvancementCondition::Percent(10))), Some(0));
    assert_eq!(get_advancement_amount(&r, &Some(AdvancementCondition::Ranking(2))), Some(2));
    // The DNF at position 2 stops the attempt-result condition there.
    assert_eq!(get_advancement_amount(&r, &Some(AdvancementCondition::AttemptResult(1000))), Some(2));
    // The first average above 600 is at position 1.
    assert_eq!(get_advancement_amount(&r, &Some(AdvancementCondition::AttemptResult(600))), Some(1));
    // Nobody misses: 75 percent of 4.
    let r2 = round("x-r1", None, vec![result(1, 1, 500), result(2, 2, 700), result(3, 3, 800), result(4, 4, 900)]);
    assert_eq!(get_advancement_amount(&r2, &Some(AdvancementCondition::AttemptResult(1000))), Some(3));
}

#[test]
fn advancement_drops_tie_at_cutoff() {
    let rs = vec![result(1, 1, 500), result(2, 2, 600), result(3, 3, 700), result(4, 3, 700), result(5, 5, 800)];
    let r = round("x-r1", None, rs);
    assert_eq!(get_advancement_ids(&r, &Some(AdvancementCondition::Ranking(3))), vec![1, 2]);
    assert_eq!(get_advancement_ids(&r, &Some(AdvancementCondition::Ranking(4))), vec![1, 2, 3, 4]);
    assert_eq!(get_advancement_ids(&r, &None), Vec::<usize>::new());
}

#[test]
fn advancing_competitors_are_ranked_within_amount() {
    let rs = vec![result(7, 2, 500), result(8, 1, 400), result(9, 4, 900), result(6, 3, 700)];
    let r = round("x-r1", None, rs);
    let cond = Some(AdvancementCondition::Ranking(2));
    let ids = get_advancement_ids(&r, &cond);
    let amount = get_advancement_amount(&r, &cond).unwrap();
    for id in ids {
        assert!(r.results.iter().any(|x| x.person_id == id && x.ranking <= amount));
    }
}

#[test]
fn scorecard_info_for_second_round() {
    let (ids, names, limit, name) = get_scorecard_info_for_round(competition(), "333", 2);
    assert_eq!(ids, vec![10, 11, 12]);
    assert_eq!(names.len(), 4);
    assert_eq!(names[&13], "Dee");
    assert!(matches!(limit, TimeLimit::Cutoff(30000, 12000)));
    assert_eq!(name, "Test Open 2024");
    let (_, _, limit, _) = get_scorecard_info_for_round(competition(), "pyram", 2);
    assert!(matches!(limit, TimeLimit::Multi));
}

#[test]
fn scorecard_info_errors() {
    assert_eq!(try_get_scorecard_info_for_round(competition(), "333", 0).err(), Some(InfoError::NoPreviousRound));
    assert_eq!(try_get_scorecard_info_for_round(competition(), "333", 1).err(), Some(InfoError::NoPreviousRound));
    assert_eq!(try_get_scorecard_info_for_round(competition(), "333", 3).err(), Some(InfoError::NoRound));
    assert_eq!(try_get_scorecard_info_for_round(competition(), "444", 2).err(), Some(InfoError::NoPreviousRound));
    let mut w = competition();
    w.events[1].rounds[0].advancement_condition = Some(AdvancementCondition::Percent(usize::MAX));
    assert_eq!(try_get_scorecard_info_for_round(w, "pyram", 2).err(), Some(InfoError::AdvancementOverflow));
}

#[test]
fn shared_and_cumulative_limits() {
    let mut w = competition();
    w.events[0].rounds[1].cutoff = None;
    w.events[0].rounds[1].time_limit = Some(WcifLimit { centiseconds: 18000, cumulative_round_ids: vec!["333-r2".to_string()] });
    let (_, _, limit, _) = get_scorecard_info_for_round(w, "333", 2);
    assert!(matches!(limit, TimeLimit::Cumulative(18000)));
    let mut w = competition();
    w.events[0].rounds[1].cutoff = None;
    w.events[0].rounds[1].time_limit = Some(WcifLimit {
        centiseconds: 36000,
        cumulative_round_ids: vec!["333-r2".to_string(), "444bf-r1".to_string()],
    });
    let (_, _, limit, _) = get_scorecard_info_for_round(w, "333", 2);
    match limit {
        TimeLimit::SharedCumulative(36000, rounds) => assert_eq!(rounds, vec!["333-r2", "444bf-r1"]),
        _ => panic!("expected a shared cumulative limit"),
    }
    let mut w = competition();
    w.events[0].rounds[1].cutoff = None;
    let (_, _, limit, _) = get_scorecard_info_for_round(w, "333", 2);
    assert!(matches!(limit, TimeLimit::Single(30000)));
}

#[test]
fn round_scorecards_are_grouped() {
    let job = run_from_wcif(competition(), "333", 2, 2);
    let seats: Vec<(usize, i8, i8, i8)> =
        job.scorecards.iter().map(|c| (c.id, c.round, c.group, c.station)).collect();
    assert_eq!(seats, vec![(10, 2, 1, 1), (11, 2, 1, 2), (12, 2, 2, 1)]);
    assert!(job.scorecards.iter().all(|c| c.event == "333"));
    assert_eq!(job.competition, "Test Open 2024");
    assert!(matches!(job.limits.get("333"), Some(TimeLimit::Cutoff(30000, 12000))));
    assert!(job.limits.get("pyram").is_none());
    assert_eq!(job.names[&11], "Bob");
}

#[test]
fn round_scorecard_errors() {
    assert_eq!(try_run_from_wcif(competition(), "333", 2, 0).err(), Some(RoundError::NoGroupSize));
    assert_eq!(try_run_from_wcif(competition(), "333", 2, usize::MAX).err(), Some(RoundError::TooManyCompetitors));
    assert_eq!(try_run_from_wcif(competition(), "333", 5, 2).err(), Some(RoundError::Info(InfoError::NoPreviousRound)));
    let mut w = competition();
    w.events[0].rounds[0].advancement_condition = Some(AdvancementCondition::Ranking(0));
    assert_eq!(try_run_from_wcif(w, "333", 2, 2).err(), Some(RoundError::NoCompetitors));
}

#[test]
fn standard_rankings_never_advance_too_many() {
    let rankings: Vec<Vec<usize>> = vec![
        vec![1, 2, 3, 4, 5],
        vec![1, 1, 3, 3, 3, 6],
        vec![1, 1, 1, 1],
        vec![1, 2, 2, 4, 4, 4, 7],
    ];
    for ranks in rankings {
        let rs: Vec<RoundResult> = ranks.iter().enumerate().map(|(i, &r)| result(i, r, 100)).collect();
        let r = round("x-r1", None, rs);
        for level in 0..8 {
            let cond = Some(AdvancementCondition::Ranking(level));
            assert!(get_advancement_ids(&r, &cond).len() <= level);
        }
    }
}

#[test]
fn unordered_ties_can_advance_more_than_amount() {
    // Results out of ranking order: the tie dropped is that of the last
    // result kept, here ranking 1, and three competitors ranked 2 remain.
    let rs = vec![result(1, 1, 0), result(2, 1, 0), result(3, 2, 0), result(4, 2, 0), result(5, 2, 0), result(6, 1, 0)];
    let r = round("x-r1", None, rs);
    assert_eq!(get_advancement_ids(&r, &Some(AdvancementCondition::Ranking(2))), vec![3, 4, 5]);
}
