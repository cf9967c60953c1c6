//! The parts of a competition's WCIF document that the scorecards are made from.
use vstd::prelude::*;

verus! {

/// A competition: its name, its events and the persons registered for it.
#[derive(Clone, Debug)]
pub struct Wcif {
    pub name: String,
    pub events: Vec<Event>,
    pub persons: Vec<Person>,
}

/// A registered person; `registrant_id` is the number written on scorecards.
#[derive(Clone, Debug)]
pub struct Person {
    pub name: String,
    pub registrant_id: Option<usize>,
}

/// An event (such as `333`) with its rounds.
#[derive(Clone, Debug)]
pub struct Event {
    pub id: String,
    pub rounds: Vec<Round>,
}

/// A round of an event; its `id` has the form `<event>-r<number>`.
#[derive(Clone, Debug)]
pub struct Round {
    pub id: String,
    pub time_limit: Option<TimeLimit>,
    pub cutoff: Option<Cutoff>,
    pub advancement_condition: Option<AdvancementCondition>,
    pub results: Vec<Result>,
}

/// A round's time limit in centiseconds, and the rounds that share it when it
/// is cumulative.
#[derive(Clone, Debug)]
pub struct TimeLimit {
    pub centiseconds: usize,
    pub cumulative_round_ids: Vec<String>,
}

/// A round's cutoff: the attempts to make it in and the result to beat.
#[derive(Clone, Copy, Debug)]
pub struct Cutoff {
    pub number_of_attempts: usize,
    pub attempt_result: usize,
}

/// How competitors qualify for the next round.
#[derive(Clone, Copy, Debug)]
pub enum AdvancementCondition {
    Percent(usize),
    Ranking(usize),
    AttemptResult(usize),
}

/// One competitor's result in a round; an `average` of `-1` is a DNF.
#[derive(Clone, Copy, Debug)]
pub struct Result {
    pub person_id: usize,
    pub ranking: usize,
    pub average: isize,
}

} // verus!
