//! The words printed on scorecards, in English or read from a language file.
use vstd::prelude::*;

use crate::text::{chars_of, lines, lines_spec, seqs_of, split, split_spec, string_from, string_of};

verus! {

/// The words printed on scorecards: labels, and the name of each event.
pub struct Language {
    /// Label of the round number.
    pub round: String,
    /// Label of the group number.
    pub group: String,
    /// Heading of the scrambler's column.
    pub scram: String,
    /// Heading of the result column.
    pub result: String,
    /// Heading of the judge's column.
    pub judge: String,
    /// Heading of the competitor's column.
    pub comp: String,
    /// Heading of the extra attempts.
    pub extra_attempts: String,
    /// Label of a time limit per attempt.
    pub time_limit: String,
    /// Label of a cumulative time limit.
    pub cumulative_limit: String,
    /// Word before the events that share a cumulative limit.
    pub for_scl: String,
    /// Word between the events that share a cumulative limit.
    pub and_scl: String,
    /// Label of a cutoff.
    pub curoff: String,
    /// The time limit text of multi-blind.
    pub multi_tl: String,
    /// Name of the event `333`.
    pub e333: String,
    /// Name of the event `444`.
    pub e444: String,
    /// Name of the event `555`.
    pub e555: String,
    /// Name of the event `666`.
    pub e666: String,
    /// Name of the event `777`.
    pub e777: String,
    /// Name of the event `222`.
    pub e222: String,
    /// Name of the event `333oh`.
    pub e333oh: String,
    /// Name of the event `minx`.
    pub eminx: String,
    /// Name of the event `pyram`.
    pub epyram: String,
    /// Name of the event `skewb`.
    pub eskewb: String,
    /// Name of the event `sq1`.
    pub esq1: String,
    /// Name of the event `333bf`.
    pub e333bf: String,
    /// Name of the event `444bf`.
    pub e444bf: String,
    /// Name of the event `555bf`.
    pub e555bf: String,
    /// Name of the event `333mbf`.
    pub e333mbf: String,
    /// Name of the event `clock`.
    pub eclock: String,
}

impl View for Language {
    type V = Seq<Seq<char>>;

    /// The words in this order, each followed by the key that a language file
    /// gives it under:
    ///  0. `round` (`round`)
    ///  1. `group` (`group`)
    ///  2. `scram` (`scram`)
    ///  3. `result` (`result`)
    ///  4. `judge` (`judge`)
    ///  5. `comp` (`comp`)
    ///  6. `extra_attempts` (`extra attempts`)
    ///  7. `time_limit` (`time limit`)
    ///  8. `cumulative_limit` (`cumulative limit`)
    ///  9. `for_scl` (`for`)
    /// 10. `and_scl` (`and`)
    /// 11. `curoff` (`cutoff`)
    /// 12. `multi_tl` (`multi`)
    /// 13. `e333` (`333`)
    /// 14. `e444` (`444`)
    /// 15. `e555` (`555`)
    /// 16. `e666` (`666`)
    /// 17. `e777` (`777`)
    /// 18. `e222` (`222`)
    /// 19. `e333oh` (`333oh`)
    /// 20. `eminx` (`minx`)
    /// 21. `epyram` (`pyram`)
    /// 22. `eskewb` (`skewb`)
    /// 23. `esq1` (`sq1`)
    /// 24. `e333bf` (`333bf`)
    /// 25. `e444bf` (`444bf`)
    /// 26. `e555bf` (`555bf`)
    /// 27. `e333mbf` (`333mbf`)
    /// 28. `eclock` (`clock`)
    open spec fn view(&self) -> Seq<Seq<char>> {
        seq![
            self.round@,
            self.group@,
            self.scram@,
            self.result@,
            self.judge@,
            self.comp@,
            self.extra_attempts@,
            self.time_limit@,
            self.cumulative_limit@,
            self.for_scl@,
            self.and_scl@,
            self.curoff@,
            self.multi_tl@,
            self.e333@,
            self.e444@,
            self.e555@,
            self.e666@,
            self.e777@,
            self.e222@,
            self.e333oh@,
            self.eminx@,
            self.epyram@,
            self.eskewb@,
            self.esq1@,
            self.e333bf@,
            self.e444bf@,
            self.e555bf@,
            self.e333mbf@,
            self.eclock@,
        ]
    }
}

/// The position among the words of the one a language file gives under `key`.
pub open spec fn language_key(key: Seq<char>) -> Option<int> {
    if key == "round"@ {
        Some(0)
    } else if key == "group"@ {
        Some(1)
    } else if key == "scram"@ {
        Some(2)
    } else if key == "result"@ {
        Some(3)
    } else if key == "judge"@ {
        Some(4)
    } else if key == "comp"@ {
        Some(5)
    } else if key == "extra attempts"@ {
        Some(6)
    } else if key == "time limit"@ {
        Some(7)
    } else if key == "cumulative limit"@ {
        Some(8)
    } else if key == "for"@ {
        Some(9)
    } else if key == "and"@ {
        Some(10)
    } else if key == "cutoff"@ {
        Some(11)
    } else if key == "multi"@ {
        Some(12)
    } else if key == "333"@ {
        Some(13)
    } else if key == "444"@ {
        Some(14)
    } else if key == "555"@ {
        Some(15)
    } else if key == "666"@ {
        Some(16)
    } else if key == "777"@ {
        Some(17)
    } else if key == "222"@ {
        Some(18)
    } else if key == "333oh"@ {
        Some(19)
    } else if key == "minx"@ {
        Some(20)
    } else if key == "pyram"@ {
        Some(21)
    } else if key == "skewb"@ {
        Some(22)
    } else if key == "sq1"@ {
        Some(23)
    } else if key == "333bf"@ {
        Some(24)
    } else if key == "444bf"@ {
        Some(25)
    } else if key == "555bf"@ {
        Some(26)
    } else if key == "333mbf"@ {
        Some(27)
    } else if key == "clock"@ {
        Some(28)
    } else {
        None
    }
}

/// The texts of the keys of a language file and of the FMC event id: their
/// lengths, and for any two of the same length a character in which they differ.
pub proof fn lemma_key_texts()
    ensures
        "round"@.len() == 5,
        "group"@.len() == 5,
        "group"@[0] != "round"@[0],
        "scram"@.len() == 5,
        "scram"@[0] != "round"@[0] && "scram"@[0] != "group"@[0],
        "result"@.len() == 6,
        "judge"@.len() == 5,
        "judge"@[0] != "round"@[0] && "judge"@[0] != "group"@[0] && "judge"@[0] != "scram"@[0],
        "comp"@.len() == 4,
        "extra attempts"@.len() == 14,
        "time limit"@.len() == 10,
        "cumulative limit"@.len() == 16,
        "for"@.len() == 3,
        "and"@.len() == 3,
        "and"@[0] != "for"@[0],
        "cutoff"@.len() == 6,
        "cutoff"@[0] != "result"@[0],
        "multi"@.len() == 5,
        "multi"@[0] != "round"@[0] && "multi"@[0] != "group"@[0] && "multi"@[0] != "scram"@[0]
            && "multi"@[0] != "judge"@[0],
        "333"@.len() == 3,
        "333"@[0] != "for"@[0] && "333"@[0] != "and"@[0],
        "444"@.len() == 3,
        "444"@[0] != "for"@[0] && "444"@[0] != "and"@[0] && "444"@[0] != "333"@[0],
        "555"@.len() == 3,
        "555"@[0] != "for"@[0] && "555"@[0] != "and"@[0] && "555"@[0] != "333"@[0]
            && "555"@[0] != "444"@[0],
        "666"@.len() == 3,
        "666"@[0] != "for"@[0] && "666"@[0] != "and"@[0] && "666"@[0] != "333"@[0]
            && "666"@[0] != "444"@[0] && "666"@[0] != "555"@[0],
        "777"@.len() == 3,
        "777"@[0] != "for"@[0] && "777"@[0] != "and"@[0] && "777"@[0] != "333"@[0]
            && "777"@[0] != "444"@[0] && "777"@[0] != "555"@[0] && "777"@[0] != "666"@[0],
        "222"@.len() == 3,
        "222"@[0] != "for"@[0] && "222"@[0] != "and"@[0] && "222"@[0] != "333"@[0]
            && "222"@[0] != "444"@[0] && "222"@[0] != "555"@[0] && "222"@[0] != "666"@[0]
            && "222"@[0] != "777"@[0],
        "333oh"@.len() == 5,
        "333oh"@[0] != "round"@[0] && "333oh"@[0] != "group"@[0] && "333oh"@[0] != "scram"@[0]
            && "333oh"@[0] != "judge"@[0] && "333oh"@[0] != "multi"@[0],
        "minx"@.len() == 4,
        "minx"@[0] != "comp"@[0],
        "pyram"@.len() == 5,
        "pyram"@[0] != "round"@[0] && "pyram"@[0] != "group"@[0] && "pyram"@[0] != "scram"@[0]
            && "pyram"@[0] != "judge"@[0] && "pyram"@[0] != "multi"@[0]
            && "pyram"@[0] != "333oh"@[0],
        "skewb"@.len() == 5,
        "skewb"@[0] != "round"@[0] && "skewb"@[0] != "group"@[0] && "skewb"@[1] != "scram"@[1]
            && "skewb"@[0] != "judge"@[0] && "skewb"@[0] != "multi"@[0]
            && "skewb"@[0] != "333oh"@[0] && "skewb"@[0] != "pyram"@[0],
        "sq1"@.len() == 3,
        "sq1"@[0] != "for"@[0] && "sq1"@[0] != "and"@[0] && "sq1"@[0] != "333"@[0]
            && "sq1"@[0] != "444"@[0] && "sq1"@[0] != "555"@[0] && "sq1"@[0] != "666"@[0]
            && "sq1"@[0] != "777"@[0] && "sq1"@[0] != "222"@[0],
        "333bf"@.len() == 5,
        "333bf"@[0] != "round"@[0] && "333bf"@[0] != "group"@[0] && "333bf"@[0] != "scram"@[0]
            && "333bf"@[0] != "judge"@[0] && "333bf"@[0] != "multi"@[0]
            && "333bf"@[3] != "333oh"@[3] && "333bf"@[0] != "pyram"@[0]
            && "333bf"@[0] != "skewb"@[0],
        "444bf"@.len() == 5,
        "444bf"@[0] != "round"@[0] && "444bf"@[0] != "group"@[0] && "444bf"@[0] != "scram"@[0]
            && "444bf"@[0] != "judge"@[0] && "444bf"@[0] != "multi"@[0]
            && "444bf"@[0] != "333oh"@[0] && "444bf"@[0] != "pyram"@[0]
            && "444bf"@[0] != "skewb"@[0] && "444bf"@[0] != "333bf"@[0],
        "555bf"@.len() == 5,
        "555bf"@[0] != "round"@[0] && "555bf"@[0] != "group"@[0] && "555bf"@[0] != "scram"@[0]
            && "555bf"@[0] != "judge"@[0] && "555bf"@[0] != "multi"@[0]
            && "555bf"@[0] != "333oh"@[0] && "555bf"@[0] != "pyram"@[0]
            && "555bf"@[0] != "skewb"@[0] && "555bf"@[0] != "333bf"@[0]
            && "555bf"@[0] != "444bf"@[0],
        "333mbf"@.len() == 6,
        "333mbf"@[0] != "result"@[0] && "333mbf"@[0] != "cutoff"@[0],
        "clock"@.len() == 5,
        "clock"@[0] != "round"@[0] && "clock"@[0] != "group"@[0] && "clock"@[0] != "scram"@[0]
            && "clock"@[0] != "judge"@[0] && "clock"@[0] != "multi"@[0]
            && "clock"@[0] != "333oh"@[0] && "clock"@[0] != "pyram"@[0]
            && "clock"@[0] != "skewb"@[0] && "clock"@[0] != "333bf"@[0]
            && "clock"@[0] != "444bf"@[0] && "clock"@[0] != "555bf"@[0],
        "333fm"@.len() == 5,
        "333fm"@[0] != "round"@[0] && "333fm"@[0] != "group"@[0] && "333fm"@[0] != "scram"@[0]
            && "333fm"@[0] != "judge"@[0] && "333fm"@[0] != "multi"@[0]
            && "333fm"@[3] != "333oh"@[3] && "333fm"@[0] != "pyram"@[0]
            && "333fm"@[0] != "skewb"@[0] && "333fm"@[3] != "333bf"@[3]
            && "333fm"@[0] != "444bf"@[0] && "333fm"@[0] != "555bf"@[0]
            && "333fm"@[0] != "clock"@[0],
{
    reveal_strlit("round");
    reveal_strlit("group");
    reveal_strlit("scram");
    reveal_strlit("result");
    reveal_strlit("judge");
    reveal_strlit("comp");
    reveal_strlit("extra attempts");
    reveal_strlit("time limit");
    reveal_strlit("cumulative limit");
    reveal_strlit("for");
    reveal_strlit("and");
    reveal_strlit("cutoff");
    reveal_strlit("multi");
    reveal_strlit("333");
    reveal_strlit("444");
    reveal_strlit("555");
    reveal_strlit("666");
    reveal_strlit("777");
    reveal_strlit("222");
    reveal_strlit("333oh");
    reveal_strlit("minx");
    reveal_strlit("pyram");
    reveal_strlit("skewb");
    reveal_strlit("sq1");
    reveal_strlit("333bf");
    reveal_strlit("444bf");
    reveal_strlit("555bf");
    reveal_strlit("333mbf");
    reveal_strlit("clock");
    reveal_strlit("333fm");
}

/// The position of the word under each key.
proof fn lemma_key_positions()
    ensures
        language_key("round"@) == Some(0int),
        language_key("group"@) == Some(1int),
        language_key("scram"@) == Some(2int),
        language_key("result"@) == Some(3int),
        language_key("judge"@) == Some(4int),
        language_key("comp"@) == Some(5int),
        language_key("extra attempts"@) == Some(6int),
        language_key("time limit"@) == Some(7int),
        language_key("cumulative limit"@) == Some(8int),
        language_key("for"@) == Some(9int),
        language_key("and"@) == Some(10int),
        language_key("cutoff"@) == Some(11int),
        language_key("multi"@) == Some(12int),
        language_key("333"@) == Some(13int),
        language_key("444"@) == Some(14int),
        language_key("555"@) == Some(15int),
        language_key("666"@) == Some(16int),
        language_key("777"@) == Some(17int),
        language_key("222"@) == Some(18int),
        language_key("333oh"@) == Some(19int),
        language_key("minx"@) == Some(20int),
        language_key("pyram"@) == Some(21int),
        language_key("skewb"@) == Some(22int),
        language_key("sq1"@) == Some(23int),
        language_key("333bf"@) == Some(24int),
        language_key("444bf"@) == Some(25int),
        language_key("555bf"@) == Some(26int),
        language_key("333mbf"@) == Some(27int),
        language_key("clock"@) == Some(28int),
{
    lemma_key_texts();
}

/// The words with the one under `key` set to `value`; a key that names no
/// word changes nothing.
pub open spec fn with_word(words: Seq<Seq<char>>, key: Seq<char>, value: Seq<char>) -> Seq<
    Seq<char>,
> {
    match language_key(key) {
        Some(i) => words.update(i, value),
        None => words,
    }
}

/// Setting the word under a key of a language file sets the word of that name
/// and leaves every other word as it was: under `444` the 4x4x4 name, under
/// `555` the 5x5x5 name, under `time limit` the time limit label, and so on;
/// under any other key nothing changes.
pub proof fn lemma_key_sets_its_word(before: Language, after: Language, key: Seq<char>, w: Seq<char>)
    requires
        after@ == with_word(before@, key, w),
    ensures
        key == "round"@ ==> after.round@ == w,
        key == "group"@ ==> after.group@ == w,
        key == "scram"@ ==> after.scram@ == w,
        key == "result"@ ==> after.result@ == w,
        key == "judge"@ ==> after.judge@ == w,
        key == "comp"@ ==> after.comp@ == w,
        key == "extra attempts"@ ==> after.extra_attempts@ == w,
        key == "time limit"@ ==> after.time_limit@ == w,
        key == "cumulative limit"@ ==> after.cumulative_limit@ == w,
        key == "for"@ ==> after.for_scl@ == w,
        key == "and"@ ==> after.and_scl@ == w,
        key == "cutoff"@ ==> after.curoff@ == w,
        key == "multi"@ ==> after.multi_tl@ == w,
        key == "333"@ ==> after.e333@ == w,
        key == "444"@ ==> after.e444@ == w,
        key == "555"@ ==> after.e555@ == w,
        key == "666"@ ==> after.e666@ == w,
        key == "777"@ ==> after.e777@ == w,
        key == "222"@ ==> after.e222@ == w,
        key == "333oh"@ ==> after.e333oh@ == w,
        key == "minx"@ ==> after.eminx@ == w,
        key == "pyram"@ ==> after.epyram@ == w,
        key == "skewb"@ ==> after.eskewb@ == w,
        key == "sq1"@ ==> after.esq1@ == w,
        key == "333bf"@ ==> after.e333bf@ == w,
        key == "444bf"@ ==> after.e444bf@ == w,
        key == "555bf"@ ==> after.e555bf@ == w,
        key == "333mbf"@ ==> after.e333mbf@ == w,
        key == "clock"@ ==> after.eclock@ == w,
        forall|j: int|
            0 <= j < 29 && language_key(key) != Some(j) ==> #[trigger] after@[j] == before@[j],
        key != "round"@ && key != "group"@ && key != "scram"@ && key != "result"@
            && key != "judge"@ && key != "comp"@ && key != "extra attempts"@
            && key != "time limit"@ && key != "cumulative limit"@ && key != "for"@ && key != "and"@
            && key != "cutoff"@ && key != "multi"@ && key != "333"@ && key != "444"@
            && key != "555"@ && key != "666"@ && key != "777"@ && key != "222"@ && key != "333oh"@
            && key != "minx"@ && key != "pyram"@ && key != "skewb"@ && key != "sq1"@
            && key != "333bf"@ && key != "444bf"@ && key != "555bf"@ && key != "333mbf"@
            && key != "clock"@ ==> after@ == before@,
{
    lemma_key_positions();
    let a = after@;
    let b = before@;
    assert(a.len() == 29 && b.len() == 29);
}

/// The English words.
pub open spec fn english_words() -> Seq<Seq<char>> {
    seq![
        "Round"@,
        "Group"@,
        "Scr"@,
        "Result"@,
        "Judge"@,
        "Comp"@,
        "Extra attempts"@,
        "Time limit"@,
        "Cumulative limit"@,
        "for"@,
        "and"@,
        "Cutoff"@,
        "Time limit: 10:00 per cube, at most 60:00"@,
        "3x3x3 Cube"@,
        "4x4x4 Cube"@,
        "5x5x5 Cube"@,
        "6x6x6 Cube"@,
        "7x7x7 Cube"@,
        "2x2x2 Cube"@,
        "3x3x3 One-Handed"@,
        "Megaminx"@,
        "Pyraminx"@,
        "Skewb"@,
        "Square-1"@,
        "3x3x3 Blindfolded"@,
        "4x4x4 Blindfolded"@,
        "5x5x5 Blindfolded"@,
        "3x3x3 Multi-Blind"@,
        "Clock"@,
    ]
}

/// Whether two texts are equal.
pub fn same_text(a: &str, b: &str) -> (r: bool)
    ensures
        r == (a@ == b@),
{
    let x = chars_of(a);
    let y = chars_of(b);
    if x.len() != y.len() {
        return false;
    }
    let mut i: usize = 0;
    while i < x.len()
        invariant
            x@ == a@,
            y@ == b@,
            x@.len() == y@.len(),
            i <= x@.len(),
            forall|m: int| 0 <= m < i ==> x@[m] == y@[m],
        decreases x.len() - i,
    {
        if x[i] != y[i] {
            return false;
        }
        i = i + 1;
    }
    assert(x@ =~= y@);
    true
}

impl Language {
    /// The English words.
    pub fn english() -> (l: Language)
        ensures
            l@ == english_words(),
    {
        Language {
            round: string_from("Round"),
            group: string_from("Group"),
            scram: string_from("Scr"),
            result: string_from("Result"),
            judge: string_from("Judge"),
            comp: string_from("Comp"),
            extra_attempts: string_from("Extra attempts"),
            time_limit: string_from("Time limit"),
            cumulative_limit: string_from("Cumulative limit"),
            for_scl: string_from("for"),
            and_scl: string_from("and"),
            curoff: string_from("Cutoff"),
            multi_tl: string_from("Time limit: 10:00 per cube, at most 60:00"),
            e333: string_from("3x3x3 Cube"),
            e444: string_from("4x4x4 Cube"),
            e555: string_from("5x5x5 Cube"),
            e666: string_from("6x6x6 Cube"),
            e777: string_from("7x7x7 Cube"),
            e222: string_from("2x2x2 Cube"),
            e333oh: string_from("3x3x3 One-Handed"),
            eminx: string_from("Megaminx"),
            epyram: string_from("Pyraminx"),
            eskewb: string_from("Skewb"),
            esq1: string_from("Square-1"),
            e333bf: string_from("3x3x3 Blindfolded"),
            e444bf: string_from("4x4x4 Blindfolded"),
            e555bf: string_from("5x5x5 Blindfolded"),
            e333mbf: string_from("3x3x3 Multi-Blind"),
            eclock: string_from("Clock"),
        }
    }

    /// Sets the word that a language file gives under `key` to `value`; a key
    /// that names no word changes nothing.
    pub fn set_word(&mut self, key: &str, value: String)
        ensures
            final(self)@ == with_word(old(self)@, key@, value@),
    {
        if same_text(key, "round") {
            self.round = value;
        } else if same_text(key, "group") {
            self.group = value;
        } else if same_text(key, "scram") {
            self.scram = value;
        } else if same_text(key, "result") {
            self.result = value;
        } else if same_text(key, "judge") {
            self.judge = value;
        } else if same_text(key, "comp") {
            self.comp = value;
        } else if same_text(key, "extra attempts") {
            self.extra_attempts = value;
        } else if same_text(key, "time limit") {
            self.time_limit = value;
        } else if same_text(key, "cumulative limit") {
            self.cumulative_limit = value;
        } else if same_text(key, "for") {
            self.for_scl = value;
        } else if same_text(key, "and") {
            self.and_scl = value;
        } else if same_text(key, "cutoff") {
            self.curoff = value;
        } else if same_text(key, "multi") {
            self.multi_tl = value;
        } else if same_text(key, "333") {
            self.e333 = value;
        } else if same_text(key, "444") {
            self.e444 = value;
        } else if same_text(key, "555") {
            self.e555 = value;
        } else if same_text(key, "666") {
            self.e666 = value;
        } else if same_text(key, "777") {
            self.e777 = value;
        } else if same_text(key, "222") {
            self.e222 = value;
        } else if same_text(key, "333oh") {
            self.e333oh = value;
        } else if same_text(key, "minx") {
            self.eminx = value;
        } else if same_text(key, "pyram") {
            self.epyram = value;
        } else if same_text(key, "skewb") {
            self.eskewb = value;
        } else if same_text(key, "sq1") {
            self.esq1 = value;
        } else if same_text(key, "333bf") {
            self.e333bf = value;
        } else if same_text(key, "444bf") {
            self.e444bf = value;
        } else if same_text(key, "555bf") {
            self.e555bf = value;
        } else if same_text(key, "333mbf") {
            self.e333mbf = value;
        } else if same_text(key, "clock") {
            self.eclock = value;
        }
        assert(final(self)@ =~= with_word(old(self)@, key@, value@));
    }
}

/// The words after applying the lines of a language file in order: a line
/// `key:word` sets the word under `key` (text after a second `:` is dropped);
/// lines without a `:` and unknown keys change nothing.
pub open spec fn apply_language_lines(words: Seq<Seq<char>>, ls: Seq<Seq<char>>) -> Seq<Seq<char>>
    decreases ls.len(),
{
    if ls.len() == 0 {
        words
    } else {
        let w = apply_language_lines(words, ls.drop_last());
        let parts = split_spec(ls.last(), ':');
        if parts.len() >= 2 {
            with_word(w, parts[0], parts[1])
        } else {
            w
        }
    }
}

/// The words of a language file: English, with the words that the file sets.
pub fn read_language(contents: &str) -> (l: Language)
    ensures
        l@ == apply_language_lines(english_words(), lines_spec(contents@)),
{
    let mut lang = Language::english();
    let text = chars_of(contents);
    let ls = lines(text.as_slice());
    let mut i: usize = 0;
    while i < ls.len()
        invariant
            i <= ls@.len(),
            seqs_of(ls@) == lines_spec(contents@),
            lang@ == apply_language_lines(english_words(), seqs_of(ls@).take(i as int)),
        decreases ls.len() - i,
    {
        assert(seqs_of(ls@).take(i + 1).drop_last() == seqs_of(ls@).take(i as int));
        let parts = split(ls[i].as_slice(), ':');
        if parts.len() >= 2 {
            let key = string_of(parts[0].as_slice());
            let value = string_of(parts[1].as_slice());
            lang.set_word(key.as_str(), value);
        }
        i = i + 1;
    }
    assert(seqs_of(ls@).take(i as int) == seqs_of(ls@));
    lang
}

} // verus!
