//! The local web pages through which later rounds are printed.
use vstd::prelude::*;

use crate::language::same_text;
use crate::text::{chars_of, decimal, lemma_parse_decimal, parse_usize, parse_usize_spec};

pub mod html;

verus! {

/// Why the query of a round request was refused.
#[derive(Debug, PartialEq, Eq)]
pub enum QueryError {
    /// A parameter other than `eventid` and `round`.
    UnknownParameter,
    /// A `round` that is not a number.
    BadRound,
}

/// The event id and round number that the query parameters ask for, read in
/// order from an empty id and round 0: `eventid` sets the id, `round` the
/// number; any other parameter, or a round that is not a number, is refused.
pub open spec fn round_query(pairs: Seq<(Seq<char>, Seq<char>)>) -> Result<
    (Seq<char>, nat),
    QueryError,
>
    decreases pairs.len(),
{
    if pairs.len() == 0 {
        Ok((Seq::empty(), 0))
    } else {
        match round_query(pairs.drop_last()) {
            Err(e) => Err(e),
            Ok((e, r)) => {
                let (k, v) = pairs.last();
                if k == "eventid"@ {
                    Ok((v, r))
                } else if k == "round"@ {
                    match parse_usize_spec(v) {
                        Some(n) => Ok((e, n)),
                        None => Err(QueryError::BadRound),
                    }
                } else {
                    Err(QueryError::UnknownParameter)
                }
            },
        }
    }
}

/// Once a prefix of the parameters is refused, so are all of them, for the same reason.
proof fn lemma_refusal_stays(pairs: Seq<(Seq<char>, Seq<char>)>, j: int)
    requires
        0 <= j <= pairs.len(),
        round_query(pairs.take(j)) is Err,
    ensures
        round_query(pairs) == round_query(pairs.take(j)),
    decreases pairs.len(),
{
    if j < pairs.len() {
        assert(pairs.drop_last().take(j) == pairs.take(j));
        lemma_refusal_stays(pairs.drop_last(), j);
    } else {
        assert(pairs.take(j) == pairs);
    }
}

/// The parameters of a round's download link ask for that round, in whichever
/// order the server hands them over.
pub proof fn lemma_link_asks_for_round(e: Seq<char>, r: usize)
    ensures
        round_query(seq![("eventid"@, e), ("round"@, decimal(r as nat))]) == Ok::<
            (Seq<char>, nat),
            QueryError,
        >((e, r as nat)),
        round_query(seq![("round"@, decimal(r as nat)), ("eventid"@, e)]) == Ok::<
            (Seq<char>, nat),
            QueryError,
        >((e, r as nat)),
{
    reveal_strlit("eventid");
    reveal_strlit("round");
    lemma_parse_decimal(r);
    let p1 = seq![("eventid"@, e), ("round"@, decimal(r as nat))];
    let p2 = seq![("round"@, decimal(r as nat)), ("eventid"@, e)];
    assert(p1.drop_last().drop_last() =~= Seq::<(Seq<char>, Seq<char>)>::empty());
    assert(p2.drop_last().drop_last() =~= Seq::<(Seq<char>, Seq<char>)>::empty());
    assert("round"@.len() == 5 && "eventid"@.len() == 7);
    assert("round"@ != "eventid"@);
    let q1 = p1.drop_last();
    let q2 = p2.drop_last();
    assert(q1.len() == 1 && q1.last() == ("eventid"@, e));
    assert(q2.len() == 1 && q2.last() == ("round"@, decimal(r as nat)));
    assert(round_query(q1.drop_last()) == Ok::<(Seq<char>, nat), QueryError>((Seq::empty(), 0)));
    assert(round_query(q2.drop_last()) == Ok::<(Seq<char>, nat), QueryError>((Seq::empty(), 0)));
    assert(round_query(p1.drop_last()) == Ok::<(Seq<char>, nat), QueryError>((e, 0)));
    assert(round_query(p2.drop_last()) == Ok::<(Seq<char>, nat), QueryError>((Seq::empty(), r as nat)));
}

/// The query parameters by their views.
pub open spec fn pairs_view(pairs: Seq<(String, String)>) -> Seq<(Seq<char>, Seq<char>)> {
    pairs.map_values(|p: (String, String)| (p.0@, p.1@))
}

/// The event id and round number that a round request asks for, or why its
/// parameters are refused.
pub fn try_parse_round_query(pairs: &Vec<(String, String)>) -> (r: Result<
    (String, usize),
    QueryError,
>)
    ensures
        match r {
            Ok((e, n)) => round_query(pairs_view(pairs@)) == Ok::<(Seq<char>, nat), QueryError>(
                (e@, n as nat),
            ),
            Err(err) => round_query(pairs_view(pairs@)) == Err::<(Seq<char>, nat), QueryError>(
                err,
            ),
        },
{
    let ghost pv = pairs_view(pairs@);
    let mut event = String::new();
    let mut round: usize = 0;
    let mut i: usize = 0;
    while i < pairs.len()
        invariant
            i <= pairs@.len(),
            pv == pairs_view(pairs@),
            round_query(pv.take(i as int)) == Ok::<(Seq<char>, nat), QueryError>(
                (event@, round as nat),
            ),
        decreases pairs.len() - i,
    {
        assert(pv.take(i + 1).drop_last() == pv.take(i as int));
        let (k, v) = (&pairs[i].0, &pairs[i].1);
        if same_text(k.as_str(), "eventid") {
            event = v.clone();
        } else if same_text(k.as_str(), "round") {
            let cs = chars_of(v.as_str());
            match parse_usize(cs.as_slice()) {
                Some(n) => {
                    round = n;
                },
                None => {
                    proof {
                        lemma_refusal_stays(pv, i + 1);
                    }
                    return Err(QueryError::BadRound);
                },
            }
        } else {
            proof {
                lemma_refusal_stays(pv, i + 1);
            }
            return Err(QueryError::UnknownParameter);
        }
        i = i + 1;
    }
    assert(pv.take(i as int) == pv);
    Ok((event, round))
}

/// The event id and round number that a round request asks for; every
/// parameter is `eventid` or `round`, and every round a number.
pub fn parse_round_query(pairs: &Vec<(String, String)>) -> (r: (String, usize))
    requires
        round_query(pairs_view(pairs@)) is Ok,
    ensures
        round_query(pairs_view(pairs@)) == Ok::<(Seq<char>, nat), QueryError>(
            (r.0@, r.1 as nat),
        ),
{
    match try_parse_round_query(pairs) {
        Ok(v) => v,
        Err(_) => vstd::pervasive::unreached(),
    }
}

} // verus!
