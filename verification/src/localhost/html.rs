//! The page that lists the rounds to print.
use vstd::prelude::*;

use crate::text::{decimal, push_decimal, push_str};

verus! {

/// The link that downloads the scorecards of round `r` of event `e` of
/// competition `id`.
pub open spec fn round_link(id: Seq<char>, e: Seq<char>, r: nat) -> Seq<char> {
    "<a href=round/?eventid="@ + e + "&round="@ + decimal(r) + " download="@ + id + e + decimal(r)
        + ".pdf>"@ + e + ", "@ + decimal(r) + "</a><br>"@
}

/// The links of the rounds, one after the other.
pub open spec fn round_links(id: Seq<char>, rounds: Seq<(Seq<char>, nat)>) -> Seq<char>
    decreases rounds.len(),
{
    if rounds.len() == 0 {
        Seq::empty()
    } else {
        round_links(id, rounds.drop_last()) + round_link(
            id,
            rounds.last().0,
            rounds.last().1,
        )
    }
}

/// The rounds as event ids (by their view) and numbers.
pub open spec fn rounds_view(rounds: Seq<(String, usize)>) -> Seq<(Seq<char>, nat)> {
    rounds.map_values(|p: (String, usize)| (p.0@, p.1 as nat))
}

/// The page body listing a download link for each round.
pub fn event_list_to_html(id: &str, rounds: Vec<(String, usize)>) -> (page: String)
    ensures
        page@ == round_links(id@, rounds_view(rounds@)),
{
    let ghost rv = rounds_view(rounds@);
    let mut page = String::new();
    let mut i: usize = 0;
    while i < rounds.len()
        invariant
            i <= rounds@.len(),
            rv == rounds_view(rounds@),
            page@ == round_links(id@, rv.take(i as int)),
        decreases rounds.len() - i,
    {
        assert(rv.take(i + 1).drop_last() == rv.take(i as int));
        let e = rounds[i].0.as_str();
        let r = rounds[i].1;
        let ghost start = page@;
        push_str(&mut page, "<a href=round/?eventid=");
        push_str(&mut page, e);
        push_str(&mut page, "&round=");
        push_decimal(&mut page, r);
        push_str(&mut page, " download=");
        push_str(&mut page, id);
        push_str(&mut page, e);
        push_decimal(&mut page, r);
        push_str(&mut page, ".pdf>");
        push_str(&mut page, e);
        push_str(&mut page, ", ");
        push_decimal(&mut page, r);
        push_str(&mut page, "</a><br>");
        assert(page@ =~= start + round_link(id@, e@, r as nat));
        i = i + 1;
    }
    assert(rv.take(i as int) == rv);
    page
}

} // verus!
