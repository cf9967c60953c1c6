//! What is asked of the WCA website, and which of its answers are accepted.
use vstd::prelude::*;

use crate::text::{push_str, string_from};

verus! {

/// The address of a competition's WCIF document.
pub open spec fn wcif_address(id: Seq<char>) -> Seq<char> {
    "https://www.worldcubeassociation.org/api/v0/competitions/"@ + id + "/wcif"@
}

/// The address of competition `id`'s WCIF document.
pub fn wcif_url(id: &str) -> (url: String)
    ensures
        url@ == wcif_address(id@),
{
    let mut url = string_from("https://www.worldcubeassociation.org/api/v0/competitions/");
    push_str(&mut url, id);
    push_str(&mut url, "/wcif");
    assert(url@ =~= wcif_address(id@));
    url
}

/// The length of a text in UTF-8 bytes, as `str::len` gives it.
pub open spec fn byte_len(s: Seq<char>) -> usize {
    vstd::utf8::encode_utf8(s).len() as usize
}

/// The longest answer, in UTF-8 bytes, that is taken for an error rather than
/// a WCIF document (the authorization must then be refreshed).
pub const ERROR_ANSWER_BYTES: usize = 1000;

/// The WCIF document in the website's answer, if the answer is long enough to
/// be one.
pub fn accept_wcif(response: String) -> (r: Option<String>)
    ensures
        r == if byte_len(response@) <= ERROR_ANSWER_BYTES {
            None::<String>
        } else {
            Some(response)
        },
{
    if response.as_str().len() <= ERROR_ANSWER_BYTES {
        None
    } else {
        Some(response)
    }
}

} // verus!
