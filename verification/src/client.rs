use vstd::prelude::*;

use vstd::string::{StrSliceExecFns, StringExecFns};

use crate::tvmaze::api::LinkEmbed;

verus! {

/// What a lookup query does next, decided from the response's status code
/// and its location header. The surrounding request loop performs the
/// action and feeds the next response back in.
#[derive(Debug, PartialEq)]
pub enum RedirectAction {
    /// Follow the redirect to this URL and await the payload there.
    Follow(String),
    /// A redirect status arrived without a location to follow.
    MissingLocationHeader,
    /// The looked-up show does not exist.
    ShowNotFound,
    /// Any other status the lookup protocol does not expect.
    UnexpectedResponse,
}

/// Decides the next step of a lookup from one response: a redirect status
/// is followed via its location header, a missing header and an absent
/// show are distinct errors, and every other status is unexpected.
pub fn redirect_decision(status: u16, location: Option<String>) -> (r: RedirectAction)
    ensures
        (status == 301 || status == 302) && location is Some ==> (r matches
            RedirectAction::Follow(u) && u@ == location.unwrap()@),
        (status == 301 || status == 302) && location is None ==> r
            == RedirectAction::MissingLocationHeader,
        status == 404 ==> r == RedirectAction::ShowNotFound,
        !(status == 301 || status == 302 || status == 404) ==> r
            == RedirectAction::UnexpectedResponse,
{
    if status == 301 || status == 302 {
        match location {
            Some(url) => RedirectAction::Follow(url),
            None => RedirectAction::MissingLocationHeader,
        }
    } else if status == 404 {
        RedirectAction::ShowNotFound
    } else {
        RedirectAction::UnexpectedResponse
    }
}

/// Assembles a request URL from the service base, a path, and an already
/// encoded query string.
pub fn request_url(path: &str, query: Option<String>) -> (r: String)
    ensures
        match query {
            Some(q) => r@ == "http://api.tvmaze.com"@ + path@ + "?"@ + q@,
            None => r@ == "http://api.tvmaze.com"@ + path@,
        },
{
    let mut url = String::from_str("http://api.tvmaze.com");
    url.append(path);
    match query {
        Some(q) => {
            url.append("?");
            url.append(q.as_str());
            url
        }
        None => url,
    }
}

/// The query pairs that an embed request contributes: a single embed uses
/// one key, several use the repeated-array key, one pair per resource.
pub fn embed_query_pairs(embed: &LinkEmbed) -> (r: Vec<(String, String)>)
    ensures
        match embed {
            LinkEmbed::Single(e) => r@.len() == 1 && r@[0].0@ == "embed"@ && r@[0].1@ == e@,
            LinkEmbed::Multiple(es) => r@.len() == es@.len() && (forall|i: int|
                0 <= i < es@.len() ==> (#[trigger] r@[i]).0@ == "embed[]"@ && r@[i].1@
                    == es@[i]@),
        },
{
    let mut out: Vec<(String, String)> = Vec::new();
    match embed {
        LinkEmbed::Single(e) => {
            out.push((String::from_str("embed"), String::from_str(e)));
            out
        }
        LinkEmbed::Multiple(es) => {
            let mut i: usize = 0;
            while i < es.len()
                invariant
                    i <= es@.len(),
                    out@.len() == i,
                    forall|j: int|
                        0 <= j < i ==> (#[trigger] out@[j]).0@ == "embed[]"@ && out@[j].1@
                            == es@[j]@,
                decreases es@.len() - i,
            {
                out.push((String::from_str("embed[]"), String::from_str(es[i])));
                i = i + 1;
            }
            out
        }
    }
}

} // verus!
