//! What a command-line client makes of the store's replies.

use vstd::prelude::*;
use vstd::string::*;

use crate::error::Error;
use crate::json::{lemma_all_wf, lemma_views, parsed_json, print_raw, raw_text, views, Json, JsonView};
use crate::rpc::{opt_string, Operation};
use crate::service::lemma_verb_replies_distinct;
use crate::text::same;

verus! {

/// The JSON text that a reply to `get` or `range` carries: the payload of
/// `found`. `none` means the path names nothing; anything else is malformed.
pub fn found_data(rsp: &Operation) -> (r: Result<String, Error>)
    ensures
        rsp.verb() == "found"@ ==> match rsp.payload() {
            Some(d) => r matches Ok(s) && s@ == d,
            None => r == Err::<String, Error>(Error::Malformed),
        },
        rsp.verb() == "none"@ ==> r == Err::<String, Error>(Error::NotFound),
        rsp.verb() != "found"@ && rsp.verb() != "none"@ ==> r == Err::<String, Error>(
            Error::Malformed,
        ),
{
    proof {
        lemma_verb_replies_distinct();
    }
    if same(rsp.name(), "none") {
        Err(Error::NotFound)
    } else if same(rsp.name(), "found") {
        match rsp.data() {
            Some(d) => Ok(d.clone()),
            None => Err(Error::Malformed),
        }
    } else {
        Err(Error::Malformed)
    }
}

/// The outcome of a `set`: `ok` is success, `error` is a failure reported by
/// the store with its message, anything else is unexpected.
pub fn set_outcome(rsp: &Operation) -> (r: Result<(), Error>)
    ensures
        rsp.verb() == "ok"@ ==> r is Ok,
        rsp.verb() == "error"@ ==> (r matches Err(Error::RemoteError(m)) && opt_string(m)
            == rsp.payload()),
        rsp.verb() != "ok"@ && rsp.verb() != "error"@ ==> r == Err::<(), Error>(
            Error::Unexpected,
        ),
{
    proof {
        lemma_verb_replies_distinct();
    }
    if same(rsp.name(), "ok") {
        Ok(())
    } else if same(rsp.name(), "error") {
        let msg = match rsp.data() {
            Some(d) => Some(d.clone()),
            None => None,
        };
        Err(Error::RemoteError(msg))
    } else {
        Err(Error::Unexpected)
    }
}

/// A JSON text for a person to read: a scalar bare, anything else as JSON.
pub fn raw_value(data: &str) -> (r: Result<String, Error>)
    ensures
        match parsed_json(data@) {
            Some(v) => r matches Ok(s) && s@ == raw_text(v),
            None => r == Err::<String, Error>(Error::SerdeError),
        },
{
    match Json::parse(data) {
        Ok(v) => Ok(print_raw(&v)),
        Err(e) => Err(e),
    }
}

/// The lines that listing a range prints: each child of the JSON array
/// read for a person. Anything but an array is malformed.
pub fn range_lines(data: &str) -> (r: Result<Vec<String>, Error>)
    ensures
        match parsed_json(data@) {
            Some(JsonView::Array(a)) => r matches Ok(lines) && lines@.len() == a.len() && forall|
                i: int,
            |
                0 <= i < a.len() ==> #[trigger] lines@[i]@ == raw_text(a[i]),
            Some(_) => r == Err::<Vec<String>, Error>(Error::Malformed),
            None => r == Err::<Vec<String>, Error>(Error::SerdeError),
        },
{
    let v = match Json::parse(data) {
        Ok(v) => v,
        Err(e) => return Err(e),
    };
    match &v {
        Json::Array(a) => {
            proof {
                lemma_views(a@);
                lemma_all_wf(views(a@));
            }
            let mut lines: Vec<String> = Vec::new();
            let mut i: usize = 0;
            while i < a.len()
                invariant
                    i <= a@.len(),
                    lines@.len() == i,
                    views(a@).len() == a@.len(),
                    forall|j: int| 0 <= j < a@.len() ==> #[trigger] views(a@)[j] == a@[j]@,
                    forall|j: int| 0 <= j < a@.len() ==> #[trigger] views(a@)[j].wf(),
                    forall|j: int| 0 <= j < i ==> #[trigger] lines@[j]@ == raw_text(views(a@)[j]),
                decreases a@.len() - i,
            {
                assert(views(a@)[i as int].wf());
                lines.push(print_raw(&a[i]));
                i = i + 1;
            }
            Ok(lines)
        },
        _ => Err(Error::Malformed),
    }
}

} // verus!
