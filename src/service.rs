//! The store engine: the document mapping, the operations on it, and the
//! decisions of the service loop and of its idle watchdog.

use vstd::prelude::*;
use vstd::string::*;

use crate::duration::Duration;
use crate::error::Error;
use crate::json::{
    index_number, json_text, lemma_all_wf, lemma_members_wf, lemma_member_views, lemma_put_wf,
    lemma_views, lemma_without, lemma_without_wf, lookup, member_index, member_put,
    member_remove, member_views, members_wf, number_of, parsed_json, put, sorted, views, without,
    Json, JsonView,
};
use crate::jsonpath::{
    apart, is_segment, lemma_next_of_join, lemma_set_keeps_apart, lemma_set_parent_ok,
    lemma_set_segment_ok, lemma_set_then_get, next_of, opt_text, plain_path, slot_ok,
    set_at, split_first, value_of, Path,
};
use crate::rpc::Operation;
use crate::text::same;

verus! {

/// The reading of a path against the mapping: its first segment picks the
/// entry, the rest resolves inside it.
pub open spec fn fetch_of(m: Seq<(Seq<char>, JsonView)>, path: Seq<char>) -> Result<
    JsonView,
    Error,
> {
    match next_of(path).0 {
        None => Err(Error::Malformed),
        Some(k) => match lookup(m, k) {
            None => Err(Error::NotFound),
            Some(v) => match next_of(path).1 {
                None => Ok(v),
                Some(r) => match value_of(r, v) {
                    Some(w) => Ok(w),
                    None => Err(Error::NotFound),
                },
            },
        },
    }
}

/// The mapping after writing `x` under `key`, at `rest` inside its value if
/// given. A nested write needs the entry to exist.
pub open spec fn write_of(
    m: Seq<(Seq<char>, JsonView)>,
    key: Seq<char>,
    rest: Option<Seq<char>>,
    x: JsonView,
) -> Result<Seq<(Seq<char>, JsonView)>, Error> {
    match rest {
        None => Ok(put(m, key, x)),
        Some(r) => match lookup(m, key) {
            None => Err(Error::NotFound),
            Some(v) => match set_at(v, r, x) {
                Ok(w) => Ok(put(m, key, w)),
                Err(e) => Err(e),
            },
        },
    }
}

/// The mapping after setting `x` at a full path.
pub open spec fn set_of(m: Seq<(Seq<char>, JsonView)>, path: Seq<char>, x: JsonView) -> Result<
    Seq<(Seq<char>, JsonView)>,
    Error,
> {
    match next_of(path).0 {
        None => Err(Error::Malformed),
        Some(k) => write_of(m, k, next_of(path).1, x),
    }
}

/// The mapping after deleting the entry that the path's first segment names.
pub open spec fn delete_of(m: Seq<(Seq<char>, JsonView)>, path: Seq<char>) -> Seq<
    (Seq<char>, JsonView),
> {
    match next_of(path).0 {
        Some(k) => without(m, k),
        None => m,
    }
}

/// The addressable children of a composite value: the indices of an array,
/// the member names of an object.
pub open spec fn range_of(v: JsonView) -> Option<JsonView> {
    match v {
        JsonView::Array(a) => Some(
            JsonView::Array(Seq::new(a.len(), |i: int| JsonView::Number(number_of(i as u64)))),
        ),
        JsonView::Object(m) => Some(JsonView::Array(Seq::new(m.len(), |i: int| JsonView::Str(m[i].0)))),
        _ => None,
    }
}

/// A reply, as a verb with its argument and payload.
pub enum Reply {
    /// `found <path>` with the JSON text.
    Found(Seq<char>, Seq<char>),
    /// `none <path>`.
    Missing(Seq<char>),
    /// `ok`.
    Done,
    /// `error` with a message.
    Failed(Seq<char>),
}

/// Whether an operation is the reply described.
pub open spec fn says(op: Operation, a: Reply) -> bool {
    match a {
        Reply::Found(p, d) => op.verb() == "found"@ && op.arguments() == seq![p] && op.payload()
            == Some(d),
        Reply::Missing(p) => op.verb() == "none"@ && op.arguments() == seq![p] && op.payload()
            is None,
        Reply::Done => op.verb() == "ok"@ && op.arguments().len() == 0 && op.payload() is None,
        Reply::Failed(msg) => op.verb() == "error"@ && op.arguments().len() == 0 && op.payload()
            == Some(msg),
    }
}

/// The reply to `get <path>`.
pub open spec fn get_reply(m: Seq<(Seq<char>, JsonView)>, path: Seq<char>) -> Result<
    Reply,
    Error,
> {
    match fetch_of(m, path) {
        Ok(v) => Ok(Reply::Found(path, json_text(v))),
        Err(Error::NotFound) => Ok(Reply::Missing(path)),
        Err(e) => Err(e),
    }
}

/// The reply to `range <path>`.
pub open spec fn range_reply(m: Seq<(Seq<char>, JsonView)>, path: Seq<char>) -> Result<
    Reply,
    Error,
> {
    match fetch_of(m, path) {
        Ok(v) => match range_of(v) {
            Some(r) => Ok(Reply::Found(path, json_text(r))),
            None => Ok(Reply::Missing(path)),
        },
        Err(Error::NotFound) => Ok(Reply::Missing(path)),
        Err(e) => Err(e),
    }
}

/// The value that a `set` carries: its payload read as JSON, or `null`
/// when it has none.
pub open spec fn set_value_of(op: Operation) -> Option<JsonView> {
    match op.payload() {
        Some(d) => parsed_json(d),
        None => Some(JsonView::Null),
    }
}

/// What the service loop does after one request.
#[derive(Debug)]
pub enum Action {
    /// Send the reply, then take the next request.
    Reply(Operation),
    /// Send the reply, then shut down.
    ReplyAndStop(Operation),
    /// Send nothing: the request failed, and the error is for the log.
    Drop(Error),
}

/// The document mapping: each key once, in ascending key order.
// A sorted `Vec` rather than a `BTreeMap`: vstd's specification of
// `BTreeMap` with `String` keys gives no usable order of its keys, and the
// order is what ranges and the laws below are proved from.
pub struct Store {
    entries: Vec<(String, Json)>,
}

impl Store {
    pub closed spec fn members(&self) -> Seq<(Seq<char>, JsonView)> {
        member_views(self.entries@)
    }

    pub open spec fn wf(&self) -> bool {
        sorted(self.members()) && members_wf(self.members())
    }

    pub fn new() -> (r: Store)
        ensures
            r.members().len() == 0,
            r.wf(),
    {
        let r = Store { entries: Vec::new() };
        proof {
            lemma_member_views(r.entries@);
            lemma_members_wf(r.members());
        }
        r
    }

    /// The number of entries.
    pub fn len(&self) -> (r: usize)
        ensures
            r == self.members().len(),
    {
        proof {
            lemma_member_views(self.entries@);
        }
        self.entries.len()
    }

    /// The value a path names: the entry its first segment names, and inside
    /// it the value the rest of the path names.
    pub fn fetch(&self, path: &str) -> (r: Result<&Json, Error>)
        ensures
            match r {
                Ok(v) => fetch_of(self.members(), path@) == Ok::<JsonView, Error>(v@),
                Err(e) => fetch_of(self.members(), path@) == Err::<JsonView, Error>(e),
            },
    {
        proof {
            lemma_member_views(self.entries@);
        }
        let (key, rest) = split_first(path);
        let key = match key {
            Some(key) => key,
            None => return Err(Error::Malformed),
        };
        let i = member_index(&self.entries, key);
        if i >= self.entries.len() {
            return Err(Error::NotFound);
        }
        let data = &self.entries[i].1;
        match rest {
            None => Ok(data),
            Some(r) => match Path::new(r).value(data) {
                Some(v) => Ok(v),
                None => Err(Error::NotFound),
            },
        }
    }

    /// Writes `val` under `key`, or at `path` inside the value under `key`.
    /// A nested write needs `key` to exist and works on a copy: on failure
    /// the mapping is as it was.
    pub fn write(&mut self, key: &str, path: Option<&str>, val: Json) -> (r: Result<(), Error>)
        requires
            old(self).wf(),
            val@.wf(),
        ensures
            final(self).wf(),
            match r {
                Ok(_) => write_of(old(self).members(), key@, opt_text(path), val@) == Ok::<
                    Seq<(Seq<char>, JsonView)>,
                    Error,
                >(final(self).members()),
                Err(e) => write_of(old(self).members(), key@, opt_text(path), val@) == Err::<
                    Seq<(Seq<char>, JsonView)>,
                    Error,
                >(e) && final(self).members() == old(self).members(),
            },
    {
        proof {
            lemma_member_views(self.entries@);
        }
        match path {
            None => {
                proof {
                    lemma_put_wf(self.members(), key@, val@);
                }
                member_put(&mut self.entries, key.to_owned(), val);
                Ok(())
            },
            Some(p) => {
                let i = member_index(&self.entries, key);
                if i >= self.entries.len() {
                    return Err(Error::NotFound);
                }
                proof {
                    lemma_members_wf(self.members());
                    assert(self.members()[i as int].1.wf());
                }
                match Path::new(p).insert_value(&self.entries[i].1, &val) {
                    Ok(updated) => {
                        proof {
                            lemma_put_wf(self.members(), key@, updated@);
                        }
                        member_put(&mut self.entries, key.to_owned(), updated);
                        Ok(())
                    },
                    Err(e) => Err(e),
                }
            },
        }
    }

    /// Removes the entry under `key`, if there is one.
    pub fn remove(&mut self, key: &str)
        requires
            old(self).wf(),
        ensures
            final(self).wf(),
            final(self).members() == without(old(self).members(), key@),
    {
        proof {
            lemma_without_wf(self.members(), key@);
        }
        member_remove(&mut self.entries, key);
    }

    /// `get <path>`: `found` with the JSON text of the value, or `none`.
    pub fn run_get(&self, op: &Operation) -> (r: Result<Operation, Error>)
        requires
            self.wf(),
        ensures
            op.arguments().len() != 1 ==> r == Err::<Operation, Error>(Error::Malformed),
            op.arguments().len() == 1 ==> match get_reply(self.members(), op.arguments()[0]) {
                Ok(a) => r matches Ok(rep) && says(rep, a),
                Err(e) => r == Err::<Operation, Error>(e),
            },
    {
        let args = op.args();
        if args.len() != 1 {
            return Err(Error::Malformed);
        }
        let name = args[0].as_str();
        assert(name@ == op.arguments()[0]);
        match self.fetch(name) {
            Ok(data) => {
                proof {
                    self.lemma_fetch_wf(name@);
                }
                let text = data.to_json();
                Ok(Operation::new_found(name, text.as_str()))
            },
            Err(Error::NotFound) => Ok(Operation::new_none(name)),
            Err(e) => Err(e),
        }
    }

    /// What a path names in a well-formed mapping is well formed.
    pub proof fn lemma_fetch_wf(&self, path: Seq<char>)
        requires
            self.wf(),
        ensures
            fetch_of(self.members(), path) matches Ok(v) ==> v.wf(),
    {
        let m = self.members();
        lemma_members_wf(m);
        if let Some(k) = next_of(path).0 {
            crate::json::lemma_key_from(m, k, 0);
            if let Some(v) = lookup(m, k) {
                assert(v.wf());
                if let Some(r) = next_of(path).1 {
                    crate::jsonpath::lemma_find_wf(r, v);
                }
            }
        }
    }

    /// `range <path>`: `found` with the indices of an array or the member
    /// names of an object, as a JSON array; `none` otherwise.
    pub fn run_range(&self, op: &Operation) -> (r: Result<Operation, Error>)
        requires
            self.wf(),
        ensures
            op.arguments().len() != 1 ==> r == Err::<Operation, Error>(Error::Malformed),
            op.arguments().len() == 1 ==> match range_reply(self.members(), op.arguments()[0]) {
                Ok(a) => r matches Ok(rep) && says(rep, a),
                Err(e) => r == Err::<Operation, Error>(e),
            },
    {
        let args = op.args();
        if args.len() != 1 {
            return Err(Error::Malformed);
        }
        let name = args[0].as_str();
        assert(name@ == op.arguments()[0]);
        let data = match self.fetch(name) {
            Ok(data) => data,
            Err(Error::NotFound) => return Ok(Operation::new_none(name)),
            Err(e) => return Err(e),
        };
        proof {
            self.lemma_fetch_wf(name@);
        }
        match children(data) {
            Some(range) => {
                let text = range.to_json();
                Ok(Operation::new_found(name, text.as_str()))
            },
            None => Ok(Operation::new_none(name)),
        }
    }

    /// `set <path>` with a JSON payload: writes the value and replies `ok`,
    /// or replies `error` with the reason and leaves the mapping as it was.
    /// A payload that is not JSON, or a wrong number of arguments, fails
    /// with no reply.
    pub fn run_set(&mut self, op: &Operation) -> (r: Result<Operation, Error>)
        requires
            old(self).wf(),
        ensures
            final(self).wf(),
            op.arguments().len() != 1 ==> r == Err::<Operation, Error>(Error::Malformed)
                && final(self).members() == old(self).members(),
            op.arguments().len() == 1 && set_value_of(*op) is None ==> r == Err::<
                Operation,
                Error,
            >(Error::SerdeError) && final(self).members() == old(self).members(),
            op.arguments().len() == 1 ==> (set_value_of(*op) matches Some(x) ==> match set_of(
                old(self).members(),
                op.arguments()[0],
                x,
            ) {
                Ok(m2) => final(self).members() == m2 && (r matches Ok(rep) && says(
                    rep,
                    Reply::Done,
                )),
                Err(e) => final(self).members() == old(self).members() && (r matches Ok(rep)
                    && says(rep, Reply::Failed(e.text()))),
            }),
    {
        let args = op.args();
        if args.len() != 1 {
            return Err(Error::Malformed);
        }
        let data = match op.data() {
            Some(d) => match Json::parse(d.as_str()) {
                Ok(v) => v,
                Err(e) => return Err(e),
            },
            None => Json::Null,
        };
        let name = args[0].as_str();
        assert(name@ == op.arguments()[0]);
        let res = match split_first(name) {
            (Some(key), rest) => self.write(key, rest, data),
            _ => Err(Error::Malformed),
        };
        match res {
            Ok(_) => Ok(Operation::new_ok()),
            Err(e) => {
                let msg = e.message();
                Ok(Operation::new_error(msg.as_str()))
            },
        }
    }

    /// `delete <path>`: removes the entry that the first segment names, if
    /// any, and replies `ok`.
    pub fn run_delete(&mut self, op: &Operation) -> (r: Result<Operation, Error>)
        requires
            old(self).wf(),
        ensures
            final(self).wf(),
            op.arguments().len() != 1 ==> r == Err::<Operation, Error>(Error::Malformed)
                && final(self).members() == old(self).members(),
            op.arguments().len() == 1 ==> final(self).members() == delete_of(
                old(self).members(),
                op.arguments()[0],
            ) && (r matches Ok(rep) && says(rep, Reply::Done)),
    {
        let args = op.args();
        if args.len() != 1 {
            return Err(Error::Malformed);
        }
        let name = args[0].as_str();
        assert(name@ == op.arguments()[0]);
        match split_first(name) {
            (Some(key), _) => self.remove(key),
            _ => {},
        }
        Ok(Operation::new_ok())
    }

    /// Applies one request and says what the loop does next. Replies go
    /// back for every verb: one that the store does not know gets `error`.
    /// With `finalize`, a `delete` that leaves the mapping empty ends the
    /// service, as `stop` does.
    pub fn handle(&mut self, op: &Operation, finalize: bool) -> (r: Action)
        requires
            old(self).wf(),
        ensures
            final(self).wf(),
            op.verb() == "get"@ ==> final(self).members() == old(self).members() && match r {
                Action::Reply(rep) => old(self).run_get_spec(*op, rep),
                Action::Drop(e) => old(self).run_get_fails(*op, e),
                Action::ReplyAndStop(_) => false,
            },
            op.verb() == "range"@ ==> final(self).members() == old(self).members() && match r {
                Action::Reply(rep) => old(self).run_range_spec(*op, rep),
                Action::Drop(e) => old(self).run_range_fails(*op, e),
                Action::ReplyAndStop(_) => false,
            },
            op.verb() == "delete"@ ==> match r {
                Action::Reply(rep) => op.arguments().len() == 1 && final(self).members()
                    == delete_of(old(self).members(), op.arguments()[0]) && says(rep, Reply::Done)
                    && !(finalize && final(self).members().len() == 0),
                Action::ReplyAndStop(rep) => op.arguments().len() == 1 && final(self).members()
                    == delete_of(old(self).members(), op.arguments()[0]) && says(rep, Reply::Done)
                    && finalize && final(self).members().len() == 0,
                Action::Drop(e) => op.arguments().len() != 1 && e == Error::Malformed
                    && final(self).members() == old(self).members(),
            },
            op.verb() == "stop"@ ==> final(self).members() == old(self).members() && (r matches Action::ReplyAndStop(rep) && says(rep, Reply::Done)),
            !(op.verb() == "get"@ || op.verb() == "range"@ || op.verb() == "set"@ || op.verb()
                == "delete"@ || op.verb() == "stop"@) ==> final(self).members() == old(self).members()
                && (r matches Action::Reply(rep) && says(rep, Reply::Failed(Error::Unexpected.text()))),
            op.verb() == "set"@ ==> match r {
                Action::Reply(rep) => op.arguments().len() == 1 && (set_value_of(*op) matches Some(
                    x,
                ) && match set_of(old(self).members(), op.arguments()[0], x) {
                    Ok(m2) => final(self).members() == m2 && says(rep, Reply::Done),
                    Err(e) => final(self).members() == old(self).members() && says(
                        rep,
                        Reply::Failed(e.text()),
                    ),
                }),
                Action::Drop(e) => final(self).members() == old(self).members() && ((
                op.arguments().len() != 1 && e == Error::Malformed) || (op.arguments().len() == 1
                    && set_value_of(*op) is None && e == Error::SerdeError)),
                Action::ReplyAndStop(_) => false,
            },
    {
        let verb = op.name();
        proof {
            lemma_verbs_distinct();
        }
        if same(verb, "get") {
            match self.run_get(op) {
                Ok(rep) => Action::Reply(rep),
                Err(e) => Action::Drop(e),
            }
        } else if same(verb, "range") {
            match self.run_range(op) {
                Ok(rep) => Action::Reply(rep),
                Err(e) => Action::Drop(e),
            }
        } else if same(verb, "set") {
            match self.run_set(op) {
                Ok(rep) => Action::Reply(rep),
                Err(e) => Action::Drop(e),
            }
        } else if same(verb, "delete") {
            match self.run_delete(op) {
                Ok(rep) => if finalize && self.len() == 0 {
                    Action::ReplyAndStop(rep)
                } else {
                    Action::Reply(rep)
                },
                Err(e) => Action::Drop(e),
            }
        } else if same(verb, "stop") {
            Action::ReplyAndStop(run_stop(op))
        } else {
            let msg = Error::Unexpected.message();
            Action::Reply(Operation::new_error(msg.as_str()))
        }
    }

    /// The reply of `get`, as `run_get` gives it.
    pub open spec fn run_get_spec(&self, op: Operation, rep: Operation) -> bool {
        op.arguments().len() == 1 && (get_reply(self.members(), op.arguments()[0]) matches Ok(a)
            && says(rep, a))
    }

    /// The failure of `get`, as `run_get` gives it.
    pub open spec fn run_get_fails(&self, op: Operation, e: Error) -> bool {
        if op.arguments().len() != 1 {
            e == Error::Malformed
        } else {
            get_reply(self.members(), op.arguments()[0]) == Err::<Reply, Error>(e)
        }
    }

    /// The reply of `range`, as `run_range` gives it.
    pub open spec fn run_range_spec(&self, op: Operation, rep: Operation) -> bool {
        op.arguments().len() == 1 && (range_reply(self.members(), op.arguments()[0]) matches Ok(
            a,
        ) && says(rep, a))
    }

    /// The failure of `range`, as `run_range` gives it.
    pub open spec fn run_range_fails(&self, op: Operation, e: Error) -> bool {
        if op.arguments().len() != 1 {
            e == Error::Malformed
        } else {
            range_reply(self.members(), op.arguments()[0]) == Err::<Reply, Error>(e)
        }
    }
}

/// The request verbs differ from each other.
proof fn lemma_verbs_distinct()
    ensures
        "get"@ != "range"@,
        "get"@ != "set"@,
        "get"@ != "delete"@,
        "get"@ != "stop"@,
        "range"@ != "set"@,
        "range"@ != "delete"@,
        "range"@ != "stop"@,
        "set"@ != "delete"@,
        "set"@ != "stop"@,
        "delete"@ != "stop"@,
{
    reveal_strlit("get");
    reveal_strlit("range");
    reveal_strlit("set");
    reveal_strlit("delete");
    reveal_strlit("stop");
    assert("get"@[0] != "set"@[0]);
    assert("get"@.len() != "range"@.len());
    assert("get"@.len() != "delete"@.len());
    assert("get"@.len() != "stop"@.len());
    assert("range"@.len() != "set"@.len());
    assert("range"@.len() != "delete"@.len());
    assert("range"@.len() != "stop"@.len());
    assert("set"@.len() != "delete"@.len());
    assert("set"@.len() != "stop"@.len());
    assert("delete"@.len() != "stop"@.len());
}

/// The reply verbs differ from each other.
pub proof fn lemma_verb_replies_distinct()
    ensures
        "found"@ != "none"@,
        "ok"@ != "error"@,
{
    reveal_strlit("found");
    reveal_strlit("none");
    reveal_strlit("ok");
    reveal_strlit("error");
    assert("found"@.len() != "none"@.len());
    assert("ok"@.len() != "error"@.len());
}

/// `stop`: the reply is `ok`; the service shuts down after sending it.
pub fn run_stop(op: &Operation) -> (r: Operation)
    ensures
        says(r, Reply::Done),
{
    Operation::new_ok()
}

/// The indices of an array or the member names of an object, as a JSON
/// array.
fn children(v: &Json) -> (r: Option<Json>)
    requires
        v@.wf(),
    ensures
        match r {
            Some(c) => range_of(v@) == Some(c@) && c@.wf(),
            None => range_of(v@) is None,
        },
{
    match v {
        Json::Array(a) => {
            let mut out: Vec<Json> = Vec::new();
            let mut i: usize = 0;
            while i < a.len()
                invariant
                    i <= a@.len(),
                    out@.len() == i,
                    forall|j: int| 0 <= j < i ==> #[trigger] out@[j]@ == JsonView::Number(number_of(j as u64)),
                decreases a@.len() - i,
            {
                out.push(Json::Number(index_number(i as u64)));
                i = i + 1;
            }
            proof {
                lemma_views(out@);
                lemma_views(a@);
                let want = Seq::new(a@.len(), |j: int| JsonView::Number(number_of(j as u64)));
                assert(views(out@) =~= want);
                lemma_all_wf(want);
            }
            Some(Json::Array(out))
        },
        Json::Object(m) => {
            let mut out: Vec<Json> = Vec::new();
            let mut i: usize = 0;
            proof {
                lemma_member_views(m@);
            }
            while i < m.len()
                invariant
                    i <= m@.len(),
                    out@.len() == i,
                    forall|j: int| 0 <= j < i ==> #[trigger] out@[j]@ == JsonView::Str(m@[j].0@),
                decreases m@.len() - i,
            {
                out.push(Json::String(m[i].0.clone()));
                i = i + 1;
            }
            proof {
                lemma_views(out@);
                let mv = member_views(m@);
                let want = Seq::new(mv.len(), |j: int| JsonView::Str(mv[j].0));
                assert(views(out@) =~= want);
                lemma_all_wf(want);
            }
            Some(Json::Array(out))
        },
        _ => None,
    }
}

/// A value set under a key is what reading the key gives back.
pub proof fn set_then_get(m: Seq<(Seq<char>, JsonView)>, k: Seq<char>, x: JsonView)
    requires
        sorted(m),
        members_wf(m),
        x.wf(),
        next_of(k) == (Some(k), None::<Seq<char>>),
    ensures
        set_of(m, k, x) == Ok::<Seq<(Seq<char>, JsonView)>, Error>(put(m, k, x)),
        fetch_of(put(m, k, x), k) == Ok::<JsonView, Error>(x),
        get_reply(put(m, k, x), k) == Ok::<Reply, Error>(Reply::Found(k, json_text(x))),
{
    crate::json::lemma_put(m, k, x);
}

/// After deleting a path, reading it finds nothing, whether or not its key
/// was there.
pub proof fn delete_then_get(m: Seq<(Seq<char>, JsonView)>, path: Seq<char>)
    requires
        sorted(m),
        path.len() > 0,
    ensures
        fetch_of(delete_of(m, path), path) == Err::<JsonView, Error>(Error::NotFound),
        get_reply(delete_of(m, path), path) == Ok::<Reply, Error>(Reply::Missing(path)),
{
    crate::jsonpath::lemma_next_of(path);
    lemma_without(m, next_of(path).0->Some_0);
}

/// Setting a path inside the value under a key, then reading that path,
/// gives the value that was set.
pub proof fn nested_set_then_get(m: Seq<(Seq<char>, JsonView)>, path: Seq<char>, x: JsonView)
    requires
        sorted(m),
        members_wf(m),
        x.wf(),
        set_of(m, path, x) is Ok,
    ensures
        fetch_of(set_of(m, path, x)->Ok_0, path) == Ok::<JsonView, Error>(x),
{
    let k = next_of(path).0->Some_0;
    match next_of(path).1 {
        None => {
            crate::json::lemma_put(m, k, x);
        },
        Some(r) => {
            let v = lookup(m, k)->Some_0;
            crate::json::lemma_key_from(m, k, 0);
            lemma_members_wf(m);
            assert(v.wf());
            lemma_set_then_get(v, r, x);
            crate::json::lemma_put(m, k, set_at(v, r, x)->Ok_0);
        },
    }
}

/// A set at `k.b`, with `b` one segment, succeeds exactly when `k` exists and
/// its value has a slot named `b`; the value then reads back.
pub proof fn nested_set_at_top(
    m: Seq<(Seq<char>, JsonView)>,
    k: Seq<char>,
    b: Seq<char>,
    x: JsonView,
)
    requires
        sorted(m),
        members_wf(m),
        x.wf(),
        is_segment(k),
        is_segment(b),
    ensures
        set_of(m, k + seq!['.'] + b, x) is Ok <==> (lookup(m, k) matches Some(v) && slot_ok(v, b)),
        set_of(m, k + seq!['.'] + b, x) is Ok ==> fetch_of(
            set_of(m, k + seq!['.'] + b, x)->Ok_0,
            k + seq!['.'] + b,
        ) == Ok::<JsonView, Error>(x),
{
    lemma_next_of_join(k, b);
    if let Some(v) = lookup(m, k) {
        lemma_set_segment_ok(v, b, x);
    }
    if set_of(m, k + seq!['.'] + b, x) is Ok {
        nested_set_then_get(m, k + seq!['.'] + b, x);
    }
}

/// A set at `k.a.b`, with `b` one segment, succeeds exactly when `k` exists
/// and its parent path `a` resolves inside it to a value with a slot named
/// `b`; the value then reads back.
pub proof fn nested_set_under_parent(
    m: Seq<(Seq<char>, JsonView)>,
    k: Seq<char>,
    a: Seq<char>,
    b: Seq<char>,
    x: JsonView,
)
    requires
        sorted(m),
        members_wf(m),
        x.wf(),
        is_segment(k),
        plain_path(a),
        is_segment(b),
    ensures
        set_of(m, k + seq!['.'] + (a + seq!['.'] + b), x) is Ok <==> (lookup(m, k) matches Some(v)
            && value_of(a, v) matches Some(w) && slot_ok(w, b)),
        set_of(m, k + seq!['.'] + (a + seq!['.'] + b), x) is Ok ==> fetch_of(
            set_of(m, k + seq!['.'] + (a + seq!['.'] + b), x)->Ok_0,
            k + seq!['.'] + (a + seq!['.'] + b),
        ) == Ok::<JsonView, Error>(x),
{
    lemma_next_of_join(k, a + seq!['.'] + b);
    if let Some(v) = lookup(m, k) {
        lemma_set_parent_ok(v, a, b, x);
    }
    if set_of(m, k + seq!['.'] + (a + seq!['.'] + b), x) is Ok {
        nested_set_then_get(m, k + seq!['.'] + (a + seq!['.'] + b), x);
    }
}

/// Setting a path inside the value under a key leaves what every path
/// apart from it under that key resolves to as it was.
pub proof fn nested_set_keeps_apart(
    m: Seq<(Seq<char>, JsonView)>,
    path: Seq<char>,
    q: Seq<char>,
    x: JsonView,
)
    requires
        sorted(m),
        members_wf(m),
        set_of(m, path, x) is Ok,
        next_of(path).1 is Some,
        next_of(q).0 == next_of(path).0,
        next_of(q).1 is Some,
        lookup(m, next_of(path).0->Some_0) matches Some(v) && apart(
            v,
            next_of(path).1->Some_0,
            next_of(q).1->Some_0,
        ),
    ensures
        fetch_of(set_of(m, path, x)->Ok_0, q) == fetch_of(m, q),
{
    let k = next_of(path).0->Some_0;
    let r = next_of(path).1->Some_0;
    let r2 = next_of(q).1->Some_0;
    let v = lookup(m, k)->Some_0;
    crate::json::lemma_key_from(m, k, 0);
    lemma_members_wf(m);
    assert(v.wf());
    lemma_set_keeps_apart(v, r, r2, x);
    crate::json::lemma_put(m, k, set_at(v, r, x)->Ok_0);
}

/// A nested set under a key that does not exist fails with `NotFound`.
pub proof fn nested_set_needs_key(m: Seq<(Seq<char>, JsonView)>, path: Seq<char>, x: JsonView)
    requires
        next_of(path).1 is Some,
        next_of(path).0 matches Some(k) && lookup(m, k) is None,
    ensures
        set_of(m, path, x) == Err::<Seq<(Seq<char>, JsonView)>, Error>(Error::NotFound),
{
}

/// The range of an array is its indices in order; that of an object is its
/// member names in ascending key order; a scalar has none.
pub proof fn range_lists_slots(v: JsonView)
    requires
        v.wf(),
    ensures
        v matches JsonView::Array(a) ==> range_of(v) == Some(
            JsonView::Array(Seq::new(a.len(), |i: int| JsonView::Number(number_of(i as u64)))),
        ),
        v matches JsonView::Object(m) ==> range_of(v) == Some(
            JsonView::Array(Seq::new(m.len(), |i: int| JsonView::Str(m[i].0))),
        ) && forall|i: int, j: int|
            0 <= i < j < m.len() ==> #[trigger] crate::text::key_lt(m[i].0, m[j].0),
        !(v is Array || v is Object) ==> range_of(v) is None,
{
}

/// In finalize mode, deleting the last key leaves the mapping empty, which
/// ends the service.
pub proof fn finalize_on_empty(m: Seq<(Seq<char>, JsonView)>, path: Seq<char>)
    requires
        sorted(m),
        m.len() == 1,
        next_of(path).0 == Some(m[0].0),
    ensures
        delete_of(m, path).len() == 0,
{
    crate::json::lemma_key_from(m, m[0].0, 0);
}

/// What ended a wait of the idle watchdog.
#[derive(Debug, PartialEq, Eq, Structural)]
pub enum Wake {
    /// A request was processed.
    Request,
    /// The wait ran its full length with no request.
    Elapsed,
    /// The store engine is gone.
    Closed,
}

/// What the idle watchdog does next.
#[derive(Debug, PartialEq, Eq, Structural)]
pub enum Watch {
    /// Wait this many seconds for the next request.
    Wait(u64),
    /// Remove the endpoint and end the process.
    Shutdown,
    /// End the watch and leave the process alone.
    Quit,
}

/// The idle watchdog: it shuts the service down when no request comes for
/// the configured time. Each request starts the wait anew.
#[derive(Debug, Clone, Copy)]
pub struct Watchdog {
    timeout: u64,
}

impl Watchdog {
    pub closed spec fn limit(&self) -> u64 {
        self.timeout
    }

    pub fn new(timeout: Duration) -> (r: Watchdog)
        ensures
            r.limit() == timeout.secs(),
    {
        Watchdog { timeout: timeout.duration() }
    }

    /// The first wait.
    pub fn start(&self) -> (r: Watch)
        ensures
            r == Watch::Wait(self.limit()),
    {
        Watch::Wait(self.timeout)
    }

    /// The step after a wait ended: a request starts a full wait again; a
    /// wait that ran out shuts the service down.
    pub fn on_wake(&self, w: Wake) -> (r: Watch)
        ensures
            w == Wake::Request ==> r == Watch::Wait(self.limit()),
            w == Wake::Elapsed ==> r == Watch::Shutdown,
            w == Wake::Closed ==> r == Watch::Quit,
    {
        match w {
            Wake::Request => Watch::Wait(self.timeout),
            Wake::Elapsed => Watch::Shutdown,
            Wake::Closed => Watch::Quit,
        }
    }
}

} // verus!
