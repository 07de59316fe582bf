//! Operations, their framing as lines of text, requests with a reply
//! channel, and the endpoint that the service listens on.

use vstd::prelude::*;
use vstd::string::*;

use crate::error::Error;
use crate::jsonpath::opt_text;
use crate::text::{same, split_char, split_on, trim, trimmed};

verus! {

pub const CMD_SET: &'static str = "set";

pub const CMD_GET: &'static str = "get";

pub const CMD_RANGE: &'static str = "range";

pub const CMD_FOUND: &'static str = "found";

pub const CMD_NONE: &'static str = "none";

pub const CMD_DELETE: &'static str = "delete";

pub const CMD_SHUTDOWN: &'static str = "stop";

pub const CMD_OK: &'static str = "ok";

pub const CMD_ERROR: &'static str = "error";

/// The view of an optional owned string.
pub open spec fn opt_string(o: Option<String>) -> Option<Seq<char>> {
    match o {
        Some(s) => Some(s@),
        None => None,
    }
}

/// The views of a sequence of strings.
pub open spec fn texts(s: Seq<String>) -> Seq<Seq<char>> {
    Seq::new(s.len(), |i: int| s[i]@)
}

/// A verb, its arguments, and a payload for the verbs that carry one.
#[derive(Debug, PartialEq)]
pub struct Operation {
    name: String,
    args: Vec<String>,
    data: Option<String>,
}

impl Operation {
    pub closed spec fn verb(&self) -> Seq<char> {
        self.name@
    }

    pub closed spec fn arguments(&self) -> Seq<Seq<char>> {
        texts(self.args@)
    }

    pub closed spec fn payload(&self) -> Option<Seq<char>> {
        opt_string(self.data)
    }

    pub fn new(name: &str, args: &[&str], data: Option<&str>) -> (r: Operation)
        ensures
            r.verb() == name@,
            r.arguments() == Seq::new(args@.len(), |i: int| args@[i]@),
            r.payload() == opt_text(data),
    {
        let mut v: Vec<String> = Vec::new();
        let mut i: usize = 0;
        while i < args.len()
            invariant
                i <= args@.len(),
                v@.len() == i,
                forall|j: int| 0 <= j < i ==> #[trigger] v@[j]@ == args@[j]@,
            decreases args@.len() - i,
        {
            v.push(args[i].to_owned());
            i = i + 1;
        }
        let data = match data {
            Some(d) => Some(d.to_owned()),
            None => None,
        };
        let r = Operation { name: name.to_owned(), args: v, data };
        assert(r.arguments() =~= Seq::new(args@.len(), |i: int| args@[i]@));
        r
    }

    pub fn name(&self) -> (r: &str)
        ensures
            r@ == self.verb(),
    {
        self.name.as_str()
    }

    pub fn data(&self) -> (r: &Option<String>)
        ensures
            opt_string(*r) == self.payload(),
    {
        &self.data
    }

    pub fn args(&self) -> (r: &[String])
        ensures
            texts(r@) == self.arguments(),
    {
        self.args.as_slice()
    }

    /// The operation with one argument and no payload.
    fn unary(verb: &str, arg: &str) -> (r: Operation)
        ensures
            r.verb() == verb@,
            r.arguments() == seq![arg@],
            r.payload() is None,
    {
        let mut v: Vec<String> = Vec::new();
        v.push(arg.to_owned());
        let r = Operation { name: verb.to_owned(), args: v, data: None };
        assert(r.arguments() =~= seq![arg@]);
        r
    }

    /// The operation with one argument and a payload.
    fn unary_with(verb: &str, arg: &str, data: &str) -> (r: Operation)
        ensures
            r.verb() == verb@,
            r.arguments() == seq![arg@],
            r.payload() == Some(data@),
    {
        let mut v: Vec<String> = Vec::new();
        v.push(arg.to_owned());
        let r = Operation { name: verb.to_owned(), args: v, data: Some(data.to_owned()) };
        assert(r.arguments() =~= seq![arg@]);
        r
    }

    /// The operation with no argument.
    fn bare(verb: &str, data: Option<&str>) -> (r: Operation)
        ensures
            r.verb() == verb@,
            r.arguments() == Seq::<Seq<char>>::empty(),
            r.payload() == opt_text(data),
    {
        let data = match data {
            Some(d) => Some(d.to_owned()),
            None => None,
        };
        let r = Operation { name: verb.to_owned(), args: Vec::new(), data };
        assert(r.arguments() =~= Seq::<Seq<char>>::empty());
        r
    }

    pub fn new_ok() -> (r: Operation)
        ensures
            r.verb() == "ok"@,
            r.arguments().len() == 0,
            r.payload() is None,
    {
        Operation::bare("ok", None)
    }

    pub fn new_found(name: &str, data: &str) -> (r: Operation)
        ensures
            r.verb() == "found"@,
            r.arguments() == seq![name@],
            r.payload() == Some(data@),
    {
        Operation::unary_with("found", name, data)
    }

    pub fn new_none(name: &str) -> (r: Operation)
        ensures
            r.verb() == "none"@,
            r.arguments() == seq![name@],
            r.payload() is None,
    {
        Operation::unary("none", name)
    }

    pub fn new_get(name: &str) -> (r: Operation)
        ensures
            r.verb() == "get"@,
            r.arguments() == seq![name@],
            r.payload() is None,
    {
        Operation::unary("get", name)
    }

    pub fn new_range(name: &str) -> (r: Operation)
        ensures
            r.verb() == "range"@,
            r.arguments() == seq![name@],
            r.payload() is None,
    {
        Operation::unary("range", name)
    }

    pub fn new_set(name: &str, data: &str) -> (r: Operation)
        ensures
            r.verb() == "set"@,
            r.arguments() == seq![name@],
            r.payload() == Some(data@),
    {
        Operation::unary_with("set", name, data)
    }

    pub fn new_delete(name: &str) -> (r: Operation)
        ensures
            r.verb() == "delete"@,
            r.arguments() == seq![name@],
            r.payload() is None,
    {
        Operation::unary("delete", name)
    }

    pub fn new_shutdown() -> (r: Operation)
        ensures
            r.verb() == "stop"@,
            r.arguments().len() == 0,
            r.payload() is None,
    {
        Operation::bare("stop", None)
    }

    /// The `error` reply, with its message as payload.
    pub fn new_error(message: &str) -> (r: Operation)
        ensures
            r.verb() == "error"@,
            r.arguments().len() == 0,
            r.payload() == Some(message@),
    {
        Operation::bare("error", Some(message))
    }
}

/// The verbs whose frame has a second line, the payload.
pub open spec fn has_payload(verb: Seq<char>) -> bool {
    verb == "set"@ || verb == "found"@ || verb == "error"@
}

/// Whether frames of this verb have a payload line.
pub fn carries_payload(verb: &str) -> (r: bool)
    ensures
        r == has_payload(verb@),
{
    same(verb, "set") || same(verb, "found") || same(verb, "error")
}

/// The tokens of a verb line: the trimmed line cut at each space.
pub open spec fn tokens(line: Seq<char>) -> Seq<Seq<char>> {
    split_on(trimmed(line), ' ')
}

/// What a reader does next with a stream of frames.
#[derive(Debug)]
pub enum Frame {
    /// The frame is complete: an operation, or nothing at the end of the
    /// stream.
    Done(Option<Operation>),
    /// The verb line is read; its payload line comes next.
    NeedPayload(Operation),
}

/// Takes the verb line of a frame, `None` at the end of the stream. A line
/// with no token is malformed.
pub fn read_head(line: Option<&str>) -> (r: Result<Frame, Error>)
    ensures
        line is None ==> r == Ok::<Frame, Error>(Frame::Done(None)),
        line matches Some(l) ==> (r is Err <==> trimmed(l@).len() == 0),
        line matches Some(l) ==> (r matches Err(e) ==> e == Error::Malformed),
        line matches Some(l) ==> match r {
            Ok(Frame::Done(Some(op))) => !has_payload(tokens(l@)[0]) && op.verb() == tokens(l@)[0]
                && op.arguments() == tokens(l@).subrange(1, tokens(l@).len() as int)
                && op.payload() is None,
            Ok(Frame::NeedPayload(op)) => has_payload(tokens(l@)[0]) && op.verb() == tokens(
                l@,
            )[0] && op.arguments() == tokens(l@).subrange(1, tokens(l@).len() as int)
                && op.payload() is None,
            Ok(Frame::Done(None)) => false,
            Err(_) => true,
        },
{
    match line {
        None => Ok(Frame::Done(None)),
        Some(l) => {
            let t = trim(l);
            if t.unicode_len() == 0 {
                return Err(Error::Malformed);
            }
            let mut toks = split_char(t, ' ');
            proof {
                crate::text::lemma_find_from(t@, ' ', 0);
            }
            assert(toks@.len() >= 1);
            let ghost all = texts(toks@);
            assert(all =~= tokens(l@));
            let name = toks.remove(0);
            let op = Operation { name, args: toks, data: None };
            assert(op.arguments() =~= tokens(l@).subrange(1, tokens(l@).len() as int));
            if carries_payload(op.name.as_str()) {
                Ok(Frame::NeedPayload(op))
            } else {
                Ok(Frame::Done(Some(op)))
            }
        },
    }
}

/// Takes the payload line of a frame whose verb line was read, `None` at the
/// end of the stream, which is malformed.
pub fn read_payload(pending: Operation, line: Option<&str>) -> (r: Result<Operation, Error>)
    ensures
        line is None ==> r == Err::<Operation, Error>(Error::Malformed),
        line matches Some(l) ==> r matches Ok(op) && op.verb() == pending.verb()
            && op.arguments() == pending.arguments() && op.payload() == Some(trimmed(l@)),
{
    match line {
        None => Err(Error::Malformed),
        Some(l) => {
            let Operation { name, args, data: _ } = pending;
            Ok(Operation { name, args, data: Some(trim(l).to_owned()) })
        },
    }
}

/// The tokens joined by single spaces, each trimmed.
pub open spec fn joined(toks: Seq<Seq<char>>) -> Seq<char>
    decreases toks.len(),
{
    if toks.len() == 0 {
        Seq::empty()
    } else if toks.len() == 1 {
        trimmed(toks[0])
    } else {
        joined(toks.drop_last()) + " "@ + trimmed(toks.last())
    }
}

/// The frame of an operation: the verb line, then the payload line if there
/// is a payload.
pub open spec fn frame_text(op: Operation) -> Seq<char> {
    let head = joined(seq![op.verb()] + op.arguments()) + "\n"@;
    match op.payload() {
        Some(d) => head + trimmed(d) + "\n"@,
        None => head,
    }
}

/// Writes the frame of an operation as text.
pub fn encode(op: &Operation) -> (r: String)
    ensures
        r@ == frame_text(*op),
{
    let ghost toks = seq![op.verb()] + op.arguments();
    let mut out = String::from_str(trim(op.name.as_str()));
    assert(toks.subrange(0, 1) =~= seq![op.verb()]);
    let mut i: usize = 0;
    while i < op.args.len()
        invariant
            i <= op.args@.len(),
            toks == seq![op.verb()] + op.arguments(),
            op.arguments() == texts(op.args@),
            out@ == joined(toks.subrange(0, i + 1)),
        decreases op.args@.len() - i,
    {
        let ghost before = toks.subrange(0, i + 1);
        out.append(" ");
        out.append(trim(op.args[i].as_str()));
        assert(toks.subrange(0, i + 2).drop_last() =~= before);
        i = i + 1;
    }
    assert(toks.subrange(0, i + 1) =~= toks);
    out.append("\n");
    match &op.data {
        Some(d) => {
            out.append(trim(d.as_str()));
            out.append("\n");
        },
        None => {},
    }
    out
}

/// Whether `verb` is one of `verbs`.
pub open spec fn among(verb: Seq<char>, verbs: Seq<&str>) -> bool {
    exists|i: int| 0 <= i < verbs.len() && verbs[i]@ == verb
}

/// Takes a reply that the caller awaits: it must have come and carry one of
/// the expected verbs.
pub fn expect(reply: Option<Operation>, verbs: &[&str]) -> (r: Result<Operation, Error>)
    ensures
        match reply {
            Some(op) => if among(op.verb(), verbs@) {
                r == Ok::<Operation, Error>(op)
            } else {
                r == Err::<Operation, Error>(Error::Unexpected)
            },
            None => r == Err::<Operation, Error>(Error::Unexpected),
        },
{
    match reply {
        Some(op) => {
            let mut i: usize = 0;
            while i < verbs.len()
                invariant
                    i <= verbs@.len(),
                    reply == Some(op),
                    forall|j: int| 0 <= j < i ==> verbs@[j]@ != op.verb(),
                decreases verbs@.len() - i,
            {
                if same(verbs[i], op.name.as_str()) {
                    assert(verbs@[i as int]@ == op.verb());
                    assert(among(op.verb(), verbs@));
                    return Ok(op);
                }
                i = i + 1;
            }
            Err(Error::Unexpected)
        },
        None => Err(Error::Unexpected),
    }
}

#[verifier::external_type_specification]
#[verifier::external_body]
#[verifier::reject_recursive_types(T)]
pub struct ExSender<T>(std::sync::mpsc::Sender<T>);

/// Relies on `std::sync::mpsc::Sender::send`: it hands the value over, and
/// fails when the receiving end is gone.
#[verifier::external_body]
fn hand_over(tx: &std::sync::mpsc::Sender<Operation>, op: Operation) -> (r: bool) {
    tx.send(op).is_ok()
}

/// An operation with the channel that its single reply goes back on.
pub struct Request {
    op: Operation,
    tx: std::sync::mpsc::Sender<Operation>,
}

impl Request {
    pub closed spec fn op(&self) -> Operation {
        self.op
    }

    pub fn new(op: Operation, tx: std::sync::mpsc::Sender<Operation>) -> (r: Request)
        ensures
            r.op() == op,
    {
        Request { op, tx }
    }

    pub fn name(&self) -> (r: &str)
        ensures
            r@ == self.op().verb(),
    {
        self.op.name()
    }

    pub fn operation(&mut self) -> (r: &Operation)
        ensures
            *r == old(self).op(),
            final(self).op() == old(self).op(),
    {
        &self.op
    }

    /// Sends the reply. Fails with `SendError` when nobody waits for it.
    pub fn send(&self, op: Operation) -> (r: Result<(), Error>)
        ensures
            r is Ok || r == Err::<(), Error>(Error::SendError),
    {
        if hand_over(&self.tx, op) {
            Ok(())
        } else {
            Err(Error::SendError)
        }
    }
}

/// The endpoint the service listens on, and whether its removal was claimed.
/// Every shutdown path claims the removal; only the first claim succeeds, so
/// the endpoint is removed once.
#[derive(Debug, Clone)]
pub struct Socket {
    path: String,
    removed: bool,
}

impl Socket {
    pub closed spec fn location(&self) -> Seq<char> {
        self.path@
    }

    pub closed spec fn is_removed(&self) -> bool {
        self.removed
    }

    pub fn new(path: &str) -> (r: Socket)
        ensures
            r.location() == path@,
            !r.is_removed(),
    {
        Socket { path: path.to_owned(), removed: false }
    }

    pub fn path(&self) -> (r: &str)
        ensures
            r@ == self.location(),
    {
        self.path.as_str()
    }

    /// Claims the removal of the endpoint: `true` for the first claim only.
    pub fn claim_removal(&mut self) -> (r: bool)
        ensures
            r == !old(self).is_removed(),
            final(self).is_removed(),
            final(self).location() == old(self).location(),
    {
        let first = !self.removed;
        self.removed = true;
        first
    }
}

} // verus!
