//! Dotted paths into JSON values: splitting them, resolving them against a
//! value, and replacing what they address.

use vstd::prelude::*;
use vstd::string::*;

use crate::error::Error;
use crate::json::{
    copy_items, copy_members, lemma_member_views, member_views, lemma_put, lemma_views, lookup, member_index,
    member_put, put, views, Json, JsonView,
};
use crate::text::{
    find_char, find_from, lemma_find_from, lemma_rfind_before, rfind_before, rfind_char, trim,
    trimmed,
};

verus! {

/// The view of an optional piece of text.
pub open spec fn opt_text(o: Option<&str>) -> Option<Seq<char>> {
    match o {
        Some(s) => Some(s@),
        None => None,
    }
}

/// The view of an optional path.
pub open spec fn opt_path(o: Option<Path>) -> Option<Seq<char>> {
    match o {
        Some(p) => Some(p@),
        None => None,
    }
}

/// The view of an optional value.
pub open spec fn opt_json(o: Option<&Json>) -> Option<JsonView> {
    match o {
        Some(v) => Some(v@),
        None => None,
    }
}

/// The first segment of a path and what follows its separator.
pub open spec fn next_of(p: Seq<char>) -> (Option<Seq<char>>, Option<Seq<char>>) {
    let x = find_from(p, '.', 0);
    if x < p.len() {
        (Some(p.subrange(0, x)), Some(p.subrange(x + 1, p.len() as int)))
    } else if p.len() > 0 {
        (Some(p), None)
    } else {
        (None, None)
    }
}

/// The first segment and the rest of a path, white space trimmed first.
pub open spec fn first_of(p: Seq<char>) -> (Option<Seq<char>>, Option<Seq<char>>) {
    next_of(trimmed(p))
}

/// The path before the last segment, and the last segment, white space
/// trimmed first.
pub open spec fn last_of(p: Seq<char>) -> (Option<Seq<char>>, Option<Seq<char>>) {
    let t = trimmed(p);
    let x = rfind_before(t, '.', t.len() as int);
    if t.len() == 0 {
        (None, None)
    } else if x >= 0 {
        (Some(t.subrange(0, x)), Some(t.subrange(x + 1, t.len() as int)))
    } else {
        (None, Some(t))
    }
}

/// `p` with `c` more trailing segments cut off; `last` is the segment cut
/// most recently.
pub open spec fn trim_acc(p: Seq<char>, c: nat, last: Option<Seq<char>>) -> (
    Option<Seq<char>>,
    Option<Seq<char>>,
)
    decreases c,
{
    if c == 0 {
        (Some(p), last)
    } else {
        let x = rfind_before(p, '.', p.len() as int);
        if x < 0 {
            (None, None)
        } else {
            trim_acc(p.subrange(0, x), (c - 1) as nat, Some(p.subrange(x + 1, p.len() as int)))
        }
    }
}

/// The path without its last `c` segments, and the last of those; nothing
/// when the path has fewer than `c` separators.
pub open spec fn trim_of(p: Seq<char>, c: nat) -> (Option<Seq<char>>, Option<Seq<char>>) {
    trim_acc(p, c, None)
}

pub open spec fn is_digit(c: char) -> bool {
    48 <= (c as u32) <= 57
}

/// The number that a run of decimal digits stands for.
pub open spec fn digits_value(s: Seq<char>) -> nat
    decreases s.len(),
{
    if s.len() == 0 {
        0
    } else {
        digits_value(s.drop_last()) * 10 + ((s.last() as u32) - 48) as nat
    }
}

/// The digits of an unsigned integer, after an optional `+`.
pub open spec fn unsigned_digits(s: Seq<char>) -> Seq<char> {
    if s.len() > 0 && s[0] == '+' {
        s.subrange(1, s.len() as int)
    } else {
        s
    }
}

/// The array index that a segment names: an optional `+`, then one or more
/// decimal digits, of a value that fits in `usize`.
pub open spec fn index_value(s: Seq<char>) -> Option<nat> {
    let d = unsigned_digits(s);
    if d.len() > 0 && (forall|i: int| 0 <= i < d.len() ==> is_digit(d[i])) && digits_value(d)
        <= usize::MAX {
        Some(digits_value(d))
    } else {
        None
    }
}

/// The member or element of `v` that one segment names.
pub open spec fn child(v: JsonView, name: Seq<char>) -> Option<JsonView> {
    match v {
        JsonView::Object(m) => lookup(m, name),
        JsonView::Array(a) => match index_value(name) {
            Some(i) => if i < a.len() {
                Some(a[i as int])
            } else {
                None
            },
            None => None,
        },
        _ => None,
    }
}

/// One step of resolution: the value the first segment names and the rest of
/// the path, or nothing and the whole path.
pub open spec fn deref_of(p: Seq<char>, v: JsonView) -> (Option<JsonView>, Option<Seq<char>>) {
    let c = match next_of(p).0 {
        Some(n) => child(v, n),
        None => None,
    };
    match c {
        Some(c) => (Some(c), next_of(p).1),
        None => (None, Some(p)),
    }
}

/// Resolution of a whole path: the value it names, or nothing and the part of
/// the path that could not be resolved.
pub open spec fn find_of(p: Seq<char>, v: JsonView) -> (Option<JsonView>, Option<Seq<char>>)
    decreases p.len(),
    via find_of_decreases
{
    match deref_of(p, v).0 {
        Some(c) => match deref_of(p, v).1 {
            Some(r) => find_of(r, c),
            None => (Some(c), None),
        },
        None => (None, deref_of(p, v).1),
    }
}

#[via_fn]
proof fn find_of_decreases(p: Seq<char>, v: JsonView) {
    lemma_next_of(p);
}

/// The value a path names, when all of it resolves.
pub open spec fn value_of(p: Seq<char>, v: JsonView) -> Option<JsonView> {
    match find_of(p, v) {
        (Some(w), None) => Some(w),
        _ => None,
    }
}

/// `v` with the slot that one segment names set to `x`: an object member,
/// added if absent, or an array element that exists.
pub open spec fn put_child(v: JsonView, name: Seq<char>, x: JsonView) -> Result<JsonView, Error> {
    match v {
        JsonView::Object(m) => Ok(JsonView::Object(put(m, name, x))),
        JsonView::Array(a) => match index_value(name) {
            Some(i) => if i < a.len() {
                Ok(JsonView::Array(a.update(i as int, x)))
            } else {
                Err(Error::Malformed)
            },
            None => Err(Error::Malformed),
        },
        _ => Err(Error::Malformed),
    }
}

/// `v` with the value at path `p` set to `x`. Every segment but the last must
/// resolve, and the last must name a slot of an object or an array.
pub open spec fn set_at(v: JsonView, p: Seq<char>, x: JsonView) -> Result<JsonView, Error>
    decreases p.len(),
    via set_at_decreases
{
    match next_of(p).0 {
        None => Err(Error::NotFound),
        Some(s) => match next_of(p).1 {
            None => put_child(v, s, x),
            Some(r) => match child(v, s) {
                None => Err(Error::NotFound),
                Some(c) => match set_at(c, r, x) {
                    Ok(nc) => put_child(v, s, nc),
                    Err(e) => Err(e),
                },
            },
        },
    }
}

#[via_fn]
proof fn set_at_decreases(v: JsonView, p: Seq<char>, x: JsonView) {
    lemma_next_of(p);
}

/// `v` with the slot that one segment names replaced by `x`; an array index
/// out of range is `NotFound`.
pub open spec fn replace_child(v: JsonView, name: Seq<char>, x: JsonView) -> Result<JsonView, Error> {
    match put_child(v, name, x) {
        Ok(w) => Ok(w),
        Err(e) => if v is Array {
            Err(Error::NotFound)
        } else {
            Err(e)
        },
    }
}

/// `v` with the value at path `p` replaced by `x`. The path is trimmed of
/// white space at each step; each segment must name a value that exists.
pub open spec fn replace_at(v: JsonView, p: Seq<char>, x: JsonView) -> Result<JsonView, Error>
    decreases p.len(),
    via replace_at_decreases
{
    match first_of(p).0 {
        None => Err(Error::NotFound),
        Some(s) => match value_of(s, v) {
            None => Err(Error::NotFound),
            Some(c) => match first_of(p).1 {
                None => replace_child(v, s, x),
                Some(r) => match replace_at(c, r, x) {
                    Ok(y) => replace_child(v, s, y),
                    Err(e) => Err(e),
                },
            },
        },
    }
}

#[via_fn]
proof fn replace_at_decreases(v: JsonView, p: Seq<char>, x: JsonView) {
    lemma_first_of(p);
}

pub proof fn lemma_first_of(p: Seq<char>)
    ensures
        first_of(p).1 matches Some(r) ==> r.len() < p.len(),
{
    lemma_next_of(trimmed(p));
    crate::text::lemma_trimmed_len(p);
}

pub proof fn lemma_next_of(p: Seq<char>)
    ensures
        next_of(p).1 matches Some(r) ==> r.len() < p.len(),
        next_of(p).0 matches Some(s) ==> s.len() <= p.len(),
        next_of(p).0 is None ==> p.len() == 0,
{
    lemma_find_from(p, '.', 0);
}

/// A dotted path such as `a.b.0`.
#[derive(Debug, Clone, PartialEq)]
pub struct Path(String);

impl Path {
    pub closed spec fn view(&self) -> Seq<char> {
        self.0@
    }

    pub fn new(path: &str) -> (r: Path)
        ensures
            r@ == path@,
    {
        Path(path.to_owned())
    }

    /// The text of the path.
    pub fn _path(&self) -> (r: &str)
        ensures
            r@ == self@,
    {
        self.0.as_str()
    }

    fn copy(&self) -> (r: Path)
        ensures
            r@ == self@,
    {
        Path::new(self.0.as_str())
    }

    /// Whether the path holds a separator.
    pub fn _has_next(&self) -> (r: bool)
        ensures
            r == (find_from(self@, '.', 0) < self@.len()),
    {
        let s = self.0.as_str();
        find_char(s, '.', 0) < s.unicode_len()
    }

    /// Splits at the first separator: the first segment, and the rest when
    /// there is a separator. An empty path has no segment.
    pub fn next<'a>(&'a self) -> (r: (Option<&'a str>, Option<&'a str>))
        ensures
            opt_text(r.0) == next_of(self@).0,
            opt_text(r.1) == next_of(self@).1,
    {
        split_first(self.0.as_str())
    }

    /// As `next`, on the path with white space trimmed.
    pub fn first<'a>(&'a self) -> (r: (Option<&'a str>, Option<Path>))
        ensures
            opt_text(r.0) == first_of(self@).0,
            opt_path(r.1) == first_of(self@).1,
    {
        let p = trim(self.0.as_str());
        let (a, b) = split_first(p);
        match b {
            Some(b) => (a, Some(Path::new(b))),
            None => (a, None),
        }
    }

    /// Splits at the last separator of the trimmed path: the path before it,
    /// and the last segment.
    pub fn last<'a>(&'a self) -> (r: (Option<Path>, Option<&'a str>))
        ensures
            opt_path(r.0) == last_of(self@).0,
            opt_text(r.1) == last_of(self@).1,
    {
        let p = trim(self.0.as_str());
        if p.unicode_len() == 0 {
            return (None, None);
        }
        match rfind_char(p, '.') {
            Some(x) => {
                proof {
                    lemma_rfind_before(p@, '.', p@.len() as int);
                }
                let n = p.unicode_len();
                (Some(Path::new(p.substring_char(0, x))), Some(p.substring_char(x + 1, n)))
            },
            None => (None, Some(p)),
        }
    }

    /// Cuts off the last `c` segments: the shorter path and the segment cut
    /// last, or nothing when there are not that many separators.
    pub fn _trim<'a>(&'a self, c: usize) -> (r: (Option<Path>, Option<&'a str>))
        ensures
            opt_path(r.0) == trim_of(self@, c as nat).0,
            opt_text(r.1) == trim_of(self@, c as nat).1,
    {
        let mut p: &str = self.0.as_str();
        let mut n: Option<&str> = None;
        let mut k: usize = 0;
        while k < c
            invariant
                k <= c,
                trim_of(self@, c as nat) == trim_acc(p@, (c - k) as nat, opt_text(n)),
            decreases c - k,
        {
            match rfind_char(p, '.') {
                Some(x) => {
                    proof {
                        lemma_rfind_before(p@, '.', p@.len() as int);
                    }
                    let len = p.unicode_len();
                    n = Some(p.substring_char(x + 1, len));
                    p = p.substring_char(0, x);
                },
                None => return (None, None),
            }
            k = k + 1;
        }
        (Some(Path::new(p)), n)
    }

    /// One step of resolution: the value the first segment names and the
    /// rest of the path; or, when it names nothing, nothing and the whole path.
    pub fn deref<'a>(&self, value: &'a Json) -> (r: (Option<&'a Json>, Option<Path>))
        ensures
            opt_json(r.0) == deref_of(self@, value@).0,
            opt_path(r.1) == deref_of(self@, value@).1,
    {
        let (n, rest) = self.next();
        let v = match n {
            Some(n) => json_deref(n, value),
            None => None,
        };
        let rest = match rest {
            Some(r) => Some(Path::new(r)),
            None => None,
        };
        match v {
            Some(v) => (Some(v), rest),
            None => (None, Some(self.copy())),
        }
    }

    /// Resolves the whole path: the value it names, or nothing and the part
    /// of the path that could not be resolved.
    pub fn find<'a>(&self, value: &'a Json) -> (r: (Option<&'a Json>, Option<Path>))
        ensures
            opt_json(r.0) == find_of(self@, value@).0,
            opt_path(r.1) == find_of(self@, value@).1,
        decreases self@.len(),
    {
        proof {
            lemma_next_of(self@);
        }
        let (v, p) = self.deref(value);
        match v {
            Some(v) => match p {
                Some(p) => p.find(v),
                None => (Some(v), None),
            },
            None => (None, p),
        }
    }

    /// `current` with the value at this path set to `update`. Every segment
    /// but the last must resolve (else `NotFound`); the last must name a
    /// member of an object, which is added if absent, or an element of an
    /// array that exists (else `Malformed`). `current` itself is not changed.
    pub fn insert_value(&self, current: &Json, update: &Json) -> (r: Result<Json, Error>)
        requires
            current@.wf(),
            update@.wf(),
        ensures
            match r {
                Ok(w) => set_at(current@, self@, update@) == Ok::<JsonView, Error>(w@) && w@.wf(),
                Err(e) => set_at(current@, self@, update@) == Err::<JsonView, Error>(e),
            },
        decreases self@.len(),
    {
        proof {
            lemma_next_of(self@);
        }
        let (s, rest) = self.next();
        match s {
            None => Err(Error::NotFound),
            Some(s) => match rest {
                None => set_child(current, s, update.copy()),
                Some(r) => match json_deref(s, current) {
                    None => Err(Error::NotFound),
                    Some(c) => {
                        proof {
                            lemma_child_wf(current@, s@);
                        }
                        match Path::new(r).insert_value(c, update) {
                            Ok(nc) => set_child(current, s, nc),
                            Err(e) => Err(e),
                        }
                    },
                },
            },
        }
    }

    /// `current` with the value that this path names replaced by `update`.
    /// The path, white space trimmed, must resolve in full: a member or an
    /// element is replaced, never added (else `NotFound`). `current` itself
    /// is not changed.
    pub fn set_value(&self, current: &Json, update: &Json) -> (r: Result<Json, Error>)
        requires
            current@.wf(),
            update@.wf(),
        ensures
            match r {
                Ok(w) => replace_at(current@, self@, update@) == Ok::<JsonView, Error>(w@)
                    && w@.wf(),
                Err(e) => replace_at(current@, self@, update@) == Err::<JsonView, Error>(e),
            },
        decreases self@.len(),
    {
        proof {
            lemma_first_of(self@);
        }
        let (left, rest) = self.first();
        let left = match left {
            Some(l) => Path::new(l),
            None => return Err(Error::NotFound),
        };
        let lval = match left.value(current) {
            Some(c) => c,
            None => return Err(Error::NotFound),
        };
        proof {
            lemma_find_wf(left@, current@);
        }
        let y = match rest {
            Some(r) => match r.set_value(lval, update) {
                Ok(y) => y,
                Err(e) => return Err(e),
            },
            None => update.copy(),
        };
        match set_child(current, left._path(), y) {
            Ok(w) => Ok(w),
            Err(e) => match current {
                Json::Array(_) => Err(Error::NotFound),
                _ => Err(e),
            },
        }
    }

    /// The value the path names, when all of it resolves.
    pub fn value<'a>(&self, value: &'a Json) -> (r: Option<&'a Json>)
        ensures
            opt_json(r) == value_of(self@, value@),
    {
        match self.find(value) {
            (Some(v), None) => Some(v),
            _ => None,
        }
    }
}

/// Splits at the first separator.
pub(crate) fn split_first<'a>(s: &'a str) -> (r: (Option<&'a str>, Option<&'a str>))
    ensures
        opt_text(r.0) == next_of(s@).0,
        opt_text(r.1) == next_of(s@).1,
{
    let n = s.unicode_len();
    let x = find_char(s, '.', 0);
    proof {
        lemma_find_from(s@, '.', 0);
    }
    if x < n {
        (Some(s.substring_char(0, x)), Some(s.substring_char(x + 1, n)))
    } else if n > 0 {
        (Some(s), None)
    } else {
        (None, None)
    }
}

proof fn lemma_digits_monotone(d: Seq<char>, i: int, j: int)
    requires
        0 <= i <= j <= d.len(),
        forall|k: int| 0 <= k < d.len() ==> is_digit(d[k]),
    ensures
        digits_value(d.subrange(0, i)) <= digits_value(d.subrange(0, j)),
    decreases j - i,
{
    if i < j {
        lemma_digits_monotone(d, i, j - 1);
        assert(d.subrange(0, j).drop_last() =~= d.subrange(0, j - 1));
    }
}

/// Reads a segment as an array index, as `str::parse::<usize>` does.
pub fn parse_index(s: &str) -> (r: Option<usize>)
    ensures
        match r {
            Some(i) => index_value(s@) == Some(i as nat),
            None => index_value(s@) is None,
        },
{
    let n = s.unicode_len();
    let mut i: usize = 0;
    if n > 0 && s.get_char(0) == '+' {
        i = 1;
    }
    let start = i;
    let ghost d = unsigned_digits(s@);
    assert(d =~= s@.subrange(start as int, n as int));
    if i == n {
        return None;
    }
    let mut acc: usize = 0;
    assert(d.subrange(0, 0) =~= Seq::<char>::empty());
    while i < n
        invariant
            start <= i <= n,
            n == s@.len(),
            d == s@.subrange(start as int, n as int),
            d == unsigned_digits(s@),
            acc == digits_value(d.subrange(0, i - start)),
            forall|k: int| 0 <= k < i - start ==> is_digit(d[k]),
        decreases n - i,
    {
        let c = s.get_char(i);
        assert(d[i - start] == c);
        if !((c as u32) >= 48 && (c as u32) <= 57) {
            assert(!is_digit(d[i - start]));
            return None;
        }
        let dv = ((c as u32) - 48) as usize;
        assert(d.subrange(0, i + 1 - start).drop_last() =~= d.subrange(0, i - start));
        assert(d.subrange(0, i + 1 - start).last() == c);
        assert(digits_value(d.subrange(0, i + 1 - start)) == acc * 10 + dv);
        let m = acc.checked_mul(10);
        match m {
            Some(m) => match m.checked_add(dv) {
                Some(v) => {
                    acc = v;
                },
                None => {
                    proof {
                        if forall|k: int| 0 <= k < d.len() ==> is_digit(d[k]) {
                            lemma_digits_monotone(d, i + 1 - start, d.len() as int);
                            assert(d.subrange(0, d.len() as int) =~= d);
                            assert(digits_value(d) > usize::MAX);
                        }
                    }
                    return None;
                },
            },
            None => {
                proof {
                    if forall|k: int| 0 <= k < d.len() ==> is_digit(d[k]) {
                        lemma_digits_monotone(d, i + 1 - start, d.len() as int);
                        assert(d.subrange(0, d.len() as int) =~= d);
                    }
                }
                return None;
            },
        }
        i = i + 1;
    }
    assert(d.subrange(0, n - start) =~= d);
    Some(acc)
}

/// The index that `name` gives into `value`, when it is in bounds.
pub fn index_array(value: &Vec<Json>, name: &str) -> (r: Option<usize>)
    ensures
        match r {
            Some(i) => index_value(name@) == Some(i as nat) && i < value@.len(),
            None => !(index_value(name@) matches Some(i) && i < value@.len()),
        },
{
    match parse_index(name) {
        Some(i) => if i < value.len() {
            Some(i)
        } else {
            None
        },
        None => None,
    }
}

/// The index that `name` gives into `value`, when it is an array and the
/// index is in bounds.
pub fn _index(value: &Json, name: &str) -> (r: Option<usize>)
    ensures
        match r {
            Some(i) => value@ matches JsonView::Array(a) && index_value(name@) == Some(i as nat)
                && i < a.len(),
            None => !(value@ matches JsonView::Array(a) && index_value(name@) matches Some(i) && i
                < a.len()),
        },
{
    match value {
        Json::Array(a) => {
            proof {
                lemma_views(a@);
            }
            index_array(a, name)
        },
        _ => None,
    }
}

/// The member or element of `value` that `name` names.
fn json_deref<'a>(name: &str, value: &'a Json) -> (r: Option<&'a Json>)
    ensures
        opt_json(r) == child(value@, name@),
{
    match value {
        Json::Object(m) => {
            proof {
                crate::json::lemma_member_views(m@);
            }
            let i = member_index(m, name);
            if i < m.len() {
                Some(&m[i].1)
            } else {
                None
            }
        },
        Json::Array(a) => {
            proof {
                lemma_views(a@);
            }
            match index_array(a, name) {
                Some(i) => Some(&a[i]),
                None => None,
            }
        },
        _ => None,
    }
}

/// A member or element of a well-formed value is well formed.
pub proof fn lemma_child_wf(v: JsonView, name: Seq<char>)
    requires
        v.wf(),
    ensures
        child(v, name) matches Some(c) ==> c.wf(),
{
    match v {
        JsonView::Object(m) => {
            crate::json::lemma_key_from(m, name, 0);
            let p = crate::json::key_pos(m, name);
            crate::json::lemma_members_wf(m);
            if p < m.len() {
                assert(m[p].1.wf());
            }
        },
        JsonView::Array(a) => {
            crate::json::lemma_all_wf(a);
            if let Some(i) = index_value(name) {
                if i < a.len() {
                    assert(a[i as int].wf());
                }
            }
        },
        _ => {},
    }
}

/// What a path resolves to inside a well-formed value is well formed.
pub proof fn lemma_find_wf(p: Seq<char>, v: JsonView)
    requires
        v.wf(),
    ensures
        find_of(p, v).0 matches Some(w) ==> w.wf(),
    decreases p.len(),
{
    lemma_next_of(p);
    if let Some(n) = next_of(p).0 {
        lemma_child_wf(v, n);
        if let Some(c) = child(v, n) {
            if let Some(r) = next_of(p).1 {
                lemma_find_wf(r, c);
            }
        }
    }
}

/// Whether a segment can take a value: any member of an object, or an
/// element of an array that exists.
pub open spec fn slot_ok(v: JsonView, s: Seq<char>) -> bool {
    match v {
        JsonView::Object(_) => true,
        JsonView::Array(a) => index_value(s) matches Some(i) && i < a.len(),
        _ => false,
    }
}

/// One non-empty segment, with no separator.
pub open spec fn is_segment(b: Seq<char>) -> bool {
    b.len() > 0 && forall|i: int| 0 <= i < b.len() ==> b[i] != '.'
}

/// A path whose segments are all non-empty.
pub open spec fn plain_path(a: Seq<char>) -> bool {
    a.len() > 0 && a[0] != '.' && a[a.len() - 1] != '.' && forall|i: int|
        0 <= i < a.len() - 1 ==> !(a[i] == '.' && #[trigger] a[i + 1] == '.')
}

/// Setting a single segment succeeds exactly when it names a slot.
pub proof fn lemma_set_segment_ok(v: JsonView, b: Seq<char>, x: JsonView)
    requires
        is_segment(b),
    ensures
        set_at(v, b, x) is Ok <==> slot_ok(v, b),
        value_of(b, v) == child(v, b),
{
    crate::text::lemma_find_from_at(b, '.', 0, b.len() as int);
    assert(b.subrange(0, b.len() as int) =~= b);
}

/// Setting `a.b` succeeds exactly when its parent `a` resolves to a value
/// in which the last segment `b` names a slot.
pub proof fn lemma_set_parent_ok(v: JsonView, a: Seq<char>, b: Seq<char>, x: JsonView)
    requires
        plain_path(a),
        is_segment(b),
    ensures
        set_at(v, a + seq!['.'] + b, x) is Ok <==> (value_of(a, v) matches Some(w) && slot_ok(
            w,
            b,
        )),
    decreases a.len(),
{
    let p = a + seq!['.'] + b;
    crate::text::lemma_find_from(a, '.', 0);
    let xa = find_from(a, '.', 0);
    if xa < a.len() {
        // `a` = `s.r`: the first separator of `p` is that of `a`.
        crate::text::lemma_find_from_at(p, '.', 0, xa);
        let s = a.subrange(0, xa);
        let r = a.subrange(xa + 1, a.len() as int);
        assert(p.subrange(0, xa) =~= s);
        assert(p.subrange(xa + 1, p.len() as int) =~= r + seq!['.'] + b);
        assert(xa > 0);
        assert(is_segment(s));
        assert(plain_path(r)) by {
            assert(r.len() > 0) by {
                if xa + 1 == a.len() {
                }
            }
            assert(r[0] == a[xa + 1]);
            assert forall|i: int| 0 <= i < r.len() - 1 implies !(r[i] == '.' && #[trigger] r[i + 1] == '.') by {
                assert(r[i] == a[xa + 1 + i] && r[i + 1] == a[xa + 1 + i + 1]);
            }
        }
        assert(next_of(a) == (Some(s), Some(r)));
        lemma_set_segment_ok(v, s, x);
        match child(v, s) {
            Some(c) => {
                lemma_set_parent_ok(c, r, b, x);
            },
            None => {},
        }
    } else {
        // `a` is one segment: the separator of `p` follows it.
        assert(p[a.len() as int] == '.');
        crate::text::lemma_find_from_at(p, '.', 0, a.len() as int);
        assert(p.subrange(0, a.len() as int) =~= a);
        assert(p.subrange(a.len() as int + 1, p.len() as int) =~= b);
        assert(is_segment(a));
        lemma_set_segment_ok(v, a, x);
        match child(v, a) {
            Some(c) => {
                lemma_set_segment_ok(c, b, x);
            },
            None => {},
        }
    }
}

/// A path that starts with one segment splits after it.
pub proof fn lemma_next_of_join(k: Seq<char>, r: Seq<char>)
    requires
        is_segment(k),
    ensures
        next_of(k + seq!['.'] + r) == (Some(k), Some(r)),
{
    let p = k + seq!['.'] + r;
    assert(p[k.len() as int] == '.');
    crate::text::lemma_find_from_at(p, '.', 0, k.len() as int);
    assert(p.subrange(0, k.len() as int) =~= k);
    assert(p.subrange(k.len() as int + 1, p.len() as int) =~= r);
}

/// `v` with the slot that `name` names set to `x`.
fn set_child(v: &Json, name: &str, x: Json) -> (r: Result<Json, Error>)
    requires
        v@.wf(),
        x@.wf(),
    ensures
        match r {
            Ok(w) => put_child(v@, name@, x@) == Ok::<JsonView, Error>(w@) && w@.wf(),
            Err(e) => put_child(v@, name@, x@) == Err::<JsonView, Error>(e),
        },
{
    match v {
        Json::Object(m) => {
            let ghost xv = x@;
            let mut mm = copy_members(m);
            member_put(&mut mm, name.to_owned(), x);
            proof {
                crate::json::lemma_put_wf(member_views(m@), name@, xv);
            }
            Ok(Json::Object(mm))
        },
        Json::Array(a) => {
            proof {
                lemma_views(a@);
            }
            match index_array(a, name) {
                Some(i) => {
                    let ghost xv = x@;
                    let mut aa = copy_items(a);
                    proof {
                        lemma_views(aa@);
                    }
                    aa.set(i, x);
                    proof {
                        lemma_views(aa@);
                        let nv = views(a@).update(i as int, xv);
                        assert(views(aa@) =~= nv);
                        crate::json::lemma_all_wf(views(a@));
                        crate::json::lemma_all_wf(nv);
                        assert forall|j: int| 0 <= j < nv.len() implies #[trigger] nv[j].wf() by {
                            if j != i {
                                assert(nv[j] == views(a@)[j]);
                            }
                        }
                    }
                    Ok(Json::Array(aa))
                },
                None => Err(Error::Malformed),
            }
        },
        _ => Err(Error::Malformed),
    }
}

/// Setting a path and then reading it gives the value that was set.
pub proof fn lemma_set_then_get(v: JsonView, p: Seq<char>, x: JsonView)
    requires
        v.wf(),
        set_at(v, p, x) is Ok,
    ensures
        value_of(p, set_at(v, p, x)->Ok_0) == Some(x),
    decreases p.len(),
{
    lemma_next_of(p);
    let s = next_of(p).0->Some_0;
    let w = set_at(v, p, x)->Ok_0;
    match next_of(p).1 {
        None => {
            if let JsonView::Object(m) = v {
                lemma_put(m, s, x);
            }
            assert(child(w, s) == Some(x));
        },
        Some(r) => {
            let c = child(v, s)->Some_0;
            lemma_child_wf(v, s);
            lemma_set_then_get(c, r, x);
            let nc = set_at(c, r, x)->Ok_0;
            if let JsonView::Object(m) = v {
                lemma_put(m, s, nc);
            }
            assert(child(w, s) == Some(nc));
        },
    }
}

/// Whether two segments name different slots of `v`.
pub open spec fn other_slot(v: JsonView, s: Seq<char>, s2: Seq<char>) -> bool {
    match v {
        JsonView::Object(_) => s != s2,
        JsonView::Array(_) => index_value(s) != index_value(s2),
        _ => true,
    }
}

/// Whether paths `p` and `q` part ways inside `v`: after segments that name
/// the same slots, they come to segments that name different ones.
pub open spec fn apart(v: JsonView, p: Seq<char>, q: Seq<char>) -> bool
    decreases p.len(),
    via apart_decreases
{
    match (next_of(p).0, next_of(q).0) {
        (Some(s), Some(s2)) => if other_slot(v, s, s2) {
            true
        } else {
            match (next_of(p).1, next_of(q).1, child(v, s)) {
                (Some(r), Some(r2), Some(c)) => apart(c, r, r2),
                _ => false,
            }
        },
        _ => false,
    }
}

#[via_fn]
proof fn apart_decreases(v: JsonView, p: Seq<char>, q: Seq<char>) {
    lemma_next_of(p);
}

/// Setting a path leaves what every path apart from it resolves to as it was.
pub proof fn lemma_set_keeps_apart(v: JsonView, p: Seq<char>, q: Seq<char>, x: JsonView)
    requires
        v.wf(),
        set_at(v, p, x) is Ok,
        apart(v, p, q),
    ensures
        find_of(q, set_at(v, p, x)->Ok_0) == find_of(q, v),
    decreases p.len(),
{
    lemma_next_of(p);
    lemma_next_of(q);
    let s = next_of(p).0->Some_0;
    let s2 = next_of(q).0->Some_0;
    let w = set_at(v, p, x)->Ok_0;
    let y = match next_of(p).1 {
        None => x,
        Some(r) => set_at(child(v, s)->Some_0, r, x)->Ok_0,
    };
    assert(put_child(v, s, y) == Ok::<JsonView, Error>(w));
    if let JsonView::Object(m) = v {
        lemma_put(m, s, y);
    }
    if other_slot(v, s, s2) {
        assert(child(w, s2) == child(v, s2));
        assert(deref_of(q, w) == deref_of(q, v));
    } else {
        let r = next_of(p).1->Some_0;
        let r2 = next_of(q).1->Some_0;
        let c = child(v, s)->Some_0;
        lemma_child_wf(v, s);
        lemma_set_keeps_apart(c, r, r2, x);
        assert(child(w, s2) == Some(y));
        assert(child(v, s2) == Some(c));
    }
}

} // verus!
