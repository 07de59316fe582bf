//! JSON values: the mathematical model, the executable type, object members
//! kept in key order, and the conversions to and from `serde_json`.

use vstd::prelude::*;
use vstd::string::*;

use crate::error::Error;
use crate::text::{compare, key_lt, lemma_key_lt_irreflexive, lemma_key_lt_total, same};

verus! {

#[verifier::external_type_specification]
#[verifier::external_body]
pub struct ExNumber(serde_json::Number);

#[verifier::external_type_specification]
#[verifier::external_body]
pub struct ExSerdeValue(serde_json::Value);

/// Relies on the `Clone` that `serde_json::Number` derives: the copy holds the
/// same number.
pub assume_specification[ <serde_json::Number as Clone>::clone ](n: &serde_json::Number) -> (r:
    serde_json::Number)
    ensures
        r == *n,
;

/// A JSON value as a mathematical object. Numbers are carried as they are.
pub enum JsonView {
    Null,
    Bool(bool),
    Number(serde_json::Number),
    Str(Seq<char>),
    Array(Seq<JsonView>),
    Object(Seq<(Seq<char>, JsonView)>),
}

/// Object members in strictly ascending key order, so each key occurs once.
pub open spec fn sorted(m: Seq<(Seq<char>, JsonView)>) -> bool {
    forall|i: int, j: int| 0 <= i < j < m.len() ==> key_lt(m[i].0, m[j].0)
}

impl JsonView {
    /// Every object in the value, at any depth, keeps its members sorted.
    pub open spec fn wf(self) -> bool
        decreases self,
    {
        match self {
            JsonView::Array(a) => all_wf(a),
            JsonView::Object(m) => sorted(m) && members_wf(m),
            _ => true,
        }
    }
}

/// Every value in the sequence is well formed.
pub open spec fn all_wf(s: Seq<JsonView>) -> bool
    decreases s,
{
    if s.len() == 0 {
        true
    } else {
        all_wf(s.drop_last()) && s.last().wf()
    }
}

/// Every member value is well formed.
pub open spec fn members_wf(m: Seq<(Seq<char>, JsonView)>) -> bool
    decreases m,
{
    if m.len() == 0 {
        true
    } else {
        members_wf(m.drop_last()) && m.last().1.wf()
    }
}

pub proof fn lemma_all_wf(s: Seq<JsonView>)
    ensures
        all_wf(s) <==> forall|i: int| 0 <= i < s.len() ==> #[trigger] s[i].wf(),
    decreases s.len(),
{
    if s.len() > 0 {
        lemma_all_wf(s.drop_last());
        if forall|i: int| 0 <= i < s.len() ==> #[trigger] s[i].wf() {
            assert forall|i: int| 0 <= i < s.drop_last().len() implies #[trigger] s.drop_last()[i].wf() by {
                assert(s.drop_last()[i] == s[i]);
            }
            assert(s[s.len() - 1].wf());
        }
        if all_wf(s) {
            assert forall|i: int| 0 <= i < s.len() implies #[trigger] s[i].wf() by {
                if i < s.len() - 1 {
                    assert(s.drop_last()[i] == s[i]);
                } else {
                    assert(s[i] == s.last());
                }
            }
        }
    }
}

pub proof fn lemma_members_wf(m: Seq<(Seq<char>, JsonView)>)
    ensures
        members_wf(m) <==> forall|i: int| 0 <= i < m.len() ==> #[trigger] m[i].1.wf(),
    decreases m.len(),
{
    if m.len() > 0 {
        lemma_members_wf(m.drop_last());
        if forall|i: int| 0 <= i < m.len() ==> #[trigger] m[i].1.wf() {
            assert forall|i: int| 0 <= i < m.drop_last().len() implies #[trigger] m.drop_last()[i].1.wf() by {
                assert(m.drop_last()[i] == m[i]);
            }
            assert(m[m.len() - 1].1.wf());
        }
        if members_wf(m) {
            assert forall|i: int| 0 <= i < m.len() implies #[trigger] m[i].1.wf() by {
                if i < m.len() - 1 {
                    assert(m.drop_last()[i] == m[i]);
                } else {
                    assert(m[i] == m.last());
                }
            }
        }
    }
}

/// A JSON value. Object members are kept in ascending key order.
// Members are a sorted `Vec` rather than a map so that their order, which
// `range` reports, is part of what is proved.
#[derive(Debug, PartialEq)]
pub enum Json {
    Null,
    Bool(bool),
    Number(serde_json::Number),
    String(String),
    Array(Vec<Json>),
    Object(Vec<(String, Json)>),
}

impl Json {
    pub open spec fn view(&self) -> JsonView
        decreases self,
    {
        match self {
            Json::Null => JsonView::Null,
            Json::Bool(b) => JsonView::Bool(*b),
            Json::Number(n) => JsonView::Number(*n),
            Json::String(s) => JsonView::Str(s@),
            Json::Array(a) => JsonView::Array(views(a@)),
            Json::Object(m) => JsonView::Object(member_views(m@)),
        }
    }
}

pub open spec fn views(s: Seq<Json>) -> Seq<JsonView>
    decreases s,
{
    if s.len() == 0 {
        Seq::empty()
    } else {
        views(s.drop_last()).push(s.last().view())
    }
}

pub open spec fn member_views(s: Seq<(String, Json)>) -> Seq<(Seq<char>, JsonView)>
    decreases s,
{
    if s.len() == 0 {
        Seq::empty()
    } else {
        member_views(s.drop_last()).push((s.last().0@, s.last().1.view()))
    }
}

pub proof fn lemma_views(s: Seq<Json>)
    ensures
        views(s).len() == s.len(),
        forall|i: int| 0 <= i < s.len() ==> #[trigger] views(s)[i] == s[i]@,
    decreases s.len(),
{
    if s.len() > 0 {
        lemma_views(s.drop_last());
    }
}

pub proof fn lemma_member_views(s: Seq<(String, Json)>)
    ensures
        member_views(s).len() == s.len(),
        forall|i: int|
            0 <= i < s.len() ==> #[trigger] member_views(s)[i] == (s[i].0@, s[i].1@),
    decreases s.len(),
{
    if s.len() > 0 {
        lemma_member_views(s.drop_last());
    }
}

/// The position of the first member named `k` at or after `i`, or the length.
pub open spec fn key_from(m: Seq<(Seq<char>, JsonView)>, k: Seq<char>, i: int) -> int
    decreases m.len() - i,
{
    if i < 0 || i >= m.len() {
        m.len() as int
    } else if m[i].0 == k {
        i
    } else {
        key_from(m, k, i + 1)
    }
}

/// The position of the member named `k`, or the length if there is none.
pub open spec fn key_pos(m: Seq<(Seq<char>, JsonView)>, k: Seq<char>) -> int {
    key_from(m, k, 0)
}

/// The value of the member named `k`.
pub open spec fn lookup(m: Seq<(Seq<char>, JsonView)>, k: Seq<char>) -> Option<JsonView> {
    let p = key_pos(m, k);
    if p < m.len() {
        Some(m[p].1)
    } else {
        None
    }
}

/// The position of the first member at or after `i` whose key is not below `k`.
pub open spec fn lower_from(m: Seq<(Seq<char>, JsonView)>, k: Seq<char>, i: int) -> int
    decreases m.len() - i,
{
    if 0 <= i < m.len() && key_lt(m[i].0, k) {
        lower_from(m, k, i + 1)
    } else {
        i
    }
}

/// The members with `k` set to `x`: replaced where `k` is, else inserted in order.
pub open spec fn put(m: Seq<(Seq<char>, JsonView)>, k: Seq<char>, x: JsonView) -> Seq<(Seq<char>, JsonView)> {
    let p = lower_from(m, k, 0);
    if p < m.len() && m[p].0 == k {
        m.update(p, (k, x))
    } else {
        m.insert(p, (k, x))
    }
}

/// The members without the one named `k`.
pub open spec fn without(m: Seq<(Seq<char>, JsonView)>, k: Seq<char>) -> Seq<(Seq<char>, JsonView)> {
    let p = key_pos(m, k);
    if p < m.len() {
        m.remove(p)
    } else {
        m
    }
}

pub proof fn lemma_key_from(m: Seq<(Seq<char>, JsonView)>, k: Seq<char>, i: int)
    requires
        0 <= i <= m.len(),
    ensures
        i <= key_from(m, k, i) <= m.len(),
        key_from(m, k, i) < m.len() ==> m[key_from(m, k, i)].0 == k,
        forall|j: int| i <= j < key_from(m, k, i) ==> m[j].0 != k,
    decreases m.len() - i,
{
    if i < m.len() && m[i].0 != k {
        lemma_key_from(m, k, i + 1);
    }
}

pub proof fn lemma_key_from_at(m: Seq<(Seq<char>, JsonView)>, k: Seq<char>, i: int, x: int)
    requires
        0 <= i <= x <= m.len(),
        x < m.len() ==> m[x].0 == k,
        forall|j: int| i <= j < x ==> m[j].0 != k,
    ensures
        key_from(m, k, i) == x,
    decreases x - i,
{
    if i < x {
        lemma_key_from_at(m, k, i + 1, x);
    }
}

pub proof fn lemma_lower_from(m: Seq<(Seq<char>, JsonView)>, k: Seq<char>, i: int)
    requires
        0 <= i <= m.len(),
    ensures
        i <= lower_from(m, k, i) <= m.len(),
        lower_from(m, k, i) < m.len() ==> !key_lt(m[lower_from(m, k, i)].0, k),
        forall|j: int| i <= j < lower_from(m, k, i) ==> key_lt(m[j].0, k),
    decreases m.len() - i,
{
    if i < m.len() && key_lt(m[i].0, k) {
        lemma_lower_from(m, k, i + 1);
    }
}

/// In sorted members, a key is found only at its own place.
pub proof fn lemma_sorted_unique(m: Seq<(Seq<char>, JsonView)>, i: int, j: int)
    requires
        sorted(m),
        0 <= i < m.len(),
        0 <= j < m.len(),
        i != j,
    ensures
        m[i].0 != m[j].0,
{
    lemma_key_lt_irreflexive(m[i].0);
}

/// Setting a member keeps the order, makes the member hold the new value,
/// and leaves every other member as it was.
pub proof fn lemma_put(m: Seq<(Seq<char>, JsonView)>, k: Seq<char>, x: JsonView)
    requires
        sorted(m),
    ensures
        sorted(put(m, k, x)),
        lookup(put(m, k, x), k) == Some(x),
        forall|k2: Seq<char>| k2 != k ==> lookup(put(m, k, x), k2) == #[trigger] lookup(m, k2),
        forall|i: int| 0 <= i < put(m, k, x).len() ==> (#[trigger] put(m, k, x)[i].1 == x || exists|j: int| 0 <= j < m.len() && m[j].1 == put(m, k, x)[i].1),
{
    let p = lower_from(m, k, 0);
    lemma_lower_from(m, k, 0);
    let n = put(m, k, x);
    lemma_key_lt_irreflexive(k);
    assert forall|j: int| 0 <= j < p implies m[j].0 != k by {
        if m[j].0 == k {
            lemma_key_lt_irreflexive(k);
        }
    }
    if p < m.len() && m[p].0 == k {
        assert forall|i: int, j: int| 0 <= i < j < n.len() implies key_lt(n[i].0, n[j].0) by {
            assert(n[i].0 == m[i].0 && n[j].0 == m[j].0);
        }
        lemma_key_from_at(n, k, 0, p);
        assert forall|k2: Seq<char>| k2 != k implies lookup(n, k2) == #[trigger] lookup(m, k2) by {
            let q = key_pos(m, k2);
            lemma_key_from(m, k2, 0);
            lemma_key_from_at(n, k2, 0, q);
        }
        assert forall|i: int| 0 <= i < n.len() implies (#[trigger] n[i].1 == x || exists|j: int| 0 <= j < m.len() && m[j].1 == n[i].1) by {
            if i != p {
                assert(m[i].1 == n[i].1);
            }
        }
    } else {
        if p < m.len() {
            lemma_key_lt_total(k, m[p].0);
        }
        assert forall|i: int, j: int| 0 <= i < j < n.len() implies key_lt(n[i].0, n[j].0) by {
            if i < p && j == p {
            } else if i == p {
                if j - 1 > p {
                    crate::text::lemma_key_lt_transitive(k, m[p].0, m[j - 1].0);
                }
            } else if i < p && j < p {
                assert(n[i].0 == m[i].0 && n[j].0 == m[j].0);
            } else if i < p {
                assert(n[i].0 == m[i].0 && n[j].0 == m[j - 1].0);
            } else {
                assert(n[i].0 == m[i - 1].0 && n[j].0 == m[j - 1].0);
            }
        }
        lemma_key_from_at(n, k, 0, p);
        assert forall|k2: Seq<char>| k2 != k implies lookup(n, k2) == #[trigger] lookup(m, k2) by {
            let q = key_pos(m, k2);
            lemma_key_from(m, k2, 0);
            if q < p {
                lemma_key_from_at(n, k2, 0, q);
            } else {
                assert forall|j: int| 0 <= j < q + 1 implies n[j].0 != k2 by {
                    if j < p {
                        assert(n[j] == m[j]);
                    } else if j > p {
                        assert(n[j] == m[j - 1]);
                    }
                }
                lemma_key_from_at(n, k2, 0, q + 1);
                if q < m.len() {
                    assert(n[q + 1] == m[q]);
                }
            }
        }
        assert forall|i: int| 0 <= i < n.len() implies (#[trigger] n[i].1 == x || exists|j: int| 0 <= j < m.len() && m[j].1 == n[i].1) by {
            if i < p {
                assert(m[i].1 == n[i].1);
            } else if i > p {
                assert(m[i - 1].1 == n[i].1);
            }
        }
    }
}

/// Removing a member keeps the order, leaves no member of that name, and
/// leaves every other member as it was.
pub proof fn lemma_without(m: Seq<(Seq<char>, JsonView)>, k: Seq<char>)
    requires
        sorted(m),
    ensures
        sorted(without(m, k)),
        lookup(without(m, k), k) is None,
        forall|k2: Seq<char>| k2 != k ==> lookup(without(m, k), k2) == #[trigger] lookup(m, k2),
        forall|i: int| 0 <= i < without(m, k).len() ==> exists|j: int| 0 <= j < m.len() && m[j].1 == #[trigger] without(m, k)[i].1,
{
    let p = key_pos(m, k);
    lemma_key_from(m, k, 0);
    let n = without(m, k);
    if p < m.len() {
        assert forall|i: int, j: int| 0 <= i < j < n.len() implies key_lt(n[i].0, n[j].0) by {
            if i < p && j < p {
            } else if i < p {
                assert(n[j] == m[j + 1]);
            } else {
                assert(n[i] == m[i + 1] && n[j] == m[j + 1]);
            }
        }
        assert forall|j: int| 0 <= j < n.len() implies n[j].0 != k by {
            if j < p {
            } else {
                assert(n[j] == m[j + 1]);
                lemma_sorted_unique(m, p, j + 1);
            }
        }
        lemma_key_from_at(n, k, 0, n.len() as int);
        assert forall|k2: Seq<char>| k2 != k implies lookup(n, k2) == #[trigger] lookup(m, k2) by {
            let q = key_pos(m, k2);
            lemma_key_from(m, k2, 0);
            if q < p {
                lemma_key_from_at(n, k2, 0, q);
            } else {
                assert forall|j: int| 0 <= j < q - 1 implies n[j].0 != k2 by {
                    if j >= p {
                        assert(n[j] == m[j + 1]);
                    }
                }
                lemma_key_from_at(n, k2, 0, q - 1);
                if q < m.len() {
                    assert(n[q - 1] == m[q]);
                }
            }
        }
        assert forall|i: int| 0 <= i < n.len() implies exists|j: int| 0 <= j < m.len() && m[j].1 == #[trigger] n[i].1 by {
            if i < p {
                assert(m[i].1 == n[i].1);
            } else {
                assert(m[i + 1].1 == n[i].1);
            }
        }
    } else {
        assert forall|i: int| 0 <= i < n.len() implies exists|j: int| 0 <= j < m.len() && m[j].1 == #[trigger] n[i].1 by {
            assert(m[i].1 == n[i].1);
        }
    }
}

/// Setting a well-formed value keeps the members well formed.
pub proof fn lemma_put_wf(m: Seq<(Seq<char>, JsonView)>, k: Seq<char>, x: JsonView)
    requires
        sorted(m),
        members_wf(m),
        x.wf(),
    ensures
        sorted(put(m, k, x)),
        members_wf(put(m, k, x)),
{
    let pm = put(m, k, x);
    lemma_put(m, k, x);
    lemma_members_wf(m);
    lemma_members_wf(pm);
    assert forall|i: int| 0 <= i < pm.len() implies #[trigger] pm[i].1.wf() by {
        if pm[i].1 != x {
            let j = choose|j: int| 0 <= j < m.len() && m[j].1 == pm[i].1;
            assert(m[j].1.wf());
        }
    }
}

/// Removing a member keeps the members well formed.
pub proof fn lemma_without_wf(m: Seq<(Seq<char>, JsonView)>, k: Seq<char>)
    requires
        sorted(m),
        members_wf(m),
    ensures
        sorted(without(m, k)),
        members_wf(without(m, k)),
{
    let wm = without(m, k);
    lemma_without(m, k);
    lemma_members_wf(m);
    lemma_members_wf(wm);
    assert forall|i: int| 0 <= i < wm.len() implies #[trigger] wm[i].1.wf() by {
        let j = choose|j: int| 0 <= j < m.len() && m[j].1 == wm[i].1;
        assert(m[j].1.wf());
    }
}

/// The position of the member named `k`, or the number of members if there is none.
pub fn member_index(m: &Vec<(String, Json)>, k: &str) -> (r: usize)
    ensures
        r == key_pos(member_views(m@), k@),
{
    let ghost mv = member_views(m@);
    proof {
        lemma_member_views(m@);
    }
    let mut i: usize = 0;
    while i < m.len() && !same(m[i].0.as_str(), k)
        invariant
            i <= m@.len(),
            mv == member_views(m@),
            mv.len() == m@.len(),
            forall|j: int| 0 <= j < m@.len() ==> #[trigger] mv[j] == (m@[j].0@, m@[j].1@),
            key_pos(mv, k@) == key_from(mv, k@, i as int),
        decreases m@.len() - i,
    {
        i = i + 1;
    }
    i
}

/// Sets the member named `k` to `x`, keeping the members in key order.
pub fn member_put(m: &mut Vec<(String, Json)>, k: String, x: Json)
    ensures
        member_views(final(m)@) == put(member_views(old(m)@), k@, x@),
{
    let ghost mv = member_views(m@);
    proof {
        lemma_member_views(m@);
    }
    let mut i: usize = 0;
    while i < m.len() && compare(m[i].0.as_str(), k.as_str()) < 0
        invariant
            i <= m@.len(),
            m@ == old(m)@,
            mv == member_views(m@),
            mv.len() == m@.len(),
            forall|j: int| 0 <= j < m@.len() ==> #[trigger] mv[j] == (m@[j].0@, m@[j].1@),
            lower_from(mv, k@, 0) == lower_from(mv, k@, i as int),
        decreases m@.len() - i,
    {
        i = i + 1;
    }
    let ghost kv = k@;
    let ghost xv = x@;
    if i < m.len() && same(m[i].0.as_str(), k.as_str()) {
        m[i] = (k, x);
    } else {
        m.insert(i, (k, x));
    }
    proof {
        lemma_member_views(m@);
        assert(member_views(m@) =~= put(mv, kv, xv));
    }
}

/// Removes the member named `k`, if there is one.
pub fn member_remove(m: &mut Vec<(String, Json)>, k: &str)
    ensures
        member_views(final(m)@) == without(member_views(old(m)@), k@),
{
    let ghost mv = member_views(m@);
    let i = member_index(m, k);
    if i < m.len() {
        m.remove(i);
    }
    proof {
        lemma_member_views(old(m)@);
        lemma_member_views(m@);
        assert(member_views(m@) =~= without(mv, k@));
    }
}

impl Json {
    /// A copy of the value.
    pub fn copy(&self) -> (r: Json)
        ensures
            r@ == self@,
        decreases self, 1int,
    {
        match self {
            Json::Null => Json::Null,
            Json::Bool(b) => Json::Bool(*b),
            Json::Number(n) => Json::Number(n.clone()),
            Json::String(s) => Json::String(s.clone()),
            Json::Array(a) => Json::Array(copy_items(a)),
            Json::Object(m) => Json::Object(copy_members(m)),
        }
    }
}

pub(crate) fn copy_items(a: &Vec<Json>) -> (r: Vec<Json>)
    ensures
        views(r@) == views(a@),
    decreases a, 0int,
{
    let mut out: Vec<Json> = Vec::new();
    let mut i: usize = 0;
    while i < a.len()
        invariant
            i <= a@.len(),
            out@.len() == i,
            forall|j: int| 0 <= j < i ==> #[trigger] out@[j]@ == a@[j]@,
        decreases a@.len() - i,
    {
        proof {
            assert(decreases_to!(a@ => a@[i as int]));
            assert(decreases_to!(*a => a@));
        }
        out.push(a[i].copy());
        i = i + 1;
    }
    proof {
        lemma_views(out@);
        lemma_views(a@);
        assert(views(out@) =~= views(a@));
    }
    out
}

pub(crate) fn copy_members(m: &Vec<(String, Json)>) -> (r: Vec<(String, Json)>)
    ensures
        member_views(r@) == member_views(m@),
    decreases m, 0int,
{
    let mut out: Vec<(String, Json)> = Vec::new();
    let mut i: usize = 0;
    while i < m.len()
        invariant
            i <= m@.len(),
            out@.len() == i,
            forall|j: int|
                0 <= j < i ==> #[trigger] out@[j].0@ == m@[j].0@ && out@[j].1@ == m@[j].1@,
        decreases m@.len() - i,
    {
        proof {
            assert(decreases_to!(m@ => m@[i as int]));
            assert(decreases_to!(m@[i as int] => m@[i as int].1));
            assert(decreases_to!(*m => m@));
        }
        out.push((m[i].0.clone(), m[i].1.copy()));
        i = i + 1;
    }
    proof {
        lemma_member_views(out@);
        lemma_member_views(m@);
        assert(member_views(out@) =~= member_views(m@));
    }
    out
}

/// The JSON that a `serde_json::Value` holds.
pub uninterp spec fn json_of(v: serde_json::Value) -> JsonView;

/// The JSON document that a text holds, if it holds one.
pub uninterp spec fn parsed_json(text: Seq<char>) -> Option<JsonView>;

/// The compact text that `serde_json` writes for a JSON value.
pub uninterp spec fn json_text(v: JsonView) -> Seq<char>;

/// The text that `serde_json` writes for a number.
pub uninterp spec fn number_text(n: serde_json::Number) -> Seq<char>;

/// The number that `serde_json` makes of an unsigned integer.
pub uninterp spec fn number_of(n: u64) -> serde_json::Number;

/// Relies on `serde_json::from_str`: it reads one JSON document, and whether
/// it succeeds and what it reads depend on the text alone.
#[verifier::external_body]
fn read_json(text: &str) -> (r: Option<serde_json::Value>)
    ensures
        r is Some <==> parsed_json(text@) is Some,
        r matches Some(v) ==> parsed_json(text@) == Some(json_of(v)),
{
    serde_json::from_str::<serde_json::Value>(text).ok()
}

/// Relies on the `Display` of `serde_json::Value`: the compact JSON text of
/// the value, which depends on the value alone.
#[verifier::external_body]
fn write_json(v: &serde_json::Value) -> (r: String)
    ensures
        r@ == json_text(json_of(*v)),
{
    v.to_string()
}

/// Relies on the `Display` of `serde_json::Number`.
#[verifier::external_body]
fn number_display(n: &serde_json::Number) -> (r: String)
    ensures
        r@ == number_text(*n),
{
    n.to_string()
}

/// Relies on `serde_json::Number::from` for `u64`.
#[verifier::external_body]
pub(crate) fn index_number(n: u64) -> (r: serde_json::Number)
    ensures
        r == number_of(n),
{
    serde_json::Number::from(n)
}

impl Json {
    /// Relies on the shape of `serde_json::Value`, whose objects are a
    /// `BTreeMap<String, Value>` walked in ascending byte order of the keys:
    /// the same JSON, members in that order.
    #[verifier::external_body]
    pub(crate) fn from_serde(v: &serde_json::Value) -> (r: Json)
        ensures
            r@ == json_of(*v),
            r@.wf(),
    {
        match v {
            serde_json::Value::Null => Json::Null,
            serde_json::Value::Bool(b) => Json::Bool(*b),
            serde_json::Value::Number(n) => Json::Number(n.clone()),
            serde_json::Value::String(s) => Json::String(s.clone()),
            serde_json::Value::Array(a) => Json::Array(a.iter().map(Json::from_serde).collect()),
            serde_json::Value::Object(m) => Json::Object(
                m.iter().map(|(k, x)| (k.clone(), Json::from_serde(x))).collect(),
            ),
        }
    }

    /// Relies on the shape of `serde_json::Value`, whose objects are a
    /// `BTreeMap<String, Value>`: members given in ascending key order, each
    /// key once, come back in that order.
    #[verifier::external_body]
    pub(crate) fn to_serde(&self) -> (r: serde_json::Value)
        ensures
            self@.wf() ==> json_of(r) == self@,
    {
        match self {
            Json::Null => serde_json::Value::Null,
            Json::Bool(b) => serde_json::Value::Bool(*b),
            Json::Number(n) => serde_json::Value::Number(n.clone()),
            Json::String(s) => serde_json::Value::String(s.clone()),
            Json::Array(a) => serde_json::Value::Array(a.iter().map(Json::to_serde).collect()),
            Json::Object(m) => serde_json::Value::Object(
                m.iter().map(|(k, x)| (k.clone(), x.to_serde())).collect(),
            ),
        }
    }

    /// Reads a JSON document.
    pub fn parse(text: &str) -> (r: Result<Json, Error>)
        ensures
            r is Ok <==> parsed_json(text@) is Some,
            r matches Ok(v) ==> parsed_json(text@) == Some(v@) && v@.wf(),
            r matches Err(e) ==> e == Error::SerdeError,
    {
        match read_json(text) {
            Some(v) => Ok(Json::from_serde(&v)),
            None => Err(Error::SerdeError),
        }
    }

    /// The compact JSON text of the value.
    pub fn to_json(&self) -> (r: String)
        requires
            self@.wf(),
        ensures
            r@ == json_text(self@),
    {
        write_json(&self.to_serde())
    }
}

/// The text of a value for a person to read: a scalar bare, anything else as
/// JSON.
pub open spec fn raw_text(v: JsonView) -> Seq<char> {
    match v {
        JsonView::Null => "null"@,
        JsonView::Bool(b) => if b {
            "true"@
        } else {
            "false"@
        },
        JsonView::Number(n) => number_text(n),
        JsonView::Str(s) => s,
        _ => json_text(v),
    }
}

/// The text of a value for a person to read: a string without quotes, a
/// number, `true`, `false` or `null` bare, an array or object as JSON.
pub fn print_raw(value: &Json) -> (r: String)
    requires
        value@.wf(),
    ensures
        r@ == raw_text(value@),
{
    match value {
        Json::Null => String::from_str("null"),
        Json::Bool(b) => if *b {
            String::from_str("true")
        } else {
            String::from_str("false")
        },
        Json::Number(n) => number_display(n),
        Json::String(s) => s.clone(),
        _ => value.to_json(),
    }
}

} // verus!
