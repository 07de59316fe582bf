//! Character-level helpers on strings: searching, trimming, splitting and
//! the byte order in which keys are kept.

use vstd::prelude::*;
use vstd::string::*;
use vstd::utf8::*;

verus! {

/// The characters with the Unicode `White_Space` property.
pub open spec fn is_space(c: char) -> bool {
    let u = c as u32;
    (9 <= u <= 13) || u == 32 || u == 0x85 || u == 0xa0 || u == 0x1680 || (0x2000 <= u <= 0x200a)
        || u == 0x2028 || u == 0x2029 || u == 0x202f || u == 0x205f || u == 0x3000
}

pub fn space(c: char) -> (r: bool)
    ensures
        r == is_space(c),
{
    let u = c as u32;
    (9 <= u && u <= 13) || u == 32 || u == 0x85 || u == 0xa0 || u == 0x1680 || (0x2000 <= u && u
        <= 0x200a) || u == 0x2028 || u == 0x2029 || u == 0x202f || u == 0x205f || u == 0x3000
}

/// The index of the first `c` in `s` at or after `i`, or `s.len()` if there is none.
pub open spec fn find_from(s: Seq<char>, c: char, i: int) -> int
    decreases s.len() - i,
{
    if i < 0 || i >= s.len() {
        s.len() as int
    } else if s[i] == c {
        i
    } else {
        find_from(s, c, i + 1)
    }
}

/// The index of the last `c` in `s` before `j`, or `-1` if there is none.
pub open spec fn rfind_before(s: Seq<char>, c: char, j: int) -> int
    decreases j,
{
    if j <= 0 {
        -1
    } else if s[j - 1] == c {
        j - 1
    } else {
        rfind_before(s, c, j - 1)
    }
}

pub proof fn lemma_find_from(s: Seq<char>, c: char, i: int)
    requires
        0 <= i <= s.len(),
    ensures
        i <= find_from(s, c, i) <= s.len(),
        find_from(s, c, i) < s.len() ==> s[find_from(s, c, i)] == c,
        forall|k: int| i <= k < find_from(s, c, i) ==> s[k] != c,
    decreases s.len() - i,
{
    if i < s.len() && s[i] != c {
        lemma_find_from(s, c, i + 1);
    }
}

/// A position that holds `c`, with no `c` between `i` and it, is the one found.
pub proof fn lemma_find_from_at(s: Seq<char>, c: char, i: int, x: int)
    requires
        0 <= i <= x <= s.len(),
        x < s.len() ==> s[x] == c,
        forall|k: int| i <= k < x ==> s[k] != c,
    ensures
        find_from(s, c, i) == x,
    decreases x - i,
{
    if i < x {
        lemma_find_from_at(s, c, i + 1, x);
    }
}

pub proof fn lemma_rfind_before(s: Seq<char>, c: char, j: int)
    requires
        0 <= j <= s.len(),
    ensures
        -1 <= rfind_before(s, c, j) < j,
        rfind_before(s, c, j) >= 0 ==> s[rfind_before(s, c, j)] == c,
        forall|k: int| rfind_before(s, c, j) < k < j ==> s[k] != c,
    decreases j,
{
    if j > 0 && s[j - 1] != c {
        lemma_rfind_before(s, c, j - 1);
    }
}

/// The index of the first `c` in `s` at or after `i`, or the length of `s`.
pub fn find_char(s: &str, c: char, i: usize) -> (r: usize)
    requires
        i <= s@.len(),
    ensures
        r == find_from(s@, c, i as int),
{
    let n = s.unicode_len();
    let mut k: usize = i;
    while k < n && s.get_char(k) != c
        invariant
            i <= k <= n,
            n == s@.len(),
            find_from(s@, c, i as int) == find_from(s@, c, k as int),
        decreases n - k,
    {
        k = k + 1;
    }
    k
}

/// The index of the last `c` in `s`, if there is one.
pub fn rfind_char(s: &str, c: char) -> (r: Option<usize>)
    ensures
        match r {
            Some(x) => x == rfind_before(s@, c, s@.len() as int),
            None => rfind_before(s@, c, s@.len() as int) == -1,
        },
{
    let n = s.unicode_len();
    let mut j: usize = n;
    while j > 0 && s.get_char(j - 1) != c
        invariant
            j <= n,
            n == s@.len(),
            rfind_before(s@, c, n as int) == rfind_before(s@, c, j as int),
        decreases j,
    {
        j = j - 1;
    }
    if j == 0 {
        None
    } else {
        Some(j - 1)
    }
}

/// The index of the first character at or after `i` that is not white space.
pub open spec fn skip_space(s: Seq<char>, i: int) -> int
    decreases s.len() - i,
{
    if 0 <= i < s.len() && is_space(s[i]) {
        skip_space(s, i + 1)
    } else {
        i
    }
}

/// The end of `s.subrange(lo, j)` once white space is taken off its back.
pub open spec fn back_space(s: Seq<char>, lo: int, j: int) -> int
    decreases j - lo,
{
    if lo < j && is_space(s[j - 1]) {
        back_space(s, lo, j - 1)
    } else {
        j
    }
}

/// `s` without white space at either end.
pub open spec fn trimmed(s: Seq<char>) -> Seq<char> {
    let a = skip_space(s, 0);
    s.subrange(a, back_space(s, a, s.len() as int))
}

pub proof fn lemma_skip_space(s: Seq<char>, i: int)
    requires
        0 <= i <= s.len(),
    ensures
        i <= skip_space(s, i) <= s.len(),
    decreases s.len() - i,
{
    if i < s.len() && is_space(s[i]) {
        lemma_skip_space(s, i + 1);
    }
}

pub proof fn lemma_back_space(s: Seq<char>, lo: int, j: int)
    requires
        lo <= j,
    ensures
        lo <= back_space(s, lo, j) <= j,
    decreases j - lo,
{
    if lo < j && is_space(s[j - 1]) {
        lemma_back_space(s, lo, j - 1);
    }
}

/// Trimming never lengthens a text.
pub proof fn lemma_trimmed_len(s: Seq<char>)
    ensures
        trimmed(s).len() <= s.len(),
{
    lemma_skip_space(s, 0);
    lemma_back_space(s, skip_space(s, 0), s.len() as int);
}

/// `s` without white space at either end.
pub fn trim(s: &str) -> (r: &str)
    ensures
        r@ == trimmed(s@),
{
    let n = s.unicode_len();
    let mut a: usize = 0;
    while a < n && space(s.get_char(a))
        invariant
            a <= n,
            n == s@.len(),
            skip_space(s@, 0) == skip_space(s@, a as int),
        decreases n - a,
    {
        a = a + 1;
    }
    let mut b: usize = n;
    while a < b && space(s.get_char(b - 1))
        invariant
            a <= b <= n,
            n == s@.len(),
            back_space(s@, a as int, n as int) == back_space(s@, a as int, b as int),
        decreases b,
    {
        b = b - 1;
    }
    s.substring_char(a, b)
}

/// The pieces of `s` from `i` on, cut at each `c`.
pub open spec fn split_from(s: Seq<char>, c: char, i: int) -> Seq<Seq<char>>
    decreases s.len() - i,
    via split_from_decreases
{
    let x = find_from(s, c, i);
    if i < 0 || i > s.len() || x >= s.len() {
        seq![s.subrange(i, s.len() as int)]
    } else {
        seq![s.subrange(i, x)] + split_from(s, c, x + 1)
    }
}

#[via_fn]
proof fn split_from_decreases(s: Seq<char>, c: char, i: int) {
    if 0 <= i <= s.len() {
        lemma_find_from(s, c, i);
    }
}

/// The pieces of `s` cut at each `c`: one more than the number of `c` in it.
pub open spec fn split_on(s: Seq<char>, c: char) -> Seq<Seq<char>> {
    split_from(s, c, 0)
}

/// The pieces of `s` cut at each `c`, as `split_on` gives them.
pub fn split_char(s: &str, c: char) -> (r: Vec<String>)
    ensures
        r@.len() == split_on(s@, c).len(),
        forall|k: int| 0 <= k < r@.len() ==> #[trigger] r@[k]@ == split_on(s@, c)[k],
{
    let n = s.unicode_len();
    let mut out: Vec<String> = Vec::new();
    let mut i: usize = 0;
    loop
        invariant
            i <= n,
            n == s@.len(),
            split_on(s@, c) =~= Seq::new(out@.len() as nat, |k: int| out@[k]@) + split_from(
                s@,
                c,
                i as int,
            ),
        decreases n - i,
    {
        let x = find_char(s, c, i);
        proof {
            lemma_find_from(s@, c, i as int);
        }
        let piece = s.substring_char(i, x).to_owned();
        let ghost before = Seq::new(out@.len() as nat, |k: int| out@[k]@);
        out.push(piece);
        assert(Seq::new(out@.len() as nat, |k: int| out@[k]@) =~= before.push(piece@));
        if x >= n {
            assert(split_from(s@, c, i as int) =~= seq![piece@]);
            return out;
        }
        assert(split_from(s@, c, i as int) =~= seq![piece@] + split_from(s@, c, (x + 1) as int));
        i = x + 1;
    }
}

/// Byte strings in lexicographic order.
pub open spec fn bytes_lt(a: Seq<u8>, b: Seq<u8>) -> bool
    decreases a.len(),
{
    if a.len() == 0 {
        b.len() > 0
    } else if b.len() == 0 {
        false
    } else if a[0] != b[0] {
        a[0] < b[0]
    } else {
        bytes_lt(a.drop_first(), b.drop_first())
    }
}

/// The order of strings: that of their UTF-8 bytes.
pub open spec fn key_lt(a: Seq<char>, b: Seq<char>) -> bool {
    bytes_lt(encode_utf8(a), encode_utf8(b))
}

pub proof fn lemma_bytes_lt_irreflexive(a: Seq<u8>)
    ensures
        !bytes_lt(a, a),
    decreases a.len(),
{
    if a.len() > 0 {
        lemma_bytes_lt_irreflexive(a.drop_first());
    }
}

pub proof fn lemma_bytes_lt_transitive(a: Seq<u8>, b: Seq<u8>, c: Seq<u8>)
    requires
        bytes_lt(a, b),
        bytes_lt(b, c),
    ensures
        bytes_lt(a, c),
    decreases a.len(),
{
    if a.len() > 0 && b.len() > 0 && c.len() > 0 && a[0] == b[0] && b[0] == c[0] {
        lemma_bytes_lt_transitive(a.drop_first(), b.drop_first(), c.drop_first());
    }
}

pub proof fn lemma_bytes_lt_total(a: Seq<u8>, b: Seq<u8>)
    requires
        a != b,
    ensures
        bytes_lt(a, b) || bytes_lt(b, a),
    decreases a.len(),
{
    if a.len() > 0 && b.len() > 0 && a[0] == b[0] {
        if a.drop_first() == b.drop_first() {
            assert(a =~= seq![a[0]] + a.drop_first());
            assert(b =~= seq![b[0]] + b.drop_first());
        }
        lemma_bytes_lt_total(a.drop_first(), b.drop_first());
    } else if a.len() == 0 && b.len() == 0 {
        assert(a =~= b);
    }
}

pub proof fn lemma_key_lt_irreflexive(a: Seq<char>)
    ensures
        !key_lt(a, a),
{
    lemma_bytes_lt_irreflexive(encode_utf8(a));
}

pub proof fn lemma_key_lt_transitive(a: Seq<char>, b: Seq<char>, c: Seq<char>)
    requires
        key_lt(a, b),
        key_lt(b, c),
    ensures
        key_lt(a, c),
{
    lemma_bytes_lt_transitive(encode_utf8(a), encode_utf8(b), encode_utf8(c));
}

pub proof fn lemma_key_lt_total(a: Seq<char>, b: Seq<char>)
    requires
        a != b,
    ensures
        key_lt(a, b) || key_lt(b, a),
{
    encode_utf8_decode_utf8(a);
    encode_utf8_decode_utf8(b);
    lemma_bytes_lt_total(encode_utf8(a), encode_utf8(b));
}

/// Compares two strings in key order: negative, zero or positive as `a` comes
/// before, equals or comes after `b`.
pub fn compare(a: &str, b: &str) -> (r: i8)
    ensures
        r < 0 <==> key_lt(a@, b@),
        r == 0 <==> a@ == b@,
        r > 0 <==> key_lt(b@, a@),
{
    let x = a.as_bytes();
    let y = b.as_bytes();
    let ghost ea = encode_utf8(a@);
    let ghost eb = encode_utf8(b@);
    let mut i: usize = 0;
    assert(ea.skip(0) =~= ea);
    assert(eb.skip(0) =~= eb);
    loop
        invariant
            ea == encode_utf8(a@),
            eb == encode_utf8(b@),
            x@ == ea,
            y@ == eb,
            i <= x@.len(),
            i <= y@.len(),
            ea.subrange(0, i as int) == eb.subrange(0, i as int),
            bytes_lt(ea, eb) == bytes_lt(ea.skip(i as int), eb.skip(i as int)),
            bytes_lt(eb, ea) == bytes_lt(eb.skip(i as int), ea.skip(i as int)),
        decreases x@.len() - i,
    {
        let ghost sa = ea.skip(i as int);
        let ghost sb = eb.skip(i as int);
        if i == x.len() || i == y.len() || x[i] != y[i] {
            let r: i8;
            if i == x.len() && i == y.len() {
                assert(ea =~= ea.subrange(0, i as int));
                assert(eb =~= eb.subrange(0, i as int));
                r = 0;
            } else if i == x.len() || (i < y.len() && x[i] < y[i]) {
                assert(bytes_lt(sa, sb));
                assert(!bytes_lt(sb, sa));
                r = -1;
            } else {
                assert(bytes_lt(sb, sa));
                assert(!bytes_lt(sa, sb));
                r = 1;
            }
            assert(r != 0 ==> sa != sb);
            assert(r != 0 ==> ea != eb);
            proof {
                encode_utf8_decode_utf8(a@);
                encode_utf8_decode_utf8(b@);
                lemma_bytes_lt_irreflexive(ea);
                if bytes_lt(ea, eb) && bytes_lt(eb, ea) {
                    lemma_bytes_lt_transitive(ea, eb, ea);
                }
            }
            return r;
        }
        assert(sa.drop_first() =~= ea.skip(i + 1));
        assert(sb.drop_first() =~= eb.skip(i + 1));
        assert(ea.subrange(0, i + 1) =~= ea.subrange(0, i as int).push(ea[i as int]));
        assert(eb.subrange(0, i + 1) =~= eb.subrange(0, i as int).push(eb[i as int]));
        i = i + 1;
    }
}

/// Whether two strings hold the same characters.
pub fn same(a: &str, b: &str) -> (r: bool)
    ensures
        r == (a@ == b@),
{
    compare(a, b) == 0
}

} // verus!
