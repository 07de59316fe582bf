//! Durations written as a sum of terms such as `1h30m`: each term is one to
//! ten decimal digits followed by a unit, `d`, `h`, `m` or `s`.

use vstd::prelude::*;
use vstd::string::*;

use crate::jsonpath::{digits_value, is_digit};
use crate::text::{trim, trimmed};

verus! {

/// Why a duration could not be read.
#[derive(Debug, PartialEq, Eq, Structural)]
pub enum Error {
    /// A term is not a run of digits followed by a unit.
    ParseSyntaxError,
    /// The text is blank, or the total does not fit.
    ParseDurationError,
}

impl Error {
    pub open spec fn text(&self) -> Seq<char> {
        match self {
            Error::ParseSyntaxError => "Syntax error"@,
            Error::ParseDurationError => "Could not parse duration"@,
        }
    }

    /// The text that describes the error.
    pub fn message(&self) -> (r: String)
        ensures
            r@ == self.text(),
    {
        match self {
            Error::ParseSyntaxError => String::from_str("Syntax error"),
            Error::ParseDurationError => String::from_str("Could not parse duration"),
        }
    }
}

/// A length of time in whole seconds.
#[derive(Debug, Clone, Copy, PartialEq, Eq, Structural)]
pub struct Duration {
    secs: u64,
}

impl Duration {
    pub closed spec fn secs(&self) -> u64 {
        self.secs
    }

    pub fn from_secs(secs: u64) -> (r: Duration)
        ensures
            r.secs() == secs,
    {
        Duration { secs }
    }

    /// The length in seconds.
    pub fn duration(&self) -> (r: u64)
        ensures
            r == self.secs(),
    {
        self.secs
    }
}

/// The seconds in one of a unit.
pub open spec fn unit_secs(c: char) -> Option<nat> {
    if c == 'd' {
        Some(86400)
    } else if c == 'h' {
        Some(3600)
    } else if c == 'm' {
        Some(60)
    } else if c == 's' {
        Some(1)
    } else {
        None
    }
}

/// The number of digits from `i` on, at most `k`.
pub open spec fn digit_run(t: Seq<char>, i: int, k: nat) -> nat
    decreases k,
{
    if k == 0 || i < 0 || i >= t.len() || !is_digit(t[i]) {
        0
    } else {
        1 + digit_run(t, i + 1, (k - 1) as nat)
    }
}

/// The total of the terms of `t` from `i` on.
pub open spec fn terms_from(t: Seq<char>, i: int) -> Result<nat, Error>
    decreases t.len() - i,
{
    if i < 0 || i >= t.len() {
        Ok(0)
    } else {
        let n = digit_run(t, i, 10);
        if n == 0 || i + n >= t.len() {
            Err(Error::ParseSyntaxError)
        } else {
            match unit_secs(t[i + n]) {
                None => Err(Error::ParseSyntaxError),
                Some(u) => match terms_from(t, i + n + 1) {
                    Ok(r) => Ok(digits_value(t.subrange(i, i + n)) * u + r),
                    Err(e) => Err(e),
                },
            }
        }
    }
}

/// What `parse` makes of a text: the total in seconds of its terms, white
/// space trimmed first.
pub open spec fn duration_of(input: Seq<char>) -> Result<nat, Error> {
    let t = trimmed(input);
    if t.len() == 0 {
        Err(Error::ParseDurationError)
    } else {
        match terms_from(t, 0) {
            Ok(total) => if total <= u64::MAX {
                Ok(total)
            } else {
                Err(Error::ParseDurationError)
            },
            Err(e) => Err(e),
        }
    }
}

fn is_unit(c: char) -> (r: Option<u64>)
    ensures
        match r {
            Some(u) => unit_secs(c) == Some(u as nat),
            None => unit_secs(c) is None,
        },
{
    if c == 'd' {
        Some(86400)
    } else if c == 'h' {
        Some(3600)
    } else if c == 'm' {
        Some(60)
    } else if c == 's' {
        Some(1)
    } else {
        None
    }
}

/// Ten to the power `n`.
pub open spec fn pow10(n: nat) -> nat
    decreases n,
{
    if n == 0 {
        1
    } else {
        10 * pow10((n - 1) as nat)
    }
}

/// Reads a duration: one or more terms, each one to ten digits and a unit
/// (`d` a day of 24 hours, `h`, `m`, `s`), with no space between them and
/// white space allowed around the whole.
pub fn parse(input: &str) -> (r: Result<Duration, Error>)
    ensures
        match r {
            Ok(d) => duration_of(input@) == Ok::<nat, Error>(d.secs() as nat),
            Err(e) => duration_of(input@) == Err::<nat, Error>(e),
        },
{
    let t = trim(input);
    let n = t.unicode_len();
    if n == 0 {
        return Err(Error::ParseDurationError);
    }
    let mut i: usize = 0;
    let mut acc: u64 = 0;
    let mut overflow = false;
    let ghost mut sofar: nat = 0;
    while i < n
        invariant
            i <= n,
            n == t@.len(),
            t@ == trimmed(input@),
            terms_from(t@, 0) == match terms_from(t@, i as int) {
                Ok(x) => Ok::<nat, Error>((sofar + x) as nat),
                Err(e) => Err::<nat, Error>(e),
            },
            !overflow ==> acc == sofar,
            overflow ==> sofar > u64::MAX,
        decreases n - i,
    {
        let mut j: usize = i;
        let mut value: u64 = 0;
        assert(t@.subrange(i as int, i as int) =~= Seq::<char>::empty());
        while j < n && j - i < 10 && is_digit_char(t.get_char(j))
            invariant
                i <= j <= n,
                j - i <= 10,
                n == t@.len(),
                digit_run(t@, i as int, 10) == (j - i) + digit_run(t@, j as int, (10 - (j - i)) as nat),
                forall|k: int| i <= k < j ==> is_digit(#[trigger] t@[k]),
                value == digits_value(t@.subrange(i as int, j as int)),
                value < pow10((j - i) as nat),
            decreases n - j,
        {
            let c = t.get_char(j);
            assert(t@.subrange(i as int, j + 1).drop_last() =~= t@.subrange(i as int, j as int));
            assert(pow10((j + 1 - i) as nat) == 10 * pow10((j - i) as nat));
            assert(value * 10 + ((c as u32) - 48) < pow10((j + 1 - i) as nat)) by (nonlinear_arith)
                requires
                    value < pow10((j - i) as nat),
                    (c as u32) - 48 < 10,
                    pow10((j + 1 - i) as nat) == 10 * pow10((j - i) as nat),
            ;
            assert(pow10((j + 1 - i) as nat) <= 10000000000) by {
                lemma_pow10_bound((j + 1 - i) as nat);
            }
            value = value * 10 + ((c as u32) - 48) as u64;
            j = j + 1;
        }
        let len = j - i;
        assert(digit_run(t@, j as int, (10 - len) as nat) == 0);
        if len == 0 || j >= n {
            return Err(Error::ParseSyntaxError);
        }
        let unit = match is_unit(t.get_char(j)) {
            Some(u) => u,
            None => return Err(Error::ParseSyntaxError),
        };
        proof {
            lemma_pow10_bound(len as nat);
        }
        assert(value * unit <= 9999999999 * 86400) by (nonlinear_arith)
            requires
                value < 10000000000,
                unit <= 86400,
        ;
        let term = value * unit;
        assert(t@.subrange(i as int, (i + len) as int) == t@.subrange(i as int, j as int));
        assert(terms_from(t@, i as int) == match terms_from(t@, (j + 1) as int) {
            Ok(x) => Ok::<nat, Error>((term + x) as nat),
            Err(e) => Err::<nat, Error>(e),
        });
        proof {
            sofar = (sofar + term) as nat;
        }
        if !overflow {
            match acc.checked_add(term) {
                Some(x) => {
                    acc = x;
                },
                None => {
                    overflow = true;
                },
            }
        }
        i = j + 1;
    }
    assert(terms_from(t@, n as int) == Ok::<nat, Error>(0));
    if overflow {
        Err(Error::ParseDurationError)
    } else {
        Ok(Duration { secs: acc })
    }
}

proof fn lemma_pow10_bound(n: nat)
    requires
        n <= 10,
    ensures
        pow10(n) <= 10000000000,
{
    lemma_pow10_mono(n, 10);
    reveal_with_fuel(pow10, 11);
}

proof fn lemma_pow10_mono(n: nat, m: nat)
    requires
        n <= m,
    ensures
        pow10(n) <= pow10(m),
    decreases m - n,
{
    if n < m {
        lemma_pow10_mono(n, (m - 1) as nat);
    }
}

fn is_digit_char(c: char) -> (r: bool)
    ensures
        r == is_digit(c),
{
    (c as u32) >= 48 && (c as u32) <= 57
}

} // verus!
