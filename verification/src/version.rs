//! Dotted version numbers of the form `l.m.n`, read from text.

use vstd::prelude::*;
use vstd::string::StrSliceExecFns;

verus! {

/// A three-component version number.
#[derive(Debug, PartialEq, Eq, PartialOrd, Ord, Clone)]
pub struct Version {
    pub l: usize,
    pub m: usize,
    pub n: usize,
}

/// Why a string failed to read as a [`Version`].
#[derive(Debug, PartialEq, Eq, Clone, Copy)]
pub enum FromStrError {
    /// The string does not consist of three fields split by dots.
    Split3,
    /// A field is not an unsigned decimal number that fits in `usize`.
    Parse,
}

/// True when `c` is a decimal digit.
pub open spec fn is_digit(c: char) -> bool {
    '0' as u32 <= c as u32 && c as u32 <= '9' as u32
}

/// Numeric value of a decimal digit.
pub open spec fn digit_val(c: char) -> nat
    recommends
        is_digit(c),
{
    (c as u32 - '0' as u32) as nat
}

/// Value of a run of decimal digits read most significant first.
pub open spec fn digits_val(cs: Seq<char>) -> nat
    decreases cs.len(),
{
    if cs.len() == 0 {
        0
    } else {
        digits_val(cs.drop_last()) * 10 + digit_val(cs.last())
    }
}

/// True when every character of `cs` is a decimal digit.
pub open spec fn all_digits(cs: Seq<char>) -> bool {
    forall|i: int| 0 <= i < cs.len() ==> is_digit(#[trigger] cs[i])
}

/// The digits of a number field, with an optional leading plus sign removed.
pub open spec fn number_body(cs: Seq<char>) -> Seq<char> {
    if cs.len() > 0 && cs[0] == '+' {
        cs.subrange(1, cs.len() as int)
    } else {
        cs
    }
}

/// True when `cs` is a well-formed unsigned decimal number: an optional
/// leading plus sign followed by at least one digit.
pub open spec fn is_number(cs: Seq<char>) -> bool {
    number_body(cs).len() > 0 && all_digits(number_body(cs))
}

/// The value of a well-formed unsigned decimal number.
pub open spec fn number_val(cs: Seq<char>) -> nat
    recommends
        is_number(cs),
{
    digits_val(number_body(cs))
}

/// True when `cs` reads as an unsigned decimal number whose value fits in
/// `usize`.
pub open spec fn fits_usize(cs: Seq<char>) -> bool {
    is_number(cs) && number_val(cs) <= usize::MAX
}

/// Index of the first occurrence of `c` in `cs` at or after `from`, or
/// `cs.len()` when there is none.
pub open spec fn find_from(cs: Seq<char>, c: char, from: int) -> int
    decreases cs.len() - from
    when 0 <= from <= cs.len()
{
    if from >= cs.len() {
        cs.len() as int
    } else if cs[from] == c {
        from
    } else {
        find_from(cs, c, from + 1)
    }
}

proof fn lemma_find_from(cs: Seq<char>, c: char, from: int)
    requires
        0 <= from <= cs.len(),
    ensures
        from <= find_from(cs, c, from) <= cs.len(),
        find_from(cs, c, from) < cs.len() ==> cs[find_from(cs, c, from)] == c,
    decreases cs.len() - from,
{
    if from < cs.len() && cs[from] != c {
        lemma_find_from(cs, c, from + 1);
    }
}

proof fn lemma_digits_val_prefix(cs: Seq<char>, i: int)
    requires
        0 <= i <= cs.len(),
    ensures
        digits_val(cs.subrange(0, i)) <= digits_val(cs),
    decreases cs.len() - i,
{
    if i == cs.len() {
        assert(cs.subrange(0, i) =~= cs);
    } else {
        assert(cs.subrange(0, i + 1).drop_last() =~= cs.subrange(0, i));
        assert(digits_val(cs.subrange(0, i + 1)) == digits_val(cs.subrange(0, i)) * 10
            + digit_val(cs[i]));
        lemma_digits_val_prefix(cs, i + 1);
    }
}

fn find_char(s: &str, c: char, from: usize) -> (r: usize)
    requires
        from <= s@.len(),
    ensures
        r == find_from(s@, c, from as int),
{
    let n = s.unicode_len();
    let mut i = from;
    while i < n
        invariant
            from <= i <= n,
            n == s@.len(),
            find_from(s@, c, from as int) == find_from(s@, c, i as int),
        decreases n - i,
    {
        if s.get_char(i) == c {
            return i;
        }
        i += 1;
    }
    i
}

fn parse_component(s: &str, from: usize, to: usize) -> (r: Option<usize>)
    requires
        from <= to <= s@.len(),
    ensures
        ({
            let part = s@.subrange(from as int, to as int);
            match r {
                Some(v) => fits_usize(part) && v == number_val(part),
                None => !fits_usize(part),
            }
        }),
{
    let ghost part = s@.subrange(from as int, to as int);
    let mut i = from;
    if i < to && s.get_char(i) == '+' {
        i += 1;
    }
    let ghost body = s@.subrange(i as int, to as int);
    proof {
        assert(body =~= number_body(part));
    }
    if i == to {
        return None;
    }
    let mut val: usize = 0;
    let mut j = i;
    while j < to
        invariant
            i <= j <= to,
            to <= s@.len(),
            i < to,
            part == s@.subrange(from as int, to as int),
            body == s@.subrange(i as int, to as int),
            body == number_body(part),
            all_digits(body.subrange(0, j - i)),
            val == digits_val(body.subrange(0, j - i)),
        decreases to - j,
    {
        let c = s.get_char(j);
        let u = c as u32;
        if u < '0' as u32 || u > '9' as u32 {
            proof {
                assert(body[j - i] == s@[j as int]);
                assert(!is_digit(body[j - i]));
            }
            return None;
        }
        let d = u - '0' as u32;
        let ghost prefix = body.subrange(0, j - i);
        proof {
            assert(body.subrange(0, j - i + 1).drop_last() =~= prefix);
            assert(body.subrange(0, j - i + 1).last() == body[j - i]);
            assert(digits_val(body.subrange(0, j - i + 1)) == val * 10 + digit_val(body[j - i]));
        }
        if val > (usize::MAX - d as usize) / 10 {
            proof {
                assert(val * 10 + d > usize::MAX) by (nonlinear_arith)
                    requires
                        val > (usize::MAX - d as usize) / 10,
                        0 <= d <= 9,
                ;
                lemma_digits_val_prefix(body, j - i + 1);
                assert(digits_val(body) > usize::MAX);
            }
            return None;
        }
        proof {
            assert(val * 10 + d <= usize::MAX) by (nonlinear_arith)
                requires
                    val <= (usize::MAX - d as usize) / 10,
                    0 <= d <= 9,
            ;
        }
        val = val * 10 + d as usize;
        j += 1;
    }
    proof {
        assert(body.subrange(0, j - i) =~= body);
        assert(body.len() > 0);
    }
    Some(val)
}

impl Version {
    /// Builds a version from its three components.
    pub fn new(l: usize, m: usize, n: usize) -> (v: Version)
        ensures
            v.l == l,
            v.m == m,
            v.n == n,
    {
        Version { l, m, n }
    }

    /// Reads a version from text of the form `l.m.n`: exactly three fields
    /// split by dots, each an unsigned decimal number that fits in `usize`.
    pub fn parse(s: &str) -> (r: Result<Version, FromStrError>)
        ensures
            ({
                let cs = s@;
                let d1 = find_from(cs, '.', 0);
                if d1 == cs.len() {
                    r == Err::<Version, FromStrError>(FromStrError::Split3)
                } else {
                    let d2 = find_from(cs, '.', d1 + 1);
                    if d2 == cs.len() {
                        r == Err::<Version, FromStrError>(FromStrError::Split3)
                    } else {
                        let d3 = find_from(cs, '.', d2 + 1);
                        if d3 != cs.len() {
                            r == Err::<Version, FromStrError>(FromStrError::Split3)
                        } else {
                            let p1 = cs.subrange(0, d1);
                            let p2 = cs.subrange(d1 + 1, d2);
                            let p3 = cs.subrange(d2 + 1, cs.len() as int);
                            if fits_usize(p1) && fits_usize(p2) && fits_usize(p3) {
                                r matches Ok(v) && v.l == number_val(p1) && v.m == number_val(p2)
                                    && v.n == number_val(p3)
                            } else {
                                r == Err::<Version, FromStrError>(FromStrError::Parse)
                            }
                        }
                    }
                }
            }),
    {
        let n = s.unicode_len();
        let d1 = find_char(s, '.', 0);
        proof {
            lemma_find_from(s@, '.', 0);
        }
        if d1 == n {
            return Err(FromStrError::Split3);
        }
        let d2 = find_char(s, '.', d1 + 1);
        proof {
            lemma_find_from(s@, '.', d1 + 1);
        }
        if d2 == n {
            return Err(FromStrError::Split3);
        }
        let d3 = find_char(s, '.', d2 + 1);
        proof {
            lemma_find_from(s@, '.', d2 + 1);
        }
        if d3 < n {
            return Err(FromStrError::Split3);
        }
        let a = match parse_component(s, 0, d1) {
            Some(v) => v,
            None => {
                return Err(FromStrError::Parse);
            },
        };
        let b = match parse_component(s, d1 + 1, d2) {
            Some(v) => v,
            None => {
                return Err(FromStrError::Parse);
            },
        };
        let c = match parse_component(s, d2 + 1, n) {
            Some(v) => v,
            None => {
                return Err(FromStrError::Parse);
            },
        };
        Ok(Version { l: a, m: b, n: c })
    }
}

impl core::str::FromStr for Version {
    type Err = FromStrError;

    fn from_str(s: &str) -> Result<Self, Self::Err> {
        Version::parse(s)
    }
}

} // verus!
