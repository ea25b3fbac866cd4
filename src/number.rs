//! Numeric literals: which runs of number characters are integers, which
//! are floating-point literals, and which are neither.
use vstd::prelude::*;
use crate::error::Error;
use crate::grammar::is_digit;
use crate::value::JsonTree;

verus! {

pub open spec fn is_sign(c: char) -> bool {
    c == '+' || c == '-'
}

/// One if a sign stands at `k`, else zero.
pub open spec fn sign_len(t: Seq<char>, k: nat) -> nat {
    if k < t.len() && is_sign(t[k as int]) {
        1
    } else {
        0
    }
}

/// The length of the run of digits that starts at `k`.
pub open spec fn digit_run(t: Seq<char>, k: nat) -> nat
    decreases t.len() - k,
{
    if k < t.len() && is_digit(t[k as int]) {
        1 + digit_run(t, k + 1)
    } else {
        0
    }
}

/// A `.`, an `e` or an `E` marks a literal that is read as floating point.
pub open spec fn is_fraction_mark(c: char) -> bool {
    c == '.' || c == 'e' || c == 'E'
}

pub open spec fn has_fraction_mark(t: Seq<char>) -> bool {
    exists|k: int| 0 <= k < t.len() && #[trigger] is_fraction_mark(t[k])
}

/// The exponent part from `p` to the end: empty, or `e`/`E`, an optional
/// sign and at least one digit.
pub open spec fn exponent_ok(t: Seq<char>, p: nat) -> bool {
    p == t.len() || (p < t.len() && (t[p as int] == 'e' || t[p as int] == 'E') && {
        let q = p + 1 + sign_len(t, p + 1);
        q < t.len() && q + digit_run(t, q) == t.len()
    })
}

/// The floating-point literal grammar: an optional sign, digits with an
/// optional `.` and more digits (at least one digit in all), and an
/// optional exponent.
pub open spec fn float_text(t: Seq<char>) -> bool {
    let o = sign_len(t, 0);
    let a = digit_run(t, o);
    let has_dot = o + a < t.len() && t[(o + a) as int] == '.';
    let b = if has_dot {
        digit_run(t, o + a + 1)
    } else {
        0
    };
    let p = if has_dot {
        o + a + 1 + b
    } else {
        o + a
    };
    a + b > 0 && exponent_ok(t, p)
}

/// The value of one decimal digit.
pub open spec fn digit_value(c: char) -> nat {
    ((c as u32) - 48) as nat
}

/// The value of a sequence of decimal digits.
pub open spec fn digits_value(d: Seq<char>) -> nat
    decreases d.len(),
{
    if d.len() == 0 {
        0
    } else {
        10 * digits_value(d.drop_last()) + digit_value(d.last())
    }
}

/// An optional sign followed by one or more digits, and its value.
pub open spec fn int_text_value(t: Seq<char>) -> Option<int> {
    let o = sign_len(t, 0);
    if o < t.len() && o + digit_run(t, o) == t.len() {
        let v = digits_value(t.subrange(o as int, t.len() as int));
        Some(
            if o == 1 && t[0] == '-' {
                -v
            } else {
                v as int
            },
        )
    } else {
        None
    }
}

pub open spec fn fits_i64(v: int) -> bool {
    i64::MIN <= v <= i64::MAX
}

/// What a run of number characters stands for.
pub open spec fn number_literal(t: Seq<char>) -> Result<JsonTree, Error> {
    if has_fraction_mark(t) {
        if float_text(t) {
            Ok(JsonTree::Decimal(t))
        } else {
            Err(Error::InvalidNumber)
        }
    } else if t.len() > 1 && t[0] == '0' && is_digit(t[1]) {
        Err(Error::LeadingZero)
    } else {
        match int_text_value(t) {
            Some(v) => if fits_i64(v) {
                Ok(JsonTree::Integer(v))
            } else {
                Err(Error::InvalidNumber)
            },
            None => Err(Error::InvalidNumber),
        }
    }
}

/// The bound past which a digit sequence can be the magnitude of no `i64`.
pub const MAGNITUDE_CAP: u128 = 0x8000_0000_0000_0001;

/// The length of the run of digits from `k`.
pub fn digit_run_from(t: &Vec<char>, k: usize) -> (r: usize)
    requires
        k <= t@.len(),
    ensures
        r == digit_run(t@, k as nat),
        k + r <= t@.len(),
{
    let mut j: usize = k;
    while j < t.len() && t[j] >= '0' && t[j] <= '9'
        invariant
            k <= j <= t@.len(),
            digit_run(t@, k as nat) == (j - k) + digit_run(t@, j as nat),
        decreases t@.len() - j,
    {
        j = j + 1;
    }
    j - k
}

/// One if a sign stands at `k`, else zero.
fn sign_len_at(t: &Vec<char>, k: usize) -> (r: usize)
    ensures
        r == sign_len(t@, k as nat),
{
    if k < t.len() && (t[k] == '+' || t[k] == '-') {
        1
    } else {
        0
    }
}

/// Whether the text holds a `.`, an `e` or an `E`.
pub fn has_fraction_mark_exec(t: &Vec<char>) -> (r: bool)
    ensures
        r == has_fraction_mark(t@),
{
    let mut k: usize = 0;
    while k < t.len()
        invariant
            k <= t@.len(),
            forall|m: int| 0 <= m < k ==> !#[trigger] is_fraction_mark(t@[m]),
        decreases t@.len() - k,
    {
        if t[k] == '.' || t[k] == 'e' || t[k] == 'E' {
            assert(is_fraction_mark(t@[k as int]));
            return true;
        }
        k = k + 1;
    }
    false
}

/// Whether the text is a floating-point literal.
pub fn is_float_literal(t: &Vec<char>) -> (r: bool)
    requires
        t@.len() < usize::MAX,
    ensures
        r == float_text(t@),
{
    let o = sign_len_at(t, 0);
    let a = digit_run_from(t, o);
    let has_dot = o + a < t.len() && t[o + a] == '.';
    let b = if has_dot {
        digit_run_from(t, o + a + 1)
    } else {
        0
    };
    let p = if has_dot {
        o + a + 1 + b
    } else {
        o + a
    };
    if a + b == 0 {
        return false;
    }
    if p == t.len() {
        return true;
    }
    if t[p] != 'e' && t[p] != 'E' {
        return false;
    }
    let q = p + 1 + sign_len_at(t, p + 1);
    if q >= t.len() {
        return false;
    }
    q + digit_run_from(t, q) == t.len()
}

proof fn lemma_digits_value_push(t: Seq<char>, from: int, to: int)
    requires
        0 <= from <= to < t.len(),
    ensures
        digits_value(t.subrange(from, to + 1)) == 10 * digits_value(t.subrange(from, to))
            + digit_value(t[to]),
{
    assert(t.subrange(from, to + 1).drop_last() =~= t.subrange(from, to));
}

/// The integer that the text spells, when it is an optional sign followed by
/// digits and its value fits in an `i64`.
pub fn parse_integer(t: &Vec<char>) -> (r: Option<i64>)
    ensures
        r is Some <==> (int_text_value(t@) is Some && fits_i64(int_text_value(t@)->0)),
        r is Some ==> r->0 as int == int_text_value(t@)->0,
{
    let o = sign_len_at(t, 0);
    if o >= t.len() {
        return None;
    }
    let mut acc: u128 = 0;
    let mut k: usize = o;
    while k < t.len()
        invariant
            o <= k <= t@.len(),
            o < t@.len(),
            o == sign_len(t@, 0),
            acc as nat == if digits_value(t@.subrange(o as int, k as int)) < MAGNITUDE_CAP {
                digits_value(t@.subrange(o as int, k as int))
            } else {
                MAGNITUDE_CAP as nat
            },
            digit_run(t@, o as nat) == (k - o) + digit_run(t@, k as nat),
        decreases t@.len() - k,
    {
        let c = t[k];
        if !(c >= '0' && c <= '9') {
            return None;
        }
        let d = (c as u32 - 48) as u128;
        proof {
            lemma_digits_value_push(t@, o as int, k as int);
            let dv = digits_value(t@.subrange(o as int, k as int));
            assert(dv >= MAGNITUDE_CAP ==> 10 * dv + d >= MAGNITUDE_CAP) by (nonlinear_arith);
        }
        acc = 10 * acc + d;
        if acc > MAGNITUDE_CAP {
            acc = MAGNITUDE_CAP;
        }
        k = k + 1;
    }
    assert(t@.subrange(o as int, t@.len() as int) == t@.subrange(o as int, k as int));
    if o == 1 && t[0] == '-' {
        if acc <= 0x8000_0000_0000_0000 {
            Some((0 - acc as i128) as i64)
        } else {
            None
        }
    } else {
        if acc <= 0x7fff_ffff_ffff_ffff {
            Some(acc as i64)
        } else {
            None
        }
    }
}

} // verus!
