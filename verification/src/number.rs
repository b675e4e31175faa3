//! The syntax of a decimal floating-point literal as `f64::from_str` accepts it:
//!
//! ```text
//! Float  ::= Sign? ( 'inf' | 'infinity' | 'nan' | Number )
//! Number ::= ( Digit+ | Digit+ '.' Digit* | Digit* '.' Digit+ ) Exp?
//! Exp    ::= 'e' Sign? Digit+
//! Sign   ::= [+-]
//! Digit  ::= [0-9]
//! ```
//!
//! Letters are matched without regard to ASCII case.
use vstd::prelude::*;
use crate::text::{first_where, lemma_first_where_is};

verus! {

pub open spec fn is_digit(c: char) -> bool {
    '0' as u32 <= c as u32 <= '9' as u32
}

pub open spec fn all_digits(s: Seq<char>) -> bool {
    forall|i: int| 0 <= i < s.len() ==> is_digit(#[trigger] s[i])
}

/// `c` is the letter `l` (given in lower case) or its ASCII upper case.
pub open spec fn same_letter(c: char, l: char) -> bool {
    c == l || ('A' as u32 <= c as u32 <= 'Z' as u32 && c as u32 + 32 == l as u32)
}

/// `s` spells `w` (given in lower case) in any ASCII case.
pub open spec fn eq_ignore_case(s: Seq<char>, w: Seq<char>) -> bool {
    s.len() == w.len() && forall|i: int| 0 <= i < s.len() ==> same_letter(#[trigger] s[i], w[i])
}

pub open spec fn is_sign(c: char) -> bool {
    c == '+' || c == '-'
}

/// `s` without one leading sign.
pub open spec fn unsigned_part(s: Seq<char>) -> Seq<char> {
    if s.len() > 0 && is_sign(s[0]) {
        s.drop_first()
    } else {
        s
    }
}

pub open spec fn dot_pred() -> spec_fn(char) -> bool {
    |c: char| c == '.'
}

pub open spec fn exp_pred() -> spec_fn(char) -> bool {
    |c: char| c == 'e' || c == 'E'
}

/// `Digit+ | Digit+ '.' Digit* | Digit* '.' Digit+`
pub open spec fn is_mantissa(m: Seq<char>) -> bool {
    let d = first_where(m, dot_pred());
    if d < m.len() {
        all_digits(m.take(d)) && all_digits(m.skip(d + 1)) && m.len() >= 2
    } else {
        m.len() >= 1 && all_digits(m)
    }
}

/// `Sign? Digit+`
pub open spec fn is_exponent(x: Seq<char>) -> bool {
    unsigned_part(x).len() >= 1 && all_digits(unsigned_part(x))
}

/// `Number` of the grammar.
pub open spec fn is_number(b: Seq<char>) -> bool {
    let e = first_where(b, exp_pred());
    if e < b.len() {
        is_mantissa(b.take(e)) && is_exponent(b.skip(e + 1))
    } else {
        is_mantissa(b)
    }
}

/// `Float` of the grammar: the strings on which `f64::from_str` succeeds.
pub open spec fn is_float_literal(s: Seq<char>) -> bool {
    let b = unsigned_part(s);
    ||| eq_ignore_case(b, seq!['i', 'n', 'f'])
    ||| eq_ignore_case(b, seq!['i', 'n', 'f', 'i', 'n', 'i', 't', 'y'])
    ||| eq_ignore_case(b, seq!['n', 'a', 'n'])
    ||| is_number(b)
}

fn is_digit_char(c: char) -> (r: bool)
    ensures
        r == is_digit(c),
{
    '0' as u32 <= c as u32 && c as u32 <= '9' as u32
}

fn same_letter_ci(c: char, l: char) -> (r: bool)
    ensures
        r == same_letter(c, l),
{
    c == l || ('A' as u32 <= c as u32 && c as u32 <= 'Z' as u32 && c as u32 + 32 == l as u32)
}

fn digits_only(s: &Vec<char>, lo: usize, hi: usize) -> (r: bool)
    requires
        lo <= hi <= s.len(),
    ensures
        r == all_digits(s@.subrange(lo as int, hi as int)),
{
    let mut i = lo;
    while i < hi
        invariant
            lo <= i <= hi <= s.len(),
            forall|j: int| lo <= j < i ==> is_digit(#[trigger] s@[j]),
        decreases hi - i,
    {
        if !is_digit_char(s[i]) {
            assert(!is_digit(s@.subrange(lo as int, hi as int)[i - lo]));
            return false;
        }
        i = i + 1;
    }
    assert forall|j: int| 0 <= j < hi - lo implies is_digit(
        #[trigger] s@.subrange(lo as int, hi as int)[j],
    ) by {
        assert(s@.subrange(lo as int, hi as int)[j] == s@[lo + j]);
    }
    true
}

fn spells(s: &Vec<char>, lo: usize, hi: usize, w: &[char]) -> (r: bool)
    requires
        lo <= hi <= s.len(),
    ensures
        r == eq_ignore_case(s@.subrange(lo as int, hi as int), w@),
{
    if hi - lo != w.len() {
        return false;
    }
    let mut i: usize = 0;
    while i < w.len()
        invariant
            lo <= hi <= s.len(),
            hi - lo == w.len(),
            i <= w.len(),
            forall|j: int| 0 <= j < i ==> same_letter(#[trigger] s@[lo + j], w@[j]),
        decreases w.len() - i,
    {
        if !same_letter_ci(s[lo + i], w[i]) {
            assert(s@.subrange(lo as int, hi as int)[i as int] == s@[lo + i]);
            return false;
        }
        i = i + 1;
    }
    assert forall|j: int| 0 <= j < hi - lo implies same_letter(
        #[trigger] s@.subrange(lo as int, hi as int)[j],
        w@[j],
    ) by {
        assert(s@.subrange(lo as int, hi as int)[j] == s@[lo + j]);
    }
    true
}

/// The position of the first `.` in `s[lo..hi]`, or `hi`.
fn dot_position(s: &Vec<char>, lo: usize, hi: usize) -> (r: usize)
    requires
        lo <= hi <= s.len(),
    ensures
        r - lo == first_where(s@.subrange(lo as int, hi as int), dot_pred()),
        lo <= r <= hi,
{
    let ghost t = s@.subrange(lo as int, hi as int);
    let mut i = lo;
    while i < hi && s[i] != '.'
        invariant
            lo <= i <= hi <= s.len(),
            t == s@.subrange(lo as int, hi as int),
            forall|j: int| 0 <= j < i - lo ==> !(dot_pred())(#[trigger] t[j]),
        decreases hi - i,
    {
        assert(t[i - lo] == s@[i as int]);
        i = i + 1;
    }
    proof {
        if i < hi {
            assert(t[i - lo] == s@[i as int]);
        }
        lemma_first_where_is(t, dot_pred(), i - lo);
    }
    i
}

/// The position of the first `e` or `E` in `s[lo..hi]`, or `hi`.
fn exp_position(s: &Vec<char>, lo: usize, hi: usize) -> (r: usize)
    requires
        lo <= hi <= s.len(),
    ensures
        r - lo == first_where(s@.subrange(lo as int, hi as int), exp_pred()),
        lo <= r <= hi,
{
    let ghost t = s@.subrange(lo as int, hi as int);
    let mut i = lo;
    while i < hi && s[i] != 'e' && s[i] != 'E'
        invariant
            lo <= i <= hi <= s.len(),
            t == s@.subrange(lo as int, hi as int),
            forall|j: int| 0 <= j < i - lo ==> !(exp_pred())(#[trigger] t[j]),
        decreases hi - i,
    {
        assert(t[i - lo] == s@[i as int]);
        i = i + 1;
    }
    proof {
        if i < hi {
            assert(t[i - lo] == s@[i as int]);
        }
        lemma_first_where_is(t, exp_pred(), i - lo);
    }
    i
}

fn mantissa_ok(s: &Vec<char>, lo: usize, hi: usize) -> (r: bool)
    requires
        lo <= hi <= s.len(),
    ensures
        r == is_mantissa(s@.subrange(lo as int, hi as int)),
{
    let ghost m = s@.subrange(lo as int, hi as int);
    let d = dot_position(s, lo, hi);
    proof {
        assert(m.take(d - lo) =~= s@.subrange(lo as int, d as int));
        if d < hi {
            assert(m.skip(d - lo + 1) =~= s@.subrange(d + 1, hi as int));
        }
    }
    if d < hi {
        digits_only(s, lo, d) && digits_only(s, d + 1, hi) && hi - lo >= 2
    } else {
        hi - lo >= 1 && digits_only(s, lo, hi)
    }
}

/// The first position after an optional sign in `s[lo..hi]`.
fn after_sign(s: &Vec<char>, lo: usize, hi: usize) -> (r: usize)
    requires
        lo <= hi <= s.len(),
    ensures
        lo <= r <= hi,
        s@.subrange(r as int, hi as int) == unsigned_part(s@.subrange(lo as int, hi as int)),
{
    let ghost t = s@.subrange(lo as int, hi as int);
    if lo < hi && (s[lo] == '+' || s[lo] == '-') {
        assert(t[0] == s@[lo as int]);
        assert(t.drop_first() =~= s@.subrange(lo + 1, hi as int));
        lo + 1
    } else {
        proof {
            if lo < hi {
                assert(t[0] == s@[lo as int]);
            }
        }
        lo
    }
}

fn exponent_ok(s: &Vec<char>, lo: usize, hi: usize) -> (r: bool)
    requires
        lo <= hi <= s.len(),
    ensures
        r == is_exponent(s@.subrange(lo as int, hi as int)),
{
    let a = after_sign(s, lo, hi);
    hi - a >= 1 && digits_only(s, a, hi)
}

/// Whether `s[lo..hi]` is text that `f64::from_str` accepts.
pub fn is_float_literal_at(s: &Vec<char>, lo: usize, hi: usize) -> (r: bool)
    requires
        lo <= hi <= s.len(),
    ensures
        r == is_float_literal(s@.subrange(lo as int, hi as int)),
{
    let b = after_sign(s, lo, hi);
    let inf: [char; 3] = ['i', 'n', 'f'];
    let infinity: [char; 8] = ['i', 'n', 'f', 'i', 'n', 'i', 't', 'y'];
    let nan: [char; 3] = ['n', 'a', 'n'];
    assert(inf@ =~= seq!['i', 'n', 'f']);
    assert(infinity@ =~= seq!['i', 'n', 'f', 'i', 'n', 'i', 't', 'y']);
    assert(nan@ =~= seq!['n', 'a', 'n']);
    if spells(s, b, hi, &inf) || spells(s, b, hi, &infinity) || spells(s, b, hi, &nan) {
        return true;
    }
    let ghost u = s@.subrange(b as int, hi as int);
    let e = exp_position(s, b, hi);
    proof {
        assert(u.take(e - b) =~= s@.subrange(b as int, e as int));
        if e < hi {
            assert(u.skip(e - b + 1) =~= s@.subrange(e + 1, hi as int));
        }
    }
    if e < hi {
        mantissa_ok(s, b, e) && exponent_ok(s, e + 1, hi)
    } else {
        mantissa_ok(s, b, hi)
    }
}

} // verus!
