//! The grammar of the decimal literals that `str::parse::<f32>` accepts:
//!
//! ```text
//! Float  ::= Sign? ( 'inf' | 'infinity' | 'nan' | Number )
//! Number ::= ( Digit+ | Digit+ '.' Digit* | Digit* '.' Digit+ ) Exp?
//! Exp    ::= 'e' Sign? Digit+
//! ```
//!
//! matched without regard to ASCII case.
use vstd::prelude::*;

verus! {

pub open spec fn digit(c: char) -> bool {
    '0' <= c && c <= '9'
}

pub open spec fn sign_char(c: char) -> bool {
    c == '+' || c == '-'
}

/// `c` is the lower-case ASCII letter `lower` or its upper-case form.
pub open spec fn letter(c: char, lower: char) -> bool {
    c == lower || (c as u32) + 32 == (lower as u32)
}

pub open spec fn word_ci(s: Seq<char>, w: Seq<char>) -> bool {
    s.len() == w.len() && forall|i: int| 0 <= i < s.len() ==> letter(#[trigger] s[i], w[i])
}

pub open spec fn all_digits(s: Seq<char>) -> bool {
    forall|i: int| 0 <= i < s.len() ==> digit(#[trigger] s[i])
}

/// Digits with at most one decimal point, and at least one digit.
pub open spec fn mantissa(m: Seq<char>) -> bool {
    &&& forall|i: int| 0 <= i < m.len() ==> digit(#[trigger] m[i]) || m[i] == '.'
    &&& forall|i: int, j: int|
        0 <= i < m.len() && 0 <= j < m.len() && #[trigger] m[i] == '.' && #[trigger] m[j] == '.'
            ==> i == j
    &&& exists|i: int| 0 <= i < m.len() && digit(#[trigger] m[i])
}

pub open spec fn exponent(e: Seq<char>) -> bool {
    &&& e.len() >= 2
    &&& letter(e[0], 'e')
    &&& {
        let d = if sign_char(e[1]) {
            e.skip(2)
        } else {
            e.skip(1)
        };
        d.len() > 0 && all_digits(d)
    }
}

pub open spec fn decimal(b: Seq<char>) -> bool {
    exists|k: int| 0 <= k <= b.len() && mantissa(b.take(k)) && (k == b.len() || exponent(b.skip(k)))
}

pub open spec fn unsigned_float(b: Seq<char>) -> bool {
    ||| word_ci(b, seq!['i', 'n', 'f'])
    ||| word_ci(b, seq!['i', 'n', 'f', 'i', 'n', 'i', 't', 'y'])
    ||| word_ci(b, seq!['n', 'a', 'n'])
    ||| decimal(b)
}

pub open spec fn float_literal(s: Seq<char>) -> bool {
    if s.len() > 0 && sign_char(s[0]) {
        unsigned_float(s.skip(1))
    } else {
        unsigned_float(s)
    }
}

fn is_digit(c: char) -> (r: bool)
    ensures
        r == digit(c),
{
    '0' <= c && c <= '9'
}

fn is_letter(c: char, lower: char) -> (r: bool)
    requires
        'a' <= lower <= 'z',
    ensures
        r == letter(c, lower),
{
    c == lower || (c as u32) + 32 == (lower as u32)
}

/// Whether `s[lo..]` spells `w`, ignoring ASCII case.
fn word_from(s: &Vec<char>, lo: usize, w: &Vec<char>) -> (r: bool)
    requires
        lo <= s.len(),
        forall|i: int| 0 <= i < w.len() ==> 'a' <= #[trigger] w[i] <= 'z',
    ensures
        r == word_ci(s@.skip(lo as int), w@),
{
    if s.len() - lo != w.len() {
        return false;
    }
    let mut i: usize = 0;
    while i < w.len()
        invariant
            s.len() - lo == w.len(),
            i <= w.len(),
            forall|k: int| 0 <= k < w.len() ==> 'a' <= #[trigger] w[k] <= 'z',
            forall|k: int| 0 <= k < i ==> letter(#[trigger] s@.skip(lo as int)[k], w[k]),
        decreases w.len() - i,
    {
        if !is_letter(s[lo + i], w[i]) {
            assert(!letter(s@.skip(lo as int)[i as int], w[i as int]));
            return false;
        }
        i += 1;
    }
    true
}

/// Whether `s[lo..hi]` is a mantissa.
fn mantissa_in(s: &Vec<char>, lo: usize, hi: usize) -> (r: bool)
    requires
        lo <= hi <= s.len(),
    ensures
        r == mantissa(s@.subrange(lo as int, hi as int)),
{
    let ghost m = s@.subrange(lo as int, hi as int);
    let mut dot: Option<usize> = None;
    let mut seen_digit = false;
    let mut i: usize = lo;
    while i < hi
        invariant
            lo <= i <= hi <= s.len(),
            m == s@.subrange(lo as int, hi as int),
            forall|k: int| 0 <= k < i - lo ==> digit(#[trigger] m[k]) || m[k] == '.',
            match dot {
                Some(d) => lo <= d < i && m[d - lo] == '.' && forall|k: int|
                    0 <= k < i - lo && #[trigger] m[k] == '.' ==> k == d - lo,
                None => forall|k: int| 0 <= k < i - lo ==> #[trigger] m[k] != '.',
            },
            seen_digit <==> exists|k: int| 0 <= k < i - lo && digit(#[trigger] m[k]),
        decreases hi - i,
    {
        let c = s[i];
        assert(m[i - lo] == c);
        if is_digit(c) {
            seen_digit = true;
        } else if c == '.' {
            if dot.is_some() {
                return false;
            }
            dot = Some(i);
        } else {
            return false;
        }
        i += 1;
    }
    seen_digit
}

/// Whether `s[lo..]` is an exponent.
fn exponent_from(s: &Vec<char>, lo: usize) -> (r: bool)
    requires
        lo <= s.len(),
    ensures
        r == exponent(s@.skip(lo as int)),
{
    let ghost e = s@.skip(lo as int);
    if s.len() - lo < 2 || !is_letter(s[lo], 'e') {
        return false;
    }
    let start: usize = if s[lo + 1] == '+' || s[lo + 1] == '-' {
        lo + 2
    } else {
        lo + 1
    };
    let ghost d = s@.skip(start as int);
    assert(d == if sign_char(e[1]) {
        e.skip(2)
    } else {
        e.skip(1)
    });
    if start == s.len() {
        return false;
    }
    let mut i: usize = start;
    while i < s.len()
        invariant
            start <= i <= s.len(),
            d == s@.skip(start as int),
            e == s@.skip(lo as int),
            e.len() >= 2 && letter(e[0], 'e'),
            d == if sign_char(e[1]) {
                e.skip(2)
            } else {
                e.skip(1)
            },
            forall|k: int| 0 <= k < i - start ==> digit(#[trigger] d[k]),
        decreases s.len() - i,
    {
        if !is_digit(s[i]) {
            assert(!digit(d[i - start]));
            return false;
        }
        i += 1;
    }
    true
}

/// Whether `s[lo..]` is a decimal number with an optional exponent.
fn decimal_from(s: &Vec<char>, lo: usize) -> (r: bool)
    requires
        lo <= s.len(),
    ensures
        r == decimal(s@.skip(lo as int)),
{
    let ghost b = s@.skip(lo as int);
    let mut k: usize = lo;
    while k < s.len() && !is_letter(s[k], 'e')
        invariant
            lo <= k <= s.len(),
            b == s@.skip(lo as int),
            forall|j: int| 0 <= j < k - lo ==> !letter(#[trigger] b[j], 'e'),
        decreases s.len() - k,
    {
        k += 1;
    }
    let ghost kk = k - lo;
    assert(b.take(kk) == s@.subrange(lo as int, k as int));
    assert(b.skip(kk) == s@.skip(k as int));
    let m = mantissa_in(s, lo, k);
    let e = k == s.len() || exponent_from(s, k);
    if m && e {
        assert(0 <= kk <= b.len() && mantissa(b.take(kk)) && (kk == b.len() || exponent(
            b.skip(kk),
        )));
        true
    } else {
        assert forall|j: int|
            0 <= j <= b.len() && mantissa(b.take(j)) implies !(j == b.len() || exponent(
            b.skip(j),
        )) by {
            if j < kk {
                assert(b.skip(j)[0] == b[j]);
            } else if j > kk {
                assert(b.take(j)[kk] == b[kk]);
            }
        }
        false
    }
}

/// Whether `s` is a literal that `str::parse::<f32>` accepts.
pub fn is_float_literal(s: &Vec<char>) -> (r: bool)
    ensures
        r == float_literal(s@),
{
    let lo: usize = if s.len() > 0 && (s[0] == '+' || s[0] == '-') {
        1
    } else {
        0
    };
    assert(s@.skip(0) == s@);
    word_from(s, lo, &vec!['i', 'n', 'f']) || word_from(
        s,
        lo,
        &vec!['i', 'n', 'f', 'i', 'n', 'i', 't', 'y'],
    ) || word_from(s, lo, &vec!['n', 'a', 'n']) || decimal_from(s, lo)
}

} // verus!
