//! Which cells are numbers.
//!
//! A cell counts as numeric exactly when it is a floating-point literal in
//! the grammar of Rust's `f64::from_str`:
//!
//! ```text
//! Float  ::= Sign? ( 'inf' | 'infinity' | 'nan' | Number )
//! Number ::= ( Digit+ | Digit+ '.' Digit* | Digit* '.' Digit+ ) Exp?
//! Exp    ::= 'e' Sign? Digit+
//! Sign   ::= [+-]
//! Digit  ::= [0-9]
//! ```
//!
//! Letters match in either ASCII case; nothing may precede or follow the
//! literal, not even white space.

use vstd::prelude::*;
use crate::text::chars_of;

verus! {

/// `Digit ::= [0-9]`
pub open spec fn is_digit(c: char) -> bool {
    '0' <= c && c <= '9'
}

/// `Sign ::= [+-]`
pub open spec fn is_sign(c: char) -> bool {
    c == '+' || c == '-'
}

/// Every character of `s` is a digit (true of the empty sequence).
pub open spec fn all_digits(s: Seq<char>) -> bool {
    forall|i: int| 0 <= i < s.len() ==> is_digit(#[trigger] s[i])
}

/// `c` is the lower-case ASCII letter `letter`, or its upper-case form.
pub open spec fn is_letter(c: char, letter: char) -> bool {
    c == letter || (c as int) + 32 == letter as int
}

/// `s` spells `word`, a word of lower-case ASCII letters, in any mix of cases.
pub open spec fn spells(s: Seq<char>, word: Seq<char>) -> bool {
    &&& s.len() == word.len()
    &&& forall|i: int| 0 <= i < s.len() ==> is_letter(#[trigger] s[i], word[i])
}

/// `'inf' | 'infinity' | 'nan'`
pub open spec fn is_special(s: Seq<char>) -> bool {
    ||| spells(s, seq!['i', 'n', 'f'])
    ||| spells(s, seq!['n', 'a', 'n'])
    ||| spells(s, seq!['i', 'n', 'f', 'i', 'n', 'i', 't', 'y'])
}

/// `Digit+ | Digit+ '.' Digit* | Digit* '.' Digit+`: digits with at most
/// one point among them, and at least one digit.
pub open spec fn is_mantissa(s: Seq<char>) -> bool {
    ||| s.len() >= 1 && all_digits(s)
    ||| s.len() >= 2 && exists|k: int|
        0 <= k < s.len() && #[trigger] s[k] == '.' && all_digits(s.take(k)) && all_digits(
            s.skip(k + 1),
        )
}

/// `Exp ::= 'e' Sign? Digit+`
pub open spec fn is_exponent(s: Seq<char>) -> bool {
    &&& s.len() >= 2
    &&& is_letter(s[0], 'e')
    &&& if is_sign(s[1]) {
        s.len() >= 3 && all_digits(s.skip(2))
    } else {
        all_digits(s.skip(1))
    }
}

/// `Number ::= Mantissa Exp?`
pub open spec fn is_decimal(s: Seq<char>) -> bool {
    exists|m: int|
        0 <= m <= s.len() && is_mantissa(#[trigger] s.take(m)) && (m == s.len() || is_exponent(
            s.skip(m),
        ))
}

/// What is left of `s` once a leading sign, if there is one, is taken off.
pub open spec fn unsigned(s: Seq<char>) -> Seq<char> {
    if s.len() > 0 && is_sign(s[0]) {
        s.skip(1)
    } else {
        s
    }
}

/// `Float ::= Sign? ( 'inf' | 'infinity' | 'nan' | Number )`
pub open spec fn is_float_literal(s: Seq<char>) -> bool {
    is_special(unsigned(s)) || is_decimal(unsigned(s))
}

/// Where the run of digits that starts at `i` ends: the first index from `i`
/// on that holds no digit, or the length of `s`.
pub open spec fn digits_end(s: Seq<char>, i: int) -> int
    decreases s.len() - i,
{
    if 0 <= i < s.len() && is_digit(s[i]) {
        digits_end(s, i + 1)
    } else {
        i
    }
}

proof fn lemma_digits_end(s: Seq<char>, i: int)
    requires
        0 <= i <= s.len(),
    ensures
        i <= digits_end(s, i) <= s.len(),
        forall|j: int| i <= j < digits_end(s, i) ==> is_digit(#[trigger] s[j]),
        digits_end(s, i) < s.len() ==> !is_digit(s[digits_end(s, i)]),
    decreases s.len() - i,
{
    if i < s.len() && is_digit(s[i]) {
        lemma_digits_end(s, i + 1);
    }
}

proof fn lemma_digits_end_is(s: Seq<char>, i: int, e: int)
    requires
        0 <= i <= e <= s.len(),
        forall|j: int| i <= j < e ==> is_digit(#[trigger] s[j]),
        e < s.len() ==> !is_digit(s[e]),
    ensures
        digits_end(s, i) == e,
    decreases e - i,
{
    if i < e {
        lemma_digits_end_is(s, i + 1, e);
    }
}

/// The decision procedure for `is_decimal`, as a formula: find the end of
/// the integer digits, of the fraction, and of the exponent's digits.
spec fn scans(s: Seq<char>) -> bool {
    let a = digits_end(s, 0);
    let pointed = a < s.len() && s[a] == '.';
    let m = if pointed {
        digits_end(s, a + 1)
    } else {
        a
    };
    let digits = if pointed {
        m - 1
    } else {
        m
    };
    let e = if m + 1 < s.len() && is_sign(s[m + 1]) {
        m + 2
    } else {
        m + 1
    };
    &&& digits > 0
    &&& m == s.len() || (is_letter(s[m], 'e') && e < s.len() && digits_end(s, e) == s.len())
}

proof fn lemma_scans_sound(s: Seq<char>)
    requires
        scans(s),
    ensures
        is_decimal(s),
{
    let a = digits_end(s, 0);
    lemma_digits_end(s, 0);
    let pointed = a < s.len() && s[a] == '.';
    let m = if pointed {
        digits_end(s, a + 1)
    } else {
        a
    };
    if pointed {
        lemma_digits_end(s, a + 1);
        let head = s.take(m);
        assert(head[a] == '.');
        assert(all_digits(head.take(a)));
        assert(all_digits(head.skip(a + 1)));
        assert(is_mantissa(head));
    } else {
        assert(all_digits(s.take(m)));
        assert(is_mantissa(s.take(m)));
    }
    if m < s.len() {
        let e = if m + 1 < s.len() && is_sign(s[m + 1]) {
            m + 2
        } else {
            m + 1
        };
        lemma_digits_end(s, e);
        let tail = s.skip(m);
        assert(tail[0] == s[m]);
        assert(tail[1] == s[m + 1]);
        if is_sign(s[m + 1]) {
            assert(all_digits(tail.skip(2))) by {
                assert forall|i: int| 0 <= i < tail.skip(2).len() implies is_digit(
                    #[trigger] tail.skip(2)[i],
                ) by {
                    assert(tail.skip(2)[i] == s[m + 2 + i]);
                }
            }
        } else {
            assert(all_digits(tail.skip(1))) by {
                assert forall|i: int| 0 <= i < tail.skip(1).len() implies is_digit(
                    #[trigger] tail.skip(1)[i],
                ) by {
                    assert(tail.skip(1)[i] == s[m + 1 + i]);
                }
            }
        }
        assert(is_exponent(tail));
    }
}

proof fn lemma_scans_complete(s: Seq<char>)
    requires
        is_decimal(s),
    ensures
        scans(s),
{
    let m = choose|m: int|
        0 <= m <= s.len() && is_mantissa(#[trigger] s.take(m)) && (m == s.len() || is_exponent(
            s.skip(m),
        ));
    let head = s.take(m);
    // What follows the mantissa is no digit and no point.
    if m < s.len() {
        assert(s.skip(m)[0] == s[m]);
    }
    if head.len() >= 1 && all_digits(head) {
        assert forall|j: int| 0 <= j < m implies is_digit(#[trigger] s[j]) by {
            assert(head[j] == s[j]);
        }
        lemma_digits_end_is(s, 0, m);
    } else {
        let k = choose|k: int|
            0 <= k < head.len() && #[trigger] head[k] == '.' && all_digits(head.take(k))
                && all_digits(head.skip(k + 1));
        assert(s[k] == '.');
        assert forall|j: int| 0 <= j < k implies is_digit(#[trigger] s[j]) by {
            assert(head.take(k)[j] == s[j]);
        }
        lemma_digits_end_is(s, 0, k);
        assert forall|j: int| k + 1 <= j < m implies is_digit(#[trigger] s[j]) by {
            assert(head.skip(k + 1)[j - k - 1] == s[j]);
        }
        lemma_digits_end_is(s, k + 1, m);
    }
    if m < s.len() {
        let tail = s.skip(m);
        assert(tail[1] == s[m + 1]);
        let e = if is_sign(s[m + 1]) {
            m + 2
        } else {
            m + 1
        };
        assert forall|j: int| e <= j < s.len() implies is_digit(#[trigger] s[j]) by {
            if is_sign(s[m + 1]) {
                assert(tail.skip(2)[j - m - 2] == s[j]);
            } else {
                assert(tail.skip(1)[j - m - 1] == s[j]);
            }
        }
        if !is_sign(s[m + 1]) && e == s.len() {
            assert(tail.skip(1).len() == 0);
        }
        lemma_digits_end_is(s, e, s.len() as int);
    }
}

fn digit_here(c: char) -> (b: bool)
    ensures
        b == is_digit(c),
{
    c >= '0' && c <= '9'
}

fn sign_here(c: char) -> (b: bool)
    ensures
        b == is_sign(c),
{
    c == '+' || c == '-'
}

fn letter_here(c: char, lower: char, upper: char) -> (b: bool)
    requires
        (upper as int) + 32 == lower as int,
    ensures
        b == is_letter(c, lower),
{
    c == lower || c == upper
}

/// The end of the run of digits of `t` that starts at `i`.
fn skip_digits(t: &Vec<char>, i: usize) -> (end: usize)
    requires
        i <= t.len(),
    ensures
        end == digits_end(t@, i as int),
        i <= end <= t.len(),
{
    let mut j: usize = i;
    while j < t.len() && digit_here(t[j])
        invariant
            i <= j <= t.len(),
            digits_end(t@, i as int) == digits_end(t@, j as int),
        decreases t.len() - j,
    {
        j += 1;
    }
    j
}

fn special_here(t: &Vec<char>) -> (b: bool)
    ensures
        b == is_special(t@),
{
    if t.len() == 3 {
        let inf = letter_here(t[0], 'i', 'I') && letter_here(t[1], 'n', 'N') && letter_here(
            t[2],
            'f',
            'F',
        );
        let nan = letter_here(t[0], 'n', 'N') && letter_here(t[1], 'a', 'A') && letter_here(
            t[2],
            'n',
            'N',
        );
        proof {
            let w = seq!['i', 'n', 'f'];
            assert(inf == spells(t@, w)) by {
                if spells(t@, w) {
                    assert(is_letter(t@[0], w[0]) && is_letter(t@[1], w[1]) && is_letter(
                        t@[2],
                        w[2],
                    ));
                }
            }
            let v = seq!['n', 'a', 'n'];
            assert(nan == spells(t@, v)) by {
                if spells(t@, v) {
                    assert(is_letter(t@[0], v[0]) && is_letter(t@[1], v[1]) && is_letter(
                        t@[2],
                        v[2],
                    ));
                }
            }
        }
        inf || nan
    } else if t.len() == 8 {
        let infinity = letter_here(t[0], 'i', 'I') && letter_here(t[1], 'n', 'N') && letter_here(
            t[2],
            'f',
            'F',
        ) && letter_here(t[3], 'i', 'I') && letter_here(t[4], 'n', 'N') && letter_here(
            t[5],
            'i',
            'I',
        ) && letter_here(t[6], 't', 'T') && letter_here(t[7], 'y', 'Y');
        proof {
            let w = seq!['i', 'n', 'f', 'i', 'n', 'i', 't', 'y'];
            assert(infinity == spells(t@, w)) by {
                if spells(t@, w) {
                    assert(is_letter(t@[0], w[0]) && is_letter(t@[1], w[1]) && is_letter(
                        t@[2],
                        w[2],
                    ) && is_letter(t@[3], w[3]) && is_letter(t@[4], w[4]) && is_letter(
                        t@[5],
                        w[5],
                    ) && is_letter(t@[6], w[6]) && is_letter(t@[7], w[7]));
                }
            }
        }
        infinity
    } else {
        false
    }
}

fn decimal_here(t: &Vec<char>) -> (b: bool)
    ensures
        b == is_decimal(t@),
{
    proof {
        if scans(t@) {
            lemma_scans_sound(t@);
        }
        if is_decimal(t@) {
            lemma_scans_complete(t@);
        }
    }
    let n = t.len();
    let a = skip_digits(t, 0);
    let pointed = a < n && t[a] == '.';
    let m = if pointed {
        skip_digits(t, a + 1)
    } else {
        a
    };
    let digits = if pointed {
        m - 1
    } else {
        m
    };
    if digits == 0 {
        return false;
    }
    if m == n {
        return true;
    }
    if !letter_here(t[m], 'e', 'E') {
        return false;
    }
    let e = if m + 1 < n && sign_here(t[m + 1]) {
        m + 2
    } else {
        m + 1
    };
    if e >= n {
        return false;
    }
    skip_digits(t, e) == n
}

/// Whether `token` is a floating-point literal.
pub fn is_number(token: &str) -> (numeric: bool)
    ensures
        numeric == is_float_literal(token@),
{
    let t = chars_of(token);
    let body = if t.len() > 0 && sign_here(t[0]) {
        let mut rest: Vec<char> = Vec::new();
        let mut i: usize = 1;
        while i < t.len()
            invariant
                1 <= i <= t.len(),
                rest@ == t@.subrange(1, i as int),
            decreases t.len() - i,
        {
            rest.push(t[i]);
            assert(t@.subrange(1, i + 1) == t@.subrange(1, i as int).push(t@[i as int]));
            i += 1;
        }
        assert(t@.subrange(1, t.len() as int) == t@.skip(1));
        rest
    } else {
        t
    };
    special_here(&body) || decimal_here(&body)
}

} // verus!
