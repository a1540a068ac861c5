//! The decimal numerals that `str::parse::<f64>` accepts, recognised
//! without computing their value.
//!
//! The grammar, read with ASCII letters in either case:
//! `Sign? ('inf' | 'infinity' | 'nan' | Number)`, where
//! `Number ::= (Digit+ | Digit+ '.' Digit* | Digit* '.' Digit+) Exp?` and
//! `Exp ::= 'e' Sign? Digit+`.

use vstd::prelude::*;

verus! {

/// A decimal digit.
pub open spec fn is_digit(c: char) -> bool {
    '0' <= c && c <= '9'
}

/// `c` is `d` or, for an ASCII capital, the capital of `d`.
pub open spec fn same_letter(c: char, d: char) -> bool {
    c == d || ('A' <= c && c <= 'Z' && (c as u32) + 32 == (d as u32))
}

/// `u` spells the word `w` (given in small letters), in any case.
pub open spec fn is_word(u: Seq<char>, w: Seq<char>) -> bool {
    u.len() == w.len() && forall|i: int| 0 <= i < u.len() ==> same_letter(#[trigger] u[i], w[i])
}

/// The text after a leading sign, if there is one.
pub open spec fn unsigned_part(t: Seq<char>) -> Seq<char> {
    if t.len() > 0 && (t[0] == '+' || t[0] == '-') {
        t.drop_first()
    } else {
        t
    }
}

/// The position of the first exponent mark (`e` or `E`), or the length.
pub open spec fn first_exp(u: Seq<char>) -> int
    decreases u.len(),
{
    if u.len() == 0 {
        0
    } else if u[0] == 'e' || u[0] == 'E' {
        0
    } else {
        1 + first_exp(u.drop_first())
    }
}

/// Digits with at most one point, and at least one digit.
pub open spec fn is_mantissa(m: Seq<char>) -> bool {
    &&& forall|i: int| 0 <= i < m.len() ==> is_digit(#[trigger] m[i]) || m[i] == '.'
    &&& forall|i: int, j: int| 0 <= i < m.len() && 0 <= j < m.len() && #[trigger] m[i] == '.' && #[trigger] m[j] == '.' ==> i == j
    &&& exists|i: int| 0 <= i < m.len() && is_digit(#[trigger] m[i])
}

/// An optional sign followed by one or more digits.
pub open spec fn is_exponent(x: Seq<char>) -> bool {
    let d = unsigned_part(x);
    d.len() > 0 && forall|i: int| 0 <= i < d.len() ==> is_digit(#[trigger] d[i])
}

/// `t` is a numeral of the grammar above.
pub open spec fn is_float_literal(t: Seq<char>) -> bool {
    let u = unsigned_part(t);
    let k = first_exp(u);
    ||| is_word(u, seq!['i', 'n', 'f'])
    ||| is_word(u, seq!['i', 'n', 'f', 'i', 'n', 'i', 't', 'y'])
    ||| is_word(u, seq!['n', 'a', 'n'])
    ||| is_mantissa(u.take(k)) && (k == u.len() || is_exponent(u.skip(k + 1)))
}

proof fn lemma_first_exp(u: Seq<char>)
    ensures
        0 <= first_exp(u) <= u.len(),
        forall|i: int| 0 <= i < first_exp(u) ==> #[trigger] u[i] != 'e' && u[i] != 'E',
        first_exp(u) < u.len() ==> u[first_exp(u)] == 'e' || u[first_exp(u)] == 'E',
    decreases u.len(),
{
    if u.len() > 0 && u[0] != 'e' && u[0] != 'E' {
        lemma_first_exp(u.drop_first());
        assert forall|i: int| 0 <= i < first_exp(u) implies #[trigger] u[i] != 'e' && u[i] != 'E' by {
            if i > 0 {
                assert(u[i] == u.drop_first()[i - 1]);
            }
        }
    }
}

/// Whether the text of `t` from `start` on spells `w` (in small letters),
/// in any case.
fn word_from(t: &str, start: usize, w: &str) -> (r: bool)
    requires
        start <= t@.len(),
    ensures
        r == is_word(t@.subrange(start as int, t@.len() as int), w@),
{
    let n = t.unicode_len();
    let m = w.unicode_len();
    let ghost u = t@.subrange(start as int, n as int);
    if n - start != m {
        return false;
    }
    let mut i: usize = 0;
    while i < m
        invariant
            n == t@.len(),
            m == w@.len(),
            n - start == m,
            start <= n,
            u == t@.subrange(start as int, n as int),
            i <= m,
            forall|j: int| 0 <= j < i ==> same_letter(#[trigger] u[j], w@[j]),
        decreases m - i,
    {
        let c = t.get_char(start + i);
        let d = w.get_char(i);
        let same = c == d || ('A' <= c && c <= 'Z' && (c as u32) + 32 == (d as u32));
        proof {
            assert(u[i as int] == c);
        }
        if !same {
            return false;
        }
        i = i + 1;
    }
    true
}

/// The length of a leading sign of `t`, 0 or 1.
fn sign_len(t: &str) -> (r: usize)
    ensures
        r <= t@.len(),
        t@.subrange(r as int, t@.len() as int) == unsigned_part(t@),
{
    let n = t.unicode_len();
    if n > 0 {
        let c = t.get_char(0);
        if c == '+' || c == '-' {
            assert(t@.subrange(1, n as int) =~= t@.drop_first());
            return 1;
        }
    }
    assert(t@.subrange(0, n as int) =~= t@);
    0
}

/// The position of the first exponent mark at or after `start`, or the
/// length.
fn exp_mark_at(t: &str, start: usize) -> (r: usize)
    requires
        start <= t@.len(),
    ensures
        r == start + first_exp(t@.subrange(start as int, t@.len() as int)),
        start <= r <= t@.len(),
{
    let n = t.unicode_len();
    let ghost u = t@.subrange(start as int, n as int);
    proof {
        lemma_first_exp(u);
    }
    let mut k = start;
    while k < n && t.get_char(k) != 'e' && t.get_char(k) != 'E'
        invariant
            n == t@.len(),
            start <= k <= n,
            u == t@.subrange(start as int, n as int),
            k - start <= first_exp(u),
            0 <= first_exp(u) <= u.len(),
            first_exp(u) < u.len() ==> u[first_exp(u)] == 'e' || u[first_exp(u)] == 'E',
        decreases n - k,
    {
        proof {
            assert(u[k - start] == t@[k as int]);
        }
        k = k + 1;
    }
    proof {
        if k < n {
            assert(u[k - start] == t@[k as int]);
        }
    }
    k
}

/// Whether the text of `t` from `start` to `end` is a mantissa.
fn mantissa_ok(t: &str, start: usize, end: usize) -> (r: bool)
    requires
        start <= end <= t@.len(),
    ensures
        r == is_mantissa(t@.subrange(start as int, end as int)),
{
    let ghost m = t@.subrange(start as int, end as int);
    let mut k = start;
    let mut dot = false;
    let mut dot_at: usize = 0;
    let mut digit = false;
    let mut digit_at: usize = 0;
    while k < end
        invariant
            start <= k <= end <= t@.len(),
            m == t@.subrange(start as int, end as int),
            forall|i: int| 0 <= i < k - start ==> is_digit(#[trigger] m[i]) || m[i] == '.',
            forall|i: int, j: int| 0 <= i < k - start && 0 <= j < k - start && #[trigger] m[i] == '.' && #[trigger] m[j] == '.' ==> i == j,
            dot ==> start <= dot_at < k && m[dot_at - start] == '.',
            !dot ==> forall|i: int| 0 <= i < k - start ==> #[trigger] m[i] != '.',
            digit ==> start <= digit_at < k && is_digit(m[digit_at - start]),
            !digit ==> forall|i: int| 0 <= i < k - start ==> !is_digit(#[trigger] m[i]),
        decreases end - k,
    {
        let c = t.get_char(k);
        proof {
            assert(m[k - start] == c);
        }
        if '0' <= c && c <= '9' {
            digit = true;
            digit_at = k;
        } else if c == '.' {
            if dot {
                proof {
                    assert(m[dot_at - start] == '.' && m[k - start] == '.');
                }
                return false;
            }
            dot = true;
            dot_at = k;
        } else {
            return false;
        }
        k = k + 1;
    }
    if !digit {
        return false;
    }
    proof {
        assert(is_digit(m[digit_at - start]));
    }
    true
}

/// Whether the text of `t` from `from` on is an exponent.
fn exponent_ok(t: &str, from: usize) -> (r: bool)
    requires
        from <= t@.len(),
    ensures
        r == is_exponent(t@.subrange(from as int, t@.len() as int)),
{
    let n = t.unicode_len();
    let ghost x = t@.subrange(from as int, n as int);
    let mut e = from;
    if e < n {
        let c = t.get_char(e);
        if c == '+' || c == '-' {
            e = e + 1;
        }
    }
    let ghost d = unsigned_part(x);
    proof {
        if e == from + 1 {
            assert(d =~= t@.subrange(e as int, n as int));
        } else {
            assert(d =~= t@.subrange(e as int, n as int));
        }
    }
    if e == n {
        return false;
    }
    let mut j = e;
    while j < n
        invariant
            e <= j <= n,
            n == t@.len(),
            d == t@.subrange(e as int, n as int),
            d == unsigned_part(x),
            x == t@.subrange(from as int, n as int),
            forall|i: int| 0 <= i < j - e ==> is_digit(#[trigger] d[i]),
        decreases n - j,
    {
        let c = t.get_char(j);
        proof {
            assert(d[j - e] == c);
        }
        if !('0' <= c && c <= '9') {
            proof {
                assert(!is_digit(d[j - e]));
                assert(x == t@.subrange(from as int, t@.len() as int));
            }
            return false;
        }
        j = j + 1;
    }
    true
}

/// Whether `t` is a numeral that `str::parse::<f64>` accepts, as
/// `is_float_literal` states.
pub fn float_literal(t: &str) -> (r: bool)
    ensures
        r == is_float_literal(t@),
{
    let n = t.unicode_len();
    let start = sign_len(t);
    let ghost u = t@.subrange(start as int, n as int);
    proof {
        reveal_strlit("inf");
        reveal_strlit("infinity");
        reveal_strlit("nan");
        assert("inf"@ =~= seq!['i', 'n', 'f']);
        assert("infinity"@ =~= seq!['i', 'n', 'f', 'i', 'n', 'i', 't', 'y']);
        assert("nan"@ =~= seq!['n', 'a', 'n']);
    }
    if word_from(t, start, "inf") || word_from(t, start, "infinity") || word_from(t, start, "nan") {
        return true;
    }
    let k = exp_mark_at(t, start);
    proof {
        assert(u.take(k - start) =~= t@.subrange(start as int, k as int));
    }
    if !mantissa_ok(t, start, k) {
        return false;
    }
    if k == n {
        return true;
    }
    proof {
        assert(u.skip(k - start + 1) =~= t@.subrange(k + 1, n as int));
    }
    exponent_ok(t, k + 1)
}

} // verus!
