//! Decimal text of integers: rendering and parsing.

use vstd::prelude::*;

verus! {

/// The character of the decimal digit `d` (0 to 9).
pub open spec fn digit_char(d: int) -> char {
    (48 + d) as char
}

/// The decimal digits of `n`, most significant first, without leading zeros.
pub open spec fn nat_text(n: nat) -> Seq<char>
    decreases n,
{
    if n < 10 {
        seq![digit_char(n as int)]
    } else {
        nat_text(n / 10) + seq![digit_char((n % 10) as int)]
    }
}

/// The decimal text of `n`: a minus sign before negative numbers.
pub open spec fn int_text(n: int) -> Seq<char> {
    if n < 0 {
        seq!['-'] + nat_text((-n) as nat)
    } else {
        nat_text(n as nat)
    }
}

/// Every character is a decimal digit.
pub open spec fn all_digits(s: Seq<char>) -> bool {
    forall|i: int| 0 <= i < s.len() ==> '0' <= #[trigger] s[i] <= '9'
}

/// The value of a string of decimal digits.
pub open spec fn digits_value(s: Seq<char>) -> int
    decreases s.len(),
{
    if s.len() == 0 {
        0
    } else {
        digits_value(s.drop_last()) * 10 + (s.last() as int - 48)
    }
}

/// The integer that `s` denotes as `str::parse::<i32>` reads it: an optional
/// sign, then one or more digits; `None` for any other text or a value
/// outside `i32`.
pub open spec fn parse_i32_text(s: Seq<char>) -> Option<i32> {
    let (neg, digits) = if s.len() > 0 && (s[0] == '+' || s[0] == '-') {
        (s[0] == '-', s.drop_first())
    } else {
        (false, s)
    };
    let v = if neg {
        -digits_value(digits)
    } else {
        digits_value(digits)
    };
    if digits.len() > 0 && all_digits(digits) && i32::MIN <= v <= i32::MAX {
        Some(v as i32)
    } else {
        None
    }
}

/// The one-character text of the digit `d`.
pub fn digit_str(d: u32) -> (r: &'static str)
    requires
        d < 10,
    ensures
        r@ == seq![digit_char(d as int)],
{
    proof {
        reveal_strlit("0");
        reveal_strlit("1");
        reveal_strlit("2");
        reveal_strlit("3");
        reveal_strlit("4");
        reveal_strlit("5");
        reveal_strlit("6");
        reveal_strlit("7");
        reveal_strlit("8");
        reveal_strlit("9");
    }
    let r = match d {
        0 => "0",
        1 => "1",
        2 => "2",
        3 => "3",
        4 => "4",
        5 => "5",
        6 => "6",
        7 => "7",
        8 => "8",
        _ => "9",
    };
    assert(r@ =~= seq![digit_char(d as int)]);
    r
}

/// Appends the decimal text of `n` to `s`.
pub fn push_int(s: &mut String, n: i32)
    ensures
        final(s)@ == old(s)@ + int_text(n as int),
{
    if n < 0 {
        proof {
            reveal_strlit("-");
        }
        s.append("-");
    }
    let m: u32 = if n < 0 {
        (0i64 - n as i64) as u32
    } else {
        n as u32
    };
    // Digits from the least significant on.
    let mut digits: Vec<u32> = Vec::new();
    let mut rest = m;
    let ghost mut tail: Seq<char> = Seq::empty();
    loop
        invariant_except_break
            nat_text(m as nat) == nat_text(rest as nat) + tail,
        invariant
            forall|i: int| 0 <= i < digits@.len() ==> #[trigger] digits@[i] < 10,
            tail.len() == digits@.len(),
            forall|i: int|
                0 <= i < digits@.len() ==> tail[tail.len() - 1 - i] == digit_char(
                    #[trigger] digits@[i] as int,
                ),
        ensures
            nat_text(m as nat) == tail,
        decreases rest,
    {
        if rest < 10 {
            digits.push(rest);
            proof {
                let old_tail = tail;
                tail = seq![digit_char(rest as int)] + tail;
                assert(nat_text(rest as nat) + old_tail =~= tail);
            }
            break;
        }
        let d = rest % 10;
        digits.push(d);
        proof {
            let old_tail = tail;
            tail = seq![digit_char(d as int)] + tail;
            assert(nat_text(rest as nat) == nat_text((rest / 10) as nat) + seq![digit_char(d as int)]);
            assert(nat_text(rest as nat) + old_tail =~= nat_text((rest / 10) as nat) + tail);
        }
        rest = rest / 10;
    }
    let ghost start = s@;
    let mut i = digits.len();
    while i > 0
        invariant
            i <= digits@.len(),
            forall|j: int| 0 <= j < digits@.len() ==> #[trigger] digits@[j] < 10,
            nat_text(m as nat) == tail,
            tail.len() == digits@.len(),
            forall|j: int|
                0 <= j < digits@.len() ==> tail[tail.len() - 1 - j] == digit_char(
                    #[trigger] digits@[j] as int,
                ),
            s@ == start + tail.subrange(0, (digits@.len() - i) as int),
        decreases i,
    {
        i = i - 1;
        let ghost before = s@;
        s.append(digit_str(digits[i]));
        proof {
            let k = digits@.len() - 1 - i;
            assert(tail[k] == digit_char(digits@[i as int] as int));
            assert(tail.subrange(0, k + 1) =~= tail.subrange(0, k) + seq![tail[k]]);
        }
    }
    proof {
        assert(tail.subrange(0, tail.len() as int) =~= tail);
        if n < 0 {
            assert((-(n as int)) as nat == m as nat);
        } else {
            assert(n as nat == m as nat);
        }
    }
}

/// The value of digits is at least 0.
pub proof fn lemma_digits_value_nonneg(s: Seq<char>)
    requires
        all_digits(s),
    ensures
        digits_value(s) >= 0,
    decreases s.len(),
{
    if s.len() > 0 {
        lemma_digits_value_nonneg(s.drop_last());
    }
}

/// Appending a digit gives ten times the value plus the digit.
pub proof fn lemma_digits_value_push(s: Seq<char>, c: char)
    ensures
        digits_value(s.push(c)) == digits_value(s) * 10 + (c as int - 48),
{
    assert(s.push(c).drop_last() =~= s);
}

/// The integer text that `s` denotes, as `parse_i32_text` states.
pub fn parse_i32(s: &str) -> (r: Option<i32>)
    ensures
        r == parse_i32_text(s@),
{
    let len = s.unicode_len();
    let mut start: usize = 0;
    let mut neg = false;
    if len > 0 {
        let c = s.get_char(0);
        if c == '+' || c == '-' {
            start = 1;
            neg = c == '-';
        }
    }
    let ghost digits = s@.subrange(start as int, len as int);
    proof {
        if start == 1 {
            assert(digits =~= s@.drop_first());
        } else {
            assert(digits =~= s@);
        }
    }
    let mut i = start;
    let mut v: i64 = 0;
    let mut ok = true;
    let mut over = false;
    while i < len
        invariant
            start <= i <= len,
            len == s@.len(),
            digits == s@.subrange(start as int, len as int),
            ok == all_digits(digits.subrange(0, i - start)),
            ok ==> digits_value(digits.subrange(0, i - start)) >= 0,
            ok && !over ==> v == digits_value(digits.subrange(0, i - start)) && 0 <= v
                <= 0x8000_0000,
            ok && over ==> digits_value(digits.subrange(0, i - start)) > 0x8000_0000,
        decreases len - i,
    {
        let c = s.get_char(i);
        let ghost pre = digits.subrange(0, i - start);
        proof {
            assert(digits.subrange(0, i + 1 - start) =~= pre.push(c));
            lemma_digits_value_push(pre, c);
        }
        if '0' <= c && c <= '9' {
            if ok && !over {
                let d = (c as u32 - 48) as i64;
                v = v * 10 + d;
                if v > 0x8000_0000 {
                    over = true;
                }
            }
            proof {
                assert(all_digits(digits.subrange(0, i + 1 - start)) == ok);
            }
        } else {
            ok = false;
            proof {
                assert(!all_digits(digits.subrange(0, i + 1 - start)));
            }
        }
        i = i + 1;
    }
    proof {
        assert(digits.subrange(0, len - start) =~= digits);
    }
    if !ok || start == len || over {
        return None;
    }
    let signed = if neg {
        -v
    } else {
        v
    };
    if signed < i32::MIN as i64 || signed > i32::MAX as i64 {
        None
    } else {
        Some(signed as i32)
    }
}

/// Parsing the decimal text of a number gives the number back.
pub proof fn lemma_parse_int_text(n: i32)
    ensures
        parse_i32_text(int_text(n as int)) == Some(n),
{
    let m: nat = if n < 0 { (-(n as int)) as nat } else { n as nat };
    lemma_nat_text(m);
    let t = int_text(n as int);
    if n < 0 {
        assert(t.drop_first() =~= nat_text(m));
        assert(t[0] == '-');
    } else {
        assert(t == nat_text(m));
        assert(t[0] == nat_text(m)[0]);
        assert('0' <= t[0] <= '9');
    }
}

/// The text of a natural number is a nonempty string of digits that reads as it.
pub proof fn lemma_nat_text(n: nat)
    ensures
        nat_text(n).len() > 0,
        all_digits(nat_text(n)),
        digits_value(nat_text(n)) == n,
    decreases n,
{
    if n >= 10 {
        lemma_nat_text(n / 10);
        let t = nat_text(n / 10);
        lemma_digits_value_push(t, digit_char((n % 10) as int));
        assert(nat_text(n) == t.push(digit_char((n % 10) as int)));
        assert(digit_char((n % 10) as int) as int - 48 == n % 10);
        assert(digits_value(nat_text(n)) == (n / 10) * 10 + n % 10);
        assert((n / 10) * 10 + n % 10 == n);
        assert forall|i: int| 0 <= i < nat_text(n).len() implies '0' <= #[trigger] nat_text(n)[i]
            <= '9' by {
            if i < t.len() {
                assert(nat_text(n)[i] == t[i]);
            }
        }
    } else {
        assert(seq![digit_char(n as int)].drop_last() =~= Seq::<char>::empty());
        assert(digit_char(n as int) as int - 48 == n);
        assert(digits_value(Seq::<char>::empty()) == 0);
        assert(digits_value(seq![digit_char(n as int)]) == 0 * 10 + n);
    }
}

} // verus!
