//! Hand ranges as a player writes them: `AA, KQs, 22+, ATo+, 99-66,
//! K6s-K9s`, optionally in weighted blocks `[0.5]AKo, QQ[/0.5]`.
//!
//! A range is read into a table that gives, for each starting hand class,
//! the weight it carries: the full weight, or the weight of a block named
//! by its position. The block weights stay the numerals of the text; their
//! values and bounds are the caller's to check.

use vstd::prelude::*;
use vstd::utf8::{encode_utf8, encode_scalar};
use crate::bets::{first_index_of, lemma_first_index, find_char, same_text};
use crate::text::{split_commas, trim_spec, trim_white};

verus! {

/// A class of starting hands: a pair, or two ranks suited or offsuit.
/// Ranks run from 0 (a two) to 12 (an ace).
#[derive(Debug, Clone, Copy, PartialEq, Eq, Structural, Hash)]
pub enum RangeElem {
    Pair(u8),
    Suited(u8, u8),
    Offsuit(u8, u8),
}

/// The weight that a hand class carries.
#[derive(Debug, Clone, Copy, PartialEq, Eq, Structural)]
pub enum Weight {
    /// The full weight of an unweighted range.
    Full,
    /// The weight of the block at this position.
    Block(usize),
}

/// Why a range cannot be read.
#[derive(Debug, Clone, PartialEq, Eq)]
pub enum RangeParseError {
    /// A character other than the one expected (described by the text).
    UnexpectedToken(char, String),
    /// The text ends inside a block.
    UnexpectedEOF,
    /// The character names no rank.
    InvalidRank(char),
    /// Two ranks that should form a pair differ.
    NoSuitedness(u8, u8),
    /// Another rule is broken, as the message says.
    Custom(String),
}

/// What a `RangeParseError` denotes.
pub enum RangeErrorSpec {
    UnexpectedToken(char, Seq<char>),
    UnexpectedEOF,
    InvalidRank(char),
    NoSuitedness(u8, u8),
    Custom(Seq<char>),
}

impl View for RangeParseError {
    type V = RangeErrorSpec;

    open spec fn view(&self) -> RangeErrorSpec {
        match self {
            RangeParseError::UnexpectedToken(c, s) => RangeErrorSpec::UnexpectedToken(*c, s@),
            RangeParseError::UnexpectedEOF => RangeErrorSpec::UnexpectedEOF,
            RangeParseError::InvalidRank(c) => RangeErrorSpec::InvalidRank(*c),
            RangeParseError::NoSuitedness(a, b) => RangeErrorSpec::NoSuitedness(*a, *b),
            RangeParseError::Custom(s) => RangeErrorSpec::Custom(s@),
        }
    }
}

/// How reading a range (or a part of it) ends: with a table, with an
/// error, or at an input that the reader cannot take at all (an item of a
/// length that no form has, or one that ends before its form does).
pub enum Outcome {
    Done(Seq<Option<Weight>>),
    Fail(RangeErrorSpec),
    Abort,
}

/// The slot of a hand class in a table.
pub open spec fn elem_index(e: RangeElem) -> int {
    match e {
        RangeElem::Pair(r) => 14 * r,
        RangeElem::Suited(a, b) => 169 + 13 * a + b,
        RangeElem::Offsuit(a, b) => 338 + 13 * a + b,
    }
}

/// The table with no class in it.
pub open spec fn empty_table() -> Seq<Option<Weight>> {
    Seq::new(507, |i: int| None)
}

/// The rank that a character names, as `poker::Rank::try_from` reads it.
pub open spec fn rank_of_char(c: char) -> Option<u8> {
    if c == '2' {
        Some(0u8)
    } else if c == '3' {
        Some(1u8)
    } else if c == '4' {
        Some(2u8)
    } else if c == '5' {
        Some(3u8)
    } else if c == '6' {
        Some(4u8)
    } else if c == '7' {
        Some(5u8)
    } else if c == '8' {
        Some(6u8)
    } else if c == '9' {
        Some(7u8)
    } else if c == 'T' {
        Some(8u8)
    } else if c == 'J' {
        Some(9u8)
    } else if c == 'Q' {
        Some(10u8)
    } else if c == 'K' {
        Some(11u8)
    } else if c == 'A' {
        Some(12u8)
    } else {
        None
    }
}

/// The character of a rank.
pub open spec fn rank_char_spec(r: u8) -> char {
    if r == 0 {
        '2'
    } else if r == 1 {
        '3'
    } else if r == 2 {
        '4'
    } else if r == 3 {
        '5'
    } else if r == 4 {
        '6'
    } else if r == 5 {
        '7'
    } else if r == 6 {
        '8'
    } else if r == 7 {
        '9'
    } else if r == 8 {
        'T'
    } else if r == 9 {
        'J'
    } else if r == 10 {
        'Q'
    } else if r == 11 {
        'K'
    } else {
        'A'
    }
}

/// The table with the slots `base + r * stride`, for `r` in `lo..n`, set
/// to `w`.
pub open spec fn run(t: Seq<Option<Weight>>, base: int, stride: int, lo: int, n: int, w: Weight) -> Seq<
    Option<Weight>,
>
    decreases n - lo,
{
    if n <= lo {
        t
    } else {
        run(t, base, stride, lo, n - 1, w).update(base + (n - 1) * stride, Some(w))
    }
}

/// The character at position `i`, if the item has one there.
pub open spec fn chr(e: Seq<char>, i: int) -> Option<char> {
    if 0 <= i < e.len() {
        Some(e[i])
    } else {
        None
    }
}

/// The rank named at position `i`.
pub open spec fn rank_at(e: Seq<char>, i: int) -> Result<u8, Outcome> {
    match chr(e, i) {
        None => Err(Outcome::Abort),
        Some(c) => match rank_of_char(c) {
            None => Err(Outcome::Fail(RangeErrorSpec::InvalidRank(c))),
            Some(r) => Ok(r),
        },
    }
}

/// The text that asks for a suitedness.
pub open spec fn suit_msg() -> Seq<char> {
    "s for suited or o for offsuit"@
}

/// An item of two characters: a pair.
pub open spec fn item2(e: Seq<char>, w: Weight, t: Seq<Option<Weight>>) -> Outcome {
    match rank_at(e, 0) {
        Err(o) => o,
        Ok(r1) => match rank_at(e, 1) {
            Err(o) => o,
            Ok(r2) => if r1 != r2 {
                Outcome::Fail(RangeErrorSpec::NoSuitedness(r1, r2))
            } else {
                Outcome::Done(t.update(14 * r1, Some(w)))
            },
        },
    }
}

/// An item of three characters: a pair and its betters (`TT+`), or two
/// ranks suited (`s`) or offsuit (`o`), the higher rank first.
pub open spec fn item3(e: Seq<char>, w: Weight, t: Seq<Option<Weight>>) -> Outcome {
    match rank_at(e, 0) {
        Err(o) => o,
        Ok(r1) => match rank_at(e, 1) {
            Err(o) => o,
            Ok(r2) => {
                let (a, b) = if r2 > r1 {
                    (r2, r1)
                } else {
                    (r1, r2)
                };
                match chr(e, 2) {
                    None => Outcome::Abort,
                    Some(p) => if a == b {
                        if p == '+' {
                            Outcome::Done(run(t, 0, 14, a as int, 13, w))
                        } else {
                            Outcome::Fail(RangeErrorSpec::UnexpectedToken(p, "+"@))
                        }
                    } else if p == 's' {
                        Outcome::Done(t.update(169 + 13 * a + b, Some(w)))
                    } else if p == 'o' {
                        Outcome::Done(t.update(338 + 13 * a + b, Some(w)))
                    } else {
                        Outcome::Fail(RangeErrorSpec::UnexpectedToken(p, suit_msg()))
                    },
                }
            },
        },
    }
}

/// An item of four characters: the higher rank with each lower kicker from
/// the given one up (`AT+` suited or offsuit, written `ATs+`, `ATo+`).
pub open spec fn item4(e: Seq<char>, w: Weight, t: Seq<Option<Weight>>) -> Outcome {
    match rank_at(e, 0) {
        Err(o) => o,
        Ok(r1) => match rank_at(e, 1) {
            Err(o) => o,
            Ok(r2) => {
                let (a, b) = if r2 > r1 {
                    (r2, r1)
                } else {
                    (r1, r2)
                };
                match chr(e, 2) {
                    None => Outcome::Abort,
                    Some(s) => match chr(e, 3) {
                        None => Outcome::Abort,
                        Some(d) => if d != '+' {
                            Outcome::Fail(RangeErrorSpec::UnexpectedToken('+', "+"@))
                        } else if s == 's' {
                            Outcome::Done(run(t, 169 + 13 * a, 1, b as int, a as int, w))
                        } else if s == 'o' {
                            Outcome::Done(run(t, 338 + 13 * a, 1, b as int, a as int, w))
                        } else {
                            Outcome::Fail(RangeErrorSpec::UnexpectedToken(s, suit_msg()))
                        },
                    },
                }
            },
        },
    }
}

/// An item of five characters: the pairs between two pairs (`99-66`).
pub open spec fn item5(e: Seq<char>, w: Weight, t: Seq<Option<Weight>>) -> Outcome {
    match rank_at(e, 0) {
        Err(o) => o,
        Ok(r1) => match rank_at(e, 1) {
            Err(o) => o,
            Ok(r2) => match chr(e, 2) {
                None => Outcome::Abort,
                Some(d) => if d != '-' {
                    Outcome::Fail(RangeErrorSpec::UnexpectedToken('-', "-"@))
                } else {
                    match rank_at(e, 3) {
                        Err(o) => o,
                        Ok(r3) => match rank_at(e, 4) {
                            Err(o) => o,
                            Ok(r4) => if r1 != r2 || r3 != r4 {
                                Outcome::Fail(RangeErrorSpec::NoSuitedness(r1, r2))
                            } else {
                                let lo = if r1 < r3 {
                                    r1
                                } else {
                                    r3
                                };
                                let hi = if r1 < r3 {
                                    r3
                                } else {
                                    r1
                                };
                                Outcome::Done(run(t, 0, 14, lo as int, hi + 1, w))
                            },
                        },
                    }
                },
            },
        },
    }
}

/// An item of seven characters: two classes with the same higher rank and
/// suitedness (`K6s-K9s`); it gives each class from the first lower rank up
/// to the second, in the form that the reader writes them.
pub open spec fn item7(e: Seq<char>, w: Weight, t: Seq<Option<Weight>>) -> Outcome {
    match rank_at(e, 0) {
        Err(o) => o,
        Ok(r1) => match rank_at(e, 1) {
            Err(o) => o,
            Ok(r2) => {
                let max1 = if r1 < r2 {
                    r2
                } else {
                    r1
                };
                let min1 = if r1 < r2 {
                    r1
                } else {
                    r2
                };
                match chr(e, 2) {
                    None => Outcome::Abort,
                    Some(s1) => match chr(e, 3) {
                        None => Outcome::Abort,
                        Some(d) => if d != '-' {
                            Outcome::Fail(RangeErrorSpec::UnexpectedToken('-', "-"@))
                        } else {
                            match rank_at(e, 4) {
                                Err(o) => o,
                                Ok(r3) => match rank_at(e, 5) {
                                    Err(o) => o,
                                    Ok(r4) => {
                                        let max2 = if r3 < r4 {
                                            r4
                                        } else {
                                            r3
                                        };
                                        let min2 = if r3 < r4 {
                                            r3
                                        } else {
                                            r4
                                        };
                                        match chr(e, 6) {
                                            None => Outcome::Abort,
                                            Some(s2) => if s1 != s2 {
                                                Outcome::Fail(
                                                    RangeErrorSpec::UnexpectedToken(s2, suit_msg()),
                                                )
                                            } else if max1 != max2 {
                                                Outcome::Fail(
                                                    RangeErrorSpec::UnexpectedToken(
                                                        rank_char_spec(max2),
                                                        seq![rank_char_spec(max1)],
                                                    ),
                                                )
                                            } else if min1 > min2 {
                                                Outcome::Fail(
                                                    RangeErrorSpec::Custom(
                                                        "Min rank 1 is greater than min rank 2"@,
                                                    ),
                                                )
                                            } else if s1 == 's' {
                                                Outcome::Done(
                                                    run(t, 169 + min2, 13, min1 as int, min2 + 1, w),
                                                )
                                            } else if s1 == 'o' {
                                                Outcome::Done(
                                                    run(t, 338 + min2, 13, min1 as int, min2 + 1, w),
                                                )
                                            } else {
                                                Outcome::Fail(
                                                    RangeErrorSpec::UnexpectedToken(s1, suit_msg()),
                                                )
                                            },
                                        }
                                    },
                                },
                            }
                        },
                    },
                }
            },
        },
    }
}

/// One item, trimmed, read into `t` with the weight `w`; its form is chosen
/// by its length in bytes.
pub open spec fn item_outcome(e: Seq<char>, w: Weight, t: Seq<Option<Weight>>) -> Outcome {
    let n = encode_utf8(e).len();
    if n == 2 {
        item2(e, w, t)
    } else if n == 3 {
        item3(e, w, t)
    } else if n == 4 {
        item4(e, w, t)
    } else if n == 5 {
        item5(e, w, t)
    } else if n == 7 {
        item7(e, w, t)
    } else {
        Outcome::Abort
    }
}

/// The comma-separated items at `parts`, each trimmed, read in order into
/// `t` with the weight `w`, up to the first that does not read.
pub open spec fn items_outcome(parts: Seq<Seq<char>>, w: Weight, t: Seq<Option<Weight>>) -> Outcome
    decreases parts.len(),
{
    if parts.len() == 0 {
        Outcome::Done(t)
    } else {
        match items_outcome(parts.drop_last(), w, t) {
            Outcome::Done(t2) => item_outcome(trim_spec(parts.last()), w, t2),
            other => other,
        }
    }
}

/// The position of the first `c` at or after `from`, or the length.
pub open spec fn find_from(s: Seq<char>, from: int, c: char) -> int {
    from + first_index_of(s.subrange(from, s.len() as int), c)
}

/// The blocks `[w]items[/w]` of a weighted range from position `pos` on,
/// the `k`-th block first, read into `t`: the weight numerals read, in
/// order, and how the reading ends. Spaces between blocks are skipped.
pub open spec fn blocks(s: Seq<char>, pos: int, k: nat, t: Seq<Option<Weight>>) -> (
    Seq<Seq<char>>,
    Outcome,
)
    decreases s.len() - pos,
{
    if pos < 0 || pos >= s.len() {
        (Seq::empty(), Outcome::Done(t))
    } else if s[pos] == ' ' {
        blocks(s, pos + 1, k, t)
    } else if s[pos] != '[' {
        (Seq::empty(), Outcome::Fail(RangeErrorSpec::UnexpectedToken(s[pos], "["@)))
    } else {
        let a = find_from(s, pos + 1, ']');
        if a >= s.len() {
            (Seq::empty(), Outcome::Fail(RangeErrorSpec::UnexpectedEOF))
        } else {
            let w = s.subrange(pos + 1, a);
            let b = find_from(s, a + 1, '[');
            if b + 1 >= s.len() {
                (seq![w], Outcome::Fail(RangeErrorSpec::UnexpectedEOF))
            } else if s[b + 1] != '/' {
                (seq![w], Outcome::Fail(RangeErrorSpec::UnexpectedToken('[', "/"@)))
            } else {
                let c = find_from(s, b + 2, ']');
                if c >= s.len() {
                    (seq![w], Outcome::Fail(RangeErrorSpec::UnexpectedEOF))
                } else if s.subrange(b + 2, c) != w {
                    (
                        seq![w],
                        Outcome::Fail(RangeErrorSpec::Custom("Weight open and close are not equal"@)),
                    )
                } else {
                    match items_outcome(
                        split_commas(s.subrange(a + 1, b)),
                        Weight::Block(k as usize),
                        t,
                    ) {
                        Outcome::Done(t2) => {
                            proof {
                                lemma_first_index(s.subrange(pos + 1, s.len() as int), ']');
                                lemma_first_index(s.subrange(a + 1, s.len() as int), '[');
                                lemma_first_index(s.subrange(b + 2, s.len() as int), ']');
                            }
                            let (ws, o) = blocks(s, c + 1, k + 1, t2);
                            (seq![w] + ws, o)
                        },
                        other => (seq![w], other),
                    }
                }
            }
        }
    }
}

/// A range: empty, weighted blocks when it starts with `[`, or else
/// comma-separated items of the full weight. The weight numerals read, and
/// how the reading ends.
pub open spec fn range_spec(s: Seq<char>) -> (Seq<Seq<char>>, Outcome) {
    if s.len() == 0 {
        (Seq::empty(), Outcome::Done(empty_table()))
    } else if s[0] == '[' {
        blocks(s, 0, 0, empty_table())
    } else {
        (Seq::empty(), items_outcome(split_commas(s), Weight::Full, empty_table()))
    }
}

/// How reading a range ends.
#[derive(Debug)]
pub enum RangeOutcome {
    /// The table of weights, one slot per hand class (see `elem_slot`).
    Done(Vec<Option<Weight>>),
    /// The first error met.
    Fail(RangeParseError),
    /// An item that the reader cannot take (the caller stops).
    Abort,
}

/// What a `RangeOutcome` denotes.
pub open spec fn outcome_view(o: RangeOutcome) -> Outcome {
    match o {
        RangeOutcome::Done(t) => Outcome::Done(t@),
        RangeOutcome::Fail(e) => Outcome::Fail(e@),
        RangeOutcome::Abort => Outcome::Abort,
    }
}

/// A range as read: the numerals of the block weights met, in order (the
/// caller checks each before it takes the outcome, as the first one out of
/// bounds ends the reading there), and the outcome.
#[derive(Debug)]
pub struct RangeRead {
    pub weights: Vec<String>,
    pub outcome: RangeOutcome,
}

/// How one step of the reading ended.
enum Step {
    Next,
    Fail(RangeParseError),
    Abort,
}

/// The step ended as the outcome `o` says, with the table `t` if it went on.
spec fn step_is(r: Step, t: Seq<Option<Weight>>, o: Outcome) -> bool {
    match r {
        Step::Next => o == Outcome::Done(t),
        Step::Fail(e) => o == Outcome::Fail(e@),
        Step::Abort => o is Abort,
    }
}

/// The rank result as the spec result says, where an error is no `Next`.
spec fn rank_result_is(r: Result<u8, Step>, s: Result<u8, Outcome>) -> bool {
    match r {
        Ok(a) => s == Ok::<u8, Outcome>(a),
        Err(x) => s is Err && !(x is Next) && step_is(x, Seq::empty(), s->Err_0),
    }
}

/// The rank that `c` names, 0 for a two up to 12 for an ace.
///
/// Calls `poker::Rank::try_from` on the character; its source maps `2` to
/// `9`, `T`, `J`, `Q`, `K` and `A` to the ranks from two up to ace (declared
/// in that order) and refuses every other character. The contract states
/// that table.
#[verifier::external_body]
fn rank_from_char(c: char) -> (r: Option<u8>)
    ensures
        r == rank_of_char(c),
{
    match poker::Rank::try_from(c) {
        Ok(rank) => Some(rank as u8),
        Err(_) => None,
    }
}

/// The character of a rank.
pub fn rank_char(r: u8) -> (c: char)
    ensures
        c == rank_char_spec(r),
{
    if r == 0 {
        '2'
    } else if r == 1 {
        '3'
    } else if r == 2 {
        '4'
    } else if r == 3 {
        '5'
    } else if r == 4 {
        '6'
    } else if r == 5 {
        '7'
    } else if r == 6 {
        '8'
    } else if r == 7 {
        '9'
    } else if r == 8 {
        'T'
    } else if r == 9 {
        'J'
    } else if r == 10 {
        'Q'
    } else if r == 11 {
        'K'
    } else {
        'A'
    }
}

proof fn lemma_rank_bound(c: char)
    ensures
        rank_of_char(c) matches Some(r) ==> r < 13,
{
}

/// The character at `i`, if there is one.
fn chr_at(e: &str, i: usize) -> (r: Option<char>)
    ensures
        r == chr(e@, i as int),
{
    if i < e.unicode_len() {
        Some(e.get_char(i))
    } else {
        None
    }
}

/// The rank named at `i`.
fn rank_at_exec(e: &str, i: usize) -> (r: Result<u8, Step>)
    ensures
        rank_result_is(r, rank_at(e@, i as int)),
        r matches Ok(v) ==> v < 13,
{
    match chr_at(e, i) {
        None => Err(Step::Abort),
        Some(c) => {
            proof {
                lemma_rank_bound(c);
            }
            match rank_from_char(c) {
                None => Err(Step::Fail(RangeParseError::InvalidRank(c))),
                Some(v) => Ok(v),
            }
        },
    }
}

/// Sets the slots `base + r * stride`, for `r` in `lo..n`, to `w`.
fn set_run(t: &mut Vec<Option<Weight>>, base: usize, stride: usize, lo: usize, n: usize, w: Weight)
    requires
        old(t)@.len() == 507,
        lo < n ==> base + (n - 1) * stride < 507,
        stride <= 14,
    ensures
        final(t)@ == run(old(t)@, base as int, stride as int, lo as int, n as int, w),
        final(t)@.len() == 507,
{
    let mut r = lo;
    while r < n
        invariant
            lo <= r,
            r <= n || n <= lo,
            n <= lo ==> r == lo,
            t@.len() == 507,
            lo < n ==> base + (n - 1) * stride < 507,
            stride <= 14,
            t@ == run(old(t)@, base as int, stride as int, lo as int, r as int, w),
        decreases n - r,
    {
        proof {
            assert(base + r * stride <= base + (n - 1) * stride) by (nonlinear_arith)
                requires
                    r < n,
            ;
        }
        t.set(base + r * stride, Some(w));
        r = r + 1;
    }
    proof {
        if n <= lo {
            assert(run(old(t)@, base as int, stride as int, lo as int, n as int, w) == old(t)@);
            assert(run(old(t)@, base as int, stride as int, lo as int, lo as int, w) == old(t)@);
        }
    }
}

/// Reads a pair item, as `item2` states.
fn parse_item2(e: &str, w: Weight, t: &mut Vec<Option<Weight>>) -> (r: Step)
    requires
        old(t)@.len() == 507,
    ensures
        step_is(r, final(t)@, item2(e@, w, old(t)@)),
        final(t)@.len() == 507,
{
    let r1 = match rank_at_exec(e, 0) {
        Ok(v) => v,
        Err(s) => return s,
    };
    let r2 = match rank_at_exec(e, 1) {
        Ok(v) => v,
        Err(s) => return s,
    };
    if r1 != r2 {
        return Step::Fail(RangeParseError::NoSuitedness(r1, r2));
    }
    t.set(14 * r1 as usize, Some(w));
    Step::Next
}

/// Reads a three-character item, as `item3` states.
fn parse_item3(e: &str, w: Weight, t: &mut Vec<Option<Weight>>) -> (r: Step)
    requires
        old(t)@.len() == 507,
    ensures
        step_is(r, final(t)@, item3(e@, w, old(t)@)),
        final(t)@.len() == 507,
{
    let r1 = match rank_at_exec(e, 0) {
        Ok(v) => v,
        Err(s) => return s,
    };
    let r2 = match rank_at_exec(e, 1) {
        Ok(v) => v,
        Err(s) => return s,
    };
    let (a, b) = if r2 > r1 {
        (r2, r1)
    } else {
        (r1, r2)
    };
    let p = match chr_at(e, 2) {
        None => return Step::Abort,
        Some(c) => c,
    };
    proof {
        reveal_strlit("+");
        reveal_strlit("s for suited or o for offsuit");
    }
    if a == b {
        if p == '+' {
            set_run(t, 0, 14, a as usize, 13, w);
            Step::Next
        } else {
            Step::Fail(RangeParseError::UnexpectedToken(p, String::from_str("+")))
        }
    } else if p == 's' {
        t.set(169 + 13 * a as usize + b as usize, Some(w));
        Step::Next
    } else if p == 'o' {
        t.set(338 + 13 * a as usize + b as usize, Some(w));
        Step::Next
    } else {
        Step::Fail(
            RangeParseError::UnexpectedToken(p, String::from_str("s for suited or o for offsuit")),
        )
    }
}

/// Reads a four-character item, as `item4` states.
fn parse_item4(e: &str, w: Weight, t: &mut Vec<Option<Weight>>) -> (r: Step)
    requires
        old(t)@.len() == 507,
    ensures
        step_is(r, final(t)@, item4(e@, w, old(t)@)),
        final(t)@.len() == 507,
{
    let r1 = match rank_at_exec(e, 0) {
        Ok(v) => v,
        Err(s) => return s,
    };
    let r2 = match rank_at_exec(e, 1) {
        Ok(v) => v,
        Err(s) => return s,
    };
    let (a, b) = if r2 > r1 {
        (r2, r1)
    } else {
        (r1, r2)
    };
    let s = match chr_at(e, 2) {
        None => return Step::Abort,
        Some(c) => c,
    };
    let d = match chr_at(e, 3) {
        None => return Step::Abort,
        Some(c) => c,
    };
    proof {
        reveal_strlit("+");
        reveal_strlit("s for suited or o for offsuit");
    }
    if d != '+' {
        Step::Fail(RangeParseError::UnexpectedToken('+', String::from_str("+")))
    } else if s == 's' {
        set_run(t, 169 + 13 * a as usize, 1, b as usize, a as usize, w);
        Step::Next
    } else if s == 'o' {
        set_run(t, 338 + 13 * a as usize, 1, b as usize, a as usize, w);
        Step::Next
    } else {
        Step::Fail(
            RangeParseError::UnexpectedToken(s, String::from_str("s for suited or o for offsuit")),
        )
    }
}

/// Reads a five-character item, as `item5` states.
fn parse_item5(e: &str, w: Weight, t: &mut Vec<Option<Weight>>) -> (r: Step)
    requires
        old(t)@.len() == 507,
    ensures
        step_is(r, final(t)@, item5(e@, w, old(t)@)),
        final(t)@.len() == 507,
{
    let r1 = match rank_at_exec(e, 0) {
        Ok(v) => v,
        Err(s) => return s,
    };
    let r2 = match rank_at_exec(e, 1) {
        Ok(v) => v,
        Err(s) => return s,
    };
    let d = match chr_at(e, 2) {
        None => return Step::Abort,
        Some(c) => c,
    };
    proof {
        reveal_strlit("-");
    }
    if d != '-' {
        return Step::Fail(RangeParseError::UnexpectedToken('-', String::from_str("-")));
    }
    let r3 = match rank_at_exec(e, 3) {
        Ok(v) => v,
        Err(s) => return s,
    };
    let r4 = match rank_at_exec(e, 4) {
        Ok(v) => v,
        Err(s) => return s,
    };
    if r1 != r2 || r3 != r4 {
        return Step::Fail(RangeParseError::NoSuitedness(r1, r2));
    }
    let lo = if r1 < r3 {
        r1
    } else {
        r3
    };
    let hi = if r1 < r3 {
        r3
    } else {
        r1
    };
    set_run(t, 0, 14, lo as usize, hi as usize + 1, w);
    Step::Next
}

/// Reads a seven-character item, as `item7` states.
fn parse_item7(e: &str, w: Weight, t: &mut Vec<Option<Weight>>) -> (r: Step)
    requires
        old(t)@.len() == 507,
    ensures
        step_is(r, final(t)@, item7(e@, w, old(t)@)),
        final(t)@.len() == 507,
{
    let r1 = match rank_at_exec(e, 0) {
        Ok(v) => v,
        Err(s) => return s,
    };
    let r2 = match rank_at_exec(e, 1) {
        Ok(v) => v,
        Err(s) => return s,
    };
    let max1 = if r1 < r2 {
        r2
    } else {
        r1
    };
    let min1 = if r1 < r2 {
        r1
    } else {
        r2
    };
    let s1 = match chr_at(e, 2) {
        None => return Step::Abort,
        Some(c) => c,
    };
    let d = match chr_at(e, 3) {
        None => return Step::Abort,
        Some(c) => c,
    };
    proof {
        reveal_strlit("-");
        reveal_strlit("s for suited or o for offsuit");
        reveal_strlit("Min rank 1 is greater than min rank 2");
    }
    if d != '-' {
        return Step::Fail(RangeParseError::UnexpectedToken('-', String::from_str("-")));
    }
    let r3 = match rank_at_exec(e, 4) {
        Ok(v) => v,
        Err(s) => return s,
    };
    let r4 = match rank_at_exec(e, 5) {
        Ok(v) => v,
        Err(s) => return s,
    };
    let max2 = if r3 < r4 {
        r4
    } else {
        r3
    };
    let min2 = if r3 < r4 {
        r3
    } else {
        r4
    };
    let s2 = match chr_at(e, 6) {
        None => return Step::Abort,
        Some(c) => c,
    };
    if s1 != s2 {
        Step::Fail(
            RangeParseError::UnexpectedToken(s2, String::from_str("s for suited or o for offsuit")),
        )
    } else if max1 != max2 {
        let mut want = String::new();
        let c1 = rank_char(max1);
        push_char(&mut want, c1);
        Step::Fail(RangeParseError::UnexpectedToken(rank_char(max2), want))
    } else if min1 > min2 {
        Step::Fail(RangeParseError::Custom(String::from_str("Min rank 1 is greater than min rank 2")))
    } else if s1 == 's' {
        set_run(t, 169 + min2 as usize, 13, min1 as usize, min2 as usize + 1, w);
        Step::Next
    } else if s1 == 'o' {
        set_run(t, 338 + min2 as usize, 13, min1 as usize, min2 as usize + 1, w);
        Step::Next
    } else {
        Step::Fail(
            RangeParseError::UnexpectedToken(s1, String::from_str("s for suited or o for offsuit")),
        )
    }
}

/// Appends the character `c`, which names a rank, to `s`.
fn push_char(s: &mut String, c: char)
    requires
        c == '2' || c == '3' || c == '4' || c == '5' || c == '6' || c == '7' || c == '8' || c
            == '9' || c == 'T' || c == 'J' || c == 'Q' || c == 'K' || c == 'A',
    ensures
        final(s)@ == old(s)@.push(c),
{
    proof {
        reveal_strlit("2");
        reveal_strlit("3");
        reveal_strlit("4");
        reveal_strlit("5");
        reveal_strlit("6");
        reveal_strlit("7");
        reveal_strlit("8");
        reveal_strlit("9");
        reveal_strlit("T");
        reveal_strlit("J");
        reveal_strlit("Q");
        reveal_strlit("K");
        reveal_strlit("A");
    }
    let text = if c == '2' {
        "2"
    } else if c == '3' {
        "3"
    } else if c == '4' {
        "4"
    } else if c == '5' {
        "5"
    } else if c == '6' {
        "6"
    } else if c == '7' {
        "7"
    } else if c == '8' {
        "8"
    } else if c == '9' {
        "9"
    } else if c == 'T' {
        "T"
    } else if c == 'J' {
        "J"
    } else if c == 'Q' {
        "Q"
    } else if c == 'K' {
        "K"
    } else {
        "A"
    };
    assert(text@ =~= seq![c]);
    s.append(text);
}

/// The number of UTF-8 bytes of `c`.
fn char_width(c: char) -> (r: usize)
    ensures
        r == encode_scalar(c as u32).len(),
{
    let v = c as u32;
    if v <= 0x7f {
        1
    } else if v <= 0x7ff {
        2
    } else if v <= 0xffff && !(0xd800 <= v && v <= 0xdfff) {
        3
    } else {
        4
    }
}

proof fn lemma_encode_len_push(s: Seq<char>, c: char)
    ensures
        encode_utf8(s.push(c)).len() == encode_utf8(s).len() + encode_scalar(c as u32).len(),
    decreases s.len(),
{
    let sc = s.push(c);
    assert(sc.len() > 0);
    assert(encode_utf8(sc) == encode_scalar(sc[0] as u32) + encode_utf8(sc.drop_first()));
    if s.len() > 0 {
        lemma_encode_len_push(s.drop_first(), c);
        assert(sc.drop_first() =~= s.drop_first().push(c));
        assert(sc[0] == s[0]);
        assert(encode_utf8(s) == encode_scalar(s[0] as u32) + encode_utf8(s.drop_first()));
    } else {
        assert(sc.drop_first() =~= Seq::<char>::empty());
        assert(encode_utf8(Seq::<char>::empty()).len() == 0);
        assert(encode_utf8(s).len() == 0);
    }
}

/// The length of `e` in UTF-8 bytes, or 8 where it is 8 or more.
fn byte_len_upto_8(e: &str) -> (r: usize)
    ensures
        r == if encode_utf8(e@).len() < 8 {
            encode_utf8(e@).len() as usize
        } else {
            8
        },
{
    let n = e.unicode_len();
    let mut total: usize = 0;
    let mut i: usize = 0;
    while i < n
        invariant
            n == e@.len(),
            i <= n,
            total < 8,
            total == encode_utf8(e@.take(i as int)).len(),
        decreases n - i,
    {
        let c = e.get_char(i);
        proof {
            lemma_encode_len_push(e@.take(i as int), c);
            assert(e@.take(i + 1) =~= e@.take(i as int).push(c));
        }
        total = total + char_width(c);
        i = i + 1;
        if total >= 8 {
            proof {
                lemma_encode_len_prefix(e@, i as int);
            }
            return 8;
        }
    }
    proof {
        assert(e@.take(n as int) =~= e@);
    }
    total
}

proof fn lemma_encode_len_prefix(s: Seq<char>, k: int)
    requires
        0 <= k <= s.len(),
    ensures
        encode_utf8(s.take(k)).len() <= encode_utf8(s).len(),
    decreases s.len() - k,
{
    if k < s.len() {
        lemma_encode_len_prefix(s, k + 1);
        lemma_encode_len_push(s.take(k), s[k]);
        assert(s.take(k + 1) =~= s.take(k).push(s[k]));
    } else {
        assert(s.take(k) =~= s);
    }
}

/// Reads one trimmed item, as `item_outcome` states.
fn parse_item(e: &str, w: Weight, t: &mut Vec<Option<Weight>>) -> (r: Step)
    requires
        old(t)@.len() == 507,
    ensures
        step_is(r, final(t)@, item_outcome(e@, w, old(t)@)),
        final(t)@.len() == 507,
{
    let n = byte_len_upto_8(e);
    if n == 2 {
        parse_item2(e, w, t)
    } else if n == 3 {
        parse_item3(e, w, t)
    } else if n == 4 {
        parse_item4(e, w, t)
    } else if n == 5 {
        parse_item5(e, w, t)
    } else if n == 7 {
        parse_item7(e, w, t)
    } else {
        Step::Abort
    }
}

/// Reads the comma-separated items of `input`, each trimmed, with the
/// weight `w`, as `items_outcome` states.
fn parse_items(input: &str, w: Weight, t: &mut Vec<Option<Weight>>) -> (r: Step)
    requires
        old(t)@.len() == 507,
    ensures
        step_is(r, final(t)@, items_outcome(split_commas(input@), w, old(t)@)),
        final(t)@.len() == 507,
{
    let len = input.unicode_len();
    let mut start: usize = 0;
    let ghost mut done: Seq<Seq<char>> = Seq::empty();
    let mut state = Step::Next;
    let mut i: usize = 0;
    assert(input@.subrange(0, 0) =~= Seq::<char>::empty());
    assert(done.push(input@.subrange(0, 0)) =~= seq![Seq::<char>::empty()]);
    while i < len
        invariant
            start <= i <= len,
            len == input@.len(),
            t@.len() == 507,
            split_commas(input@.subrange(0, i as int)) == done.push(input@.subrange(start as int, i as int)),
            step_is(state, t@, items_outcome(done, w, old(t)@)),
        decreases len - i,
    {
        let c = input.get_char(i);
        proof {
            assert(input@.subrange(0, i + 1).drop_last() =~= input@.subrange(0, i as int));
            assert(input@.subrange(0, i + 1).last() == c);
        }
        if c == ',' {
            let part = input.substring_char(start, i);
            proof {
                assert(done.push(part@).drop_last() =~= done);
            }
            if let Step::Next = state {
                let item = trim_white(part);
                state = parse_item(item, w, t);
            }
            proof {
                done = done.push(part@);
                assert(input@.subrange(i + 1, i + 1) =~= Seq::<char>::empty());
            }
            start = i + 1;
        } else {
            proof {
                let prev = done.push(input@.subrange(start as int, i as int));
                assert(input@.subrange(start as int, i + 1) =~= input@.subrange(start as int, i as int).push(c));
                assert(prev.update(prev.len() - 1, prev.last().push(c)) =~= done.push(
                    input@.subrange(start as int, i + 1),
                ));
            }
        }
        i = i + 1;
    }
    let part = input.substring_char(start, len);
    proof {
        assert(input@.subrange(0, len as int) =~= input@);
        assert(done.push(part@).drop_last() =~= done);
    }
    if let Step::Next = state {
        let item = trim_white(part);
        state = parse_item(item, w, t);
    }
    state
}

/// The outcome that a finished step leaves with the table `t`.
fn finish(state: Step, t: Vec<Option<Weight>>) -> (r: RangeOutcome)
    ensures
        forall|o: Outcome| step_is(state, t@, o) ==> outcome_view(r) == o,
{
    match state {
        Step::Next => RangeOutcome::Done(t),
        Step::Fail(e) => RangeOutcome::Fail(e),
        Step::Abort => RangeOutcome::Abort,
    }
}

/// Reads a range, as `range_spec` states: the block weights met, and the
/// table of weights or why there is none.
pub fn parse_range(s: &str) -> (r: RangeRead)
    ensures
        r.weights@.map_values(|x: String| x@) == range_spec(s@).0,
        outcome_view(r.outcome) == range_spec(s@).1,
{
    let n = s.unicode_len();
    let mut t: Vec<Option<Weight>> = Vec::new();
    for i in 0..507usize
        invariant
            t@.len() == i,
            forall|j: int| 0 <= j < i ==> t@[j] is None,
    {
        t.push(None);
    }
    assert(t@ =~= empty_table());
    let mut weights: Vec<String> = Vec::new();
    if n == 0 {
        return RangeRead { weights, outcome: RangeOutcome::Done(t) };
    }
    if s.get_char(0) != '[' {
        let state = parse_items(s, Weight::Full, &mut t);
        assert(weights@.map_values(|x: String| x@) =~= Seq::<Seq<char>>::empty());
        return RangeRead { weights, outcome: finish(state, t) };
    }
    proof {
        reveal_strlit("[");
        reveal_strlit("/");
        reveal_strlit("Weight open and close are not equal");
    }
    let mut pos: usize = 0;
    let mut k: usize = 0;
    loop
        invariant
            n == s@.len(),
            n > 0,
            s@[0] == '[',
            pos <= n,
            k <= pos,
            t@.len() == 507,
            weights@.map_values(|x: String| x@) + blocks(s@, pos as int, k as nat, t@).0 == range_spec(s@).0,
            blocks(s@, pos as int, k as nat, t@).1 == range_spec(s@).1,
        decreases n - pos,
    {
        let ghost wv = weights@.map_values(|x: String| x@);
        if pos >= n {
            assert(wv + Seq::<Seq<char>>::empty() =~= wv);
            return RangeRead { weights, outcome: RangeOutcome::Done(t) };
        }
        let c = s.get_char(pos);
        if c == ' ' {
            pos = pos + 1;
            proof {
                assert(k <= pos);
            }
            continue;
        }
        if c != '[' {
            assert(wv + Seq::<Seq<char>>::empty() =~= wv);
            return RangeRead {
                weights,
                outcome: RangeOutcome::Fail(RangeParseError::UnexpectedToken(c, String::from_str("["))),
            };
        }
        let a = find_char(s, ']', pos + 1);
        if a >= n {
            assert(wv + Seq::<Seq<char>>::empty() =~= wv);
            return RangeRead { weights, outcome: RangeOutcome::Fail(RangeParseError::UnexpectedEOF) };
        }
        let w = s.substring_char(pos + 1, a).to_owned();
        let ghost w_view = w@;
        weights.push(w);
        proof {
            assert(weights@.map_values(|x: String| x@) =~= wv.push(w_view));
        }
        let b = find_char(s, '[', a + 1);
        if b >= n - 1 {
            assert(wv + seq![w_view] =~= wv.push(w_view));
            return RangeRead { weights, outcome: RangeOutcome::Fail(RangeParseError::UnexpectedEOF) };
        }
        if s.get_char(b + 1) != '/' {
            assert(wv + seq![w_view] =~= wv.push(w_view));
            return RangeRead {
                weights,
                outcome: RangeOutcome::Fail(RangeParseError::UnexpectedToken('[', String::from_str("/"))),
            };
        }
        let c2 = find_char(s, ']', b + 2);
        if c2 >= n {
            assert(wv + seq![w_view] =~= wv.push(w_view));
            return RangeRead { weights, outcome: RangeOutcome::Fail(RangeParseError::UnexpectedEOF) };
        }
        let close = s.substring_char(b + 2, c2);
        let same = same_text(close, weights[weights.len() - 1].as_str());
        if !same {
            assert(wv + seq![w_view] =~= wv.push(w_view));
            return RangeRead {
                weights,
                outcome: RangeOutcome::Fail(
                    RangeParseError::Custom(String::from_str("Weight open and close are not equal")),
                ),
            };
        }
        let body = s.substring_char(a + 1, b);
        let ghost before = t@;
        let state = parse_items(body, Weight::Block(k), &mut t);
        match state {
            Step::Next => {},
            _ => {
                assert(wv + seq![w_view] =~= wv.push(w_view));
                return RangeRead { weights, outcome: finish(state, t) };
            },
        }
        proof {
            let rest = blocks(s@, c2 + 1, k as nat + 1, t@);
            assert(blocks(s@, pos as int, k as nat, before).0 == seq![w_view] + rest.0);
            assert(wv + (seq![w_view] + rest.0) =~= wv.push(w_view) + rest.0);
        }
        pos = c2 + 1;
        k = k + 1;
    }
}

/// The ranks of the class are ranks.
pub open spec fn elem_ok(e: RangeElem) -> bool {
    match e {
        RangeElem::Pair(r) => r < 13,
        RangeElem::Suited(a, b) => a < 13 && b < 13,
        RangeElem::Offsuit(a, b) => a < 13 && b < 13,
    }
}

/// The slot of a hand class in a table.
pub fn elem_slot(e: RangeElem) -> (r: usize)
    requires
        elem_ok(e),
    ensures
        r == elem_index(e),
        r < 507,
{
    match e {
        RangeElem::Pair(r) => 14 * r as usize,
        RangeElem::Suited(a, b) => 169 + 13 * a as usize + b as usize,
        RangeElem::Offsuit(a, b) => 338 + 13 * a as usize + b as usize,
    }
}

/// The hand class whose slot is `k`, if a class has it.
pub fn slot_elem(k: usize) -> (r: Option<RangeElem>)
    requires
        k < 507,
    ensures
        match r {
            Some(e) => elem_ok(e) && elem_index(e) == k,
            None => forall|e: RangeElem| elem_ok(e) ==> elem_index(e) != k,
        },
{
    if k < 169 {
        if k % 14 == 0 {
            Some(RangeElem::Pair((k / 14) as u8))
        } else {
            None
        }
    } else if k < 338 {
        let j = k - 169;
        Some(RangeElem::Suited((j / 13) as u8, (j % 13) as u8))
    } else {
        let j = k - 338;
        Some(RangeElem::Offsuit((j / 13) as u8, (j % 13) as u8))
    }
}

} // verus!
