//! Text forms of actions and lines of actions.
//!
//! A line is written as the short codes of its actions (`F`, `C`, `X`,
//! `B20`, `R60`, `A100`) joined by `-`, with `|` where a street ends.

use vstd::prelude::*;
use crate::action::Action;
use crate::decimal::{int_text, parse_i32_text, push_int, parse_i32, lemma_parse_int_text, lemma_nat_text};

verus! {

/// The actions that have a text form: fold, call, check, bet, raise, all-in.
pub open spec fn is_encodable(a: Action) -> bool {
    a is Fold || a is Call || a is Check || a is Bet || a is Raise || a is AllIn
}

/// The short code of an action.
pub open spec fn action_code(a: Action) -> Seq<char> {
    match a {
        Action::Fold => seq!['F'],
        Action::Call => seq!['C'],
        Action::Check => seq!['X'],
        Action::Bet(n) => seq!['B'] + int_text(n as int),
        Action::Raise(n) => seq!['R'] + int_text(n as int),
        Action::AllIn(n) => seq!['A'] + int_text(n as int),
        _ => Seq::empty(),
    }
}

/// The labelled form of an action, `Kind:amount`.
pub open spec fn action_label(a: Action) -> Seq<char> {
    match a {
        Action::Fold => "Fold:0"@,
        Action::Call => "Call:0"@,
        Action::Check => "Check:0"@,
        Action::Bet(n) => "Bet:"@ + int_text(n as int),
        Action::Raise(n) => "Raise:"@ + int_text(n as int),
        Action::AllIn(n) => "AllIn:"@ + int_text(n as int),
        _ => Seq::empty(),
    }
}

/// The texts that `decode_action` reads: `F`, `C`, `X`, or `B`, `R` or `A`
/// followed by an integer.
pub open spec fn is_decodable(s: Seq<char>) -> bool {
    s == seq!['F'] || s == seq!['C'] || s == seq!['X'] || (s.len() >= 1 && (s[0] == 'B' || s[0]
        == 'R' || s[0] == 'A') && parse_i32_text(s.drop_first()) is Some)
}

/// The action that a decodable text denotes.
pub open spec fn decoded(s: Seq<char>) -> Action {
    if s == seq!['F'] {
        Action::Fold
    } else if s == seq!['C'] {
        Action::Call
    } else if s == seq!['X'] {
        Action::Check
    } else {
        let n = parse_i32_text(s.drop_first()).unwrap();
        if s[0] == 'B' {
            Action::Bet(n)
        } else if s[0] == 'R' {
            Action::Raise(n)
        } else {
            Action::AllIn(n)
        }
    }
}

/// The flag that tells where a street ends: it counts checks and becomes 2
/// after a call or a second check; the next action then starts a street.
pub open spec fn next_flag(flag: int, a: Action) -> int {
    let f = if flag == 2 {
        0
    } else {
        flag
    };
    match a {
        Action::Check => f + 1,
        Action::Call => 2,
        _ => 0,
    }
}

/// The text of the actions of `line` that follow others, each after its
/// delimiter, given the flag left by the actions before.
pub open spec fn line_rest_text(line: Seq<Action>, flag: int) -> Seq<char>
    decreases line.len(),
{
    if line.len() == 0 {
        Seq::empty()
    } else {
        let delim = if flag == 2 {
            seq!['|']
        } else {
            seq!['-']
        };
        delim + action_code(line[0]) + line_rest_text(line.drop_first(), next_flag(flag, line[0]))
    }
}

/// The text of a line: `(Root)` for the empty line.
pub open spec fn line_text(line: Seq<Action>) -> Seq<char> {
    if line.len() == 0 {
        "(Root)"@
    } else {
        action_code(line[0]) + line_rest_text(line.drop_first(), next_flag(0, line[0]))
    }
}

/// The `Debug` text of an action, as `derive(Debug)` writes it (the
/// no-action value as `None`).
pub open spec fn action_debug_text(a: Action) -> Seq<char> {
    match a {
        Action::NoAction => "None"@,
        Action::Fold => "Fold"@,
        Action::Check => "Check"@,
        Action::Call => "Call"@,
        Action::Bet(n) => "Bet("@ + int_text(n as int) + ")"@,
        Action::Raise(n) => "Raise("@ + int_text(n as int) + ")"@,
        Action::AllIn(n) => "AllIn("@ + int_text(n as int) + ")"@,
        Action::Chance(c) => "Chance("@ + int_text(c as int) + ")"@,
    }
}

/// Appends the short code of `action` to `s`.
fn push_code(s: &mut String, action: Action)
    requires
        is_encodable(action),
    ensures
        final(s)@ == old(s)@ + action_code(action),
{
    proof {
        reveal_strlit("F");
        reveal_strlit("C");
        reveal_strlit("X");
        reveal_strlit("B");
        reveal_strlit("R");
        reveal_strlit("A");
    }
    match action {
        Action::Fold => s.append("F"),
        Action::Call => s.append("C"),
        Action::Check => s.append("X"),
        Action::Bet(amount) => {
            s.append("B");
            push_int(s, amount);
        },
        Action::Raise(amount) => {
            s.append("R");
            push_int(s, amount);
        },
        Action::AllIn(amount) => {
            s.append("A");
            push_int(s, amount);
        },
        _ => {},
    }
    proof {
        assert(s@ =~= old(s)@ + action_code(action));
    }
}

/// The labelled form of an action, `Kind:amount` (fold, call and check
/// with amount 0).
pub fn action_to_str(action: Action) -> (r: String)
    requires
        is_encodable(action),
    ensures
        r@ == action_label(action),
{
    match action {
        Action::Fold => String::from_str("Fold:0"),
        Action::Call => String::from_str("Call:0"),
        Action::Check => String::from_str("Check:0"),
        Action::Bet(amount) => {
            let mut s = String::from_str("Bet:");
            push_int(&mut s, amount);
            s
        },
        Action::Raise(amount) => {
            let mut s = String::from_str("Raise:");
            push_int(&mut s, amount);
            s
        },
        _ => {
            let amount = match action {
                Action::AllIn(amount) => amount,
                _ => 0,
            };
            let mut s = String::from_str("AllIn:");
            push_int(&mut s, amount);
            s
        },
    }
}

/// The short code of an action.
pub fn encode_action(action: Action) -> (r: String)
    requires
        is_encodable(action),
    ensures
        r@ == action_code(action),
{
    let mut s = String::new();
    push_code(&mut s, action);
    proof {
        assert(s@ =~= action_code(action));
    }
    s
}

/// Whether `s` is a short code that `decode_action` reads, as
/// `is_decodable` states.
pub fn decodable(s: &str) -> (r: bool)
    ensures
        r == is_decodable(s@),
{
    let len = s.unicode_len();
    if len == 0 {
        return false;
    }
    let first = s.get_char(0);
    if len == 1 && (first == 'F' || first == 'C' || first == 'X') {
        proof {
            assert(s@ =~= seq![first]);
        }
        return true;
    }
    proof {
        if len == 1 {
            assert(s@ =~= seq![first]);
        }
    }
    if !(first == 'B' || first == 'R' || first == 'A') {
        proof {
            if s@ == seq!['F'] || s@ == seq!['C'] || s@ == seq!['X'] {
                assert(s@[0] == first);
            }
        }
        return false;
    }
    let rest = s.substring_char(1, len);
    proof {
        assert(rest@ =~= s@.drop_first());
    }
    match parse_i32(rest) {
        Some(_) => true,
        None => false,
    }
}

/// The action that a short code denotes.
pub fn decode_action(s: &str) -> (r: Action)
    requires
        is_decodable(s@),
    ensures
        r == decoded(s@),
{
    let len = s.unicode_len();
    if len == 1 {
        let c = s.get_char(0);
        if c == 'F' {
            proof {
                assert(s@ =~= seq!['F']);
            }
            return Action::Fold;
        } else if c == 'C' {
            proof {
                assert(s@ =~= seq!['C']);
            }
            return Action::Call;
        } else if c == 'X' {
            proof {
                assert(s@ =~= seq!['X']);
            }
            return Action::Check;
        }
    }
    proof {
        if len == 1 {
            assert(s@ != seq!['F'] && s@ != seq!['C'] && s@ != seq!['X']) by {
                if s@ == seq!['F'] || s@ == seq!['C'] || s@ == seq!['X'] {
                    assert(s@[0] == s@[0]);
                }
            }
        }
    }
    let first = s.get_char(0);
    let rest = s.substring_char(1, len);
    proof {
        assert(rest@ =~= s@.drop_first());
    }
    let amount = match parse_i32(rest) {
        Some(n) => n,
        None => 0,
    };
    if first == 'B' {
        Action::Bet(amount)
    } else if first == 'R' {
        Action::Raise(amount)
    } else {
        Action::AllIn(amount)
    }
}

/// The text of a line: the codes of its actions joined by `-`, with `|`
/// after a call or the second of two checks; `(Root)` for the empty line.
pub fn encode_line(line: &[Action]) -> (r: String)
    requires
        forall|i: int| 0 <= i < line@.len() ==> is_encodable(#[trigger] line@[i]),
    ensures
        r@ == line_text(line@),
{
    let mut flag: u8 = 0;
    let mut encoded = String::new();

    if line.len() == 0 {
        return String::from_str("(Root)");
    }
    proof {
        reveal_strlit("-");
        reveal_strlit("|");
    }
    let n = line.len();
    let ghost mut started = false;
    for i in 0..n
        invariant
            n == line@.len(),
            n > 0,
            forall|j: int| 0 <= j < line@.len() ==> is_encodable(#[trigger] line@[j]),
            flag <= 2,
            (i == 0) <==> (encoded@.len() == 0),
            i == 0 ==> flag == 0,
            i > 0 ==> encoded@ + line_rest_text(line@.skip(i as int), flag as int) == line_text(
                line@,
            ),
    {
        let action = line[i];
        let ghost old_flag = flag as int;
        let ghost old_text = encoded@;
        if i > 0 {
            if flag == 2 {
                encoded.append("|");
                flag = 0;
            } else {
                encoded.append("-");
            }
        }
        match action {
            Action::Check => flag = flag + 1,
            Action::Call => flag = 2,
            _ => flag = 0,
        }
        push_code(&mut encoded, action);
        proof {
            assert(line@.skip(i as int).drop_first() =~= line@.skip(i + 1));
            if i == 0 {
                assert(encoded@ =~= action_code(line@[0]));
                assert(line@.drop_first() =~= line@.skip(1));
            } else {
                reveal_strlit("-");
                reveal_strlit("|");
                let delim = if old_flag == 2 { seq!['|'] } else { seq!['-'] };
                assert(encoded@ =~= old_text + delim + action_code(action));
                assert(line_rest_text(line@.skip(i as int), old_flag) =~= delim + action_code(action)
                    + line_rest_text(line@.skip(i + 1), flag as int));
            }
            lemma_code_nonempty(action);
        }
    }
    proof {
        assert(line@.skip(n as int) =~= Seq::<Action>::empty());
    }
    encoded
}

/// Whether every action of every line has a code (see `is_encodable`).
pub fn lines_encodable(lines: &Vec<Vec<Action>>) -> (r: bool)
    ensures
        r == forall|i: int, j: int|
            0 <= i < lines@.len() && 0 <= j < lines@[i]@.len() ==> is_encodable(
                #[trigger] lines@[i]@[j],
            ),
{
    for i in 0..lines.len()
        invariant
            forall|a: int, b: int|
                0 <= a < i && 0 <= b < lines@[a]@.len() ==> is_encodable(#[trigger] lines@[a]@[b]),
    {
        let line = &lines[i];
        for j in 0..line.len()
            invariant
                i < lines@.len(),
                *line == lines@[i as int],
                forall|a: int, b: int|
                    0 <= a < i && 0 <= b < lines@[a]@.len() ==> is_encodable(#[trigger] lines@[a]@[b]),
                forall|b: int| 0 <= b < j ==> is_encodable(#[trigger] lines@[i as int]@[b]),
        {
            let ok = match line[j] {
                Action::Fold | Action::Call | Action::Check | Action::Bet(_) | Action::Raise(_)
                | Action::AllIn(_) => true,
                _ => false,
            };
            if !ok {
                proof {
                    assert(!is_encodable(lines@[i as int]@[j as int]));
                }
                return false;
            }
        }
    }
    true
}

/// The codes of the lines, each as `encode_line` writes it, joined by `,`.
pub fn encode_lines(lines: &Vec<Vec<Action>>) -> (r: String)
    requires
        forall|i: int, j: int|
            0 <= i < lines@.len() && 0 <= j < lines@[i]@.len() ==> is_encodable(
                #[trigger] lines@[i]@[j],
            ),
    ensures
        r@ == lines_text(lines@.map_values(|l: Vec<Action>| l@)),
{
    let mut out = String::new();
    let ghost views = lines@.map_values(|l: Vec<Action>| l@);
    proof {
        reveal_strlit(",");
    }
    for i in 0..lines.len()
        invariant
            views == lines@.map_values(|l: Vec<Action>| l@),
            forall|a: int, b: int|
                0 <= a < lines@.len() && 0 <= b < lines@[a]@.len() ==> is_encodable(
                    #[trigger] lines@[a]@[b],
                ),
            out@ == lines_text(views.take(i as int)),
    {
        let ghost before = out@;
        if i > 0 {
            out.append(",");
        }
        let text = encode_line(lines[i].as_slice());
        out.append(text.as_str());
        proof {
            assert(views.take(i + 1).drop_last() =~= views.take(i as int));
            assert(views.take(i + 1).last() == lines@[i as int]@);
        }
    }
    proof {
        assert(views.take(lines@.len() as int) =~= views);
    }
    out
}

/// The texts of lines joined by `,`.
pub open spec fn lines_text(lines: Seq<Seq<Action>>) -> Seq<char>
    decreases lines.len(),
{
    if lines.len() == 0 {
        Seq::empty()
    } else if lines.len() == 1 {
        line_text(lines[0])
    } else {
        lines_text(lines.drop_last()) + ","@ + line_text(lines.last())
    }
}

/// The `Debug` text of an action.
pub fn action_debug(action: Action) -> (r: String)
    ensures
        r@ == action_debug_text(action),
{
    match action {
        Action::NoAction => String::from_str("None"),
        Action::Fold => String::from_str("Fold"),
        Action::Check => String::from_str("Check"),
        Action::Call => String::from_str("Call"),
        Action::Bet(n) => {
            let mut s = String::from_str("Bet(");
            push_int(&mut s, n);
            s.append(")");
            s
        },
        Action::Raise(n) => {
            let mut s = String::from_str("Raise(");
            push_int(&mut s, n);
            s.append(")");
            s
        },
        Action::AllIn(n) => {
            let mut s = String::from_str("AllIn(");
            push_int(&mut s, n);
            s.append(")");
            s
        },
        Action::Chance(c) => {
            let mut s = String::from_str("Chance(");
            push_int(&mut s, c as i32);
            s.append(")");
            s
        },
    }
}

/// Every code has at least one character.
pub proof fn lemma_code_nonempty(a: Action)
    requires
        is_encodable(a),
    ensures
        action_code(a).len() > 0,
{
}

/// Decoding the code of an action gives the action back.
pub proof fn lemma_decode_encode(a: Action)
    requires
        is_encodable(a),
    ensures
        is_decodable(action_code(a)),
        decoded(action_code(a)) == a,
{
    let s = action_code(a);
    match a {
        Action::Bet(n) => {
            lemma_code_text(n, 'B');
            assert(s[0] == 'B');
            assert(parse_i32_text(s.drop_first()).unwrap() == n);
            assert(s != seq!['F'] && s != seq!['C'] && s != seq!['X']) by {
                if s == seq!['F'] || s == seq!['C'] || s == seq!['X'] {
                    assert(s.len() == 1);
                }
            }
        },
        Action::Raise(n) => {
            lemma_code_text(n, 'R');
            assert(s[0] == 'R');
            assert(parse_i32_text(s.drop_first()).unwrap() == n);
            assert(s != seq!['F'] && s != seq!['C'] && s != seq!['X']) by {
                if s == seq!['F'] || s == seq!['C'] || s == seq!['X'] {
                    assert(s.len() == 1);
                }
            }
        },
        Action::AllIn(n) => {
            lemma_code_text(n, 'A');
            assert(s[0] == 'A');
            assert(parse_i32_text(s.drop_first()).unwrap() == n);
            assert(s != seq!['F'] && s != seq!['C'] && s != seq!['X']) by {
                if s == seq!['F'] || s == seq!['C'] || s == seq!['X'] {
                    assert(s.len() == 1);
                }
            }
        },
        _ => {
            assert(seq!['C'][0] != seq!['F'][0]);
            assert(seq!['X'][0] != seq!['F'][0]);
            assert(seq!['X'][0] != seq!['C'][0]);
        },
    }
}

/// A letter followed by the text of `n` reads as the letter and `n`.
proof fn lemma_code_text(n: i32, letter: char)
    ensures
        (seq![letter] + int_text(n as int)).len() >= 2,
        (seq![letter] + int_text(n as int))[0] == letter,
        (seq![letter] + int_text(n as int)).drop_first() == int_text(n as int),
        parse_i32_text(int_text(n as int)) == Some(n),
{
    let s = seq![letter] + int_text(n as int);
    lemma_parse_int_text(n);
    assert(s.drop_first() =~= int_text(n as int));
    let m: nat = if n < 0 {
        (-(n as int)) as nat
    } else {
        n as nat
    };
    lemma_nat_text(m);
}

} // verus!
