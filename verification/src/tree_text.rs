//! The action tree drawn as text, one line per node, with the branches of
//! a tree drawing before each node.

use vstd::prelude::*;
use crate::{Street, street_name};
use crate::action::Action;
use crate::action_util::{action_debug, action_debug_text};
use crate::decimal::{int_text, push_int};
use crate::node::{ActionTreeNode, count_nodes, count_nodes_seq, lemma_count_prefix};
use crate::tree::ActionTree;

verus! {

/// The hexadecimal digit of `d` (0 to 15), in small letters.
pub open spec fn hex_digit(d: int) -> char {
    if d < 10 {
        (48 + d) as char
    } else {
        (87 + d) as char
    }
}

/// A byte as `{:#x}` writes it: `0x` and its hexadecimal digits, without
/// leading zeros.
pub open spec fn hex_text(n: u8) -> Seq<char> {
    if n < 16 {
        seq!['0', 'x', hex_digit(n as int)]
    } else {
        seq!['0', 'x', hex_digit((n / 16) as int), hex_digit((n % 16) as int)]
    }
}

/// The `Debug` texts of the actions, joined by `, `, in brackets.
pub open spec fn actions_text(actions: Seq<Action>) -> Seq<char> {
    "["@ + actions_joined(actions) + "]"@
}

/// The `Debug` texts of the actions, joined by `, `.
pub open spec fn actions_joined(actions: Seq<Action>) -> Seq<char>
    decreases actions.len(),
{
    if actions.len() == 0 {
        Seq::empty()
    } else if actions.len() == 1 {
        action_debug_text(actions[0])
    } else {
        actions_joined(actions.drop_last()) + ", "@ + action_debug_text(actions.last())
    }
}

/// The branches before a node at `depth`: a bar for each level above, then
/// a corner for the last of its siblings or a tee for the others.
pub open spec fn indent_text(depth: nat, last: bool) -> Seq<char>
    decreases depth,
{
    if depth == 0 {
        if last {
            "└──"@
        } else {
            "├──"@
        }
    } else {
        "│  "@ + indent_text((depth - 1) as nat, last)
    }
}

/// The line of a node: its player (in hexadecimal), street, amount and
/// actions.
pub open spec fn node_line(node: ActionTreeNode, depth: nat, last: bool) -> Seq<char> {
    indent_text(depth, last) + "[Player: "@ + hex_text(node.player) + ", Street: "@ + street_name(
        node.street,
    ) + ", Amount: "@ + int_text(node.amount as int) + ", Actions: "@ + actions_text(node.actions@)
        + "]"@
}

/// The lines of the subtree at `node`, drawn at `depth`: its own line,
/// then those of its children one level deeper.
pub open spec fn tree_text(node: ActionTreeNode, depth: nat, last: bool) -> Seq<Seq<char>>
    decreases node, 1int,
{
    seq![node_line(node, depth, last)] + children_text(
        node.children@,
        depth + 1,
        node.children@.len() as int,
    )
}

/// The lines of the subtrees at `s` among `total` siblings, drawn at
/// `depth`; the one at position `total - 1` is the last sibling.
pub open spec fn children_text(s: Seq<ActionTreeNode>, depth: nat, total: int) -> Seq<Seq<char>>
    decreases s, 0int,
{
    if s.len() == 0 {
        Seq::empty()
    } else {
        children_text(s.drop_last(), depth, total) + tree_text(s.last(), depth, s.len() - 1 == total - 1)
    }
}

/// The hexadecimal digit of `d`.
fn hex_char_text(d: u8) -> (r: &'static str)
    requires
        d < 16,
    ensures
        r@ == seq![hex_digit(d as int)],
{
    proof {
        reveal_strlit("0");
        reveal_strlit("1");
        reveal_strlit("2");
        reveal_strlit("3");
        reveal_strlit("4");
        reveal_strlit("5");
        reveal_strlit("6");
        reveal_strlit("7");
        reveal_strlit("8");
        reveal_strlit("9");
        reveal_strlit("a");
        reveal_strlit("b");
        reveal_strlit("c");
        reveal_strlit("d");
        reveal_strlit("e");
        reveal_strlit("f");
    }
    let r = match d {
        0 => "0",
        1 => "1",
        2 => "2",
        3 => "3",
        4 => "4",
        5 => "5",
        6 => "6",
        7 => "7",
        8 => "8",
        9 => "9",
        10 => "a",
        11 => "b",
        12 => "c",
        13 => "d",
        14 => "e",
        _ => "f",
    };
    assert(r@ =~= seq![hex_digit(d as int)]);
    r
}

/// Appends `hex_text(n)` to `s`.
fn push_hex(s: &mut String, n: u8)
    ensures
        final(s)@ == old(s)@ + hex_text(n),
{
    proof {
        reveal_strlit("0x");
    }
    s.append("0x");
    if n < 16 {
        s.append(hex_char_text(n));
    } else {
        s.append(hex_char_text(n / 16));
        s.append(hex_char_text(n % 16));
    }
    assert(final(s)@ =~= old(s)@ + hex_text(n));
}

/// Appends the name of a street to `s`.
fn push_street(s: &mut String, street: Street)
    ensures
        final(s)@ == old(s)@ + street_name(street),
{
    let name = street.name();
    s.append(name.as_str());
}

/// Appends `actions_text(actions)` to `s`.
fn push_actions(s: &mut String, actions: &Vec<Action>)
    ensures
        final(s)@ == old(s)@ + actions_text(actions@),
{
    proof {
        reveal_strlit("[");
        reveal_strlit("]");
        reveal_strlit(", ");
    }
    let ghost start = s@;
    s.append("[");
    let n = actions.len();
    for i in 0..n
        invariant
            n == actions@.len(),
            s@ == start + "["@ + actions_joined(actions@.take(i as int)),
    {
        proof {
            assert(actions@.take(i + 1).drop_last() =~= actions@.take(i as int));
            assert(actions@.take(i + 1).last() == actions@[i as int]);
        }
        if i > 0 {
            s.append(", ");
        }
        let text = action_debug(actions[i]);
        s.append(text.as_str());
        proof {
            if i == 0 {
                assert(actions@.take(1) =~= seq![actions@[0]]);
                assert(actions@.take(0) =~= Seq::<Action>::empty());
            }
            assert(s@ =~= start + "["@ + actions_joined(actions@.take(i + 1)));
        }
    }
    s.append("]");
    proof {
        assert(actions@.take(n as int) =~= actions@);
        assert(s@ =~= start + actions_text(actions@));
    }
}

/// Appends `indent_text(depth, last)` to `s`.
fn push_indent(s: &mut String, depth: usize, last: bool)
    ensures
        final(s)@ == old(s)@ + indent_text(depth as nat, last),
{
    proof {
        reveal_strlit("│  ");
        reveal_strlit("└──");
        reveal_strlit("├──");
    }
    let ghost start = s@;
    for k in 0..depth
        invariant
            s@ == start + repeat_bar(k as nat),
    {
        s.append("│  ");
        proof {
            assert(s@ =~= start + repeat_bar((k + 1) as nat));
        }
    }
    if last {
        s.append("└──");
    } else {
        s.append("├──");
    }
    proof {
        lemma_indent(depth as nat, last);
        assert(s@ =~= start + indent_text(depth as nat, last));
    }
}

/// `k` bars.
spec fn repeat_bar(k: nat) -> Seq<char>
    decreases k,
{
    if k == 0 {
        Seq::empty()
    } else {
        repeat_bar((k - 1) as nat) + "│  "@
    }
}

proof fn lemma_indent(depth: nat, last: bool)
    ensures
        indent_text(depth, last) == repeat_bar(depth) + (if last { "└──"@ } else { "├──"@ }),
    decreases depth,
{
    if depth > 0 {
        lemma_indent((depth - 1) as nat, last);
        lemma_bar_front((depth - 1) as nat);
        assert(indent_text(depth, last) =~= repeat_bar(depth) + (if last { "└──"@ } else { "├──"@ }));
    }
}

proof fn lemma_bar_front(k: nat)
    ensures
        "│  "@ + repeat_bar(k) == repeat_bar(k + 1),
    decreases k,
{
    if k > 0 {
        lemma_bar_front((k - 1) as nat);
        assert("│  "@ + repeat_bar(k) =~= repeat_bar(k + 1));
    } else {
        assert("│  "@ + repeat_bar(0) =~= repeat_bar(1));
    }
}

/// The line of `node`, as `node_line` states.
fn node_line_text(node: &ActionTreeNode, depth: usize, last: bool) -> (r: String)
    ensures
        r@ == node_line(*node, depth as nat, last),
{
    proof {
        reveal_strlit("[Player: ");
        reveal_strlit(", Street: ");
        reveal_strlit(", Amount: ");
        reveal_strlit(", Actions: ");
        reveal_strlit("]");
    }
    let mut s = String::new();
    push_indent(&mut s, depth, last);
    s.append("[Player: ");
    push_hex(&mut s, node.player);
    s.append(", Street: ");
    push_street(&mut s, node.street);
    s.append(", Amount: ");
    push_int(&mut s, node.amount);
    s.append(", Actions: ");
    push_actions(&mut s, &node.actions);
    s.append("]");
    assert(s@ =~= node_line(*node, depth as nat, last));
    s
}

proof fn lemma_children_text_prefix(s: Seq<ActionTreeNode>, depth: nat, total: int, k: int)
    requires
        0 < k <= s.len(),
    ensures
        children_text(s.take(k), depth, total) == children_text(s.take(k - 1), depth, total) + tree_text(
            s[k - 1],
            depth,
            k - 1 == total - 1,
        ),
{
    assert(s.take(k).drop_last() =~= s.take(k - 1));
}

impl ActionTreeNode {
    /// Appends the lines of the subtree at this node, drawn at `depth`, to
    /// `out`, as `tree_text` states.
    pub fn push_tree_lines(&self, depth: usize, last: bool, out: &mut Vec<String>)
        requires
            depth + count_nodes(*self) <= usize::MAX,
        ensures
            final(out)@.map_values(|x: String| x@) == old(out)@.map_values(|x: String| x@) + tree_text(
                *self,
                depth as nat,
                last,
            ),
        decreases *self,
    {
        let line = node_line_text(self, depth, last);
        let ghost start = out@.map_values(|x: String| x@);
        out.push(line);
        proof {
            assert(out@.map_values(|x: String| x@) =~= start + seq![node_line(*self, depth as nat, last)]);
        }
        let n = self.children.len();
        for i in 0..n
            invariant
                n == self.children@.len(),
                depth + count_nodes(*self) <= usize::MAX,
                out@.map_values(|x: String| x@) == start + seq![node_line(*self, depth as nat, last)]
                    + children_text(self.children@.take(i as int), (depth + 1) as nat, n as int),
        {
            proof {
                lemma_count_prefix(self.children@, i + 1);
                lemma_count_prefix(self.children@, n as int);
                assert(self.children@.take(n as int) =~= self.children@);
                lemma_children_text_prefix(self.children@, (depth + 1) as nat, n as int, i + 1);
                assert(count_nodes(self.children@[i as int]) <= count_nodes_seq(self.children@));
            }
            self.children[i].push_tree_lines(depth + 1, i == n - 1, out);
            proof {
                assert(out@.map_values(|x: String| x@) =~= start + seq![node_line(*self, depth as nat, last)]
                    + children_text(self.children@.take(i + 1), (depth + 1) as nat, n as int));
            }
        }
        proof {
            assert(self.children@.take(n as int) =~= self.children@);
        }
    }
}

impl ActionTree {
    /// The lines of the whole tree, drawn from the root as the first of
    /// its siblings.
    pub fn tree_lines(&self) -> (r: Vec<String>)
        requires
            count_nodes(self.root) <= usize::MAX,
        ensures
            r@.map_values(|x: String| x@) == tree_text(self.root, 0, false),
    {
        let mut out: Vec<String> = Vec::new();
        self.root.push_tree_lines(0, false, &mut out);
        assert(Seq::<String>::empty().map_values(|x: String| x@) + tree_text(self.root, 0, false) =~= tree_text(self.root, 0, false));
        out
    }
}

} // verus!
