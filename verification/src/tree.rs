//! The action tree: the possible sequences of actions throughout the game.
//!
//! Each node corresponds to a game state, and each edge to an action taken
//! by a player in that state.

use vstd::prelude::*;
use crate::Street;
use crate::action::{Action, strictly_sorted};
use crate::build_data::{TreeBuildData, next_data, initial_data};
use crate::config::{TreeParams, params_ok};
use crate::node::{
    ActionTreeNode, allowed, child_header_ok, clamp_i32, header_ready, is_facing, lemma_chance_step,
    lemma_decision_step, phase, sane_decision, stack_sum, street_rank, wf_node, chance_data,
    chance_child_player, next_street, count_nodes, complete_node,
};
use crate::player::{
    PLAYER_OOP, PLAYER_CHANCE, PLAYER_CHANCE_FLAG, PLAYER_TERMINAL_FLAG, PLAYER_FOLD_FLAG,
    lemma_player_flags, is_terminal_player, is_chance_player,
};
use crate::sizing::{
    Spot, resolve_bet, sort_unique, spot_of, base_action, asked, sized_by, sized_actions, pot_after_bet,
    proposed_action,
};
use crate::action_util::{action_debug, action_debug_text};

verus! {

/// The action tree, with the lines added to and removed from the generated
/// tree, and the line played so far (`history`).
#[derive(Debug)]
pub struct ActionTree {
    pub config: TreeParams,
    pub added_lines: Vec<Vec<Action>>,
    pub removed_lines: Vec<Vec<Action>>,
    pub root: ActionTreeNode,
    pub history: Vec<Action>,
}

/// The node and state reached from `node` (in state `d`) by playing `line`,
/// where chance nodes are passed (to the node after them) before each
/// action, as play does; `None` when an action of `line` is not available.
pub open spec fn walk(node: ActionTreeNode, d: TreeBuildData, line: Seq<Action>) -> Option<
    (ActionTreeNode, TreeBuildData),
>
    decreases line.len(), node,
{
    if line.len() == 0 {
        Some((node, d))
    } else if is_chance_player(node.player) {
        if node.children@.len() > 0 {
            walk(node.children@[0], chance_data(d), line)
        } else {
            None
        }
    } else if node.actions@.contains(line[0]) && node.actions@.len() == node.children@.len() {
        walk(
            node.children@[node.actions@.index_of(line[0])],
            next_data(d, node.player as int, line[0]),
            line.drop_first(),
        )
    } else {
        None
    }
}

/// The node reached from `node` after passing all chance nodes.
pub open spec fn skip_chance(node: ActionTreeNode) -> ActionTreeNode
    decreases node,
{
    if is_chance_player(node.player) && node.children@.len() > 0 {
        skip_chance(node.children@[0])
    } else {
        node
    }
}

/// Every decision node of the subtree at `node`, reached in state `d`, has
/// the actions that the sizing rules `propose` and `force_threshold` make
/// for it (see `sized_actions`).
pub open spec fn sized_tree<F: Fn(Spot) -> (Vec<i32>, bool), G: Fn(i32) -> u32>(
    propose: F,
    force_threshold: G,
    c: TreeParams,
    node: ActionTreeNode,
    d: TreeBuildData,
) -> bool
    decreases node,
{
    if is_terminal_player(node.player) {
        true
    } else if is_chance_player(node.player) {
        node.children@.len() > 0 ==> sized_tree(propose, force_threshold, c, node.children@[0], chance_data(d))
    } else {
        &&& sized_actions(
            propose,
            force_threshold,
            c,
            node.player,
            node.street,
            node.amount as int,
            d,
            node.actions@,
        )
        &&& forall|i: int|
            0 <= i < node.children@.len() && i < node.actions@.len() ==> sized_tree(
                propose,
                force_threshold,
                c,
                #[trigger] node.children@[i],
                next_data(d, node.player as int, node.actions@[i]),
            )
    }
}

/// At a decision node, `sized_tree` gives the node's actions as
/// `sized_actions` makes them, and the same of each child.
pub proof fn lemma_sized_tree_decision<F: Fn(Spot) -> (Vec<i32>, bool), G: Fn(i32) -> u32>(
    propose: F,
    force_threshold: G,
    c: TreeParams,
    node: ActionTreeNode,
    d: TreeBuildData,
)
    requires
        sized_tree(propose, force_threshold, c, node, d),
        !is_terminal_player(node.player),
        !is_chance_player(node.player),
    ensures
        sized_actions(
            propose,
            force_threshold,
            c,
            node.player,
            node.street,
            node.amount as int,
            d,
            node.actions@,
        ),
        forall|i: int|
            0 <= i < node.children@.len() && i < node.actions@.len() ==> sized_tree(
                propose,
                force_threshold,
                c,
                #[trigger] node.children@[i],
                next_data(d, node.player as int, node.actions@[i]),
            ),
{
}

/// In a strictly sorted sequence each value stands at one index only.
pub proof fn lemma_sorted_unique(s: Seq<Action>, i: int, j: int)
    requires
        strictly_sorted(s),
        0 <= i < s.len(),
        0 <= j < s.len(),
        s[i] == s[j],
    ensures
        i == j,
{
    if i < j {
        crate::action::lemma_action_order(s[i], s[j], s[j]);
    } else if j < i {
        crate::action::lemma_action_order(s[j], s[i], s[i]);
    }
}

/// Walking `h` then `t` is walking `h + t`.
pub proof fn lemma_walk_append(node: ActionTreeNode, d: TreeBuildData, h: Seq<Action>, t: Seq<Action>)
    ensures
        walk(node, d, h + t) == match walk(node, d, h) {
            Some(p) => walk(p.0, p.1, t),
            None => None,
        },
    decreases h.len(), node,
{
    if h.len() == 0 {
        assert(h + t =~= t);
    } else {
        assert((h + t)[0] == h[0]);
        if is_chance_player(node.player) {
            if node.children@.len() > 0 {
                lemma_walk_append(node.children@[0], chance_data(d), h, t);
            }
        } else if node.actions@.contains(h[0]) && node.actions@.len() == node.children@.len() {
            assert((h + t).drop_first() =~= h.drop_first() + t);
            lemma_walk_append(
                node.children@[node.actions@.index_of(h[0])],
                next_data(d, node.player as int, h[0]),
                h.drop_first(),
                t,
            );
        }
    }
}

/// One more action can be walked exactly when it is an action of the node
/// after the chance nodes.
pub proof fn lemma_walk_one(c: TreeParams, node: ActionTreeNode, d: TreeBuildData, a: Action)
    requires
        wf_node(c, node, d),
    ensures
        (walk(node, d, seq![a]) is Some) <==> skip_chance(node).actions@.contains(a),
    decreases node,
{
    if is_chance_player(node.player) && node.children@.len() > 0 {
        lemma_walk_one(c, node.children@[0], chance_data(d), a);
    } else {
        assert(seq![a].drop_first() =~= Seq::<Action>::empty());
        reveal_with_fuel(walk, 2);
    }
}

/// Walking a well-formed tree reaches a well-formed subtree.
pub proof fn lemma_walk_wf(c: TreeParams, node: ActionTreeNode, d: TreeBuildData, line: Seq<Action>)
    requires
        wf_node(c, node, d),
        walk(node, d, line) is Some,
    ensures
        wf_node(c, walk(node, d, line).unwrap().0, walk(node, d, line).unwrap().1),
    decreases line.len(), node,
{
    if line.len() > 0 {
        if is_chance_player(node.player) {
            lemma_walk_wf(c, node.children@[0], chance_data(d), line);
        } else {
            let i = node.actions@.index_of(line[0]);
            lemma_walk_wf(c, node.children@[i], next_data(d, node.player as int, line[0]), line.drop_first());
        }
    }
}

/// The lines (without chance actions) that lead from `node` to nodes that
/// are neither terminal nor have any action, each after `line`, in the
/// order of a depth-first walk.
pub open spec fn invalid_lines(node: ActionTreeNode, line: Seq<Action>) -> Seq<Seq<Action>>
    decreases node, node.children@.len() + 1,
{
    if is_terminal_player(node.player) {
        Seq::empty()
    } else if node.children@.len() == 0 {
        seq![line]
    } else if is_chance_player(node.player) {
        invalid_lines(node.children@[0], line)
    } else {
        invalid_lines_children(node, line, zip_len(node))
    }
}

/// The number of (action, child) pairs of a node.
pub open spec fn zip_len(node: ActionTreeNode) -> int {
    if node.actions@.len() < node.children@.len() {
        node.actions@.len() as int
    } else {
        node.children@.len() as int
    }
}

/// `invalid_lines` of the first `k` children of `node`, in order.
pub open spec fn invalid_lines_children(node: ActionTreeNode, line: Seq<Action>, k: int) -> Seq<
    Seq<Action>,
>
    decreases node, k,
{
    if k <= 0 || k > zip_len(node) {
        Seq::empty()
    } else {
        invalid_lines_children(node, line, k - 1) + invalid_lines(
            node.children@[k - 1],
            line.push(node.actions@[k - 1]),
        )
    }
}

/// A copy of `line`.
pub fn copy_line(line: &[Action]) -> (r: Vec<Action>)
    ensures
        r@ == line@,
{
    let mut out: Vec<Action> = Vec::new();
    for i in 0..line.len()
        invariant
            out@ == line@.take(i as int),
    {
        out.push(line[i]);
        proof {
            assert(line@.take(i + 1) =~= line@.take(i as int).push(line@[i as int]));
        }
    }
    proof {
        assert(line@.take(line@.len() as int) =~= line@);
    }
    out
}

/// What stops `line` from being removed from (or followed through) the
/// subtree at `node`: an empty line, a terminal node, an action that is not
/// there; `None` when the line can be removed.
pub open spec fn remove_error(node: ActionTreeNode, line: Seq<Action>) -> Option<Seq<char>>
    decreases line.len(), node,
{
    if line.len() == 0 {
        Some("Empty line."@)
    } else if is_terminal_player(node.player) {
        Some("Terminal node."@)
    } else if is_chance_player(node.player) {
        if node.children@.len() > 0 {
            remove_error(node.children@[0], line)
        } else {
            None
        }
    } else if !node.actions@.contains(line[0]) {
        Some("Non-Existant action."@)
    } else if line.len() > 1 {
        remove_error(node.children@[node.actions@.index_of(line[0])], line.drop_first())
    } else {
        None
    }
}

/// In a well-formed tree a nonempty line can be removed exactly when it can
/// be walked.
pub proof fn lemma_remove_error_walk(c: TreeParams, node: ActionTreeNode, d: TreeBuildData, line: Seq<Action>)
    requires
        wf_node(c, node, d),
    ensures
        (remove_error(node, line) is None) <==> (line.len() > 0 && walk(node, d, line) is Some),
    decreases line.len(), node,
{
    if line.len() > 0 && !is_terminal_player(node.player) {
        if is_chance_player(node.player) {
            lemma_remove_error_walk(c, node.children@[0], chance_data(d), line);
        } else if node.actions@.contains(line[0]) {
            let i = node.actions@.index_of(line[0]);
            if line.len() > 1 {
                lemma_remove_error_walk(c, node.children@[i], next_data(d, node.player as int, line[0]), line.drop_first());
            } else {
                assert(line.drop_first().len() == 0);
            }
        }
    }
}

/// A prefix of a line that can be walked can be walked.
pub proof fn lemma_walk_prefix(node: ActionTreeNode, d: TreeBuildData, p: Seq<Action>, m: Seq<Action>)
    requires
        p.is_prefix_of(m),
        walk(node, d, m) is Some,
    ensures
        walk(node, d, p) is Some,
{
    lemma_walk_append(node, d, p, m.skip(p.len() as int));
    assert(p + m.skip(p.len() as int) =~= m);
}

/// A nonempty line is a prefix of a line with the same first action exactly
/// when the rests are.
pub proof fn lemma_prefix_first(p: Seq<Action>, m: Seq<Action>)
    requires
        p.len() > 0,
        m.len() > 0,
    ensures
        p.is_prefix_of(m) <==> (p[0] == m[0] && p.drop_first().is_prefix_of(m.drop_first())),
{
    if p.is_prefix_of(m) {
        assert(p[0] == m.subrange(0, p.len() as int)[0]);
        assert(p.drop_first() =~= m.drop_first().subrange(0, p.drop_first().len() as int));
    }
    if p[0] == m[0] && p.drop_first().is_prefix_of(m.drop_first()) {
        assert(p =~= m.subrange(0, p.len() as int)) by {
            assert forall|i: int| 0 <= i < p.len() implies p[i] == m[i] by {
                if i > 0 {
                    assert(p[i] == p.drop_first()[i - 1]);
                    assert(m.drop_first().subrange(0, p.drop_first().len() as int)[i - 1] == m[i]);
                }
            }
        }
    }
}

/// Replacing the child after the `i`-th action of a well-formed decision
/// node by a well-formed subtree with the same header keeps the node
/// well-formed and changes no walk that does not start with that action.
pub proof fn lemma_replace_child(
    c: TreeParams,
    node: ActionTreeNode,
    d: TreeBuildData,
    i: int,
    new: ActionTreeNode,
)
    requires
        wf_node(c, node, d),
        !is_terminal_player(node.player),
        !is_chance_player(node.player),
        0 <= i < node.actions@.len(),
        new.player == node.player,
        new.street == node.street,
        new.amount == node.amount,
        new.actions@ == node.actions@,
        new.children@.len() == node.children@.len(),
        forall|j: int| 0 <= j < node.children@.len() && j != i ==> new.children@[j] == node.children@[j],
        new.children@[i].player == node.children@[i].player,
        new.children@[i].street == node.children@[i].street,
        new.children@[i].amount == node.children@[i].amount,
        wf_node(c, new.children@[i], next_data(d, node.player as int, node.actions@[i])),
    ensures
        wf_node(c, new, d),
        forall|m: Seq<Action>|
            m.len() > 0 && m[0] != node.actions@[i] ==> #[trigger] walk(new, d, m) == walk(node, d, m),
{
    assert forall|j: int| 0 <= j < new.actions@.len() implies child_header_ok(
        new,
        d,
        new.actions@[j],
        #[trigger] new.children@[j],
    ) by {
        assert(child_header_ok(node, d, node.actions@[j], node.children@[j]));
    }
    assert forall|j: int| 0 <= j < new.actions@.len() implies wf_node(
        c,
        #[trigger] new.children@[j],
        next_data(d, new.player as int, new.actions@[j]),
    ) by {
        if j != i {
            assert(wf_node(c, node.children@[j], next_data(d, node.player as int, node.actions@[j])));
        }
    }
    assert forall|m: Seq<Action>| m.len() > 0 && m[0] != node.actions@[i] implies #[trigger] walk(
        new,
        d,
        m,
    ) == walk(node, d, m) by {
        if node.actions@.contains(m[0]) {
            let k = node.actions@.index_of(m[0]);
            assert(k != i);
        }
    }
}

/// Removing the `i`-th action (and its child) of a well-formed decision
/// node keeps it well-formed; walks that start with another action are
/// unchanged and none starts with the removed one.
pub proof fn lemma_remove_child(
    c: TreeParams,
    node: ActionTreeNode,
    d: TreeBuildData,
    i: int,
    new: ActionTreeNode,
)
    requires
        wf_node(c, node, d),
        !is_terminal_player(node.player),
        !is_chance_player(node.player),
        0 <= i < node.actions@.len(),
        new.player == node.player,
        new.street == node.street,
        new.amount == node.amount,
        new.actions@ == node.actions@.remove(i),
        new.children@ == node.children@.remove(i),
    ensures
        wf_node(c, new, d),
        forall|m: Seq<Action>|
            m.len() > 0 && m[0] != node.actions@[i] ==> #[trigger] walk(new, d, m) == walk(node, d, m),
        forall|m: Seq<Action>|
            m.len() > 0 && m[0] == node.actions@[i] ==> #[trigger] walk(new, d, m) is None,
{
    let p = node.player as int;
    assert(strictly_sorted(new.actions@)) by {
        assert forall|x: int, y: int| 0 <= x < y < new.actions@.len() implies crate::action::action_lt(
            #[trigger] new.actions@[x],
            #[trigger] new.actions@[y],
        ) by {
            let ox = if x < i { x } else { x + 1 };
            let oy = if y < i { y } else { y + 1 };
            assert(new.actions@[x] == node.actions@[ox]);
            assert(new.actions@[y] == node.actions@[oy]);
        }
    }
    assert forall|j: int| 0 <= j < new.actions@.len() implies allowed(d, p, #[trigger] new.actions@[j])
        && child_header_ok(new, d, new.actions@[j], new.children@[j]) && wf_node(
        c,
        new.children@[j],
        next_data(d, p, new.actions@[j]),
    ) by {
        let oj = if j < i { j } else { j + 1 };
        assert(new.actions@[j] == node.actions@[oj]);
        assert(new.children@[j] == node.children@[oj]);
        assert(allowed(d, p, node.actions@[oj]));
        assert(child_header_ok(node, d, node.actions@[oj], node.children@[oj]));
        assert(wf_node(c, node.children@[oj], next_data(d, p, node.actions@[oj])));
    }
    assert(wf_node(c, new, d));
    assert forall|m: Seq<Action>| m.len() > 0 && m[0] != node.actions@[i] implies #[trigger] walk(
        new,
        d,
        m,
    ) == walk(node, d, m) by {
        if node.actions@.contains(m[0]) {
            let k = node.actions@.index_of(m[0]);
            assert(k != i);
            let nk = if k < i { k } else { k - 1 };
            assert(new.actions@[nk] == m[0]);
            assert(new.actions@.contains(m[0]));
            let nj = new.actions@.index_of(m[0]);
            lemma_sorted_unique(new.actions@, nk, nj);
            assert(new.children@[nk] == node.children@[k]);
        } else {
            if new.actions@.contains(m[0]) {
                let nj = new.actions@.index_of(m[0]);
                let oj = if nj < i { nj } else { nj + 1 };
                assert(node.actions@[oj] == m[0]);
            }
        }
    }
    assert forall|m: Seq<Action>| m.len() > 0 && m[0] == node.actions@[i] implies #[trigger] walk(
        new,
        d,
        m,
    ) is None by {
        if new.actions@.contains(m[0]) {
            let nj = new.actions@.index_of(m[0]);
            let oj = if nj < i { nj } else { nj + 1 };
            assert(node.actions@[oj] == m[0]);
            lemma_sorted_unique(node.actions@, oj, i);
        }
    }
}

/// Every action of `line` is allowed where it is played, starting from a
/// node with the header (`player`, `street`, `amount`) in state `d` and
/// passing chance nodes as play does: the lines that a well-formed tree can
/// hold.
pub open spec fn line_allowed(
    player: int,
    street: Street,
    amount: int,
    d: TreeBuildData,
    line: Seq<Action>,
) -> bool
    decreases line.len(), street_rank(street),
{
    if line.len() == 0 {
        true
    } else if is_terminal_player(player as u8) {
        false
    } else if is_chance_player(player as u8) {
        street != Street::River && line_allowed(
            chance_child_player(street, d),
            next_street(street),
            amount,
            chance_data(d),
            line,
        )
    } else {
        &&& 0 <= player <= 1
        &&& allowed(d, player, line[0])
        &&& line_allowed(
            crate::node::child_player(street, player, line[0]),
            street,
            crate::node::child_amount(amount, d, player, line[0]),
            next_data(d, player, line[0]),
            line.drop_first(),
        )
    }
}

/// Every line of a well-formed tree is allowed.
pub proof fn lemma_walk_allowed(c: TreeParams, node: ActionTreeNode, d: TreeBuildData, line: Seq<Action>)
    requires
        wf_node(c, node, d),
        walk(node, d, line) is Some,
    ensures
        line_allowed(node.player as int, node.street, node.amount as int, d, line),
    decreases line.len(), node,
{
    if line.len() > 0 {
        if is_chance_player(node.player) {
            lemma_walk_allowed(c, node.children@[0], chance_data(d), line);
        } else {
            let i = node.actions@.index_of(line[0]);
            assert(child_header_ok(node, d, node.actions@[i], node.children@[i]));
            lemma_walk_allowed(
                c,
                node.children@[i],
                next_data(d, node.player as int, line[0]),
                line.drop_first(),
            );
        }
    }
}

/// The views of lines.
pub open spec fn line_views(v: Seq<Vec<Action>>) -> Seq<Seq<Action>> {
    v.map_values(|l: Vec<Action>| l@)
}

/// The lines of `s` that do not start with `p`, in order.
pub open spec fn unprefixed(s: Seq<Seq<Action>>, p: Seq<Action>) -> Seq<Seq<Action>>
    decreases s.len(),
{
    if s.len() == 0 {
        s
    } else if p.is_prefix_of(s.last()) {
        unprefixed(s.drop_last(), p)
    } else {
        unprefixed(s.drop_last(), p).push(s.last())
    }
}

/// What `unprefixed` keeps comes from `s` and does not start with `p`.
pub proof fn lemma_unprefixed(s: Seq<Seq<Action>>, p: Seq<Action>)
    ensures
        forall|x: Seq<Action>|
            #[trigger] unprefixed(s, p).contains(x) ==> s.contains(x) && !p.is_prefix_of(x),
    decreases s.len(),
{
    if s.len() > 0 {
        lemma_unprefixed(s.drop_last(), p);
        assert forall|x: Seq<Action>| #[trigger] unprefixed(s, p).contains(x) implies s.contains(x)
            && !p.is_prefix_of(x) by {
            let r = unprefixed(s.drop_last(), p);
            if !p.is_prefix_of(s.last()) && x == s.last() {
                assert(s[s.len() - 1] == x);
            } else {
                assert(r.contains(x)) by {
                    if !p.is_prefix_of(s.last()) {
                        let k = choose|k: int| 0 <= k < r.push(s.last()).len() && r.push(s.last())[k] == x;
                        assert(r[k] == x);
                    }
                }
                let k = choose|k: int| 0 <= k < s.drop_last().len() && s.drop_last()[k] == x;
                assert(s[k] == x);
            }
        }
    }
}

/// Whether two lines are equal.
pub fn same_line(a: &[Action], b: &[Action]) -> (r: bool)
    ensures
        r == (a@ == b@),
{
    if a.len() != b.len() {
        return false;
    }
    for i in 0..a.len()
        invariant
            a@.len() == b@.len(),
            forall|j: int| 0 <= j < i ==> a@[j] == b@[j],
    {
        if a[i] != b[i] {
            return false;
        }
    }
    proof {
        assert(a@ =~= b@);
    }
    true
}

/// Whether `line` starts with `prefix`.
pub fn starts_with(line: &[Action], prefix: &[Action]) -> (r: bool)
    ensures
        r == prefix@.is_prefix_of(line@),
{
    if prefix.len() > line.len() {
        return false;
    }
    for i in 0..prefix.len()
        invariant
            prefix@.len() <= line@.len(),
            forall|j: int| 0 <= j < i ==> prefix@[j] == line@[j],
    {
        if prefix[i] != line[i] {
            proof {
                assert(line@.subrange(0, prefix@.len() as int)[i as int] == line@[i as int]);
            }
            return false;
        }
    }
    proof {
        assert(prefix@ =~= line@.subrange(0, prefix@.len() as int));
    }
    true
}

/// The index of the first of `lines` equal to `line`.
pub fn position_of_line(lines: &Vec<Vec<Action>>, line: &[Action]) -> (r: Option<usize>)
    ensures
        match r {
            Some(i) => i < lines@.len() && lines@[i as int]@ == line@ && forall|j: int|
                0 <= j < i ==> (#[trigger] lines@[j])@ != line@,
            None => forall|j: int| 0 <= j < lines@.len() ==> (#[trigger] lines@[j])@ != line@,
        },
{
    for i in 0..lines.len()
        invariant
            forall|j: int| 0 <= j < i ==> (#[trigger] lines@[j])@ != line@,
    {
        if same_line(lines[i].as_slice(), line) {
            return Some(i);
        }
    }
    None
}

/// Keeps the lines that do not start with `prefix`.
pub fn retain_unprefixed(lines: &mut Vec<Vec<Action>>, prefix: &[Action])
    ensures
        line_views(final(lines)@) == unprefixed(line_views(old(lines)@), prefix@),
{
    let mut kept: Vec<Vec<Action>> = Vec::new();
    let n = lines.len();
    for i in 0..n
        invariant
            n == lines@.len(),
            lines@ == old(lines)@,
            line_views(kept@) == unprefixed(line_views(lines@).take(i as int), prefix@),
    {
        let keep = !starts_with(lines[i].as_slice(), prefix);
        proof {
            let v = line_views(lines@);
            assert(v.take(i + 1).drop_last() =~= v.take(i as int));
            assert(v.take(i + 1).last() == lines@[i as int]@);
        }
        if keep {
            let ghost before = kept@;
            kept.push(copy_line(lines[i].as_slice()));
            proof {
                assert(line_views(kept@) =~= line_views(before).push(lines@[i as int]@));
            }
        }
    }
    proof {
        assert(line_views(lines@).take(n as int) =~= line_views(lines@));
    }
    *lines = kept;
}

/// The action that the last action of a line becomes when the line is
/// added: a bet or raise of everything becomes an all-in.
pub open spec fn added_action(d: TreeBuildData, player: int, a: Action) -> Action {
    if (a is Bet || a is Raise) && crate::action::bet_amount(a) == crate::node::max_amount_of(d, player) {
        Action::AllIn(crate::action::bet_amount(a) as i32)
    } else {
        a
    }
}

/// A bet that may be added by hand: a bet or raise from the minimum up to
/// (not including) the maximum, a bet only when no bet is faced and a raise
/// only over a bet or raise; an all-in for the maximum.
pub open spec fn valid_bet(d: TreeBuildData, player: int, a: Action) -> bool {
    let min = crate::node::min_amount_of(d, player);
    let max = crate::node::max_amount_of(d, player);
    match a {
        Action::Bet(n) => min <= n < max && !is_facing(d),
        Action::Raise(n) => min <= n < max && (d.last_action is Bet || d.last_action is Raise),
        Action::AllIn(n) => n == max,
        _ => false,
    }
}

/// What stops `line` from being added to the subtree at `node` (reached in
/// state `d`): an empty line, a terminal node on the way, an action on the
/// way that is not there, a last action that is already there, a bet after
/// an all-in, or a bet that is not valid (unless the line was removed
/// before); `None` when it can be added.
pub open spec fn add_error(node: ActionTreeNode, d: TreeBuildData, line: Seq<Action>, was_removed: bool) -> Option<Seq<char>>
    decreases line.len(), node,
{
    if line.len() == 0 {
        Some("Empty line."@)
    } else if is_terminal_player(node.player) {
        Some("Terminal node."@)
    } else if is_chance_player(node.player) {
        if node.children@.len() > 0 {
            add_error(node.children@[0], chance_data(d), line, was_removed)
        } else {
            None
        }
    } else {
        let p = node.player as int;
        let a = line[0];
        if line.len() > 1 {
            if !node.actions@.contains(a) {
                Some("Non-Existant action."@)
            } else {
                add_error(
                    node.children@[node.actions@.index_of(a)],
                    next_data(d, p, a),
                    line.drop_first(),
                    was_removed,
                )
            }
        } else if node.actions@.contains(a) {
            Some("Action already exists."@)
        } else if d.all_in && crate::action::is_bet_action(a) {
            Some("Bet after all-in reached."@)
        } else if !was_removed && !valid_bet(d, p, added_action(d, p, a)) {
            Some("Invalid bet."@)
        } else {
            None
        }
    }
}

/// The action that the last action of `line` becomes when the line is
/// added to the subtree at `node`.
pub open spec fn added_last(node: ActionTreeNode, d: TreeBuildData, line: Seq<Action>) -> Action
    decreases line.len(), node,
{
    if line.len() == 0 {
        Action::NoAction
    } else if is_chance_player(node.player) && node.children@.len() > 0 {
        added_last(node.children@[0], chance_data(d), line)
    } else if line.len() > 1 {
        added_last(
            node.children@[node.actions@.index_of(line[0])],
            next_data(d, node.player as int, line[0]),
            line.drop_first(),
        )
    } else {
        added_action(d, node.player as int, line[0])
    }
}

/// `line` as it is added to the subtree at `node`: its last action as
/// `added_last` gives it.
pub open spec fn added_line(node: ActionTreeNode, d: TreeBuildData, line: Seq<Action>) -> Seq<Action> {
    line.drop_last().push(added_last(node, d, line))
}

/// Whether the action that the last action of `line` becomes (see
/// `added_last`) is already an action of the node where it would be added:
/// a bet or raise of everything where the all-in is already there (adding
/// it then inserts the all-in a second time).
pub open spec fn added_present(node: ActionTreeNode, d: TreeBuildData, line: Seq<Action>) -> bool
    decreases line.len(), node,
{
    if line.len() == 0 {
        false
    } else if is_chance_player(node.player) && node.children@.len() > 0 {
        added_present(node.children@[0], chance_data(d), line)
    } else if line.len() > 1 {
        added_present(
            node.children@[node.actions@.index_of(line[0])],
            next_data(d, node.player as int, line[0]),
            line.drop_first(),
        )
    } else {
        node.actions@.contains(added_action(d, node.player as int, line[0]))
    }
}

/// The node `new` holds the actions of `node` (reached in state `d`) with
/// the added action of a line that ends in `a` inserted once more at
/// position `i`, where `a` itself would stand, with a subtree of its own that
/// the sizing rules build.
pub open spec fn duplicate_at<F: Fn(Spot) -> (Vec<i32>, bool), G: Fn(i32) -> u32>(
    propose: F,
    force_threshold: G,
    c: TreeParams,
    node: ActionTreeNode,
    new: ActionTreeNode,
    d: TreeBuildData,
    a: Action,
    i: int,
) -> bool {
    let p = node.player as int;
    let b = added_action(d, p, a);
    let child = new.children@[i];
    &&& 0 <= i <= node.actions@.len()
    &&& forall|j: int| 0 <= j < i ==> crate::action::action_lt(#[trigger] node.actions@[j], a)
    &&& forall|j: int|
        i <= j < node.actions@.len() ==> crate::action::action_lt(a, #[trigger] node.actions@[j])
    &&& new.actions@ == node.actions@.insert(i, b)
    &&& new.children@ == node.children@.insert(i, child)
    &&& child_header_ok(node, d, b, child)
    &&& wf_node(c, child, next_data(d, p, b))
    &&& complete_node(child)
    &&& sized_tree(propose, force_threshold, c, child, next_data(d, p, b))
}

/// `new` is `node`, reached in state `d`, with the action that the last
/// action of `line` becomes (see `added_last`) inserted once more, where the
/// last action itself would stand, among the actions of the node that the
/// rest of `line` leads to, with a subtree of its own that the sizing rules
/// build: that node then holds the action twice, side by side.
pub open spec fn duplicated_last<F: Fn(Spot) -> (Vec<i32>, bool), G: Fn(i32) -> u32>(
    propose: F,
    force_threshold: G,
    c: TreeParams,
    node: ActionTreeNode,
    new: ActionTreeNode,
    d: TreeBuildData,
    line: Seq<Action>,
) -> bool
    decreases line.len(), node,
{
    &&& new.player == node.player
    &&& new.street == node.street
    &&& new.amount == node.amount
    &&& if line.len() == 0 {
        false
    } else if is_chance_player(node.player) && node.children@.len() > 0 {
        &&& new.actions@ == node.actions@
        &&& new.children@.len() == node.children@.len()
        &&& forall|j: int| 1 <= j < node.children@.len() ==> #[trigger] new.children@[j] == node.children@[j]
        &&& duplicated_last(propose, force_threshold, c, node.children@[0], new.children@[0], chance_data(d), line)
    } else if line.len() > 1 {
        let k = node.actions@.index_of(line[0]);
        &&& new.actions@ == node.actions@
        &&& new.children@.len() == node.children@.len()
        &&& forall|j: int|
            0 <= j < node.children@.len() && j != k ==> #[trigger] new.children@[j] == node.children@[j]
        &&& duplicated_last(
            propose,
            force_threshold,
            c,
            node.children@[k],
            new.children@[k],
            next_data(d, node.player as int, line[0]),
            line.drop_first(),
        )
    } else {
        exists|i: int| #[trigger] duplicate_at(propose, force_threshold, c, node, new, d, line[0], i)
    }
}

/// Inserting the added action once more keeps a complete tree complete,
/// and the line as it is added can be walked afterwards.
pub proof fn lemma_duplicated_last<F: Fn(Spot) -> (Vec<i32>, bool), G: Fn(i32) -> u32>(
    propose: F,
    force_threshold: G,
    c: TreeParams,
    node: ActionTreeNode,
    new: ActionTreeNode,
    d: TreeBuildData,
    line: Seq<Action>,
    was_removed: bool,
)
    requires
        wf_node(c, node, d),
        add_error(node, d, line, was_removed) is None,
        duplicated_last(propose, force_threshold, c, node, new, d, line),
    ensures
        complete_node(node) ==> complete_node(new),
        walk(new, d, added_line(node, d, line)) is Some,
    decreases line.len(), node,
{
    let lp = added_line(node, d, line);
    assert(lp.len() == line.len());
    if is_chance_player(node.player) && node.children@.len() > 0 {
        lemma_duplicated_last(
            propose,
            force_threshold,
            c,
            node.children@[0],
            new.children@[0],
            chance_data(d),
            line,
            was_removed,
        );
        assert(lp == added_line(node.children@[0], chance_data(d), line));
        assert(lp.len() > 0);
        if complete_node(node) {
            assert forall|k: int| 0 <= k < new.children@.len() implies complete_node(
                #[trigger] new.children@[k],
            ) by {
                if k != 0 {
                    assert(new.children@[k] == node.children@[k]);
                }
            }
        }
    } else if line.len() > 1 {
        let k = node.actions@.index_of(line[0]);
        let nd = next_data(d, node.player as int, line[0]);
        lemma_duplicated_last(
            propose,
            force_threshold,
            c,
            node.children@[k],
            new.children@[k],
            nd,
            line.drop_first(),
            was_removed,
        );
        assert(new.actions@.contains(line[0]));
        assert(lp.drop_first() =~= added_line(node.children@[k], nd, line.drop_first()));
        assert(lp[0] == line[0]);
        if complete_node(node) {
            assert forall|j: int| 0 <= j < new.children@.len() implies complete_node(
                #[trigger] new.children@[j],
            ) by {
                if j != k {
                    assert(new.children@[j] == node.children@[j]);
                }
            }
        }
    } else {
        let i = choose|i: int| #[trigger] duplicate_at(propose, force_threshold, c, node, new, d, line[0], i);
        let b = added_action(d, node.player as int, line[0]);
        assert(lp =~= seq![b]);
        assert(lp.drop_first() =~= Seq::<Action>::empty());
        assert(new.actions@[i] == b);
        assert(new.actions@.contains(b));
        assert(new.actions@.len() == new.children@.len());
        reveal_with_fuel(walk, 2);
        if complete_node(node) {
            assert forall|j: int| 0 <= j < new.children@.len() implies complete_node(
                #[trigger] new.children@[j],
            ) by {
                if j < i {
                    assert(new.children@[j] == node.children@[j]);
                } else if j > i {
                    assert(new.children@[j] == node.children@[j - 1]);
                }
            }
        }
    }
}

/// A line that can be added and whose added action is already there can be
/// walked as it is added.
pub proof fn lemma_added_present_walk(c: TreeParams, node: ActionTreeNode, d: TreeBuildData, line: Seq<Action>, was_removed: bool)
    requires
        wf_node(c, node, d),
        add_error(node, d, line, was_removed) is None,
        added_present(node, d, line),
    ensures
        walk(node, d, added_line(node, d, line)) is Some,
        added_last(node, d, line) != line.last(),
    decreases line.len(), node,
{
    let lp = added_line(node, d, line);
    assert(lp.len() == line.len());
    if is_chance_player(node.player) {
        lemma_added_present_walk(c, node.children@[0], chance_data(d), line, was_removed);
        assert(lp == added_line(node.children@[0], chance_data(d), line));
    } else if line.len() > 1 {
        let i = node.actions@.index_of(line[0]);
        let nd = next_data(d, node.player as int, line[0]);
        lemma_added_present_walk(c, node.children@[i], nd, line.drop_first(), was_removed);
        assert(lp.drop_first() =~= added_line(node.children@[i], nd, line.drop_first()));
        assert(lp[0] == line[0]);
        assert(line.drop_first().last() == line.last());
    } else {
        assert(lp =~= seq![added_action(d, node.player as int, line[0])]);
        assert(lp.drop_first() =~= Seq::<Action>::empty());
        reveal_with_fuel(walk, 2);
    }
}

/// The last action of an added line is the last action of the line, or an
/// all-in for the amount of its last bet or raise.
pub proof fn lemma_added_last_shape(node: ActionTreeNode, d: TreeBuildData, line: Seq<Action>)
    requires
        line.len() > 0,
    ensures
        added_last(node, d, line) == line.last() || ((line.last() is Bet || line.last() is Raise)
            && added_last(node, d, line) == Action::AllIn(crate::action::bet_amount(line.last()) as i32)),
    decreases line.len(), node,
{
    if is_chance_player(node.player) && node.children@.len() > 0 {
        lemma_added_last_shape(node.children@[0], chance_data(d), line);
    } else if line.len() > 1 {
        lemma_added_last_shape(
            node.children@[node.actions@.index_of(line[0])],
            next_data(d, node.player as int, line[0]),
            line.drop_first(),
        );
    }
}

/// Inserting an action that is not there (at its place in the order) with a
/// well-formed child keeps a decision node well-formed; walks that start
/// with another action are unchanged, and those that start with the new one
/// go through the new child.
pub proof fn lemma_insert_child(
    c: TreeParams,
    node: ActionTreeNode,
    d: TreeBuildData,
    i: int,
    a: Action,
    child: ActionTreeNode,
    new: ActionTreeNode,
)
    requires
        wf_node(c, node, d),
        !is_terminal_player(node.player),
        !is_chance_player(node.player),
        0 <= i <= node.actions@.len(),
        !node.actions@.contains(a),
        forall|j: int| 0 <= j < i ==> crate::action::action_lt(#[trigger] node.actions@[j], a),
        forall|j: int| i <= j < node.actions@.len() ==> crate::action::action_lt(a, #[trigger] node.actions@[j]),
        allowed(d, node.player as int, a),
        new.player == node.player,
        new.street == node.street,
        new.amount == node.amount,
        new.actions@ == node.actions@.insert(i, a),
        new.children@ == node.children@.insert(i, child),
        child_header_ok(node, d, a, child),
        wf_node(c, child, next_data(d, node.player as int, a)),
    ensures
        wf_node(c, new, d),
        forall|m: Seq<Action>|
            m.len() > 0 && m[0] != a ==> #[trigger] walk(new, d, m) == walk(node, d, m),
        forall|m: Seq<Action>|
            m.len() > 0 && m[0] == a ==> #[trigger] walk(new, d, m) == walk(
                child,
                next_data(d, node.player as int, a),
                m.drop_first(),
            ),
{
    let p = node.player as int;
    assert(strictly_sorted(new.actions@)) by {
        assert forall|x: int, y: int| 0 <= x < y < new.actions@.len() implies crate::action::action_lt(
            #[trigger] new.actions@[x],
            #[trigger] new.actions@[y],
        ) by {
            if x < i && y < i {
            } else if x < i && y == i {
            } else if x < i {
                crate::action::lemma_action_order(new.actions@[x], a, new.actions@[y]);
            } else if x == i {
            } else {
            }
        }
    }
    assert forall|j: int| 0 <= j < new.actions@.len() implies allowed(d, p, #[trigger] new.actions@[j])
        && child_header_ok(new, d, new.actions@[j], new.children@[j]) && wf_node(
        c,
        new.children@[j],
        next_data(d, p, new.actions@[j]),
    ) by {
        if j != i {
            let oj = if j < i { j } else { j - 1 };
            assert(new.actions@[j] == node.actions@[oj]);
            assert(new.children@[j] == node.children@[oj]);
            assert(allowed(d, p, node.actions@[oj]));
            assert(child_header_ok(node, d, node.actions@[oj], node.children@[oj]));
            assert(wf_node(c, node.children@[oj], next_data(d, p, node.actions@[oj])));
        }
    }
    assert(wf_node(c, new, d));
    assert forall|m: Seq<Action>| m.len() > 0 && m[0] != a implies #[trigger] walk(new, d, m) == walk(
        node,
        d,
        m,
    ) by {
        if node.actions@.contains(m[0]) {
            let k = node.actions@.index_of(m[0]);
            let nk = if k < i { k } else { k + 1 };
            assert(new.actions@[nk] == m[0]);
            assert(new.actions@.contains(m[0]));
            lemma_sorted_unique(new.actions@, nk, new.actions@.index_of(m[0]));
            assert(new.children@[nk] == node.children@[k]);
        } else if new.actions@.contains(m[0]) {
            let nj = new.actions@.index_of(m[0]);
            assert(nj != i);
            let oj = if nj < i { nj } else { nj - 1 };
            assert(node.actions@[oj] == m[0]);
        }
    }
    assert forall|m: Seq<Action>| m.len() > 0 && m[0] == a implies #[trigger] walk(new, d, m) == walk(
        child,
        next_data(d, p, a),
        m.drop_first(),
    ) by {
        assert(new.actions@[i] == a);
        assert(new.actions@.contains(a));
        lemma_sorted_unique(new.actions@, i, new.actions@.index_of(a));
    }
}

/// The message of an action that is not available.
pub open spec fn invalid_action_text(a: Action) -> Seq<char> {
    "Invalid action: "@ + action_debug_text(a) + "."@
}

impl ActionTree {
    /// The invariant of an action tree: sound parameters; the root is OOP's
    /// decision at the initial street with nothing put in; the tree is
    /// well-formed; the history is a line of the tree; every added line is a
    /// line of the tree; every removed line was allowed, is nonempty and
    /// leaves the tree only at its last action.
    pub open spec fn wf(self) -> bool {
        &&& params_ok(self.config)
        &&& self.root.player == 0
        &&& self.root.street == self.config.initial_street
        &&& self.root.amount == 0
        &&& wf_node(self.config, self.root, self.root_data())
        &&& walk(self.root, self.root_data(), self.history@) is Some
        &&& forall|i: int|
            0 <= i < self.removed_lines@.len() ==> line_allowed(
                0,
                self.config.initial_street,
                0,
                self.root_data(),
                #[trigger] self.removed_lines@[i]@,
            )
        &&& forall|i: int|
            0 <= i < self.added_lines@.len() ==> walk(
                self.root,
                self.root_data(),
                (#[trigger] self.added_lines@[i])@,
            ) is Some
        &&& forall|i: int|
            0 <= i < self.removed_lines@.len() ==> (#[trigger] self.removed_lines@[i])@.len() > 0
                && walk(self.root, self.root_data(), self.removed_lines@[i]@.drop_last()) is Some
    }

    /// The state at the root.
    pub open spec fn root_data(self) -> TreeBuildData {
        initial_data(self.config.effective_stack)
    }

    /// The node that the history leads to.
    pub open spec fn current(self) -> ActionTreeNode {
        walk(self.root, self.root_data(), self.history@).unwrap().0
    }

    /// The state at the node that the history leads to.
    pub open spec fn current_data(self) -> TreeBuildData {
        walk(self.root, self.root_data(), self.history@).unwrap().1
    }

    /// Pushes to the fresh decision node `node` every action available in
    /// state `data`, each with the node it leads to: check, or fold and
    /// call, and the bets or raises that `propose` proposes, limited to what
    /// can be bet and turned into all-ins by the threshold that
    /// `force_threshold` gives for the pot after each; sorted, each once
    /// (see `sized_actions`).
    fn push_actions<F: Fn(Spot) -> (Vec<i32>, bool), G: Fn(i32) -> u32>(
        config: &TreeParams,
        node: &mut ActionTreeNode,
        data: &TreeBuildData,
        propose: &F,
        force_threshold: &G,
    )
        requires
            params_ok(*config),
            old(node).player <= 1,
            old(node).actions@.len() == 0,
            old(node).children@.len() == 0,
            sane_decision(
                config.effective_stack as int,
                old(node).amount as int,
                *data,
                old(node).player as int,
            ),
            forall|s: Spot| call_requires(*propose, (s,)),
            forall|x: i32| call_requires(*force_threshold, (x,)),
        ensures
            final(node).player == old(node).player,
            final(node).street == old(node).street,
            final(node).amount == old(node).amount,
            final(node).actions@.len() == final(node).children@.len(),
            sized_actions(
                *propose,
                *force_threshold,
                *config,
                old(node).player,
                old(node).street,
                old(node).amount as int,
                *data,
                final(node).actions@,
            ),
            forall|i: int|
                0 <= i < final(node).actions@.len() ==> allowed(
                    *data,
                    final(node).player as int,
                    #[trigger] final(node).actions@[i],
                ),
            forall|i: int|
                0 <= i < final(node).actions@.len() ==> child_header_ok(
                    *final(node),
                    *data,
                    final(node).actions@[i],
                    #[trigger] final(node).children@[i],
                ),
            forall|i: int|
                0 <= i < final(node).actions@.len() ==> (#[trigger] final(node).children@[i]).actions@.len()
                    == 0 && final(node).children@[i].children@.len() == 0,
            !is_facing(*data) ==> final(node).actions@.contains(Action::Check),
            is_facing(*data) ==> final(node).actions@.contains(Action::Fold)
                && final(node).actions@.contains(Action::Call),
    {
        let ghost p = node.player as int;
        let player = node.player;
        let opp = player ^ 1;
        proof {
            lemma_player_flags(player);
        }
        let player_stack = data.stacks[player as usize];
        let opp_stack = data.stacks[opp as usize];

        let prev_amount = data.last_amount;
        let to_call = player_stack - opp_stack;

        let pot = config.starting_pot + 2 * (node.amount + to_call);
        let max_amount = opp_stack + prev_amount;
        let min_amount = clamp_i32(prev_amount + to_call, 1, max_amount);
        let facing = !matches!(
            data.last_action,
            Action::NoAction | Action::Check | Action::Chance(_)
        );
        let ghost spot_g = spot_of(config.starting_pot as int, node.player, node.street, node.amount as int, *data);

        let mut actions: Vec<Action> = Vec::new();
        let ask = if !facing {
            actions.push(Action::Check);
            true
        } else {
            actions.push(Action::Fold);
            actions.push(Action::Call);
            // No raise over an all-in.
            !data.all_in
        };
        proof {
            assert forall|a: Action| actions@.contains(a) <==> base_action(*data, a) by {
                if base_action(*data, a) {
                    if facing && a == Action::Call {
                        assert(actions@[1] == a);
                    } else {
                        assert(actions@[0] == a);
                    }
                }
            }
        }

        if ask {
            let spot = Spot {
                street: node.street,
                player,
                pot,
                prev_amount,
                opp_stack,
                max_amount,
                num_bets: data.num_bets,
                facing_bet: facing,
            };
            let answer = propose(spot);
            let ghost mut thresholds: Seq<u32> = Seq::empty();
            let n = answer.0.len();
            for k in 0..n
                invariant
                    n == answer.0@.len(),
                    call_ensures(*propose, (spot,), answer),
                    thresholds.len() == k,
                    forall|j: int|
                        0 <= j < k ==> call_ensures(
                            *force_threshold,
                            (pot_after_bet(spot, *data, p, answer.0@[j] as int) as i32,),
                            #[trigger] thresholds[j],
                        ),
                    forall|a: Action|
                        #[trigger] actions@.contains(a) <==> (base_action(*data, a) || (exists|j: int|
                            0 <= j < k && a == proposed_action(
                                *data,
                                p,
                                answer.0@[j] as int,
                                #[trigger] thresholds[j] as int,
                            ))),
                    forall|x: i32| call_requires(*force_threshold, (x,)),
                    forall|i: int|
                        0 <= i < actions@.len() ==> allowed(*data, p, #[trigger] actions@[i]),
                    ask,
                    !(facing && data.all_in),
                    facing == is_facing(*data),
                    min_amount as int == crate::node::min_amount_of(*data, p),
                    max_amount as int == crate::node::max_amount_of(*data, p),
                    min_amount <= max_amount,
                    pot as int == config.starting_pot + 2 * (node.amount + to_call),
                    spot.pot == pot,
                    spot.prev_amount == prev_amount,
                    sane_decision(config.effective_stack as int, node.amount as int, *data, p),
                    params_ok(*config),
                    prev_amount == data.last_amount,
                    to_call as int == crate::node::to_call_of(*data, p),
            {
                let clamped = clamp_i32(answer.0[k], min_amount, max_amount);
                let new_pot = pot + 2 * (clamped - prev_amount);
                let threshold = force_threshold(new_pot);
                let action = resolve_bet(facing, clamped, max_amount, threshold);
                let ghost before = actions@;
                let ghost old_thresholds = thresholds;
                proof {
                    assert(allowed(*data, p, action));
                    assert(new_pot as int == pot_after_bet(spot, *data, p, answer.0@[k as int] as int));
                    assert(action == proposed_action(*data, p, answer.0@[k as int] as int, threshold as int));
                    thresholds = thresholds.push(threshold);
                }
                actions.push(action);
                proof {
                    assert forall|a: Action| #[trigger] actions@.contains(a) <==> (base_action(*data, a) || (exists|j: int|
                        0 <= j < k + 1 && a == proposed_action(
                            *data,
                            p,
                            answer.0@[j] as int,
                            #[trigger] thresholds[j] as int,
                        ))) by {
                        assert(thresholds[k as int] == threshold);
                        if actions@.contains(a) {
                            let i = choose|i: int| 0 <= i < actions@.len() && actions@[i] == a;
                            if i < before.len() {
                                assert(before[i] == a);
                                assert(before.contains(a));
                                if !base_action(*data, a) {
                                    let j = choose|j: int| 0 <= j < k && a == proposed_action(
                                        *data,
                                        p,
                                        answer.0@[j] as int,
                                        old_thresholds[j] as int,
                                    );
                                    assert(thresholds[j] == old_thresholds[j]);
                                }
                            }
                        }
                        if base_action(*data, a) {
                            assert(before.contains(a));
                            let i = choose|i: int| 0 <= i < before.len() && before[i] == a;
                            assert(actions@[i] == a);
                        } else if exists|j: int| 0 <= j < k + 1 && a == proposed_action(
                            *data,
                            p,
                            answer.0@[j] as int,
                            #[trigger] thresholds[j] as int,
                        ) {
                            let j = choose|j: int| 0 <= j < k + 1 && a == proposed_action(
                                *data,
                                p,
                                answer.0@[j] as int,
                                thresholds[j] as int,
                            );
                            if j < k {
                                assert(thresholds[j] == old_thresholds[j]);
                                assert(before.contains(a));
                                let i = choose|i: int| 0 <= i < before.len() && before[i] == a;
                                assert(actions@[i] == a);
                            } else {
                                assert(actions@[before.len() as int] == a);
                            }
                        }
                    }
                    assert forall|j: int| 0 <= j < k + 1 implies call_ensures(
                        *force_threshold,
                        (pot_after_bet(spot, *data, p, answer.0@[j] as int) as i32,),
                        #[trigger] thresholds[j],
                    ) by {
                        if j < k {
                            assert(thresholds[j] == old_thresholds[j]);
                        }
                    }
                }
            }
            let ghost mid = actions@;
            if answer.1 {
                actions.push(Action::AllIn(max_amount));
            }
            proof {
                assert(max_amount == crate::node::max_amount_of(*data, p) as i32);
                assert forall|a: Action| #[trigger] actions@.contains(a) <==> (mid.contains(a) || (answer.1
                    && a == Action::AllIn(max_amount))) by {
                    if answer.1 {
                        assert(actions@ == mid.push(Action::AllIn(max_amount)));
                        if mid.contains(a) {
                            let i = choose|i: int| 0 <= i < mid.len() && mid[i] == a;
                            assert(actions@[i] == a);
                        }
                        if a == Action::AllIn(max_amount) {
                            assert(actions@[mid.len() as int] == a);
                        }
                        if actions@.contains(a) {
                            let i = choose|i: int| 0 <= i < actions@.len() && actions@[i] == a;
                            if i < mid.len() {
                                assert(mid[i] == a);
                            }
                        }
                    } else {
                        assert(actions@ == mid);
                    }
                }
                assert(spot == spot_g);
                assert(forall|a: Action|
                    #[trigger] actions@.contains(a) <==> (base_action(*data, a) || (exists|k: int|
                        0 <= k < answer.0@.len() && a == proposed_action(
                            *data,
                            p,
                            answer.0@[k] as int,
                            #[trigger] thresholds[k] as int,
                        )) || (answer.1 && a == Action::AllIn(crate::node::max_amount_of(*data, p) as i32))));
                assert(sized_by(*propose, *force_threshold, spot_g, *data, p, answer, thresholds, actions@));
            }
        }
        proof {
            if !facing {
                assert(base_action(*data, Action::Check));
                assert(actions@.contains(Action::Check));
            } else {
                assert(base_action(*data, Action::Fold));
                assert(base_action(*data, Action::Call));
                assert(actions@.contains(Action::Fold));
                assert(actions@.contains(Action::Call));
            }
        }

        let sorted = sort_unique(&actions);
        proof {
            assert forall|j: int| 0 <= j < sorted@.len() implies allowed(
                *data,
                p,
                #[trigger] sorted@[j],
            ) by {
                assert(sorted@.contains(sorted@[j]));
                assert(actions@.contains(sorted@[j]));
                let k = choose|k: int| 0 <= k < actions@.len() && actions@[k] == sorted@[j];
                assert(allowed(*data, p, actions@[k]));
            }
            if asked(*data) {
                let (r, t) = choose|r: (Vec<i32>, bool), t: Seq<u32>|
                    sized_by(*propose, *force_threshold, spot_g, *data, p, r, t, actions@);
                assert(sized_by(*propose, *force_threshold, spot_g, *data, p, r, t, sorted@));
            }
            assert(sized_actions(
                *propose,
                *force_threshold,
                *config,
                node.player,
                node.street,
                node.amount as int,
                *data,
                sorted@,
            ));
        }

        let player_after_call = if node.street == Street::River {
            PLAYER_TERMINAL_FLAG
        } else {
            PLAYER_CHANCE_FLAG | player
        };
        let player_after_check = if player == PLAYER_OOP {
            opp
        } else {
            player_after_call
        };

        let mut children: Vec<ActionTreeNode> = Vec::new();
        for i in 0..sorted.len()
            invariant
                children@.len() == i,
                forall|j: int|
                    0 <= j < sorted@.len() ==> allowed(*data, p, #[trigger] sorted@[j]),
                forall|j: int|
                    0 <= j < i ==> child_header_ok(
                        *old(node),
                        *data,
                        sorted@[j],
                        #[trigger] children@[j],
                    ),
                forall|j: int|
                    0 <= j < i ==> (#[trigger] children@[j]).actions@.len() == 0
                        && children@[j].children@.len() == 0,
                node.player == player,
                p == player as int,
                player <= 1,
                opp == 1 - player,
                player_after_call as int == crate::node::player_after_call(node.street, p),
                player_after_check as int == crate::node::player_after_check(node.street, p),
                to_call as int == crate::node::to_call_of(*data, p),
                sane_decision(config.effective_stack as int, node.amount as int, *data, p),
                *node == *old(node),
        {
            let action = sorted[i];
            let mut amount = node.amount;
            proof {
                lemma_player_flags(player);
            }
            let next_player = match action {
                Action::Fold => PLAYER_FOLD_FLAG | player,
                Action::Check => player_after_check,
                Action::Call => {
                    amount = amount + to_call;
                    player_after_call
                },
                Action::Bet(_) | Action::Raise(_) | Action::AllIn(_) => {
                    amount = amount + to_call;
                    opp
                },
                _ => {
                    proof {
                        assert(allowed(*data, p, sorted@[i as int]));
                    }
                    opp
                },
            };
            children.push(ActionTreeNode::leaf(next_player, node.street, amount));
        }

        node.actions = sorted;
        node.children = children;
    }

    /// Builds the subtree below the fresh node `node` (see `build_subtree`).
    pub fn build_tree<F: Fn(Spot) -> (Vec<i32>, bool), G: Fn(i32) -> u32>(
        &self,
        node: &mut ActionTreeNode,
        data: TreeBuildData,
        propose: &F,
        force_threshold: &G,
    )
        requires
            params_ok(self.config),
            header_ready(self.config, *old(node), data),
            forall|s: Spot| call_requires(*propose, (s,)),
            forall|x: i32| call_requires(*force_threshold, (x,)),
        ensures
            final(node).player == old(node).player,
            final(node).street == old(node).street,
            final(node).amount == old(node).amount,
            wf_node(self.config, *final(node), data),
            complete_node(*final(node)),
            sized_tree(*propose, *force_threshold, self.config, *final(node), data),
    {
        Self::build_subtree(&self.config, node, data, propose, force_threshold);
    }

    /// Builds the subtree below the fresh node `node`, reached in state
    /// `data`: nothing below a terminal node; below a chance node the node
    /// of the next street; below a decision node the actions of
    /// `push_actions`, each with its subtree. The result is well-formed.
    pub fn build_subtree<F: Fn(Spot) -> (Vec<i32>, bool), G: Fn(i32) -> u32>(
        config: &TreeParams,
        node: &mut ActionTreeNode,
        data: TreeBuildData,
        propose: &F,
        force_threshold: &G,
    )
        requires
            params_ok(*config),
            header_ready(*config, *old(node), data),
            forall|s: Spot| call_requires(*propose, (s,)),
            forall|x: i32| call_requires(*force_threshold, (x,)),
        ensures
            final(node).player == old(node).player,
            final(node).street == old(node).street,
            final(node).amount == old(node).amount,
            wf_node(*config, *final(node), data),
            complete_node(*final(node)),
            sized_tree(*propose, *force_threshold, *config, *final(node), data),
        decreases street_rank(old(node).street), stack_sum(data), phase(old(node).player as int, data),
    {
        if node.is_terminal() {
            // No further actions possible.
            return;
        } else if node.is_chance() {
            // Move to the next street.
            let next_street = match node.street {
                Street::Flop => Street::Turn,
                Street::Turn => Street::River,
                Street::River => Street::River,
            };
            let next_player = if !data.all_in {
                PLAYER_OOP
            } else if node.street == Street::Flop {
                PLAYER_CHANCE_FLAG | PLAYER_CHANCE
            } else {
                PLAYER_TERMINAL_FLAG
            };
            proof {
                lemma_chance_step(*config, node.street, node.amount as int, data);
                assert((PLAYER_CHANCE_FLAG | PLAYER_CHANCE) == 6u8) by (bit_vector);
                lemma_player_flags(0);
                lemma_player_flags(2);
            }
            node.actions.push(Action::Chance(0));
            node.children.push(ActionTreeNode::leaf(next_player, next_street, node.amount));
            let next_data = data.next(0, Action::Chance(0));
            Self::build_subtree(config, &mut node.children[0], next_data, propose, force_threshold);
            proof {
                assert(node.actions@ =~= seq![Action::Chance(0)]);
            }
        } else {
            Self::push_actions(config, node, &data, propose, force_threshold);
            let ghost p = node.player as int;
            let n = node.actions.len();
            for i in 0..n
                invariant
                    n == node.actions@.len(),
                    node.actions@.len() == node.children@.len(),
                    node.player == old(node).player,
                    node.street == old(node).street,
                    node.amount == old(node).amount,
                    p == node.player as int,
                    node.player <= 1,
                    params_ok(*config),
                    sane_decision(config.effective_stack as int, node.amount as int, data, p),
                    strictly_sorted(node.actions@),
                    forall|j: int|
                        0 <= j < n ==> allowed(data, p, #[trigger] node.actions@[j]),
                    forall|j: int|
                        0 <= j < n ==> child_header_ok(
                            *node,
                            data,
                            node.actions@[j],
                            #[trigger] node.children@[j],
                        ),
                    forall|j: int|
                        i <= j < n ==> (#[trigger] node.children@[j]).actions@.len() == 0
                            && node.children@[j].children@.len() == 0,
                    forall|j: int|
                        0 <= j < i ==> wf_node(
                            *config,
                            #[trigger] node.children@[j],
                            next_data(data, p, node.actions@[j]),
                        ),
                    forall|j: int| 0 <= j < i ==> complete_node(#[trigger] node.children@[j]),
                    forall|j: int|
                        0 <= j < i ==> sized_tree(
                            *propose,
                            *force_threshold,
                            *config,
                            #[trigger] node.children@[j],
                            next_data(data, p, node.actions@[j]),
                        ),
                    sized_actions(
                        *propose,
                        *force_threshold,
                        *config,
                        old(node).player,
                        old(node).street,
                        old(node).amount as int,
                        data,
                        node.actions@,
                    ),
                    forall|s: Spot| call_requires(*propose, (s,)),
                    forall|x: i32| call_requires(*force_threshold, (x,)),
                    is_facing(data) ==> node.actions@.contains(Action::Fold),
                    !is_facing(data) ==> node.actions@.contains(Action::Check),
                    street_rank(node.street) == street_rank(old(node).street),
                    stack_sum(data) >= 0,
                    phase(p, data) == phase(old(node).player as int, data),
            {
                let action = node.actions[i];
                proof {
                    lemma_decision_step(*config, node.street, node.amount as int, data, p, action);
                    lemma_player_flags(node.player);
                    let child = node.children@[i as int];
                    assert(child_header_ok(*node, data, action, child));
                    lemma_player_flags(child.player);
                    assert(header_ready(*config, child, next_data(data, p, action)));
                }
                let child_data = data.next(node.player, action);
                let ghost before = node.children@;
                Self::build_subtree(config, &mut node.children[i], child_data, propose, force_threshold);
                proof {
                    assert(node.children@ =~= before.update(i as int, node.children@[i as int]));
                }
            }
        }
    }

    /// The node that the history leads to.
    pub fn current_node(&self) -> (r: &ActionTreeNode)
        requires
            self.wf(),
        ensures
            *r == self.current(),
            wf_node(self.config, *r, self.current_data()),
    {
        let mut node = &self.root;
        let ghost mut d = self.root_data();
        let n = self.history.len();
        proof {
            assert(self.history@.skip(0) =~= self.history@);
        }
        for k in 0..n
            invariant
                n == self.history@.len(),
                self.wf(),
                walk(*node, d, self.history@.skip(k as int)) == walk(
                    self.root,
                    self.root_data(),
                    self.history@,
                ),
                wf_node(self.config, *node, d),
        {
            let action = self.history[k];
            let ghost rest = self.history@.skip(k as int);
            while node.is_chance()
                invariant
                    walk(*node, d, rest) == walk(self.root, self.root_data(), self.history@),
                    walk(*node, d, rest) is Some,
                    wf_node(self.config, *node, d),
                    rest.len() > 0,
                    rest[0] == action,
                decreases street_rank(node.street),
            {
                node = &node.children[0];
                proof {
                    d = chance_data(d);
                }
            }
            let idx = match crate::action::search_action(&node.actions, action) {
                Ok(i) => i,
                Err(_) => {
                    proof {
                        assert(false);
                    }
                    0
                },
            };
            proof {
                let j = node.actions@.index_of(action);
                lemma_sorted_unique(node.actions@, idx as int, j);
                assert(self.history@.skip(k as int).drop_first() =~= self.history@.skip(k + 1));
                d = next_data(d, node.player as int, action);
            }
            node = &node.children[idx];
        }
        proof {
            assert(self.history@.skip(n as int) =~= Seq::<Action>::empty());
        }
        node
    }

    /// The node that the history leads to, after passing chance nodes.
    fn current_node_ex_chance(&self) -> (r: &ActionTreeNode)
        requires
            self.wf(),
        ensures
            *r == skip_chance(self.current()),
            strictly_sorted(r.actions@),
            !is_chance_player(r.player),
    {
        let mut node = self.current_node();
        let ghost mut d = self.current_data();
        while node.is_chance()
            invariant
                wf_node(self.config, *node, d),
                skip_chance(*node) == skip_chance(self.current()),
            decreases street_rank(node.street),
        {
            node = &node.children[0];
            proof {
                d = chance_data(d);
            }
        }
        node
    }

    /// The actions available at the current node (after passing chance nodes).
    pub fn available_actions(&self) -> (r: &[Action])
        requires
            self.wf(),
        ensures
            r@ == skip_chance(self.current()).actions@,
    {
        self.current_node_ex_chance().actions.as_slice()
    }

    /// Plays `action` at the current node: appends it to the history when
    /// it is available there, else reports it.
    pub fn play(&mut self, action: Action) -> (r: Result<(), String>)
        requires
            old(self).wf(),
        ensures
            final(self).wf(),
            final(self).config == old(self).config,
            final(self).root == old(self).root,
            final(self).added_lines == old(self).added_lines,
            final(self).removed_lines == old(self).removed_lines,
            r is Ok <==> skip_chance(old(self).current()).actions@.contains(action),
            r is Ok ==> final(self).history@ == old(self).history@.push(action),
            r is Err ==> final(self).history@ == old(self).history@,
            r matches Err(e) ==> e@ == invalid_action_text(action),
    {
        let node = self.current_node_ex_chance();
        let found = match crate::action::search_action(&node.actions, action) {
            Ok(_) => true,
            Err(_) => false,
        };
        if !found {
            let mut msg = String::from_str("Invalid action: ");
            let text = action_debug(action);
            msg.append(text.as_str());
            msg.append(".");
            return Err(msg);
        }
        proof {
            lemma_walk_append(self.root, self.root_data(), self.history@, seq![action]);
            lemma_walk_wf(self.config, self.root, self.root_data(), self.history@);
            lemma_walk_one(self.config, self.current(), self.current_data(), action);
            assert(self.history@ + seq![action] =~= self.history@.push(action));
        }
        self.history.push(action);
        Ok(())
    }

    /// Plays `action` if the current node offers it, and gives its position
    /// among the actions offered there; gives -1, and plays nothing, if it
    /// is not offered.
    pub fn play_position(&mut self, action: Action) -> (r: i32)
        requires
            old(self).wf(),
            skip_chance(old(self).current()).actions@.len() <= i32::MAX,
        ensures
            final(self).wf(),
            final(self).config == old(self).config,
            final(self).root == old(self).root,
            final(self).added_lines == old(self).added_lines,
            final(self).removed_lines == old(self).removed_lines,
            r == -1 <==> !skip_chance(old(self).current()).actions@.contains(action),
            r == -1 ==> final(self).history@ == old(self).history@,
            r != -1 ==> 0 <= r < skip_chance(old(self).current()).actions@.len()
                && skip_chance(old(self).current()).actions@[r as int] == action
                && (forall|j: int| 0 <= j < r ==> skip_chance(old(self).current()).actions@[j] != action)
                && final(self).history@ == old(self).history@.push(action),
    {
        let actions = self.available_actions();
        let n = actions.len();
        let mut i: usize = 0;
        while i < n && actions[i] != action
            invariant
                n == actions@.len(),
                actions@ == skip_chance(self.current()).actions@,
                i <= n,
                forall|j: int| 0 <= j < i ==> actions@[j] != action,
            decreases n - i,
        {
            i = i + 1;
        }
        if i == n {
            proof {
                assert(!actions@.contains(action));
            }
            return -1;
        }
        proof {
            assert(actions@[i as int] == action);
            assert(actions@.contains(action));
        }
        let played = self.play(action);
        match played {
            Ok(()) => {},
            Err(_) => {},
        }
        i as i32
    }

    /// Plays the actions of `history` from the root, stopping at the first
    /// that is not available.
    pub fn apply_history(&mut self, history: &[Action]) -> (r: Result<(), String>)
        requires
            old(self).wf(),
        ensures
            final(self).wf(),
            final(self).config == old(self).config,
            final(self).root == old(self).root,
            final(self).added_lines == old(self).added_lines,
            final(self).removed_lines == old(self).removed_lines,
            r is Ok <==> walk(old(self).root, old(self).root_data(), history@) is Some,
            r is Ok ==> final(self).history@ == history@,
            r matches Err(e) ==> exists|k: int|
                0 <= k < history@.len() && final(self).history@ == history@.take(k) && walk(
                    old(self).root,
                    old(self).root_data(),
                    history@.take(k + 1),
                ) is None && e@ == invalid_action_text(history@[k]),
    {
        self.history.clear();
        let n = history.len();
        for i in 0..n
            invariant
                n == history@.len(),
                self.wf(),
                self.config == old(self).config,
                self.root == old(self).root,
                self.added_lines == old(self).added_lines,
                self.removed_lines == old(self).removed_lines,
                self.history@ == history@.take(i as int),
        {
            let action = history[i];
            proof {
                assert(history@.take(i + 1) =~= history@.take(i as int).push(action));
            }
            match self.play(action) {
                Ok(()) => {},
                Err(e) => {
                    proof {
                        lemma_walk_append(self.root, self.root_data(), self.history@, seq![action]);
                        lemma_walk_wf(self.config, self.root, self.root_data(), self.history@);
                        lemma_walk_one(self.config, self.current(), self.current_data(), action);
                        assert(self.history@ + seq![action] =~= history@.take(i + 1));
                        lemma_walk_append(
                            self.root,
                            self.root_data(),
                            history@.take(i + 1),
                            history@.skip(i + 1),
                        );
                        assert(history@.take(i + 1) + history@.skip(i + 1) =~= history@);
                    }
                    return Err(e);
                },
            }
        }
        proof {
            assert(history@.take(n as int) =~= history@);
        }
        Ok(())
    }

    /// Whether the current node (after passing chance nodes) is terminal.
    pub fn is_terminal_node(&self) -> (r: bool)
        requires
            self.wf(),
        ensures
            r == is_terminal_player(skip_chance(self.current()).player),
    {
        self.current_node_ex_chance().is_terminal()
    }

    /// Whether the current node is a chance node that is followed by play.
    pub fn is_chance_node(&self) -> (r: bool)
        requires
            self.wf(),
        ensures
            r == (is_chance_player(self.current().player) && !is_terminal_player(
                skip_chance(self.current()).player,
            )),
    {
        self.current_node().is_chance() && !self.is_terminal_node()
    }

    /// What each player has put in along the history.
    pub fn total_bet_amount(&self) -> (r: [i32; 2])
        requires
            self.wf(),
        ensures
            r[0] == self.config.effective_stack - self.current_data().stacks[0],
            r[1] == self.config.effective_stack - self.current_data().stacks[1],
    {
        let mut node = &self.root;
        let ghost mut d = self.root_data();
        let mut info = TreeBuildData::new(self.config.effective_stack);
        let n = self.history.len();
        proof {
            assert(self.history@.skip(0) =~= self.history@);
        }
        for k in 0..n
            invariant
                n == self.history@.len(),
                self.wf(),
                walk(*node, d, self.history@.skip(k as int)) == walk(
                    self.root,
                    self.root_data(),
                    self.history@,
                ),
                wf_node(self.config, *node, d),
                info.stacks == d.stacks,
                info.last_amount == d.last_amount,
                info.num_bets == d.num_bets,
                info.all_in == d.all_in,
        {
            let action = self.history[k];
            let ghost rest = self.history@.skip(k as int);
            while node.is_chance()
                invariant
                    walk(*node, d, rest) == walk(self.root, self.root_data(), self.history@),
                    walk(*node, d, rest) is Some,
                    wf_node(self.config, *node, d),
                    rest.len() > 0,
                    rest[0] == action,
                    info.stacks == d.stacks,
                    info.last_amount == d.last_amount,
                    info.num_bets == d.num_bets,
                    info.all_in == d.all_in,
                decreases street_rank(node.street),
            {
                node = &node.children[0];
                proof {
                    d = chance_data(d);
                }
            }
            let idx = match crate::action::search_action(&node.actions, action) {
                Ok(i) => i,
                Err(_) => {
                    proof {
                        assert(false);
                    }
                    0
                },
            };
            proof {
                let j = node.actions@.index_of(action);
                lemma_sorted_unique(node.actions@, idx as int, j);
                assert(self.history@.skip(k as int).drop_first() =~= self.history@.skip(k + 1));
                lemma_decision_step(
                    self.config,
                    node.street,
                    node.amount as int,
                    d,
                    node.player as int,
                    action,
                );
            }
            info = info.next(node.player, action);
            proof {
                d = next_data(d, node.player as int, action);
                assert(info.stacks =~= d.stacks);
            }
            node = &node.children[idx];
        }
        proof {
            assert(self.history@.skip(n as int) =~= Seq::<Action>::empty());
        }
        let stack = self.config.effective_stack;
        proof {
            lemma_walk_wf(self.config, self.root, self.root_data(), self.history@);
        }
        [stack - info.stacks[0], stack - info.stacks[1]]
    }

    /// The number of nodes in the tree.
    pub fn num_nodes(&self) -> (r: usize)
        requires
            count_nodes(self.root) <= usize::MAX,
        ensures
            r == count_nodes(self.root),
    {
        let mut total: usize = 0;
        self.root.num_nodes_internal(&mut total);
        total
    }

    /// The lines that end at a node that is neither terminal nor has an
    /// action (a well-built tree has none).
    pub fn invalid_terminals(&self) -> (r: Vec<Vec<Action>>)
        ensures
            r@.map_values(|l: Vec<Action>| l@) == invalid_lines(self.root, Seq::empty()),
    {
        let mut ret: Vec<Vec<Action>> = Vec::new();
        let mut line: Vec<Action> = Vec::new();
        Self::invalid_terminals_internal(&self.root, &mut ret, &mut line);
        proof {
            assert(ret@.map_values(|l: Vec<Action>| l@) =~= Seq::<Seq<Action>>::empty() + invalid_lines(
                self.root,
                Seq::empty(),
            ));
        }
        ret
    }

    fn invalid_terminals_internal(
        node: &ActionTreeNode,
        result: &mut Vec<Vec<Action>>,
        line: &mut Vec<Action>,
    )
        ensures
            final(line)@ == old(line)@,
            final(result)@.map_values(|l: Vec<Action>| l@) == old(result)@.map_values(
                |l: Vec<Action>| l@,
            ) + invalid_lines(*node, old(line)@),
        decreases *node,
    {
        let ghost start = result@.map_values(|l: Vec<Action>| l@);
        if node.is_terminal() {
            // A terminal node is a valid end.
            proof {
                assert(result@.map_values(|l: Vec<Action>| l@) =~= start + Seq::<Seq<Action>>::empty());
            }
        } else if node.children.len() == 0 {
            // A last node that is not terminal is invalid.
            result.push(copy_line(line.as_slice()));
            proof {
                assert(result@.map_values(|l: Vec<Action>| l@) =~= start + seq![line@]);
            }
        } else if node.is_chance() {
            Self::invalid_terminals_internal(&node.children[0], result, line);
        } else {
            let n = if node.actions.len() < node.children.len() {
                node.actions.len()
            } else {
                node.children.len()
            };
            let ghost base = line@;
            for i in 0..n
                invariant
                    line@ == base,
                    n <= node.actions@.len(),
                    n <= node.children@.len(),
                    result@.map_values(|l: Vec<Action>| l@) == start + invalid_lines_children(
                        *node,
                        base,
                        i as int,
                    ),
            {
                line.push(node.actions[i]);
                Self::invalid_terminals_internal(&node.children[i], result, line);
                line.pop();
                proof {
                    assert(line@ =~= base);
                    assert(start + invalid_lines_children(*node, base, i + 1) =~= start
                        + invalid_lines_children(*node, base, i as int) + invalid_lines(
                        node.children@[i as int],
                        base.push(node.actions@[i as int]),
                    ));
                }
            }
        }
    }

    /// A tree with the parameters `config`, built with the bet sizing rules
    /// `propose` and `force_threshold`; no lines added or removed, nothing
    /// played.
    pub fn new<F: Fn(Spot) -> (Vec<i32>, bool), G: Fn(i32) -> u32>(config: TreeParams, propose: &F, force_threshold: &G) -> (r: ActionTree)
        requires
            params_ok(config),
            forall|s: Spot| call_requires(*propose, (s,)),
            forall|x: i32| call_requires(*force_threshold, (x,)),
        ensures
            r.wf(),
            complete_node(r.root),
            sized_tree(*propose, *force_threshold, config, r.root, r.root_data()),
            r.config == config,
            r.added_lines@.len() == 0,
            r.removed_lines@.len() == 0,
            r.history@.len() == 0,
            invalid_lines(r.root, Seq::empty()) == Seq::<Seq<Action>>::empty(),
    {
        let mut tree = ActionTree {
            config,
            added_lines: Vec::new(),
            removed_lines: Vec::new(),
            root: ActionTreeNode::leaf(PLAYER_OOP, config.initial_street, 0),
            history: Vec::new(),
        };
        tree.init_build(propose, force_threshold);
        proof {
            assert(tree.history@ =~= Seq::<Action>::empty());
            crate::laws::law_complete_tree_has_no_invalid_terminals(tree.root, Seq::empty());
        }
        tree
    }

    /// Rebuilds the tree from the root: OOP to act on the initial street
    /// with nothing put in, both players holding the effective stack.
    pub fn init_build<F: Fn(Spot) -> (Vec<i32>, bool), G: Fn(i32) -> u32>(&mut self, propose: &F, force_threshold: &G)
        requires
            params_ok(old(self).config),
            forall|s: Spot| call_requires(*propose, (s,)),
            forall|x: i32| call_requires(*force_threshold, (x,)),
        ensures
            final(self).config == old(self).config,
            final(self).added_lines == old(self).added_lines,
            final(self).removed_lines == old(self).removed_lines,
            final(self).history == old(self).history,
            final(self).root.player == 0,
            final(self).root.street == old(self).config.initial_street,
            final(self).root.amount == 0,
            wf_node(final(self).config, final(self).root, final(self).root_data()),
            complete_node(final(self).root),
            sized_tree(*propose, *force_threshold, final(self).config, final(self).root, final(self).root_data()),
    {
        let mut root = ActionTreeNode::leaf(PLAYER_OOP, self.config.initial_street, 0);
        let data = TreeBuildData::new(self.config.effective_stack);
        proof {
            lemma_player_flags(0);
        }
        Self::build_subtree(&self.config, &mut root, data, propose, force_threshold);
        self.root = root;
    }

    /// Removes the last action of `line` (and what follows it) from the
    /// subtree at `node`; `line` must be a line of the subtree.
    fn remove_at(
        node: &mut ActionTreeNode,
        line: &[Action],
        Ghost(c): Ghost<TreeParams>,
        Ghost(d): Ghost<TreeBuildData>,
    )
        requires
            wf_node(c, *old(node), d),
            line@.len() > 0,
            walk(*old(node), d, line@) is Some,
        ensures
            final(node).player == old(node).player,
            final(node).street == old(node).street,
            final(node).amount == old(node).amount,
            wf_node(c, *final(node), d),
            forall|m: Seq<Action>|
                (#[trigger] walk(*final(node), d, m) is Some) <==> (walk(*old(node), d, m) is Some
                    && !line@.is_prefix_of(m)),
        decreases line@.len(), *old(node),
    {
        let ghost old_node = *node;
        if node.is_chance() {
            Self::remove_at(&mut node.children[0], line, Ghost(c), Ghost(chance_data(d)));
            proof {
                assert(node.children@ =~= old_node.children@.update(0, node.children@[0]));
                assert(wf_node(c, *node, d));
                assert forall|m: Seq<Action>|
                    (#[trigger] walk(*node, d, m) is Some) <==> (walk(old_node, d, m) is Some
                        && !line@.is_prefix_of(m)) by {
                    if m.len() == 0 {
                        assert(!line@.is_prefix_of(m));
                    } else {
                        assert(walk(*node, d, m) == walk(node.children@[0], chance_data(d), m));
                        assert(walk(old_node, d, m) == walk(old_node.children@[0], chance_data(d), m));
                        assert((walk(node.children@[0], chance_data(d), m) is Some) <==> (walk(
                            old_node.children@[0],
                            chance_data(d),
                            m,
                        ) is Some && !line@.is_prefix_of(m)));
                    }
                }
            }
            return;
        }
        let action = line[0];
        let idx = match crate::action::search_action(&node.actions, action) {
            Ok(i) => i,
            Err(_) => {
                proof {
                    assert(false);
                }
                0
            },
        };
        proof {
            lemma_sorted_unique(node.actions@, idx as int, node.actions@.index_of(action));
        }
        if line.len() > 1 {
            let rest = &line[1..line.len()];
            proof {
                assert(rest@ =~= line@.drop_first());
            }
            let ghost nd = next_data(d, node.player as int, action);
            Self::remove_at(&mut node.children[idx], rest, Ghost(c), Ghost(nd));
            proof {
                lemma_replace_child(c, old_node, d, idx as int, *node);
                assert forall|m: Seq<Action>|
                    (#[trigger] walk(*node, d, m) is Some) <==> (walk(old_node, d, m) is Some
                        && !line@.is_prefix_of(m)) by {
                    if m.len() == 0 {
                        assert(!line@.is_prefix_of(m));
                    } else {
                        lemma_prefix_first(line@, m);
                        if m[0] == action {
                            lemma_sorted_unique(node.actions@, idx as int, node.actions@.index_of(m[0]));
                            assert(walk(*node, d, m) == walk(node.children@[idx as int], nd, m.drop_first()));
                        }
                    }
                }
            }
        } else {
            node.actions.remove(idx);
            node.children.remove(idx);
            proof {
                lemma_remove_child(c, old_node, d, idx as int, *node);
                assert forall|m: Seq<Action>|
                    (#[trigger] walk(*node, d, m) is Some) <==> (walk(old_node, d, m) is Some
                        && !line@.is_prefix_of(m)) by {
                    if m.len() == 0 {
                        assert(!line@.is_prefix_of(m));
                    } else {
                        lemma_prefix_first(line@, m);
                        assert(line@.drop_first().len() == 0);
                        assert(line@.drop_first().is_prefix_of(m.drop_first()));
                    }
                }
            }
        }
    }

    /// Removes `line` from the subtree at `node` (with everything after it),
    /// or reports why it cannot: an empty line, a terminal node on the way,
    /// an action that is not there.
    fn remove_line_internal(
        node: &mut ActionTreeNode,
        line: &[Action],
        Ghost(c): Ghost<TreeParams>,
        Ghost(d): Ghost<TreeBuildData>,
    ) -> (r: Result<(), String>)
        requires
            wf_node(c, *old(node), d),
        ensures
            final(node).player == old(node).player,
            final(node).street == old(node).street,
            final(node).amount == old(node).amount,
            wf_node(c, *final(node), d),
            r is Ok <==> remove_error(*old(node), line@) is None,
            r is Ok <==> (line@.len() > 0 && walk(*old(node), d, line@) is Some),
            r matches Err(e) ==> Some(e@) == remove_error(*old(node), line@) && *final(node)
                == *old(node),
            r is Ok ==> forall|m: Seq<Action>|
                (#[trigger] walk(*final(node), d, m) is Some) <==> (walk(*old(node), d, m) is Some
                    && !line@.is_prefix_of(m)),
    {
        proof {
            lemma_remove_error_walk(c, *node, d, line@);
        }
        match Self::check_line(node, line, Ghost(c), Ghost(d)) {
            Ok(()) => {},
            Err(e) => {
                return Err(e);
            },
        }
        Self::remove_at(node, line, Ghost(c), Ghost(d));
        Ok(())
    }

    /// Whether `line` can be followed through the subtree at `node` to an
    /// action that is there, or why not.
    fn check_line(
        node: &ActionTreeNode,
        line: &[Action],
        Ghost(c): Ghost<TreeParams>,
        Ghost(d): Ghost<TreeBuildData>,
    ) -> (r: Result<(), String>)
        requires
            wf_node(c, *node, d),
        ensures
            r is Ok <==> remove_error(*node, line@) is None,
            r matches Err(e) ==> Some(e@) == remove_error(*node, line@),
        decreases line@.len(), *node,
    {
        if line.len() == 0 {
            return Err(String::from_str("Empty line."));
        }
        if node.is_terminal() {
            return Err(String::from_str("Terminal node."));
        }
        if node.is_chance() {
            return Self::check_line(&node.children[0], line, Ghost(c), Ghost(chance_data(d)));
        }
        let action = line[0];
        let idx = match crate::action::search_action(&node.actions, action) {
            Ok(i) => i,
            Err(_) => {
                return Err(String::from_str("Non-Existant action."));
            },
        };
        proof {
            lemma_sorted_unique(node.actions@, idx as int, node.actions@.index_of(action));
        }
        if line.len() > 1 {
            let rest = &line[1..line.len()];
            proof {
                assert(rest@ =~= line@.drop_first());
            }
            return Self::check_line(
                &node.children[idx],
                rest,
                Ghost(c),
                Ghost(next_data(d, node.player as int, action)),
            );
        }
        Ok(())
    }

    /// Removes `line` and everything after it from the tree. A line that
    /// was added is forgotten; any other is recorded as removed. Lines that
    /// start with `line` are dropped from both records, and a history that
    /// starts with `line` goes back to the node where it branches off.
    pub fn remove_line(&mut self, line: &[Action]) -> (r: Result<(), String>)
        requires
            old(self).wf(),
        ensures
            final(self).wf(),
            final(self).config == old(self).config,
            r is Ok <==> (line@.len() > 0 && walk(old(self).root, old(self).root_data(), line@) is Some),
            r matches Err(e) ==> Some(e@) == remove_error(old(self).root, line@) && *final(self)
                == *old(self),
            r is Ok ==> {
                &&& forall|m: Seq<Action>|
                    (#[trigger] walk(final(self).root, final(self).root_data(), m) is Some) <==> (walk(
                        old(self).root,
                        old(self).root_data(),
                        m,
                    ) is Some && !line@.is_prefix_of(m))
                &&& line_views(final(self).added_lines@) == unprefixed(
                    line_views(old(self).added_lines@),
                    line@,
                )
                &&& line_views(final(self).removed_lines@) == if line_views(
                    old(self).added_lines@,
                ).contains(line@) {
                    unprefixed(line_views(old(self).removed_lines@), line@)
                } else {
                    unprefixed(line_views(old(self).removed_lines@), line@).push(line@)
                }
                &&& final(self).history@ == if line@.is_prefix_of(old(self).history@) {
                    old(self).history@.take(line@.len() - 1)
                } else {
                    old(self).history@
                }
            },
    {
        let ghost c = self.config;
        let ghost d0 = self.root_data();
        let ghost old_root = self.root;
        match Self::remove_line_internal(&mut self.root, line, Ghost(c), Ghost(d0)) {
            Ok(()) => {},
            Err(e) => {
                return Err(e);
            },
        }
        let was_added = position_of_line(&self.added_lines, line).is_some();
        proof {
            if line_views(self.added_lines@).contains(line@) {
                let k = choose|k: int|
                    0 <= k < line_views(self.added_lines@).len() && line_views(
                        self.added_lines@,
                    )[k] == line@;
                assert(self.added_lines@[k]@ == line@);
            }
            if was_added {
                let k = choose|k: int| 0 <= k < self.added_lines@.len() && self.added_lines@[k]@ == line@;
                assert(line_views(self.added_lines@)[k] == line@);
            }
        }
        let ghost added_before = line_views(self.added_lines@);
        retain_unprefixed(&mut self.added_lines, line);
        let ghost removed_before = line_views(self.removed_lines@);
        retain_unprefixed(&mut self.removed_lines, line);
        proof {
            lemma_unprefixed(added_before, line@);
            lemma_unprefixed(removed_before, line@);
            assert forall|i: int| 0 <= i < self.added_lines@.len() implies walk(
                self.root,
                self.root_data(),
                (#[trigger] self.added_lines@[i])@,
            ) is Some by {
                let x = self.added_lines@[i]@;
                assert(line_views(self.added_lines@)[i] == x);
                assert(line_views(self.added_lines@).contains(x));
                assert(added_before.contains(x));
                let k = choose|k: int| 0 <= k < added_before.len() && added_before[k] == x;
                assert(old(self).added_lines@[k]@ == x);
            }
            assert forall|i: int| 0 <= i < self.removed_lines@.len() implies (#[trigger] self.removed_lines@[i])@.len() > 0
                && walk(self.root, self.root_data(), self.removed_lines@[i]@.drop_last()) is Some by {
                let x = self.removed_lines@[i]@;
                assert(line_views(self.removed_lines@)[i] == x);
                assert(line_views(self.removed_lines@).contains(x));
                assert(removed_before.contains(x));
                let k = choose|k: int| 0 <= k < removed_before.len() && removed_before[k] == x;
                assert(old(self).removed_lines@[k]@ == x);
                assert(x.len() > 0);
                if line@.is_prefix_of(x.drop_last()) {
                    assert(line@ =~= x.subrange(0, line@.len() as int));
                }
            }
        }
        proof {
            lemma_unprefixed(removed_before, line@);
            lemma_walk_allowed(c, old_root, d0, line@);
            assert forall|i: int| 0 <= i < self.removed_lines@.len() implies line_allowed(
                0,
                self.config.initial_street,
                0,
                self.root_data(),
                #[trigger] self.removed_lines@[i]@,
            ) by {
                let x = self.removed_lines@[i]@;
                assert(line_views(self.removed_lines@)[i] == x);
                assert(line_views(self.removed_lines@).contains(x));
                assert(removed_before.contains(x));
                let k = choose|k: int| 0 <= k < removed_before.len() && removed_before[k] == x;
                assert(old(self).removed_lines@[k]@ == x);
            }
        }
        if !was_added {
            let ghost before = self.removed_lines@;
            self.removed_lines.push(copy_line(line));
            proof {
                assert(line_views(self.removed_lines@) =~= line_views(before).push(line@));
                assert(line@.drop_last().is_prefix_of(line@));
                lemma_walk_prefix(old_root, d0, line@.drop_last(), line@);
                assert forall|i: int| 0 <= i < self.removed_lines@.len() implies (#[trigger] self.removed_lines@[i])@.len() > 0
                    && walk(self.root, self.root_data(), self.removed_lines@[i]@.drop_last()) is Some by {
                    if i < before.len() {
                        assert(self.removed_lines@[i] == before[i]);
                    } else {
                        assert(self.removed_lines@[i]@ == line@);
                    }
                }
                assert forall|i: int| 0 <= i < self.removed_lines@.len() implies line_allowed(
                    0,
                    self.config.initial_street,
                    0,
                    self.root_data(),
                    #[trigger] self.removed_lines@[i]@,
                ) by {
                    if i < before.len() {
                        assert(self.removed_lines@[i] == before[i]);
                    }
                }
            }
        }
        let ghost old_history = self.history@;
        if starts_with(self.history.as_slice(), line) {
            self.history.truncate(line.len() - 1);
            proof {
                let p = old_history.take(line@.len() - 1);
                assert(p.is_prefix_of(old_history));
                lemma_walk_prefix(old_root, d0, p, old_history);
                assert(!line@.is_prefix_of(p));
                assert(self.history@ =~= p);
            }
        } else {
            proof {
                assert(!line@.is_prefix_of(old_history));
            }
        }
        Ok(())
    }

    /// Removes the node that the history leads to (see `remove_line`).
    pub fn remove_current_node(&mut self) -> (r: Result<(), String>)
        requires
            old(self).wf(),
        ensures
            final(self).wf(),
            final(self).config == old(self).config,
            r is Ok <==> old(self).history@.len() > 0,
            r matches Err(e) ==> e@ == "Empty line."@ && *final(self) == *old(self),
            r is Ok ==> forall|m: Seq<Action>|
                (#[trigger] walk(final(self).root, final(self).root_data(), m) is Some) <==> (walk(
                    old(self).root,
                    old(self).root_data(),
                    m,
                ) is Some && !old(self).history@.is_prefix_of(m)),
            r is Ok ==> final(self).history@ == old(self).history@.take(old(self).history@.len() - 1),
    {
        let history = copy_line(self.history.as_slice());
        proof {
            assert(history@.is_prefix_of(self.history@)) by {
                assert(history@ =~= self.history@.subrange(0, history@.len() as int));
            }
        }
        self.remove_line(history.as_slice())
    }

    /// The action that `action` becomes when it is added where the largest
    /// amount is `max_amount`: a bet or raise of it becomes an all-in.
    fn added_action_exec(action: Action, max_amount: i32) -> (r: Action)
        ensures
            (action is Bet || action is Raise) && crate::action::bet_amount(action)
                == max_amount ==> r == Action::AllIn(max_amount),
            !((action is Bet || action is Raise) && crate::action::bet_amount(action)
                == max_amount) ==> r == action,
    {
        match action {
            Action::Bet(amount) => if amount == max_amount {
                Action::AllIn(amount)
            } else {
                action
            },
            Action::Raise(amount) => if amount == max_amount {
                Action::AllIn(amount)
            } else {
                action
            },
            _ => action,
        }
    }

    /// Whether `line` can be added to the subtree at `node`, reached in
    /// state `info`, or why not (see `add_error`).
    fn check_add(
        node: &ActionTreeNode,
        line: &[Action],
        info: &TreeBuildData,
        was_removed: bool,
        Ghost(c): Ghost<TreeParams>,
    ) -> (r: Result<bool, String>)
        requires
            params_ok(c),
            wf_node(c, *node, *info),
        ensures
            r is Ok <==> add_error(*node, *info, line@, was_removed) is None,
            r matches Err(e) ==> Some(e@) == add_error(*node, *info, line@, was_removed),
            r matches Ok(b) ==> b == added_present(*node, *info, line@),
        decreases line@.len(), *node,
    {
        if line.len() == 0 {
            return Err(String::from_str("Empty line."));
        }
        if node.is_terminal() {
            return Err(String::from_str("Terminal node."));
        }
        if node.is_chance() {
            let next = info.next(0, Action::Chance(0));
            return Self::check_add(&node.children[0], line, &next, was_removed, Ghost(c));
        }
        let ghost p = node.player as int;
        let action = line[0];
        let found = crate::action::search_action(&node.actions, action);
        if line.len() > 1 {
            match found {
                Err(_) => {
                    return Err(String::from_str("Non-Existant action."));
                },
                Ok(i) => {
                    proof {
                        lemma_sorted_unique(node.actions@, i as int, node.actions@.index_of(action));
                        lemma_decision_step(c, node.street, node.amount as int, *info, p, action);
                    }
                    let next = info.next(node.player, action);
                    let rest = &line[1..line.len()];
                    proof {
                        assert(rest@ =~= line@.drop_first());
                    }
                    return Self::check_add(&node.children[i], rest, &next, was_removed, Ghost(c));
                },
            }
        }
        if found.is_ok() {
            return Err(String::from_str("Action already exists."));
        }
        let is_bet_action = matches!(action, Action::Bet(_) | Action::Raise(_) | Action::AllIn(_));
        if info.all_in && is_bet_action {
            return Err(String::from_str("Bet after all-in reached."));
        }
        let player = node.player;
        let opp = player ^ 1;
        proof {
            lemma_player_flags(player);
        }
        let player_stack = info.stacks[player as usize];
        let opp_stack = info.stacks[opp as usize];
        let prev_amount = info.last_amount;
        let to_call = player_stack - opp_stack;
        let max_amount = opp_stack + prev_amount;
        let min_amount = clamp_i32(prev_amount + to_call, 1, max_amount);

        let added = Self::added_action_exec(action, max_amount);
        let present = match crate::action::search_action(&node.actions, added) {
            Ok(k) => {
                proof {
                    assert(node.actions@[k as int] == added);
                }
                true
            },
            Err(_) => false,
        };
        let is_valid_bet = match added {
            Action::Bet(amount) => amount >= min_amount && amount < max_amount && matches!(
                info.last_action,
                Action::NoAction | Action::Check | Action::Chance(_)
            ),
            Action::Raise(amount) => amount >= min_amount && amount < max_amount && matches!(
                info.last_action,
                Action::Bet(_) | Action::Raise(_)
            ),
            Action::AllIn(amount) => amount == max_amount,
            _ => false,
        };
        if !was_removed && !is_valid_bet {
            return Err(String::from_str("Invalid bet."));
        }
        Ok(present)
    }

    /// Adds `line` to the subtree at `node`, reached in state `info`, when
    /// the action that its last action becomes is already there: that
    /// action is inserted once more where the last action itself would
    /// stand, with the subtree that the sizing rules build below it (see
    /// `duplicated_last`).
    #[verifier::rlimit(60)]
    fn insert_duplicate<F: Fn(Spot) -> (Vec<i32>, bool), G: Fn(i32) -> u32>(
        config: &TreeParams,
        node: &mut ActionTreeNode,
        line: &[Action],
        info: &TreeBuildData,
        was_removed: bool,
        propose: &F,
        force_threshold: &G,
    )
        requires
            params_ok(*config),
            wf_node(*config, *old(node), *info),
            add_error(*old(node), *info, line@, was_removed) is None,
            added_present(*old(node), *info, line@),
            forall|s: Spot| call_requires(*propose, (s,)),
            forall|x: i32| call_requires(*force_threshold, (x,)),
        ensures
            duplicated_last(*propose, *force_threshold, *config, *old(node), *final(node), *info, line@),
        decreases line@.len(), *old(node),
    {
        let ghost old_node = *node;
        let ghost d = *info;
        if node.is_chance() {
            let next = info.next(0, Action::Chance(0));
            Self::insert_duplicate(
                config,
                &mut node.children[0],
                line,
                &next,
                was_removed,
                propose,
                force_threshold,
            );
            proof {
                assert forall|j: int| 1 <= j < old_node.children@.len() implies #[trigger] node.children@[j]
                    == old_node.children@[j] by {}
            }
            return;
        }
        let ghost p = node.player as int;
        let action = line[0];
        if line.len() > 1 {
            let i = match crate::action::search_action(&node.actions, action) {
                Ok(i) => i,
                Err(_) => {
                    proof {
                        assert(false);
                    }
                    0
                },
            };
            proof {
                lemma_sorted_unique(node.actions@, i as int, node.actions@.index_of(action));
                lemma_decision_step(*config, node.street, node.amount as int, d, p, action);
            }
            let next = info.next(node.player, action);
            let rest = &line[1..line.len()];
            proof {
                assert(rest@ =~= line@.drop_first());
            }
            Self::insert_duplicate(
                config,
                &mut node.children[i],
                rest,
                &next,
                was_removed,
                propose,
                force_threshold,
            );
            proof {
                assert forall|j: int| 0 <= j < old_node.children@.len() && j != i implies #[trigger] node.children@[j]
                    == old_node.children@[j] by {}
            }
            return;
        }

        let player = node.player;
        let opp = player ^ 1;
        proof {
            lemma_player_flags(player);
        }
        let player_stack = info.stacks[player as usize];
        let opp_stack = info.stacks[opp as usize];
        let prev_amount = info.last_amount;
        let to_call = player_stack - opp_stack;
        let max_amount = opp_stack + prev_amount;

        let added = Self::added_action_exec(action, max_amount);
        let idx = match crate::action::search_action(&node.actions, action) {
            Err(i) => i,
            Ok(k) => {
                proof {
                    assert(node.actions@[k as int] == action);
                    assert(false);
                }
                0
            },
        };
        proof {
            let k = choose|k: int| 0 <= k < node.actions@.len() && node.actions@[k] == added;
            assert(allowed(d, p, node.actions@[k]));
            assert(added != action);
            assert(added is AllIn);
            lemma_decision_step(*config, node.street, node.amount as int, d, p, added);
            lemma_player_flags(opp);
            assert(crate::node::child_player(node.street, p, added) == opp);
        }
        let amount = node.amount + to_call;
        let child = ActionTreeNode::leaf(opp, node.street, amount);
        let child_data = info.next(player, added);
        node.actions.insert(idx, added);
        node.children.insert(idx, child);
        Self::build_subtree(config, &mut node.children[idx], child_data, propose, force_threshold);
        proof {
            let built = node.children@[idx as int];
            assert(node.children@ =~= old_node.children@.insert(idx as int, built));
            assert(duplicate_at(*propose, *force_threshold, *config, old_node, *node, d, action, idx as int));
        }
    }

    /// Adds `line` to the subtree at `node`, reached in state `info`: the
    /// last action (as `added_last` gives it) is inserted at its place with
    /// the subtree that the sizing rules build below it. Returns whether the
    /// last action was turned into an all-in.
    #[verifier::rlimit(60)]
    fn insert_line<F: Fn(Spot) -> (Vec<i32>, bool), G: Fn(i32) -> u32>(
        config: &TreeParams,
        node: &mut ActionTreeNode,
        line: &[Action],
        info: &TreeBuildData,
        was_removed: bool,
        propose: &F,
        force_threshold: &G,
    ) -> (rep: bool)
        requires
            params_ok(*config),
            wf_node(*config, *old(node), *info),
            add_error(*old(node), *info, line@, was_removed) is None,
            !added_present(*old(node), *info, line@),
            forall|s: Spot| call_requires(*propose, (s,)),
            forall|x: i32| call_requires(*force_threshold, (x,)),
            was_removed ==> line_allowed(
                old(node).player as int,
                old(node).street,
                old(node).amount as int,
                *info,
                line@,
            ),
        ensures
            final(node).player == old(node).player,
            final(node).street == old(node).street,
            final(node).amount == old(node).amount,
            wf_node(*config, *final(node), *info),
            rep == (added_last(*old(node), *info, line@) != line@.last()),
            forall|m: Seq<Action>|
                walk(*old(node), *info, m) is Some ==> (#[trigger] walk(*final(node), *info, m)) is Some,
            walk(*final(node), *info, added_line(*old(node), *info, line@)) is Some,
            walk(*old(node), *info, added_line(*old(node), *info, line@)) is None,
            forall|m: Seq<Action>|
                (#[trigger] walk(*final(node), *info, m)) is Some && walk(*old(node), *info, m) is None
                    ==> added_line(*old(node), *info, line@).is_prefix_of(m),
            complete_node(*old(node)) ==> complete_node(*final(node)),
            walk(*final(node), *info, added_line(*old(node), *info, line@)) matches Some(q)
                ==> sized_tree(*propose, *force_threshold, *config, q.0, q.1),
        decreases line@.len(), *old(node),
    {
        let ghost old_node = *node;
        let ghost d = *info;
        let ghost lp = added_line(old_node, d, line@);
        if node.is_chance() {
            let next = info.next(0, Action::Chance(0));
            let rep = Self::insert_line(
                config,
                &mut node.children[0],
                line,
                &next,
                was_removed,
                propose,
                force_threshold,
            );
            proof {
                assert(node.children@ =~= old_node.children@.update(0, node.children@[0]));
                assert(wf_node(*config, *node, d));
                let cd = chance_data(d);
                assert forall|m: Seq<Action>| m.len() > 0 implies #[trigger] walk(*node, d, m)
                    == walk(node.children@[0], cd, m) && walk(old_node, d, m) == walk(
                    old_node.children@[0],
                    cd,
                    m,
                ) by {}
                assert(lp.len() > 0);
                if complete_node(old_node) {
                    assert forall|k: int| 0 <= k < node.children@.len() implies complete_node(
                        #[trigger] node.children@[k],
                    ) by {
                        if k != 0 {
                            assert(node.children@[k] == old_node.children@[k]);
                        }
                    }
                }
            }
            return rep;
        }
        let ghost p = node.player as int;
        let action = line[0];
        if line.len() > 1 {
            let i = match crate::action::search_action(&node.actions, action) {
                Ok(i) => i,
                Err(_) => {
                    proof {
                        assert(false);
                    }
                    0
                },
            };
            proof {
                lemma_sorted_unique(node.actions@, i as int, node.actions@.index_of(action));
                lemma_decision_step(*config, node.street, node.amount as int, d, p, action);
            }
            let next = info.next(node.player, action);
            let rest = &line[1..line.len()];
            proof {
                assert(rest@ =~= line@.drop_first());
                if was_removed {
                    let child = old_node.children@[i as int];
                    assert(child_header_ok(old_node, d, action, child));
                }
            }
            let rep = Self::insert_line(
                config,
                &mut node.children[i],
                rest,
                &next,
                was_removed,
                propose,
                force_threshold,
            );
            proof {
                let nd = next_data(d, p, action);
                let child_lp = added_line(old_node.children@[i as int], nd, rest@);
                assert(lp.drop_first() =~= child_lp);
                assert(lp[0] == action);
                assert(line@.last() == rest@.last());
                lemma_replace_child(*config, old_node, d, i as int, *node);
                assert forall|m: Seq<Action>| m.len() > 0 && m[0] == action implies #[trigger] walk(
                    *node,
                    d,
                    m,
                ) == walk(node.children@[i as int], nd, m.drop_first()) && walk(old_node, d, m)
                    == walk(old_node.children@[i as int], nd, m.drop_first()) by {
                    lemma_sorted_unique(node.actions@, i as int, node.actions@.index_of(m[0]));
                }
                assert forall|m: Seq<Action>|
                    (#[trigger] walk(*node, d, m)) is Some && walk(old_node, d, m) is None
                        implies lp.is_prefix_of(m) by {
                    lemma_prefix_first(lp, m);
                }
                assert(walk(*node, d, lp) == walk(node.children@[i as int], nd, lp.drop_first()));
                if complete_node(old_node) {
                    assert forall|k: int| 0 <= k < node.children@.len() implies complete_node(
                        #[trigger] node.children@[k],
                    ) by {
                        if k != i {
                            assert(node.children@[k] == old_node.children@[k]);
                        }
                    }
                }
            }
            return rep;
        }

        let player = node.player;
        let opp = player ^ 1;
        proof {
            lemma_player_flags(player);
        }
        let player_stack = info.stacks[player as usize];
        let opp_stack = info.stacks[opp as usize];
        let prev_amount = info.last_amount;
        let to_call = player_stack - opp_stack;
        let max_amount = opp_stack + prev_amount;

        let added = Self::added_action_exec(action, max_amount);
        let is_replaced = added != action;
        let idx = match crate::action::search_action(&node.actions, added) {
            Err(i) => i,
            Ok(_) => {
                proof {
                    assert(false);
                }
                0
            },
        };
        proof {
            assert(lp =~= seq![added]);
            assert(allowed(d, p, added)) by {
                if was_removed {
                    assert(allowed(d, p, action));
                }
            }
            lemma_decision_step(*config, node.street, node.amount as int, d, p, added);
        }

        let player_after_call = if node.street == Street::River {
            PLAYER_TERMINAL_FLAG
        } else {
            PLAYER_CHANCE_FLAG | player
        };
        let player_after_check = if player == PLAYER_OOP {
            opp
        } else {
            player_after_call
        };
        let mut amount = node.amount;
        let next_player = match added {
            Action::Fold => PLAYER_FOLD_FLAG | player,
            Action::Check => player_after_check,
            Action::Call => {
                amount = amount + to_call;
                player_after_call
            },
            Action::Bet(_) | Action::Raise(_) | Action::AllIn(_) => {
                amount = amount + to_call;
                opp
            },
            _ => {
                proof {
                    assert(false);
                }
                opp
            },
        };

        let child = ActionTreeNode::leaf(next_player, node.street, amount);
        let child_data = info.next(player, added);
        node.actions.insert(idx, added);
        node.children.insert(idx, child);
        proof {
            lemma_player_flags(next_player);
        }
        Self::build_subtree(config, &mut node.children[idx], child_data, propose, force_threshold);
        proof {
            let built = node.children@[idx as int];
            assert(node.actions@ == old_node.actions@.insert(idx as int, added));
            assert(node.children@ =~= old_node.children@.insert(idx as int, built));
            lemma_insert_child(*config, old_node, d, idx as int, added, built, *node);
            assert(walk(*node, d, lp) == walk(built, child_data, lp.drop_first()));
            assert(lp.drop_first() =~= Seq::<Action>::empty());
            assert(walk(old_node, d, lp) is None);
            assert forall|m: Seq<Action>|
                (#[trigger] walk(*node, d, m)) is Some && walk(old_node, d, m) is None implies lp.is_prefix_of(
                m,
            ) by {
                assert(m.len() > 0);
                assert(m[0] == added);
                assert(lp =~= m.subrange(0, 1));
            }
            assert(walk(built, child_data, lp.drop_first()) == Some((built, child_data)));
            if complete_node(old_node) {
                assert forall|k: int| 0 <= k < node.children@.len() implies complete_node(
                    #[trigger] node.children@[k],
                ) by {
                    if k < idx {
                        assert(node.children@[k] == old_node.children@[k]);
                    } else if k > idx {
                        assert(node.children@[k] == old_node.children@[k - 1]);
                    }
                }
            }
        }
        is_replaced
    }

    /// Adds `line` to the tree: its last action (a bet or raise of
    /// everything becomes an all-in) with the subtree that the sizing rules
    /// `propose` and `force_threshold` build below it. Where that all-in is
    /// already there it is inserted once more, with a subtree of its own,
    /// where the bet would stand: the node then holds it twice and the tree
    /// no longer keeps its invariant (see `duplicated_last`). A line that
    /// was removed before is
    /// taken off the removed lines (and may be any action that the tree
    /// allowed); any other is recorded, as added, among the added lines.
    pub fn add_line<F: Fn(Spot) -> (Vec<i32>, bool), G: Fn(i32) -> u32>(
        &mut self,
        line: &[Action],
        propose: &F,
        force_threshold: &G,
    ) -> (r: Result<(), String>)
        requires
            old(self).wf(),
            forall|s: Spot| call_requires(*propose, (s,)),
            forall|x: i32| call_requires(*force_threshold, (x,)),
        ensures
            !(r is Ok && added_present(old(self).root, old(self).root_data(), line@)) ==> final(self).wf(),
            final(self).config == old(self).config,
            final(self).history == old(self).history,
            complete_node(old(self).root) ==> complete_node(final(self).root),
            r is Ok <==> add_error(
                old(self).root,
                old(self).root_data(),
                line@,
                line_views(old(self).removed_lines@).contains(line@),
            ) is None,
            r matches Err(e) ==> Some(e@) == add_error(
                old(self).root,
                old(self).root_data(),
                line@,
                line_views(old(self).removed_lines@).contains(line@),
            ) && *final(self) == *old(self),
            r is Ok ==> {
                let lp = added_line(old(self).root, old(self).root_data(), line@);
                &&& walk(final(self).root, final(self).root_data(), lp) is Some
                &&& if added_present(old(self).root, old(self).root_data(), line@) {
                    duplicated_last(
                        *propose,
                        *force_threshold,
                        old(self).config,
                        old(self).root,
                        final(self).root,
                        old(self).root_data(),
                        line@,
                    )
                } else {
                    &&& forall|m: Seq<Action>|
                        walk(old(self).root, old(self).root_data(), m) is Some ==> (#[trigger] walk(
                            final(self).root,
                            final(self).root_data(),
                            m,
                        )) is Some
                    &&& walk(old(self).root, old(self).root_data(), lp) is None
                    &&& forall|m: Seq<Action>|
                        (#[trigger] walk(final(self).root, final(self).root_data(), m)) is Some && walk(
                            old(self).root,
                            old(self).root_data(),
                            m,
                        ) is None ==> lp.is_prefix_of(m)
                    &&& walk(final(self).root, final(self).root_data(), lp) matches Some(q)
                        ==> sized_tree(*propose, *force_threshold, old(self).config, q.0, q.1)
                }
                &&& if line_views(old(self).removed_lines@).contains(line@) {
                    &&& final(self).added_lines == old(self).added_lines
                    &&& exists|k: int|
                        0 <= k < old(self).removed_lines@.len() && old(self).removed_lines@[k]@
                            == line@ && (forall|j: int|
                            0 <= j < k ==> (#[trigger] old(self).removed_lines@[j])@ != line@)
                            && final(self).removed_lines@ == old(self).removed_lines@.remove(k)
                } else {
                    &&& line_views(final(self).added_lines@) == line_views(
                        old(self).added_lines@,
                    ).push(lp)
                    &&& final(self).removed_lines == old(self).removed_lines
                }
            },
    {
        let removed_idx = position_of_line(&self.removed_lines, line);
        let was_removed = removed_idx.is_some();
        proof {
            let views = line_views(self.removed_lines@);
            if views.contains(line@) {
                let k = choose|k: int| 0 <= k < views.len() && views[k] == line@;
                assert(self.removed_lines@[k]@ == line@);
            }
            match removed_idx {
                Some(k) => {
                    assert(views[k as int] == line@);
                    assert(line_allowed(0, self.config.initial_street, 0, self.root_data(), self.removed_lines@[k as int]@));
                },
                None => {},
            }
        }
        let info = TreeBuildData::new(self.config.effective_stack);
        let present = match Self::check_add(&self.root, line, &info, was_removed, Ghost(self.config)) {
            Ok(b) => b,
            Err(e) => {
                return Err(e);
            },
        };
        let config = self.config;
        let ghost old_root = self.root;
        let is_replaced = if present {
            proof {
                lemma_added_present_walk(config, old_root, info, line@, was_removed);
                lemma_added_last_shape(old_root, info, line@);
            }
            // The all-in that the line's last bet becomes is already there:
            // it is inserted once more, where the bet would stand.
            Self::insert_duplicate(&config, &mut self.root, line, &info, was_removed, propose, force_threshold);
            proof {
                lemma_duplicated_last(*propose, *force_threshold, config, old_root, self.root, info, line@, was_removed);
            }
            true
        } else {
            let rep = Self::insert_line(&config, &mut self.root, line, &info, was_removed, propose, force_threshold);
            proof {
                assert forall|m: Seq<Action>| walk(old_root, info, m) is Some implies (#[trigger] walk(
                    self.root,
                    info,
                    m,
                )) is Some by {}
            }
            rep
        };
        match removed_idx {
            Some(idx) => {
                let ghost before = self.removed_lines@;
                self.removed_lines.remove(idx);
                proof {
                    assert forall|i: int| 0 <= i < self.removed_lines@.len() implies line_allowed(
                        0,
                        self.config.initial_street,
                        0,
                        self.root_data(),
                        #[trigger] self.removed_lines@[i]@,
                    ) by {
                        let oi = if i < idx { i } else { i + 1 };
                        assert(self.removed_lines@[i] == before[oi]);
                    }
                }
            },
            None => {
                let mut added = copy_line(line);
                if is_replaced {
                    let last = added.len() - 1;
                    match added[last] {
                        Action::Bet(amount) => added.set(last, Action::AllIn(amount)),
                        Action::Raise(amount) => added.set(last, Action::AllIn(amount)),
                        _ => {},
                    }
                }
                proof {
                    lemma_added_last_shape(old_root, info, line@);
                    assert(added@ =~= added_line(old_root, info, line@));
                }
                let ghost before = self.added_lines@;
                self.added_lines.push(added);
                proof {
                    assert(line_views(self.added_lines@) =~= line_views(before).push(
                        added_line(old_root, info, line@),
                    ));
                }
            },
        }
        Ok(())
    }

    /// Adds the action `action` after the history (see `add_line`).
    pub fn add_action<F: Fn(Spot) -> (Vec<i32>, bool), G: Fn(i32) -> u32>(
        &mut self,
        action: Action,
        propose: &F,
        force_threshold: &G,
    ) -> (r: Result<(), String>)
        requires
            old(self).wf(),
            forall|s: Spot| call_requires(*propose, (s,)),
            forall|x: i32| call_requires(*force_threshold, (x,)),
        ensures
            !(r is Ok && added_present(old(self).root, old(self).root_data(), old(self).history@.push(action)))
                ==> final(self).wf(),
            final(self).config == old(self).config,
            final(self).history == old(self).history,
            complete_node(old(self).root) ==> complete_node(final(self).root),
            r is Ok <==> add_error(
                old(self).root,
                old(self).root_data(),
                old(self).history@.push(action),
                line_views(old(self).removed_lines@).contains(old(self).history@.push(action)),
            ) is None,
            r is Ok ==> {
                let lp = added_line(old(self).root, old(self).root_data(), old(self).history@.push(action));
                &&& walk(final(self).root, final(self).root_data(), lp) is Some
                &&& added_present(old(self).root, old(self).root_data(), old(self).history@.push(action))
                    ==> duplicated_last(
                        *propose,
                        *force_threshold,
                        old(self).config,
                        old(self).root,
                        final(self).root,
                        old(self).root_data(),
                        old(self).history@.push(action),
                    )
                &&& !added_present(old(self).root, old(self).root_data(), old(self).history@.push(action))
                    ==> (forall|m: Seq<Action>|
                        walk(old(self).root, old(self).root_data(), m) is Some ==> (#[trigger] walk(
                            final(self).root,
                            final(self).root_data(),
                            m,
                        )) is Some) && walk(old(self).root, old(self).root_data(), lp) is None
                        && (walk(final(self).root, final(self).root_data(), lp) matches Some(q)
                        ==> sized_tree(*propose, *force_threshold, old(self).config, q.0, q.1))
            },
    {
        let mut action_line = copy_line(self.history.as_slice());
        action_line.push(action);
        self.add_line(action_line.as_slice(), propose, force_threshold)
    }
}

} // verus!
