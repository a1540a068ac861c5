//! Nodes of the action tree and the rules that a well-formed tree obeys.

use vstd::prelude::*;
use crate::Street;
use crate::action::{Action, strictly_sorted, is_bet_action};
use crate::build_data::{TreeBuildData, next_data, next_in_range};
use crate::config::{TreeParams, params_ok};
use crate::player::{
    PLAYER_TERMINAL_FLAG, PLAYER_CHANCE_FLAG, PLAYER_FOLD_FLAG, is_terminal_player,
    is_chance_player,
};

verus! {

/// A node of the action tree: who acts (or the chance/terminal flags), on
/// which street, how much each player has put in on earlier actions, and
/// the actions with the node that each leads to. `children[i]` follows
/// `actions[i]`.
#[derive(Debug)]
pub struct ActionTreeNode {
    pub player: u8,
    pub street: Street,
    pub amount: i32,
    pub actions: Vec<Action>,
    pub children: Vec<ActionTreeNode>,
}

/// The street after `s` (the river has none; it maps to itself).
pub open spec fn next_street(s: Street) -> Street {
    match s {
        Street::Flop => Street::Turn,
        Street::Turn => Street::River,
        Street::River => Street::River,
    }
}

/// Whether the player to act faces a bet.
pub open spec fn is_facing(d: TreeBuildData) -> bool {
    !(d.last_action is NoAction || d.last_action is Check || d.last_action is Chance)
}

/// What `player` must put in to call.
pub open spec fn to_call_of(d: TreeBuildData, player: int) -> int {
    d.stacks[player] - d.stacks[1 - player]
}

/// The largest amount `player` can bet or raise to: the opponent's stack on top of the last bet.
pub open spec fn max_amount_of(d: TreeBuildData, player: int) -> int {
    d.stacks[1 - player] + d.last_amount
}

/// `x` limited to `lo..=hi`.
pub open spec fn clamp_int(x: int, lo: int, hi: int) -> int {
    if x < lo {
        lo
    } else if x > hi {
        hi
    } else {
        x
    }
}

/// The smallest amount `player` can bet or raise to.
pub open spec fn min_amount_of(d: TreeBuildData, player: int) -> int {
    clamp_int(d.last_amount + to_call_of(d, player), 1, max_amount_of(d, player))
}

/// The actions that `player` may take in state `d`: check when not facing a
/// bet; fold or call when facing one; bet or raise to an amount from the
/// minimum up to (not including) the maximum; go all-in for the maximum,
/// unless the opponent is already all-in.
pub open spec fn allowed(d: TreeBuildData, player: int, a: Action) -> bool {
    let facing = is_facing(d);
    let min = min_amount_of(d, player);
    let max = max_amount_of(d, player);
    match a {
        Action::Check => !facing,
        Action::Fold => facing,
        Action::Call => facing,
        Action::Bet(n) => !facing && min <= n < max,
        Action::Raise(n) => facing && !d.all_in && min <= n < max,
        Action::AllIn(n) => n == max && !(facing && d.all_in),
        _ => false,
    }
}

/// The state at a decision node of `player` with `amount` put in by each
/// player before: stacks between 0 and the effective stack, the player to
/// act holding at least as much as the opponent, and the betting history
/// consistent with the stacks.
pub open spec fn sane_decision(eff: int, amount: int, d: TreeBuildData, player: int) -> bool {
    let mine = d.stacks[player] as int;
    let theirs = d.stacks[1 - player] as int;
    &&& 0 <= theirs <= mine <= eff
    &&& amount == eff - mine
    &&& 0 <= d.last_amount
    &&& theirs + d.last_amount <= eff
    &&& (d.last_action is NoAction || d.last_action is Check || d.last_action is Chance
        || d.last_action is Bet || d.last_action is Raise || d.last_action is AllIn)
    &&& !is_facing(d) ==> mine == theirs && d.last_amount == 0 && d.num_bets == 0 && 1 <= theirs
        && !d.all_in && (player == 0 <==> !(d.last_action is Check))
    &&& is_facing(d) ==> {
        &&& 1 <= mine - theirs <= d.last_amount
        &&& 1 <= d.num_bets <= eff - theirs
        &&& (d.all_in <==> theirs == 0)
        &&& (d.all_in <==> d.last_action is AllIn)
    }
}

/// Both stacks lie between 0 and `eff`.
pub open spec fn stacks_within(eff: int, d: TreeBuildData) -> bool {
    0 <= d.stacks[0] <= eff && 0 <= d.stacks[1] <= eff
}

/// The state at a chance node: the street's betting is closed with equal
/// stacks.
pub open spec fn sane_chance(eff: int, amount: int, d: TreeBuildData) -> bool {
    &&& d.stacks[0] == d.stacks[1]
    &&& 0 <= d.stacks[0] <= eff
    &&& amount == eff - d.stacks[0]
    &&& d.last_amount == 0
    &&& d.num_bets == 0
    &&& (!d.all_in ==> 1 <= d.stacks[0])
    &&& (d.all_in ==> d.stacks[0] == 0)
}

/// Who acts after a call by `player` on `street`: the river ends the hand,
/// other streets go to a chance node.
pub open spec fn player_after_call(street: Street, player: int) -> int {
    if street == Street::River {
        PLAYER_TERMINAL_FLAG as int
    } else {
        PLAYER_CHANCE_FLAG as int + player
    }
}

/// Who acts after a check by `player`: IP after OOP, else as after a call.
pub open spec fn player_after_check(street: Street, player: int) -> int {
    if player == 0 {
        1
    } else {
        player_after_call(street, player)
    }
}

/// The player value of the node that `a` by `player` leads to.
pub open spec fn child_player(street: Street, player: int, a: Action) -> int {
    match a {
        Action::Fold => PLAYER_FOLD_FLAG as int + player,
        Action::Check => player_after_check(street, player),
        Action::Call => player_after_call(street, player),
        _ => 1 - player,
    }
}

/// The amount of the node that `a` leads to: calls and bets first match the
/// opponent.
pub open spec fn child_amount(amount: int, d: TreeBuildData, player: int, a: Action) -> int {
    if a is Call || is_bet_action(a) {
        amount + to_call_of(d, player)
    } else {
        amount
    }
}

/// `child` has the header that `a` by `node.player` in state `d` gives.
pub open spec fn child_header_ok(node: ActionTreeNode, d: TreeBuildData, a: Action, child: ActionTreeNode) -> bool {
    &&& child.player as int == child_player(node.street, node.player as int, a)
    &&& child.street == node.street
    &&& child.amount as int == child_amount(node.amount as int, d, node.player as int, a)
}

/// The player value after a chance node: play resumes with OOP unless
/// someone is all-in, in which case the board is dealt out.
pub open spec fn chance_child_player(street: Street, d: TreeBuildData) -> int {
    if !d.all_in {
        0
    } else if street == Street::Flop {
        (PLAYER_CHANCE_FLAG + 2) as int
    } else {
        PLAYER_TERMINAL_FLAG as int
    }
}

/// `child` has the header of the node after the chance node `node`.
pub open spec fn chance_header_ok(node: ActionTreeNode, d: TreeBuildData, child: ActionTreeNode) -> bool {
    &&& child.player as int == chance_child_player(node.street, d)
    &&& child.street == next_street(node.street)
    &&& child.amount == node.amount
}

/// The state after a chance node.
pub open spec fn chance_data(d: TreeBuildData) -> TreeBuildData {
    next_data(d, 0, Action::Chance(0))
}

/// A well-formed subtree rooted at `node`, reached in state `d`: terminal
/// nodes have no actions; a chance node has the one action `Chance(0)` and
/// the node that follows it; a decision node belongs to player 0 or 1, has
/// its actions strictly sorted, each allowed, each with the child that it
/// leads to; and all of this holds below.
pub open spec fn wf_node(c: TreeParams, node: ActionTreeNode, d: TreeBuildData) -> bool
    decreases node,
{
    let eff = c.effective_stack as int;
    &&& node.actions@.len() == node.children@.len()
    &&& if is_terminal_player(node.player) {
        node.actions@.len() == 0 && !is_chance_player(node.player) && stacks_within(eff, d)
    } else if is_chance_player(node.player) {
        &&& sane_chance(eff, node.amount as int, d)
        &&& node.street != Street::River
        &&& node.actions@ == seq![Action::Chance(0)]
        &&& chance_header_ok(node, d, node.children@[0])
        &&& wf_node(c, node.children@[0], chance_data(d))
    } else {
        &&& node.player <= 1
        &&& sane_decision(eff, node.amount as int, d, node.player as int)
        &&& strictly_sorted(node.actions@)
        &&& forall|i: int|
            0 <= i < node.actions@.len() ==> allowed(d, node.player as int, #[trigger] node.actions@[i])
        &&& forall|i: int|
            0 <= i < node.actions@.len() ==> child_header_ok(
                node,
                d,
                node.actions@[i],
                #[trigger] node.children@[i],
            )
        &&& forall|i: int|
            0 <= i < node.actions@.len() ==> wf_node(
                c,
                #[trigger] node.children@[i],
                next_data(d, node.player as int, node.actions@[i]),
            )
    }
}

/// Every node of the subtree at `node` is terminal or has an action.
pub open spec fn complete_node(node: ActionTreeNode) -> bool
    decreases node,
{
    &&& (is_terminal_player(node.player) || node.children@.len() > 0)
    &&& forall|i: int| 0 <= i < node.children@.len() ==> complete_node(#[trigger] node.children@[i])
}

/// The number of nodes in the subtree at `node`.
pub open spec fn count_nodes(node: ActionTreeNode) -> nat
    decreases node,
{
    1 + count_nodes_seq(node.children@)
}

/// The number of nodes in the subtrees at `s`.
pub open spec fn count_nodes_seq(s: Seq<ActionTreeNode>) -> nat
    decreases s,
{
    if s.len() == 0 {
        0
    } else {
        count_nodes_seq(s.drop_last()) + count_nodes(s.last())
    }
}

/// How many streets are left to deal after `s`.
pub open spec fn street_rank(s: Street) -> int {
    match s {
        Street::Flop => 2,
        Street::Turn => 1,
        Street::River => 0,
    }
}

/// How far a node is from the end of its street's betting when no chips go
/// in: OOP to open, IP after a check, facing a bet, or neither (chance and
/// terminal nodes).
pub open spec fn phase(player: int, d: TreeBuildData) -> int {
    if 0 <= player <= 1 {
        if is_facing(d) {
            1
        } else if d.last_action is Check {
            2
        } else {
            3
        }
    } else {
        0
    }
}

/// Both stacks summed.
pub open spec fn stack_sum(d: TreeBuildData) -> int {
    d.stacks[0] + d.stacks[1]
}

/// A node that is about to be built: no actions yet, and a header and state
/// that fit its kind.
pub open spec fn header_ready(c: TreeParams, node: ActionTreeNode, d: TreeBuildData) -> bool {
    let eff = c.effective_stack as int;
    &&& node.actions@.len() == 0
    &&& node.children@.len() == 0
    &&& 0 <= d.stacks[0]
    &&& 0 <= d.stacks[1]
    &&& if is_terminal_player(node.player) {
        !is_chance_player(node.player) && stacks_within(eff, d)
    } else if is_chance_player(node.player) {
        sane_chance(eff, node.amount as int, d) && node.street != Street::River
    } else {
        node.player <= 1 && sane_decision(eff, node.amount as int, d, node.player as int)
    }
}

/// An allowed action from a sane decision node computes in range, leads to a
/// node whose state is sane again, and puts chips in or moves the betting on.
pub proof fn lemma_decision_step(
    c: TreeParams,
    street: Street,
    amount: int,
    d: TreeBuildData,
    p: int,
    a: Action,
)
    requires
        params_ok(c),
        0 <= p <= 1,
        sane_decision(c.effective_stack as int, amount, d, p),
        allowed(d, p, a),
    ensures
        next_in_range(d, p, a),
        ({
            let eff = c.effective_stack as int;
            let nd = next_data(d, p, a);
            let cp = child_player(street, p, a);
            let ca = child_amount(amount, d, p, a);
            &&& 0 <= ca <= eff
            &&& stacks_within(eff, nd)
            &&& (0 <= cp <= 1 ==> sane_decision(eff, ca, nd, cp))
            &&& (cp == 4 + p ==> sane_chance(eff, ca, nd))
            &&& (stack_sum(nd) < stack_sum(d) || (stack_sum(nd) == stack_sum(d) && phase(cp, nd)
                < phase(p, d)))
        }),
{
    let eff = c.effective_stack as int;
    let nd = next_data(d, p, a);
    let mine = d.stacks[p] as int;
    let theirs = d.stacks[1 - p] as int;
    let max = max_amount_of(d, p);
    let t = to_call_of(d, p);
    let l = d.last_amount as int;
    match a {
        Action::Bet(n) => {
            assert(min_amount_of(d, p) == 1);
            assert(nd.stacks[p] == mine - n);
            assert(nd.stacks[1 - p] == theirs);
        },
        Action::Raise(n) => {
            assert(l + t < max);
            assert(n >= l + t);
            assert(nd.stacks[p] == theirs - (n - l));
            assert(nd.stacks[1 - p] == theirs);
        },
        Action::AllIn(n) => {
            assert(nd.stacks[p] == 0);
            assert(nd.stacks[1 - p] == theirs);
        },
        Action::Call => {
            assert(nd.stacks[0] == theirs && nd.stacks[1] == theirs);
        },
        _ => {},
    }
}

/// From a sane chance node the board deal leads to a sane node of the next
/// street.
pub proof fn lemma_chance_step(c: TreeParams, street: Street, amount: int, d: TreeBuildData)
    requires
        params_ok(c),
        sane_chance(c.effective_stack as int, amount, d),
        street != Street::River,
    ensures
        ({
            let eff = c.effective_stack as int;
            let nd = chance_data(d);
            let cp = chance_child_player(street, d);
            &&& (cp == 0 ==> sane_decision(eff, amount, nd, 0))
            &&& (cp == 6 ==> sane_chance(eff, amount, nd) && next_street(street) != Street::River)
            &&& street_rank(next_street(street)) < street_rank(street)
            &&& 0 <= nd.stacks[0]
            &&& 0 <= nd.stacks[1]
        }),
{
}

/// A prefix of a sequence of subtrees has no more nodes than the whole.
pub proof fn lemma_count_prefix(s: Seq<ActionTreeNode>, k: int)
    requires
        0 <= k <= s.len(),
    ensures
        count_nodes_seq(s.take(k)) <= count_nodes_seq(s),
        k > 0 ==> count_nodes_seq(s.take(k)) == count_nodes_seq(s.take(k - 1)) + count_nodes(s[k - 1]),
    decreases s.len() - k,
{
    if k > 0 {
        assert(s.take(k).drop_last() =~= s.take(k - 1));
    }
    if k < s.len() {
        lemma_count_prefix(s, k + 1);
        assert(s.take(k + 1).drop_last() =~= s.take(k));
    } else {
        assert(s.take(k) =~= s);
    }
}

impl ActionTreeNode {
    /// At terminal nodes, no further actions are possible.
    pub fn is_terminal(&self) -> (r: bool)
        ensures
            r == is_terminal_player(self.player),
    {
        self.player & PLAYER_TERMINAL_FLAG != 0
    }

    /// Chance nodes deal the next street.
    pub fn is_chance(&self) -> (r: bool)
        ensures
            r == is_chance_player(self.player),
    {
        self.player & PLAYER_CHANCE_FLAG != 0
    }

    /// Adds the number of nodes in this subtree to `total`.
    pub fn num_nodes_internal(&self, total: &mut usize)
        requires
            *old(total) + count_nodes(*self) <= usize::MAX,
        ensures
            *final(total) == *old(total) + count_nodes(*self),
        decreases *self,
    {
        *total += 1;
        let n = self.children.len();
        for i in 0..n
            invariant
                n == self.children@.len(),
                *total == *old(total) + 1 + count_nodes_seq(self.children@.take(i as int)),
                *old(total) + count_nodes(*self) <= usize::MAX,
        {
            proof {
                lemma_count_prefix(self.children@, i + 1);
                assert(self.children@.take(i + 1).drop_last() =~= self.children@.take(i as int));
            }
            self.children[i].num_nodes_internal(total);
        }
        proof {
            assert(self.children@.take(n as int) =~= self.children@);
        }
    }

    /// `total` plus the number of nodes in this subtree, or `None` when that
    /// does not fit in a `usize`.
    pub fn checked_num_nodes(&self, total: usize) -> (r: Option<usize>)
        ensures
            r matches Some(n) ==> n == total + count_nodes(*self),
            r is None <==> total + count_nodes(*self) > usize::MAX,
        decreases *self,
    {
        if total == usize::MAX {
            return None;
        }
        let mut t: usize = total + 1;
        let n = self.children.len();
        for i in 0..n
            invariant
                n == self.children@.len(),
                t == total + 1 + count_nodes_seq(self.children@.take(i as int)),
        {
            proof {
                lemma_count_prefix(self.children@, i + 1);
                assert(self.children@.take(i + 1).drop_last() =~= self.children@.take(i as int));
            }
            match self.children[i].checked_num_nodes(t) {
                Some(next) => {
                    t = next;
                },
                None => {
                    proof {
                        lemma_count_prefix(self.children@, i + 1);
                    }
                    return None;
                },
            }
        }
        proof {
            assert(self.children@.take(n as int) =~= self.children@);
        }
        Some(t)
    }

    /// A node with the given header and no actions yet.
    pub fn leaf(player: u8, street: Street, amount: i32) -> (r: ActionTreeNode)
        ensures
            r.player == player,
            r.street == street,
            r.amount == amount,
            r.actions@.len() == 0,
            r.children@.len() == 0,
    {
        ActionTreeNode { player, street, amount, actions: Vec::new(), children: Vec::new() }
    }
}

} // verus!

verus! {

/// `x` limited to `lo..=hi` (as `Ord::clamp`, which needs `lo <= hi`).
pub fn clamp_i32(x: i32, lo: i32, hi: i32) -> (r: i32)
    requires
        lo <= hi,
    ensures
        r as int == clamp_int(x as int, lo as int, hi as int),
{
    if x < lo {
        lo
    } else if x > hi {
        hi
    } else {
        x
    }
}

} // verus!
