//! Properties that the library's operations keep, stated over their
//! inputs and results: of the action tree and its editing, of the bet
//! totals in play, of range items, of node counts and of suit isomorphism.

use vstd::prelude::*;
use crate::action::Action;
use crate::build_data::TreeBuildData;
use crate::config::TreeParams;
use crate::node::{ActionTreeNode, complete_node, wf_node, chance_data};
use crate::build_data::next_data;
use crate::player::{is_terminal_player, is_chance_player};
use crate::node::{min_amount_of, max_amount_of};
use crate::game_play::bet_totals_after;
use crate::range::{item2, item3, item4, item5, run, elem_index, rank_of_char, Outcome, RangeElem, Weight};
use crate::postflop::{street_coeffs, Card, NOT_DEALT, iso_refs, iso_cards, is_mirrored};
use crate::isomorphism::{
    partner, river_iso, river_refs, river_cards, flop_ranks, turn_ranks, iso_suits, not_a_turn,
};
use crate::tree::{
    ActionTree, walk, invalid_lines, invalid_lines_children, zip_len, add_error, added_action,
    lemma_walk_prefix, lemma_prefix_first, line_views, unprefixed,
};

verus! {

/// A tree in which every node is terminal or has an action has no invalid
/// terminal lines: a freshly built tree reports none.
pub proof fn law_complete_tree_has_no_invalid_terminals(node: ActionTreeNode, line: Seq<Action>)
    requires
        complete_node(node),
    ensures
        invalid_lines(node, line) == Seq::<Seq<Action>>::empty(),
    decreases node,
{
    if !is_terminal_player(node.player) {
        if is_chance_player(node.player) {
            law_complete_tree_has_no_invalid_terminals(node.children@[0], line);
        } else {
            lemma_children_no_invalid(node, line, zip_len(node));
        }
    }
}

proof fn lemma_children_no_invalid(node: ActionTreeNode, line: Seq<Action>, k: int)
    requires
        complete_node(node),
        0 <= k <= zip_len(node),
    ensures
        invalid_lines_children(node, line, k) == Seq::<Seq<Action>>::empty(),
    decreases node, k,
{
    if k > 0 {
        lemma_children_no_invalid(node, line, k - 1);
        law_complete_tree_has_no_invalid_terminals(
            node.children@[k - 1],
            line.push(node.actions@[k - 1]),
        );
        assert(Seq::<Seq<Action>>::empty() + Seq::<Seq<Action>>::empty() =~= Seq::<
            Seq<Action>,
        >::empty());
    }
}

/// Removing the line that adding `line` gave restores the lines of the
/// tree: if `after_add` has every line of `before`, the added line `lp`
/// (which `before` lacks) and otherwise only lines that extend `lp`, and
/// `after_remove` has the lines of `after_add` that do not extend `lp`,
/// then `after_remove` has exactly the lines of `before`.
pub proof fn law_remove_undoes_add(
    before: ActionTreeNode,
    after_add: ActionTreeNode,
    after_remove: ActionTreeNode,
    d: TreeBuildData,
    lp: Seq<Action>,
)
    requires
        walk(before, d, lp) is None,
        forall|m: Seq<Action>|
            walk(before, d, m) is Some ==> (#[trigger] walk(after_add, d, m)) is Some,
        forall|m: Seq<Action>|
            (#[trigger] walk(after_add, d, m)) is Some && walk(before, d, m) is None
                ==> lp.is_prefix_of(m),
        forall|m: Seq<Action>|
            (#[trigger] walk(after_remove, d, m) is Some) <==> (walk(after_add, d, m) is Some
                && !lp.is_prefix_of(m)),
    ensures
        forall|m: Seq<Action>|
            (#[trigger] walk(after_remove, d, m) is Some) <==> (walk(before, d, m) is Some),
{
    assert forall|m: Seq<Action>|
        (#[trigger] walk(after_remove, d, m) is Some) <==> (walk(before, d, m) is Some) by {
        if walk(before, d, m) is Some && lp.is_prefix_of(m) {
            crate::tree::lemma_walk_prefix(before, d, lp, m);
        }
        if walk(after_add, d, m) is Some && walk(before, d, m) is None {
            assert(lp.is_prefix_of(m));
        }
    }
}

/// A line that exists in the subtree at `old_node` and whose removal left
/// `new_node` (same header, same state, every line but those that extend
/// it) can be added to `new_node` again as a removed line.
proof fn lemma_readd(
    c: TreeParams,
    old_node: ActionTreeNode,
    new_node: ActionTreeNode,
    d: TreeBuildData,
    line: Seq<Action>,
)
    requires
        wf_node(c, old_node, d),
        wf_node(c, new_node, d),
        new_node.player == old_node.player,
        new_node.street == old_node.street,
        new_node.amount == old_node.amount,
        line.len() > 0,
        walk(old_node, d, line) is Some,
        forall|m: Seq<Action>|
            (#[trigger] walk(new_node, d, m) is Some) <==> (walk(old_node, d, m) is Some
                && !line.is_prefix_of(m)),
    ensures
        add_error(new_node, d, line, true) is None,
    decreases line.len(), old_node,
{
    if is_chance_player(old_node.player) {
        let cd = chance_data(d);
        let oc = old_node.children@[0];
        let nc = new_node.children@[0];
        assert forall|m: Seq<Action>|
            (#[trigger] walk(nc, cd, m) is Some) <==> (walk(oc, cd, m) is Some && !line.is_prefix_of(m)) by {
            if m.len() > 0 {
                assert(walk(new_node, d, m) == walk(nc, cd, m));
                assert(walk(old_node, d, m) == walk(oc, cd, m));
            } else {
                assert(!line.is_prefix_of(m));
            }
        }
        lemma_readd(c, oc, nc, cd, line);
    } else {
        let p = old_node.player as int;
        let a = line[0];
        let first = seq![a];
        assert(first.is_prefix_of(line));
        lemma_walk_prefix(old_node, d, first, line);
        assert(old_node.actions@.contains(a));
        let oi = old_node.actions@.index_of(a);
        assert(allowed_at(old_node, d, oi));
        if line.len() > 1 {
            assert(!line.is_prefix_of(first));
            assert(walk(new_node, d, first) is Some);
            assert(new_node.actions@.contains(a));
            let ni = new_node.actions@.index_of(a);
            let nd = next_data(d, p, a);
            let oc = old_node.children@[oi];
            let nc = new_node.children@[ni];
            let rest = line.drop_first();
            assert forall|m: Seq<Action>|
                (#[trigger] walk(nc, nd, m) is Some) <==> (walk(oc, nd, m) is Some && !rest.is_prefix_of(m)) by {
                let am = seq![a] + m;
                assert(am.len() > 0 && am[0] == a);
                assert(am.drop_first() =~= m);
                assert(walk(new_node, d, am) == walk(nc, nd, m));
                assert(walk(old_node, d, am) == walk(oc, nd, m));
                lemma_prefix_first(line, am);
            }
            assert(line.drop_first() =~= rest);
            lemma_readd(c, oc, nc, nd, rest);
        } else {
            assert(line =~= first);
            if new_node.actions@.contains(a) {
                assert(first.drop_first() =~= Seq::<Action>::empty());
                assert(!is_chance_player(new_node.player));
                assert(first[0] == a);
                assert(new_node.actions@.len() == new_node.children@.len());
                assert(walk(
                    new_node.children@[new_node.actions@.index_of(a)],
                    next_data(d, p, a),
                    first.drop_first(),
                ) is Some);
                assert(walk(new_node, d, first) is Some);
                assert(line.is_prefix_of(first));
            }
            assert(added_action(d, p, a) == a);
        }
    }
}

/// The action at position `i` of a decision node is allowed there.
spec fn allowed_at(node: ActionTreeNode, d: TreeBuildData, i: int) -> bool {
    crate::node::allowed(d, node.player as int, node.actions@[i])
}

/// A line that was removed from a tree can be added back: if `after` is
/// `before` with the existing, nonempty `line` and every line that extends
/// it removed (as `remove_line` leaves it, with `line` among the removed
/// lines), then adding `line` as a removed line meets no error.
pub proof fn law_removed_line_can_be_added_back(before: ActionTree, after: ActionTree, line: Seq<Action>)
    requires
        before.wf(),
        after.wf(),
        after.config == before.config,
        line.len() > 0,
        walk(before.root, before.root_data(), line) is Some,
        forall|m: Seq<Action>|
            (#[trigger] walk(after.root, after.root_data(), m) is Some) <==> (walk(
                before.root,
                before.root_data(),
                m,
            ) is Some && !line.is_prefix_of(m)),
    ensures
        add_error(after.root, after.root_data(), line, true) is None,
{
    lemma_readd(before.config, before.root, after.root, before.root_data(), line);
}

/// A list in which no line starts with `p` keeps every line.
proof fn lemma_unprefixed_keeps_all(lines: Seq<Seq<Action>>, p: Seq<Action>)
    requires
        forall|i: int| 0 <= i < lines.len() ==> !p.is_prefix_of(#[trigger] lines[i]),
    ensures
        unprefixed(lines, p) == lines,
    decreases lines.len(),
{
    if lines.len() > 0 {
        assert(lines[lines.len() - 1] == lines.last());
        assert forall|i: int| 0 <= i < lines.drop_last().len() implies !p.is_prefix_of(
            #[trigger] lines.drop_last()[i],
        ) by {
            assert(lines.drop_last()[i] == lines[i]);
        }
        lemma_unprefixed_keeps_all(lines.drop_last(), p);
        assert(lines.drop_last().push(lines.last()) =~= lines);
    }
}

/// Removing the line that adding a line recorded restores the recorded
/// lines: if adding to `before` (a tree with its invariant) recorded the
/// added line `lp`, which `before` lacked and had not recorded as removed,
/// among the added lines and left the removed lines, and `after_remove`
/// records the lines as removing `lp` leaves them, then the added and the
/// removed lines are those of `before` again.
pub proof fn law_remove_undoes_add_lines(
    before: ActionTree,
    after_add: ActionTree,
    after_remove: ActionTree,
    lp: Seq<Action>,
)
    requires
        before.wf(),
        walk(before.root, before.root_data(), lp) is None,
        !line_views(before.removed_lines@).contains(lp),
        line_views(after_add.added_lines@) == line_views(before.added_lines@).push(lp),
        after_add.removed_lines == before.removed_lines,
        line_views(after_remove.added_lines@) == unprefixed(line_views(after_add.added_lines@), lp),
        line_views(after_remove.removed_lines@) == if line_views(after_add.added_lines@).contains(lp) {
            unprefixed(line_views(after_add.removed_lines@), lp)
        } else {
            unprefixed(line_views(after_add.removed_lines@), lp).push(lp)
        },
    ensures
        line_views(after_remove.added_lines@) == line_views(before.added_lines@),
        line_views(after_remove.removed_lines@) == line_views(before.removed_lines@),
{
    let d = before.root_data();
    let added = line_views(before.added_lines@);
    let removed = line_views(before.removed_lines@);
    assert(added.push(lp)[added.len() as int] == lp);
    assert(added.push(lp).contains(lp));
    assert(added.push(lp).drop_last() =~= added);
    assert(added.push(lp).last() == lp);
    assert(lp.is_prefix_of(lp)) by {
        assert(lp =~= lp.subrange(0, lp.len() as int));
    }
    assert forall|i: int| 0 <= i < added.len() implies !lp.is_prefix_of(#[trigger] added[i]) by {
        assert(added[i] == before.added_lines@[i]@);
        if lp.is_prefix_of(added[i]) {
            lemma_walk_prefix(before.root, d, lp, added[i]);
        }
    }
    lemma_unprefixed_keeps_all(added, lp);
    assert forall|i: int| 0 <= i < removed.len() implies !lp.is_prefix_of(#[trigger] removed[i]) by {
        let x = removed[i];
        assert(x == before.removed_lines@[i]@);
        if lp.is_prefix_of(x) {
            if lp.len() == x.len() {
                assert(lp =~= x);
                assert(removed.contains(lp));
            } else {
                assert(lp.is_prefix_of(x.drop_last())) by {
                    assert(lp =~= x.drop_last().subrange(0, lp.len() as int));
                }
                lemma_walk_prefix(before.root, d, lp, x.drop_last());
            }
        }
    }
    lemma_unprefixed_keeps_all(removed, lp);
}

/// A raise to an amount from the minimum up to (not including) the maximum
/// can be added at any decision node that faces a bet or a raise (and no
/// all-in), where it is not an action yet: a re-raise is accepted as a raise
/// over a bet is, and it is added as it is.
pub proof fn law_raise_in_range_can_be_added(
    c: TreeParams,
    node: ActionTreeNode,
    d: TreeBuildData,
    n: i32,
    was_removed: bool,
)
    requires
        wf_node(c, node, d),
        !is_terminal_player(node.player),
        !is_chance_player(node.player),
        d.last_action is Bet || d.last_action is Raise,
        !d.all_in,
        min_amount_of(d, node.player as int) <= n < max_amount_of(d, node.player as int),
        !node.actions@.contains(Action::Raise(n)),
    ensures
        add_error(node, d, seq![Action::Raise(n)], was_removed) is None,
        added_action(d, node.player as int, Action::Raise(n)) == Action::Raise(n),
{
}

/// After a bet, raise or all-in to `n` by `p` over a bet, raise or all-in
/// to `m`, the player has put in what the opponent has plus `n - m`; the
/// opponent's total is unchanged.
pub proof fn law_bet_over_bet_totals(total: Seq<i32>, p: int, last: Action, action: Action, m: i32, n: i32)
    requires
        total.len() == 2,
        0 <= p < 2,
        last == Action::Bet(m) || last == Action::Raise(m) || last == Action::AllIn(m),
        action == Action::Bet(n) || action == Action::Raise(n) || action == Action::AllIn(n),
    ensures
        bet_totals_after(total, p, last, action)[p] == total[1 - p] + n - m,
        bet_totals_after(total, p, last, action)[1 - p] == total[1 - p],
{
}

/// A bet, raise or all-in to `n` where none was faced brings the player to
/// the opponent's total plus `n`; a call brings the player to the opponent's
/// total; the opponent's total is unchanged either way.
pub proof fn law_bet_or_call_totals(total: Seq<i32>, p: int, last: Action, action: Action, n: i32)
    requires
        total.len() == 2,
        0 <= p < 2,
    ensures
        !(last is Bet || last is Raise || last is AllIn) && (action == Action::Bet(n) || action
            == Action::Raise(n) || action == Action::AllIn(n)) ==> bet_totals_after(total, p, last, action)[p]
            == total[1 - p] + n,
        action == Action::Call ==> bet_totals_after(total, p, last, action)[p] == total[1 - p],
        bet_totals_after(total, p, last, action)[1 - p] == total[1 - p],
{
}

/// The slots of `run` with stride 1: those from `base + lo` up to (not
/// including) `base + n` hold `w`, the others are unchanged.
proof fn lemma_run_slots(t: Seq<Option<Weight>>, base: int, lo: int, n: int, w: Weight)
    requires
        0 <= base,
        0 <= lo,
        base + n <= t.len(),
    ensures
        run(t, base, 1, lo, n, w).len() == t.len(),
        forall|i: int|
            0 <= i < t.len() ==> #[trigger] run(t, base, 1, lo, n, w)[i] == if base + lo <= i < base + n {
                Some(w)
            } else {
                t[i]
            },
    decreases n - lo,
{
    if n > lo {
        lemma_run_slots(t, base, lo, n - 1, w);
    }
}

/// The class of the higher rank `x` with the kicker `k`: suited for an
/// item marked `s`, offsuit otherwise.
pub open spec fn kicker_class(mark: char, x: u8, k: int) -> RangeElem {
    if mark == 's' {
        RangeElem::Suited(x, k as u8)
    } else {
        RangeElem::Offsuit(x, k as u8)
    }
}

/// An item `XYs+` or `XYo+` (ranks X above Y, in either order) sets to the
/// weight exactly the suited (or offsuit) classes of X with each kicker
/// from Y, the named one included, up to (not including) X, and leaves every
/// other class as it was.
pub proof fn law_kicker_run_item(e: Seq<char>, w: Weight, t: Seq<Option<Weight>>, x: u8, y: u8)
    requires
        t.len() == 507,
        e.len() == 4,
        rank_of_char(e[0]) == Some(x) && rank_of_char(e[1]) == Some(y) || rank_of_char(e[0]) == Some(y)
            && rank_of_char(e[1]) == Some(x),
        y < x,
        e[2] == 's' || e[2] == 'o',
        e[3] == '+',
    ensures
        item4(e, w, t) matches Outcome::Done(t2) && t2.len() == 507 && (forall|k: int|
            y <= k < x ==> #[trigger] t2[elem_index(kicker_class(e[2], x, k))] == Some(w)) && (forall|i: int|
            0 <= i < 507 && !(exists|k: int|
                y <= k < x && i == elem_index(kicker_class(e[2], x, k))) ==> #[trigger] t2[i] == t[i]),
{
    let base: int = if e[2] == 's' { 169 + 13 * x } else { 338 + 13 * x };
    assert(rank_of_char(e[0]) is Some && rank_of_char(e[1]) is Some);
    assert(x <= 12) by {
        if rank_of_char(e[0]) == Some(x) {
        } else {
        }
    }
    lemma_run_slots(t, base, y as int, x as int, w);
    let t2 = run(t, base, 1, y as int, x as int, w);
    assert(item4(e, w, t) == Outcome::Done(t2));
    assert forall|k: int| y <= k < x implies t2[elem_index(kicker_class(e[2], x, k))] == Some(w) by {
        assert(t2[base + k] == Some(w));
    }
    assert forall|i: int|
        0 <= i < 507 && !(exists|k: int|
            y <= k < x && i == elem_index(kicker_class(e[2], x, k))) implies #[trigger] t2[i] == t[i] by {
        if base + y <= i < base + x {
            let k = i - base;
            assert(i == elem_index(kicker_class(e[2], x, k)));
        }
    }
}

/// With the turn dealt and the river not, each river card that can still
/// come repeats the river nodes once, less the cards that an isomorphic
/// card stands for: the 48 cards off the flop and the turn, minus those
/// listed for the turn's suit; the turn is counted once.
pub proof fn law_river_count_after_turn(
    flop_mask: u64,
    turn: Card,
    iso_card_turn: Seq<u8>,
    iso_card_river: Seq<Seq<u8>>,
)
    requires
        turn < 52,
        iso_card_river.len() == 4,
    ensures
        street_coeffs(flop_mask, turn, NOT_DEALT, iso_card_turn, iso_card_river).0 == 1,
        street_coeffs(flop_mask, turn, NOT_DEALT, iso_card_turn, iso_card_river).1
            + iso_card_river[(turn % 4) as int].len() == 48,
{
}

/// The first suit below `k` that can stand for `s1` holds the same ranks in
/// `b` and in the ranges' classes, and, unless `relax`, in `a`.
proof fn lemma_partner(a: Seq<u16>, b: Seq<u16>, cls: Seq<u8>, relax: bool, s1: int, k: int)
    requires
        k <= 4,
    ensures
        partner(a, b, cls, relax, s1, k) matches Some(s2) ==> 0 <= s2 < k && (relax || a[s1] == a[s2 as int])
            && b[s1] == b[s2 as int] && cls[s1] == cls[s2 as int],
    decreases k,
{
    if k > 0 {
        lemma_partner(a, b, cls, relax, s1, k - 1);
    }
}

/// While the flop is still being played (no turn dealt), a suit stands for
/// a lower one on the river after the turn `t` only if the two hold the
/// same flop ranks, the same ranks with the turn, and the same range class.
pub proof fn law_river_partners_before_turn(flop: Seq<u8>, cls: Seq<u8>, t: int, s: int)
    requires
        0 <= s < 4,
    ensures
        river_iso(flop, NOT_DEALT, cls, t)[s] matches Some(s2) ==> s2 < s && flop_ranks(flop)[s]
            == flop_ranks(flop)[s2 as int] && turn_ranks(flop, t)[s] == turn_ranks(flop, t)[s2 as int]
            && cls[s] == cls[s2 as int],
{
    lemma_partner(flop_ranks(flop), turn_ranks(flop, t), cls, false, s, s);
}

proof fn lemma_no_mirrors(iso: Seq<Option<u8>>, mask: u64, k: int)
    requires
        forall|s: int| 0 <= s < 4 ==> #[trigger] iso[s] is None,
    ensures
        iso_refs(iso, mask, k).len() == 0,
        iso_cards(iso, mask, k).len() == 0,
    decreases k,
{
    if k > 0 {
        lemma_no_mirrors(iso, mask, k - 1);
        assert(!is_mirrored(iso, mask, k - 1)) by {
            if 0 <= k - 1 < 52 {
                assert(iso[(k - 1) % 4] is None);
            }
        }
    }
}

proof fn lemma_no_river_cards(flop: Seq<u8>, cls: Seq<u8>, k: int)
    requires
        forall|s1: int, s2: int|
            0 <= s1 < 4 && 0 <= s2 < 4 && s1 != s2 ==> #[trigger] flop_ranks(flop)[s1] != #[trigger] flop_ranks(
                flop,
            )[s2],
    ensures
        river_cards(flop, NOT_DEALT, cls, k).len() == 4,
        forall|u: int| 0 <= u < 4 ==> (#[trigger] river_cards(flop, NOT_DEALT, cls, k)[u]).len() == 0,
    decreases k,
{
    if k > 0 {
        lemma_no_river_cards(flop, cls, k - 1);
        let t = k - 1;
        let prev = river_cards(flop, NOT_DEALT, cls, k - 1);
        let iso = river_iso(flop, NOT_DEALT, cls, t);
        assert forall|s: int| 0 <= s < 4 implies #[trigger] iso[s] is None by {
            law_river_partners_before_turn(flop, cls, t, s);
        }
        let mask = crate::isomorphism::flop_bits(flop) | (1u64 << (t as u64));
        lemma_no_mirrors(iso, mask, 52);
        assert forall|u: int| 0 <= u < 4 implies (#[trigger] river_cards(flop, NOT_DEALT, cls, k)[u]).len() == 0 by {
            assert(prev[u].len() == 0);
            if !(not_a_turn(flop, NOT_DEALT, t) || prev[t % 4].len() != 0) {
                assert(river_cards(flop, NOT_DEALT, cls, k) == prev.update(t % 4, iso_cards(iso, mask, 52)));
            }
        }
    }
}

/// While the flop is still being played, a flop whose suits all hold
/// different ranks leaves no river card standing for another: every list of
/// river references and of isomorphic river cards is empty.
pub proof fn law_distinct_flop_suits_no_river_iso(flop: Seq<u8>, cls: Seq<u8>)
    requires
        forall|s1: int, s2: int|
            0 <= s1 < 4 && 0 <= s2 < 4 && s1 != s2 ==> #[trigger] flop_ranks(flop)[s1] != #[trigger] flop_ranks(
                flop,
            )[s2],
    ensures
        forall|t: int| 0 <= t < 52 ==> (#[trigger] river_refs(flop, NOT_DEALT, cls, t)).len() == 0,
        forall|u: int| 0 <= u < 4 ==> (#[trigger] river_cards(flop, NOT_DEALT, cls, 52)[u]).len() == 0,
{
    assert forall|t: int| 0 <= t < 52 implies (#[trigger] river_refs(flop, NOT_DEALT, cls, t)).len() == 0 by {
        let iso = river_iso(flop, NOT_DEALT, cls, t);
        assert forall|s: int| 0 <= s < 4 implies #[trigger] iso[s] is None by {
            law_river_partners_before_turn(flop, cls, t, s);
        }
        lemma_no_mirrors(iso, crate::isomorphism::flop_bits(flop) | (1u64 << (t as u64)), 52);
    }
    lemma_no_river_cards(flop, cls, 52);
}

/// The slot of the pair of rank `r`.
pub open spec fn pair_slot(r: int) -> int {
    elem_index(RangeElem::Pair(r as u8))
}

/// The slots of a run over the pairs: those of the pairs of ranks from `lo`
/// up to (not including) `n` hold `w`, the others are unchanged.
proof fn lemma_pair_run(t: Seq<Option<Weight>>, lo: int, n: int, w: Weight)
    requires
        0 <= lo,
        n <= 13,
        t.len() == 507,
    ensures
        run(t, 0, 14, lo, n, w).len() == 507,
        forall|i: int|
            0 <= i < 507 ==> #[trigger] run(t, 0, 14, lo, n, w)[i] == if exists|r: int|
                lo <= r < n && i == #[trigger] pair_slot(r) {
                Some(w)
            } else {
                t[i]
            },
    decreases n - lo,
{
    if n > lo {
        lemma_pair_run(t, lo, n - 1, w);
        let prev = run(t, 0, 14, lo, n - 1, w);
        assert forall|i: int| 0 <= i < 507 implies #[trigger] run(t, 0, 14, lo, n, w)[i] == if exists|r: int|
            lo <= r < n && i == #[trigger] pair_slot(r) {
            Some(w)
        } else {
            t[i]
        } by {
            assert(pair_slot(n - 1) == 14 * (n - 1));
            if i == 14 * (n - 1) {
                assert(lo <= n - 1 < n && i == pair_slot(n - 1));
            } else {
                if exists|r: int| lo <= r < n && i == #[trigger] pair_slot(r) {
                    let r = choose|r: int| lo <= r < n && i == #[trigger] pair_slot(r);
                    assert(r != n - 1);
                    assert(lo <= r < n - 1 && i == pair_slot(r));
                }
            }
        }
    }
}

/// An item of two equal ranks `XX` sets the pair of that rank to the weight
/// and leaves every other class as it was.
pub proof fn law_pair_item(e: Seq<char>, w: Weight, t: Seq<Option<Weight>>, x: u8)
    requires
        t.len() == 507,
        e.len() == 2,
        rank_of_char(e[0]) == Some(x),
        rank_of_char(e[1]) == Some(x),
    ensures
        item2(e, w, t) matches Outcome::Done(t2) && t2.len() == 507 && t2[pair_slot(x as int)] == Some(w)
            && forall|i: int| 0 <= i < 507 && i != pair_slot(x as int) ==> #[trigger] t2[i] == t[i],
{
}

/// An item `XX+` sets the pair of rank X and every higher pair to the
/// weight, and leaves every other class as it was.
pub proof fn law_pair_plus_item(e: Seq<char>, w: Weight, t: Seq<Option<Weight>>, x: u8)
    requires
        t.len() == 507,
        e.len() == 3,
        rank_of_char(e[0]) == Some(x),
        rank_of_char(e[1]) == Some(x),
        e[2] == '+',
    ensures
        item3(e, w, t) matches Outcome::Done(t2) && t2.len() == 507 && (forall|r: int|
            x <= r < 13 ==> #[trigger] t2[pair_slot(r)] == Some(w)) && (forall|i: int|
            0 <= i < 507 && !(exists|r: int| x <= r < 13 && i == #[trigger] pair_slot(r)) ==> #[trigger] t2[i]
                == t[i]),
{
    lemma_pair_run(t, x as int, 13, w);
    let t2 = run(t, 0, 14, x as int, 13, w);
    assert forall|r: int| x <= r < 13 implies #[trigger] t2[pair_slot(r)] == Some(w) by {
        assert(t2[pair_slot(r)] == Some(w));
    }
}

/// An item `XX-YY` sets every pair from the lower of the two ranks up to
/// the higher, both included, to the weight, and leaves every other class
/// as it was.
pub proof fn law_pair_span_item(e: Seq<char>, w: Weight, t: Seq<Option<Weight>>, x: u8, y: u8)
    requires
        t.len() == 507,
        e.len() == 5,
        rank_of_char(e[0]) == Some(x),
        rank_of_char(e[1]) == Some(x),
        e[2] == '-',
        rank_of_char(e[3]) == Some(y),
        rank_of_char(e[4]) == Some(y),
    ensures
        ({
            let lo: int = if x < y { x as int } else { y as int };
            let hi: int = if x < y { y as int } else { x as int };
            item5(e, w, t) matches Outcome::Done(t2) && t2.len() == 507 && (forall|r: int|
                lo <= r <= hi ==> #[trigger] t2[pair_slot(r)] == Some(w)) && (forall|i: int|
                0 <= i < 507 && !(exists|r: int| lo <= r <= hi && i == #[trigger] pair_slot(r)) ==> #[trigger] t2[i]
                    == t[i])
        }),
{
    let lo: int = if x < y { x as int } else { y as int };
    let hi: int = if x < y { y as int } else { x as int };
    assert(hi <= 12);
    lemma_pair_run(t, lo, hi + 1, w);
    let t2 = run(t, 0, 14, lo, hi + 1, w);
    assert forall|r: int| lo <= r <= hi implies #[trigger] t2[pair_slot(r)] == Some(w) by {
        assert(t2[pair_slot(r)] == Some(w));
    }
    assert forall|i: int|
        0 <= i < 507 && !(exists|r: int| lo <= r <= hi && i == #[trigger] pair_slot(r)) implies #[trigger] t2[i]
            == t[i] by {
        if exists|r: int| lo <= r < hi + 1 && i == #[trigger] pair_slot(r) {
            let r = choose|r: int| lo <= r < hi + 1 && i == #[trigger] pair_slot(r);
            assert(lo <= r <= hi && i == pair_slot(r));
        }
    }
}

/// An item `XYs` or `XYo` with two different ranks (the higher first) sets
/// the suited (or offsuit) class of the two ranks to the weight and leaves
/// every other class as it was.
pub proof fn law_two_rank_item(e: Seq<char>, w: Weight, t: Seq<Option<Weight>>, x: u8, y: u8)
    requires
        t.len() == 507,
        e.len() == 3,
        rank_of_char(e[0]) == Some(x),
        rank_of_char(e[1]) == Some(y),
        y < x,
        e[2] == 's' || e[2] == 'o',
    ensures
        item3(e, w, t) matches Outcome::Done(t2) && t2.len() == 507 && t2[elem_index(
            kicker_class(e[2], x, y as int),
        )] == Some(w) && forall|i: int|
            0 <= i < 507 && i != elem_index(kicker_class(e[2], x, y as int)) ==> #[trigger] t2[i] == t[i],
{
    assert(x <= 12);
}

/// What adding a single action to a decision node meets: the line can be
/// added exactly when the action is not there yet, is no bet after an
/// all-in, and is a bet or raise of everything (which becomes the all-in),
/// a bet from the minimum up to (not including) the maximum where no bet is
/// faced, a raise in that span over a bet or a raise, or the all-in for the
/// maximum.
pub proof fn law_single_action_add(c: TreeParams, node: ActionTreeNode, d: TreeBuildData, a: Action)
    requires
        wf_node(c, node, d),
        !is_terminal_player(node.player),
        !is_chance_player(node.player),
    ensures
        ({
            let p = node.player as int;
            let min = min_amount_of(d, p);
            let max = max_amount_of(d, p);
            let bet_like = a is Bet || a is Raise || a is AllIn;
            (add_error(node, d, seq![a], false) is None) <==> (!node.actions@.contains(a) && !(d.all_in
                && bet_like) && ((a matches Action::Bet(n) && n == max) || (a matches Action::Raise(n) && n
                == max) || (a matches Action::Bet(n) && min <= n < max && (d.last_action is NoAction
                || d.last_action is Check || d.last_action is Chance)) || (a matches Action::Raise(n) && min
                <= n < max && (d.last_action is Bet || d.last_action is Raise)) || (a matches Action::AllIn(
                n) && n == max)))
        }),
{
}

/// With no turn dealt, each turn card that can still come repeats the turn
/// nodes once: the 49 cards off the flop, less those that an isomorphic
/// card stands for. With the river dealt there is no turn to repeat and the
/// river nodes are counted once.
pub proof fn law_turn_count_and_full_board(
    flop_mask: u64,
    turn: Card,
    river: Card,
    iso_card_turn: Seq<u8>,
    iso_card_river: Seq<Seq<u8>>,
)
    ensures
        turn == NOT_DEALT ==> street_coeffs(flop_mask, turn, river, iso_card_turn, iso_card_river).0
            + iso_card_turn.len() == 49,
        turn != NOT_DEALT && river != NOT_DEALT ==> street_coeffs(
            flop_mask,
            turn,
            river,
            iso_card_turn,
            iso_card_river,
        ) == (0int, 1int),
{
}

} // verus!
