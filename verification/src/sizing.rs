//! What the bet sizing rules are asked, what the tree makes of their
//! answers, and the ordering of the actions that they propose.
//!
//! The sizing rules of a tree (pot fractions, multiples of the previous bet,
//! geometric sizes, all-in thresholds) are computed in floating point by the
//! caller and handed to the tree builder as two functions: one that proposes
//! amounts (and an all-in) for a spot, one that gives the force-all-in
//! threshold for the pot after a bet. The tree only sees the amounts that
//! come back and treats each one alike, whatever it is.

use vstd::prelude::*;
use crate::Street;
use crate::action::{Action, action_lt, lemma_action_order, search_action, strictly_sorted};
use crate::build_data::TreeBuildData;
use crate::config::TreeParams;
use crate::node::{clamp_int, is_facing, max_amount_of, min_amount_of, to_call_of};

verus! {

/// A decision node as the sizing rules see it.
#[derive(Clone, Copy, Debug)]
pub struct Spot {
    pub street: Street,
    pub player: u8,
    /// The pot once the player to act has called.
    pub pot: i32,
    /// The amount of the bet faced (0 when not facing one).
    pub prev_amount: i32,
    /// The opponent's remaining stack.
    pub opp_stack: i32,
    /// The largest amount that can be bet or raised to.
    pub max_amount: i32,
    /// Bets made so far on this street.
    pub num_bets: i32,
    /// Whether the player to act faces a bet (then the sizes are raises).
    pub facing_bet: bool,
}

/// The spot that the sizing rules see at a decision node of `player` on
/// `street`, with `amount` put in by each player before the street's
/// betting, in state `d`, when the pot before the first action was
/// `starting_pot`.
pub open spec fn spot_of(starting_pot: int, player: u8, street: Street, amount: int, d: TreeBuildData) -> Spot {
    let p = player as int;
    Spot {
        street,
        player,
        pot: (starting_pot + 2 * (amount + to_call_of(d, p))) as i32,
        prev_amount: d.last_amount,
        opp_stack: d.stacks[1 - p],
        max_amount: max_amount_of(d, p) as i32,
        num_bets: d.num_bets,
        facing_bet: is_facing(d),
    }
}

/// Whether the sizing rules are asked at all: not when the player to act
/// faces an all-in.
pub open spec fn asked(d: TreeBuildData) -> bool {
    !(is_facing(d) && d.all_in)
}

/// The actions that need no sizing: check, or fold and call when a bet is
/// faced.
pub open spec fn base_action(d: TreeBuildData, a: Action) -> bool {
    if is_facing(d) {
        a == Action::Fold || a == Action::Call
    } else {
        a == Action::Check
    }
}

/// A proposed amount `size` limited to what `player` can bet in state `d`.
pub open spec fn clamped_size(d: TreeBuildData, player: int, size: int) -> int {
    clamp_int(size, min_amount_of(d, player), max_amount_of(d, player))
}

/// The pot after a bet of the proposed amount `size` at `spot`, on which
/// the force-all-in threshold is computed.
pub open spec fn pot_after_bet(spot: Spot, d: TreeBuildData, player: int, size: int) -> int {
    spot.pot + 2 * (clamped_size(d, player, size) - spot.prev_amount)
}

/// The action that the proposed amount `size` becomes, given the
/// force-all-in threshold `threshold` for its pot.
pub open spec fn proposed_action(d: TreeBuildData, player: int, size: int, threshold: int) -> Action {
    resolved_bet(
        is_facing(d),
        clamped_size(d, player, size),
        max_amount_of(d, player),
        threshold,
    )
}

/// `acts` holds exactly the actions that the answer `r` of the sizing rules
/// at `spot` gives, with `thresholds` the answers of the force-all-in
/// threshold for the pot after each proposed amount: the actions that need
/// no sizing, each proposed amount as `proposed_action` makes it, and an
/// all-in for the maximum when one is proposed.
pub open spec fn sized_by<F: Fn(Spot) -> (Vec<i32>, bool), G: Fn(i32) -> u32>(
    propose: F,
    force_threshold: G,
    spot: Spot,
    d: TreeBuildData,
    player: int,
    r: (Vec<i32>, bool),
    thresholds: Seq<u32>,
    acts: Seq<Action>,
) -> bool {
    let sizes = r.0@;
    &&& call_ensures(propose, (spot,), r)
    &&& thresholds.len() == sizes.len()
    &&& forall|k: int|
        0 <= k < sizes.len() ==> call_ensures(
            force_threshold,
            (pot_after_bet(spot, d, player, sizes[k] as int) as i32,),
            #[trigger] thresholds[k],
        )
    &&& forall|a: Action|
        #[trigger] acts.contains(a) <==> (base_action(d, a) || (exists|k: int|
            0 <= k < sizes.len() && a == proposed_action(
                d,
                player,
                sizes[k] as int,
                #[trigger] thresholds[k] as int,
            )) || (r.1 && a == Action::AllIn(max_amount_of(d, player) as i32)))
}

/// The actions of a decision node of `player` on `street` with `amount` put
/// in before, in state `d`, as the sizing rules `propose` and
/// `force_threshold` make them: sorted, each once; check, or fold and call;
/// unless the opponent is all-in, every amount proposed for the node's spot
/// (limited to what can be bet, and an all-in when the threshold for its pot
/// says so) and the proposed all-in. The rules may answer differently from
/// one call to the next: the actions are those of one of their answers.
pub open spec fn sized_actions<F: Fn(Spot) -> (Vec<i32>, bool), G: Fn(i32) -> u32>(
    propose: F,
    force_threshold: G,
    c: TreeParams,
    player: u8,
    street: Street,
    amount: int,
    d: TreeBuildData,
    acts: Seq<Action>,
) -> bool {
    let spot = spot_of(c.starting_pot as int, player, street, amount, d);
    &&& strictly_sorted(acts)
    &&& if asked(d) {
        exists|r: (Vec<i32>, bool), thresholds: Seq<u32>|
            #[trigger] sized_by(propose, force_threshold, spot, d, player as int, r, thresholds, acts)
    } else {
        forall|a: Action| #[trigger] acts.contains(a) <==> base_action(d, a)
    }
}

/// The action that a proposed bet (or raise, when `facing`) of `clamped`
/// becomes: an all-in for `max` when at most `threshold` would be left behind.
pub open spec fn resolved_bet(facing: bool, clamped: int, max: int, threshold: int) -> Action {
    if max <= threshold + clamped {
        Action::AllIn(max as i32)
    } else if facing {
        Action::Raise(clamped as i32)
    } else {
        Action::Bet(clamped as i32)
    }
}

/// The action that a proposed bet becomes, as `resolved_bet` states.
pub fn resolve_bet(facing: bool, clamped: i32, max: i32, threshold: u32) -> (r: Action)
    ensures
        r == resolved_bet(facing, clamped as int, max as int, threshold as int),
{
    if (max as i64) <= (threshold as i64) + (clamped as i64) {
        Action::AllIn(max)
    } else if facing {
        Action::Raise(clamped)
    } else {
        Action::Bet(clamped)
    }
}

/// The elements of `v` in increasing order, each once.
pub fn sort_unique(v: &Vec<Action>) -> (r: Vec<Action>)
    ensures
        strictly_sorted(r@),
        forall|a: Action| r@.contains(a) <==> v@.contains(a),
{
    let mut out: Vec<Action> = Vec::new();
    for i in 0..v.len()
        invariant
            strictly_sorted(out@),
            forall|a: Action| out@.contains(a) <==> v@.take(i as int).contains(a),
    {
        let a = v[i];
        let ghost before = v@.take(i as int);
        let ghost after = v@.take(i + 1);
        proof {
            assert(after =~= before.push(a));
        }
        match search_action(&out, a) {
            Ok(_) => {
                proof {
                    assert forall|b: Action| out@.contains(b) <==> after.contains(b) by {
                        if after.contains(b) {
                            let k = choose|k: int| 0 <= k < i + 1 && after[k] == b;
                            if k < i {
                                assert(before[k] == b);
                            }
                        }
                        if out@.contains(b) {
                            let k = choose|k: int| 0 <= k < i && before[k] == b;
                            assert(after[k] == b);
                        }
                    }
                }
            },
            Err(j) => {
                let ghost old_out = out@;
                out.insert(j, a);
                proof {
                    assert(out@ =~= old_out.insert(j as int, a));
                    assert forall|x: int, y: int| 0 <= x < y < out@.len() implies action_lt(
                        #[trigger] out@[x],
                        #[trigger] out@[y],
                    ) by {
                        if y < j {
                        } else if y == j {
                        } else if x < j {
                            lemma_action_order(out@[x], a, out@[y]);
                        } else if x == j {
                        } else {
                        }
                    }
                    assert forall|b: Action| out@.contains(b) <==> after.contains(b) by {
                        if out@.contains(b) {
                            let k = choose|k: int| 0 <= k < out@.len() && out@[k] == b;
                            if k == j {
                                assert(after[i as int] == b);
                            } else {
                                let kk = if k < j { k } else { k - 1 };
                                assert(old_out[kk] == b);
                                assert(old_out.contains(b));
                                assert(before.contains(b));
                                let m = choose|m: int| 0 <= m < before.len() && before[m] == b;
                                assert(after[m] == b);
                            }
                        }
                        if after.contains(b) {
                            let k = choose|k: int| 0 <= k < after.len() && after[k] == b;
                            if k < i {
                                assert(before[k] == b);
                                assert(before.contains(b));
                                assert(old_out.contains(b));
                                let m = choose|m: int| 0 <= m < old_out.len() && old_out[m] == b;
                                if m < j {
                                    assert(out@[m] == b);
                                } else {
                                    assert(out@[m + 1] == b);
                                }
                            } else {
                                assert(out@[j as int] == b);
                            }
                        }
                    }
                }
            },
        }
    }
    proof {
        assert(v@.take(v@.len() as int) =~= v@);
    }
    out
}

} // verus!
