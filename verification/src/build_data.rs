//! The betting state that is carried down the action tree while it is built.

use vstd::prelude::*;
use crate::action::{Action, bet_amount, is_bet_action};
use crate::player::PLAYER_OOP;

verus! {

/// Betting state at a node: what was played last, the amount of the last
/// bet on this street, how many bets were made on this street, whether
/// someone is all-in, whether OOP called, and the remaining stacks.
#[derive(Clone, Copy, Debug)]
pub struct TreeBuildData {
    pub last_action: Action,
    pub last_amount: i32,
    pub num_bets: i32,
    pub all_in: bool,
    pub oop_call: bool,
    pub stacks: [i32; 2],
}

/// The state at the root of a tree whose players both start with `stack`.
pub open spec fn initial_data(stack: i32) -> TreeBuildData {
    TreeBuildData {
        last_action: Action::NoAction,
        last_amount: 0,
        num_bets: 0,
        all_in: false,
        oop_call: false,
        stacks: [stack, stack],
    }
}

/// What a bet, raise or all-in to `n` by `player` leaves in that player's stack.
pub open spec fn stack_after_bet(d: TreeBuildData, player: int, n: int) -> int {
    let to_call = d.stacks[player] - d.stacks[1 - player];
    d.stacks[player] - (n - d.last_amount + to_call)
}

/// The state after `player` plays `action` in state `d`.
pub open spec fn next_data(d: TreeBuildData, player: int, action: Action) -> TreeBuildData {
    match action {
        Action::Check => TreeBuildData { last_action: action, oop_call: false, ..d },
        Action::Call => TreeBuildData {
            last_action: action,
            num_bets: 0,
            oop_call: player == 0,
            stacks: if player == 0 {
                [d.stacks[1], d.stacks[1]]
            } else {
                [d.stacks[0], d.stacks[0]]
            },
            last_amount: 0,
            ..d
        },
        Action::Bet(n) | Action::Raise(n) | Action::AllIn(n) => TreeBuildData {
            last_action: action,
            num_bets: (d.num_bets + 1) as i32,
            all_in: action is AllIn,
            stacks: if player == 0 {
                [stack_after_bet(d, 0, n as int) as i32, d.stacks[1]]
            } else {
                [d.stacks[0], stack_after_bet(d, 1, n as int) as i32]
            },
            last_amount: n,
            ..d
        },
        _ => TreeBuildData { last_action: action, ..d },
    }
}

/// `next_data` computes without leaving the range of `i32`.
pub open spec fn next_in_range(d: TreeBuildData, player: int, action: Action) -> bool {
    is_bet_action(action) ==> {
        let n = bet_amount(action);
        let to_call = d.stacks[player] - d.stacks[1 - player];
        &&& i32::MIN <= to_call <= i32::MAX
        &&& i32::MIN <= n - d.last_amount <= i32::MAX
        &&& i32::MIN <= n - d.last_amount + to_call <= i32::MAX
        &&& i32::MIN <= stack_after_bet(d, player, n) <= i32::MAX
        &&& d.num_bets < i32::MAX
    }
}

impl TreeBuildData {
    /// The state at the root: nothing played, both stacks equal to `stack_size`.
    pub fn new(stack_size: i32) -> (r: TreeBuildData)
        ensures
            r == initial_data(stack_size),
    {
        TreeBuildData {
            last_action: Action::NoAction,
            last_amount: 0,
            num_bets: 0,
            all_in: false,
            oop_call: false,
            stacks: [stack_size, stack_size],
        }
    }

    /// The state after `player` (0 or 1) plays `action`.
    pub fn next(&self, player: u8, action: Action) -> (r: TreeBuildData)
        requires
            player <= 1,
            next_in_range(*self, player as int, action),
        ensures
            r == next_data(*self, player as int, action),
    {
        let mut num_bets = self.num_bets;
        let mut all_in = self.all_in;
        let mut s0 = self.stacks[0];
        let mut s1 = self.stacks[1];
        let mut last_amount = self.last_amount;
        let mut oop_call = self.oop_call;

        match action {
            // Can't call following a check.
            Action::Check => oop_call = false,
            Action::Call => {
                num_bets = 0;
                oop_call = player == PLAYER_OOP;
                // Effective stacks are equal after a call.
                if player == 0 {
                    s0 = s1;
                } else {
                    s1 = s0;
                }
                last_amount = 0;
            },
            Action::Bet(n) | Action::Raise(n) | Action::AllIn(n) => {
                // The amount to call is the difference between the stacks.
                let (mine, theirs) = if player == 0 {
                    (s0, s1)
                } else {
                    (s1, s0)
                };
                let to_call = mine - theirs;
                num_bets += 1;
                all_in = matches!(action, Action::AllIn(_));
                // The bet, less what was bet before, plus the call, leaves the stack.
                let left = mine - (n - last_amount + to_call);
                if player == 0 {
                    s0 = left;
                } else {
                    s1 = left;
                }
                last_amount = n;
            },
            _ => {},
        }

        let r = TreeBuildData {
            last_action: action,
            num_bets,
            all_in,
            stacks: [s0, s1],
            last_amount,
            oop_call,
        };
        proof {
            let e = next_data(*self, player as int, action);
            assert(r.stacks[0] == e.stacks[0] && r.stacks[1] == e.stacks[1]);
            assert(r.stacks =~= e.stacks);
        }
        r
    }
}

} // verus!
