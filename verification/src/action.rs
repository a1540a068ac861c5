//! Actions taken at the nodes of an action tree, and their order.

use vstd::prelude::*;

verus! {

/// Describes actions a player can take at a decision point.
///
/// `NoAction` stands for "nothing played yet" (the root of a tree).
#[derive(Clone, Copy, Debug, PartialEq, Eq, Structural, PartialOrd, Ord, Hash)]
pub enum Action {
    NoAction,
    Fold,
    Check,
    Call,
    Bet(i32),
    Raise(i32),
    AllIn(i32),
    Chance(u8),
}

impl Default for Action {
    fn default() -> (r: Action)
        ensures
            r == Action::NoAction,
    {
        Action::NoAction
    }
}

/// Position of the variant in the declaration order of `Action`.
pub open spec fn action_rank(a: Action) -> int {
    match a {
        Action::NoAction => 0,
        Action::Fold => 1,
        Action::Check => 2,
        Action::Call => 3,
        Action::Bet(_) => 4,
        Action::Raise(_) => 5,
        Action::AllIn(_) => 6,
        Action::Chance(_) => 7,
    }
}

/// The value carried by the variant (0 for variants without one).
pub open spec fn action_payload(a: Action) -> int {
    match a {
        Action::Bet(n) => n as int,
        Action::Raise(n) => n as int,
        Action::AllIn(n) => n as int,
        Action::Chance(c) => c as int,
        _ => 0,
    }
}

/// The order of actions: by variant, then by the value carried. This is the
/// order that `derive(Ord)` gives `Action`.
pub open spec fn action_lt(a: Action, b: Action) -> bool {
    action_rank(a) < action_rank(b) || (action_rank(a) == action_rank(b) && action_payload(a)
        < action_payload(b))
}

/// Bets, raises and all-ins put chips into the pot beyond a call.
pub open spec fn is_bet_action(a: Action) -> bool {
    a is Bet || a is Raise || a is AllIn
}

/// The amount that a bet, raise or all-in brings the player's street total to.
pub open spec fn bet_amount(a: Action) -> int {
    action_payload(a)
}

/// Every element is smaller than every later one.
pub open spec fn strictly_sorted(s: Seq<Action>) -> bool {
    forall|i: int, j: int| 0 <= i < j < s.len() ==> action_lt(#[trigger] s[i], #[trigger] s[j])
}

/// `action_lt` is a strict total order.
pub proof fn lemma_action_order(a: Action, b: Action, c: Action)
    ensures
        !action_lt(a, a),
        action_lt(a, b) && action_lt(b, c) ==> action_lt(a, c),
        action_lt(a, b) ==> !action_lt(b, a),
        a != b ==> action_lt(a, b) || action_lt(b, a),
{
}

/// Whether `a` comes before `b` in the order of actions.
pub fn action_less(a: Action, b: Action) -> (r: bool)
    ensures
        r == action_lt(a, b),
{
    let ra = rank_of(a);
    let rb = rank_of(b);
    if ra != rb {
        ra < rb
    } else {
        payload_of(a) < payload_of(b)
    }
}

fn rank_of(a: Action) -> (r: u8)
    ensures
        r as int == action_rank(a),
{
    match a {
        Action::NoAction => 0,
        Action::Fold => 1,
        Action::Check => 2,
        Action::Call => 3,
        Action::Bet(_) => 4,
        Action::Raise(_) => 5,
        Action::AllIn(_) => 6,
        Action::Chance(_) => 7,
    }
}

fn payload_of(a: Action) -> (r: i32)
    ensures
        r as int == action_payload(a),
{
    match a {
        Action::Bet(n) => n,
        Action::Raise(n) => n,
        Action::AllIn(n) => n,
        Action::Chance(c) => c as i32,
        _ => 0,
    }
}

/// Position of `a` in the strictly sorted `v`, or where it would be inserted.
pub fn search_action(v: &Vec<Action>, a: Action) -> (r: Result<usize, usize>)
    requires
        strictly_sorted(v@),
    ensures
        match r {
            Ok(i) => i < v@.len() && v@[i as int] == a,
            Err(i) => i <= v@.len() && !v@.contains(a) && (forall|j: int|
                0 <= j < i ==> action_lt(#[trigger] v@[j], a)) && (forall|j: int|
                i <= j < v@.len() ==> action_lt(a, #[trigger] v@[j])),
        },
{
    let mut lo: usize = 0;
    let mut hi: usize = v.len();
    while lo < hi
        invariant
            0 <= lo <= hi <= v@.len(),
            strictly_sorted(v@),
            forall|j: int| 0 <= j < lo ==> action_lt(#[trigger] v@[j], a),
            forall|j: int| hi <= j < v@.len() ==> action_lt(a, #[trigger] v@[j]),
        decreases hi - lo,
    {
        let mid = lo + (hi - lo) / 2;
        let m = v[mid];
        if m == a {
            return Ok(mid);
        } else if action_less(m, a) {
            proof {
                assert forall|j: int| 0 <= j < mid + 1 implies action_lt(#[trigger] v@[j], a) by {
                    if j < mid {
                        lemma_action_order(v@[j], m, a);
                    }
                }
            }
            lo = mid + 1;
        } else {
            proof {
                lemma_action_order(m, a, m);
                assert forall|j: int| mid <= j < v@.len() implies action_lt(a, #[trigger] v@[j]) by {
                    if j > mid {
                        lemma_action_order(a, m, v@[j]);
                    }
                }
            }
            hi = mid;
        }
    }
    proof {
        assert forall|j: int| 0 <= j < v@.len() implies v@[j] != a by {
            lemma_action_order(v@[j], a, a);
        }
    }
    Err(lo)
}

} // verus!
