//! Decisions made while playing through a post-flop game: what each player
//! has put in, which child a dealt card leads to, and which cards can still
//! be dealt.

use vstd::prelude::*;
use crate::action::{Action, is_bet_action, bet_amount};
use crate::postflop::{Card, Hand, NOT_DEALT, hand_ok, card_mask, hand_mask, swap_card};

verus! {

/// What each player has put in after `action`, played by `player` at a
/// node reached by `last`: a call matches the opponent; a bet, raise or
/// all-in to an amount raises the player's total by that amount over the
/// last one, after calling.
pub open spec fn bet_totals_after(total: Seq<i32>, player: int, last: Action, action: Action) -> Seq<int> {
    let t = Seq::new(2, |i: int| total[i] as int);
    let last_amount = if is_bet_action(last) {
        bet_amount(last)
    } else {
        0
    };
    if action is Call {
        t.update(player, t[1 - player])
    } else if is_bet_action(action) {
        t.update(player, t[player] + bet_amount(action) - last_amount + (t[1 - player] - t[player]))
    } else {
        t
    }
}

/// What each player has put in after `action`, as `bet_totals_after` states.
pub fn next_bet_totals(total: [i32; 2], player: usize, last: Action, action: Action) -> (r: [i32; 2])
    requires
        player < 2,
        forall|i: int| 0 <= i < 2 ==> i32::MIN <= #[trigger] bet_totals_after(total@, player as int, last, action)[i] <= i32::MAX,
        is_bet_action(action) ==> i32::MIN <= total@[1 - player] - total@[player as int] <= i32::MAX,
        is_bet_action(action) ==> i32::MIN <= bet_amount(action) - (if is_bet_action(last) { bet_amount(last) } else { 0 }) <= i32::MAX,
        is_bet_action(action) ==> i32::MIN <= bet_amount(action) - (if is_bet_action(last) { bet_amount(last) } else { 0 }) + (total@[1 - player] - total@[player as int]) <= i32::MAX,
    ensures
        r@.map_values(|x: i32| x as int) == bet_totals_after(total@, player as int, last, action),
{
    let opp = 1 - player;
    let mut t = total;
    let ghost want = bet_totals_after(total@, player as int, last, action);
    match action {
        Action::Call => {
            t[player] = total[opp];
        },
        Action::Bet(amount) | Action::Raise(amount) | Action::AllIn(amount) => {
            let last_amount = match last {
                Action::Bet(a) | Action::Raise(a) | Action::AllIn(a) => a,
                _ => 0,
            };
            let to_call = total[opp] - total[player];
            proof {
                assert(i32::MIN <= bet_totals_after(total@, player as int, last, action)[player as int] <= i32::MAX);
            }
            t[player] = total[player] + (amount - last_amount + to_call);
        },
        _ => {},
    }
    assert(t@.map_values(|x: i32| x as int) =~= want);
    t
}

/// The card that a dealt card stands as, once the suits of a turn swap (if
/// any) are exchanged.
pub open spec fn card_after_swap(card: u8, swap: Option<(u8, u8)>) -> int {
    match swap {
        Some((s1, s2)) => swap_card(card as int, s1 as int, s2 as int),
        None => card as int,
    }
}

/// The card that a dealt card stands as, as `card_after_swap` states.
pub fn swapped_card(card: u8, swap: Option<(u8, u8)>) -> (r: u8)
    requires
        card < 52,
        swap matches Some((s1, s2)) ==> s1 < 4 && s2 < 4,
    ensures
        r == card_after_swap(card, swap),
        r < 52,
{
    match swap {
        Some((s1, s2)) => {
            let suit = card & 3;
            assert(card & 3 == card % 4) by (bit_vector);
            if suit == s1 {
                card - s1 + s2
            } else if suit == s2 {
                card - s2 + s1
            } else {
                card
            }
        },
        None => card,
    }
}

/// The first position at `actions` that deals `card`.
pub open spec fn deal_position(actions: Seq<Action>, card: u8, k: int) -> Option<int>
    decreases k,
{
    if k <= 0 {
        None
    } else {
        match deal_position(actions, card, k - 1) {
            Some(i) => Some(i),
            None => if actions[k - 1] == Action::Chance(card) {
                Some(k - 1)
            } else {
                None
            },
        }
    }
}

/// The first position at `iso_card` of `card`, among the first `k`.
pub open spec fn iso_position(iso_card: Seq<u8>, card: u8, k: int) -> Option<int>
    decreases k,
{
    if k <= 0 {
        None
    } else {
        match iso_position(iso_card, card, k - 1) {
            Some(i) => Some(i),
            None => if iso_card[k - 1] == card {
                Some(k - 1)
            } else {
                None
            },
        }
    }
}

/// The child that dealing `card` at a chance node leads to: the first one
/// that deals it, or else the one that its isomorphic card leads to, with
/// the position of that card in the isomorphism lists.
pub open spec fn chance_child(actions: Seq<Action>, card: u8, iso_ref: Seq<u8>, iso_card: Seq<u8>) -> Option<
    (int, Option<int>),
> {
    match deal_position(actions, card, actions.len() as int) {
        Some(i) => Some((i, None)),
        None => match iso_position(iso_card, card, iso_ref.len() as int) {
            Some(i) => Some((iso_ref[i] as int, Some(i))),
            None => None,
        },
    }
}

proof fn lemma_deal_found(actions: Seq<Action>, card: u8, i: int, k: int)
    requires
        0 <= i < k <= actions.len(),
        deal_position(actions, card, i) is None,
        actions[i] == Action::Chance(card),
    ensures
        deal_position(actions, card, k) == Some(i),
    decreases k,
{
    if k > i + 1 {
        lemma_deal_found(actions, card, i, k - 1);
    }
}

proof fn lemma_iso_found(iso_card: Seq<u8>, card: u8, i: int, k: int)
    requires
        0 <= i < k <= iso_card.len(),
        iso_position(iso_card, card, i) is None,
        iso_card[i] == card,
    ensures
        iso_position(iso_card, card, k) == Some(i),
    decreases k,
{
    if k > i + 1 {
        lemma_iso_found(iso_card, card, i, k - 1);
    }
}

/// The child that dealing `card` leads to, as `chance_child` states.
pub fn chance_play(actions: &[Action], card: u8, iso_ref: &[u8], iso_card: &[u8]) -> (r: Option<(usize, Option<usize>)>)
    requires
        iso_ref@.len() <= iso_card@.len(),
    ensures
        match (r, chance_child(actions@, card, iso_ref@, iso_card@)) {
            (Some((a, b)), Some((x, y))) => a == x && match (b, y) {
                (Some(p), Some(q)) => p == q,
                (None, None) => true,
                _ => false,
            },
            (None, None) => true,
            _ => false,
        },
{
    let n = actions.len();
    let mut i: usize = 0;
    while i < n
        invariant
            n == actions@.len(),
            i <= n,
            deal_position(actions@, card, i as int) is None,
        decreases n - i,
    {
        if actions[i] == Action::Chance(card) {
            proof {
                lemma_deal_found(actions@, card, i as int, n as int);
            }
            return Some((i, None));
        }
        i = i + 1;
    }
    let m = iso_ref.len();
    let mut j: usize = 0;
    while j < m
        invariant
            m == iso_ref@.len(),
            m <= iso_card@.len(),
            j <= m,
            n == actions@.len(),
            deal_position(actions@, card, n as int) is None,
            iso_position(iso_card@, card, j as int) is None,
        decreases m - j,
    {
        if iso_card[j] == card {
            proof {
                lemma_iso_found(iso_card@, card, j as int, m as int);
                assert(iso_position(iso_card@, card, iso_ref@.len() as int) == Some(j as int));
                assert(deal_position(actions@, card, actions@.len() as int) is None);
                assert(chance_child(actions@, card, iso_ref@, iso_card@) == Some(
                    (iso_ref@[j as int] as int, Some(j as int)),
                ));
            }
            return Some((iso_ref[j] as usize, Some(j)));
        }
        j = j + 1;
    }
    None
}

/// The card `c` is among the bits of `mask`.
pub open spec fn card_in(mask: u64, c: int) -> bool {
    (mask >> (c as u64)) & 1u64 == 1u64
}

/// The bits of the two cards of a hand.
pub open spec fn hand_bits(h: Hand) -> u64 {
    (1u64 << (h.0 as u64)) | (1u64 << (h.1 as u64))
}

/// The first player's `h1` and the second player's `h2` can be held
/// together with the cards of `board`.
pub open spec fn hands_fit(h1: Hand, h2: Hand, board: u64) -> bool {
    hand_bits(h1) & board == 0 && hand_bits(h2) & (hand_bits(h1) | board) == 0
}

/// The card `c` can be dealt next: it is not on the flop, not the dealt
/// turn, and with it on the board some hand of each player can still be
/// held.
pub open spec fn can_be_dealt(flop_mask: u64, turn: Card, hands: Seq<Seq<Hand>>, c: int) -> bool {
    let board = flop_mask | (1u64 << (c as u64));
    &&& board != flop_mask
    &&& !(turn != NOT_DEALT && c == turn)
    &&& exists|i: int, j: int|
        0 <= i < hands[0].len() && 0 <= j < hands[1].len() && #[trigger] hands_fit(
            hands[0][i],
            hands[1][j],
            board,
        )
}

proof fn lemma_bits_or(d: u64, c: u64, x: u64)
    requires
        c < 64,
        x < 64,
    ensures
        ((d | (1u64 << c)) >> x) & 1u64 == 1u64 <==> ((d >> x) & 1u64 == 1u64 || x == c),
        ((1u64 << c) >> x) & 1u64 == 1u64 <==> x == c,
        (0u64 >> x) & 1u64 != 1u64,
{
    assert(((d | (1u64 << c)) >> x) & 1u64 == 1u64 <==> ((d >> x) & 1u64 == 1u64 || x == c)) by (bit_vector)
        requires
            c < 64,
            x < 64,
    ;
    assert(((1u64 << c) >> x) & 1u64 == 1u64 <==> x == c) by (bit_vector)
        requires
            c < 64,
            x < 64,
    ;
    assert((0u64 >> x) & 1u64 != 1u64) by (bit_vector);
}

proof fn lemma_bits_complement(d: u64, x: u64)
    requires
        x < 64,
    ensures
        ((0x000f_ffff_ffff_ffffu64 ^ d) >> x) & 1u64 == 1u64 <==> (x < 52) != ((d >> x) & 1u64 == 1u64),
{
    assert(((0x000f_ffff_ffff_ffffu64 ^ d) >> x) & 1u64 == 1u64 <==> (x < 52) != ((d >> x) & 1u64 == 1u64)) by (bit_vector)
        requires
            x < 64,
    ;
}

/// Whether some hand of the first player and some of the second fit with
/// the cards of `board`.
fn some_hands_fit(hands: &[Vec<Hand>; 2], board: u64) -> (r: bool)
    requires
        forall|p: int, i: int| 0 <= p < 2 && 0 <= i < hands@[p]@.len() ==> hand_ok(#[trigger] hands@[p]@[i]),
    ensures
        r == exists|i: int, j: int|
            0 <= i < hands@[0]@.len() && 0 <= j < hands@[1]@.len() && #[trigger] hands_fit(
                hands@[0]@[i],
                hands@[1]@[j],
                board,
            ),
{
    let n0 = hands[0].len();
    let n1 = hands[1].len();
    for i in 0..n0
        invariant
            n0 == hands@[0]@.len(),
            n1 == hands@[1]@.len(),
            forall|p: int, k: int| 0 <= p < 2 && 0 <= k < hands@[p]@.len() ==> hand_ok(#[trigger] hands@[p]@[k]),
            forall|a: int, b: int| 0 <= a < i && 0 <= b < n1 ==> !#[trigger] hands_fit(hands@[0]@[a], hands@[1]@[b], board),
    {
        let om = hand_mask(hands[0][i]);
        if om & board == 0 {
            let combined = om | board;
            for j in 0..n1
                invariant
                    n1 == hands@[1]@.len(),
                    i < hands@[0]@.len(),
                    om == hand_bits(hands@[0]@[i as int]),
                    om & board == 0,
                    combined == om | board,
                    forall|p: int, k: int| 0 <= p < 2 && 0 <= k < hands@[p]@.len() ==> hand_ok(#[trigger] hands@[p]@[k]),
                    forall|b: int| 0 <= b < j ==> !#[trigger] hands_fit(hands@[0]@[i as int], hands@[1]@[b], board),
            {
                let im = hand_mask(hands[1][j]);
                if im & combined == 0 {
                    proof {
                        assert(hands_fit(hands@[0]@[i as int], hands@[1]@[j as int], board));
                    }
                    return true;
                }
            }
        }
    }
    false
}

/// The cards that can be dealt next, as bits: those for which
/// `can_be_dealt` holds.
pub fn possible_cards(flop_mask: u64, turn: Card, hands: &[Vec<Hand>; 2]) -> (r: u64)
    requires
        turn < 52 || turn == NOT_DEALT,
        forall|p: int, i: int| 0 <= p < 2 && 0 <= i < hands@[p]@.len() ==> hand_ok(#[trigger] hands@[p]@[i]),
    ensures
        forall|c: int| 0 <= c < 64 ==> (#[trigger] card_in(r, c) <==> c < 52 && can_be_dealt(
            flop_mask,
            turn,
            Seq::new(2, |p: int| hands@[p]@),
            c,
        )),
{
    let ghost hs = Seq::new(2, |p: int| hands@[p]@);
    let mut dead: u64 = if turn != NOT_DEALT {
        card_mask(turn)
    } else {
        0
    };
    proof {
        assert forall|x: int| 0 <= x < 64 implies (#[trigger] card_in(dead, x) <==> (turn != NOT_DEALT && x == turn)) by {
            lemma_bits_or(0, if turn != NOT_DEALT { turn as u64 } else { 0 }, x as u64);
        }
    }
    for c in 0..52u8
        invariant
            turn < 52 || turn == NOT_DEALT,
            hs == Seq::new(2, |p: int| hands@[p]@),
            forall|p: int, i: int| 0 <= p < 2 && 0 <= i < hands@[p]@.len() ==> hand_ok(#[trigger] hands@[p]@[i]),
            forall|x: int| 0 <= x < 64 ==> (#[trigger] card_in(dead, x) <==> ((turn != NOT_DEALT && x == turn) || (x < c && !can_be_dealt(flop_mask, NOT_DEALT, hs, x)))),
    {
        let b = card_mask(c);
        let board = flop_mask | b;
        let mut alive = false;
        if board != flop_mask {
            alive = some_hands_fit(hands, board);
        }
        proof {
            assert(hs[0] == hands@[0]@ && hs[1] == hands@[1]@);
            assert(alive == can_be_dealt(flop_mask, NOT_DEALT, hs, c as int));
        }
        let ghost before = dead;
        if !alive {
            dead = dead | b;
        }
        proof {
            assert forall|x: int| 0 <= x < 64 implies (#[trigger] card_in(dead, x) <==> ((turn != NOT_DEALT && x == turn) || (x < c + 1 && !can_be_dealt(flop_mask, NOT_DEALT, hs, x)))) by {
                lemma_bits_or(before, c as u64, x as u64);
                assert(card_in(before, x) <==> ((turn != NOT_DEALT && x == turn) || (x < c && !can_be_dealt(flop_mask, NOT_DEALT, hs, x))));
            }
        }
    }
    let r = 0x000f_ffff_ffff_ffffu64 ^ dead;
    proof {
        assert forall|x: int| 0 <= x < 64 implies (#[trigger] card_in(r, x) <==> x < 52 && can_be_dealt(flop_mask, turn, hs, x)) by {
            lemma_bits_complement(dead, x as u64);
            assert(card_in(dead, x) <==> ((turn != NOT_DEALT && x == turn) || (x < 52 && !can_be_dealt(flop_mask, NOT_DEALT, hs, x))));
        }
    }
    r
}

/// The number of cards that a chance node deals with equal weight: 45 on
/// the turn and 44 on the river, less the dead cards that bunching removes.
pub fn chance_factor(turn: Card, num_dead: usize) -> (r: usize)
    requires
        num_dead <= 44,
    ensures
        r == if turn == NOT_DEALT {
            45 - num_dead
        } else {
            44 - num_dead
        },
{
    if turn == NOT_DEALT {
        45 - num_dead
    } else {
        44 - num_dead
    }
}

/// The cards that a chance node deals, each to a child of its own, in
/// increasing order: those below 52 whose bit is not set in `dead` (the
/// cards on the board and those skipped as suit-isomorphic).
pub fn chance_cards(dead: u64) -> (r: Vec<u8>)
    ensures
        forall|i: int, j: int| 0 <= i < j < r@.len() ==> r@[i] < r@[j],
        forall|i: int| 0 <= i < r@.len() ==> r@[i] < 52,
        forall|c: int| 0 <= c < 52 ==> (r@.contains(c as u8) <==> !card_in(dead, c)),
{
    let mut out: Vec<u8> = Vec::new();
    for t in 0..52u8
        invariant
            forall|i: int, j: int| 0 <= i < j < out@.len() ==> out@[i] < out@[j],
            forall|i: int| 0 <= i < out@.len() ==> out@[i] < t,
            forall|c: int| 0 <= c < t ==> (out@.contains(c as u8) <==> !card_in(dead, c)),
    {
        let ghost before = out@;
        if (dead >> (t as u64)) & 1u64 != 1u64 {
            out.push(t);
        }
        proof {
            assert forall|c: int| 0 <= c < t + 1 implies (out@.contains(c as u8) <==> !card_in(dead, c)) by {
                if out@.contains(c as u8) {
                    let i = choose|i: int| 0 <= i < out@.len() && out@[i] == c as u8;
                    if i < before.len() {
                        assert(before[i] == c as u8);
                        assert(before.contains(c as u8));
                    }
                }
                if c < t && before.contains(c as u8) {
                    let i = choose|i: int| 0 <= i < before.len() && before[i] == c as u8;
                    assert(out@[i] == c as u8);
                }
                if c == t && !card_in(dead, c) {
                    assert(out@[out@.len() - 1] == t);
                }
            }
        }
    }
    out
}

} // verus!
