//! Integer groundwork of the post-flop game: how many game nodes each
//! street needs, which hands stay possible on a board, and which cards are
//! interchangeable by suit.
//!
//! Cards are numbered `0..52` as `4 * rank + suit`; `NOT_DEALT` stands for a
//! card that is not on the board yet. A hand is a pair of cards.

use vstd::prelude::*;
use crate::node::ActionTreeNode;
use crate::player::{is_terminal_player, is_chance_player};

verus! {

/// The number of nodes on street `s` that a walk from `node`, which stands
/// on street `street`, visits: every node of a betting round, and the first
/// branch below each chance node (the one that the game repeats for each
/// card).
pub open spec fn visits(node: ActionTreeNode, street: int, s: int) -> nat
    decreases node, 1int,
{
    (if street == s {
        1nat
    } else {
        0nat
    }) + if is_terminal_player(node.player) {
        0nat
    } else if is_chance_player(node.player) {
        if node.children@.len() > 0 {
            visits(node.children@[0], street + 1, s)
        } else {
            0nat
        }
    } else {
        visits_seq(node.children@, street, s)
    }
}

/// The sum of `visits` over the subtrees at `v`.
pub open spec fn visits_seq(v: Seq<ActionTreeNode>, street: int, s: int) -> nat
    decreases v, 0int,
{
    if v.len() == 0 {
        0nat
    } else {
        visits_seq(v.drop_last(), street, s) + visits(v.last(), street, s)
    }
}

/// A walk from `node` on street `street` never passes the river, and every
/// chance node on it has a branch to follow.
pub open spec fn streets_fit(node: ActionTreeNode, street: int) -> bool
    decreases node, 1int,
{
    &&& 0 <= street < 3
    &&& !is_terminal_player(node.player) && is_chance_player(node.player) ==> node.children@.len()
        > 0 && streets_fit(node.children@[0], street + 1)
    &&& !is_terminal_player(node.player) && !is_chance_player(node.player) ==> streets_fit_seq(
        node.children@,
        street,
    )
}

/// Every subtree at `v` fits, as `streets_fit` says.
pub open spec fn streets_fit_seq(v: Seq<ActionTreeNode>, street: int) -> bool
    decreases v, 0int,
{
    v.len() > 0 ==> streets_fit_seq(v.drop_last(), street) && streets_fit(v.last(), street)
}

/// The node counts per street of a walk, moved so that the last street
/// that has nodes is the river: a tree that starts on the turn counts its
/// nodes under the turn and the river.
pub open spec fn street_counts(c0: nat, c1: nat, c2: nat) -> Seq<nat> {
    if c1 == 0 {
        seq![0nat, 0nat, c0]
    } else if c2 == 0 {
        seq![0nat, c0, c1]
    } else {
        seq![c0, c1, c2]
    }
}

proof fn lemma_visits_seq_prefix(v: Seq<ActionTreeNode>, k: int, street: int, s: int)
    requires
        0 < k <= v.len(),
    ensures
        visits_seq(v.take(k), street, s) == visits_seq(v.take(k - 1), street, s) + visits(
            v[k - 1],
            street,
            s,
        ),
{
    assert(v.take(k).drop_last() =~= v.take(k - 1));
}

proof fn lemma_fits_seq(v: Seq<ActionTreeNode>, street: int, i: int)
    requires
        streets_fit_seq(v, street),
        0 <= i < v.len(),
    ensures
        streets_fit(v[i], street),
    decreases v.len(),
{
    if i < v.len() - 1 {
        lemma_fits_seq(v.drop_last(), street, i);
    }
}

/// Adds to `count[s]`, for each street `s`, the nodes on `s` that a walk
/// from `node` on street `street` visits.
fn count_action_nodes_internal(node: &ActionTreeNode, street: usize, count: &mut [u64; 3])
    requires
        streets_fit(*node, street as int),
        forall|s: int| 0 <= s < 3 ==> old(count)@[s] + visits(*node, street as int, s) <= u64::MAX,
    ensures
        forall|s: int| 0 <= s < 3 ==> final(count)@[s] == old(count)@[s] + visits(*node, street as int, s),
    decreases *node,
{
    proof {
        assert(old(count)@[street as int] + visits(*node, street as int, street as int) <= u64::MAX);
    }
    count[street] = count[street] + 1;
    if node.is_terminal() {
    } else if node.is_chance() {
        proof {
            assert forall|s: int| 0 <= s < 3 implies count@[s] + visits(
                node.children@[0],
                street + 1,
                s,
            ) <= u64::MAX by {
                assert(old(count)@[s] + visits(*node, street as int, s) <= u64::MAX);
            }
        }
        count_action_nodes_internal(&node.children[0], street + 1, count);
    } else {
        let n = node.children.len();
        let ghost base = *count;
        for i in 0..n
            invariant
                n == node.children@.len(),
                streets_fit_seq(node.children@, street as int),
                !is_terminal_player(node.player) && !is_chance_player(node.player),
                street < 3,
                forall|s: int| 0 <= s < 3 ==> old(count)@[s] + visits(*node, street as int, s) <= u64::MAX,
                forall|s: int| 0 <= s < 3 ==> base@[s] == old(count)@[s] + (if street as int == s { 1int } else { 0int }),
                forall|s: int| 0 <= s < 3 ==> count@[s] == base@[s] + visits_seq(node.children@.take(i as int), street as int, s),
        {
            proof {
                lemma_fits_seq(node.children@, street as int, i as int);
                assert forall|s: int| 0 <= s < 3 implies visits_seq(node.children@.take(i + 1), street as int, s)
                    <= visits_seq(node.children@, street as int, s) by {
                    lemma_visits_seq_prefix(node.children@, i + 1, street as int, s);
                    lemma_visits_seq_take(node.children@, i + 1, street as int, s);
                }
                assert forall|s: int| 0 <= s < 3 implies visits_seq(node.children@.take(i + 1), street as int, s)
                    == visits_seq(node.children@.take(i as int), street as int, s) + visits(node.children@[i as int], street as int, s) by {
                    lemma_visits_seq_prefix(node.children@, i + 1, street as int, s);
                }
                assert forall|s: int| 0 <= s < 3 implies count@[s] + visits(
                    node.children@[i as int],
                    street as int,
                    s,
                ) <= u64::MAX by {
                    assert(old(count)@[s] + visits(*node, street as int, s) <= u64::MAX);
                    lemma_visits_seq_prefix(node.children@, i + 1, street as int, s);
                    lemma_visits_seq_take(node.children@, i + 1, street as int, s);
                }
            }
            count_action_nodes_internal(&node.children[i], street, count);
        }
        proof {
            assert(node.children@.take(n as int) =~= node.children@);
        }
    }
}

proof fn lemma_visits_seq_take(v: Seq<ActionTreeNode>, k: int, street: int, s: int)
    requires
        0 <= k <= v.len(),
    ensures
        visits_seq(v.take(k), street, s) <= visits_seq(v, street, s),
    decreases v.len() - k,
{
    if k < v.len() {
        lemma_visits_seq_take(v, k + 1, street, s);
        lemma_visits_seq_prefix(v, k + 1, street, s);
    } else {
        assert(v.take(k) =~= v);
    }
}

/// The number of action-tree nodes per street that the game tree repeats
/// for each dealt card, with the last street that has nodes counted as the
/// river.
pub fn count_action_nodes(node: &ActionTreeNode) -> (r: [u64; 3])
    requires
        streets_fit(*node, 0),
        forall|s: int| 0 <= s < 3 ==> visits(*node, 0, s) <= u64::MAX,
    ensures
        r@ == street_counts(visits(*node, 0, 0), visits(*node, 0, 1), visits(*node, 0, 2)).map_values(
            |n: nat| n as u64,
        ),
{
    let mut count: [u64; 3] = [0, 0, 0];
    count_action_nodes_internal(node, 0, &mut count);
    let r = if count[1] == 0 {
        [0, 0, count[0]]
    } else if count[2] == 0 {
        [0, count[0], count[1]]
    } else {
        count
    };
    assert(r@ =~= street_counts(visits(*node, 0, 0), visits(*node, 0, 1), visits(*node, 0, 2)).map_values(
        |n: nat| n as u64,
    ));
    r
}

/// A card: `4 * rank + suit` for the cards `0..52`, or `NOT_DEALT`.
pub type Card = u8;

/// The card that stands for one not dealt yet.
pub const NOT_DEALT: Card = 0xFF;

/// A card number or the marker of a card not dealt.
pub open spec fn card_ok(c: Card) -> bool {
    c < 52 || c == NOT_DEALT
}

/// Two hole cards.
#[derive(Debug, Clone, Copy, PartialEq, Eq, Structural)]
pub struct Hand(pub Card, pub Card);

/// Both cards of the hand are real cards.
pub open spec fn hand_ok(h: Hand) -> bool {
    h.0 < 52 && h.1 < 52
}

/// The hand holds the dealt card `c`.
pub open spec fn hand_meets(h: Hand, c: Card) -> bool {
    c != NOT_DEALT && (h.0 == c || h.1 == c)
}

/// The indices, in order, of the hands at `hs` that hold neither `turn` nor
/// `river`.
pub open spec fn valid_idxs(hs: Seq<Hand>, turn: Card, river: Card) -> Seq<u16>
    decreases hs.len(),
{
    if hs.len() == 0 {
        Seq::empty()
    } else {
        let prev = valid_idxs(hs.drop_last(), turn, river);
        if !hand_meets(hs.last(), turn) && !hand_meets(hs.last(), river) {
            prev.push((hs.len() - 1) as u16)
        } else {
            prev
        }
    }
}

/// The one-bit mask of a card.
pub fn card_mask(c: Card) -> (r: u64)
    requires
        c < 52,
    ensures
        r == 1u64 << (c as u64),
{
    1u64 << (c as u64)
}

/// The mask of the two cards of a hand.
pub fn hand_mask(h: Hand) -> (r: u64)
    requires
        hand_ok(h),
    ensures
        r == (1u64 << (h.0 as u64)) | (1u64 << (h.1 as u64)),
{
    card_mask(h.0) | card_mask(h.1)
}

/// A hand mask misses a card bit exactly when neither card is that card.
proof fn lemma_hand_bits(a: u64, b: u64, c: u64)
    requires
        a < 52,
        b < 52,
        c < 52,
    ensures
        ((1u64 << a) | (1u64 << b)) & (1u64 << c) == 0 <==> a != c && b != c,
{
    assert(((1u64 << a) | (1u64 << b)) & (1u64 << c) == 0 <==> a != c && b != c) by (bit_vector)
        requires
            a < 52,
            b < 52,
            c < 52,
    ;
}

/// A mask misses a union exactly when it misses both parts.
proof fn lemma_and_or(m: u64, x: u64, y: u64)
    ensures
        m & (x | y) == 0 <==> m & x == 0 && m & y == 0,
        m & 0u64 == 0,
{
    assert(m & (x | y) == 0 <==> m & x == 0 && m & y == 0) by (bit_vector);
    assert(m & 0u64 == 0) by (bit_vector);
}

/// For each player, the indices of the hands that hold neither the turn nor
/// the river card (each where dealt).
pub fn valid_idxs_street(hands: &[Vec<Hand>; 2], turn: Card, river: Card) -> (r: [Vec<u16>; 2])
    requires
        card_ok(turn),
        card_ok(river),
        forall|p: int, i: int| 0 <= p < 2 && 0 <= i < hands@[p]@.len() ==> hand_ok(#[trigger] hands@[p]@[i]),
        hands@[0]@.len() <= 0x10000,
        hands@[1]@.len() <= 0x10000,
    ensures
        r@[0]@ == valid_idxs(hands@[0]@, turn, river),
        r@[1]@ == valid_idxs(hands@[1]@, turn, river),
{
    let tpart: u64 = if turn != NOT_DEALT {
        card_mask(turn)
    } else {
        0
    };
    let rpart: u64 = if river != NOT_DEALT {
        card_mask(river)
    } else {
        0
    };
    let used = tpart | rpart;
    let ghost tbit: u64 = tpart;
    let ghost rbit: u64 = rpart;
    let idxs0 = valid_idxs_player(&hands[0], turn, river, used, Ghost(tbit), Ghost(rbit));
    let idxs1 = valid_idxs_player(&hands[1], turn, river, used, Ghost(tbit), Ghost(rbit));
    [idxs0, idxs1]
}

/// The indices of the hands at `hands` that miss the cards of `used`, which
/// are the dealt ones of `turn` and `river`.
fn valid_idxs_player(
    hands: &Vec<Hand>,
    turn: Card,
    river: Card,
    used: u64,
    Ghost(tbit): Ghost<u64>,
    Ghost(rbit): Ghost<u64>,
) -> (r: Vec<u16>)
    requires
        card_ok(turn),
        card_ok(river),
        tbit == if turn != NOT_DEALT { 1u64 << (turn as u64) } else { 0 },
        rbit == if river != NOT_DEALT { 1u64 << (river as u64) } else { 0 },
        used == tbit | rbit,
        forall|i: int| 0 <= i < hands@.len() ==> hand_ok(#[trigger] hands@[i]),
        hands@.len() <= 0x10000,
    ensures
        r@ == valid_idxs(hands@, turn, river),
{
    let mut out: Vec<u16> = Vec::new();
    let n = hands.len();
    for i in 0..n
        invariant
            n == hands@.len(),
            n <= 0x10000,
            card_ok(turn),
            card_ok(river),
            tbit == if turn != NOT_DEALT { 1u64 << (turn as u64) } else { 0 },
            rbit == if river != NOT_DEALT { 1u64 << (river as u64) } else { 0 },
            used == tbit | rbit,
            forall|j: int| 0 <= j < hands@.len() ==> hand_ok(#[trigger] hands@[j]),
            out@ == valid_idxs(hands@.take(i as int), turn, river),
    {
        let h = hands[i];
        let m = hand_mask(h);
        proof {
            assert(hands@.take(i + 1).drop_last() =~= hands@.take(i as int));
            lemma_and_or(m, tbit, rbit);
            if turn != NOT_DEALT {
                lemma_hand_bits(h.0 as u64, h.1 as u64, turn as u64);
            }
            if river != NOT_DEALT {
                lemma_hand_bits(h.0 as u64, h.1 as u64, river as u64);
            }
        }
        if m & used == 0 {
            out.push(i as u16);
        }
    }
    proof {
        assert(hands@.take(n as int) =~= hands@);
    }
    out
}

/// The card `c` is among the bits of `mask`.
pub open spec fn in_mask(mask: u64, c: int) -> bool {
    mask & (1u64 << (c as u64)) != 0
}

/// The card of the same rank as `c` in suit `s`.
pub open spec fn with_suit(c: int, s: int) -> int {
    c - c % 4 + s
}

/// The card `c` is not dealt and its suit has no partner: it stands for
/// itself.
pub open spec fn is_rep(iso: Seq<Option<u8>>, mask: u64, c: int) -> bool {
    0 <= c < 52 && !in_mask(mask, c) && iso[c % 4] is None
}

/// The number of cards below `k` that stand for themselves.
pub open spec fn reps_below(iso: Seq<Option<u8>>, mask: u64, k: int) -> nat
    decreases k,
{
    if k <= 0 {
        0
    } else {
        reps_below(iso, mask, k - 1) + if is_rep(iso, mask, k - 1) {
            1nat
        } else {
            0nat
        }
    }
}

/// The card that stands for `c`, whose suit has the partner suit `s`.
pub open spec fn partner_card(iso: Seq<Option<u8>>, c: int) -> int {
    with_suit(c, iso[c % 4]->0 as int)
}

/// The position, among the cards that stand for themselves, of the card
/// that stands for `c`; 0 where that card comes later or does not stand
/// for itself.
pub open spec fn iso_ref_of(iso: Seq<Option<u8>>, mask: u64, c: int) -> u8 {
    let p = partner_card(iso, c);
    if p < c && is_rep(iso, mask, p) {
        reps_below(iso, mask, p) as u8
    } else {
        0
    }
}

/// The card `c` is not dealt and its suit has a partner.
pub open spec fn is_mirrored(iso: Seq<Option<u8>>, mask: u64, c: int) -> bool {
    0 <= c < 52 && !in_mask(mask, c) && iso[c % 4] is Some
}

/// For each mirrored card below `k`, in order, the reference of its partner.
pub open spec fn iso_refs(iso: Seq<Option<u8>>, mask: u64, k: int) -> Seq<u8>
    decreases k,
{
    if k <= 0 {
        Seq::empty()
    } else {
        let prev = iso_refs(iso, mask, k - 1);
        if is_mirrored(iso, mask, k - 1) {
            prev.push(iso_ref_of(iso, mask, k - 1))
        } else {
            prev
        }
    }
}

/// For each mirrored card below `k`, in order, the card that stands for it.
pub open spec fn iso_cards(iso: Seq<Option<u8>>, mask: u64, k: int) -> Seq<u8>
    decreases k,
{
    if k <= 0 {
        Seq::empty()
    } else {
        let prev = iso_cards(iso, mask, k - 1);
        if is_mirrored(iso, mask, k - 1) {
            prev.push(partner_card(iso, k - 1) as u8)
        } else {
            prev
        }
    }
}

proof fn lemma_reps_below_bound(iso: Seq<Option<u8>>, mask: u64, k: int)
    ensures
        reps_below(iso, mask, k) <= if k < 0 { 0 } else { k },
    decreases k,
{
    if k > 0 {
        lemma_reps_below_bound(iso, mask, k - 1);
    }
}

/// The suit of a card.
fn suit_of(c: u8) -> (r: usize)
    ensures
        r == c % 4,
{
    let s = c & 3;
    assert(c & 3 == c % 4) by (bit_vector);
    s as usize
}

/// Appends to `iso_ref`, for each card not in `mask` whose suit has a
/// partner in `isomorphic_suit`, the position of its partner among the cards
/// that stand for themselves; appends the partners themselves to `iso_card`
/// when it is empty.
pub fn iso_internal(
    iso_ref: &mut Vec<u8>,
    iso_card: &mut Vec<u8>,
    isomorphic_suit: &[Option<u8>; 4],
    mask: u64,
)
    requires
        forall|s: int| 0 <= s < 4 && (#[trigger] isomorphic_suit@[s]) is Some ==> isomorphic_suit@[s]->0 < 4,
    ensures
        final(iso_ref)@ == old(iso_ref)@ + iso_refs(isomorphic_suit@, mask, 52),
        final(iso_card)@ == if old(iso_card)@.len() == 0 {
            iso_cards(isomorphic_suit@, mask, 52)
        } else {
            old(iso_card)@
        },
{
    let ghost iso = isomorphic_suit@;
    let push_card = iso_card.len() == 0;
    let mut counter: u8 = 0;
    let mut idxs: [u8; 52] = [0; 52];
    for c in 0..52u8
        invariant
            iso == isomorphic_suit@,
            forall|s: int| 0 <= s < 4 && (#[trigger] isomorphic_suit@[s]) is Some ==> isomorphic_suit@[s]->0 < 4,
            push_card == (old(iso_card)@.len() == 0),
            counter == reps_below(iso, mask, c as int),
            forall|x: int| 0 <= x < 52 ==> #[trigger] idxs@[x] == if x < c && is_rep(iso, mask, x) {
                reps_below(iso, mask, x) as u8
            } else {
                0u8
            },
            iso_ref@ == old(iso_ref)@ + iso_refs(iso, mask, c as int),
            iso_card@ == if push_card {
                iso_cards(iso, mask, c as int)
            } else {
                old(iso_card)@
            },
    {
        proof {
            lemma_reps_below_bound(iso, mask, c as int);
        }
        let bit = card_mask(c);
        if mask & bit != 0 {
            proof {
                assert(!is_rep(iso, mask, c as int) && !is_mirrored(iso, mask, c as int));
            }
        } else {
            let suit = suit_of(c);
            match isomorphic_suit[suit] {
                Some(swap_suit) => {
                    let swap_card = c - (suit as u8) + swap_suit;
                    proof {
                        assert(swap_card as int == partner_card(iso, c as int));
                    }
                    let r = idxs[swap_card as usize];
                    iso_ref.push(r);
                    if push_card {
                        iso_card.push(swap_card);
                    }
                    proof {
                        assert(r == iso_ref_of(iso, mask, c as int));
                        assert(!is_rep(iso, mask, c as int));
                    }
                },
                None => {
                    idxs[c as usize] = counter;
                    counter = counter + 1;
                },
            }
        }
    }
}

/// The card `c` with the suits `s0` and `s1` exchanged.
pub open spec fn swap_card(c: int, s0: int, s1: int) -> int {
    if c % 4 == s0 {
        with_suit(c, s1)
    } else if c % 4 == s1 {
        with_suit(c, s0)
    } else {
        c
    }
}

/// The position of the two-card hand `{a, b}` among the 1326 hands.
pub open spec fn hand_index(a: int, b: int) -> int {
    if a < b {
        b * (b - 1) / 2 + a
    } else {
        a * (a - 1) / 2 + b
    }
}

/// The two cards differ and are real cards.
pub open spec fn hand_distinct(h: Hand) -> bool {
    hand_ok(h) && h.0 != h.1
}

/// The last position at `hs` of a hand with index `k`, or -1.
pub open spec fn last_position(hs: Seq<Hand>, k: int) -> int
    decreases hs.len(),
{
    if hs.len() == 0 {
        -1
    } else if hand_index(hs.last().0 as int, hs.last().1 as int) == k {
        hs.len() - 1
    } else {
        last_position(hs.drop_last(), k)
    }
}

/// The table entry for the hand index `k`: its last position at `hs`, or
/// `usize::MAX`.
pub open spec fn table_entry(hs: Seq<Hand>, k: int) -> usize {
    let p = last_position(hs, k);
    if p < 0 {
        usize::MAX
    } else {
        p as usize
    }
}

/// For each hand at `hs` below `n`, in order, the pair of its position and
/// the table entry of the hand with suits `s0` and `s1` exchanged, where
/// that entry is larger.
pub open spec fn swap_pairs(hs: Seq<Hand>, s0: int, s1: int, n: int) -> Seq<(u16, u16)>
    decreases n,
{
    if n <= 0 {
        Seq::empty()
    } else {
        let prev = swap_pairs(hs, s0, s1, n - 1);
        let h = hs[n - 1];
        let j = table_entry(
            hs,
            hand_index(swap_card(h.0 as int, s0, s1), swap_card(h.1 as int, s0, s1)),
        );
        if n - 1 < j {
            prev.push(((n - 1) as u16, j as u16))
        } else {
            prev
        }
    }
}

/// `last_position` finds the last hand with the index, if there is one.
pub proof fn lemma_last_position(hs: Seq<Hand>, k: int)
    ensures
        last_position(hs, k) >= 0 ==> last_position(hs, k) < hs.len() && hand_index(
            hs[last_position(hs, k)].0 as int,
            hs[last_position(hs, k)].1 as int,
        ) == k,
        last_position(hs, k) < 0 ==> forall|q: int|
            0 <= q < hs.len() ==> hand_index((#[trigger] hs[q]).0 as int, hs[q].1 as int) != k,
    decreases hs.len(),
{
    if hs.len() > 0 {
        lemma_last_position(hs.drop_last(), k);
        assert forall|q: int| 0 <= q < hs.len() - 1 implies #[trigger] hs[q] == hs.drop_last()[q] by {}
    }
}

/// Exchanging the suits `s0` and `s1` maps the first hand of each pair that
/// `swap_pairs` lists onto the second: the second position holds the hand
/// with the suits exchanged, after the first. Where that hand is not among
/// `hs` at all, the pair's second position names no hand.
pub proof fn law_swap_pairs_are_suit_swaps(hs: Seq<Hand>, s0: int, s1: int, n: int, k: int)
    requires
        0 <= n <= hs.len() <= 65536,
        0 <= k < swap_pairs(hs, s0, s1, n).len(),
    ensures
        ({
            let pair = swap_pairs(hs, s0, s1, n)[k];
            let h = hs[pair.0 as int];
            let target = hand_index(swap_card(h.0 as int, s0, s1), swap_card(h.1 as int, s0, s1));
            &&& pair.0 < n
            &&& last_position(hs, target) >= 0 ==> pair.0 < pair.1 < hs.len() && hand_index(
                hs[pair.1 as int].0 as int,
                hs[pair.1 as int].1 as int,
            ) == target
            &&& last_position(hs, target) < 0 ==> forall|q: int|
                0 <= q < hs.len() ==> hand_index((#[trigger] hs[q]).0 as int, hs[q].1 as int) != target
        }),
    decreases n,
{
    let prev = swap_pairs(hs, s0, s1, n - 1);
    if k < prev.len() {
        law_swap_pairs_are_suit_swaps(hs, s0, s1, n - 1, k);
        assert(swap_pairs(hs, s0, s1, n)[k] == prev[k]);
    } else {
        let h = hs[n - 1];
        let target = hand_index(swap_card(h.0 as int, s0, s1), swap_card(h.1 as int, s0, s1));
        lemma_last_position(hs, target);
        let pair = swap_pairs(hs, s0, s1, n)[k];
        assert(pair.0 == n - 1);
    }
}

/// The position of a hand among the 1326 hands.
fn hand_idx(a: u8, b: u8) -> (r: usize)
    requires
        a < 52,
        b < 52,
        a != b,
    ensures
        r == hand_index(a as int, b as int),
        r < 1326,
{
    let (lo, hi) = if a < b {
        (a as usize, b as usize)
    } else {
        (b as usize, a as usize)
    };
    proof {
        assert(hi * (hi - 1) / 2 + lo < 1326) by (nonlinear_arith)
            requires
                lo < hi < 52,
        ;
        assert(hi * (hi - 1) >= 0) by (nonlinear_arith)
            requires
                hi >= 1,
        ;
    }
    hi * (hi - 1) / 2 + lo
}

/// The card `c` with the suits `s0` and `s1` exchanged.
fn swap_suits(c: u8, s0: u8, s1: u8) -> (r: u8)
    requires
        c < 52,
        s0 < 4,
        s1 < 4,
    ensures
        r == swap_card(c as int, s0 as int, s1 as int),
        r < 52,
        r % 4 == swap_card(c as int, s0 as int, s1 as int) % 4,
{
    let suit = suit_of(c) as u8;
    if suit == s0 {
        c - s0 + s1
    } else if suit == s1 {
        c - s1 + s0
    } else {
        c
    }
}

/// Sets the table so that the entry for each hand index is the last
/// position of such a hand at `hands`, or `usize::MAX`.
fn fill_table(table: &mut [usize], hands: &Vec<Hand>)
    requires
        old(table)@.len() >= 1326,
        forall|i: int| 0 <= i < hands@.len() ==> hand_distinct(#[trigger] hands@[i]),
    ensures
        final(table)@.len() == old(table)@.len(),
        forall|k: int| 0 <= k < final(table)@.len() ==> #[trigger] final(table)@[k] == table_entry(hands@, k),
{
    let len = table.len();
    for k in 0..len
        invariant
            len == table@.len(),
            table@.len() == old(table)@.len(),
            forall|x: int| 0 <= x < k ==> #[trigger] table@[x] == usize::MAX,
    {
        table[k] = usize::MAX;
    }
    let n = hands.len();
    for i in 0..n
        invariant
            n == hands@.len(),
            len == table@.len(),
            len >= 1326,
            forall|j: int| 0 <= j < hands@.len() ==> hand_distinct(#[trigger] hands@[j]),
            forall|x: int| 0 <= x < len ==> #[trigger] table@[x] == table_entry(hands@.take(i as int), x),
    {
        let h = hands[i];
        let k = hand_idx(h.0, h.1);
        table[k] = i;
        proof {
            assert(hands@.take(i + 1).drop_last() =~= hands@.take(i as int));
            assert forall|x: int| 0 <= x < len implies #[trigger] table@[x] == table_entry(
                hands@.take(i + 1),
                x,
            ) by {
                assert(hands@.take(i + 1).last() == h);
            }
        }
    }
    proof {
        assert(hands@.take(n as int) =~= hands@);
    }
}

/// The pairs of `swap_pairs` for all of `hands`, read from a filled table.
fn player_swaps(table: &[usize], hands: &Vec<Hand>, s0: u8, s1: u8) -> (r: Vec<(u16, u16)>)
    requires
        table@.len() >= 1326,
        forall|k: int| 0 <= k < table@.len() ==> #[trigger] table@[k] == table_entry(hands@, k),
        forall|i: int| 0 <= i < hands@.len() ==> hand_distinct(#[trigger] hands@[i]),
        s0 < 4,
        s1 < 4,
        s0 != s1,
    ensures
        r@ == swap_pairs(hands@, s0 as int, s1 as int, hands@.len() as int),
{
    let mut out: Vec<(u16, u16)> = Vec::new();
    let n = hands.len();
    for i in 0..n
        invariant
            n == hands@.len(),
            table@.len() >= 1326,
            forall|k: int| 0 <= k < table@.len() ==> #[trigger] table@[k] == table_entry(hands@, k),
            forall|j: int| 0 <= j < hands@.len() ==> hand_distinct(#[trigger] hands@[j]),
            s0 < 4,
            s1 < 4,
            s0 != s1,
            out@ == swap_pairs(hands@, s0 as int, s1 as int, i as int),
    {
        let h = hands[i];
        let c1 = swap_suits(h.0, s0, s1);
        let c2 = swap_suits(h.1, s0, s1);
        proof {
            // Exchanging two suits keeps two different cards different.
            assert(c1 != c2) by {
                assert(h.0 != h.1);
                assert(h.0 % 4 == s0 ==> c1 == h.0 - s0 + s1);
                assert(h.1 % 4 == s0 ==> c2 == h.1 - s0 + s1);
            }
        }
        let k = hand_idx(c1, c2);
        let j = table[k];
        if i < j {
            out.push((i as u16, j as u16));
        }
    }
    out
}

/// Fills, for the suits `suits[0]` and `suits[1]` and each player whose list
/// at `swap_list[suits[0]]` is still empty, the pairs of hand positions
/// that exchanging the two suits maps onto each other. `reverse_table` is
/// scratch space, left as the table of the last player filled.
pub fn iso_swap_internal(
    swap_list: &mut [[Vec<(u16, u16)>; 2]; 4],
    reverse_table: &mut [usize],
    suits: [u8; 2],
    hands: &[Vec<Hand>; 2],
)
    requires
        old(reverse_table)@.len() >= 1326,
        suits@[0] < 4,
        suits@[1] < 4,
        suits@[0] != suits@[1],
        forall|p: int, i: int| 0 <= p < 2 && 0 <= i < hands@[p]@.len() ==> hand_distinct(#[trigger] hands@[p]@[i]),
    ensures
        forall|s: int| 0 <= s < 4 && s != suits@[0] ==> #[trigger] final(swap_list)@[s] == old(swap_list)@[s],
        forall|p: int| 0 <= p < 2 ==> #[trigger] final(swap_list)@[suits@[0] as int]@[p]@ == if old(swap_list)@[suits@[0] as int]@[p]@.len() == 0 {
            swap_pairs(hands@[p]@, suits@[0] as int, suits@[1] as int, hands@[p]@.len() as int)
        } else {
            old(swap_list)@[suits@[0] as int]@[p]@
        },
        final(reverse_table)@.len() == old(reverse_table)@.len(),
        forall|k: int| 0 <= k < old(reverse_table)@.len() ==> #[trigger] final(reverse_table)@[k] == if old(swap_list)@[suits@[0] as int]@[1]@.len() == 0 {
            table_entry(hands@[1]@, k)
        } else if old(swap_list)@[suits@[0] as int]@[0]@.len() == 0 {
            table_entry(hands@[0]@, k)
        } else {
            old(reverse_table)@[k]
        },
{
    let s0 = suits[0] as usize;
    for player in 0..2usize
        invariant
            s0 == suits@[0],
            reverse_table@.len() == old(reverse_table)@.len(),
            old(reverse_table)@.len() >= 1326,
            suits@[0] < 4,
            suits@[1] < 4,
            suits@[0] != suits@[1],
            forall|p: int, i: int| 0 <= p < 2 && 0 <= i < hands@[p]@.len() ==> hand_distinct(#[trigger] hands@[p]@[i]),
            forall|s: int| 0 <= s < 4 && s != s0 ==> #[trigger] swap_list@[s] == old(swap_list)@[s],
            forall|p: int| player <= p < 2 ==> #[trigger] swap_list@[s0 as int]@[p] == old(swap_list)@[s0 as int]@[p],
            forall|p: int| 0 <= p < player ==> #[trigger] swap_list@[s0 as int]@[p]@ == if old(swap_list)@[s0 as int]@[p]@.len() == 0 {
                swap_pairs(hands@[p]@, s0 as int, suits@[1] as int, hands@[p]@.len() as int)
            } else {
                old(swap_list)@[s0 as int]@[p]@
            },
            forall|k: int| 0 <= k < old(reverse_table)@.len() ==> #[trigger] reverse_table@[k] == if player > 1 && old(swap_list)@[s0 as int]@[1]@.len() == 0 {
                table_entry(hands@[1]@, k)
            } else if player > 0 && old(swap_list)@[s0 as int]@[0]@.len() == 0 {
                table_entry(hands@[0]@, k)
            } else {
                old(reverse_table)@[k]
            },
    {
        if swap_list[s0][player].len() == 0 {
            fill_table(reverse_table, &hands[player]);
            let pairs = player_swaps(reverse_table, &hands[player], suits[0], suits[1]);
            swap_list[s0][player] = pairs;
        }
    }
}

/// The sum of the one-bit masks of the cards at `cs`.
pub open spec fn mask_sum(cs: Seq<u8>) -> int
    decreases cs.len(),
{
    if cs.len() == 0 {
        0
    } else {
        mask_sum(cs.drop_last()) + (1u64 << (cs.last() as u64))
    }
}

/// The number of river cards, summed over the turn cards below `k` that are
/// neither on the flop nor skipped, that each such turn leaves to deal.
pub open spec fn river_coeff_below(
    flop_mask: u64,
    skip_mask: u64,
    iso_card_river: Seq<Seq<u8>>,
    k: int,
) -> int
    decreases k,
{
    if k <= 0 {
        0
    } else {
        river_coeff_below(flop_mask, skip_mask, iso_card_river, k - 1) + if (1u64 << ((k - 1) as u64))
            & (flop_mask | skip_mask) == 0 {
            48 - iso_card_river[(k - 1) % 4].len()
        } else {
            0
        }
    }
}

/// How many times the game repeats the turn and the river nodes of the
/// action tree: once for each turn (and each river after it) that can still
/// come, less the cards that an isomorphic card stands for.
pub open spec fn street_coeffs(
    flop_mask: u64,
    turn: Card,
    river: Card,
    iso_card_turn: Seq<u8>,
    iso_card_river: Seq<Seq<u8>>,
) -> (int, int) {
    if turn == NOT_DEALT {
        (
            49 - iso_card_turn.len(),
            river_coeff_below(flop_mask, mask_sum(iso_card_turn) as u64, iso_card_river, 52),
        )
    } else if river == NOT_DEALT {
        (1, 48 - iso_card_river[(turn % 4) as int].len())
    } else {
        (0, 1)
    }
}

/// The number of game-tree nodes on each street: the action-tree counts of
/// each street times the number of boards that repeat them.
pub fn count_nodes(
    num_action_nodes: [u64; 3],
    flop_mask: u64,
    turn: Card,
    river: Card,
    iso_card_turn: &Vec<u8>,
    iso_card_river: &[Vec<u8>; 4],
) -> (r: [u64; 3])
    requires
        turn == NOT_DEALT || turn < 52,
        forall|i: int| 0 <= i < iso_card_turn@.len() ==> #[trigger] iso_card_turn@[i] < 64,
        mask_sum(iso_card_turn@) <= u64::MAX,
        iso_card_turn@.len() <= 48,
        forall|s: int| 0 <= s < 4 ==> #[trigger] iso_card_river@[s]@.len() <= 48,
        num_action_nodes@[1] * street_coeffs(flop_mask, turn, river, iso_card_turn@, iso_card_river@.map_values(|v: Vec<u8>| v@)).0 <= u64::MAX,
        num_action_nodes@[2] * street_coeffs(flop_mask, turn, river, iso_card_turn@, iso_card_river@.map_values(|v: Vec<u8>| v@)).1 <= u64::MAX,
    ensures
        ({
            let (tc, rc) = street_coeffs(flop_mask, turn, river, iso_card_turn@, iso_card_river@.map_values(|v: Vec<u8>| v@));
            r@ == seq![num_action_nodes@[0], (num_action_nodes@[1] * tc) as u64, (num_action_nodes@[2] * rc) as u64]
        }),
{
    let ghost rivers = iso_card_river@.map_values(|v: Vec<u8>| v@);
    let (turn_coeff, river_coeff): (u64, u64) = if turn == NOT_DEALT {
        let mut skip_mask: u64 = 0;
        let n = iso_card_turn.len();
        for i in 0..n
            invariant
                n == iso_card_turn@.len(),
                forall|j: int| 0 <= j < iso_card_turn@.len() ==> #[trigger] iso_card_turn@[j] < 64,
                mask_sum(iso_card_turn@) <= u64::MAX,
                skip_mask == mask_sum(iso_card_turn@.take(i as int)),
        {
            proof {
                assert(iso_card_turn@.take(i + 1).drop_last() =~= iso_card_turn@.take(i as int));
                lemma_mask_sum_prefix(iso_card_turn@, i + 1);
            }
            skip_mask = skip_mask + card_bit(iso_card_turn[i]);
        }
        proof {
            assert(iso_card_turn@.take(n as int) =~= iso_card_turn@);
        }
        let mut rc: u64 = 0;
        for t in 0..52u8
            invariant
                forall|s: int| 0 <= s < 4 ==> #[trigger] iso_card_river@[s]@.len() <= 48,
                rivers == iso_card_river@.map_values(|v: Vec<u8>| v@),
                rc == river_coeff_below(flop_mask, skip_mask, rivers, t as int),
                rc <= 48 * t,
        {
            if card_bit(t) & (flop_mask | skip_mask) == 0 {
                let suit = suit_of(t);
                rc = rc + (48 - iso_card_river[suit].len() as u64);
            }
        }
        ((49 - n) as u64, rc)
    } else if river == NOT_DEALT {
        let suit = suit_of(turn);
        (1, (48 - iso_card_river[suit].len()) as u64)
    } else {
        (0, 1)
    };
    let r = [num_action_nodes[0], num_action_nodes[1] * turn_coeff, num_action_nodes[2] * river_coeff];
    assert(r@ =~= seq![num_action_nodes@[0], (num_action_nodes@[1] * turn_coeff) as u64, (num_action_nodes@[2] * river_coeff) as u64]);
    r
}

/// The one-bit mask of a card number below 64.
fn card_bit(c: u8) -> (r: u64)
    requires
        c < 64,
    ensures
        r == 1u64 << (c as u64),
{
    1u64 << (c as u64)
}

proof fn lemma_mask_sum_prefix(cs: Seq<u8>, k: int)
    requires
        0 <= k <= cs.len(),
    ensures
        mask_sum(cs.take(k)) <= mask_sum(cs),
        0 <= mask_sum(cs.take(k)),
    decreases cs.len() - k,
{
    if k < cs.len() {
        lemma_mask_sum_prefix(cs, k + 1);
        assert(cs.take(k + 1).drop_last() =~= cs.take(k));
        assert(1u64 << (cs[k] as u64) >= 0);
    } else {
        assert(cs.take(k) =~= cs);
    }
    lemma_mask_sum_nonneg(cs.take(k));
}

proof fn lemma_mask_sum_nonneg(cs: Seq<u8>)
    ensures
        mask_sum(cs) >= 0,
    decreases cs.len(),
{
    if cs.len() > 0 {
        lemma_mask_sum_nonneg(cs.drop_last());
    }
}

/// The street of a board: the river once the river card is dealt, else the
/// turn once the turn card is dealt, else the flop.
pub open spec fn board_street(turn_dealt: bool, river_dealt: bool) -> crate::Street {
    if river_dealt {
        crate::Street::River
    } else if turn_dealt {
        crate::Street::Turn
    } else {
        crate::Street::Flop
    }
}

/// Why no game can be built from `tree` on a board with the given cards
/// dealt, checked in this order: an action tree with a line that ends at a
/// node that is neither terminal nor has an action, a board without a flop,
/// a board on another street than the tree's initial street.
pub fn check_game_inputs(
    tree: &crate::tree::ActionTree,
    flop_dealt: bool,
    turn_dealt: bool,
    river_dealt: bool,
) -> (r: Result<(), crate::ConfigError>)
    ensures
        crate::tree::invalid_lines(tree.root, Seq::empty()).len() > 0 ==> r
            == Err::<(), crate::ConfigError>(crate::ConfigError::InvalidTerminalNode),
        crate::tree::invalid_lines(tree.root, Seq::empty()).len() == 0 && !flop_dealt ==> r
            == Err::<(), crate::ConfigError>(crate::ConfigError::MissingFlop),
        crate::tree::invalid_lines(tree.root, Seq::empty()).len() == 0 && flop_dealt && board_street(
            turn_dealt,
            river_dealt,
        ) != tree.config.initial_street ==> r == Err::<(), crate::ConfigError>(
            crate::ConfigError::MismatchedStreets,
        ),
        r is Ok <==> (crate::tree::invalid_lines(tree.root, Seq::empty()).len() == 0 && flop_dealt
            && board_street(turn_dealt, river_dealt) == tree.config.initial_street),
{
    let invalid = tree.invalid_terminals();
    if invalid.len() > 0 {
        return Err(crate::ConfigError::InvalidTerminalNode);
    }
    if !flop_dealt {
        return Err(crate::ConfigError::MissingFlop);
    }
    let street = if river_dealt {
        crate::Street::River
    } else if turn_dealt {
        crate::Street::Turn
    } else {
        crate::Street::Flop
    };
    if street != tree.config.initial_street {
        return Err(crate::ConfigError::MismatchedStreets);
    }
    Ok(())
}

} // verus!
