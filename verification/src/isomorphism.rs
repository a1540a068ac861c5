//! Suit isomorphism of a post-flop game: which suits the ranges and the
//! board treat alike, so that the game needs to deal only one card of each
//! such pair of suits on the turn and the river.

use vstd::prelude::*;
use crate::postflop::{
    card_mask,
    Card, Hand, NOT_DEALT, hand_distinct, iso_internal, iso_swap_internal, iso_refs, iso_cards,
    swap_pairs,
};

verus! {

/// The first suit below `k` that `pairs` marks as alike to `s2`.
pub open spec fn first_alike(pairs: Seq<Seq<bool>>, s2: int, k: int) -> Option<int>
    decreases k,
{
    if k <= 0 {
        None
    } else {
        match first_alike(pairs, s2, k - 1) {
            Some(x) => Some(x),
            None => if pairs[k - 1][s2] {
                Some(k - 1)
            } else {
                None
            },
        }
    }
}

/// The class of each of the suits below `n`, and the next class number:
/// a suit joins the class of the first lower suit that both ranges treat
/// alike, or opens a class of its own.
pub open spec fn suit_classes(pairs: Seq<Seq<bool>>, n: int) -> (Seq<u8>, u8)
    decreases n,
{
    if n <= 1 {
        (seq![0u8], 1u8)
    } else {
        let (c, next) = suit_classes(pairs, n - 1);
        match first_alike(pairs, n - 1, n - 1) {
            Some(s1) => (c.push(c[s1]), next),
            None => (c.push(next), (next + 1) as u8),
        }
    }
}

/// The ranks, as bits, of the cards at `cs` in suit `s`.
pub open spec fn rankset(cs: Seq<u8>, s: int) -> u16
    decreases cs.len(),
{
    if cs.len() == 0 {
        0
    } else if cs.last() % 4 == s {
        rankset(cs.drop_last(), s) | (1u16 << ((cs.last() / 4) as u16))
    } else {
        rankset(cs.drop_last(), s)
    }
}

/// The first suit below `k` that can stand for `s1`: alike to it in the
/// ranges (`cls`), with the same ranks in `b` and, unless `relax`, in `a`.
pub open spec fn partner(a: Seq<u16>, b: Seq<u16>, cls: Seq<u8>, relax: bool, s1: int, k: int) -> Option<
    u8,
>
    decreases k,
{
    if k <= 0 {
        None
    } else {
        match partner(a, b, cls, relax, s1, k - 1) {
            Some(x) => Some(x),
            None => {
                let s2 = k - 1;
                if (relax || a[s1] == a[s2]) && b[s1] == b[s2] && cls[s1] == cls[s2] {
                    Some(s2 as u8)
                } else {
                    None
                }
            },
        }
    }
}

/// For each suit, the lower suit that stands for it, if any.
pub open spec fn iso_suits(a: Seq<u16>, b: Seq<u16>, cls: Seq<u8>, relax: bool) -> Seq<Option<u8>> {
    seq![
        None,
        partner(a, b, cls, relax, 1, 1),
        partner(a, b, cls, relax, 2, 2),
        partner(a, b, cls, relax, 3, 3),
    ]
}

/// The lists of hand pairs per suit and player, with each empty list of a
/// suit that has a partner filled with the pairs that exchanging the two
/// suits maps onto each other.
pub open spec fn fill_swaps(
    lists: Seq<Seq<Seq<(u16, u16)>>>,
    iso: Seq<Option<u8>>,
    hands: Seq<Seq<Hand>>,
) -> Seq<Seq<Seq<(u16, u16)>>> {
    Seq::new(
        4,
        |s: int|
            Seq::new(
                2,
                |p: int|
                    match iso[s] {
                        Some(s2) => if lists[s][p].len() == 0 {
                            swap_pairs(hands[p], s, s2 as int, hands[p].len() as int)
                        } else {
                            lists[s][p]
                        },
                        None => lists[s][p],
                    },
            ),
    )
}

/// The lists of an array of swap lists.
pub open spec fn swaps_view(x: [[Vec<(u16, u16)>; 2]; 4]) -> Seq<Seq<Seq<(u16, u16)>>> {
    Seq::new(4, |s: int| Seq::new(2, |p: int| x@[s]@[p]@))
}

/// Four by two empty lists.
pub open spec fn no_swaps() -> Seq<Seq<Seq<(u16, u16)>>> {
    Seq::new(4, |s: int| Seq::new(2, |p: int| Seq::<(u16, u16)>::empty()))
}

/// The mask of the flop cards.
pub open spec fn flop_bits(flop: Seq<u8>) -> u64 {
    (1u64 << (flop[0] as u64)) | (1u64 << (flop[1] as u64)) | (1u64 << (flop[2] as u64))
}

/// The ranks per suit of the flop.
pub open spec fn flop_ranks(flop: Seq<u8>) -> Seq<u16> {
    Seq::new(4, |s: int| rankset(flop, s))
}

/// The ranks per suit of the flop and the turn card `t`.
pub open spec fn turn_ranks(flop: Seq<u8>, t: int) -> Seq<u16> {
    flop_ranks(flop).update(t % 4, flop_ranks(flop)[t % 4] | (1u16 << ((t / 4) as u16)))
}

/// The card `t` cannot be the turn: it is on the flop, or another card is
/// the turn.
pub open spec fn not_a_turn(flop: Seq<u8>, turn: Card, t: int) -> bool {
    flop_bits(flop) & (1u64 << (t as u64)) != 0 || (turn != NOT_DEALT && turn != t)
}

/// The suits that stand for others once `t` is the turn.
pub open spec fn river_iso(flop: Seq<u8>, turn: Card, cls: Seq<u8>, t: int) -> Seq<Option<u8>> {
    iso_suits(flop_ranks(flop), turn_ranks(flop, t), cls, turn != NOT_DEALT)
}

/// The swap lists per turn suit after the turns below `k`.
pub open spec fn river_swaps(
    flop: Seq<u8>,
    turn: Card,
    cls: Seq<u8>,
    hands: Seq<Seq<Hand>>,
    k: int,
) -> Seq<Seq<Seq<Seq<(u16, u16)>>>>
    decreases k,
{
    if k <= 0 {
        Seq::new(4, |u: int| no_swaps())
    } else {
        let prev = river_swaps(flop, turn, cls, hands, k - 1);
        let t = k - 1;
        if not_a_turn(flop, turn, t) {
            prev
        } else {
            prev.update(t % 4, fill_swaps(prev[t % 4], river_iso(flop, turn, cls, t), hands))
        }
    }
}

/// The cards that others stand for, per turn suit, after the turns below
/// `k`: the list of the first turn of the suit that has one.
pub open spec fn river_cards(flop: Seq<u8>, turn: Card, cls: Seq<u8>, k: int) -> Seq<Seq<u8>>
    decreases k,
{
    if k <= 0 {
        Seq::new(4, |u: int| Seq::<u8>::empty())
    } else {
        let prev = river_cards(flop, turn, cls, k - 1);
        let t = k - 1;
        if not_a_turn(flop, turn, t) || prev[t % 4].len() != 0 {
            prev
        } else {
            prev.update(
                t % 4,
                iso_cards(
                    river_iso(flop, turn, cls, t),
                    flop_bits(flop) | (1u64 << (t as u64)),
                    52,
                ),
            )
        }
    }
}

/// For the turn `t`, the references of the river cards that others stand
/// for (none where `t` cannot be the turn).
pub open spec fn river_refs(flop: Seq<u8>, turn: Card, cls: Seq<u8>, t: int) -> Seq<u8> {
    if not_a_turn(flop, turn, t) {
        Seq::empty()
    } else {
        iso_refs(river_iso(flop, turn, cls, t), flop_bits(flop) | (1u64 << (t as u64)), 52)
    }
}

/// The suit isomorphism of a game: the cards that other cards stand for on
/// the turn and (per turn) on the river, the references of those, and the
/// hand pairs that exchanging suits maps onto each other.
pub struct Isomorphism {
    pub ref_turn: Vec<u8>,
    pub card_turn: Vec<u8>,
    pub swap_turn: [[Vec<(u16, u16)>; 2]; 4],
    pub ref_river: Vec<Vec<u8>>,
    pub card_river: [Vec<u8>; 4],
    pub swap_river: [[[Vec<(u16, u16)>; 2]; 4]; 4],
}

/// The inputs are cards and hands of a game.
pub open spec fn iso_inputs_ok(flop: Seq<u8>, turn: Card, river: Card, hands: Seq<Seq<Hand>>) -> bool {
    &&& flop.len() == 3
    &&& forall|i: int| 0 <= i < 3 ==> #[trigger] flop[i] < 52
    &&& turn < 52 || turn == NOT_DEALT
    &&& river < 52 || river == NOT_DEALT
    &&& hands.len() == 2
    &&& forall|p: int, i: int| 0 <= p < 2 && 0 <= i < hands[p].len() ==> hand_distinct(#[trigger] hands[p][i])
}

proof fn lemma_first_alike(pairs: Seq<Seq<bool>>, s2: int, k: int)
    ensures
        first_alike(pairs, s2, k) matches Some(x) ==> 0 <= x < k,
    decreases k,
{
    if k > 0 {
        lemma_first_alike(pairs, s2, k - 1);
    }
}

/// The class of each suit, as `suit_classes` states; `alike[s1][s2]` tells
/// whether both ranges treat the suits `s1 < s2` alike.
pub fn classes_of_suits(alike: &[[bool; 4]; 4]) -> (r: [u8; 4])
    ensures
        r@ == suit_classes(Seq::new(4, |i: int| alike@[i]@), 4).0,
{
    let ghost pairs = Seq::new(4, |i: int| alike@[i]@);
    let mut cls: [u8; 4] = [0, 0, 0, 0];
    let mut next: u8 = 1;
    for s2 in 1..4usize
        invariant
            pairs == Seq::new(4, |i: int| alike@[i]@),
            cls@.subrange(0, s2 as int) == suit_classes(pairs, s2 as int).0,
            next == suit_classes(pairs, s2 as int).1,
            1 <= next <= s2,
            forall|i: int| 0 <= i < s2 ==> cls@[i] < next,
    {
        let mut found: Option<usize> = None;
        for s1 in 0..s2
            invariant
                pairs == Seq::new(4, |i: int| alike@[i]@),
                s2 < 4,
                found matches Some(x) ==> x < s1,
                found == match first_alike(pairs, s2 as int, s1 as int) {
                    Some(x) => Some(x as usize),
                    None => None::<usize>,
                },
        {
            if found.is_none() && alike[s1][s2] {
                found = Some(s1);
            }
        }
        let ghost before = cls@;
        proof {
            lemma_first_alike(pairs, s2 as int, s2 as int);
        }
        match found {
            Some(s1) => {
                cls[s2] = cls[s1];
            },
            None => {
                cls[s2] = next;
                next = next + 1;
            },
        }
        proof {
            assert(cls@.subrange(0, s2 + 1) =~= before.subrange(0, s2 as int).push(cls@[s2 as int]));
        }
    }
    assert(cls@.subrange(0, 4) =~= cls@);
    cls
}

/// The ranks per suit of the flop, as bits.
fn flop_ranksets(flop: &[u8; 3]) -> (r: [u16; 4])
    requires
        forall|i: int| 0 <= i < 3 ==> #[trigger] flop@[i] < 52,
    ensures
        r@ == flop_ranks(flop@),
{
    let mut rs: [u16; 4] = [0, 0, 0, 0];
    for i in 0..3usize
        invariant
            forall|j: int| 0 <= j < 3 ==> #[trigger] flop@[j] < 52,
            forall|s: int| 0 <= s < 4 ==> #[trigger] rs@[s] == rankset(flop@.take(i as int), s),
    {
        let c = flop[i];
        let suit = (c % 4) as usize;
        let rank = (c / 4) as u16;
        let ghost before = rs@;
        rs[suit] = rs[suit] | (1u16 << rank);
        proof {
            assert(flop@.take(i + 1).drop_last() =~= flop@.take(i as int));
            assert forall|s: int| 0 <= s < 4 implies #[trigger] rs@[s] == rankset(flop@.take(i + 1), s) by {
                assert(flop@.take(i + 1).last() == c);
            }
        }
    }
    assert(flop@.take(3) =~= flop@);
    assert(rs@ =~= flop_ranks(flop@));
    rs
}

/// The first suit below `s1` that can stand for it, as `partner` states.
fn find_partner(a: &[u16; 4], b: &[u16; 4], cls: &[u8; 4], relax: bool, s1: usize) -> (r: Option<u8>)
    requires
        s1 < 4,
    ensures
        r == partner(a@, b@, cls@, relax, s1 as int, s1 as int),
        r matches Some(x) ==> x < s1,
{
    let mut found: Option<u8> = None;
    for s2 in 0..s1
        invariant
            s1 < 4,
            found == partner(a@, b@, cls@, relax, s1 as int, s2 as int),
            found matches Some(x) ==> x < s2,
    {
        if found.is_none() && (relax || a[s1] == a[s2]) && b[s1] == b[s2] && cls[s1] == cls[s2] {
            found = Some(s2 as u8);
        }
    }
    found
}

/// For each suit, the lower suit that stands for it, as `iso_suits` states.
fn suits_standing(a: &[u16; 4], b: &[u16; 4], cls: &[u8; 4], relax: bool) -> (r: [Option<u8>; 4])
    ensures
        r@ == iso_suits(a@, b@, cls@, relax),
        r@[0] is None,
        forall|s: int| 0 <= s < 4 && (#[trigger] r@[s]) is Some ==> r@[s]->0 < s,
{
    let r = [
        None,
        find_partner(a, b, cls, relax, 1),
        find_partner(a, b, cls, relax, 2),
        find_partner(a, b, cls, relax, 3),
    ];
    assert(r@ =~= iso_suits(a@, b@, cls@, relax));
    r
}

/// Fills the lists of each suit that has a partner, as `fill_swaps` states.
fn fill_swap_lists(
    lists: &mut [[Vec<(u16, u16)>; 2]; 4],
    table: &mut Vec<usize>,
    iso: &[Option<u8>; 4],
    hands: &[Vec<Hand>; 2],
)
    requires
        old(table)@.len() >= 1326,
        iso@[0] is None,
        forall|s: int| 0 <= s < 4 && (#[trigger] iso@[s]) is Some ==> iso@[s]->0 < s,
        forall|p: int, i: int| 0 <= p < 2 && 0 <= i < hands@[p]@.len() ==> hand_distinct(#[trigger] hands@[p]@[i]),
    ensures
        final(table)@.len() == old(table)@.len(),
        swaps_view(*final(lists)) == fill_swaps(swaps_view(*old(lists)), iso@, Seq::new(2, |p: int| hands@[p]@)),
{
    let ghost hs = Seq::new(2, |p: int| hands@[p]@);
    let ghost start = swaps_view(*lists);
    for s1 in 1..4usize
        invariant
            table@.len() == old(table)@.len(),
            old(table)@.len() >= 1326,
            iso@[0] is None,
            forall|s: int| 0 <= s < 4 && (#[trigger] iso@[s]) is Some ==> iso@[s]->0 < s,
            forall|p: int, i: int| 0 <= p < 2 && 0 <= i < hands@[p]@.len() ==> hand_distinct(#[trigger] hands@[p]@[i]),
            hs == Seq::new(2, |p: int| hands@[p]@),
            start == swaps_view(*old(lists)),
            forall|s: int, p: int| 0 <= s < 4 && 0 <= p < 2 ==> #[trigger] swaps_view(*lists)[s][p] == if s < s1 {
                fill_swaps(start, iso@, hs)[s][p]
            } else {
                start[s][p]
            },
    {
        let ghost before = swaps_view(*lists);
        let ghost before_arr = *lists;
        match iso[s1] {
            Some(s2) => {
                iso_swap_internal(lists, table, [s1 as u8, s2], hands);
                proof {
                    assert forall|s: int, p: int| 0 <= s < 4 && 0 <= p < 2 implies #[trigger] swaps_view(*lists)[s][p] == if s < s1 + 1 {
                        fill_swaps(start, iso@, hs)[s][p]
                    } else {
                        start[s][p]
                    } by {
                        if s != s1 {
                            assert(lists@[s] == before_arr@[s]);
                            assert(before[s][p] == before_arr@[s]@[p]@);
                        } else {
                            assert(before[s][p] == start[s][p]);
                        }
                    }
                }
            },
            None => {},
        }
    }
    assert(swaps_view(*lists) =~= fill_swaps(start, iso@, hs)) by {
        assert forall|s: int| 0 <= s < 4 implies #[trigger] swaps_view(*lists)[s] =~= fill_swaps(start, iso@, hs)[s] by {
            assert forall|p: int| 0 <= p < 2 implies #[trigger] swaps_view(*lists)[s][p] == fill_swaps(start, iso@, hs)[s][p] by {}
        }
    }
}

proof fn lemma_river_lens(flop: Seq<u8>, turn: Card, cls: Seq<u8>, hs: Seq<Seq<Hand>>, k: int)
    ensures
        river_cards(flop, turn, cls, k).len() == 4,
        river_swaps(flop, turn, cls, hs, k).len() == 4,
    decreases k,
{
    if k > 0 {
        lemma_river_lens(flop, turn, cls, hs, k - 1);
    }
}

/// Four by two empty lists.
fn empty_lists() -> (r: [[Vec<(u16, u16)>; 2]; 4])
    ensures
        swaps_view(r) == no_swaps(),
{
    let r = [
        [Vec::new(), Vec::new()],
        [Vec::new(), Vec::new()],
        [Vec::new(), Vec::new()],
        [Vec::new(), Vec::new()],
    ];
    assert(swaps_view(r) =~= no_swaps()) by {
        assert forall|s: int| 0 <= s < 4 implies #[trigger] swaps_view(r)[s] =~= no_swaps()[s] by {
            assert forall|p: int| 0 <= p < 2 implies #[trigger] swaps_view(r)[s][p] =~= no_swaps()[s][p] by {}
        }
    }
    r
}

/// The suit isomorphism of a game with the given flop, turn and river (each
/// of the last two `NOT_DEALT` if not dealt yet) and hands; `alike[s1][s2]`
/// tells whether both ranges treat the suits `s1 < s2` alike.
pub fn init_isomorphism(
    alike: &[[bool; 4]; 4],
    flop: &[u8; 3],
    turn: Card,
    river: Card,
    hands: &[Vec<Hand>; 2],
) -> (r: Isomorphism)
    requires
        iso_inputs_ok(flop@, turn, river, Seq::new(2, |p: int| hands@[p]@)),
    ensures
        ({
            let cls = suit_classes(Seq::new(4, |i: int| alike@[i]@), 4).0;
            let hs = Seq::new(2, |p: int| hands@[p]@);
            let fr = flop_ranks(flop@);
            let iso = iso_suits(fr, fr, cls, false);
            &&& turn == NOT_DEALT ==> r.ref_turn@ == iso_refs(iso, flop_bits(flop@), 52)
                && r.card_turn@ == iso_cards(iso, flop_bits(flop@), 52) && swaps_view(r.swap_turn)
                == fill_swaps(no_swaps(), iso, hs)
            &&& turn != NOT_DEALT ==> r.ref_turn@.len() == 0 && r.card_turn@.len() == 0
                && swaps_view(r.swap_turn) == no_swaps()
            &&& r.ref_river@.len() == 52
            &&& forall|t: int| 0 <= t < 52 ==> (#[trigger] r.ref_river@[t])@ == if river == NOT_DEALT {
                river_refs(flop@, turn, cls, t)
            } else {
                Seq::<u8>::empty()
            }
            &&& forall|u: int| 0 <= u < 4 ==> (#[trigger] r.card_river@[u])@ == if river == NOT_DEALT {
                river_cards(flop@, turn, cls, 52)[u]
            } else {
                Seq::<u8>::empty()
            }
            &&& forall|u: int| 0 <= u < 4 ==> #[trigger] swaps_view(r.swap_river@[u]) == if river == NOT_DEALT {
                river_swaps(flop@, turn, cls, hs, 52)[u]
            } else {
                no_swaps()
            }
        }),
{
    let ghost pairs = Seq::new(4, |i: int| alike@[i]@);
    let ghost hs = Seq::new(2, |p: int| hands@[p]@);
    proof {
        assert forall|p: int, i: int| 0 <= p < 2 && 0 <= i < hands@[p]@.len() implies hand_distinct(#[trigger] hands@[p]@[i]) by {
            assert(hs[p] == hands@[p]@);
        }
    }
    let cls = classes_of_suits(alike);
    let fm = card_mask(flop[0]) | card_mask(flop[1]) | card_mask(flop[2]);
    let frs = flop_ranksets(flop);
    let mut table: Vec<usize> = Vec::new();
    for i in 0..1326usize
        invariant
            table@.len() == i,
    {
        table.push(usize::MAX);
    }
    let mut ref_turn: Vec<u8> = Vec::new();
    let mut card_turn: Vec<u8> = Vec::new();
    let mut swap_turn = empty_lists();
    if turn == NOT_DEALT {
        let iso = suits_standing(&frs, &frs, &cls, false);
        fill_swap_lists(&mut swap_turn, &mut table, &iso, hands);
        iso_internal(&mut ref_turn, &mut card_turn, &iso, fm);
        assert(ref_turn@ =~= iso_refs(iso@, fm, 52));
    }
    let mut ref_river: Vec<Vec<u8>> = Vec::new();
    for i in 0..52usize
        invariant
            ref_river@.len() == i,
            forall|j: int| 0 <= j < i ==> (#[trigger] ref_river@[j])@.len() == 0,
    {
        ref_river.push(Vec::new());
    }
    let mut card_river: [Vec<u8>; 4] = [Vec::new(), Vec::new(), Vec::new(), Vec::new()];
    let mut swap_river = [empty_lists(), empty_lists(), empty_lists(), empty_lists()];
    if river == NOT_DEALT {
        for t in 0..52u8
            invariant
                iso_inputs_ok(flop@, turn, river, hs),
                hs == Seq::new(2, |p: int| hands@[p]@),
                forall|p: int, i: int| 0 <= p < 2 && 0 <= i < hands@[p]@.len() ==> hand_distinct(#[trigger] hands@[p]@[i]),
                pairs == Seq::new(4, |i: int| alike@[i]@),
                cls@ == suit_classes(pairs, 4).0,
                fm == flop_bits(flop@),
                frs@ == flop_ranks(flop@),
                table@.len() == 1326,
                ref_river@.len() == 52,
                forall|x: int| 0 <= x < 52 ==> (#[trigger] ref_river@[x])@ == if x < t {
                    river_refs(flop@, turn, cls@, x)
                } else {
                    Seq::<u8>::empty()
                },
                forall|u: int| 0 <= u < 4 ==> (#[trigger] card_river@[u])@ == river_cards(flop@, turn, cls@, t as int)[u],
                forall|u: int| 0 <= u < 4 ==> #[trigger] swaps_view(swap_river@[u]) == river_swaps(flop@, turn, cls@, hs, t as int)[u],
        {
            proof {
                lemma_river_lens(flop@, turn, cls@, hs, t as int);
                lemma_river_lens(flop@, turn, cls@, hs, t + 1);
            }
            let tm = card_mask(t);
            if fm & tm != 0 || (turn != NOT_DEALT && turn != t) {
                proof {
                    assert(not_a_turn(flop@, turn, t as int));
                }
            } else {
                let tmask = fm | tm;
                let u = (t % 4) as usize;
                let mut trs = frs;
                trs[u] = trs[u] | (1u16 << ((t / 4) as u16));
                assert(trs@ =~= turn_ranks(flop@, t as int));
                let iso = suits_standing(&frs, &trs, &cls, turn != NOT_DEALT);
                let ghost swaps_before = swap_river;
                fill_swap_lists(&mut swap_river[u], &mut table, &iso, hands);
                proof {
                    assert(iso@ == river_iso(flop@, turn, cls@, t as int));
                    assert forall|x: int| 0 <= x < 4 implies #[trigger] swaps_view(swap_river@[x]) == river_swaps(flop@, turn, cls@, hs, t + 1)[x] by {
                        if x != u {
                            assert(swap_river@[x] == swaps_before@[x]);
                        }
                    }
                }
                let mut refs: Vec<u8> = Vec::new();
                let ghost cards_before = card_river;
                iso_internal(&mut refs, &mut card_river[u], &iso, tmask);
                assert(refs@ =~= iso_refs(iso@, tmask, 52));
                ref_river.set(t as usize, refs);
                proof {
                    let prev = river_cards(flop@, turn, cls@, t as int);
                    assert(!not_a_turn(flop@, turn, t as int));
                    assert(iso@ == river_iso(flop@, turn, cls@, t as int));
                    assert(tmask == flop_bits(flop@) | (1u64 << (t as u64)));
                    assert forall|x: int| 0 <= x < 4 implies (#[trigger] card_river@[x])@ == river_cards(flop@, turn, cls@, t + 1)[x] by {
                        if x != u {
                            assert(card_river@[x] == cards_before@[x]);
                        }
                    }
                }
            }
        }
    }
    Isomorphism { ref_turn, card_turn, swap_turn, ref_river, card_river, swap_river }
}

} // verus!
