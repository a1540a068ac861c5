//! Encoding of the player field of a game-tree node.
//!
//! The low two bits name the player to act (or the chance player); the
//! higher bits flag chance, terminal and fold nodes.

use vstd::prelude::*;

verus! {

pub const PLAYER_OOP: u8 = 0b0000_0000;

pub const PLAYER_IP: u8 = 0b0000_0001;

pub const PLAYER_CHANCE: u8 = 0b0000_0010;

pub const PLAYER_MASK: u8 = 0b0000_0011;

pub const PLAYER_CHANCE_FLAG: u8 = 0b0000_0100;

pub const PLAYER_TERMINAL_FLAG: u8 = 0b0000_1000;

pub const PLAYER_FOLD_FLAG: u8 = 0b0001_1000;

/// A node with this player value admits no further action.
pub open spec fn is_terminal_player(player: u8) -> bool {
    player & PLAYER_TERMINAL_FLAG != 0
}

/// A node with this player value deals a card.
pub open spec fn is_chance_player(player: u8) -> bool {
    player & PLAYER_CHANCE_FLAG != 0
}

/// The player values that the action tree uses, classified.
pub proof fn lemma_player_flags(p: u8)
    ensures
        p <= 1 ==> !is_terminal_player(p) && !is_chance_player(p) && (p ^ 1u8) == 1 - p,
        p <= 2 ==> !is_terminal_player(PLAYER_CHANCE_FLAG | p) && is_chance_player(PLAYER_CHANCE_FLAG | p)
            && (PLAYER_CHANCE_FLAG | p) == 4 + p,
        p <= 1 ==> is_terminal_player(PLAYER_FOLD_FLAG | p) && !is_chance_player(PLAYER_FOLD_FLAG | p)
            && (PLAYER_FOLD_FLAG | p) == 24 + p,
        is_terminal_player(PLAYER_TERMINAL_FLAG) && !is_chance_player(PLAYER_TERMINAL_FLAG),
{
    assert(p <= 1 ==> !is_terminal_player(p) && !is_chance_player(p) && (p ^ 1u8) == 1 - p) by (bit_vector);
    assert(p <= 2 ==> (4u8 | p) & 8u8 == 0 && (4u8 | p) & 4u8 != 0
        && (4u8 | p) == 4 + p) by (bit_vector);
    assert(p <= 1 ==> (24u8 | p) & 8u8 != 0 && (24u8 | p) & 4u8 == 0 && (24u8 | p) == 24 + p) by (bit_vector);
    assert(8u8 & 8u8 != 0 && 8u8 & 4u8 == 0) by (bit_vector);
}

} // verus!
