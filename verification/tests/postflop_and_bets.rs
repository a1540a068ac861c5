use gto::action::Action;
use gto::bets::{bet_items, bet_list, parse_bet, BetParseError, BetSize};
use gto::isomorphism::{classes_of_suits, init_isomorphism};
use gto::game_play::{chance_cards, chance_factor, chance_play, next_bet_totals, possible_cards, swapped_card};
use gto::node::ActionTreeNode;
use gto::numeral::float_literal;
use gto::player::{PLAYER_CHANCE_FLAG, PLAYER_IP, PLAYER_OOP, PLAYER_TERMINAL_FLAG};
use gto::postflop::{
    count_action_nodes, count_nodes, iso_internal, iso_swap_internal, valid_idxs_street, Hand,
    NOT_DEALT,
};
use gto::text::{comma_items, trim_white};
use gto::Street;

fn node(player: u8, street: Street, actions: Vec<Action>, children: Vec<ActionTreeNode>) -> ActionTreeNode {
    ActionTreeNode { player, street, amount: 0, actions, children }
}

/// Check, check to a showdown on `street`.
fn checked_down(street: Street) -> ActionTreeNode {
    let end = node(PLAYER_TERMINAL_FLAG, street, vec![], vec![]);
    let ip = node(PLAYER_IP, street, vec![Action::Check], vec![end]);
    node(PLAYER_OOP, street, vec![Action::Check], vec![ip])
}

/// Check, check, then deal a card before `next`.
fn checked_to(street: Street, next: ActionTreeNode) -> ActionTreeNode {
    let chance = node(PLAYER_CHANCE_FLAG | PLAYER_OOP, street, vec![Action::Chance(0)], vec![next]);
    let ip = node(PLAYER_IP, street, vec![Action::Check], vec![chance]);
    node(PLAYER_OOP, street, vec![Action::Check], vec![ip])
}

#[test]
fn action_nodes_per_street() {
    assert_eq!(count_action_nodes(&checked_down(Street::River)), [0, 0, 3]);
    let turn = checked_to(Street::Turn, checked_down(Street::River));
    assert_eq!(count_action_nodes(&turn), [0, 3, 3]);
    let flop = checked_to(Street::Flop, turn);
    assert_eq!(count_action_nodes(&flop), [3, 3, 3]);
}

#[test]
fn game_nodes_per_street() {
    let flop_mask: u64 = 0b111;
    let rivers: [Vec<u8>; 4] = Default::default();
    assert_eq!(count_nodes([1, 2, 3], flop_mask, NOT_DEALT, NOT_DEALT, &vec![], &rivers), [1, 98, 7056]);
    assert_eq!(count_nodes([1, 2, 3], flop_mask, 3, NOT_DEALT, &vec![], &rivers), [1, 2, 144]);
    assert_eq!(count_nodes([1, 2, 3], flop_mask, 3, 4, &vec![], &rivers), [1, 0, 3]);
    // Skipping turn card 3 removes one turn and its rivers.
    let rivers2: [Vec<u8>; 4] = [vec![], vec![], vec![], vec![7]];
    assert_eq!(
        count_nodes([1, 2, 3], flop_mask, NOT_DEALT, NOT_DEALT, &vec![3], &rivers2),
        [1, 96, 3 * (48 * 36 + 47 * 12)]
    );
}

#[test]
fn hands_clear_of_the_board() {
    let hands = [
        vec![Hand(0, 1), Hand(2, 3), Hand(4, 5)],
        vec![Hand(2, 9), Hand(7, 8)],
    ];
    let r = valid_idxs_street(&hands, 2, NOT_DEALT);
    assert_eq!(r, [vec![0, 2], vec![1]]);
    let r = valid_idxs_street(&hands, 5, 8);
    assert_eq!(r, [vec![0, 1], vec![0]]);
    let r = valid_idxs_street(&hands, NOT_DEALT, NOT_DEALT);
    assert_eq!(r, [vec![0, 1, 2], vec![0, 1]]);
}

#[test]
fn isomorphic_cards() {
    let iso = [None, Some(0u8), None, None];
    let mut refs = Vec::new();
    let mut cards = Vec::new();
    iso_internal(&mut refs, &mut cards, &iso, 0);
    assert_eq!(refs, (0..13).map(|r| 3 * r).collect::<Vec<u8>>());
    assert_eq!(cards, (0..13).map(|r| 4 * r).collect::<Vec<u8>>());
    // With card 0 dealt, card 1 has no partner to stand for it.
    let mut refs = Vec::new();
    iso_internal(&mut refs, &mut cards, &iso, 1);
    assert_eq!(refs[0], 0);
    assert_eq!(refs[1], 2);
    assert_eq!(refs[12], 35);
    assert_eq!(cards.len(), 13);
}

#[test]
fn isomorphic_hand_swaps() {
    let hands = [
        vec![Hand(0, 4), Hand(1, 5), Hand(2, 6)],
        vec![Hand(1, 5), Hand(3, 7), Hand(0, 4)],
    ];
    let mut lists: [[Vec<(u16, u16)>; 2]; 4] = Default::default();
    let mut table = vec![0usize; 1326];
    iso_swap_internal(&mut lists, &mut table, [1, 0], &hands);
    assert_eq!(lists[1][0], vec![(0, 1)]);
    assert_eq!(lists[1][1], vec![(0, 2)]);
    assert!(lists[0][0].is_empty() && lists[2][1].is_empty());
    // A hand whose image is missing pairs with the empty table entry.
    let lone = [vec![Hand(0, 4)], vec![]];
    let mut lists: [[Vec<(u16, u16)>; 2]; 4] = Default::default();
    iso_swap_internal(&mut lists, &mut table, [1, 0], &lone);
    assert_eq!(lists[1][0], vec![(0, u16::MAX)]);
}

#[test]
fn trims_and_splits() {
    assert_eq!(trim_white(" \t a b \n"), "a b");
    assert_eq!(trim_white("\u{3000}x\u{a0}"), "x");
    assert_eq!(trim_white("   "), "");
    assert_eq!(comma_items(" A, ,b ,"), vec!["a".to_string(), "b".to_string()]);
    assert_eq!(comma_items(""), Vec::<String>::new());
}

#[test]
fn numerals_of_fractions() {
    for ok in ["1.5", ".5", "5.", "+3", "-.5", "1e-3", "2E+10", "INF", "-infinity", "NaN", "007"] {
        assert!(float_literal(ok), "{}", ok);
    }
    for bad in [".", "", "1e", "e5", "1_0", "1.2.3", "+", "in", "1 ", "--1"] {
        assert!(!float_literal(bad), "{}", bad);
    }
}

fn parse_all(s: &str, raise: bool) -> Vec<Result<BetSize, BetParseError>> {
    bet_items(s).iter().map(|p| parse_bet(p, raise)).collect()
}

#[test]
fn bet_items_of_a_list() {
    assert_eq!(bet_items("allin, 150c , 50%, e"), vec!["allin", "150c", "50%", "e"]);
    let bets = parse_all("allin, 150c , 50%, e", false);
    assert_eq!(
        bets,
        vec![
            Ok(BetSize::AllIn),
            Ok(BetSize::Absolute(150)),
            Ok(BetSize::PotScaled("50".to_string())),
            Ok(BetSize::Geometric(0, None)),
        ]
    );
    let raises = parse_all("a, 10C , 70%, 2x, 2e200%", true);
    assert_eq!(
        raises,
        vec![
            Ok(BetSize::AllIn),
            Ok(BetSize::Absolute(10)),
            Ok(BetSize::PotScaled("70".to_string())),
            Ok(BetSize::PrevScaled("2".to_string())),
            Ok(BetSize::Geometric(2, Some("200".to_string()))),
        ]
    );
}

#[test]
fn bet_item_errors() {
    let street = "Invalid geometric bet street number.".to_string();
    assert_eq!(parse_bet("0e", true), Err(BetParseError::Custom(street.clone())));
    assert_eq!(parse_bet("101e", true), Err(BetParseError::Custom(street)));
    assert_eq!(parse_bet("e%", true), Err(BetParseError::FloatParseError("".to_string())));
    assert_eq!(parse_bet("c", true), Err(BetParseError::IntParseError("".to_string())));
    assert_eq!(parse_bet("x", true), Err(BetParseError::FloatParseError("".to_string())));
    assert_eq!(
        parse_bet("2x", false),
        Err(BetParseError::Custom("Can only scale previous bet on raises.".to_string()))
    );
    assert_eq!(parse_bet("50", true), Err(BetParseError::InvalidSuffix("50".to_string())));
    assert_eq!(parse_bet("1e5", true), Err(BetParseError::InvalidSuffix("5".to_string())));
    assert_eq!(parse_bet("xe", true), Err(BetParseError::IntParseError("x".to_string())));
    assert_eq!(parse_bet("1.2.3%", true), Err(BetParseError::FloatParseError("1.2.3".to_string())));
}

#[test]
fn bet_item_edge_cases() {
    assert_eq!(parse_bet("a", false), Ok(BetSize::AllIn));
    assert_eq!(parse_bet("50%%", false), Ok(BetSize::PotScaled("50".to_string())));
    assert_eq!(parse_bet("-5%", false), Ok(BetSize::PotScaled("-5".to_string())));
    assert_eq!(parse_bet("inf%", false), Ok(BetSize::PotScaled("inf".to_string())));
    assert_eq!(parse_bet("3cc", false), Ok(BetSize::Absolute(3)));
    assert_eq!(parse_bet("e", false), Ok(BetSize::Geometric(0, None)));
    assert_eq!(parse_bet("3e50%e9", false), Ok(BetSize::Geometric(3, Some("50".to_string()))));
    assert_eq!(parse_bet("2e200%%", false), Err(BetParseError::FloatParseError("200%".to_string())));
    assert_eq!(BetSize::default(), BetSize::AllIn);
}

#[test]
fn suit_isomorphism_on_a_flop() {
    let alike = [[true; 4]; 4];
    assert_eq!(classes_of_suits(&alike), [0, 0, 0, 0]);
    let none = [[false; 4]; 4];
    assert_eq!(classes_of_suits(&none), [0, 1, 2, 3]);
    let mut some = [[false; 4]; 4];
    some[1][3] = true;
    assert_eq!(classes_of_suits(&some), [0, 1, 2, 1]);

    // A monotone flop in suit 0: suits 2 and 3 are stood for by suit 1.
    let flop = [0u8, 4, 8];
    let hands = [vec![Hand(1, 5), Hand(2, 6)], vec![Hand(2, 6), Hand(1, 5)]];
    let iso = init_isomorphism(&alike, &flop, NOT_DEALT, NOT_DEALT, &hands);
    assert_eq!(iso.card_turn.len(), 26);
    assert_eq!(&iso.card_turn[..4], &[1, 1, 5, 5]);
    assert_eq!(iso.ref_turn.len(), 26);
    assert_eq!(&iso.ref_turn[..8], &[0, 0, 1, 1, 2, 2, 4, 4]);
    assert_eq!(iso.swap_turn[2][0], vec![(0, 1)]);
    assert_eq!(iso.swap_turn[2][1], vec![(0, 1)]);
    assert_eq!(iso.swap_turn[3][0], vec![(0, u16::MAX)]);
    assert_eq!(iso.swap_turn[3][1], vec![(1, u16::MAX)]);
    assert!(iso.swap_turn[1][0].is_empty());
    // Turns on the flop get no river references.
    assert!(iso.ref_river[0].is_empty());
    assert!(!iso.ref_river[1].is_empty());
    assert_eq!(iso.ref_river.len(), 52);

    // With unlike suits nothing stands for anything.
    let iso = init_isomorphism(&none, &flop, NOT_DEALT, NOT_DEALT, &hands);
    assert!(iso.card_turn.is_empty() && iso.ref_turn.is_empty());
    assert!(iso.card_river.iter().all(|c| c.is_empty()));

    // A dealt river leaves nothing to deal.
    let iso = init_isomorphism(&alike, &flop, 12, 16, &hands);
    assert!(iso.card_turn.is_empty());
    assert!(iso.ref_river.iter().all(|r| r.is_empty()));
    assert!(iso.swap_river.iter().all(|s| s.iter().all(|p| p.iter().all(|l| l.is_empty()))));
}

#[test]
fn amounts_put_in_while_playing() {
    let t = next_bet_totals([0, 0], 0, Action::NoAction, Action::Bet(20));
    assert_eq!(t, [20, 0]);
    let t = next_bet_totals(t, 1, Action::Bet(20), Action::Raise(60));
    assert_eq!(t, [20, 60]);
    let t = next_bet_totals(t, 0, Action::Raise(60), Action::Call);
    assert_eq!(t, [60, 60]);
    assert_eq!(next_bet_totals(t, 1, Action::Call, Action::Check), [60, 60]);
    assert_eq!(next_bet_totals([60, 60], 0, Action::Chance(5), Action::AllIn(100)), [160, 60]);
}

#[test]
fn dealt_cards_and_their_children() {
    assert_eq!(swapped_card(5, Some((1, 2))), 6);
    assert_eq!(swapped_card(6, Some((1, 2))), 5);
    assert_eq!(swapped_card(4, Some((1, 2))), 4);
    assert_eq!(swapped_card(4, None), 4);
    let actions = [Action::Chance(3), Action::Chance(7)];
    assert_eq!(chance_play(&actions, 7, &[], &[]), Some((1, None)));
    assert_eq!(chance_play(&actions, 9, &[0, 1], &[5, 9]), Some((1, Some(1))));
    assert_eq!(chance_play(&actions, 11, &[0, 1], &[5, 9]), None);
}

#[test]
fn cards_that_can_come() {
    let flop: u64 = 0b111;
    let hands = [vec![Hand(10, 11)], vec![Hand(12, 13)]];
    let all: u64 = (1 << 52) - 1;
    let blocked: u64 = flop | (0b1111 << 10);
    assert_eq!(possible_cards(flop, NOT_DEALT, &hands), all ^ blocked);
    assert_eq!(possible_cards(flop, 20, &hands), all ^ blocked ^ (1 << 20));
    // Hands that always clash leave nothing to deal.
    let clash = [vec![Hand(10, 11)], vec![Hand(11, 12)]];
    assert_eq!(possible_cards(flop, NOT_DEALT, &clash), 0);
}

#[test]
fn chance_factors() {
    assert_eq!(chance_factor(NOT_DEALT, 0), 45);
    assert_eq!(chance_factor(7, 3), 41);
}

/// A bet size with its fractions as values, as a configuration uses it.
#[derive(Debug, PartialEq)]
enum SizeValue {
    Absolute(i32),
    PotScaled(f64),
    PrevScaled(f64),
    Geometric(i32, f64),
    AllIn,
}

/// The value of a size read by the library, its numerals as numbers.
fn size_value(size: BetSize) -> SizeValue {
    match size {
        BetSize::Absolute(n) => SizeValue::Absolute(n),
        BetSize::PotScaled(t) => SizeValue::PotScaled(t.parse::<f64>().unwrap() / 100.0),
        BetSize::PrevScaled(t) => SizeValue::PrevScaled(t.parse::<f64>().unwrap()),
        BetSize::Geometric(n, None) => SizeValue::Geometric(n, f64::INFINITY),
        BetSize::Geometric(n, Some(t)) => SizeValue::Geometric(n, t.parse::<f64>().unwrap() / 100.0),
        BetSize::AllIn => SizeValue::AllIn,
    }
}

fn size_values(s: &str, raise: bool) -> Result<Vec<SizeValue>, BetParseError> {
    let list = bet_list(s, raise);
    match list.error {
        Some(e) => Err(e),
        None => Ok(list.sizes.into_iter().map(size_value).collect()),
    }
}

#[test]
fn test_parse_bets() {
    let bets = "allin, 150c , 50%, e";
    let raises = "a, 10C , 70%, 2x, 2e200%";
    assert_eq!(
        size_values(bets, false).unwrap(),
        vec![
            SizeValue::AllIn,
            SizeValue::Absolute(150),
            SizeValue::PotScaled(0.5),
            SizeValue::Geometric(0, f64::INFINITY),
        ]
    );
    assert_eq!(
        size_values(raises, true).unwrap(),
        vec![
            SizeValue::AllIn,
            SizeValue::Absolute(10),
            SizeValue::PotScaled(0.7),
            SizeValue::PrevScaled(2.0),
            SizeValue::Geometric(2, 2.0),
        ]
    );
}

#[test]
fn test_parse_bet_err() {
    let t = ["", "0e", "E%", "c", "x"];
    for test in t {
        assert!(size_values(test, true).is_err());
    }
}

#[test]
fn bet_list_stops_at_the_first_bad_item() {
    let list = bet_list("50%, 2x, 30c", false);
    assert_eq!(list.sizes, vec![BetSize::PotScaled("50".to_string())]);
    assert_eq!(
        list.error,
        Some(BetParseError::Custom("Can only scale previous bet on raises.".to_string()))
    );
    let list = bet_list(" , ,", true);
    assert!(list.sizes.is_empty());
    assert_eq!(list.error, Some(BetParseError::EmptyBetString));
    let list = bet_list("A, 10C", true);
    assert_eq!(list.sizes, vec![BetSize::AllIn, BetSize::Absolute(10)]);
    assert_eq!(list.error, None);
}

#[test]
fn chance_nodes_deal_the_live_cards() {
    // A flop of cards 0, 1 and 2, and card 5 skipped.
    let dead: u64 = 0b100111;
    let cards = chance_cards(dead);
    assert_eq!(cards.len(), 48);
    assert_eq!(&cards[..3], &[3, 4, 6]);
    assert_eq!(*cards.last().unwrap(), 51);
    assert_eq!(chance_cards(0).len(), 52);
}
