use gto::action::Action;
use gto::action_util::lines_encodable;
use gto::postflop::check_game_inputs;
use gto::ConfigError;
use gto::config::TreeParams;
use gto::sizing::Spot;
use gto::tree::ActionTree;
use gto::Street;

/// Bets and raises of a fixed fraction of the pot, with optional all-ins.
struct PotFraction {
    fraction: f64,
    all_in: bool,
    force_all_in: f64,
}

impl PotFraction {
    fn proposed_sizes(&self, spot: &Spot) -> (Vec<i32>, bool) {
        if self.fraction <= 0.0 {
            return (Vec::new(), self.all_in);
        }
        let size = (spot.pot as f64 * self.fraction).round() as i32;
        if spot.facing_bet {
            (vec![spot.prev_amount + size], self.all_in)
        } else {
            (vec![size], self.all_in)
        }
    }

    fn force_all_in_threshold(&self, new_pot: i32) -> u32 {
        (new_pot as f64 * self.force_all_in).round() as u32
    }

    fn propose(&self) -> impl Fn(Spot) -> (Vec<i32>, bool) + '_ {
        move |spot: Spot| self.proposed_sizes(&spot)
    }

    fn threshold(&self) -> impl Fn(i32) -> u32 + '_ {
        move |new_pot: i32| self.force_all_in_threshold(new_pot)
    }
}

fn half_pot() -> PotFraction {
    PotFraction { fraction: 0.5, all_in: false, force_all_in: 0.0 }
}

fn flop_tree() -> ActionTree {
    let params = TreeParams { initial_street: Street::Flop, starting_pot: 40, effective_stack: 100 };
    ActionTree::new(params, &half_pot().propose(), &half_pot().threshold())
}

#[test]
fn root_actions_are_check_and_half_pot_bet() {
    let tree = flop_tree();
    assert_eq!(tree.available_actions(), &[Action::Check, Action::Bet(20)]);
    assert!(!tree.is_terminal_node());
    assert!(!tree.is_chance_node());
}

#[test]
fn history_of_bet_raise_allin_is_played() {
    let mut tree = flop_tree();
    tree.apply_history(&[Action::Bet(20), Action::Raise(60), Action::AllIn(100)]).unwrap();
    assert_eq!(tree.history, vec![Action::Bet(20), Action::Raise(60), Action::AllIn(100)]);
    assert_eq!(tree.total_bet_amount(), [100, 60]);
    assert_eq!(tree.available_actions(), &[Action::Fold, Action::Call]);
}

#[test]
fn facing_a_raise_offers_fold_call_allin() {
    let mut tree = flop_tree();
    tree.apply_history(&[Action::Bet(20), Action::Raise(60)]).unwrap();
    assert_eq!(tree.available_actions(), &[Action::Fold, Action::Call, Action::AllIn(100)]);
    assert_eq!(tree.total_bet_amount(), [20, 60]);
}

#[test]
fn invalid_action_is_refused_with_message() {
    let mut tree = flop_tree();
    let err = tree.play(Action::Bet(30)).unwrap_err();
    assert_eq!(err, "Invalid action: Bet(30).");
    assert!(tree.history.is_empty());
    let err = tree.apply_history(&[Action::Check, Action::Raise(7)]).unwrap_err();
    assert_eq!(err, "Invalid action: Raise(7).");
    assert_eq!(tree.history, vec![Action::Check]);
}

#[test]
fn call_leads_to_chance_node() {
    let mut tree = flop_tree();
    tree.apply_history(&[Action::Bet(20), Action::Call]).unwrap();
    assert!(tree.is_chance_node());
    assert!(!tree.is_terminal_node());
    // After the turn card OOP acts first with a check or a bet.
    assert_eq!(tree.available_actions(), &[Action::Check, Action::Bet(40)]);
    assert_eq!(tree.total_bet_amount(), [20, 20]);
}

#[test]
fn fold_is_terminal() {
    let mut tree = flop_tree();
    tree.apply_history(&[Action::Bet(20), Action::Fold]).unwrap();
    assert!(tree.is_terminal_node());
    assert!(!tree.is_chance_node());
    assert!(tree.available_actions().is_empty());
}

#[test]
fn fresh_tree_has_no_invalid_terminals() {
    let tree = flop_tree();
    assert!(tree.invalid_terminals().is_empty());
}

#[test]
fn river_tree_without_bets_has_three_nodes() {
    let params = TreeParams { initial_street: Street::River, starting_pot: 10, effective_stack: 10 };
    let sizer = PotFraction { fraction: 0.0, all_in: false, force_all_in: 0.0 };
    let tree = ActionTree::new(params, &sizer.propose(), &sizer.threshold());
    assert_eq!(tree.num_nodes(), 3);
}

#[test]
fn river_tree_with_allin_has_nine_nodes() {
    let params = TreeParams { initial_street: Street::River, starting_pot: 10, effective_stack: 10 };
    let sizer = PotFraction { fraction: 0.0, all_in: true, force_all_in: 0.0 };
    let tree = ActionTree::new(params, &sizer.propose(), &sizer.threshold());
    assert_eq!(tree.num_nodes(), 9);
    assert_eq!(tree.available_actions(), &[Action::Check, Action::AllIn(10)]);
}

#[test]
fn small_bets_become_allin_past_force_threshold() {
    let params = TreeParams { initial_street: Street::River, starting_pot: 100, effective_stack: 60 };
    // A bet of 50 leaves 10 behind, less than 0.1 of the pot of 200 after it.
    let sizer = PotFraction { fraction: 0.5, all_in: false, force_all_in: 0.1 };
    let tree = ActionTree::new(params, &sizer.propose(), &sizer.threshold());
    assert_eq!(tree.available_actions(), &[Action::Check, Action::AllIn(60)]);
}

#[test]
fn bets_are_clamped_to_the_stack() {
    let params = TreeParams { initial_street: Street::River, starting_pot: 100, effective_stack: 30 };
    let sizer = PotFraction { fraction: 2.0, all_in: false, force_all_in: 0.0 };
    let tree = ActionTree::new(params, &sizer.propose(), &sizer.threshold());
    // 200 is clamped to the stack of 30, which is an all-in.
    assert_eq!(tree.available_actions(), &[Action::Check, Action::AllIn(30)]);
}

#[test]
fn remove_line_then_lines_are_gone() {
    let mut tree = flop_tree();
    let before = tree.num_nodes();
    tree.remove_line(&[Action::Bet(20)]).unwrap();
    assert_eq!(tree.available_actions(), &[Action::Check]);
    assert_eq!(tree.removed_lines, vec![vec![Action::Bet(20)]]);
    assert!(tree.num_nodes() < before);
    assert!(tree.play(Action::Bet(20)).is_err());
}

#[test]
fn remove_line_errors() {
    let mut tree = flop_tree();
    assert_eq!(tree.remove_line(&[]).unwrap_err(), "Empty line.");
    assert_eq!(tree.remove_line(&[Action::Bet(25)]).unwrap_err(), "Non-Existant action.");
    assert_eq!(
        tree.remove_line(&[Action::Bet(20), Action::Fold, Action::Call]).unwrap_err(),
        "Terminal node."
    );
    assert!(tree.removed_lines.is_empty());
}

#[test]
fn removed_line_can_be_added_back() {
    let mut tree = flop_tree();
    let before = tree.num_nodes();
    tree.remove_line(&[Action::Bet(20)]).unwrap();
    tree.add_line(&[Action::Bet(20)], &half_pot().propose(), &half_pot().threshold()).unwrap();
    assert!(tree.removed_lines.is_empty());
    assert!(tree.added_lines.is_empty());
    assert_eq!(tree.num_nodes(), before);
    assert_eq!(tree.available_actions(), &[Action::Check, Action::Bet(20)]);
}

#[test]
fn add_then_remove_restores_the_tree() {
    let mut tree = flop_tree();
    let before = tree.num_nodes();
    tree.add_line(&[Action::Bet(50)], &half_pot().propose(), &half_pot().threshold()).unwrap();
    assert_eq!(tree.available_actions(), &[Action::Check, Action::Bet(20), Action::Bet(50)]);
    assert_eq!(tree.added_lines, vec![vec![Action::Bet(50)]]);
    tree.remove_line(&[Action::Bet(50)]).unwrap();
    assert_eq!(tree.num_nodes(), before);
    assert!(tree.added_lines.is_empty());
    assert!(tree.removed_lines.is_empty());
}

#[test]
fn bet_of_everything_is_added_as_allin() {
    let mut tree = flop_tree();
    tree.add_line(&[Action::Bet(100)], &half_pot().propose(), &half_pot().threshold()).unwrap();
    assert_eq!(tree.available_actions(), &[Action::Check, Action::Bet(20), Action::AllIn(100)]);
    assert_eq!(tree.added_lines, vec![vec![Action::AllIn(100)]]);
}

#[test]
fn add_line_errors() {
    let mut tree = flop_tree();
    let sizer = half_pot();
    assert_eq!(tree.add_line(&[], &sizer.propose(), &sizer.threshold()).unwrap_err(), "Empty line.");
    assert_eq!(tree.add_line(&[Action::Bet(20)], &sizer.propose(), &sizer.threshold()).unwrap_err(), "Action already exists.");
    assert_eq!(
        tree.add_line(&[Action::Bet(7), Action::Call], &sizer.propose(), &sizer.threshold()).unwrap_err(),
        "Non-Existant action."
    );
    assert_eq!(tree.add_line(&[Action::Bet(0)], &sizer.propose(), &sizer.threshold()).unwrap_err(), "Invalid bet.");
    assert_eq!(tree.add_line(&[Action::Raise(50)], &sizer.propose(), &sizer.threshold()).unwrap_err(), "Invalid bet.");
    assert_eq!(tree.add_line(&[Action::Bet(101)], &sizer.propose(), &sizer.threshold()).unwrap_err(), "Invalid bet.");
    assert_eq!(
        tree.add_line(&[Action::Bet(20), Action::Fold, Action::Call], &sizer.propose(), &sizer.threshold()).unwrap_err(),
        "Terminal node."
    );
    tree.add_line(&[Action::AllIn(100)], &sizer.propose(), &sizer.threshold()).unwrap();
    assert_eq!(
        tree.add_line(&[Action::AllIn(100), Action::Raise(100)], &sizer.propose(), &sizer.threshold()).unwrap_err(),
        "Bet after all-in reached."
    );
    // A bet of everything where the all-in is already there is accepted,
    // recorded as the all-in, and inserts the all-in a second time.
    let before = tree.num_nodes();
    tree.add_line(&[Action::Bet(100)], &sizer.propose(), &sizer.threshold()).unwrap();
    assert_eq!(tree.added_lines, vec![vec![Action::AllIn(100)], vec![Action::AllIn(100)]]);
    assert_eq!(
        tree.root.actions,
        vec![Action::Check, Action::Bet(20), Action::AllIn(100), Action::AllIn(100)]
    );
    assert_eq!(tree.root.children.len(), 4);
    assert!(tree.num_nodes() > before);
}

#[test]
fn add_action_after_history() {
    let mut tree = flop_tree();
    tree.play(Action::Check).unwrap();
    tree.add_action(Action::Bet(30), &half_pot().propose(), &half_pot().threshold()).unwrap();
    assert_eq!(tree.added_lines, vec![vec![Action::Check, Action::Bet(30)]]);
    assert_eq!(tree.available_actions(), &[Action::Check, Action::Bet(20), Action::Bet(30)]);
}

#[test]
fn remove_current_node_moves_history_back() {
    let mut tree = flop_tree();
    tree.apply_history(&[Action::Bet(20), Action::Raise(60)]).unwrap();
    tree.remove_current_node().unwrap();
    assert_eq!(tree.history, vec![Action::Bet(20)]);
    assert_eq!(tree.available_actions(), &[Action::Fold, Action::Call]);
    assert_eq!(tree.removed_lines, vec![vec![Action::Bet(20), Action::Raise(60)]]);
}

#[test]
fn remove_current_node_at_root_fails() {
    let mut tree = flop_tree();
    assert_eq!(tree.remove_current_node().unwrap_err(), "Empty line.");
}

#[test]
fn removing_all_actions_leaves_an_invalid_terminal() {
    let mut tree = flop_tree();
    tree.remove_line(&[Action::Bet(20), Action::Fold]).unwrap();
    tree.remove_line(&[Action::Bet(20), Action::Call]).unwrap();
    tree.remove_line(&[Action::Bet(20), Action::Raise(60)]).unwrap();
    assert_eq!(tree.invalid_terminals(), vec![vec![Action::Bet(20)]]);
}

#[test]
fn current_node_follows_history() {
    let mut tree = flop_tree();
    tree.apply_history(&[Action::Check]).unwrap();
    let node = tree.current_node();
    assert_eq!(node.player, 1);
    assert_eq!(node.amount, 0);
    assert_eq!(node.street, Street::Flop);
}

#[test]
fn playing_by_position() {
    let mut tree = flop_tree();
    assert_eq!(tree.play_position(Action::Bet(20)), 1);
    assert_eq!(tree.history, vec![Action::Bet(20)]);
    assert_eq!(tree.play_position(Action::Check), -1);
    assert_eq!(tree.history, vec![Action::Bet(20)]);
    assert_eq!(tree.play_position(Action::Fold), 0);
    assert!(tree.is_terminal_node());
}

#[test]
fn tree_drawn_as_lines() {
    let params = TreeParams { initial_street: Street::River, starting_pot: 40, effective_stack: 100 };
    let no_bets = PotFraction { fraction: 0.0, all_in: false, force_all_in: 0.0 };
    let tree = ActionTree::new(params, &no_bets.propose(), &no_bets.threshold());
    assert_eq!(
        tree.tree_lines(),
        vec![
            "├──[Player: 0x0, Street: River, Amount: 0, Actions: [Check]]".to_string(),
            "│  └──[Player: 0x1, Street: River, Amount: 0, Actions: [Check]]".to_string(),
            "│  │  └──[Player: 0x8, Street: River, Amount: 0, Actions: []]".to_string(),
        ]
    );
    let tree = flop_tree();
    let lines = tree.tree_lines();
    assert_eq!(lines.len(), tree.num_nodes());
    assert_eq!(lines[0], "├──[Player: 0x0, Street: Flop, Amount: 0, Actions: [Check, Bet(20)]]");
}

#[test]
fn equal_raise_sizes_are_kept_once() {
    let params = TreeParams { initial_street: Street::River, starting_pot: 100, effective_stack: 200 };
    // Both raise sizes come to 150.
    let propose = |spot: Spot| if spot.facing_bet { (vec![150, 150], false) } else { (vec![50], false) };
    let threshold = |_pot: i32| 0u32;
    let mut tree = ActionTree::new(params, &propose, &threshold);
    assert_eq!(tree.available_actions(), &[Action::Check, Action::Bet(50)]);
    tree.apply_history(&[Action::Bet(50)]).unwrap();
    assert_eq!(tree.available_actions(), &[Action::Fold, Action::Call, Action::Raise(150)]);
    assert_eq!(tree.total_bet_amount(), [50, 0]);
}

#[test]
fn proposed_allin_is_added() {
    let params = TreeParams { initial_street: Street::River, starting_pot: 100, effective_stack: 100 };
    let propose = |spot: Spot| if spot.facing_bet { (vec![], false) } else { (vec![50], true) };
    let threshold = |_pot: i32| 0u32;
    let tree = ActionTree::new(params, &propose, &threshold);
    assert_eq!(tree.available_actions(), &[Action::Check, Action::Bet(50), Action::AllIn(100)]);
}

#[test]
fn game_inputs_are_checked_in_order() {
    let tree = flop_tree();
    assert_eq!(check_game_inputs(&tree, true, false, false), Ok(()));
    assert_eq!(check_game_inputs(&tree, false, false, false), Err(ConfigError::MissingFlop));
    assert_eq!(check_game_inputs(&tree, true, true, false), Err(ConfigError::MismatchedStreets));
    assert_eq!(check_game_inputs(&tree, true, true, true), Err(ConfigError::MismatchedStreets));
    let mut broken = flop_tree();
    broken.remove_line(&[Action::Bet(20), Action::Fold]).unwrap();
    broken.remove_line(&[Action::Bet(20), Action::Call]).unwrap();
    broken.remove_line(&[Action::Bet(20), Action::Raise(60)]).unwrap();
    assert_eq!(check_game_inputs(&broken, false, false, false), Err(ConfigError::InvalidTerminalNode));
}

#[test]
fn lines_with_chance_actions_have_no_code() {
    assert!(lines_encodable(&vec![vec![Action::Bet(20), Action::Call], vec![]]));
    assert!(!lines_encodable(&vec![vec![Action::Check], vec![Action::Chance(3)]]));
}

#[test]
fn node_count_with_overflow_check() {
    let tree = flop_tree();
    assert_eq!(tree.root.checked_num_nodes(0), Some(tree.num_nodes()));
    assert_eq!(tree.root.checked_num_nodes(5), Some(tree.num_nodes() + 5));
    assert_eq!(tree.root.checked_num_nodes(usize::MAX - 1), None);
}
