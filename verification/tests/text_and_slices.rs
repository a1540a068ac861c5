use gto::action::Action;
use gto::action_util::{
    action_debug, action_to_str, decode_action, encode_action, encode_line, encode_lines,
};
use gto::decimal::{parse_i32, push_int};
use gto::latch::Latch;
use gto::slice_ops::{apply_swap, row, row_mut, swap_elements};
use gto::{ConfigError, ProcessState, Street};

#[test]
fn action_labels() {
    assert_eq!(action_to_str(Action::Fold), "Fold:0");
    assert_eq!(action_to_str(Action::Call), "Call:0");
    assert_eq!(action_to_str(Action::Check), "Check:0");
    assert_eq!(action_to_str(Action::Bet(20)), "Bet:20");
    assert_eq!(action_to_str(Action::Raise(60)), "Raise:60");
    assert_eq!(action_to_str(Action::AllIn(100)), "AllIn:100");
}

#[test]
fn action_codes() {
    assert_eq!(encode_action(Action::Fold), "F");
    assert_eq!(encode_action(Action::Call), "C");
    assert_eq!(encode_action(Action::Check), "X");
    assert_eq!(encode_action(Action::Bet(20)), "B20");
    assert_eq!(encode_action(Action::Raise(-7)), "R-7");
    assert_eq!(encode_action(Action::AllIn(0)), "A0");
}

#[test]
fn decode_reads_codes() {
    assert_eq!(decode_action("F"), Action::Fold);
    assert_eq!(decode_action("C"), Action::Call);
    assert_eq!(decode_action("X"), Action::Check);
    assert_eq!(decode_action("B20"), Action::Bet(20));
    assert_eq!(decode_action("R+60"), Action::Raise(60));
    assert_eq!(decode_action("A-3"), Action::AllIn(-3));
}

#[test]
fn decode_undoes_encode() {
    let actions = [
        Action::Fold,
        Action::Call,
        Action::Check,
        Action::Bet(1),
        Action::Raise(i32::MAX),
        Action::AllIn(i32::MIN),
    ];
    for a in actions {
        assert_eq!(decode_action(&encode_action(a)), a);
    }
}

#[test]
fn line_codes() {
    assert_eq!(encode_line(&[]), "(Root)");
    let line = [
        Action::Check,
        Action::Check,
        Action::Bet(10),
        Action::Call,
        Action::Bet(30),
        Action::Raise(90),
        Action::Fold,
    ];
    assert_eq!(encode_line(&line), "X-X|B10-C|B30-R90-F");
    let lines = vec![vec![Action::Bet(5)], vec![], vec![Action::Check, Action::AllIn(40)]];
    assert_eq!(encode_lines(&lines), "B5,(Root),X-A40");
    assert_eq!(encode_lines(&Vec::new()), "");
}

#[test]
fn debug_texts() {
    assert_eq!(action_debug(Action::NoAction), "None");
    assert_eq!(action_debug(Action::Chance(7)), "Chance(7)");
    assert_eq!(action_debug(Action::Bet(12)), "Bet(12)");
    assert_eq!(action_debug(Action::Bet(12)), format!("{:?}", Action::Bet(12)));
    assert_eq!(action_debug(Action::AllIn(3)), format!("{:?}", Action::AllIn(3)));
}

#[test]
fn integers_as_text() {
    let mut s = String::from("x");
    push_int(&mut s, 0);
    push_int(&mut s, -45);
    push_int(&mut s, i32::MIN);
    assert_eq!(s, "x0-45-2147483648");
    assert_eq!(parse_i32("2147483647"), Some(i32::MAX));
    assert_eq!(parse_i32("-2147483648"), Some(i32::MIN));
    assert_eq!(parse_i32("2147483648"), None);
    assert_eq!(parse_i32("+12"), Some(12));
    assert_eq!(parse_i32("+"), None);
    assert_eq!(parse_i32(""), None);
    assert_eq!(parse_i32("1 2"), None);
    assert_eq!(parse_i32("007"), Some(7));
}

#[test]
fn rows_of_a_slice() {
    let v = [1, 2, 3, 4, 5, 6];
    assert_eq!(row(&v, 1, 2), &[3, 4]);
    assert_eq!(row(&v, 0, 3), &[1, 2, 3]);
    let mut w = v;
    row_mut(&mut w, 2, 2)[1] = 60;
    assert_eq!(w, [1, 2, 3, 4, 5, 60]);
}

#[test]
fn swaps_applied_twice_restore() {
    let mut v = vec![10, 11, 12, 13, 14];
    let list = [(0u16, 3u16), (1u16, 2u16)];
    apply_swap(&mut v, &list);
    assert_eq!(v, vec![13, 12, 11, 10, 14]);
    apply_swap(&mut v, &list);
    assert_eq!(v, vec![10, 11, 12, 13, 14]);
    swap_elements(&mut v, 4, 0);
    assert_eq!(v, vec![14, 11, 12, 13, 10]);
}

#[test]
fn latch_holds_its_value() {
    let mut l = Latch::new(5);
    assert_eq!(*l.lock().get(), 5);
    *l.lock_mut() = 9;
    assert_eq!(*l.lock().get(), 9);
    assert_eq!(l.into_inner(), 9);
}

#[test]
fn streets() {
    assert_eq!(Street::from_index(0), Street::Flop);
    assert_eq!(Street::from_index(1), Street::Turn);
    assert_eq!(Street::from_index(2), Street::River);
    assert_eq!(Street::River.name(), "River");
    assert_eq!(Street::default(), Street::Flop);
}

#[test]
fn config_error_messages() {
    let e = ConfigError::InvalidInput("stack".to_string(), "Must be positive.".to_string());
    assert_eq!(e.message(), "Input for stack is invalid. Must be positive.");
    assert_eq!(ConfigError::TooManyNodes.message(), "Game tree contains too many nodes.");
    assert_eq!(
        ConfigError::InvalidTerminalNode.message(),
        "Invalid terminal node found in action tree."
    );
}

#[test]
fn process_states_in_order() {
    assert_eq!(ProcessState::default(), ProcessState::Uninitialised);
    assert!(ProcessState::Solved.is_past(ProcessState::TreeBuilt));
    assert!(!ProcessState::ConfigError.is_past(ProcessState::Uninitialised));
    assert_eq!(ProcessState::MemoryAllocated.rank(), 3);
}
