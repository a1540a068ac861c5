use gto::range::{
    elem_slot, parse_range, rank_char, slot_elem, RangeElem, RangeOutcome, RangeParseError, Weight,
};

fn table(s: &str) -> Vec<Option<Weight>> {
    match parse_range(s).outcome {
        RangeOutcome::Done(t) => t,
        other => panic!("{:?}", other),
    }
}

fn error(s: &str) -> RangeParseError {
    match parse_range(s).outcome {
        RangeOutcome::Fail(e) => e,
        other => panic!("{:?}", other),
    }
}

fn classes(t: &[Option<Weight>]) -> Vec<(RangeElem, Weight)> {
    (0..t.len())
        .filter_map(|k| t[k].map(|w| (slot_elem(k).unwrap(), w)))
        .collect()
}

#[test]
fn empty_range() {
    let r = parse_range("");
    assert!(r.weights.is_empty());
    assert!(classes(&table("")).is_empty());
}

#[test]
fn unweighted_items() {
    let t = table("AA");
    assert_eq!(classes(&t), vec![(RangeElem::Pair(12), Weight::Full)]);
    let t = table("AKs, QJo , TT+");
    let mut want = vec![
        (RangeElem::Pair(8), Weight::Full),
        (RangeElem::Pair(9), Weight::Full),
        (RangeElem::Pair(10), Weight::Full),
        (RangeElem::Pair(11), Weight::Full),
        (RangeElem::Pair(12), Weight::Full),
        (RangeElem::Suited(12, 11), Weight::Full),
        (RangeElem::Offsuit(10, 9), Weight::Full),
    ];
    want.sort_by_key(|(e, _)| elem_slot(*e));
    assert_eq!(classes(&t), want);
    assert_eq!(classes(&table("KAs")), vec![(RangeElem::Suited(12, 11), Weight::Full)]);
}

#[test]
fn runs_of_classes() {
    let t = table("ATs+");
    let want: Vec<(RangeElem, Weight)> =
        (8..12).map(|r| (RangeElem::Suited(12, r), Weight::Full)).collect();
    assert_eq!(classes(&t), want);
    let t = table("99-66");
    let want: Vec<(RangeElem, Weight)> = (4..8).map(|r| (RangeElem::Pair(r), Weight::Full)).collect();
    assert_eq!(classes(&t), want);
    // Two classes with the same high rank give the runs of the reader's form.
    let t = table("K6s-K9s");
    let want: Vec<(RangeElem, Weight)> =
        (4..8).map(|r| (RangeElem::Suited(r, 7), Weight::Full)).collect();
    assert_eq!(classes(&t), want);
    assert_eq!(
        error("K9s-K6s"),
        RangeParseError::Custom("Min rank 1 is greater than min rank 2".to_string())
    );
    assert_eq!(
        error("K9s-Q6s"),
        RangeParseError::UnexpectedToken('Q', "K".to_string())
    );
}

#[test]
fn item_errors() {
    let suit = "s for suited or o for offsuit".to_string();
    assert_eq!(error("AK"), RangeParseError::NoSuitedness(12, 11));
    assert_eq!(error("AKx"), RangeParseError::UnexpectedToken('x', suit.clone()));
    assert_eq!(error("AAx"), RangeParseError::UnexpectedToken('x', "+".to_string()));
    assert_eq!(error("XK"), RangeParseError::InvalidRank('X'));
    assert_eq!(error("ak"), RangeParseError::InvalidRank('a'));
    assert_eq!(error("AKs-"), RangeParseError::UnexpectedToken('+', "+".to_string()));
    assert_eq!(error("99x66"), RangeParseError::UnexpectedToken('-', "-".to_string()));
    assert_eq!(error("AKs-AQo"), RangeParseError::UnexpectedToken('o', suit));
    assert_eq!(error("AA, KQ, XX"), RangeParseError::NoSuitedness(11, 10));
}

#[test]
fn items_that_stop_the_reader() {
    assert!(matches!(parse_range("A").outcome, RangeOutcome::Abort));
    assert!(matches!(parse_range("AA,").outcome, RangeOutcome::Abort));
    assert!(matches!(parse_range("AKQJ98").outcome, RangeOutcome::Abort));
    assert!(matches!(parse_range("Aé").outcome, RangeOutcome::Fail(_)));
    assert!(matches!(parse_range("AKé").outcome, RangeOutcome::Abort));
}

#[test]
fn weighted_blocks() {
    let r = parse_range("[0.5]AA,KK[/0.5]");
    assert_eq!(r.weights, vec!["0.5".to_string()]);
    match r.outcome {
        RangeOutcome::Done(t) => assert_eq!(
            classes(&t),
            vec![(RangeElem::Pair(11), Weight::Block(0)), (RangeElem::Pair(12), Weight::Block(0))]
        ),
        other => panic!("{:?}", other),
    }
    let r = parse_range("[0.5]AA[/0.5] [1]KK, AA[/1]");
    assert_eq!(r.weights, vec!["0.5".to_string(), "1".to_string()]);
    match r.outcome {
        RangeOutcome::Done(t) => assert_eq!(
            classes(&t),
            vec![(RangeElem::Pair(11), Weight::Block(1)), (RangeElem::Pair(12), Weight::Block(1))]
        ),
        other => panic!("{:?}", other),
    }
}

#[test]
fn weighted_block_errors() {
    let r = parse_range("[0.5]AA[/0.6]");
    assert_eq!(r.weights, vec!["0.5".to_string()]);
    assert!(matches!(r.outcome, RangeOutcome::Fail(RangeParseError::Custom(_))));
    assert_eq!(error("[0.5]AA"), RangeParseError::UnexpectedEOF);
    assert_eq!(error("[0.5]AA[x"), RangeParseError::UnexpectedToken('[', "/".to_string()));
    let r = parse_range("[0.5");
    assert!(r.weights.is_empty());
    assert!(matches!(r.outcome, RangeOutcome::Fail(RangeParseError::UnexpectedEOF)));
    assert_eq!(error("[0.5]AA[/0.5]x"), RangeParseError::UnexpectedToken('x', "[".to_string()));
}

#[test]
fn slots_and_rank_characters() {
    for k in 0..507 {
        if let Some(e) = slot_elem(k) {
            assert_eq!(elem_slot(e), k);
        }
    }
    assert_eq!(elem_slot(RangeElem::Pair(12)), 168);
    assert_eq!(rank_char(8), 'T');
    assert_eq!(rank_char(12), 'A');
}
