//! Witnesses and verdicts.

use roast::verdict::{NondetEntry, NondetValue, Verdict, Witness};

fn entry(value: NondetValue) -> NondetEntry {
    NondetEntry {
        nondet_method: value.nondet_method(),
        value,
        line: None,
    }
}

#[test]
fn a_string_does_not_consume_a_numeric_slot() {
    let w = Witness {
        entries: vec![
            entry(NondetValue::Str("hello".into())),
            entry(NondetValue::Int(42)),
        ],
    };
    assert_eq!(w.nondet_sequence(), vec![42]);
    assert_eq!(w.string_values(), vec!["hello"]);
}

#[test]
fn numeric_values_keep_their_order_and_encoding() {
    let w = Witness {
        entries: vec![
            entry(NondetValue::Int(-1)),
            entry(NondetValue::Long(1 << 40)),
            entry(NondetValue::Bool(true)),
            entry(NondetValue::Bool(false)),
        ],
    };
    assert_eq!(w.nondet_sequence(), vec![-1, 1 << 40, 1, 0]);
}

#[test]
fn an_empty_witness_is_legitimate() {
    // A deterministic bug needs no inputs; that is not a missing witness.
    let w = Witness::default();
    assert!(w.is_empty());
    assert!(w.nondet_sequence().is_empty());
}

#[test]
fn verdicts_that_disagree_are_a_contradiction() {
    assert_eq!(Verdict::True.join(Verdict::False), Verdict::Contradiction);
    assert_eq!(Verdict::False.join(Verdict::True), Verdict::Contradiction);
    assert_eq!(Verdict::Unknown.join(Verdict::True), Verdict::True);
    assert_eq!(Verdict::False.join(Verdict::Unknown), Verdict::False);
    assert_eq!(Verdict::True.join(Verdict::True), Verdict::True);
    assert_eq!(
        Verdict::Contradiction.join(Verdict::Unknown),
        Verdict::Contradiction
    );
}

#[test]
fn a_contradiction_is_not_printed_as_a_verdict() {
    assert_eq!(Verdict::True.as_svcomp(), "TRUE");
    assert_eq!(Verdict::False.as_svcomp(), "FALSE");
    assert_eq!(Verdict::Unknown.as_svcomp(), "UNKNOWN");
    assert_eq!(Verdict::Contradiction.as_svcomp(), "UNKNOWN");
}
