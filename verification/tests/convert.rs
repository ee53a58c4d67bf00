use conversion_planner::convert::{
    failure_line_of, mismatch_of, report_of, Action, Conversion, Failure, Stage, RETRY_LIMIT,
};
use conversion_planner::registry::{Registry, RegistryError};
use conversion_planner::variations::Variations;

fn set(items: &[u64]) -> Variations {
    Variations::from_vec(items.to_vec())
}

fn registry(edges: &[(i32, u64, &[u64], u64, &[u64], u64)]) -> Registry {
    let mut registry = Registry::new();
    for (cost, key_in, variations_in, key_out, variations_out, data) in edges {
        let added = registry.add_conversion(
            *cost,
            *key_in,
            set(variations_in),
            *key_out,
            set(variations_out),
            *data,
        );
        assert_eq!(added, Ok(()));
    }
    registry
}

/// What a conversion awaits, written out.
fn awaited(conversion: &Conversion) -> String {
    match conversion.action() {
        Action::Reveal(handle) => format!("reveal {}", handle),
        Action::Call { payload, restart: true } => format!("call {} on the value", payload),
        Action::Call { payload, restart: false } => format!("call {}", payload),
        Action::Unchanged => "unchanged".to_string(),
        Action::Done => "done".to_string(),
        Action::Fail(Failure::Conversion(text)) => format!("conversion error: {}", text),
        Action::Fail(Failure::TypeMismatch) => "type mismatch".to_string(),
    }
}

const A: u64 = 101;
const B: u64 = 102;
const C: u64 = 103;

#[test]
fn a_negative_cost_is_refused() {
    let mut registry = Registry::new();
    let refused = registry.add_conversion(-1, 1, set(&[]), 2, set(&[]), A);
    assert_eq!(refused, Err(RegistryError::NegativeCost));
    assert_eq!(registry.graph().len(), 0);
    assert_eq!(registry.add_conversion(0, 1, set(&[]), 2, set(&[]), A), Ok(()));
    assert_eq!(registry.graph().len(), 1);
}

#[test]
fn revealers_keep_the_order_of_their_registration() {
    let mut registry = Registry::new();
    registry.add_revealer(1, 30);
    registry.add_revealer(2, 40);
    registry.add_revealer(1, 10);
    registry.add_revealer(1, 20);
    assert_eq!(registry.revealers(1), vec![30, 10, 20]);
    assert_eq!(registry.revealers(2), vec![40]);
    assert_eq!(registry.revealers(3), Vec::<u64>::new());
}

#[test]
fn clear_forgets_everything() {
    let mut registry = registry(&[(1, 1, &[], 2, &[], A)]);
    registry.add_revealer(1, 10);
    registry.clear();
    assert_eq!(registry.graph().len(), 0);
    assert_eq!(registry.revealers(1), Vec::<u64>::new());
    // A registry that holds nothing can be cleared too.
    let mut empty = Registry::new();
    empty.clear();
    assert_eq!(empty.graph().len(), 0);
}

#[test]
fn the_same_key_and_variations_leave_the_value_unchanged() {
    let mut registry = registry(&[(1, 1, &[], 1, &[], A)]);
    registry.add_revealer(1, 10);
    let conversion = Conversion::new(&registry, 1, set(&[5, 6]), 1, set(&[6, 5]), true);
    assert_eq!(conversion.stage(), Stage::Unchanged);
    assert_eq!(awaited(&conversion), "unchanged");
    assert_eq!(conversion.attempts(), 0);
}

#[test]
fn a_chain_is_called_edge_by_edge() {
    let registry = registry(&[(1, 1, &[], 2, &[], A), (1, 2, &[], 3, &[], B)]);
    let mut conversion = Conversion::new(&registry, 1, set(&[]), 3, set(&[]), false);
    assert_eq!(awaited(&conversion), "call 101 on the value");
    assert_eq!(conversion.attempts(), 1);
    conversion.succeeded();
    assert_eq!(awaited(&conversion), "call 102");
    conversion.succeeded();
    assert_eq!(conversion.stage(), Stage::Converted);
    assert_eq!(awaited(&conversion), "done");
    assert_eq!(conversion.attempts(), 1);
}

#[test]
fn no_chain_is_a_type_mismatch() {
    let registry = registry(&[(1, 1, &[], 2, &[], A)]);
    let conversion = Conversion::new(&registry, 1, set(&[]), 3, set(&[]), false);
    assert_eq!(conversion.stage(), Stage::Failed);
    assert_eq!(awaited(&conversion), "type mismatch");
}

#[test]
fn a_failed_edge_is_excluded_and_its_failure_reported() {
    let registry = registry(&[(1, 1, &[], 2, &[], A), (1, 2, &[], 3, &[], B)]);
    let mut conversion = Conversion::new(&registry, 1, set(&[]), 3, set(&[]), false);
    assert_eq!(awaited(&conversion), "call 101 on the value");
    conversion.failed("ValueError: no".to_string());
    assert_eq!(conversion.stage(), Stage::Failed);
    assert_eq!(conversion.attempts(), 2);
    assert_eq!(
        awaited(&conversion),
        "conversion error: Some problems occurred during the conversion process:\nValueError: no"
    );
}

#[test]
fn after_a_failure_another_chain_starts_from_the_value() {
    let registry = registry(&[
        (1, 1, &[], 2, &[], A),
        (1, 2, &[], 3, &[], B),
        (9, 1, &[], 3, &[], C),
    ]);
    let mut conversion = Conversion::new(&registry, 1, set(&[]), 3, set(&[]), false);
    assert_eq!(awaited(&conversion), "call 101 on the value");
    conversion.succeeded();
    assert_eq!(awaited(&conversion), "call 102");
    conversion.failed("KeyError: b".to_string());
    assert_eq!(awaited(&conversion), "call 103 on the value");
    conversion.failed("KeyError: c".to_string());
    assert_eq!(
        awaited(&conversion),
        "conversion error: Some problems occurred during the conversion process:\n\
         KeyError: b\nKeyError: c"
    );
    assert_eq!(conversion.attempts(), 3);
}

#[test]
fn no_more_chains_are_planned_than_the_limit_allows() {
    assert_eq!(RETRY_LIMIT, 10);
    let mut registry = Registry::new();
    for payload in 0..12 {
        assert_eq!(registry.add_conversion(1, 1, set(&[]), 2, set(&[]), payload), Ok(()));
    }
    let mut conversion = Conversion::new(&registry, 1, set(&[]), 2, set(&[]), false);
    let mut calls = 0;
    while conversion.stage() == Stage::Calling {
        calls += 1;
        conversion.failed(format!("Error: {}", calls));
    }
    assert_eq!(calls, 10);
    assert_eq!(conversion.attempts(), 10);
    let mut expected =
        "conversion error: Some problems occurred during the conversion process:".to_string();
    for call in 1..=10 {
        expected.push_str(&format!("\nError: {}", call));
    }
    assert_eq!(awaited(&conversion), expected);
}

#[test]
fn revealers_are_asked_in_order_and_what_they_yield_is_had() {
    let mut registry = registry(&[(1, 1, &[7, 8], 2, &[], A), (1, 1, &[], 2, &[], B)]);
    registry.add_revealer(1, 10);
    registry.add_revealer(1, 20);
    registry.add_revealer(3, 30);
    let mut conversion = Conversion::new(&registry, 1, set(&[]), 2, set(&[]), false);
    assert_eq!(conversion.stage(), Stage::Revealing);
    assert_eq!(awaited(&conversion), "reveal 10");
    conversion.revealed(vec![7, 7]);
    assert_eq!(awaited(&conversion), "reveal 20");
    conversion.revealed(vec![8]);
    // The edge that consumes both variations comes first.
    assert_eq!(awaited(&conversion), "call 101 on the value");
}

#[test]
fn an_explicit_conversion_asks_no_revealer() {
    let mut registry = registry(&[(1, 1, &[7], 2, &[], A), (1, 1, &[], 2, &[], B)]);
    registry.add_revealer(1, 10);
    let conversion = Conversion::new(&registry, 1, set(&[]), 2, set(&[]), true);
    assert_eq!(awaited(&conversion), "call 102 on the value");
}

#[test]
fn what_revealers_yield_counts_for_the_short_cut() {
    let mut registry = registry(&[(1, 1, &[], 1, &[7], A)]);
    registry.add_revealer(1, 10);
    let mut conversion = Conversion::new(&registry, 1, set(&[]), 1, set(&[7]), false);
    assert_eq!(awaited(&conversion), "reveal 10");
    conversion.revealed(vec![7]);
    assert_eq!(awaited(&conversion), "unchanged");
    assert_eq!(conversion.attempts(), 0);
}

#[test]
fn what_is_not_awaited_changes_nothing() {
    let mut registry = registry(&[(1, 1, &[], 2, &[], A)]);
    registry.add_revealer(1, 10);
    let mut conversion = Conversion::new(&registry, 1, set(&[]), 2, set(&[]), false);
    conversion.succeeded();
    conversion.failed("Error: early".to_string());
    assert_eq!(awaited(&conversion), "reveal 10");
    conversion.revealed(vec![]);
    assert_eq!(awaited(&conversion), "call 101 on the value");
    conversion.revealed(vec![9]);
    assert_eq!(awaited(&conversion), "call 101 on the value");
    conversion.succeeded();
    assert_eq!(awaited(&conversion), "done");
    conversion.failed("Error: late".to_string());
    conversion.succeeded();
    conversion.revealed(vec![1]);
    assert_eq!(awaited(&conversion), "done");
    assert_eq!(conversion.attempts(), 1);
}

#[test]
fn a_report_has_a_heading_and_one_failure_to_a_line() {
    assert_eq!(
        report_of(&vec![]),
        "Some problems occurred during the conversion process:\n"
    );
    assert_eq!(
        report_of(&vec!["TypeError: a".to_string()]),
        "Some problems occurred during the conversion process:\nTypeError: a"
    );
    assert_eq!(
        report_of(&vec!["TypeError: a".to_string(), "".to_string(), "b".to_string()]),
        "Some problems occurred during the conversion process:\nTypeError: a\n\nb"
    );
}

#[test]
fn the_same_request_gives_the_same_chain() {
    let registry = registry(&[
        (1, 1, &[], 2, &[], A),
        (1, 1, &[], 2, &[], B),
        (1, 2, &[], 3, &[], C),
    ]);
    let first = awaited(&Conversion::new(&registry, 1, set(&[]), 3, set(&[]), false));
    for _ in 0..5 {
        let again = awaited(&Conversion::new(&registry, 1, set(&[]), 3, set(&[]), false));
        assert_eq!(again, first);
    }
}

#[test]
fn a_failure_is_noted_with_its_kind() {
    assert_eq!(failure_line_of("ValueError", "not a number"), "ValueError: not a number");
    assert_eq!(failure_line_of("", ""), ": ");
}

#[test]
fn a_mismatch_names_the_value_and_what_was_wanted() {
    assert_eq!(
        mismatch_of("'abc'", "<class 'int'>"),
        "Could not convert 'abc' to <class 'int'>. Perhaps some conversion steps are missing."
    );
}
