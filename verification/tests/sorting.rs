use restack::descriptor::PrInfo;
use restack::error::RestackError;
use restack::sort::sort_by_dependency;

fn pr(number: u32, head: &str, base: &str) -> PrInfo {
    PrInfo {
        number,
        head_ref: head.to_string(),
        base_ref: base.to_string(),
        state: "OPEN".to_string(),
    }
}

fn numbers(prs: &[PrInfo]) -> Vec<u32> {
    prs.iter().map(|p| p.number).collect()
}

#[test]
fn sort_independent_prs_preserves_order() {
    let prs = vec![pr(1, "feat-a", "main"), pr(2, "feat-b", "main")];
    let sorted = sort_by_dependency(prs).unwrap();
    assert_eq!(sorted[0].number, 1);
    assert_eq!(sorted[1].number, 2);
}

#[test]
fn sort_stacked_prs_orders_by_dependency() {
    let prs = vec![
        pr(3, "feat-c", "feat-b"),
        pr(1, "feat-a", "main"),
        pr(2, "feat-b", "feat-a"),
    ];
    let sorted = sort_by_dependency(prs).unwrap();
    assert_eq!(sorted[0].number, 1);
    assert_eq!(sorted[1].number, 2);
    assert_eq!(sorted[2].number, 3);
}

#[test]
fn sort_partial_stack() {
    let prs = vec![pr(3, "feat-c", "feat-b"), pr(2, "feat-b", "main")];
    let sorted = sort_by_dependency(prs).unwrap();
    assert_eq!(sorted[0].number, 2);
    assert_eq!(sorted[1].number, 3);
}

#[test]
fn sort_detects_cycle() {
    let prs = vec![pr(1, "feat-a", "feat-b"), pr(2, "feat-b", "feat-a")];
    let result = sort_by_dependency(prs);
    assert!(result.is_err());
    assert!(result
        .unwrap_err()
        .message()
        .contains("circular dependency"));
}

#[test]
fn sort_cycle_names_both_pull_requests() {
    let prs = vec![pr(1, "feat-a", "feat-b"), pr(2, "feat-b", "feat-a")];
    match sort_by_dependency(prs) {
        Err(RestackError::CircularDependency(rest)) => assert_eq!(numbers(&rest), vec![1, 2]),
        other => panic!("expected a cycle, got {:?}", other),
    }
}

#[test]
fn sort_cycle_message_is_exact() {
    let prs = vec![pr(1, "feat-a", "feat-b"), pr(2, "feat-b", "feat-a")];
    let message = sort_by_dependency(prs).unwrap_err().message();
    assert_eq!(
        message,
        "circular dependency detected among PRs:\n  PR #1 (feat-a → feat-b)\n  PR #2 (feat-b → feat-a)"
    );
}

#[test]
fn sort_empty_input_is_empty_order() {
    let sorted = sort_by_dependency(Vec::new()).unwrap();
    assert!(sorted.is_empty());
}

#[test]
fn sort_single_with_outside_base() {
    let sorted = sort_by_dependency(vec![pr(7, "feat-x", "develop")]).unwrap();
    assert_eq!(numbers(&sorted), vec![7]);
}

#[test]
fn sort_self_dependency_is_a_cycle() {
    let result = sort_by_dependency(vec![pr(4, "loop", "loop")]);
    match result {
        Err(RestackError::CircularDependency(rest)) => assert_eq!(numbers(&rest), vec![4]),
        other => panic!("expected a cycle, got {:?}", other),
    }
}

#[test]
fn sort_cycle_keeps_what_waits_for_it() {
    let prs = vec![
        pr(1, "feat-a", "main"),
        pr(2, "feat-b", "feat-c"),
        pr(3, "feat-c", "feat-b"),
        pr(4, "feat-d", "feat-c"),
    ];
    match sort_by_dependency(prs) {
        Err(RestackError::CircularDependency(rest)) => assert_eq!(numbers(&rest), vec![2, 3, 4]),
        other => panic!("expected a cycle, got {:?}", other),
    }
}

#[test]
fn sort_is_a_permutation_in_dependency_order() {
    let prs = vec![
        pr(5, "e", "d"),
        pr(4, "d", "b"),
        pr(3, "c", "a"),
        pr(2, "b", "a"),
        pr(1, "a", "main"),
    ];
    let sorted = sort_by_dependency(prs).unwrap();
    assert_eq!(numbers(&sorted), vec![1, 3, 2, 4, 5]);
    for (i, d) in sorted.iter().enumerate() {
        for (j, e) in sorted.iter().enumerate() {
            if e.head_ref == d.base_ref {
                assert!(j < i);
            }
        }
    }
}

#[test]
fn sort_unblocked_is_not_overtaken() {
    let prs = vec![
        pr(1, "x", "y"),
        pr(2, "z", "main"),
        pr(3, "y", "main"),
    ];
    let sorted = sort_by_dependency(prs).unwrap();
    assert_eq!(numbers(&sorted), vec![2, 3, 1]);
}
