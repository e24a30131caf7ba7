use restack::descriptor::PrInfo;
use restack::orchestrate::{keep_working_copy, remediation, Action, FailureKind, Orchestrator, Phase};
use restack::plan::{locate, resolve_onto, temp_dir_name, Ledger, Location, OntoTarget};
use restack::preflight::preflight;
use restack::worktree::WorktreeMap;

fn pr(number: u32, head: &str, base: &str) -> PrInfo {
    PrInfo {
        number,
        head_ref: head.to_string(),
        base_ref: base.to_string(),
        state: "OPEN".to_string(),
    }
}

fn index_of(pairs: &[(&str, &str)]) -> WorktreeMap {
    let mut map = WorktreeMap::new();
    for (branch, path) in pairs {
        map.insert(branch.to_string(), path.to_string());
    }
    map
}

fn stack() -> Vec<PrInfo> {
    vec![pr(1, "feat-a", "main"), pr(2, "feat-b", "feat-a")]
}

#[test]
fn onto_is_remote_then_local_after_rebase() {
    let index = index_of(&[("feat-a", "/w/a"), ("feat-b", "/w/b")]);
    let (mut run, first) = Orchestrator::new(stack(), index, false, false);
    assert_eq!(first, Action::Rebase);
    assert_eq!(run.current().unwrap().number, 1);
    assert_eq!(run.onto().refname(), "origin/main");
    assert!(!run.onto().is_local());
    assert_eq!(run.advance(true), Action::Push);
    assert_eq!(run.advance(true), Action::Rebase);
    assert_eq!(run.current().unwrap().number, 2);
    assert_eq!(run.onto().refname(), "feat-a");
    assert!(run.onto().is_local());
    assert_eq!(run.advance(true), Action::Push);
    assert_eq!(run.advance(true), Action::Finish);
    assert_eq!(run.phase, Phase::Finished);
    assert!(run.current().is_none());
    assert_eq!(run.advance(true), Action::Finish);
}

#[test]
fn no_push_skips_push_but_records() {
    let index = index_of(&[("feat-a", "/w/a"), ("feat-b", "/w/b")]);
    let (mut run, first) = Orchestrator::new(stack(), index, true, false);
    assert_eq!(first, Action::Rebase);
    assert_eq!(run.advance(true), Action::Rebase);
    assert_eq!(run.next, 1);
    assert_eq!(run.onto().refname(), "feat-a");
    assert_eq!(run.advance(true), Action::Finish);
}

#[test]
fn rebase_failure_halts_and_records_nothing() {
    let index = index_of(&[("feat-a", "/w/a"), ("feat-b", "/w/b")]);
    let (mut run, _) = Orchestrator::new(stack(), index, false, false);
    assert_eq!(run.advance(false), Action::Halt(FailureKind::RebaseConflict));
    assert_eq!(run.phase, Phase::Halted(FailureKind::RebaseConflict));
    assert_eq!(run.next, 0);
    assert!(!run.ledger.contains("feat-a"));
    assert_eq!(run.advance(true), Action::Halt(FailureKind::RebaseConflict));
    assert_eq!(run.next, 0);
}

#[test]
fn push_failure_halts_after_recording() {
    let index = index_of(&[("feat-a", "/w/a"), ("feat-b", "/w/b")]);
    let (mut run, _) = Orchestrator::new(stack(), index, false, false);
    assert_eq!(run.advance(true), Action::Push);
    assert_eq!(run.advance(false), Action::Halt(FailureKind::PushRejected));
    assert!(run.ledger.contains("feat-a"));
    assert_eq!(run.next, 0);
}

#[test]
fn temporary_working_copy_is_made_and_removed() {
    let index = index_of(&[("feat-b", "/w/b")]);
    let (mut run, first) = Orchestrator::new(stack(), index, false, false);
    assert_eq!(first, Action::AddWorktree);
    match run.location() {
        Location::Temporary(name) => assert_eq!(name, "restack-feat-a"),
        other => panic!("expected a temporary working copy, got {:?}", other),
    }
    assert_eq!(run.advance(true), Action::Rebase);
    assert_eq!(run.advance(true), Action::Push);
    assert_eq!(run.advance(true), Action::RemoveWorktree);
    assert_eq!(run.advance(false), Action::Rebase);
    assert_eq!(run.current().unwrap().number, 2);
    match run.location() {
        Location::Worktree(path) => assert_eq!(path, "/w/b"),
        other => panic!("expected a worktree, got {:?}", other),
    }
    assert_eq!(run.onto().refname(), "feat-a");
}

#[test]
fn temporary_working_copy_stays_after_rebase_conflict() {
    let (mut run, first) = Orchestrator::new(stack(), WorktreeMap::new(), false, false);
    assert_eq!(first, Action::AddWorktree);
    assert_eq!(run.advance(true), Action::Rebase);
    assert_eq!(run.advance(false), Action::Halt(FailureKind::RebaseConflict));
}

#[test]
fn temporary_working_copy_goes_after_push_failure() {
    let (mut run, _) = Orchestrator::new(stack(), WorktreeMap::new(), false, false);
    assert_eq!(run.advance(true), Action::Rebase);
    assert_eq!(run.advance(true), Action::Push);
    assert_eq!(run.advance(false), Action::RemoveWorktree);
    assert_eq!(run.phase, Phase::RemovingAfterFailure(FailureKind::PushRejected));
    assert_eq!(run.advance(true), Action::Halt(FailureKind::PushRejected));
}

#[test]
fn temporary_working_copy_that_cannot_be_made_halts() {
    let (mut run, _) = Orchestrator::new(stack(), WorktreeMap::new(), false, false);
    assert_eq!(run.advance(false), Action::Halt(FailureKind::NotFoundLocally));
}

#[test]
fn temporary_working_copy_with_no_push_is_removed_after_rebase() {
    let (mut run, _) = Orchestrator::new(stack(), WorktreeMap::new(), true, false);
    assert_eq!(run.advance(true), Action::Rebase);
    assert_eq!(run.advance(true), Action::RemoveWorktree);
    assert_eq!(run.advance(true), Action::AddWorktree);
    assert_eq!(run.next, 1);
}

#[test]
fn dry_run_only_reports() {
    let (mut run, first) = Orchestrator::new(stack(), WorktreeMap::new(), false, true);
    assert_eq!(first, Action::Report);
    assert_eq!(run.onto().refname(), "origin/main");
    assert_eq!(run.advance(true), Action::Report);
    assert_eq!(run.onto().refname(), "feat-a");
    assert_eq!(run.advance(true), Action::Finish);
}

#[test]
fn empty_order_finishes_at_once() {
    let (run, first) = Orchestrator::new(Vec::new(), WorktreeMap::new(), false, false);
    assert_eq!(first, Action::Finish);
    assert_eq!(run.phase, Phase::Finished);
}

#[test]
fn resolve_onto_follows_the_ledger() {
    let mut ledger = Ledger::new();
    let base = "feat-a".to_string();
    match resolve_onto(&ledger, &base) {
        OntoTarget::Remote(b) => assert_eq!(b, "feat-a"),
        other => panic!("expected the remote branch, got {:?}", other),
    }
    ledger.record("feat-a".to_string());
    ledger.record("feat-a".to_string());
    assert_eq!(ledger.branches.len(), 1);
    assert!(ledger.contains("feat-a"));
    assert!(!ledger.contains("main"));
    match resolve_onto(&ledger, &base) {
        OntoTarget::Local(b) => assert_eq!(b, "feat-a"),
        other => panic!("expected the local branch, got {:?}", other),
    }
    assert_eq!(resolve_onto(&ledger, &"main".to_string()).refname(), "origin/main");
}

#[test]
fn temp_dir_name_replaces_slashes() {
    assert_eq!(temp_dir_name("feature/deep/x"), "restack-feature-deep-x");
    assert_eq!(temp_dir_name("plain"), "restack-plain");
    assert_eq!(temp_dir_name(""), "restack-");
}

#[test]
fn locate_prefers_the_worktree() {
    let index = index_of(&[("feat-a", "/w/a")]);
    assert!(!locate(&index, &"feat-a".to_string()).is_temporary());
    assert!(locate(&index, &"feat/b".to_string()).is_temporary());
}

#[test]
fn only_a_rebase_conflict_keeps_the_working_copy() {
    assert!(keep_working_copy(FailureKind::RebaseConflict));
    assert!(!keep_working_copy(FailureKind::PushRejected));
    assert!(!keep_working_copy(FailureKind::NotFoundLocally));
    assert!(!keep_working_copy(FailureKind::DirtyWorkingCopy));
}

#[test]
fn remediation_texts() {
    assert_eq!(
        remediation(FailureKind::RebaseConflict, "feat-a", "/w/a"),
        Some(
            "resolve conflicts in /w/a then run: git rebase --continue && git push --force-with-lease"
                .to_string()
        )
    );
    assert_eq!(
        remediation(FailureKind::NotFoundLocally, "feat-a", "/tmp/restack-feat-a"),
        Some("failed to create temporary worktree for branch 'feat-a'".to_string())
    );
    assert_eq!(remediation(FailureKind::PushRejected, "feat-a", "/w/a"), None);
    assert_eq!(remediation(FailureKind::DirtyWorkingCopy, "feat-a", "/w/a"), None);
}

#[test]
fn preflight_reports_every_offender() {
    let index = index_of(&[("feat-a", "/w/a"), ("feat-b", "/w/b")]);
    assert!(preflight(&stack(), &index, &Vec::new()).is_ok());

    let dirty = vec!["/w/b".to_string()];
    let failures = preflight(&stack(), &index, &dirty).unwrap_err();
    assert_eq!(failures.len(), 1);
    assert_eq!(failures[0].kind, FailureKind::DirtyWorkingCopy);
    assert_eq!(failures[0].number, 2);
    assert_eq!(failures[0].branch, "feat-b");
    assert_eq!(failures[0].location, Some("/w/b".to_string()));

    let partial = index_of(&[("feat-b", "/w/b")]);
    let failures = preflight(&stack(), &partial, &dirty).unwrap_err();
    assert_eq!(failures.len(), 2);
    assert_eq!(failures[0].kind, FailureKind::NotFoundLocally);
    assert_eq!(failures[0].number, 1);
    assert_eq!(failures[0].branch, "feat-a");
    assert_eq!(failures[0].location, None);
    assert_eq!(failures[1].kind, FailureKind::DirtyWorkingCopy);
    assert_eq!(failures[1].number, 2);
    assert_eq!(failures[1].location, Some("/w/b".to_string()));
}

#[test]
fn preflight_of_nothing_passes() {
    assert!(preflight(&[], &WorktreeMap::new(), &vec!["/w".to_string()]).is_ok());
}
