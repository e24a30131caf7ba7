use restack::worktree::{parse_worktree_map, WorktreeMap};
use std::path::PathBuf;

fn path_of(map: &WorktreeMap, branch: &str) -> Option<PathBuf> {
    map.get(branch).map(PathBuf::from)
}

#[test]
fn parse_worktree_output() {
    let output = "\
worktree /Users/raine/code/myrepo
branch refs/heads/main

worktree /Users/raine/code/myrepo__worktrees/feat-a
branch refs/heads/feat-a

worktree /Users/raine/code/myrepo__worktrees/feat-b
branch refs/heads/feature/feat-b
";
    let map = parse_worktree_map(output);

    assert_eq!(
        path_of(&map, "main").as_ref(),
        Some(&PathBuf::from("/Users/raine/code/myrepo"))
    );
    assert_eq!(
        path_of(&map, "feat-a").as_ref(),
        Some(&PathBuf::from("/Users/raine/code/myrepo__worktrees/feat-a"))
    );
    assert_eq!(
        path_of(&map, "feature/feat-b").as_ref(),
        Some(&PathBuf::from("/Users/raine/code/myrepo__worktrees/feat-b"))
    );
}

#[test]
fn parse_detached_block_contributes_nothing() {
    let output = "\
worktree /repo
HEAD 1111111111111111111111111111111111111111
branch refs/heads/main

worktree /repo__worktrees/detached
HEAD 2222222222222222222222222222222222222222
detached
";
    let map = parse_worktree_map(output);
    assert_eq!(map.len(), 1);
    assert_eq!(map.get("main"), Some(&"/repo".to_string()));
    assert!(!map.contains("detached"));
}

#[test]
fn parse_branch_line_binds_only_its_own_block() {
    let output = "worktree /one\n\nbranch refs/heads/orphan\nworktree /two\nbranch refs/heads/two\nbranch refs/heads/again\n";
    let map = parse_worktree_map(output);
    assert_eq!(map.len(), 1);
    assert_eq!(map.get("two"), Some(&"/two".to_string()));
    assert_eq!(map.get("orphan"), None);
    assert_eq!(map.get("again"), None);
}

#[test]
fn parse_repeated_branch_keeps_the_last() {
    let output = "worktree /first\nbranch refs/heads/dup\n\nworktree /second\nbranch refs/heads/dup\n";
    let map = parse_worktree_map(output);
    assert_eq!(map.len(), 1);
    assert_eq!(map.get("dup"), Some(&"/second".to_string()));
}

#[test]
fn parse_handles_carriage_returns_and_missing_final_newline() {
    let output = "worktree /w\r\nbranch refs/heads/main\r\n\r\nworktree /v\nbranch refs/heads/dev";
    let map = parse_worktree_map(output);
    assert_eq!(map.len(), 2);
    assert_eq!(map.get("main"), Some(&"/w".to_string()));
    assert_eq!(map.get("dev"), Some(&"/v".to_string()));
}

#[test]
fn parse_is_repeatable() {
    let output = "worktree /a\nbranch refs/heads/a\n\nworktree /b\nbranch refs/heads/b\n";
    let first = parse_worktree_map(output);
    let second = parse_worktree_map(output);
    assert_eq!(first.len(), second.len());
    assert_eq!(first.get("a"), second.get("a"));
    assert_eq!(first.get("b"), second.get("b"));
}

#[test]
fn parse_empty_listing() {
    let map = parse_worktree_map("");
    assert_eq!(map.len(), 0);
}

#[test]
fn parse_keeps_non_ascii_names() {
    let output = "worktree /höme/repo\nbranch refs/heads/fix/ünïcode\n";
    let map = parse_worktree_map(output);
    assert_eq!(map.get("fix/ünïcode"), Some(&"/höme/repo".to_string()));
}

#[test]
fn worktree_map_insert_replaces() {
    let mut map = WorktreeMap::new();
    map.insert("a".to_string(), "/1".to_string());
    map.insert("b".to_string(), "/2".to_string());
    map.insert("a".to_string(), "/3".to_string());
    assert_eq!(map.len(), 2);
    assert_eq!(map.get("a"), Some(&"/3".to_string()));
    assert_eq!(map.get("b"), Some(&"/2".to_string()));
}
