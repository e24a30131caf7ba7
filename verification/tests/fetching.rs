use restack::command::{command_failure, command_output, failure_message};
use restack::descriptor::PrInfo;
use restack::error::{not_open_message, RestackError};
use restack::fetch::{check_open, dedup_numbers, discover_worktree_prs};
use restack::palette::{branch_colors, PALETTE_LEN};
use restack::text::{chars_of, decimal_chars, split_lines, string_of, strip_prefix, text_lt};
use restack::worktree::{parse_worktree_map, WorktreeMap};

fn pr(number: u32, head: &str, base: &str, state: &str) -> PrInfo {
    PrInfo {
        number,
        head_ref: head.to_string(),
        base_ref: base.to_string(),
        state: state.to_string(),
    }
}

#[test]
fn open_builds_an_open_pull_request() {
    let p = PrInfo::open(9, "feat", "main");
    assert_eq!(p.number, 9);
    assert_eq!(p.head_ref, "feat");
    assert_eq!(p.base_ref, "main");
    assert_eq!(p.state, "OPEN");
    let q = p.clone();
    assert_eq!(q.number, 9);
    assert_eq!(q.head_ref, "feat");
    assert_eq!(q.base_ref, "main");
    assert_eq!(q.state, "OPEN");
}

#[test]
fn dedup_keeps_first_occurrences() {
    assert_eq!(dedup_numbers(&vec![3, 1, 3, 2, 1, 3]), vec![3, 1, 2]);
    assert_eq!(dedup_numbers(&Vec::new()), Vec::<u32>::new());
    assert_eq!(dedup_numbers(&vec![7, 7, 7]), vec![7]);
    assert_eq!(dedup_numbers(&vec![0, u32::MAX, 0]), vec![0, u32::MAX]);
}

#[test]
fn check_open_accepts_only_open() {
    assert_eq!(check_open(pr(1, "a", "main", "OPEN")).unwrap().number, 1);
    match check_open(pr(2, "b", "main", "MERGED")) {
        Err(RestackError::NotOpen(number, state)) => {
            assert_eq!(number, 2);
            assert_eq!(state, "MERGED");
        }
        other => panic!("expected a refusal, got {:?}", other),
    }
    assert!(check_open(pr(3, "c", "main", "open")).is_err());
}

#[test]
fn not_open_message_is_lowercase() {
    let error = check_open(pr(12, "b", "main", "CLOSED")).unwrap_err();
    assert_eq!(error.message(), "PR #12 is closed, not open");
    assert_eq!(not_open_message(7, "merged"), "PR #7 is merged, not open");
}

#[test]
fn discover_finds_open_prs_of_checked_out_branches() {
    let index = parse_worktree_map(
        "worktree /r\nbranch refs/heads/main\n\nworktree /r/a\nbranch refs/heads/feat-a\n\nworktree /r/b\nbranch refs/heads/feat-b\n",
    );
    let open = vec![
        pr(5, "feat-b", "feat-a", "OPEN"),
        pr(4, "feat-a", "main", "OPEN"),
        pr(6, "feat-z", "main", "OPEN"),
    ];
    let found = discover_worktree_prs(&index, &open).unwrap();
    let numbers: Vec<u32> = found.iter().map(|p| p.number).collect();
    assert_eq!(numbers, vec![4, 5]);
    assert_eq!(found[0].base_ref, "main");
    assert_eq!(found[1].head_ref, "feat-b");
}

#[test]
fn discover_takes_the_last_listed_for_a_branch_and_each_number_once() {
    let mut index = WorktreeMap::new();
    index.insert("x".to_string(), "/x".to_string());
    index.insert("y".to_string(), "/y".to_string());
    let open = vec![
        pr(1, "x", "main", "OPEN"),
        pr(2, "x", "dev", "OPEN"),
        pr(2, "y", "dev", "OPEN"),
    ];
    let found = discover_worktree_prs(&index, &open).unwrap();
    assert_eq!(found.len(), 1);
    assert_eq!(found[0].number, 2);
    assert_eq!(found[0].head_ref, "x");
}

#[test]
fn discover_fails_without_open_prs() {
    let index = parse_worktree_map("worktree /r\nbranch refs/heads/main\n");
    let open = vec![pr(4, "feat-a", "main", "OPEN")];
    match discover_worktree_prs(&index, &open) {
        Err(RestackError::NoOpenPrs) => {}
        other => panic!("expected no pull requests, got {:?}", other),
    }
    assert_eq!(
        RestackError::NoOpenPrs.message(),
        "no open PRs found for checked-out worktree branches"
    );
}

#[test]
fn branch_colors_go_by_first_occurrence() {
    let prs = vec![
        pr(1, "feat-a", "main", "OPEN"),
        pr(2, "feat-b", "feat-a", "OPEN"),
        pr(3, "feat-c", "main", "OPEN"),
    ];
    let colors = branch_colors(&prs);
    assert_eq!(colors.names, vec!["main", "feat-a", "feat-b", "feat-c"]);
    assert_eq!(colors.slot("main"), Some(0));
    assert_eq!(colors.slot("feat-a"), Some(1));
    assert_eq!(colors.slot("feat-c"), Some(3));
    assert_eq!(colors.slot("other"), None);
    let mut names = colors.names.clone();
    names.sort();
    names.dedup();
    assert_eq!(names.len(), colors.names.len());
}

#[test]
fn branch_colors_wrap_around_the_palette() {
    let prs: Vec<PrInfo> = (0..4)
        .map(|i| pr(i, &format!("h{}", i), &format!("b{}", i), "OPEN"))
        .collect();
    let colors = branch_colors(&prs);
    assert_eq!(PALETTE_LEN, 6);
    assert_eq!(colors.slot("b3"), Some(0));
    assert_eq!(colors.slot("h3"), Some(1));
    assert_eq!(colors.slot("h2"), Some(5));
}

#[test]
fn command_failure_message() {
    let args = vec!["rebase".to_string(), "--autostash".to_string(), "origin/main".to_string()];
    assert_eq!(
        command_failure("git", &args, "  fatal: no such ref\n\n"),
        "git rebase --autostash origin/main failed:\nfatal: no such ref"
    );
    assert_eq!(failure_message("gh", &Vec::new(), " raw "), "gh  failed:\n raw ");
    assert_eq!(failure_message("gh", &vec!["pr".to_string()], ""), "gh pr failed:\n");
}

#[test]
fn command_output_is_trimmed() {
    assert_eq!(command_output("\n  worktree /x \n"), "worktree /x");
    assert_eq!(command_output(""), "");
    let raw = " \t a b \n";
    assert!(raw.contains(&command_output(raw)));
}

#[test]
fn text_round_trip_and_decimal() {
    let v = chars_of("héllo → wörld");
    assert_eq!(v.len(), 13);
    assert_eq!(string_of(&v), "héllo → wörld");
    assert_eq!(string_of(&decimal_chars(0)), "0");
    assert_eq!(string_of(&decimal_chars(907)), "907");
    assert_eq!(string_of(&decimal_chars(u32::MAX)), "4294967295");
}

#[test]
fn lines_are_split_as_std_does() {
    for text in [
        "",
        "\n",
        "a",
        "a\n",
        "a\nb",
        "a\r\nb\r\n",
        "a\rb\n",
        "a\r",
        "\r\n\r\n",
        "\n\nx\n\n",
        "x\r\r\n",
    ] {
        let ours: Vec<String> = split_lines(&chars_of(text)).iter().map(string_of).collect();
        let theirs: Vec<String> = text.lines().map(|l| l.to_string()).collect();
        assert_eq!(ours, theirs, "for {:?}", text);
    }
}

#[test]
fn prefix_is_stripped() {
    let line = chars_of("worktree /x");
    assert_eq!(
        strip_prefix(&line, &chars_of("worktree ")).map(|r| string_of(&r)),
        Some("/x".to_string())
    );
    assert_eq!(strip_prefix(&line, &chars_of("branch ")), None);
    assert_eq!(strip_prefix(&chars_of("work"), &chars_of("worktree ")), None);
    assert_eq!(
        strip_prefix(&line, &chars_of("")).map(|r| string_of(&r)),
        Some("worktree /x".to_string())
    );
}

#[test]
fn texts_are_ordered_as_strings_are() {
    let words = ["", "a", "ab", "b", "B", "main", "maín", "release", "é", "z", "feat/a", "feat-a"];
    for x in words {
        for y in words {
            assert_eq!(text_lt(&chars_of(x), &chars_of(y)), x < y, "{:?} < {:?}", x, y);
        }
    }
}
