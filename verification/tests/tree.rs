use restack::descriptor::PrInfo;
use restack::tree::{connector_mark, StackTree, TreeLine};

fn pr(number: u32, head: &str, base: &str) -> PrInfo {
    PrInfo {
        number,
        head_ref: head.to_string(),
        base_ref: base.to_string(),
        state: "OPEN".to_string(),
    }
}

#[test]
fn tree_linear_stack() {
    let prs = vec![
        pr(1, "feat-a", "main"),
        pr(2, "feat-b", "feat-a"),
        pr(3, "feat-c", "feat-b"),
    ];
    assert_eq!(
        StackTree::build(&prs).format_plain(),
        "\
main
└─ #1 feat-a
   └─ #2 feat-b
      └─ #3 feat-c\n"
    );
}

#[test]
fn tree_branching_stack() {
    let prs = vec![
        pr(1, "feat-a", "main"),
        pr(2, "feat-b", "main"),
        pr(3, "feat-c", "feat-a"),
    ];
    assert_eq!(
        StackTree::build(&prs).format_plain(),
        "\
main
├─ #1 feat-a
│  └─ #3 feat-c
└─ #2 feat-b\n"
    );
}

#[test]
fn tree_independent_prs() {
    let prs = vec![pr(1, "feat-a", "main"), pr(2, "feat-b", "main")];
    assert_eq!(
        StackTree::build(&prs).format_plain(),
        "\
main
├─ #1 feat-a
└─ #2 feat-b\n"
    );
}

#[test]
fn tree_roots_are_sorted_and_distinct() {
    let prs = vec![
        pr(10, "feat-z", "release"),
        pr(11, "feat-y", "develop"),
        pr(12, "feat-x", "release"),
        pr(13, "feat-w", "feat-z"),
    ];
    let tree = StackTree::build(&prs);
    assert_eq!(tree.roots, vec!["develop".to_string(), "release".to_string()]);
    assert_eq!(
        tree.format_plain(),
        "\
develop
└─ #11 feat-y
release
├─ #10 feat-z
│  └─ #13 feat-w
└─ #12 feat-x\n"
    );
}

#[test]
fn tree_of_nothing_is_empty() {
    let tree = StackTree::build(&[]);
    assert!(tree.roots.is_empty());
    assert_eq!(tree.format_plain(), "");
}

#[test]
fn tree_children_stop_at_depth() {
    let prs = vec![pr(1, "feat-a", "main"), pr(2, "feat-b", "feat-a")];
    let tree = StackTree::build(&prs);
    let kids = tree.find_kids(&"main".to_string()).unwrap();
    let mut out = String::new();
    tree.format_children_plain(kids, "> ", 0, &mut out);
    assert_eq!(out, "> └─ #1 feat-a\n");
    let mut deep = String::new();
    tree.format_children_plain(kids, "> ", 1, &mut deep);
    assert_eq!(deep, "> └─ #1 feat-a\n>    └─ #2 feat-b\n");
}

#[test]
fn tree_numbers_are_decimal() {
    let prs = vec![pr(0, "zero", "main"), pr(4294967295, "max", "main"), pr(1050, "mid", "main")];
    assert_eq!(
        StackTree::build(&prs).format_plain(),
        "main\n├─ #0 zero\n├─ #4294967295 max\n└─ #1050 mid\n"
    );
}

#[test]
fn tree_rows_are_the_lines_in_parts() {
    let prs = vec![
        pr(1, "feat-a", "main"),
        pr(2, "feat-b", "main"),
        pr(3, "feat-c", "feat-a"),
    ];
    let tree = StackTree::build(&prs);
    let mut text = String::new();
    let mut shape = Vec::new();
    for row in tree.rows() {
        match row {
            TreeLine::Root(name) => {
                text.push_str(&format!("{}\n", name));
                shape.push((String::new(), true, 0));
            }
            TreeLine::Node(prefix, is_last, number, head_ref) => {
                text.push_str(&format!(
                    "{}{} #{} {}\n",
                    prefix,
                    connector_mark(is_last),
                    number,
                    head_ref
                ));
                shape.push((prefix, is_last, number));
            }
        }
    }
    assert_eq!(text, tree.format_plain());
    assert_eq!(
        shape,
        vec![
            (String::new(), true, 0),
            (String::new(), false, 1),
            ("│  ".to_string(), true, 3),
            (String::new(), true, 2),
        ]
    );
}

#[test]
fn tree_of_a_cycle_under_a_root_ends() {
    let prs = vec![
        pr(1, "a", "main"),
        pr(2, "b", "a"),
        pr(3, "a", "b"),
    ];
    let tree = StackTree::build(&prs);
    assert_eq!(tree.size, 3);
    assert_eq!(
        tree.format_plain(),
        "main\n└─ #1 a\n   └─ #2 b\n      └─ #3 a\n         └─ #2 b\n"
    );
}

fn family(tree: &StackTree, base: &str) -> Option<Vec<(u32, String)>> {
    tree.find_kids(&base.to_string())
        .map(|kids| kids.iter().map(|c| (c.number, c.head_ref.clone())).collect())
}

#[test]
fn tree_has_one_family_for_each_base() {
    let prs = vec![pr(1, "x", "zeta"), pr(2, "y", "alpha"), pr(3, "z", "x")];
    let tree = StackTree::build(&prs);
    assert_eq!(tree.roots, vec!["alpha".to_string(), "zeta".to_string()]);
    assert_eq!(tree.children.len(), 3);
    let bases: Vec<&str> = tree.children.iter().map(|f| f.base.as_str()).collect();
    assert_eq!(bases, vec!["zeta", "alpha", "x"]);
    assert_eq!(family(&tree, "zeta"), Some(vec![(1, "x".to_string())]));
    assert_eq!(family(&tree, "alpha"), Some(vec![(2, "y".to_string())]));
    assert_eq!(family(&tree, "x"), Some(vec![(3, "z".to_string())]));
    assert_eq!(family(&tree, "y"), None);
    assert_eq!(family(&tree, "z"), None);
    assert_eq!(family(&tree, ""), None);
    assert_eq!(tree.size, 3);
}

#[test]
fn tree_families_hold_every_pull_request_once() {
    let prs = vec![
        pr(1, "a", "main"),
        pr(2, "b", "main"),
        pr(3, "c", "a"),
        pr(4, "d", "main"),
        pr(5, "e", "a"),
    ];
    let tree = StackTree::build(&prs);
    let total: usize = tree.children.iter().map(|f| f.kids.len()).sum();
    assert_eq!(total, prs.len());
    assert_eq!(tree.children.len(), 2);
    let mut bases: Vec<&str> = tree.children.iter().map(|f| f.base.as_str()).collect();
    bases.sort();
    bases.dedup();
    assert_eq!(bases, vec!["a", "main"]);
    assert_eq!(
        family(&tree, "main"),
        Some(vec![(1, "a".to_string()), (2, "b".to_string()), (4, "d".to_string())])
    );
    assert_eq!(
        family(&tree, "a"),
        Some(vec![(3, "c".to_string()), (5, "e".to_string())])
    );
}

#[test]
fn tree_of_nothing_has_no_family() {
    let tree = StackTree::build(&[]);
    assert!(tree.roots.is_empty());
    assert!(tree.children.is_empty());
    assert_eq!(tree.size, 0);
    assert_eq!(family(&tree, "main"), None);
    assert!(tree.rows().is_empty());
}
