//! From what the operator names, or from what is checked out, to the
//! descriptors of a run.
use crate::descriptor::{views, PrInfo, PrView};
use crate::error::RestackError;
use crate::worktree::{WorktreeEntry, WorktreeMap};
use std::collections::HashSet;
use vstd::prelude::*;
use vstd::string::*;

verus! {

/// The items of `s`, each where it first occurs.
pub open spec fn first_occurrences<A>(s: Seq<A>) -> Seq<A>
    decreases s.len(),
{
    if s.len() == 0 {
        Seq::empty()
    } else {
        let front = first_occurrences(s.drop_last());
        if front.contains(s.last()) {
            front
        } else {
            front.push(s.last())
        }
    }
}

/// The first occurrences hold no item twice and hold exactly the items of
/// the list.
pub proof fn lemma_first_occurrences<A>(s: Seq<A>)
    ensures
        first_occurrences(s).no_duplicates(),
        forall|x: A| #[trigger] first_occurrences(s).contains(x) <==> s.contains(x),
        first_occurrences(s).len() <= s.len(),
    decreases s.len(),
{
    if s.len() > 0 {
        let front = first_occurrences(s.drop_last());
        lemma_first_occurrences(s.drop_last());
        let r = first_occurrences(s);
        assert forall|x: A| r.contains(x) <==> s.contains(x) by {
            assert(front.contains(x) <==> s.drop_last().contains(x));
            if r.contains(x) {
                let j = choose|j: int| 0 <= j < r.len() && r[j] == x;
                if j < front.len() {
                    assert(front[j] == x);
                    assert(front.contains(x));
                    let k = choose|k: int| 0 <= k < s.drop_last().len() && s.drop_last()[k] == x;
                    assert(s[k] == x);
                } else {
                    assert(s[s.len() - 1] == x);
                }
            }
            if s.contains(x) {
                let k = choose|k: int| 0 <= k < s.len() && s[k] == x;
                if k < s.len() - 1 {
                    assert(s.drop_last()[k] == x);
                    assert(front.contains(x));
                    let j = choose|j: int| 0 <= j < front.len() && front[j] == x;
                    assert(r[j] == x);
                } else if !front.contains(x) {
                    assert(r[r.len() - 1] == x);
                }
            }
        }
    }
}

/// The numbers that the operator named, each once, in the order in which
/// they were first named.
pub fn dedup_numbers(numbers: &Vec<u32>) -> (out: Vec<u32>)
    ensures
        out@ == first_occurrences(numbers@),
        out@.no_duplicates(),
        forall|n: u32| #[trigger] out@.contains(n) <==> numbers@.contains(n),
{
    broadcast use vstd::std_specs::hash::group_hash_axioms;

    let mut seen: HashSet<u32> = HashSet::new();
    let mut out: Vec<u32> = Vec::new();
    let mut i: usize = 0;
    assert(numbers@.take(0) =~= Seq::<u32>::empty());
    assert(seen@ =~= out@.to_set());
    while i < numbers.len()
        invariant
            i <= numbers.len(),
            seen@ == out@.to_set(),
            out@ == first_occurrences(numbers@.take(i as int)),
        decreases numbers.len() - i,
    {
        let n = numbers[i];
        let ghost before = out@;
        proof {
            assert(numbers@.take(i + 1).drop_last() =~= numbers@.take(i as int));
            assert(numbers@.take(i + 1).last() == n);
        }
        if seen.insert(n) {
            out.push(n);
            proof {
                before.lemma_push_to_set_commute(n);
            }
        } else {
            assert(seen@ =~= before.to_set());
        }
        i = i + 1;
    }
    proof {
        assert(numbers@.take(i as int) =~= numbers@);
        lemma_first_occurrences(numbers@);
    }
    out
}

/// What the hosting service calls the state of an open pull request.
pub open spec fn open_state() -> Seq<char> {
    "OPEN"@
}

/// Accepts a pull request that is open, and refuses any other with its
/// number and state.
pub fn check_open(info: PrInfo) -> (r: Result<PrInfo, RestackError>)
    ensures
        r is Ok <==> info@.state == open_state(),
        match r {
            Ok(p) => p@ == info@,
            Err(RestackError::NotOpen(number, state)) => number == info.number && state@
                == info@.state,
            Err(_) => false,
        },
{
    let open = String::from_str("OPEN");
    if info.state == open {
        Ok(info)
    } else {
        Err(RestackError::NotOpen(info.number, info.state))
    }
}

/// The open pull request whose result branch is `branch`; of several, the
/// last in `open`.
pub open spec fn open_pr_for(open: Seq<PrView>, branch: Seq<char>) -> Option<PrView>
    decreases open.len(),
{
    if open.len() == 0 {
        None
    } else if open.last().head == branch {
        Some(open.last())
    } else {
        open_pr_for(open.drop_last(), branch)
    }
}

/// Whether a descriptor of `s` has the number `n`.
pub open spec fn has_number(s: Seq<PrView>, n: u32) -> bool {
    exists|j: int| 0 <= j < s.len() && (#[trigger] s[j]).number == n
}

/// The branches of the entries `s`, in order.
pub open spec fn branch_names(s: Seq<WorktreeEntry>) -> Seq<Seq<char>> {
    s.map_values(|e: WorktreeEntry| e.branch@)
}

/// The open pull requests of the checked-out branches: for each branch in
/// turn the open pull request that it is the result branch of, unless its
/// number was found before.
pub open spec fn discovered(branches: Seq<Seq<char>>, open: Seq<PrView>) -> Seq<PrView>
    decreases branches.len(),
{
    if branches.len() == 0 {
        Seq::empty()
    } else {
        let found = discovered(branches.drop_last(), open);
        match open_pr_for(open, branches.last()) {
            Some(p) => if has_number(found, p.number) {
                found
            } else {
                found.push(p)
            },
            None => found,
        }
    }
}

/// The pull request for a branch is listed, has that branch as its result
/// branch, and no pull request listed after it has; where there is none,
/// no listed pull request has that result branch.
pub proof fn lemma_open_pr_for(open: Seq<PrView>, branch: Seq<char>)
    ensures
        match open_pr_for(open, branch) {
            Some(p) => exists|j: int|
                0 <= j < open.len() && #[trigger] open[j] == p && p.head == branch && forall|
                    k: int,
                | j < k < open.len() ==> (#[trigger] open[k]).head != branch,
            None => forall|k: int| 0 <= k < open.len() ==> (#[trigger] open[k]).head != branch,
        },
    decreases open.len(),
{
    if open.len() > 0 {
        let front = open.drop_last();
        if open.last().head == branch {
            assert(open[open.len() - 1] == open.last());
        } else {
            lemma_open_pr_for(front, branch);
            match open_pr_for(front, branch) {
                Some(p) => {
                    let j = choose|j: int|
                        0 <= j < front.len() && #[trigger] front[j] == p && p.head == branch
                            && forall|k: int|
                            j < k < front.len() ==> (#[trigger] front[k]).head != branch;
                    assert(open[j] == p);
                    assert forall|k: int| j < k < open.len() implies (#[trigger] open[k]).head
                        != branch by {
                        if k < front.len() {
                            assert(front[k] == open[k]);
                        }
                    }
                },
                None => {
                    assert forall|k: int| 0 <= k < open.len() implies (#[trigger] open[k]).head
                        != branch by {
                        if k < front.len() {
                            assert(front[k] == open[k]);
                        }
                    }
                },
            }
        }
    }
}

/// Whether `p` is the open pull request of one of `branches`.
pub open spec fn belongs_to(branches: Seq<Seq<char>>, open: Seq<PrView>, p: PrView) -> bool {
    exists|i: int|
        0 <= i < branches.len() && open_pr_for(open, #[trigger] branches[i]) == Some(p)
}

/// What is discovered: each pull request found is the open pull request of
/// a checked-out branch; the number of the open pull request of every
/// checked-out branch is among those found; and no two of those found have
/// the same number.
pub proof fn lemma_discovered(branches: Seq<Seq<char>>, open: Seq<PrView>)
    ensures
        forall|k: int|
            0 <= k < discovered(branches, open).len() ==> belongs_to(
                branches,
                open,
                #[trigger] discovered(branches, open)[k],
            ),
        forall|i: int|
            0 <= i < branches.len() && open_pr_for(open, #[trigger] branches[i]) is Some
                ==> has_number(
                discovered(branches, open),
                open_pr_for(open, branches[i])->0.number,
            ),
        forall|k: int, l: int|
            0 <= k < l < discovered(branches, open).len() ==> (#[trigger] discovered(
                branches,
                open,
            )[k]).number != (#[trigger] discovered(branches, open)[l]).number,
        discovered(branches, open).len() <= branches.len(),
    decreases branches.len(),
{
    if branches.len() > 0 {
        let front = branches.drop_last();
        let found = discovered(front, open);
        let now = discovered(branches, open);
        let last = open_pr_for(open, branches.last());
        lemma_discovered(front, open);
        assert forall|k: int| 0 <= k < now.len() implies belongs_to(
            branches,
            open,
            #[trigger] now[k],
        ) by {
            if k < found.len() {
                assert(now[k] == found[k]);
                assert(belongs_to(front, open, found[k]));
                let i = choose|i: int|
                    0 <= i < front.len() && open_pr_for(open, #[trigger] front[i]) == Some(
                        found[k],
                    );
                assert(branches[i] == front[i]);
            } else {
                assert(branches[branches.len() - 1] == branches.last());
            }
        }
        assert forall|i: int|
            0 <= i < branches.len() && open_pr_for(
                open,
                #[trigger] branches[i],
            ) is Some implies has_number(now, open_pr_for(open, branches[i])->0.number) by {
            let n = open_pr_for(open, branches[i])->0.number;
            if i < front.len() {
                assert(front[i] == branches[i]);
                assert(has_number(found, n));
                let j = choose|j: int| 0 <= j < found.len() && (#[trigger] found[j]).number == n;
                assert(now[j].number == n);
            } else if has_number(found, n) {
                let j = choose|j: int| 0 <= j < found.len() && (#[trigger] found[j]).number == n;
                assert(now[j].number == n);
            } else {
                assert(now[now.len() - 1].number == n);
            }
        }
        assert forall|k: int, l: int| 0 <= k < l < now.len() implies (#[trigger] now[k]).number != (
        #[trigger] now[l]).number by {
            if l < found.len() {
                assert(now[k] == found[k] && now[l] == found[l]);
            } else {
                assert(now[k] == found[k]);
                assert(!has_number(found, last->0.number));
            }
        }
    }
}

/// The position in `open` of the pull request for `branch`, or `open.len()`.
pub fn find_open_pr(open: &[PrInfo], branch: &String) -> (i: usize)
    ensures
        i <= open.len(),
        i < open.len() ==> open_pr_for(views(open@), branch@) == Some(open@[i as int]@),
        i == open.len() ==> open_pr_for(views(open@), branch@) is None,
{
    let ghost all = views(open@);
    let mut j: usize = open.len();
    assert(all.take(j as int) =~= all);
    while j > 0
        invariant
            j <= open.len(),
            all == views(open@),
            open_pr_for(all, branch@) == open_pr_for(all.take(j as int), branch@),
        decreases j,
    {
        j = j - 1;
        assert(all.take(j + 1).drop_last() =~= all.take(j as int));
        assert(all.take(j + 1).last() == open@[j as int]@);
        if open[j].head_ref == *branch {
            return j;
        }
    }
    open.len()
}

/// The numbers of the descriptors of `s`.
pub open spec fn numbers_of(s: Seq<PrView>) -> Set<u32> {
    Set::new(|n: u32| has_number(s, n))
}

/// One more descriptor adds its number to the numbers.
pub proof fn lemma_numbers_push(s: Seq<PrView>, p: PrView)
    ensures
        numbers_of(s.push(p)) == numbers_of(s).insert(p.number),
{
    let more = s.push(p);
    assert forall|n: u32| has_number(more, n) <==> (has_number(s, n) || n == p.number) by {
        if has_number(more, n) {
            let j = choose|j: int| 0 <= j < more.len() && (#[trigger] more[j]).number == n;
            if j < s.len() {
                assert(s[j].number == n);
            }
        }
        if has_number(s, n) {
            let j = choose|j: int| 0 <= j < s.len() && (#[trigger] s[j]).number == n;
            assert(more[j].number == n);
        }
        if n == p.number {
            assert(more[s.len() as int].number == n);
        }
    }
    assert(numbers_of(more) =~= numbers_of(s).insert(p.number));
}

/// The open pull requests of the branches that are checked out, each once.
/// Fails where there is none.
pub fn discover_worktree_prs(worktree_map: &WorktreeMap, open_prs: &[PrInfo]) -> (r: Result<
    Vec<PrInfo>,
    RestackError,
>)
    ensures
        match r {
            Ok(prs) => views(prs@) == discovered(
                branch_names(worktree_map.entries@),
                views(open_prs@),
            ) && prs.len() > 0 && (forall|k: int|
                0 <= k < prs.len() ==> belongs_to(
                    branch_names(worktree_map.entries@),
                    views(open_prs@),
                    #[trigger] views(prs@)[k],
                )) && (forall|k: int, l: int|
                0 <= k < l < prs.len() ==> (#[trigger] views(prs@)[k]).number != (
                #[trigger] views(prs@)[l]).number),
            Err(RestackError::NoOpenPrs) => discovered(
                branch_names(worktree_map.entries@),
                views(open_prs@),
            ).len() == 0,
            Err(_) => false,
        },
{
    broadcast use vstd::std_specs::hash::group_hash_axioms;

    let mut prs: Vec<PrInfo> = Vec::new();
    let mut seen: HashSet<u32> = HashSet::new();
    let ghost branches = branch_names(worktree_map.entries@);
    let ghost open = views(open_prs@);
    let mut i: usize = 0;
    assert(branches.take(0) =~= Seq::<Seq<char>>::empty());
    assert(views(prs@) =~= Seq::<PrView>::empty());
    assert(seen@ =~= numbers_of(views(prs@)));
    while i < worktree_map.entries.len()
        invariant
            i <= worktree_map.entries.len(),
            branches == branch_names(worktree_map.entries@),
            open == views(open_prs@),
            seen@ == numbers_of(views(prs@)),
            views(prs@) == discovered(branches.take(i as int), open),
        decreases worktree_map.entries.len() - i,
    {
        let branch = &worktree_map.entries[i].branch;
        proof {
            assert(branches.take(i + 1).drop_last() =~= branches.take(i as int));
            assert(branches.take(i + 1).last() == branch@);
        }
        let k = find_open_pr(open_prs, branch);
        if k < open_prs.len() {
            let ghost before = prs@;
            if seen.insert(open_prs[k].number) {
                let pr = open_prs[k].clone();
                prs.push(pr);
                proof {
                    assert(views(prs@) =~= views(before).push(pr@));
                    lemma_numbers_push(views(before), pr@);
                }
            } else {
                assert(seen@ =~= numbers_of(views(before)));
            }
        }
        i = i + 1;
    }
    assert(branches.take(i as int) =~= branches);
    proof {
        lemma_discovered(branches, open);
    }
    if prs.len() == 0 {
        assert(views(prs@).len() == 0);
        Err(RestackError::NoOpenPrs)
    } else {
        assert(views(prs@).len() == prs.len());
        Ok(prs)
    }
}

} // verus!
