//! The index of checked-out worktrees: which branch is checked out where,
//! as read from the version-control tool's listing.
use crate::text::{chars_of, line_views, lines, split_lines, string_of, strip_prefix};
use vstd::prelude::*;
use vstd::string::*;

verus! {

/// One branch and the directory in which it is checked out.
#[derive(Debug)]
pub struct WorktreeEntry {
    pub branch: String,
    pub path: String,
}

/// The branches that are checked out, each with its directory. No branch
/// occurs twice.
#[derive(Debug)]
pub struct WorktreeMap {
    pub entries: Vec<WorktreeEntry>,
}

/// The mapping that a list of entries stands for; of two entries for one
/// branch the later counts.
pub open spec fn entries_map(s: Seq<WorktreeEntry>) -> Map<Seq<char>, Seq<char>>
    decreases s.len(),
{
    if s.len() == 0 {
        Map::empty()
    } else {
        entries_map(s.drop_last()).insert(s.last().branch@, s.last().path@)
    }
}

/// No two entries of `s` are for the same branch.
pub open spec fn distinct_branches(s: Seq<WorktreeEntry>) -> bool {
    forall|i: int, j: int|
        0 <= i < s.len() && 0 <= j < s.len() && i != j ==> (#[trigger] s[i]).branch@ != (
        #[trigger] s[j]).branch@
}

/// What the mapping of a list without repeated branches holds.
pub proof fn lemma_entries_map(s: Seq<WorktreeEntry>)
    requires
        distinct_branches(s),
    ensures
        entries_map(s).dom().finite(),
        entries_map(s).dom().len() == s.len(),
        forall|i: int|
            0 <= i < s.len() ==> entries_map(s).contains_key((#[trigger] s[i]).branch@)
                && entries_map(s)[s[i].branch@] == s[i].path@,
        forall|b: Seq<char>|
            entries_map(s).contains_key(b) ==> exists|i: int|
                0 <= i < s.len() && (#[trigger] s[i]).branch@ == b,
    decreases s.len(),
{
    if s.len() > 0 {
        let front = s.drop_last();
        assert forall|i: int, j: int|
            0 <= i < front.len() && 0 <= j < front.len() && i != j implies (
        #[trigger] front[i]).branch@ != (#[trigger] front[j]).branch@ by {
            assert(front[i] == s[i] && front[j] == s[j]);
        }
        lemma_entries_map(front);
        let last = s.last();
        assert(!entries_map(front).contains_key(last.branch@)) by {
            if entries_map(front).contains_key(last.branch@) {
                let i = choose|i: int|
                    0 <= i < front.len() && (#[trigger] front[i]).branch@ == last.branch@;
                assert(s[i] == front[i] && s[s.len() - 1] == last);
            }
        }
        assert forall|i: int| 0 <= i < s.len() implies entries_map(s).contains_key(
            (#[trigger] s[i]).branch@,
        ) && entries_map(s)[s[i].branch@] == s[i].path@ by {
            if i < s.len() - 1 {
                assert(front[i] == s[i]);
            }
        }
        assert forall|b: Seq<char>| entries_map(s).contains_key(b) implies exists|i: int|
            0 <= i < s.len() && (#[trigger] s[i]).branch@ == b by {
            if b == last.branch@ {
                assert(s[s.len() - 1].branch@ == b);
            } else {
                let i = choose|i: int| 0 <= i < front.len() && (#[trigger] front[i]).branch@ == b;
                assert(s[i] == front[i]);
            }
        }
    }
}

impl View for WorktreeMap {
    type V = Map<Seq<char>, Seq<char>>;

    open spec fn view(&self) -> Map<Seq<char>, Seq<char>> {
        entries_map(self.entries@)
    }
}

impl WorktreeMap {
    /// No branch occurs twice.
    pub open spec fn wf(&self) -> bool {
        distinct_branches(self.entries@)
    }

    /// The index without any branch.
    pub fn new() -> (m: WorktreeMap)
        ensures
            m.wf(),
            m@ == Map::<Seq<char>, Seq<char>>::empty(),
    {
        WorktreeMap { entries: Vec::new() }
    }

    /// The number of branches.
    pub fn len(&self) -> (n: usize)
        requires
            self.wf(),
        ensures
            n == self@.dom().len(),
            n == self.entries.len(),
    {
        proof {
            lemma_entries_map(self.entries@);
        }
        self.entries.len()
    }

    /// The position of the entry for `branch`, or the number of entries.
    pub fn position(&self, branch: &String) -> (i: usize)
        requires
            self.wf(),
        ensures
            i <= self.entries.len(),
            i < self.entries.len() ==> self.entries[i as int].branch@ == branch@,
            i == self.entries.len() <==> !self@.contains_key(branch@),
    {
        proof {
            lemma_entries_map(self.entries@);
        }
        let mut i: usize = 0;
        while i < self.entries.len()
            invariant
                i <= self.entries.len(),
                forall|k: int| 0 <= k < i ==> (#[trigger] self.entries@[k]).branch@ != branch@,
                forall|k: int|
                    0 <= k < self.entries.len() ==> self@.contains_key(
                        (#[trigger] self.entries@[k]).branch@,
                    ),
            decreases self.entries.len() - i,
        {
            if self.entries[i].branch == *branch {
                return i;
            }
            i = i + 1;
        }
        i
    }

    /// The directory in which `branch` is checked out, if it is.
    pub fn get(&self, branch: &str) -> (r: Option<&String>)
        requires
            self.wf(),
        ensures
            r is Some <==> self@.contains_key(branch@),
            r is Some ==> r->0@ == self@[branch@],
    {
        let key = String::from_str(branch);
        let i = self.position(&key);
        proof {
            lemma_entries_map(self.entries@);
        }
        if i < self.entries.len() {
            Some(&self.entries[i].path)
        } else {
            None
        }
    }

    /// Whether `branch` is checked out.
    pub fn contains(&self, branch: &str) -> (r: bool)
        requires
            self.wf(),
        ensures
            r == self@.contains_key(branch@),
    {
        let key = String::from_str(branch);
        self.position(&key) < self.entries.len()
    }

    /// Records that `branch` is checked out in `path`. An earlier record for
    /// the same branch is replaced.
    pub fn insert(&mut self, branch: String, path: String)
        requires
            old(self).wf(),
        ensures
            final(self).wf(),
            final(self)@ == old(self)@.insert(branch@, path@),
    {
        let i = self.position(&branch);
        let ghost before = self.entries@;
        let ghost key = branch@;
        let ghost value = path@;
        if i < self.entries.len() {
            self.entries.set(i, WorktreeEntry { branch, path });
            proof {
                let after = self.entries@;
                assert forall|a: int, b: int|
                    0 <= a < after.len() && 0 <= b < after.len() && a != b implies (
                #[trigger] after[a]).branch@ != (#[trigger] after[b]).branch@ by {
                    assert(after[a].branch@ == before[a].branch@);
                    assert(after[b].branch@ == before[b].branch@);
                }
                lemma_entries_map(before);
                lemma_entries_map(after);
                let m0 = entries_map(before).insert(key, value);
                let m1 = entries_map(after);
                assert forall|k: Seq<char>| m0.contains_key(k) == m1.contains_key(k) by {
                    if m0.contains_key(k) {
                        if k != key {
                            let j = choose|j: int|
                                0 <= j < before.len() && (#[trigger] before[j]).branch@ == k;
                            assert(after[j].branch@ == k);
                        } else {
                            assert(after[i as int].branch@ == k);
                        }
                    }
                    if m1.contains_key(k) {
                        let j = choose|j: int|
                            0 <= j < after.len() && (#[trigger] after[j]).branch@ == k;
                        assert(before[j].branch@ == k);
                    }
                }
                assert forall|k: Seq<char>| m0.contains_key(k) implies m0[k] == m1[k] by {
                    if k != key {
                        let j = choose|j: int|
                            0 <= j < before.len() && (#[trigger] before[j]).branch@ == k;
                        assert(after[j] == before[j]);
                    } else {
                        assert(after[i as int].path@ == value);
                    }
                }
                assert(m0 =~= m1);
            }
        } else {
            self.entries.push(WorktreeEntry { branch, path });
            proof {
                let after = self.entries@;
                assert(after.drop_last() =~= before);
                lemma_entries_map(before);
                assert forall|a: int, b: int|
                    0 <= a < after.len() && 0 <= b < after.len() && a != b implies (
                #[trigger] after[a]).branch@ != (#[trigger] after[b]).branch@ by {
                    if a < before.len() {
                        assert(after[a] == before[a]);
                        assert(entries_map(before).contains_key(before[a].branch@));
                    }
                    if b < before.len() {
                        assert(after[b] == before[b]);
                        assert(entries_map(before).contains_key(before[b].branch@));
                    }
                }
            }
        }
    }
}

/// Where the reading of a listing stands: the directory of the block being
/// read, while no branch line has used it, and the mapping so far.
pub ghost struct ReadState {
    pub current: Option<Seq<char>>,
    pub map: Map<Seq<char>, Seq<char>>,
}

/// What begins the line that opens a block and names its directory.
pub open spec fn worktree_prefix() -> Seq<char> {
    "worktree "@
}

/// What begins the line that names the branch checked out in a block.
pub open spec fn branch_prefix() -> Seq<char> {
    "branch refs/heads/"@
}

/// The state before any line is read.
pub open spec fn start_state() -> ReadState {
    ReadState { current: None, map: Map::empty() }
}

/// The state after one more line. A directory line sets the directory; a
/// branch line binds its branch to the directory of its block, once; an
/// empty line ends the block; any other line changes nothing.
pub open spec fn read_line(st: ReadState, line: Seq<char>) -> ReadState {
    if worktree_prefix().is_prefix_of(line) {
        ReadState { current: Some(line.skip(worktree_prefix().len() as int)), map: st.map }
    } else if branch_prefix().is_prefix_of(line) {
        match st.current {
            Some(path) => ReadState {
                current: None,
                map: st.map.insert(line.skip(branch_prefix().len() as int), path),
            },
            None => st,
        }
    } else if line.len() == 0 {
        ReadState { current: None, map: st.map }
    } else {
        st
    }
}

/// The state after the lines `ls`, read in order from `st`.
pub open spec fn read_lines(st: ReadState, ls: Seq<Seq<char>>) -> ReadState
    decreases ls.len(),
{
    if ls.len() == 0 {
        st
    } else {
        read_line(read_lines(st, ls.drop_last()), ls.last())
    }
}

/// The mapping that the listing `text` describes.
pub open spec fn worktree_map_of(text: Seq<char>) -> Map<Seq<char>, Seq<char>> {
    read_lines(start_state(), lines(text)).map
}

/// Reads the version-control tool's worktree listing: blocks separated by
/// empty lines, each with a line `worktree <path>` and, unless its head is
/// detached, a later line `branch refs/heads/<name>`.
pub fn parse_worktree_map(output: &str) -> (m: WorktreeMap)
    ensures
        m.wf(),
        m@ == worktree_map_of(output@),
{
    let text = chars_of(output);
    let ls = split_lines(&text);
    let wt = chars_of("worktree ");
    let br = chars_of("branch refs/heads/");
    let mut map = WorktreeMap::new();
    let mut current: Option<Vec<char>> = None;
    let mut n: usize = 0;
    let ghost all = line_views(ls@);
    assert(all.take(0) =~= Seq::<Seq<char>>::empty());
    while n < ls.len()
        invariant
            n <= ls.len(),
            all == line_views(ls@),
            all == lines(output@),
            wt@ == worktree_prefix(),
            br@ == branch_prefix(),
            map.wf(),
            read_lines(start_state(), all.take(n as int)) == (ReadState {
                current: match current {
                    Some(p) => Some(p@),
                    None => None,
                },
                map: map@,
            }),
        decreases ls.len() - n,
    {
        let line = &ls[n];
        proof {
            assert(all.take(n + 1).drop_last() =~= all.take(n as int));
            assert(all.take(n + 1).last() == line@);
        }
        match strip_prefix(line, &wt) {
            Some(rest) => {
                current = Some(rest);
            },
            None => {
                match strip_prefix(line, &br) {
                    Some(name) => {
                        match current {
                            Some(path) => {
                                map.insert(string_of(&name), string_of(&path));
                                current = None;
                            },
                            None => {},
                        }
                    },
                    None => {
                        if line.len() == 0 {
                            current = None;
                        }
                    },
                }
            },
        }
        n = n + 1;
    }
    assert(all.take(n as int) =~= all);
    map
}

} // verus!
