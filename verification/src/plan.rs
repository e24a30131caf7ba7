//! What one step of a run works on: the ledger of branches already
//! rebased, the ref to rebase onto, and the place to work in.
use crate::text::{chars_of, string_of};
use crate::worktree::WorktreeMap;
use vstd::hash_set::StringHashSet;
use vstd::prelude::*;
use vstd::string::*;

verus! {

/// The result branches that were rebased in this run.
pub struct Ledger {
    pub branches: StringHashSet,
}

impl View for Ledger {
    type V = Set<Seq<char>>;

    open spec fn view(&self) -> Set<Seq<char>> {
        self.branches@
    }
}

impl Ledger {
    /// The ledger of a run in which nothing was rebased yet.
    pub fn new() -> (l: Ledger)
        ensures
            l@ == Set::<Seq<char>>::empty(),
    {
        Ledger { branches: StringHashSet::new() }
    }

    /// Whether `branch` was rebased in this run.
    pub fn contains(&self, branch: &str) -> (r: bool)
        ensures
            r == self@.contains(branch@),
    {
        self.branches.contains(branch)
    }

    /// Records that `branch` was rebased.
    pub fn record(&mut self, branch: String)
        ensures
            final(self)@ == old(self)@.insert(branch@),
    {
        let _ = self.branches.insert(branch);
    }
}

/// The ref that a step rebases onto.
#[derive(Debug)]
pub enum OntoTarget {
    /// The local branch, which this run has just rebased.
    Local(String),
    /// The remote-tracking branch of the base.
    Remote(String),
}

/// What an `OntoTarget` stands for in contracts.
pub ghost enum OntoView {
    Local(Seq<char>),
    Remote(Seq<char>),
}

impl View for OntoTarget {
    type V = OntoView;

    open spec fn view(&self) -> OntoView {
        match self {
            OntoTarget::Local(b) => OntoView::Local(b@),
            OntoTarget::Remote(b) => OntoView::Remote(b@),
        }
    }
}

/// The target for a pull request based on `base`: the local branch where
/// the ledger holds `base`, else the remote-tracking branch.
pub open spec fn onto_for(ledger: Set<Seq<char>>, base: Seq<char>) -> OntoView {
    if ledger.contains(base) {
        OntoView::Local(base)
    } else {
        OntoView::Remote(base)
    }
}

/// What a remote-tracking ref begins with.
pub open spec fn remote_prefix() -> Seq<char> {
    "origin/"@
}

/// The name of the ref that `target` stands for.
pub open spec fn ref_name(target: OntoView) -> Seq<char> {
    match target {
        OntoView::Local(b) => b,
        OntoView::Remote(b) => remote_prefix() + b,
    }
}

impl OntoTarget {
    /// The name of the ref to hand to the version-control tool.
    pub fn refname(&self) -> (r: String)
        ensures
            r@ == ref_name(self@),
    {
        match self {
            OntoTarget::Local(b) => b.clone(),
            OntoTarget::Remote(b) => {
                let mut r = String::from_str("origin/");
                r.append(b.as_str());
                r
            },
        }
    }

    /// Whether the target is the local branch.
    pub fn is_local(&self) -> (r: bool)
        ensures
            r == (self@ is Local),
    {
        match self {
            OntoTarget::Local(_) => true,
            OntoTarget::Remote(_) => false,
        }
    }
}

/// The ref to rebase a pull request based on `base` onto.
pub fn resolve_onto(ledger: &Ledger, base: &String) -> (target: OntoTarget)
    ensures
        target@ == onto_for(ledger@, base@),
{
    if ledger.contains(base.as_str()) {
        OntoTarget::Local(base.clone())
    } else {
        OntoTarget::Remote(base.clone())
    }
}

/// Where a step works.
#[derive(Debug)]
pub enum Location {
    /// In the directory in which the branch is checked out.
    Worktree(String),
    /// In a working copy made for this step, in a directory of this name
    /// under the directory for temporary files.
    Temporary(String),
}

/// What a `Location` stands for in contracts.
pub ghost enum LocationView {
    Worktree(Seq<char>),
    Temporary(Seq<char>),
}

impl View for Location {
    type V = LocationView;

    open spec fn view(&self) -> LocationView {
        match self {
            Location::Worktree(p) => LocationView::Worktree(p@),
            Location::Temporary(d) => LocationView::Temporary(d@),
        }
    }
}

/// `branch` with each slash replaced by a hyphen.
pub open spec fn sanitized(branch: Seq<char>) -> Seq<char> {
    branch.map_values(
        |c: char|
            if c == '/' {
                '-'
            } else {
                c
            },
    )
}

/// The name of the temporary directory for `branch`.
pub open spec fn temp_name(branch: Seq<char>) -> Seq<char> {
    "restack-"@ + sanitized(branch)
}

/// The place to work on `head`: its worktree where it has one, else a
/// temporary working copy.
pub open spec fn location_for(index: Map<Seq<char>, Seq<char>>, head: Seq<char>) -> LocationView {
    if index.contains_key(head) {
        LocationView::Worktree(index[head])
    } else {
        LocationView::Temporary(temp_name(head))
    }
}

/// The name of the temporary directory in which `branch` is checked out
/// when it has no worktree.
pub fn temp_dir_name(branch: &str) -> (name: String)
    ensures
        name@ == temp_name(branch@),
{
    let chars = chars_of(branch);
    let mut clean: Vec<char> = Vec::new();
    let mut i: usize = 0;
    while i < chars.len()
        invariant
            i <= chars.len(),
            chars@ == branch@,
            clean@ == sanitized(chars@.take(i as int)),
        decreases chars.len() - i,
    {
        let c = chars[i];
        clean.push(
            if c == '/' {
                '-'
            } else {
                c
            },
        );
        i = i + 1;
        assert(clean@ =~= sanitized(chars@.take(i as int)));
    }
    assert(chars@.take(i as int) =~= chars@);
    let tail = string_of(&clean);
    let mut name = String::from_str("restack-");
    name.append(tail.as_str());
    name
}

impl Location {
    /// Whether the working copy is made for this step only.
    pub fn is_temporary(&self) -> (r: bool)
        ensures
            r == (self@ is Temporary),
    {
        match self {
            Location::Worktree(_) => false,
            Location::Temporary(_) => true,
        }
    }
}

/// The place to work on the branch `head`.
pub fn locate(index: &WorktreeMap, head: &String) -> (place: Location)
    requires
        index.wf(),
    ensures
        place@ == location_for(index@, head@),
{
    match index.get(head.as_str()) {
        Some(path) => Location::Worktree(path.clone()),
        None => Location::Temporary(temp_dir_name(head.as_str())),
    }
}

} // verus!
