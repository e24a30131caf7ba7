//! The check before a run that is to touch no branch unless every branch
//! of the order is checked out in a clean working copy.
use crate::descriptor::{views, PrInfo, PrView};
use crate::orchestrate::FailureKind;
use crate::text::{name_listed, name_views};
use crate::worktree::WorktreeMap;
use vstd::prelude::*;
use vstd::string::*;

verus! {

/// What is wrong with a pull request, and where.
#[derive(Debug)]
pub struct Failure {
    pub kind: FailureKind,
    pub number: u32,
    pub branch: String,
    /// The directory in which the branch is checked out, where it is.
    pub location: Option<String>,
}

/// What a `Failure` stands for in contracts.
pub ghost struct OffenceView {
    pub kind: FailureKind,
    pub number: u32,
    pub branch: Seq<char>,
    pub location: Option<Seq<char>>,
}

impl View for Failure {
    type V = OffenceView;

    open spec fn view(&self) -> OffenceView {
        OffenceView {
            kind: self.kind,
            number: self.number,
            branch: self.branch@,
            location: match self.location {
                Some(path) => Some(path@),
                None => None,
            },
        }
    }
}

/// The views of the failures in `s`, in order.
pub open spec fn offence_views(s: Seq<Failure>) -> Seq<OffenceView> {
    s.map_values(|f: Failure| f@)
}

/// What stands in the way of rebasing `pr` where it is checked out: its
/// branch is checked out nowhere, or the directory in which it is checked
/// out is among the `dirty` ones.
pub open spec fn offence(pr: PrView, index: Map<Seq<char>, Seq<char>>, dirty: Seq<Seq<char>>) -> Option<
    FailureKind,
> {
    if !index.contains_key(pr.head) {
        Some(FailureKind::NotFoundLocally)
    } else if dirty.contains(index[pr.head]) {
        Some(FailureKind::DirtyWorkingCopy)
    } else {
        None
    }
}

/// The failure that is reported for `pr` with the offence `kind`.
pub open spec fn failure_of(pr: PrView, index: Map<Seq<char>, Seq<char>>, kind: FailureKind) -> OffenceView {
    OffenceView {
        kind,
        number: pr.number,
        branch: pr.head,
        location: if index.contains_key(pr.head) {
            Some(index[pr.head])
        } else {
            None
        },
    }
}

/// The failures of `order`: one for each descriptor with an offence, in
/// the order of `order`.
pub open spec fn failures(
    order: Seq<PrView>,
    index: Map<Seq<char>, Seq<char>>,
    dirty: Seq<Seq<char>>,
) -> Seq<OffenceView>
    decreases order.len(),
{
    if order.len() == 0 {
        Seq::empty()
    } else {
        let before = failures(order.drop_last(), index, dirty);
        match offence(order.last(), index, dirty) {
            Some(kind) => before.push(failure_of(order.last(), index, kind)),
            None => before,
        }
    }
}

/// There is no failure exactly where no descriptor has an offence.
pub proof fn lemma_no_failures(
    order: Seq<PrView>,
    index: Map<Seq<char>, Seq<char>>,
    dirty: Seq<Seq<char>>,
)
    ensures
        failures(order, index, dirty).len() == 0 <==> forall|i: int|
            0 <= i < order.len() ==> offence(#[trigger] order[i], index, dirty) is None,
    decreases order.len(),
{
    if order.len() > 0 {
        let front = order.drop_last();
        lemma_no_failures(front, index, dirty);
        if failures(order, index, dirty).len() == 0 {
            assert forall|i: int| 0 <= i < order.len() implies offence(
                #[trigger] order[i],
                index,
                dirty,
            ) is None by {
                if i < front.len() {
                    assert(front[i] == order[i]);
                }
            }
        } else if offence(order.last(), index, dirty) is None {
            let i = choose|i: int|
                0 <= i < front.len() && !(offence(#[trigger] front[i], index, dirty) is None);
            assert(order[i] == front[i]);
        } else {
            assert(order[order.len() - 1] == order.last());
        }
    }
}

/// Checks that every pull request of `order` is checked out, in a
/// directory that is not among the `dirty` ones: those with changes that
/// are not committed. Reports every pull request for which that fails,
/// with the directory where there is one.
pub fn preflight(order: &[PrInfo], index: &WorktreeMap, dirty: &Vec<String>) -> (r: Result<
    (),
    Vec<Failure>,
>)
    requires
        index.wf(),
    ensures
        r is Ok <==> forall|i: int|
            0 <= i < order.len() ==> offence(
                #[trigger] views(order@)[i],
                index@,
                name_views(dirty@),
            ) is None,
        r is Ok <==> failures(views(order@), index@, name_views(dirty@)).len() == 0,
        r is Err ==> offence_views(r->Err_0@) == failures(
            views(order@),
            index@,
            name_views(dirty@),
        ),
{
    let ghost s = views(order@);
    let ghost bad = name_views(dirty@);
    let mut found: Vec<Failure> = Vec::new();
    let mut i: usize = 0;
    assert(s.take(0) =~= Seq::<PrView>::empty());
    assert(offence_views(found@) =~= Seq::<OffenceView>::empty());
    while i < order.len()
        invariant
            i <= order.len(),
            s == views(order@),
            bad == name_views(dirty@),
            index.wf(),
            offence_views(found@) == failures(s.take(i as int), index@, bad),
        decreases order.len() - i,
    {
        let pr = &order[i];
        let ghost before = found@;
        proof {
            assert(s.take(i + 1).drop_last() =~= s.take(i as int));
            assert(s.take(i + 1).last() == pr@);
        }
        match index.get(pr.head_ref.as_str()) {
            None => {
                let f = Failure {
                    kind: FailureKind::NotFoundLocally,
                    number: pr.number,
                    branch: pr.head_ref.clone(),
                    location: None,
                };
                found.push(f);
                assert(offence_views(found@) =~= offence_views(before).push(f@));
            },
            Some(path) => {
                if name_listed(dirty, path) {
                    let f = Failure {
                        kind: FailureKind::DirtyWorkingCopy,
                        number: pr.number,
                        branch: pr.head_ref.clone(),
                        location: Some(path.clone()),
                    };
                    found.push(f);
                    assert(offence_views(found@) =~= offence_views(before).push(f@));
                }
            },
        }
        i = i + 1;
    }
    proof {
        assert(s.take(i as int) =~= s);
        lemma_no_failures(s, index@, bad);
        assert(offence_views(found@).len() == found.len());
    }
    if found.len() == 0 {
        Ok(())
    } else {
        Err(found)
    }
}

} // verus!
