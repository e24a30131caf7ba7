//! Which colour of the palette each branch is shown in: the branches take
//! the colours in turn, in the order in which they first occur.
use crate::descriptor::{views, PrInfo, PrView};
use crate::fetch::{first_occurrences, lemma_first_occurrences};
use crate::text::{name_listed, name_views};
use vstd::prelude::*;
use vstd::string::*;

verus! {

/// The number of colours in the palette.
pub const PALETTE_LEN: usize = 6;

/// The branches of a set of pull requests, each once, in the order in which
/// they first occur: no name stands twice in `names`. The branch at position `k` is shown in the colour
/// `k % PALETTE_LEN` of the palette.
#[derive(Debug)]
pub struct BranchColors {
    pub names: Vec<String>,
}

/// The branches that `s` names: of each descriptor first its base, then
/// its result branch.
pub open spec fn branch_sequence(s: Seq<PrView>) -> Seq<Seq<char>>
    decreases s.len(),
{
    if s.len() == 0 {
        Seq::empty()
    } else {
        branch_sequence(s.drop_last()).push(s.last().base).push(s.last().head)
    }
}

/// The first position of `name` in `names`, or `names.len()`.
pub open spec fn position_of(names: Seq<Seq<char>>, name: Seq<char>) -> int
    decreases names.len(),
{
    if names.len() == 0 {
        0
    } else if names[0] == name {
        0
    } else {
        1 + position_of(names.drop_first(), name)
    }
}

/// The colour of `name`, where `names` holds it.
pub open spec fn slot_of(names: Seq<Seq<char>>, name: Seq<char>) -> Option<usize> {
    let p = position_of(names, name);
    if 0 <= p < names.len() {
        Some((p % (PALETTE_LEN as int)) as usize)
    } else {
        None
    }
}

pub proof fn lemma_position_of(names: Seq<Seq<char>>, name: Seq<char>)
    ensures
        0 <= position_of(names, name) <= names.len(),
        position_of(names, name) < names.len() ==> names[position_of(names, name)] == name,
        forall|k: int| 0 <= k < position_of(names, name) ==> names[k] != name,
    decreases names.len(),
{
    if names.len() > 0 && names[0] != name {
        let rest = names.drop_first();
        lemma_position_of(rest, name);
        assert forall|k: int| 0 <= k < position_of(names, name) implies names[k] != name by {
            if k > 0 {
                assert(names[k] == rest[k - 1]);
            }
        }
    }
}

/// Gives each branch of `prs` its place in the palette.
pub fn branch_colors(prs: &[PrInfo]) -> (colors: BranchColors)
    ensures
        colors.wf(),
        name_views(colors.names@) == first_occurrences(branch_sequence(views(prs@))),
        forall|b: Seq<char>|
            #[trigger] name_views(colors.names@).contains(b) <==> branch_sequence(
                views(prs@),
            ).contains(b),
{
    let mut names: Vec<String> = Vec::new();
    let ghost all = views(prs@);
    let mut i: usize = 0;
    assert(all.take(0) =~= Seq::<PrView>::empty());
    assert(name_views(names@) =~= Seq::<Seq<char>>::empty());
    while i < prs.len()
        invariant
            i <= prs.len(),
            all == views(prs@),
            name_views(names@) == first_occurrences(branch_sequence(all.take(i as int))),
        decreases prs.len() - i,
    {
        let ghost seq0 = branch_sequence(all.take(i as int));
        let ghost seq1 = seq0.push(prs@[i as int]@.base);
        let ghost seq2 = seq1.push(prs@[i as int]@.head);
        proof {
            assert(all.take(i + 1).drop_last() =~= all.take(i as int));
            assert(all.take(i + 1).last() == prs@[i as int]@);
            assert(seq1.drop_last() =~= seq0);
            assert(seq2.drop_last() =~= seq1);
        }
        if !name_listed(&names, &prs[i].base_ref) {
            let ghost before = name_views(names@);
            names.push(prs[i].base_ref.clone());
            assert(name_views(names@) =~= before.push(prs@[i as int]@.base));
        }
        assert(name_views(names@) == first_occurrences(seq1));
        if !name_listed(&names, &prs[i].head_ref) {
            let ghost before = name_views(names@);
            names.push(prs[i].head_ref.clone());
            assert(name_views(names@) =~= before.push(prs@[i as int]@.head));
        }
        assert(name_views(names@) == first_occurrences(seq2));
        i = i + 1;
    }
    assert(all.take(i as int) =~= all);
    proof {
        lemma_first_occurrences(branch_sequence(all));
    }
    BranchColors { names }
}

impl BranchColors {
    /// No branch stands twice.
    pub open spec fn wf(&self) -> bool {
        name_views(self.names@).no_duplicates()
    }

    /// The place in the palette of the colour of `name`, where `name` is
    /// one of the branches.
    pub fn slot(&self, name: &str) -> (r: Option<usize>)
        ensures
            r == slot_of(name_views(self.names@), name@),
    {
        let key = String::from_str(name);
        let ghost all = name_views(self.names@);
        let mut j: usize = 0;
        proof {
            lemma_position_of(all, name@);
        }
        while j < self.names.len()
            invariant
                j <= self.names.len(),
                key@ == name@,
                all == name_views(self.names@),
                forall|k: int| 0 <= k < j ==> #[trigger] all[k] != name@,
            decreases self.names.len() - j,
        {
            if self.names[j] == key {
                proof {
                    lemma_position_of(all, name@);
                    assert(all[j as int] == name@);
                }
                return Some(j % PALETTE_LEN);
            }
            j = j + 1;
        }
        proof {
            lemma_position_of(all, name@);
        }
        None
    }
}

} // verus!
