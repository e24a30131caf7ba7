//! Pull-request descriptors and their mathematical view.
use vstd::hash_set::StringHashSet;
use vstd::prelude::*;
use vstd::string::*;

verus! {

/// One pull request: its number, the branch that holds its commits, the
/// branch it targets, and its lifecycle state as the hosting service
/// spells it.
#[derive(Debug)]
pub struct PrInfo {
    pub number: u32,
    pub head_ref: String,
    pub base_ref: String,
    pub state: String,
}

/// What a `PrInfo` stands for in contracts.
pub ghost struct PrView {
    pub number: u32,
    pub head: Seq<char>,
    pub base: Seq<char>,
    pub state: Seq<char>,
}

impl View for PrInfo {
    type V = PrView;

    open spec fn view(&self) -> PrView {
        PrView { number: self.number, head: self.head_ref@, base: self.base_ref@, state: self.state@ }
    }
}

impl Clone for PrInfo {
    fn clone(&self) -> (r: Self)
        ensures
            r@ == self@,
    {
        PrInfo {
            number: self.number,
            head_ref: self.head_ref.clone(),
            base_ref: self.base_ref.clone(),
            state: self.state.clone(),
        }
    }
}

impl PrInfo {
    /// An open pull request `number` from `head` into `base`.
    pub fn open(number: u32, head: &str, base: &str) -> (r: PrInfo)
        ensures
            r@ == (PrView { number, head: head@, base: base@, state: "OPEN"@ }),
    {
        PrInfo {
            number,
            head_ref: String::from_str(head),
            base_ref: String::from_str(base),
            state: String::from_str("OPEN"),
        }
    }
}

/// The views of the descriptors in `s`, in order.
pub open spec fn views(s: Seq<PrInfo>) -> Seq<PrView> {
    s.map_values(|p: PrInfo| p@)
}

/// Whether some descriptor in `s` has `branch` as its result branch.
pub open spec fn has_head(s: Seq<PrView>, branch: Seq<char>) -> bool {
    exists|j: int| 0 <= j < s.len() && (#[trigger] s[j]).head == branch
}

/// The result branches of `s`.
pub open spec fn heads(s: Seq<PrView>) -> Set<Seq<char>> {
    Set::new(|b: Seq<char>| has_head(s, b))
}

/// One more descriptor adds its result branch to the result branches.
pub proof fn lemma_heads_step(s: Seq<PrView>, k: int)
    requires
        0 <= k < s.len(),
    ensures
        heads(s.take(k + 1)) == heads(s.take(k)).insert(s[k].head),
{
    let more = s.take(k + 1);
    let less = s.take(k);
    assert forall|b: Seq<char>| has_head(more, b) <==> (has_head(less, b) || b == s[k].head) by {
        if has_head(more, b) {
            let j = choose|j: int| 0 <= j < more.len() && (#[trigger] more[j]).head == b;
            if j < k {
                assert(less[j].head == b);
            }
        }
        if has_head(less, b) {
            let j = choose|j: int| 0 <= j < less.len() && (#[trigger] less[j]).head == b;
            assert(more[j].head == b);
        }
        if b == s[k].head {
            assert(more[k].head == b);
        }
    }
    assert(heads(more) =~= heads(less).insert(s[k].head));
}

/// The set of the result branches of `prs`.
pub fn head_set(prs: &[PrInfo]) -> (set: StringHashSet)
    ensures
        set@ == heads(views(prs@)),
{
    let mut set = StringHashSet::new();
    let ghost s = views(prs@);
    let mut j: usize = 0;
    assert(heads(s.take(0)) =~= Set::<Seq<char>>::empty());
    while j < prs.len()
        invariant
            j <= prs.len(),
            s == views(prs@),
            set@ == heads(s.take(j as int)),
        decreases prs.len() - j,
    {
        proof {
            lemma_heads_step(s, j as int);
        }
        set.insert(prs[j].head_ref.clone());
        j = j + 1;
    }
    assert(s.take(j as int) =~= s);
    set
}

} // verus!
