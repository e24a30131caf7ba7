//! The stack as a forest: the branches that no pull request of the set
//! produces are the roots, and under each branch stand the pull requests
//! that are based on it.
use crate::descriptor::{has_head, head_set, heads, views, PrInfo, PrView};
use crate::fetch::first_occurrences;
use crate::sort::is_execution_order;
use crate::text::{chars_of, decimal, lemma_lex_irreflexive, lemma_lex_total,
    lemma_lex_transitive, lex_lt, name_views, push_decimal, text_lt};
use vstd::prelude::*;
use vstd::string::*;

verus! {

/// A pull request under the branch that it is based on.
#[derive(Debug)]
pub struct Child {
    pub number: u32,
    pub head_ref: String,
}

/// What a `Child` stands for in contracts.
pub ghost struct ChildView {
    pub number: u32,
    pub head: Seq<char>,
}

impl View for Child {
    type V = ChildView;

    open spec fn view(&self) -> ChildView {
        ChildView { number: self.number, head: self.head_ref@ }
    }
}

/// A branch and the pull requests based on it.
#[derive(Debug)]
pub struct Family {
    pub base: String,
    pub kids: Vec<Child>,
}

/// The forest of a set of pull requests.
#[derive(Debug)]
pub struct StackTree {
    pub roots: Vec<String>,
    pub children: Vec<Family>,
    /// The number of pull requests in the forest.
    pub size: usize,
}

/// The views of the children in `s`, in order.
pub open spec fn child_views(s: Seq<Child>) -> Seq<ChildView> {
    s.map_values(|c: Child| c@)
}

/// The pull requests of `s` that are based on `base`, in the order of `s`.
pub open spec fn children_in(s: Seq<PrView>, base: Seq<char>) -> Seq<ChildView>
    decreases s.len(),
{
    if s.len() == 0 {
        Seq::empty()
    } else if s.last().base == base {
        children_in(s.drop_last(), base).push(
            ChildView { number: s.last().number, head: s.last().head },
        )
    } else {
        children_in(s.drop_last(), base)
    }
}

/// Whether some descriptor in `s` is based on `branch`.
pub open spec fn has_base(s: Seq<PrView>, branch: Seq<char>) -> bool {
    exists|j: int| 0 <= j < s.len() && (#[trigger] s[j]).base == branch
}

/// A root of `s`: a branch that some descriptor is based on and none
/// produces.
pub open spec fn is_root(s: Seq<PrView>, branch: Seq<char>) -> bool {
    has_base(s, branch) && !has_head(s, branch)
}

/// Each name comes before the next in the lexicographic order.
pub open spec fn ascending(names: Seq<Seq<char>>) -> bool {
    forall|i: int, j: int| 0 <= i < j < names.len() ==> lex_lt(#[trigger] names[i], #[trigger] names[j])
}

/// Ascending names are all different.
pub proof fn lemma_ascending_distinct(names: Seq<Seq<char>>)
    requires
        ascending(names),
    ensures
        names.no_duplicates(),
{
    assert forall|i: int, j: int| 0 <= i < names.len() && 0 <= j < names.len() && i != j implies names[i]
        != names[j] by {
        lemma_lex_irreflexive(names[i]);
        if i < j {
            assert(lex_lt(names[i], names[j]));
        } else {
            assert(lex_lt(names[j], names[i]));
        }
    }
}

/// The children listed for `base` in `fams`; none where it has no family.
pub open spec fn kids_of(fams: Seq<Family>, base: Seq<char>) -> Seq<ChildView>
    decreases fams.len(),
{
    if fams.len() == 0 {
        Seq::empty()
    } else if fams.last().base@ == base {
        child_views(fams.last().kids@)
    } else {
        kids_of(fams.drop_last(), base)
    }
}

/// Whether `fams` has a family for `base`.
pub open spec fn has_family(fams: Seq<Family>, base: Seq<char>) -> bool {
    exists|j: int| 0 <= j < fams.len() && (#[trigger] fams[j]).base@ == base
}

/// The branches of the families `fams`, in order.
pub open spec fn family_bases(fams: Seq<Family>) -> Seq<Seq<char>> {
    fams.map_values(|f: Family| f.base@)
}

/// The bases of the descriptors `s`, in order.
pub open spec fn bases(s: Seq<PrView>) -> Seq<Seq<char>> {
    s.map_values(|p: PrView| p.base)
}

/// A branch has a family exactly where it is among the branches of the
/// families.
pub proof fn lemma_family_bases(fams: Seq<Family>, b: Seq<char>)
    ensures
        family_bases(fams).contains(b) <==> has_family(fams, b),
{
    let names = family_bases(fams);
    if names.contains(b) {
        let j = choose|j: int| 0 <= j < names.len() && names[j] == b;
        assert(fams[j].base@ == b);
    }
    if has_family(fams, b) {
        let j = choose|j: int| 0 <= j < fams.len() && (#[trigger] fams[j]).base@ == b;
        assert(names[j] == b);
    }
}

/// No two families of `fams` are for the same branch.
pub open spec fn distinct_bases(fams: Seq<Family>) -> bool {
    forall|i: int, j: int|
        0 <= i < j < fams.len() ==> (#[trigger] fams[i]).base@ != (#[trigger] fams[j]).base@
}

/// The number of children in all families of `fams`.
pub open spec fn total_kids(fams: Seq<Family>) -> nat
    decreases fams.len(),
{
    if fams.len() == 0 {
        0
    } else {
        total_kids(fams.drop_last()) + fams.last().kids@.len()
    }
}

/// The mapping that `fams` stands for: from each branch that has a family
/// to the children listed for it.
pub open spec fn family_map(fams: Seq<Family>) -> Map<Seq<char>, Seq<ChildView>>
    decreases fams.len(),
{
    if fams.len() == 0 {
        Map::empty()
    } else {
        family_map(fams.drop_last()).insert(fams.last().base@, child_views(fams.last().kids@))
    }
}

/// The mapping of `fams` holds the branches that have a family, each with
/// the children listed for it.
pub proof fn lemma_family_map(fams: Seq<Family>)
    ensures
        forall|b: Seq<char>| #[trigger] family_map(fams).contains_key(b) <==> has_family(fams, b),
        forall|b: Seq<char>|
            has_family(fams, b) ==> #[trigger] family_map(fams)[b] == kids_of(fams, b),
    decreases fams.len(),
{
    if fams.len() > 0 {
        let front = fams.drop_last();
        lemma_family_map(front);
        assert forall|b: Seq<char>| #[trigger] family_map(fams).contains_key(b) <==> has_family(
            fams,
            b,
        ) by {
            assert(family_map(front).contains_key(b) <==> has_family(front, b));
            if has_family(front, b) {
                let j = choose|j: int| 0 <= j < front.len() && (#[trigger] front[j]).base@ == b;
                assert(fams[j].base@ == b);
            }
            if has_family(fams, b) && fams.last().base@ != b {
                let j = choose|j: int| 0 <= j < fams.len() && (#[trigger] fams[j]).base@ == b;
                assert(front[j].base@ == b);
            }
            if fams.last().base@ == b {
                assert(fams[fams.len() - 1].base@ == b);
            }
        }
        assert forall|b: Seq<char>| has_family(fams, b) implies #[trigger] family_map(fams)[b]
            == kids_of(fams, b) by {
            if fams.last().base@ != b {
                let j = choose|j: int| 0 <= j < fams.len() && (#[trigger] fams[j]).base@ == b;
                assert(front[j].base@ == b);
                assert(has_family(front, b));
                assert(family_map(front)[b] == kids_of(front, b));
            }
        }
    }
}

/// How many of the first `n` descriptors of `s` are based on the base of
/// one of the first `i`.
pub open spec fn covered(s: Seq<PrView>, i: int, n: int) -> nat
    decreases n,
{
    if n <= 0 {
        0
    } else {
        covered(s, i, n - 1) + if has_base(s.take(i), s[n - 1].base) {
            1nat
        } else {
            0nat
        }
    }
}

/// Once every descriptor counts, all of the first `n` are covered; while
/// none counts, none is.
pub proof fn lemma_covered_ends(s: Seq<PrView>, n: int)
    requires
        0 <= n <= s.len(),
    ensures
        covered(s, s.len() as int, n) == n,
        covered(s, 0, n) == 0,
    decreases n,
{
    if n > 0 {
        lemma_covered_ends(s, n - 1);
        assert(s.take(s.len() as int) =~= s);
        assert(s[n - 1].base == s[n - 1].base);
        assert(has_base(s, s[n - 1].base));
        assert(!has_base(s.take(0), s[n - 1].base));
    }
}

/// Counting one more descriptor covers, where its base is new, the
/// children of that base as well.
pub proof fn lemma_covered_step(s: Seq<PrView>, i: int, n: int)
    requires
        0 <= i < s.len(),
        0 <= n <= s.len(),
    ensures
        covered(s, i + 1, n) == covered(s, i, n) + if has_base(s.take(i), s[i].base) {
            0nat
        } else {
            children_in(s.take(n), s[i].base).len()
        },
    decreases n,
{
    if n > 0 {
        lemma_covered_step(s, i, n - 1);
        lemma_has_base_step(s, i, s[n - 1].base);
        lemma_has_base_step(s, i, s[i].base);
        assert(s.take(n).drop_last() =~= s.take(n - 1));
        assert(s.take(n).last() == s[n - 1]);
    } else {
        assert(s.take(0).len() == 0);
    }
}

/// The mark before a child: one for the last child of its parent, another
/// for a child that has a sibling after it.
pub open spec fn connector(is_last: bool) -> Seq<char> {
    if is_last {
        "└─"@
    } else {
        "├─"@
    }
}

/// The mark before a child.
pub fn connector_mark(is_last: bool) -> (mark: &'static str)
    ensures
        mark@ == connector(is_last),
{
    if is_last {
        "└─"
    } else {
        "├─"
    }
}

/// What the lines under a child begin with, after the prefix of the child.
pub open spec fn indent(is_last: bool) -> Seq<char> {
    if is_last {
        "   "@
    } else {
        "│  "@
    }
}

/// The line of one child.
pub open spec fn child_line(prefix: Seq<char>, c: ChildView, is_last: bool) -> Seq<char> {
    prefix + connector(is_last) + " #"@ + decimal(c.number as nat) + " "@ + c.head + "\n"@
}

/// The lines of `nodes` and, under each, of what is based on it, down to
/// `depth` levels below `nodes`.
pub open spec fn render_children(
    fams: Seq<Family>,
    nodes: Seq<ChildView>,
    prefix: Seq<char>,
    depth: nat,
) -> Seq<char>
    decreases depth, nodes.len(),
{
    if nodes.len() == 0 {
        Seq::empty()
    } else {
        let is_last = nodes.len() == 1;
        let below = if depth == 0 {
            Seq::empty()
        } else {
            render_children(
                fams,
                kids_of(fams, nodes[0].head),
                prefix + indent(is_last),
                (depth - 1) as nat,
            )
        };
        child_line(prefix, nodes[0], is_last) + below + render_children(
            fams,
            nodes.drop_first(),
            prefix,
            depth,
        )
    }
}

/// The lines of the trees of `roots`: each root on a line of its own, and
/// under it what is based on it.
pub open spec fn render_roots(fams: Seq<Family>, roots: Seq<Seq<char>>, depth: nat) -> Seq<char>
    decreases roots.len(),
{
    if roots.len() == 0 {
        Seq::empty()
    } else {
        roots[0] + "\n"@ + render_children(fams, kids_of(fams, roots[0]), Seq::empty(), depth)
            + render_roots(fams, roots.drop_first(), depth)
    }
}

/// The children of `base` among `prs`.
pub fn collect_children(prs: &[PrInfo], base: &String) -> (kids: Vec<Child>)
    ensures
        child_views(kids@) == children_in(views(prs@), base@),
{
    let mut kids: Vec<Child> = Vec::new();
    let mut i: usize = 0;
    assert(views(prs@).take(0) =~= Seq::<PrView>::empty());
    assert(child_views(kids@) =~= Seq::<ChildView>::empty());
    while i < prs.len()
        invariant
            i <= prs.len(),
            child_views(kids@) == children_in(views(prs@).take(i as int), base@),
        decreases prs.len() - i,
    {
        let ghost before = kids@;
        proof {
            assert(views(prs@).take(i + 1).drop_last() =~= views(prs@).take(i as int));
            assert(views(prs@).take(i + 1).last() == prs@[i as int]@);
        }
        if prs[i].base_ref == *base {
            let c = Child { number: prs[i].number, head_ref: prs[i].head_ref.clone() };
            kids.push(c);
            assert(child_views(kids@) =~= child_views(before).push(c@));
        }
        i = i + 1;
    }
    assert(views(prs@).take(i as int) =~= views(prs@));
    kids
}

/// Without a descriptor based on `base` there are no children of `base`.
pub proof fn lemma_no_base_no_children(s: Seq<PrView>, base: Seq<char>)
    requires
        !has_base(s, base),
    ensures
        children_in(s, base) == Seq::<ChildView>::empty(),
    decreases s.len(),
{
    if s.len() > 0 {
        assert(s[s.len() - 1].base != base);
        let front = s.drop_last();
        assert(!has_base(front, base)) by {
            if has_base(front, base) {
                let j = choose|j: int| 0 <= j < front.len() && (#[trigger] front[j]).base == base;
                assert(s[j] == front[j]);
            }
        }
        lemma_no_base_no_children(front, base);
    }
}

/// Whether `fams` has a family for `base`.
pub fn family_exists(fams: &Vec<Family>, base: &String) -> (r: bool)
    ensures
        r == has_family(fams@, base@),
{
    let mut j: usize = 0;
    while j < fams.len()
        invariant
            j <= fams.len(),
            forall|k: int| 0 <= k < j ==> (#[trigger] fams@[k]).base@ != base@,
        decreases fams.len() - j,
    {
        if fams[j].base == *base {
            return true;
        }
        j = j + 1;
    }
    false
}

/// The position in the ascending list `roots` at which `name` stands or
/// would have to be put, and whether it stands there.
pub fn root_position(roots: &Vec<String>, name: &String) -> (r: (usize, bool))
    requires
        ascending(name_views(roots@)),
    ensures
        r.0 <= roots.len(),
        forall|k: int| 0 <= k < r.0 ==> lex_lt(#[trigger] name_views(roots@)[k], name@),
        r.1 ==> r.0 < roots.len() && roots@[r.0 as int]@ == name@,
        !r.1 ==> forall|k: int|
            r.0 <= k < roots.len() ==> lex_lt(name@, #[trigger] name_views(roots@)[k]),
{
    let key = chars_of(name.as_str());
    let mut p: usize = 0;
    while p < roots.len()
        invariant
            p <= roots.len(),
            key@ == name@,
            ascending(name_views(roots@)),
            forall|k: int| 0 <= k < p ==> lex_lt(#[trigger] name_views(roots@)[k], name@),
        decreases roots.len() - p,
    {
        let here = chars_of(roots[p].as_str());
        assert(here@ == name_views(roots@)[p as int]);
        if !text_lt(&here, &key) {
            let found = !text_lt(&key, &here);
            proof {
                lemma_lex_total(here@, key@);
                if !found {
                    assert forall|k: int| p <= k < roots.len() implies lex_lt(
                        name@,
                        #[trigger] name_views(roots@)[k],
                    ) by {
                        if k > p {
                            lemma_lex_transitive(
                                name@,
                                name_views(roots@)[p as int],
                                name_views(roots@)[k],
                            );
                        }
                    }
                }
            }
            return (p, found);
        }
        p = p + 1;
    }
    (p, false)
}

/// A descriptor among the first `i + 1` is based on `b` where one among
/// the first `i` is, or the one at `i`.
pub proof fn lemma_has_base_step(s: Seq<PrView>, i: int, b: Seq<char>)
    requires
        0 <= i < s.len(),
    ensures
        has_base(s.take(i + 1), b) <==> (has_base(s.take(i), b) || b == s[i].base),
{
    let more = s.take(i + 1);
    let less = s.take(i);
    if has_base(more, b) {
        let j = choose|j: int| 0 <= j < more.len() && (#[trigger] more[j]).base == b;
        if j < i {
            assert(less[j].base == b);
        }
    }
    if has_base(less, b) {
        let j = choose|j: int| 0 <= j < less.len() && (#[trigger] less[j]).base == b;
        assert(more[j].base == b);
    }
    if b == s[i].base {
        assert(more[i].base == b);
    }
}

/// Gives `base` a family with its children among `prs`, unless it has one.
pub fn add_family(children: &mut Vec<Family>, prs: &[PrInfo], base: &String)
    ensures
        final(children).len() <= old(children).len() + 1,
        final(children).len() >= old(children).len(),
        has_family(old(children)@, base@) ==> final(children)@ == old(children)@,
        !has_family(old(children)@, base@) ==> family_bases(final(children)@) == family_bases(
            old(children)@,
        ).push(base@),
        distinct_bases(old(children)@) ==> distinct_bases(final(children)@),
        total_kids(final(children)@) == total_kids(old(children)@) + if has_family(
            old(children)@,
            base@,
        ) {
            0nat
        } else {
            children_in(views(prs@), base@).len()
        },
        forall|b: Seq<char>|
            #[trigger] has_family(final(children)@, b) <==> (has_family(old(children)@, b) || b
                == base@),
        forall|b: Seq<char>|
            #[trigger] kids_of(final(children)@, b) == (if b == base@ && !has_family(
                old(children)@,
                base@,
            ) {
                children_in(views(prs@), base@)
            } else {
                kids_of(old(children)@, b)
            }),
{
    let ghost before = children@;
    if !family_exists(children, base) {
        let kids = collect_children(prs, base);
        let fam = Family { base: base.clone(), kids };
        children.push(fam);
        proof {
            let after = children@;
            assert(after.drop_last() =~= before);
            assert(after.last() == fam);
            assert(child_views(fam.kids@).len() == fam.kids@.len());
            assert(family_bases(after) =~= family_bases(before).push(base@));
            if distinct_bases(before) {
                assert forall|i: int, j: int| 0 <= i < j < after.len() implies (
                #[trigger] after[i]).base@ != (#[trigger] after[j]).base@ by {
                    assert(after[i] == before[i]);
                    if j < before.len() {
                        assert(after[j] == before[j]);
                    }
                }
            }
            assert forall|b: Seq<char>| #[trigger] has_family(after, b) <==> (has_family(before, b)
                || b == base@) by {
                if has_family(after, b) {
                    let j = choose|j: int| 0 <= j < after.len() && (#[trigger] after[j]).base@ == b;
                    if j < before.len() {
                        assert(before[j].base@ == b);
                    }
                }
                if has_family(before, b) {
                    let j = choose|j: int|
                        0 <= j < before.len() && (#[trigger] before[j]).base@ == b;
                    assert(after[j].base@ == b);
                }
                if b == base@ {
                    assert(after[after.len() - 1].base@ == b);
                }
            }
        }
    }
}

/// Puts `name` into the ascending list `roots`, unless it is there.
pub fn add_root(roots: &mut Vec<String>, name: &String)
    requires
        ascending(name_views(old(roots)@)),
    ensures
        ascending(name_views(final(roots)@)),
        final(roots).len() <= old(roots).len() + 1,
        forall|b: Seq<char>|
            #[trigger] name_views(final(roots)@).contains(b) <==> (name_views(
                old(roots)@,
            ).contains(b) || b == name@),
{
    let ghost old_roots = name_views(roots@);
    let (p, found) = root_position(roots, name);
    if !found {
        roots.insert(p, name.clone());
        proof {
            let now = name_views(roots@);
            assert(now =~= old_roots.insert(p as int, name@));
            assert forall|a: int, b: int| 0 <= a < b < now.len() implies lex_lt(
                #[trigger] now[a],
                #[trigger] now[b],
            ) by {
                if a < p && b > p {
                    assert(now[a] == old_roots[a] && now[b] == old_roots[b - 1]);
                } else if a < p && b < p {
                    assert(now[a] == old_roots[a] && now[b] == old_roots[b]);
                } else if a > p {
                    assert(now[a] == old_roots[a - 1] && now[b] == old_roots[b - 1]);
                } else if a == p {
                    assert(now[b] == old_roots[b - 1]);
                } else {
                    assert(now[a] == old_roots[a]);
                }
            }
            assert forall|b: Seq<char>| #[trigger] now.contains(b) <==> (old_roots.contains(b) || b
                == name@) by {
                if now.contains(b) {
                    let j = choose|j: int| 0 <= j < now.len() && now[j] == b;
                    if j < p {
                        assert(old_roots[j] == b);
                    } else if j > p {
                        assert(old_roots[j - 1] == b);
                    }
                }
                if old_roots.contains(b) {
                    let j = choose|j: int| 0 <= j < old_roots.len() && old_roots[j] == b;
                    if j < p {
                        assert(now[j] == b);
                    } else {
                        assert(now[j + 1] == b);
                    }
                }
                if b == name@ {
                    assert(now[p as int] == b);
                }
            }
        }
    } else {
        assert(old_roots[p as int] == name@);
    }
}

/// What a `StackTree` stands for in contracts: its roots in order, the
/// children of each branch that pull requests are based on, and the
/// number of pull requests.
pub ghost struct TreeView {
    pub roots: Seq<Seq<char>>,
    pub children: Map<Seq<char>, Seq<ChildView>>,
    pub size: nat,
}

impl View for StackTree {
    type V = TreeView;

    open spec fn view(&self) -> TreeView {
        TreeView {
            roots: name_views(self.roots@),
            children: family_map(self.children@),
            size: self.size as nat,
        }
    }
}

/// The forest of `s`: the roots are given by `roots`; every branch that a
/// descriptor is based on has the descriptors based on it as its children,
/// in the order of `s`, and no other branch has children.
pub open spec fn forest_of(s: Seq<PrView>, roots: Seq<Seq<char>>) -> TreeView {
    TreeView {
        roots,
        children: Map::new(|b: Seq<char>| has_base(s, b), |b: Seq<char>| children_in(s, b)),
        size: s.len(),
    }
}

impl StackTree {
    /// No branch has two families, and the roots are ascending.
    pub open spec fn wf(&self) -> bool {
        distinct_bases(self.children@) && ascending(name_views(self.roots@))
    }

    /// The children listed for `base`.
    pub open spec fn kids(&self, base: Seq<char>) -> Seq<ChildView> {
        kids_of(self.children@, base)
    }

    /// The tree as a text, each level followed `depth` levels down.
    pub open spec fn rendered(&self, depth: nat) -> Seq<char> {
        render_roots(self.children@, name_views(self.roots@), depth)
    }

    /// The forest of `prs`: the roots, ascending and each once, are the
    /// bases that no pull request of `prs` produces; each branch that a
    /// pull request is based on has one family, no other branch has one,
    /// and in it stand the pull requests based on the branch, in the order
    /// of `prs`. The families stand in the order in which their branches
    /// first occur as a base.
    pub fn build(prs: &[PrInfo]) -> (tree: StackTree)
        ensures
            tree.wf(),
            tree@ == forest_of(views(prs@), name_views(tree.roots@)),
            family_bases(tree.children@) == first_occurrences(bases(views(prs@))),
            name_views(tree.roots@).no_duplicates(),
            forall|b: Seq<char>|
                #[trigger] name_views(tree.roots@).contains(b) <==> is_root(views(prs@), b),
            forall|b: Seq<char>|
                #[trigger] has_family(tree.children@, b) <==> has_base(views(prs@), b),
            forall|i: int, j: int|
                0 <= i < j < tree.children@.len() ==> (#[trigger] tree.children@[i]).base@ != (
                #[trigger] tree.children@[j]).base@,
            forall|b: Seq<char>| #[trigger] tree.kids(b) == children_in(views(prs@), b),
            total_kids(tree.children@) == prs.len(),
            tree.children.len() <= prs.len(),
            tree.roots.len() <= prs.len(),
            tree.size == prs.len(),
    {
        let ghost s = views(prs@);
        let mut children: Vec<Family> = Vec::new();
        let mut roots: Vec<String> = Vec::new();
        let produced = head_set(prs);
        let mut i: usize = 0;
        assert(ascending(name_views(roots@)));
        assert forall|b: Seq<char>| !has_base(s.take(0), b) by {}
        proof {
            lemma_covered_ends(s, s.len() as int);
            assert(bases(s).take(0) =~= Seq::<Seq<char>>::empty());
            assert(family_bases(children@) =~= Seq::<Seq<char>>::empty());
        }
        while i < prs.len()
            invariant
                i <= prs.len(),
                s == views(prs@),
                produced@ == heads(s),
                children.len() <= i,
                roots.len() <= i,
                distinct_bases(children@),
                family_bases(children@) == first_occurrences(bases(s).take(i as int)),
                total_kids(children@) == covered(s, i as int, s.len() as int),
                ascending(name_views(roots@)),
                forall|b: Seq<char>|
                    #[trigger] name_views(roots@).contains(b) <==> (has_base(s.take(i as int), b)
                        && !has_head(s, b)),
                forall|b: Seq<char>|
                    #[trigger] has_family(children@, b) <==> has_base(s.take(i as int), b),
                forall|b: Seq<char>|
                    #[trigger] kids_of(children@, b) == (if has_base(s.take(i as int), b) {
                        children_in(s, b)
                    } else {
                        Seq::<ChildView>::empty()
                    }),
            decreases prs.len() - i,
        {
            let base = &prs[i].base_ref;
            let ghost old_children = children@;
            let ghost old_roots = name_views(roots@);
            assert(s[i as int].base == base@);
            proof {
                lemma_family_bases(children@, base@);
                assert(bases(s).take(i + 1).drop_last() =~= bases(s).take(i as int));
                assert(bases(s).take(i + 1).last() == base@);
            }
            add_family(&mut children, prs, base);
            if !produced.contains(base.as_str()) {
                add_root(&mut roots, base);
            }
            proof {
                lemma_covered_step(s, i as int, s.len() as int);
                assert(s.take(s.len() as int) =~= s);
                assert(has_family(old_children, base@) <==> has_base(s.take(i as int), base@));
                assert forall|b: Seq<char>| #[trigger] name_views(roots@).contains(b) <==> (
                has_base(s.take(i + 1), b) && !has_head(s, b)) by {
                    lemma_has_base_step(s, i as int, b);
                    assert(old_roots.contains(b) <==> (has_base(s.take(i as int), b) && !has_head(
                        s,
                        b,
                    )));
                }
                assert forall|b: Seq<char>| #[trigger] has_family(children@, b) <==> has_base(
                    s.take(i + 1),
                    b,
                ) by {
                    lemma_has_base_step(s, i as int, b);
                    assert(has_family(old_children, b) <==> has_base(s.take(i as int), b));
                }
                assert forall|b: Seq<char>| #[trigger] kids_of(children@, b) == (if has_base(
                    s.take(i + 1),
                    b,
                ) {
                    children_in(s, b)
                } else {
                    Seq::<ChildView>::empty()
                }) by {
                    lemma_has_base_step(s, i as int, b);
                    assert(has_family(old_children, b) <==> has_base(s.take(i as int), b));
                    assert(has_family(old_children, base@) <==> has_base(
                        s.take(i as int),
                        base@,
                    ));
                    assert(kids_of(old_children, b) == (if has_base(s.take(i as int), b) {
                        children_in(s, b)
                    } else {
                        Seq::<ChildView>::empty()
                    }));
                }
            }
            i = i + 1;
        }
        proof {
            assert(s.take(i as int) =~= s);
            assert(bases(s).take(i as int) =~= bases(s));
            lemma_covered_ends(s, s.len() as int);
            lemma_ascending_distinct(name_views(roots@));
            assert forall|b: Seq<char>| #[trigger] kids_of(children@, b) == children_in(s, b) by {
                if !has_base(s, b) {
                    lemma_no_base_no_children(s, b);
                }
            }
            lemma_family_map(children@);
            assert(family_map(children@) =~= forest_of(s, name_views(roots@)).children) by {
                assert forall|b: Seq<char>| family_map(children@).contains_key(b) <==> has_base(
                    s,
                    b,
                ) by {
                    assert(family_map(children@).contains_key(b) <==> has_family(children@, b));
                }
                assert forall|b: Seq<char>| has_base(s, b) implies family_map(children@)[b]
                    == children_in(s, b) by {
                    assert(has_family(children@, b));
                    assert(kids_of(children@, b) == children_in(s, b));
                }
            }
        }
        StackTree { roots, children, size: prs.len() }
    }

    /// The children listed for `base`, where it has a family.
    pub fn find_kids(&self, base: &String) -> (r: Option<&Vec<Child>>)
        ensures
            r is Some <==> has_family(self.children@, base@),
            r is Some <==> self@.children.contains_key(base@),
            match r {
                Some(k) => child_views(k@) == self.kids(base@) && child_views(k@)
                    == self@.children[base@],
                None => self.kids(base@) == Seq::<ChildView>::empty(),
            },
    {
        proof {
            lemma_family_map(self.children@);
        }
        let mut j: usize = self.children.len();
        assert(self.children@.take(j as int) =~= self.children@);
        while j > 0
            invariant
                j <= self.children.len(),
                kids_of(self.children@, base@) == kids_of(self.children@.take(j as int), base@),
                forall|k: int|
                    j <= k < self.children.len() ==> (#[trigger] self.children@[k]).base@ != base@,
            decreases j,
        {
            j = j - 1;
            assert(self.children@.take(j + 1).drop_last() =~= self.children@.take(j as int));
            assert(self.children@.take(j + 1).last() == self.children@[j as int]);
            if self.children[j].base == *base {
                proof {
                    lemma_family_map(self.children@);
                    assert(self.children@[j as int].base@ == base@);
                }
                return Some(&self.children[j].kids);
            }
        }
        proof {
            lemma_family_map(self.children@);
        }
        None
    }

    /// Appends to `out` the lines of `nodes` and of what stands under them,
    /// down to `depth` levels below `nodes`. Each line begins with `prefix`.
    pub fn format_children_plain(
        &self,
        nodes: &Vec<Child>,
        prefix: &str,
        depth: usize,
        out: &mut String,
    )
        ensures
            final(out)@ == old(out)@ + render_children(
                self.children@,
                child_views(nodes@),
                prefix@,
                depth as nat,
            ),
        decreases depth,
    {
        let ghost start = out@;
        let ghost all = child_views(nodes@);
        let ghost fams = self.children@;
        let mut i: usize = 0;
        assert(all.skip(0) =~= all);
        while i < nodes.len()
            invariant
                i <= nodes.len(),
                all == child_views(nodes@),
                fams == self.children@,
                start + render_children(fams, all, prefix@, depth as nat) == out@
                    + render_children(fams, all.skip(i as int), prefix@, depth as nat),
            decreases nodes.len() - i,
        {
            let ghost before = out@;
            let ghost rest = all.skip(i as int);
            let is_last = i == nodes.len() - 1;
            let connector = if is_last {
                "└─"
            } else {
                "├─"
            };
            let child_prefix = if is_last {
                "   "
            } else {
                "│  "
            };
            out.append(prefix);
            out.append(connector);
            out.append(" #");
            push_decimal(out, nodes[i].number);
            out.append(" ");
            out.append(nodes[i].head_ref.as_str());
            out.append("\n");
            proof {
                assert(rest[0] == nodes@[i as int]@);
                assert(rest.len() == nodes.len() - i);
                assert(out@ =~= before + child_line(prefix@, rest[0], is_last));
            }
            let ghost mid = out@;
            let ghost below = if depth == 0 {
                Seq::<char>::empty()
            } else {
                render_children(
                    fams,
                    kids_of(fams, rest[0].head),
                    prefix@ + indent(is_last),
                    (depth - 1) as nat,
                )
            };
            if depth > 0 {
                match self.find_kids(&nodes[i].head_ref) {
                    Some(kids) => {
                        let mut deeper = String::from_str(prefix);
                        deeper.append(child_prefix);
                        self.format_children_plain(kids, deeper.as_str(), depth - 1, out);
                    },
                    None => {},
                }
            }
            proof {
                assert(out@ =~= mid + below);
                assert(rest.drop_first() =~= all.skip(i + 1));
                assert(out@ + render_children(fams, all.skip(i + 1), prefix@, depth as nat)
                    =~= before + render_children(fams, rest, prefix@, depth as nat));
            }
            i = i + 1;
        }
        assert(out@ + Seq::<char>::empty() =~= out@);
    }

    /// The tree as plain text: each root on a line of its own, and under it,
    /// indented level by level, the pull requests based on it. The levels
    /// are followed as deep as the forest has pull requests, which in the
    /// forest of an execution order is as deep as they go.
    pub fn format_plain(&self) -> (out: String)
        ensures
            out@ == self.rendered(self.size as nat),
    {
        let mut out = String::new();
        let depth = self.size;
        let ghost all = name_views(self.roots@);
        let ghost fams = self.children@;
        let mut i: usize = 0;
        assert(all.skip(0) =~= all);
        assert(Seq::<char>::empty() + render_roots(fams, all, depth as nat) =~= render_roots(
            fams,
            all,
            depth as nat,
        ));
        while i < self.roots.len()
            invariant
                i <= self.roots.len(),
                all == name_views(self.roots@),
                fams == self.children@,
                depth == self.size,
                render_roots(fams, all, depth as nat) == out@ + render_roots(
                    fams,
                    all.skip(i as int),
                    depth as nat,
                ),
            decreases self.roots.len() - i,
        {
            let ghost before = out@;
            let ghost rest = all.skip(i as int);
            out.append(self.roots[i].as_str());
            out.append("\n");
            let ghost mid = out@;
            match self.find_kids(&self.roots[i]) {
                Some(kids) => {
                    self.format_children_plain(kids, "", depth, &mut out);
                    proof {
                        reveal_strlit("");
                        assert(""@ =~= Seq::<char>::empty());
                    }
                },
                None => {},
            }
            proof {
                assert(rest[0] == self.roots@[i as int]@);
                assert(out@ =~= mid + render_children(
                    fams,
                    kids_of(fams, rest[0]),
                    Seq::<char>::empty(),
                    depth as nat,
                ));
                assert(rest.drop_first() =~= all.skip(i + 1));
                assert(out@ + render_roots(fams, all.skip(i + 1), depth as nat) =~= before
                    + render_roots(fams, rest, depth as nat));
            }
            i = i + 1;
        }
        assert(out@ + Seq::<char>::empty() =~= out@);
        out
    }
}

/// One more than the last position in `s` of a descriptor whose result
/// branch is `b`, or 0 where there is none.
pub open spec fn last_producer(s: Seq<PrView>, b: Seq<char>) -> int
    decreases s.len(),
{
    if s.len() == 0 {
        0
    } else if s.last().head == b {
        s.len() as int
    } else {
        last_producer(s.drop_last(), b)
    }
}

pub proof fn lemma_last_producer(s: Seq<PrView>, b: Seq<char>)
    ensures
        0 <= last_producer(s, b) <= s.len(),
        last_producer(s, b) > 0 ==> s[last_producer(s, b) - 1].head == b,
        forall|j: int| 0 <= j < s.len() && (#[trigger] s[j]).head == b ==> j < last_producer(s, b),
    decreases s.len(),
{
    if s.len() > 0 && s.last().head != b {
        let front = s.drop_last();
        lemma_last_producer(front, b);
        assert forall|j: int| 0 <= j < s.len() && (#[trigger] s[j]).head == b implies j
            < last_producer(s, b) by {
            assert(front[j] == s[j]);
        }
    }
}

/// Every child of `b` is a descriptor of `s` that is based on `b`.
pub proof fn lemma_child_is_descriptor(s: Seq<PrView>, b: Seq<char>, k: int)
    requires
        0 <= k < children_in(s, b).len(),
    ensures
        exists|i: int|
            0 <= i < s.len() && (#[trigger] s[i]).base == b && children_in(s, b)[k].head
                == s[i].head,
    decreases s.len(),
{
    let front = s.drop_last();
    if s.last().base == b && k == children_in(front, b).len() {
        assert(s[s.len() - 1].base == b);
    } else {
        lemma_child_is_descriptor(front, b, k);
        let i = choose|i: int|
            0 <= i < front.len() && (#[trigger] front[i]).base == b && children_in(front, b)[k].head
                == front[i].head;
        assert(s[i] == front[i]);
    }
}

/// In an execution order every child is produced after its parent.
pub proof fn lemma_child_comes_later(s: Seq<PrView>, b: Seq<char>, k: int)
    requires
        is_execution_order(s),
        0 <= k < children_in(s, b).len(),
    ensures
        last_producer(s, children_in(s, b)[k].head) > last_producer(s, b),
{
    lemma_child_is_descriptor(s, b, k);
    let i = choose|i: int|
        0 <= i < s.len() && (#[trigger] s[i]).base == b && children_in(s, b)[k].head == s[i].head;
    lemma_last_producer(s, s[i].head);
    lemma_last_producer(s, b);
    if last_producer(s, b) > 0 {
        assert(s[last_producer(s, b) - 1].head == s[i].base);
    }
}

/// The families of `fams` list the children among `s`.
pub open spec fn lists_children(fams: Seq<Family>, s: Seq<PrView>) -> bool {
    forall|b: Seq<char>| #[trigger] kids_of(fams, b) == children_in(s, b)
}

/// Each of `nodes` is produced so late in `s` that `depth` levels below it
/// reach the end of `s`.
pub open spec fn deep_enough(s: Seq<PrView>, nodes: Seq<ChildView>, depth: nat) -> bool {
    forall|k: int|
        0 <= k < nodes.len() ==> depth + last_producer(s, (#[trigger] nodes[k]).head) >= s.len()
}

/// In the forest of an execution order, two depths that both reach the end
/// of the order give the same lines.
pub proof fn lemma_children_fully_rendered(
    s: Seq<PrView>,
    fams: Seq<Family>,
    nodes: Seq<ChildView>,
    prefix: Seq<char>,
    d1: nat,
    d2: nat,
)
    requires
        is_execution_order(s),
        lists_children(fams, s),
        deep_enough(s, nodes, d1),
        deep_enough(s, nodes, d2),
    ensures
        render_children(fams, nodes, prefix, d1) == render_children(fams, nodes, prefix, d2),
    decreases d1, nodes.len(),
{
    if nodes.len() > 0 {
        let c = nodes[0];
        let is_last = nodes.len() == 1;
        let rest = nodes.drop_first();
        let kids = kids_of(fams, c.head);
        assert(kids == children_in(s, c.head));
        assert(deep_enough(s, rest, d1) && deep_enough(s, rest, d2)) by {
            assert forall|k: int| 0 <= k < rest.len() implies d1 + last_producer(
                s,
                (#[trigger] rest[k]).head,
            ) >= s.len() && d2 + last_producer(s, rest[k].head) >= s.len() by {
                assert(rest[k] == nodes[k + 1]);
            }
        }
        lemma_children_fully_rendered(s, fams, rest, prefix, d1, d2);
        lemma_last_producer(s, c.head);
        assert(d1 + last_producer(s, nodes[0].head) >= s.len());
        assert(d2 + last_producer(s, nodes[0].head) >= s.len());
        if kids.len() > 0 {
            lemma_child_comes_later(s, c.head, 0);
            lemma_last_producer(s, kids[0].head);
            assert(d1 > 0 && d2 > 0);
            let e1 = (d1 - 1) as nat;
            let e2 = (d2 - 1) as nat;
            assert(deep_enough(s, kids, e1) && deep_enough(s, kids, e2)) by {
                assert forall|k: int| 0 <= k < kids.len() implies e1 + last_producer(
                    s,
                    (#[trigger] kids[k]).head,
                ) >= s.len() && e2 + last_producer(s, kids[k].head) >= s.len() by {
                    lemma_child_comes_later(s, c.head, k);
                }
            }
            lemma_children_fully_rendered(s, fams, kids, prefix + indent(is_last), e1, e2);
        } else {
            if d1 > 0 {
                assert(render_children(fams, kids, prefix + indent(is_last), (d1 - 1) as nat)
                    == Seq::<char>::empty());
            }
            if d2 > 0 {
                assert(render_children(fams, kids, prefix + indent(is_last), (d2 - 1) as nat)
                    == Seq::<char>::empty());
            }
        }
    }
}

/// In the forest of an execution order the text of the tree is the same
/// at every depth from the number of pull requests on: nothing stands
/// deeper.
pub proof fn lemma_fully_rendered(
    s: Seq<PrView>,
    fams: Seq<Family>,
    roots: Seq<Seq<char>>,
    d1: nat,
    d2: nat,
)
    requires
        is_execution_order(s),
        lists_children(fams, s),
        d1 >= s.len(),
        d2 >= s.len(),
    ensures
        render_roots(fams, roots, d1) == render_roots(fams, roots, d2),
    decreases roots.len(),
{
    if roots.len() > 0 {
        let kids = kids_of(fams, roots[0]);
        assert forall|k: int| 0 <= k < kids.len() implies d1 + last_producer(
            s,
            (#[trigger] kids[k]).head,
        ) >= s.len() && d2 + last_producer(s, kids[k].head) >= s.len() by {
            lemma_last_producer(s, kids[k].head);
        }
        lemma_children_fully_rendered(s, fams, kids, Seq::empty(), d1, d2);
        lemma_fully_rendered(s, fams, roots.drop_first(), d1, d2);
    }
}

/// One line of the tree, in parts, for whoever shows it in colours.
#[derive(Debug)]
pub enum TreeLine {
    /// The line of a root: its name.
    Root(String),
    /// The line of a pull request: what stands before its connector,
    /// whether it is the last child of its parent, its number and its
    /// result branch.
    Node(String, bool, u32, String),
}

/// What a `TreeLine` stands for in contracts.
pub ghost enum TreeLineView {
    Root(Seq<char>),
    Node(Seq<char>, bool, ChildView),
}

impl View for TreeLine {
    type V = TreeLineView;

    open spec fn view(&self) -> TreeLineView {
        match self {
            TreeLine::Root(name) => TreeLineView::Root(name@),
            TreeLine::Node(prefix, is_last, number, head) => TreeLineView::Node(
                prefix@,
                *is_last,
                ChildView { number: *number, head: head@ },
            ),
        }
    }
}

/// The views of the lines in `s`, in order.
pub open spec fn row_views(s: Seq<TreeLine>) -> Seq<TreeLineView> {
    s.map_values(|l: TreeLine| l@)
}

/// The text of one line.
pub open spec fn row_text(l: TreeLineView) -> Seq<char> {
    match l {
        TreeLineView::Root(name) => name + "\n"@,
        TreeLineView::Node(prefix, is_last, c) => child_line(prefix, c, is_last),
    }
}

/// The text of the lines `rows`.
pub open spec fn rows_text(rows: Seq<TreeLineView>) -> Seq<char>
    decreases rows.len(),
{
    if rows.len() == 0 {
        Seq::empty()
    } else {
        rows_text(rows.drop_last()) + row_text(rows.last())
    }
}

/// The lines of `nodes` and of what stands under them, down to `depth`
/// levels below `nodes`.
pub open spec fn child_rows(
    fams: Seq<Family>,
    nodes: Seq<ChildView>,
    prefix: Seq<char>,
    depth: nat,
) -> Seq<TreeLineView>
    decreases depth, nodes.len(),
{
    if nodes.len() == 0 {
        Seq::empty()
    } else {
        let is_last = nodes.len() == 1;
        let below = if depth == 0 {
            Seq::empty()
        } else {
            child_rows(
                fams,
                kids_of(fams, nodes[0].head),
                prefix + indent(is_last),
                (depth - 1) as nat,
            )
        };
        seq![TreeLineView::Node(prefix, is_last, nodes[0])] + below + child_rows(
            fams,
            nodes.drop_first(),
            prefix,
            depth,
        )
    }
}

/// The lines of the trees of `roots`.
pub open spec fn root_rows(fams: Seq<Family>, roots: Seq<Seq<char>>, depth: nat) -> Seq<
    TreeLineView,
>
    decreases roots.len(),
{
    if roots.len() == 0 {
        Seq::empty()
    } else {
        seq![TreeLineView::Root(roots[0])] + child_rows(
            fams,
            kids_of(fams, roots[0]),
            Seq::empty(),
            depth,
        ) + root_rows(fams, roots.drop_first(), depth)
    }
}

/// The text of lines after lines is the text of the first followed by the
/// text of the second.
pub proof fn lemma_rows_text_add(a: Seq<TreeLineView>, b: Seq<TreeLineView>)
    ensures
        rows_text(a + b) == rows_text(a) + rows_text(b),
    decreases b.len(),
{
    if b.len() == 0 {
        assert(a + b =~= a);
        assert(rows_text(a) + rows_text(b) =~= rows_text(a));
    } else {
        lemma_rows_text_add(a, b.drop_last());
        assert((a + b).drop_last() =~= a + b.drop_last());
        assert((a + b).last() == b.last());
        assert(rows_text(a + b) =~= rows_text(a) + rows_text(b));
    }
}

/// The text of a single line.
pub proof fn lemma_rows_text_one(l: TreeLineView)
    ensures
        rows_text(seq![l]) == row_text(l),
{
    let one = seq![l];
    assert(one.drop_last() =~= Seq::<TreeLineView>::empty());
    assert(rows_text(one.drop_last()) == Seq::<char>::empty());
    assert(one.last() == l);
    assert(rows_text(one) == rows_text(one.drop_last()) + row_text(one.last()));
    assert(Seq::<char>::empty() + row_text(l) =~= row_text(l));
}

/// The lines of children, put together, are their plain text.
pub proof fn lemma_child_rows_text(
    fams: Seq<Family>,
    nodes: Seq<ChildView>,
    prefix: Seq<char>,
    depth: nat,
)
    ensures
        rows_text(child_rows(fams, nodes, prefix, depth)) == render_children(
            fams,
            nodes,
            prefix,
            depth,
        ),
    decreases depth, nodes.len(),
{
    if nodes.len() > 0 {
        let is_last = nodes.len() == 1;
        let first = seq![TreeLineView::Node(prefix, is_last, nodes[0])];
        let below = if depth == 0 {
            Seq::<TreeLineView>::empty()
        } else {
            child_rows(
                fams,
                kids_of(fams, nodes[0].head),
                prefix + indent(is_last),
                (depth - 1) as nat,
            )
        };
        let rest = child_rows(fams, nodes.drop_first(), prefix, depth);
        if depth > 0 {
            lemma_child_rows_text(
                fams,
                kids_of(fams, nodes[0].head),
                prefix + indent(is_last),
                (depth - 1) as nat,
            );
        }
        lemma_child_rows_text(fams, nodes.drop_first(), prefix, depth);
        lemma_rows_text_one(first[0]);
        lemma_rows_text_add(first, below);
        lemma_rows_text_add(first + below, rest);
    }
}

/// The lines of a tree, put together, are its plain text.
pub proof fn lemma_root_rows_text(fams: Seq<Family>, roots: Seq<Seq<char>>, depth: nat)
    ensures
        rows_text(root_rows(fams, roots, depth)) == render_roots(fams, roots, depth),
    decreases roots.len(),
{
    if roots.len() > 0 {
        let first = seq![TreeLineView::Root(roots[0])];
        let below = child_rows(fams, kids_of(fams, roots[0]), Seq::empty(), depth);
        let rest = root_rows(fams, roots.drop_first(), depth);
        lemma_child_rows_text(fams, kids_of(fams, roots[0]), Seq::empty(), depth);
        lemma_root_rows_text(fams, roots.drop_first(), depth);
        lemma_rows_text_one(first[0]);
        lemma_rows_text_add(first, below);
        lemma_rows_text_add(first + below, rest);
    }
}

impl StackTree {
    /// Appends to `out` the lines of `nodes` and of what stands under them,
    /// down to `depth` levels below `nodes`.
    pub fn collect_rows(
        &self,
        nodes: &Vec<Child>,
        prefix: &str,
        depth: usize,
        out: &mut Vec<TreeLine>,
    )
        ensures
            row_views(final(out)@) == row_views(old(out)@) + child_rows(
                self.children@,
                child_views(nodes@),
                prefix@,
                depth as nat,
            ),
        decreases depth,
    {
        let ghost start = row_views(out@);
        let ghost all = child_views(nodes@);
        let ghost fams = self.children@;
        let mut i: usize = 0;
        assert(all.skip(0) =~= all);
        while i < nodes.len()
            invariant
                i <= nodes.len(),
                all == child_views(nodes@),
                fams == self.children@,
                start + child_rows(fams, all, prefix@, depth as nat) == row_views(out@)
                    + child_rows(fams, all.skip(i as int), prefix@, depth as nat),
            decreases nodes.len() - i,
        {
            let ghost before = row_views(out@);
            let ghost rest = all.skip(i as int);
            let is_last = i == nodes.len() - 1;
            let child_prefix = if is_last {
                "   "
            } else {
                "│  "
            };
            let row = TreeLine::Node(
                String::from_str(prefix),
                is_last,
                nodes[i].number,
                nodes[i].head_ref.clone(),
            );
            out.push(row);
            proof {
                assert(rest[0] == nodes@[i as int]@);
                assert(rest.len() == nodes.len() - i);
                assert(row_views(out@) =~= before + seq![
                    TreeLineView::Node(prefix@, is_last, rest[0]),
                ]);
            }
            let ghost mid = row_views(out@);
            let ghost below = if depth == 0 {
                Seq::<TreeLineView>::empty()
            } else {
                child_rows(
                    fams,
                    kids_of(fams, rest[0].head),
                    prefix@ + indent(is_last),
                    (depth - 1) as nat,
                )
            };
            if depth > 0 {
                match self.find_kids(&nodes[i].head_ref) {
                    Some(kids) => {
                        let mut deeper = String::from_str(prefix);
                        deeper.append(child_prefix);
                        self.collect_rows(kids, deeper.as_str(), depth - 1, out);
                    },
                    None => {},
                }
            }
            proof {
                assert(row_views(out@) =~= mid + below);
                assert(rest.drop_first() =~= all.skip(i + 1));
                assert(row_views(out@) + child_rows(fams, all.skip(i + 1), prefix@, depth as nat)
                    =~= before + child_rows(fams, rest, prefix@, depth as nat));
            }
            i = i + 1;
        }
        assert(row_views(out@) + Seq::<TreeLineView>::empty() =~= row_views(out@));
    }

    /// The lines of the tree, in parts: put together they are the plain text
    /// of the tree.
    pub fn rows(&self) -> (out: Vec<TreeLine>)
        ensures
            row_views(out@) == root_rows(
                self.children@,
                name_views(self.roots@),
                self.size as nat,
            ),
            rows_text(row_views(out@)) == self.rendered(self.size as nat),
    {
        let mut out: Vec<TreeLine> = Vec::new();
        let depth = self.size;
        let ghost all = name_views(self.roots@);
        let ghost fams = self.children@;
        let mut i: usize = 0;
        assert(all.skip(0) =~= all);
        assert(row_views(out@) =~= Seq::<TreeLineView>::empty());
        assert(Seq::<TreeLineView>::empty() + root_rows(fams, all, depth as nat) =~= root_rows(
            fams,
            all,
            depth as nat,
        ));
        while i < self.roots.len()
            invariant
                i <= self.roots.len(),
                all == name_views(self.roots@),
                fams == self.children@,
                depth == self.size,
                root_rows(fams, all, depth as nat) == row_views(out@) + root_rows(
                    fams,
                    all.skip(i as int),
                    depth as nat,
                ),
            decreases self.roots.len() - i,
        {
            let ghost before = row_views(out@);
            let ghost rest = all.skip(i as int);
            let row = TreeLine::Root(self.roots[i].clone());
            out.push(row);
            let ghost mid = row_views(out@);
            proof {
                assert(rest[0] == self.roots@[i as int]@);
                assert(mid =~= before + seq![TreeLineView::Root(rest[0])]);
            }
            match self.find_kids(&self.roots[i]) {
                Some(kids) => {
                    self.collect_rows(kids, "", depth, &mut out);
                    proof {
                        reveal_strlit("");
                        assert(""@ =~= Seq::<char>::empty());
                    }
                },
                None => {},
            }
            proof {
                assert(row_views(out@) =~= mid + child_rows(
                    fams,
                    kids_of(fams, rest[0]),
                    Seq::<char>::empty(),
                    depth as nat,
                ));
                assert(rest.drop_first() =~= all.skip(i + 1));
                assert(row_views(out@) + root_rows(fams, all.skip(i + 1), depth as nat)
                    =~= before + root_rows(fams, rest, depth as nat));
            }
            i = i + 1;
        }
        proof {
            assert(row_views(out@) + Seq::<TreeLineView>::empty() =~= row_views(out@));
            lemma_root_rows_text(fams, all, depth as nat);
        }
        out
    }
}

} // verus!
