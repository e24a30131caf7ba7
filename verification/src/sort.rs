//! The dependency order of a set of pull requests.
use crate::descriptor::{has_head, head_set, heads, views, PrInfo, PrView};
use crate::error::RestackError;
use vstd::multiset::Multiset;
use vstd::prelude::*;
use vstd::seq_lib::*;
use vstd::set_lib::*;

verus! {

/// The first position at or after `k` whose descriptor's base is no
/// result branch in `s`, or `s.len()` where there is none.
pub open spec fn free_from(s: Seq<PrView>, k: int) -> int
    decreases s.len() - k,
{
    if k >= s.len() {
        s.len() as int
    } else if !has_head(s, s[k].base) {
        k
    } else {
        free_from(s, k + 1)
    }
}

/// The first descriptor of `s` that waits for no other descriptor of `s`.
pub open spec fn first_free(s: Seq<PrView>) -> int {
    free_from(s, 0)
}

/// `front` before an order; a failure stays as it is.
pub open spec fn prepend(front: Seq<PrView>, rest: Result<Seq<PrView>, Seq<PrView>>) -> Result<
    Seq<PrView>,
    Seq<PrView>,
> {
    match rest {
        Ok(t) => Ok(front + t),
        Err(r) => Err(r),
    }
}

/// The dependency order of `s`: again and again the first descriptor that
/// waits for no remaining one leaves the remaining ones and joins the order.
/// Where none can leave, the result is the failure that holds the remaining
/// descriptors.
pub open spec fn sort_spec(s: Seq<PrView>) -> Result<Seq<PrView>, Seq<PrView>>
    decreases s.len(),
{
    if s.len() == 0 {
        Ok(Seq::empty())
    } else {
        let i = first_free(s);
        if i < 0 || i >= s.len() {
            Err(s)
        } else {
            prepend(seq![s[i]], sort_spec(s.remove(i)))
        }
    }
}

/// Every descriptor comes after each descriptor whose result branch is its
/// base, and none is based on its own result branch.
pub open spec fn is_execution_order(t: Seq<PrView>) -> bool {
    forall|i: int, j: int|
        0 <= i < t.len() && 0 <= j < t.len() && (#[trigger] t[j]).head == (#[trigger] t[i]).base
            ==> j < i
}

/// The position after `m` on a cycle of `len` descriptors.
pub open spec fn successor(m: int, len: int) -> int {
    if m + 1 == len {
        0
    } else {
        m + 1
    }
}

/// The descriptor at `m` on `c` is based on the result branch of the next.
pub open spec fn linked(c: Seq<PrView>, m: int) -> bool {
    c[m].base == c[successor(m, c.len() as int)].head
}

/// `c` is a dependency cycle in `s`: its descriptors are in `s`, and each is
/// based on the result branch of the next, the last on that of the first.
pub open spec fn is_cycle(s: Seq<PrView>, c: Seq<PrView>) -> bool {
    &&& c.len() > 0
    &&& forall|m: int| 0 <= m < c.len() ==> s.contains(#[trigger] c[m])
    &&& forall|m: int| 0 <= m < c.len() ==> #[trigger] linked(c, m)
}

/// Whether `s` holds a dependency cycle.
pub open spec fn has_cycle(s: Seq<PrView>) -> bool {
    exists|c: Seq<PrView>| is_cycle(s, c)
}

/// Every descriptor of `r` waits for a descriptor of `r`.
pub open spec fn stuck(r: Seq<PrView>) -> bool {
    forall|k: int| 0 <= k < r.len() ==> has_head(r, (#[trigger] r[k]).base)
}

pub proof fn lemma_free_from(s: Seq<PrView>, k: int)
    requires
        0 <= k <= s.len(),
    ensures
        k <= free_from(s, k) <= s.len(),
        free_from(s, k) < s.len() ==> !has_head(s, s[free_from(s, k)].base),
        forall|i: int| k <= i < free_from(s, k) ==> has_head(s, (#[trigger] s[i]).base),
    decreases s.len() - k,
{
    if k < s.len() && has_head(s, s[k].base) {
        lemma_free_from(s, k + 1);
    }
}

/// `first_free` is the least position whose descriptor waits for none.
pub proof fn lemma_first_free_is(s: Seq<PrView>, i: int)
    requires
        0 <= i <= s.len(),
        i < s.len() ==> !has_head(s, s[i].base),
        forall|k: int| 0 <= k < i ==> has_head(s, (#[trigger] s[k]).base),
    ensures
        first_free(s) == i,
{
    lemma_free_from(s, 0);
}

/// The first descriptor of `prs` that waits for no other, or `prs.len()`.
pub fn first_unblocked(prs: &[PrInfo]) -> (i: usize)
    ensures
        i == first_free(views(prs@)),
{
    let produced = head_set(prs);
    let mut i: usize = 0;
    while i < prs.len()
        invariant
            i <= prs.len(),
            produced@ == heads(views(prs@)),
            forall|k: int| 0 <= k < i ==> has_head(views(prs@), (#[trigger] views(prs@)[k]).base),
        decreases prs.len() - i,
    {
        if !produced.contains(prs[i].base_ref.as_str()) {
            proof {
                lemma_first_free_is(views(prs@), i as int);
            }
            return i;
        }
        i = i + 1;
    }
    proof {
        lemma_first_free_is(views(prs@), i as int);
    }
    i
}

/// Removing a descriptor from a list of descriptors removes its view from
/// the list of views.
pub proof fn lemma_views_remove(s: Seq<PrInfo>, i: int)
    requires
        0 <= i < s.len(),
    ensures
        views(s.remove(i)) == views(s).remove(i),
{
    assert(views(s.remove(i)) =~= views(s).remove(i));
}

pub proof fn lemma_views_push(s: Seq<PrInfo>, p: PrInfo)
    ensures
        views(s.push(p)) == views(s).push(p@),
{
    assert(views(s.push(p)) =~= views(s).push(p@));
}

/// Two lists that hold each item equally often hold the same items.
pub proof fn lemma_same_elements(a: Seq<PrView>, b: Seq<PrView>, x: PrView)
    requires
        a.to_multiset() == b.to_multiset(),
    ensures
        a.contains(x) == b.contains(x),
{
    to_multiset_contains(a, x);
    to_multiset_contains(b, x);
}

/// What `sort_spec` gives has these properties: an order holds each
/// descriptor of `s` as often as `s` does and is an execution order; a
/// failure holds descriptors of `s`, at least one, each of which waits for
/// another of them.
pub proof fn lemma_sort_result(s: Seq<PrView>)
    ensures
        match sort_spec(s) {
            Ok(t) => t.to_multiset() == s.to_multiset() && t.len() == s.len()
                && is_execution_order(t),
            Err(r) => r.len() > 0 && stuck(r) && forall|x: PrView|
                r.contains(x) ==> s.contains(x),
        },
    decreases s.len(),
{
    broadcast use {vstd::multiset::group_multiset_axioms, group_to_multiset_ensures};

    if s.len() == 0 {
        assert(is_execution_order(Seq::<PrView>::empty()));
    } else {
        let i = first_free(s);
        lemma_free_from(s, 0);
        if i < s.len() {
            let rest = s.remove(i);
            lemma_sort_result(rest);
            match sort_spec(rest) {
                Ok(tail) => {
                    let t = seq![s[i]] + tail;
                    lemma_multiset_commutative(seq![s[i]], tail);
                    to_multiset_remove(s, i);
                    assert(seq![s[i]] =~= Seq::<PrView>::empty().push(s[i]));
                    assert(seq![s[i]].to_multiset() =~= Multiset::<PrView>::empty().insert(s[i]));
                    assert(s.to_multiset().count(s[i]) > 0);
                    assert(t.to_multiset() =~= s.to_multiset());
                    assert forall|a: int, b: int|
                        0 <= a < t.len() && 0 <= b < t.len() && (#[trigger] t[b]).head == (
                        #[trigger] t[a]).base implies b < a by {
                        if a == 0 {
                            assert(t.contains(t[b]));
                            lemma_same_elements(t, s, t[b]);
                            let k = choose|k: int| 0 <= k < s.len() && s[k] == t[b];
                            assert(s[k].head == s[i].base);
                        } else if b > 0 {
                            assert(tail[b - 1] == t[b] && tail[a - 1] == t[a]);
                        }
                    }
                },
                Err(r) => {
                    assert forall|x: PrView| r.contains(x) implies s.contains(x) by {
                        assert(rest.contains(x));
                        let k = choose|k: int| 0 <= k < rest.len() && rest[k] == x;
                        assert(s[if k < i { k } else { k + 1 }] == x);
                    }
                },
            }
        } else {
            assert(stuck(s));
        }
    }
}

/// A dependency cycle makes the order fail, and the failure holds every
/// descriptor on the cycle.
pub proof fn lemma_cycle_is_reported(s: Seq<PrView>, c: Seq<PrView>)
    requires
        is_cycle(s, c),
    ensures
        sort_spec(s) is Err,
        forall|m: int| 0 <= m < c.len() ==> sort_spec(s)->Err_0.contains(#[trigger] c[m]),
    decreases s.len(),
{
    assert(s.contains(c[0]));
    let i = first_free(s);
    lemma_free_from(s, 0);
    if i < s.len() {
        let rest = s.remove(i);
        assert forall|m: int| 0 <= m < c.len() implies rest.contains(#[trigger] c[m]) by {
            let next = c[successor(m, c.len() as int)];
            assert(linked(c, m));
            assert(s.contains(next));
            let kn = choose|k: int| 0 <= k < s.len() && s[k] == next;
            assert(s[kn].head == c[m].base);
            assert(has_head(s, c[m].base));
            assert(s.contains(c[m]));
            let k = choose|k: int| 0 <= k < s.len() && s[k] == c[m];
            assert(k != i);
            assert(rest[if k < i { k } else { k - 1 }] == c[m]);
        }
        assert(is_cycle(rest, c));
        lemma_cycle_is_reported(rest, c);
    }
}

/// A descriptor of `r` whose result branch is the base of `r[k]`.
pub open spec fn waits_for(r: Seq<PrView>, k: int) -> int {
    choose|j: int| 0 <= j < r.len() && (#[trigger] r[j]).head == r[k].base
}

/// Where one stands after `m` steps from the first descriptor of `r`, each
/// step going from a descriptor to one that it waits for.
pub open spec fn walk(r: Seq<PrView>, m: nat) -> int
    decreases m,
{
    if m == 0 {
        0
    } else {
        waits_for(r, walk(r, (m - 1) as nat))
    }
}

proof fn lemma_walk(r: Seq<PrView>, m: nat)
    requires
        stuck(r),
        r.len() > 0,
    ensures
        0 <= walk(r, m) < r.len(),
        r[walk(r, m + 1)].head == r[walk(r, m)].base,
        0 <= walk(r, m + 1) < r.len(),
    decreases m,
{
    if m > 0 {
        lemma_walk(r, (m - 1) as nat);
    }
    let k = walk(r, m);
    assert(has_head(r, r[k].base));
}

/// Where every descriptor waits for another, following them comes back to
/// a descriptor already seen: there is a cycle.
pub proof fn lemma_stuck_has_cycle(r: Seq<PrView>)
    requires
        stuck(r),
        r.len() > 0,
    ensures
        has_cycle(r),
{
    let n = r.len() as int;
    let w = Seq::new((n + 1) as nat, |m: int| walk(r, m as nat));
    assert forall|m: int| 0 <= m <= n implies 0 <= #[trigger] w[m] < n by {
        lemma_walk(r, m as nat);
    }
    if w.no_duplicates() {
        w.unique_seq_to_set();
        lemma_int_range(0, n);
        assert(w.to_set().subset_of(set_int_range(0, n))) by {
            assert forall|x: int| w.to_set().contains(x) implies set_int_range(0, n).contains(
                x,
            ) by {
                let m = choose|m: int| 0 <= m < w.len() && w[m] == x;
                assert(0 <= w[m] < n);
            }
        }
        lemma_len_subset(w.to_set(), set_int_range(0, n));
        assert(false);
    }
    let (p, q) = choose|p: int, q: int|
        0 <= p < w.len() && 0 <= q < w.len() && p != q && w[p] == w[q];
    let a = if p < q {
        p
    } else {
        q
    };
    let b = if p < q {
        q
    } else {
        p
    };
    let len = b - a;
    let c = Seq::new(len as nat, |m: int| r[walk(r, (a + m) as nat)]);
    assert forall|m: int| 0 <= m < c.len() implies r.contains(#[trigger] c[m]) by {
        lemma_walk(r, (a + m) as nat);
    }
    assert forall|m: int| 0 <= m < c.len() implies #[trigger] linked(c, m) by {
        lemma_walk(r, (a + m) as nat);
        assert(w[a] == walk(r, a as nat) && w[b] == walk(r, b as nat));
    }
    assert(is_cycle(r, c));
}

/// The order exists exactly where there is no dependency cycle.
pub proof fn lemma_sorts_iff_acyclic(s: Seq<PrView>)
    ensures
        sort_spec(s) is Ok <==> !has_cycle(s),
{
    lemma_sort_result(s);
    if has_cycle(s) {
        let c = choose|c: Seq<PrView>| is_cycle(s, c);
        lemma_cycle_is_reported(s, c);
    }
    if sort_spec(s) is Err {
        let r = sort_spec(s)->Err_0;
        lemma_stuck_has_cycle(r);
        let c = choose|c: Seq<PrView>| is_cycle(r, c);
        assert forall|m: int| 0 <= m < c.len() implies s.contains(#[trigger] c[m]) by {
            assert(r.contains(c[m]));
        }
        assert(is_cycle(s, c));
    }
}

/// Without a dependency cycle the order exists, is as long as the input,
/// holds each descriptor as often as the input does, and places every
/// descriptor after each descriptor whose result branch is its base.
pub proof fn lemma_acyclic_is_ordered(s: Seq<PrView>)
    requires
        !has_cycle(s),
    ensures
        sort_spec(s) is Ok,
        sort_spec(s)->Ok_0.len() == s.len(),
        sort_spec(s)->Ok_0.to_multiset() == s.to_multiset(),
        is_execution_order(sort_spec(s)->Ok_0),
{
    lemma_sorts_iff_acyclic(s);
    lemma_sort_result(s);
}

/// A descriptor that waits for no descriptor of the input is overtaken by
/// none: whatever stood after it in the input stands after it in the order.
pub proof fn lemma_unblocked_keeps_place(s: Seq<PrView>, i: int, j: int)
    requires
        sort_spec(s) is Ok,
        0 <= i < j < s.len(),
        !has_head(s, s[i].base),
    ensures
        exists|p: int, q: int|
            0 <= p < q < s.len() && #[trigger] sort_spec(s)->Ok_0[p] == s[i] && #[trigger] sort_spec(
                s,
            )->Ok_0[q] == s[j],
    decreases s.len(),
{
    broadcast use {vstd::multiset::group_multiset_axioms, group_to_multiset_ensures};

    let k = first_free(s);
    lemma_free_from(s, 0);
    lemma_sort_result(s);
    let rest = s.remove(k);
    lemma_sort_result(rest);
    let tail = sort_spec(rest)->Ok_0;
    let t = sort_spec(s)->Ok_0;
    assert(t == seq![s[k]] + tail);
    if k == i {
        assert(rest[j - 1] == s[j]);
        assert(rest.contains(s[j]));
        lemma_same_elements(rest, tail, s[j]);
        let q = choose|q: int| 0 <= q < tail.len() && tail[q] == s[j];
        assert(t[0] == s[i] && t[q + 1] == s[j]);
    } else {
        assert(k < i);
        assert(rest[i - 1] == s[i] && rest[j - 1] == s[j]);
        assert(!has_head(rest, rest[i - 1].base)) by {
            if has_head(rest, rest[i - 1].base) {
                let h = choose|h: int| 0 <= h < rest.len() && (#[trigger] rest[h]).head == rest[i
                    - 1].base;
                assert(s[if h < k { h } else { h + 1 }].head == s[i].base);
            }
        }
        lemma_unblocked_keeps_place(rest, i - 1, j - 1);
        let (p, q) = choose|p: int, q: int|
            0 <= p < q < rest.len() && #[trigger] tail[p] == rest[i - 1] && #[trigger] tail[q]
                == rest[j - 1];
        assert(t[p + 1] == s[i] && t[q + 1] == s[j]);
    }
}

/// Descriptors none of which waits for another come out as they went in.
pub proof fn lemma_independent_unchanged(s: Seq<PrView>)
    requires
        forall|k: int| 0 <= k < s.len() ==> !has_head(s, (#[trigger] s[k]).base),
    ensures
        sort_spec(s) == Ok::<Seq<PrView>, Seq<PrView>>(s),
    decreases s.len(),
{
    if s.len() > 0 {
        lemma_first_free_is(s, 0);
        let rest = s.remove(0);
        assert forall|k: int| 0 <= k < rest.len() implies !has_head(
            rest,
            (#[trigger] rest[k]).base,
        ) by {
            if has_head(rest, rest[k].base) {
                let h = choose|h: int| 0 <= h < rest.len() && (#[trigger] rest[h]).head
                    == rest[k].base;
                assert(s[h + 1].head == s[k + 1].base);
            }
        }
        lemma_independent_unchanged(rest);
        assert(seq![s[0]] + rest =~= s);
    } else {
        assert(s =~= Seq::<PrView>::empty());
    }
}

/// Orders `prs` so that each pull request comes after the one it is based
/// on. Among those that wait for no other, the one that stood first goes
/// first. Fails where a dependency cycle leaves pull requests that can
/// never be placed, and hands them back.
pub fn sort_by_dependency(prs: Vec<PrInfo>) -> (r: Result<Vec<PrInfo>, RestackError>)
    ensures
        match r {
            Ok(v) => sort_spec(views(prs@)) == Ok::<Seq<PrView>, Seq<PrView>>(views(v@)),
            Err(RestackError::CircularDependency(rest)) => sort_spec(views(prs@)) == Err::<
                Seq<PrView>,
                Seq<PrView>,
            >(views(rest@)),
            Err(_) => false,
        },
        r is Ok <==> !has_cycle(views(prs@)),
        r is Ok ==> r->Ok_0.len() == prs.len() && views(r->Ok_0@).to_multiset() == views(
            prs@,
        ).to_multiset() && is_execution_order(views(r->Ok_0@)),
{
    let ghost input = views(prs@);
    let mut remaining = prs;
    let mut sorted: Vec<PrInfo> = Vec::new();
    proof {
        assert(views(sorted@) =~= Seq::<PrView>::empty());
        assert(Seq::<PrView>::empty() + sort_spec(input)->Ok_0 =~= sort_spec(input)->Ok_0);
    }
    while remaining.len() > 0
        invariant
            input == views(prs@),
            sorted.len() + remaining.len() == prs.len(),
            sort_spec(input) == prepend(views(sorted@), sort_spec(views(remaining@))),
        decreases remaining.len(),
    {
        let idx = first_unblocked(remaining.as_slice());
        let ghost before = remaining@;
        let ghost done = sorted@;
        if idx < remaining.len() {
            let pr = remaining.remove(idx);
            sorted.push(pr);
            proof {
                lemma_views_remove(before, idx as int);
                lemma_views_push(done, pr);
                let tail = sort_spec(views(remaining@));
                if tail is Ok {
                    assert(views(done) + (seq![pr@] + tail->Ok_0) =~= views(done).push(pr@)
                        + tail->Ok_0);
                }
            }
        } else {
            proof {
                assert(views(remaining@).len() == remaining.len());
                lemma_sorts_iff_acyclic(input);
            }
            return Err(RestackError::CircularDependency(remaining));
        }
    }
    proof {
        assert(views(remaining@).len() == 0);
        assert(views(sorted@) + Seq::<PrView>::empty() =~= views(sorted@));
        lemma_sorts_iff_acyclic(input);
        lemma_sort_result(input);
    }
    Ok(sorted)
}

} // verus!
