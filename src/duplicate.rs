//! Planning the duplication of commits: where each duplicate goes, and the checks made first.
use vstd::prelude::*;
use crate::dag::{bits, descending, from_positions, heads, heads_set, lists};
use crate::expr::{evaluate_bits, evaluate_to_positions, is_ancestor, is_resolved, sem, RevsetExpression};
use crate::graph::{is_anc, CommitGraph};

verus! {

/// Refuses to insert duplicates between `children` and `parents` when some
/// commit lies on a path from a child to a parent: it would become both an
/// ancestor and a descendant of the duplicates. The error names the highest
/// such commit.
pub fn ensure_no_commit_loop(g: &CommitGraph, children: Vec<usize>, parents: Vec<usize>) -> (r: Result<(), usize>)
    requires
        g.wf(),
    ensures
        ({
            let e = RevsetExpression::DagRange {
                roots: Box::new(RevsetExpression::Commits(children)),
                heads: Box::new(RevsetExpression::Commits(parents)),
            };
            &&& r is Ok <==> sem(*g, e).is_empty()
            &&& r matches Err(c) ==> sem(*g, e).contains(c as int)
                && forall|d: int| #[trigger] sem(*g, e).contains(d) ==> d <= c
        }),
{
    let e = RevsetExpression::DagRange {
        roots: Box::new(RevsetExpression::Commits(children)),
        heads: Box::new(RevsetExpression::Commits(parents)),
    };
    let ghost e0 = e;
    assert(is_resolved(RevsetExpression::Commits(children)));
    assert(is_resolved(RevsetExpression::Commits(parents)));
    let ids = evaluate_to_positions(g, &e);
    if ids.len() == 0 {
        assert(sem(*g, e0) =~= Set::<int>::empty()) by {
            assert forall|i: int| !sem(*g, e0).contains(i) by {
                if sem(*g, e0).contains(i) {
                    assert(lists(ids@, i));
                }
            }
        }
        Ok(())
    } else {
        let c = ids[0];
        proof {
            assert(lists(ids@, c as int));
            assert forall|d: int| #[trigger] sem(*g, e0).contains(d) implies d <= c by {
                assert(lists(ids@, d));
                let a = choose|a: int| 0 <= a < ids@.len() && ids@[a] == d;
                if a > 0 {
                    assert(descending(ids@));
                }
            }
        }
        Err(c)
    }
}

/// A parent of a duplicated commit: a commit that stays, or the duplicate
/// of a commit.
#[derive(PartialEq, Eq, Structural, Clone, Copy, Debug)]
pub enum NewParent {
    Existing(usize),
    Duplicate(usize),
}

/// Flag `i` of `m`, false past its end.
pub open spec fn flag(m: Seq<bool>, i: int) -> bool {
    0 <= i < m.len() && m[i]
}

/// The duplicated commits nearest below `p` through its first `k` parents:
/// a parent that is duplicated counts itself; one that is not, but lies in
/// the connected set `c`, counts its own such commits.
pub open spec fn internal_upto(ps: Seq<Seq<usize>>, t: Seq<bool>, c: Seq<bool>, p: int, k: int) -> Seq<usize>
    decreases p, k,
{
    if p < 0 || p >= ps.len() || k <= 0 || k > ps[p].len() {
        Seq::empty()
    } else {
        let pre = internal_upto(ps, t, c, p, k - 1);
        let q = ps[p][k - 1] as int;
        if flag(t, q) {
            pre.push(q as usize)
        } else if q < p && flag(c, q) {
            pre + internal_upto(ps, t, c, q, ps[q].len() as int)
        } else {
            pre
        }
    }
}

/// The duplicated commits nearest below `p`.
pub open spec fn internal(ps: Seq<Seq<usize>>, t: Seq<bool>, c: Seq<bool>, p: int) -> Seq<usize> {
    if 0 <= p < ps.len() { internal_upto(ps, t, c, p, ps[p].len() as int) } else { Seq::empty() }
}

/// A commit as a new parent: its duplicate if it is duplicated.
pub open spec fn as_new_parent(t: Seq<bool>, id: usize) -> NewParent {
    if flag(t, id as int) { NewParent::Duplicate(id) } else { NewParent::Existing(id) }
}

/// No child given is an ancestor of `q`.
pub open spec fn kept_parent(ps: Seq<Seq<usize>>, children: Seq<usize>, q: int) -> bool {
    !exists|i: int| 0 <= i < children.len() && #[trigger] is_anc(ps, children[i] as int, q)
}

/// The new parents of duplicate `x` through its first `k` parents, when
/// destinations are given and `x` is not a root of the duplicated set. Of the
/// parents that no child reaches: a duplicated one gives its duplicate; one
/// that is not duplicated but lies in the connected set `c` gives the
/// duplicates of its nearest duplicated ancestors; any other stays.
pub open spec fn inner_parents(ps: Seq<Seq<usize>>, t: Seq<bool>, c: Seq<bool>, children: Seq<usize>, x: int, k: int) -> Seq<NewParent>
    decreases k,
{
    if k <= 0 || x < 0 || x >= ps.len() || k > ps[x].len() {
        Seq::empty()
    } else {
        let pre = inner_parents(ps, t, c, children, x, k - 1);
        let q = ps[x][k - 1];
        if !kept_parent(ps, children, q as int) {
            pre
        } else if flag(t, q as int) {
            pre.push(NewParent::Duplicate(q))
        } else if flag(c, q as int) {
            pre + internal(ps, t, c, q as int).map_values(|id: usize| as_new_parent(t, id))
        } else {
            pre.push(NewParent::Existing(q))
        }
    }
}

/// The new parents of the duplicate of `x`. With no destination, its parents
/// with duplicated ones replaced by their duplicates. With destinations, the
/// destinations for a root of the duplicated set (no duplicated commit
/// below it), else `inner_parents`.
pub open spec fn dup_parents(ps: Seq<Seq<usize>>, t: Seq<bool>, c: Seq<bool>, dests: Seq<usize>, children: Seq<usize>, x: int) -> Seq<NewParent> {
    if dests.len() == 0 {
        ps[x].map_values(|q: usize| as_new_parent(t, q))
    } else if internal(ps, t, c, x).len() == 0 {
        dests.map_values(|d: usize| NewParent::Existing(d))
    } else {
        inner_parents(ps, t, c, children, x, ps[x].len() as int)
    }
}

/// The positions whose flag is set, lowest first.
pub open spec fn members_asc(m: Seq<bool>) -> Seq<usize> {
    Seq::new(m.len(), |k: int| k as usize).filter(|i: usize| flag(m, i as int))
}

/// The duplicates to write.
pub struct DuplicatePlan {
    /// The commits to duplicate, lowest position first.
    pub order: Vec<usize>,
    /// The parents of each duplicate, in the same order.
    pub parents: Vec<Vec<NewParent>>,
    /// The heads of the duplicated set, lowest first: the new parents that
    /// the given children gain (besides their parents other than the
    /// destinations).
    pub heads: Vec<usize>,
}

/// Why nothing can be duplicated.
#[derive(PartialEq, Eq, Structural, Clone, Copy, Debug)]
pub enum DuplicateError {
    RootCommit,
    /// This commit would be both an ancestor and a descendant of the
    /// duplicates.
    CommitLoop(usize),
    /// This commit is immutable and cannot be rebased.
    NotRewritable(usize),
}

/// The duplicated commits nearest below every position, by position.
fn internal_table(g: &CommitGraph, t: &Vec<bool>, c: &Vec<bool>) -> (r: Vec<Vec<usize>>)
    requires
        g.wf(),
    ensures
        r@.len() == g.len(),
        forall|p: int| 0 <= p < g.len() ==> #[trigger] r@[p]@ == internal(g.ps(), t@, c@, p),
{
    let ghost ps = g.ps();
    let n = g.commits.len();
    let mut table: Vec<Vec<usize>> = Vec::new();
    let mut p: usize = 0;
    while p < n
        invariant
            p <= n,
            n == g.len(),
            ps == g.ps(),
            g.wf(),
            table@.len() == p,
            forall|j: int| 0 <= j < p ==> #[trigger] table@[j]@ == internal(ps, t@, c@, j),
        decreases n - p,
    {
        let pv = &g.commits[p].parents;
        assert(pv@ == ps[p as int]);
        let mut row: Vec<usize> = Vec::new();
        let mut k: usize = 0;
        while k < pv.len()
            invariant
                p < n,
                n == g.len(),
                ps == g.ps(),
                g.wf(),
                pv@ == ps[p as int],
                k <= pv@.len(),
                table@.len() == p,
                forall|j: int| 0 <= j < p ==> #[trigger] table@[j]@ == internal(ps, t@, c@, j),
                row@ == internal_upto(ps, t@, c@, p as int, k as int),
            decreases pv@.len() - k,
        {
            let q = pv[k];
            assert(ps[p as int][k as int] < p);
            if q < t.len() && t[q] {
                row.push(q);
            } else if q < p && q < c.len() && c[q] {
                let sub = &table[q];
                assert(sub@ == internal(ps, t@, c@, q as int));
                let mut m: usize = 0;
                let ghost start = row@;
                while m < sub.len()
                    invariant
                        m <= sub@.len(),
                        row@ == start + sub@.subrange(0, m as int),
                    decreases sub@.len() - m,
                {
                    row.push(sub[m]);
                    m = m + 1;
                    assert(row@ =~= start + sub@.subrange(0, m as int));
                }
                assert(sub@.subrange(0, sub@.len() as int) =~= sub@);
            }
            k = k + 1;
        }
        table.push(row);
        p = p + 1;
    }
    table
}

/// The commits of `m`, lowest position first.
fn members_asc_exec(m: &Vec<bool>) -> (r: Vec<usize>)
    ensures
        r@ == members_asc(m@),
{
    let n = m.len();
    let ghost f = |k: int| k as usize;
    let ghost pred = |i: usize| flag(m@, i as int);
    let mut r: Vec<usize> = Vec::new();
    let mut k: usize = 0;
    assert(Seq::new(0, f) =~= Seq::<usize>::empty());
    while k < n
        invariant
            k <= n,
            n == m@.len(),
            f == (|k: int| k as usize),
            pred == (|i: usize| flag(m@, i as int)),
            r@ == Seq::new(k as nat, f).filter(pred),
        decreases n - k,
    {
        proof {
            assert(Seq::new((k + 1) as nat, f) =~= Seq::new(k as nat, f).push(k));
            Seq::new(k as nat, f).lemma_filter_push(k, pred);
        }
        if m[k] {
            r.push(k);
        }
        k = k + 1;
    }
    assert(Seq::new(n as nat, f) =~= Seq::new(m@.len(), |k: int| k as usize));
    r
}

/// One flag per commit: set for the commits listed in `ids`.
pub open spec fn listed_mask(g: CommitGraph, ids: Seq<usize>) -> Seq<bool> {
    Seq::new(g.len(), |i: int| lists(ids, i))
}

/// One flag per commit: set for the commits of `s`.
pub open spec fn set_mask(g: CommitGraph, s: Set<int>) -> Seq<bool> {
    Seq::new(g.len(), |i: int| s.contains(i))
}

/// The commit as a new parent.
fn new_parent(t: &Vec<bool>, id: usize) -> (r: NewParent)
    ensures
        r == as_new_parent(t@, id),
{
    if id < t.len() && t[id] { NewParent::Duplicate(id) } else { NewParent::Existing(id) }
}

/// Whether some child is an ancestor of `q`.
fn reached_by_child(g: &CommitGraph, children: &Vec<usize>, q: usize) -> (r: bool)
    requires
        g.wf(),
    ensures
        r == !kept_parent(g.ps(), children@, q as int),
{
    let mut i: usize = 0;
    while i < children.len()
        invariant
            g.wf(),
            i <= children@.len(),
            forall|j: int| 0 <= j < i ==> !#[trigger] is_anc(g.ps(), children@[j] as int, q as int),
        decreases children@.len() - i,
    {
        if is_ancestor(g, children[i], q) {
            return true;
        }
        i = i + 1;
    }
    false
}

/// The new parents of the duplicate of `x`.
fn dup_parents_exec(
    g: &CommitGraph,
    t: &Vec<bool>,
    c: &Vec<bool>,
    table: &Vec<Vec<usize>>,
    dests: &Vec<usize>,
    children: &Vec<usize>,
    x: usize,
) -> (r: Vec<NewParent>)
    requires
        g.wf(),
        x < g.len(),
        table@.len() == g.len(),
        forall|p: int| 0 <= p < g.len() ==> #[trigger] table@[p]@ == internal(g.ps(), t@, c@, p),
    ensures
        r@ == dup_parents(g.ps(), t@, c@, dests@, children@, x as int),
{
    let ghost ps = g.ps();
    let pv = &g.commits[x].parents;
    assert(pv@ == ps[x as int]);
    let mut r: Vec<NewParent> = Vec::new();
    if dests.len() == 0 {
        let mut k: usize = 0;
        while k < pv.len()
            invariant
                k <= pv@.len(),
                r@ == pv@.subrange(0, k as int).map_values(|q: usize| as_new_parent(t@, q)),
            decreases pv@.len() - k,
        {
            r.push(new_parent(t, pv[k]));
            k = k + 1;
            assert(r@ =~= pv@.subrange(0, k as int).map_values(|q: usize| as_new_parent(t@, q)));
        }
        assert(pv@.subrange(0, pv@.len() as int) =~= pv@);
        assert(r@ =~= dup_parents(ps, t@, c@, dests@, children@, x as int));
        return r;
    }
    if table[x].len() == 0 {
        let mut k: usize = 0;
        while k < dests.len()
            invariant
                k <= dests@.len(),
                r@ == dests@.subrange(0, k as int).map_values(|d: usize| NewParent::Existing(d)),
            decreases dests@.len() - k,
        {
            r.push(NewParent::Existing(dests[k]));
            k = k + 1;
            assert(r@ =~= dests@.subrange(0, k as int).map_values(|d: usize| NewParent::Existing(d)));
        }
        assert(dests@.subrange(0, dests@.len() as int) =~= dests@);
        assert(r@ =~= dup_parents(ps, t@, c@, dests@, children@, x as int));
        return r;
    }
    let mut k: usize = 0;
    while k < pv.len()
        invariant
            g.wf(),
            ps == g.ps(),
            x < g.len(),
            pv@ == ps[x as int],
            k <= pv@.len(),
            table@.len() == g.len(),
            forall|p: int| 0 <= p < g.len() ==> #[trigger] table@[p]@ == internal(ps, t@, c@, p),
            r@ == inner_parents(ps, t@, c@, children@, x as int, k as int),
        decreases pv@.len() - k,
    {
        let q = pv[k];
        assert(ps[x as int][k as int] < x);
        if !reached_by_child(g, children, q) {
            if q < t.len() && t[q] {
                r.push(NewParent::Duplicate(q));
                assert(r@ =~= inner_parents(ps, t@, c@, children@, x as int, k + 1));
            } else if q < c.len() && c[q] {
                let sub = &table[q];
                let ghost start = r@;
                let mut m: usize = 0;
                while m < sub.len()
                    invariant
                        m <= sub@.len(),
                        r@ == start + sub@.subrange(0, m as int).map_values(|id: usize| as_new_parent(t@, id)),
                    decreases sub@.len() - m,
                {
                    r.push(new_parent(t, sub[m]));
                    m = m + 1;
                    assert(r@ =~= start + sub@.subrange(0, m as int).map_values(|id: usize| as_new_parent(t@, id)));
                }
                assert(sub@.subrange(0, sub@.len() as int) =~= sub@);
                assert(r@ =~= inner_parents(ps, t@, c@, children@, x as int, k + 1));
            } else {
                r.push(NewParent::Existing(q));
                assert(r@ =~= inner_parents(ps, t@, c@, children@, x as int, k + 1));
            }
        }
        k = k + 1;
    }
    r
}

/// Plans duplicating the listed commits: fails on the root commit; else
/// gives, for each commit in position order, the parents of its duplicate,
/// and the heads of the duplicated set that the given children move onto.
pub fn plan_duplicate(g: &CommitGraph, to_duplicate: &Vec<usize>, dests: &Vec<usize>, children: &Vec<usize>)
    -> (r: Result<DuplicatePlan, DuplicateError>)
    requires
        g.wf(),
    ensures
        (r is Err) <==> (g.len() > 0 && lists(to_duplicate@, 0)),
        r matches Ok(plan) ==> {
            let t = listed_mask(*g, to_duplicate@);
            let cs = sem(*g, RevsetExpression::Connected(Box::new(RevsetExpression::Commits(*to_duplicate))));
            let c = set_mask(*g, cs);
            &&& plan.order@ == members_asc(t)
            &&& plan.parents@.len() == plan.order@.len()
            &&& forall|k: int| 0 <= k < plan.order@.len() ==> (#[trigger] plan.parents@[k])@
                == dup_parents(g.ps(), t, c, dests@, children@, plan.order@[k] as int)
            &&& plan.heads@ == if children@.len() == 0 {
                Seq::<usize>::empty()
            } else {
                members_asc(Seq::new(g.len(), |i: int| heads_set(g.ps(), cs).contains(i) && t[i]))
            }
        },
{
    let n = g.commits.len();
    let mut i: usize = 0;
    while i < to_duplicate.len()
        invariant
            i <= to_duplicate@.len(),
            n == g.len(),
            forall|j: int| 0 <= j < i ==> n == 0 || to_duplicate@[j] != 0,
        decreases to_duplicate@.len() - i,
    {
        if to_duplicate[i] == 0 && n > 0 {
            assert(lists(to_duplicate@, 0));
            return Err(DuplicateError::RootCommit);
        }
        i = i + 1;
    }
    let ghost ps = g.ps();
    let t = from_positions(to_duplicate, n);
    assert(t@ =~= listed_mask(*g, to_duplicate@)) by {
        assert forall|i: int| 0 <= i < n implies t@[i] == listed_mask(*g, to_duplicate@)[i] by {
            assert(bits(t@).contains(i) == t@[i]);
        }
    }
    let ghost ce = RevsetExpression::Connected(Box::new(RevsetExpression::Commits(*to_duplicate)));
    let copied = crate::refs::copy_positions(to_duplicate);
    let ghost inner = RevsetExpression::Commits(*to_duplicate);
    let ghost inner_copy = RevsetExpression::Commits(copied);
    assert(sem(*g, inner_copy) =~= sem(*g, inner));
    let e = RevsetExpression::Connected(Box::new(RevsetExpression::Commits(copied)));
    assert(e == RevsetExpression::Connected(Box::new(inner_copy)));
    assert(sem(*g, e) == sem(*g, ce));
    assert(is_resolved(inner_copy));
    assert(is_resolved(e));
    let c = evaluate_bits(g, &e);
    let ghost cs = sem(*g, ce);
    assert(c@ =~= set_mask(*g, cs)) by {
        assert forall|i: int| 0 <= i < n implies c@[i] == set_mask(*g, cs)[i] by {
            assert(bits(c@).contains(i) == c@[i]);
        }
    }
    let table = internal_table(g, &t, &c);
    let order = members_asc_exec(&t);
    proof {
        let base = Seq::new(n as nat, |k: int| k as usize);
        assert forall|k: int| 0 <= k < order@.len() implies #[trigger] order@[k] < n by {
            base.lemma_filter_pred(|i: usize| flag(t@, i as int), k);
        }
    }
    let mut parents: Vec<Vec<NewParent>> = Vec::new();
    let mut k: usize = 0;
    while k < order.len()
        invariant
            g.wf(),
            n == g.len(),
            k <= order@.len(),
            table@.len() == g.len(),
            forall|p: int| 0 <= p < g.len() ==> #[trigger] table@[p]@ == internal(g.ps(), t@, c@, p),
            forall|j: int| 0 <= j < order@.len() ==> #[trigger] order@[j] < n,
            parents@.len() == k,
            forall|j: int| 0 <= j < k ==> (#[trigger] parents@[j])@ == dup_parents(g.ps(), t@, c@, dests@, children@, order@[j] as int),
        decreases order@.len() - k,
    {
        let row = dup_parents_exec(g, &t, &c, &table, dests, children, order[k]);
        parents.push(row);
        k = k + 1;
    }
    let heads_list = if children.len() == 0 {
        Vec::new()
    } else {
        let h = heads(g, &c);
        let mut m: Vec<bool> = Vec::new();
        let mut i: usize = 0;
        while i < n
            invariant
                i <= n,
                n == g.len(),
                h@.len() == n,
                t@.len() == n,
                m@.len() == i,
                forall|j: int| 0 <= j < i ==> #[trigger] m@[j] == (h@[j] && t@[j]),
            decreases n - i,
        {
            m.push(h[i] && t[i]);
            i = i + 1;
        }
        proof {
            assert forall|j: int| 0 <= j < n implies m@[j] == (heads_set(ps, cs).contains(j) && t@[j]) by {
                assert(bits(h@).contains(j) == h@[j]);
                assert(bits(c@) =~= cs) by {
                    assert forall|x: int| bits(c@).contains(x) <==> cs.contains(x) by {}
                }
            }
            assert(m@ =~= Seq::new(g.len(), |i: int| heads_set(g.ps(), cs).contains(i) && t@[i]));
        }
        members_asc_exec(&m)
    };
    Ok(DuplicatePlan { order, parents, heads: heads_list })
}

/// `s` with repeats dropped, first occurrences kept.
pub open spec fn first_positions(s: Seq<usize>) -> Seq<usize>
    decreases s.len(),
{
    if s.len() == 0 {
        s
    } else {
        let pre = first_positions(s.drop_last());
        if s.drop_last().contains(s.last()) { pre } else { pre.push(s.last()) }
    }
}

/// The parents of the first `k` commits of `cs`, in order, repeats kept.
pub open spec fn all_parents(ps: Seq<Seq<usize>>, cs: Seq<usize>, k: int) -> Seq<usize>
    decreases k,
{
    if k <= 0 || k > cs.len() {
        Seq::empty()
    } else {
        all_parents(ps, cs, k - 1) + if 0 <= cs[k - 1] < ps.len() { ps[cs[k - 1] as int] } else { Seq::empty() }
    }
}

/// The parents of the commits of `cs`, in order, each once.
pub open spec fn parents_in_order(ps: Seq<Seq<usize>>, cs: Seq<usize>) -> Seq<usize> {
    first_positions(all_parents(ps, cs, cs.len() as int))
}

/// Commit `c` cannot be rewritten: it is the root, or an ancestor of an
/// immutable head.
pub open spec fn immutable(ps: Seq<Seq<usize>>, heads: Seq<usize>, c: int) -> bool {
    c == 0 || exists|i: int| 0 <= i < heads.len() && #[trigger] is_anc(ps, c, heads[i] as int)
}

/// The commits of a dag range from `roots` to `heads`.
pub open spec fn loop_set(g: CommitGraph, roots: Seq<usize>, heads: Seq<usize>) -> Set<int> {
    let ps = g.ps();
    crate::dag::anc_set(ps, Set::new(|i: int| 0 <= i < g.len() && lists(heads, i)))
        .intersect(crate::dag::desc_set(ps, Set::new(|i: int| 0 <= i < g.len() && lists(roots, i))))
}

/// The first immutable commit of `cs`, if any.
pub open spec fn first_immutable(ps: Seq<Seq<usize>>, heads: Seq<usize>, cs: Seq<usize>, r: Option<usize>) -> bool {
    match r {
        Some(c) => exists|i: int| 0 <= i < cs.len() && cs[i] == c && immutable(ps, heads, c as int)
            && forall|j: int| 0 <= j < i ==> !immutable(ps, heads, #[trigger] cs[j] as int),
        None => forall|j: int| 0 <= j < cs.len() ==> !immutable(ps, heads, #[trigger] cs[j] as int),
    }
}

/// What the checks on children and parents give: the first immutable
/// child, else the highest commit of a loop, else success.
pub open spec fn checks_pass(g: CommitGraph, heads: Seq<usize>, parents: Seq<usize>, children: Seq<usize>, loop_check: bool,
    r: Result<(Vec<usize>, Vec<usize>), DuplicateError>) -> bool {
    let ps = g.ps();
    let l = loop_set(g, children, parents);
    &&& (exists|j: int| 0 <= j < children.len() && immutable(ps, heads, #[trigger] children[j] as int))
        ==> (r matches Err(DuplicateError::NotRewritable(c)) && first_immutable(ps, heads, children, Some(c)))
    &&& (forall|j: int| 0 <= j < children.len() ==> !immutable(ps, heads, #[trigger] children[j] as int)) ==> {
        &&& (loop_check && !l.is_empty()) ==> (r matches Err(DuplicateError::CommitLoop(c))
            && l.contains(c as int) && forall|d: int| #[trigger] l.contains(d) ==> d <= c)
        &&& !(loop_check && !l.is_empty()) ==> (r matches Ok((pv, cv)) && pv@ == parents && cv@ == children)
    }
}

/// The first immutable commit of `cs`.
fn find_immutable(g: &CommitGraph, heads: &Vec<usize>, cs: &Vec<usize>) -> (r: Option<usize>)
    requires
        g.wf(),
    ensures
        first_immutable(g.ps(), heads@, cs@, r),
{
    let mut j: usize = 0;
    while j < cs.len()
        invariant
            g.wf(),
            j <= cs@.len(),
            forall|i: int| 0 <= i < j ==> !immutable(g.ps(), heads@, #[trigger] cs@[i] as int),
        decreases cs@.len() - j,
    {
        let c = cs[j];
        let mut bad = c == 0;
        let mut i: usize = 0;
        while i < heads.len()
            invariant
                g.wf(),
                i <= heads@.len(),
                bad == (c == 0 || exists|k: int| 0 <= k < i && #[trigger] is_anc(g.ps(), c as int, heads@[k] as int)),
            decreases heads@.len() - i,
        {
            if is_ancestor(g, c, heads[i]) {
                bad = true;
            }
            i = i + 1;
        }
        if bad {
            return Some(c);
        }
        j = j + 1;
    }
    None
}

/// Runs the checks on the children and the parents of the duplicates.
fn check_targets(g: &CommitGraph, heads: &Vec<usize>, parents: Vec<usize>, children: Vec<usize>, loop_check: bool)
    -> (r: Result<(Vec<usize>, Vec<usize>), DuplicateError>)
    requires
        g.wf(),
    ensures
        checks_pass(*g, heads@, parents@, children@, loop_check, r),
{
    match find_immutable(g, heads, &children) {
        Some(c) => {
            return Err(DuplicateError::NotRewritable(c));
        },
        None => {},
    }
    if loop_check {
        let ghost l = loop_set(*g, children@, parents@);
        let cc = crate::refs::copy_positions(&children);
        let pc = crate::refs::copy_positions(&parents);
        let ghost rc = RevsetExpression::Commits(cc);
        let ghost hc = RevsetExpression::Commits(pc);
        assert(sem(*g, rc) =~= Set::new(|i: int| 0 <= i < g.len() && lists(children@, i)));
        assert(sem(*g, hc) =~= Set::new(|i: int| 0 <= i < g.len() && lists(parents@, i)));
        let ghost e2 = RevsetExpression::DagRange { roots: Box::new(rc), heads: Box::new(hc) };
        assert(sem(*g, e2) =~= l);
        match ensure_no_commit_loop(g, cc, pc) {
            Err(c) => {
                return Err(DuplicateError::CommitLoop(c));
            },
            Ok(()) => {},
        }
    }
    Ok((parents, children))
}

/// The parents of the commits of `cs`, in order, each once.
fn parents_in_order_exec(g: &CommitGraph, cs: &Vec<usize>) -> (r: Vec<usize>)
    ensures
        r@ == parents_in_order(g.ps(), cs@),
{
    let ghost ps = g.ps();
    let mut all: Vec<usize> = Vec::new();
    let mut k: usize = 0;
    while k < cs.len()
        invariant
            k <= cs@.len(),
            ps == g.ps(),
            all@ == all_parents(ps, cs@, k as int),
        decreases cs@.len() - k,
    {
        let c = cs[k];
        let ghost start = all@;
        if c < g.commits.len() {
            let pv = &g.commits[c].parents;
            assert(pv@ == ps[c as int]);
            let mut m: usize = 0;
            while m < pv.len()
                invariant
                    m <= pv@.len(),
                    all@ == start + pv@.subrange(0, m as int),
                decreases pv@.len() - m,
            {
                all.push(pv[m]);
                m = m + 1;
                assert(all@ =~= start + pv@.subrange(0, m as int));
            }
            assert(pv@.subrange(0, pv@.len() as int) =~= pv@);
        }
        assert(all@ =~= all_parents(ps, cs@, k + 1));
        k = k + 1;
    }
    let mut out: Vec<usize> = Vec::new();
    let mut k: usize = 0;
    assert(all@.subrange(0, 0) =~= Seq::<usize>::empty());
    while k < all.len()
        invariant
            k <= all@.len(),
            out@ == first_positions(all@.subrange(0, k as int)),
            forall|x: usize| out@.contains(x) <==> all@.subrange(0, k as int).contains(x),
        decreases all@.len() - k,
    {
        let x = all[k];
        let ghost pre = all@.subrange(0, k as int);
        let ghost cur = all@.subrange(0, k + 1);
        assert(cur.drop_last() =~= pre);
        let mut seen = false;
        let mut j: usize = 0;
        while j < out.len()
            invariant
                j <= out@.len(),
                seen == exists|i: int| 0 <= i < j && out@[i] == x,
            decreases out@.len() - j,
        {
            if out[j] == x {
                seen = true;
            }
            j = j + 1;
        }
        let ghost before = out@;
        assert(forall|y: usize| before.contains(y) <==> pre.contains(y));
        if !seen {
            out.push(x);
        }
        proof {
            assert(seen == before.contains(x));
            assert forall|y: usize| out@.contains(y) <==> cur.contains(y) by {
                if cur.contains(y) {
                    let i = choose|i: int| 0 <= i < cur.len() && cur[i] == y;
                    if i < k {
                        assert(pre[i] == y);
                        assert(pre.contains(y));
                        let a = choose|a: int| 0 <= a < before.len() && before[a] == y;
                        assert(out@[a] == y);
                    } else if !seen {
                        assert(out@[before.len() as int] == y);
                    } else {
                        assert(cur[i] == x);
                        let a = choose|a: int| 0 <= a < before.len() && before[a] == y;
                        assert(out@[a] == y);
                    }
                }
                if out@.contains(y) {
                    let a = choose|a: int| 0 <= a < out@.len() && out@[a] == y;
                    if a < before.len() {
                        assert(before.contains(y));
                        let i = choose|i: int| 0 <= i < pre.len() && pre[i] == y;
                        assert(cur[i] == y);
                    } else {
                        assert(cur[k as int] == y);
                    }
                }
            }
        }
        k = k + 1;
    }
    assert(all@.subrange(0, all@.len() as int) =~= all@);
    out
}

/// Where the duplicates go, from the arguments: the destinations; or the
/// commits to insert after and those to insert before, either or both. With
/// only commits to insert before, their parents (in order, each once) are
/// the parents; with only commits to insert after, their children (highest
/// first) are the children. The children must be rewritable, and with
/// commits to insert before, no commit may lie between the children and the
/// parents.
pub fn duplicate_targets(
    g: &CommitGraph,
    destination: &Vec<usize>,
    insert_after: &Vec<usize>,
    insert_before: &Vec<usize>,
    immutable_heads: &Vec<usize>,
) -> (r: Result<(Vec<usize>, Vec<usize>), DuplicateError>)
    requires
        g.wf(),
    ensures
        insert_before@.len() > 0 && insert_after@.len() > 0
            ==> checks_pass(*g, immutable_heads@, insert_after@, insert_before@, true, r),
        insert_before@.len() > 0 && insert_after@.len() == 0
            ==> checks_pass(*g, immutable_heads@, parents_in_order(g.ps(), insert_before@), insert_before@, true, r),
        insert_before@.len() == 0 && insert_after@.len() > 0 ==> exists|children: Seq<usize>|
            #[trigger] checks_pass(*g, immutable_heads@, insert_after@, children, false, r)
            && descending(children)
            && forall|i: int| lists(children, i) <==> crate::dag::children_set(g.ps(), Set::new(|j: int| 0 <= j < g.len() && lists(insert_after@, j))).contains(i),
        insert_before@.len() == 0 && insert_after@.len() == 0
            ==> (r matches Ok((pv, cv)) && pv@ == destination@ && cv@.len() == 0),
{
    if insert_before.len() > 0 && insert_after.len() > 0 {
        return check_targets(g, immutable_heads, crate::refs::copy_positions(insert_after),
            crate::refs::copy_positions(insert_before), true);
    }
    if insert_before.len() > 0 {
        let parents = parents_in_order_exec(g, insert_before);
        return check_targets(g, immutable_heads, parents, crate::refs::copy_positions(insert_before), true);
    }
    if insert_after.len() > 0 {
        let ghost after = insert_after@;
        let copied = crate::refs::copy_positions(insert_after);
        let ghost inner = RevsetExpression::Commits(copied);
        assert(is_resolved(inner));
        assert(sem(*g, inner) =~= Set::new(|j: int| 0 <= j < g.len() && lists(after, j)));
        let e = RevsetExpression::Children(Box::new(RevsetExpression::Commits(copied)));
        assert(is_resolved(e));
        let children = evaluate_to_positions(g, &e);
        assert(sem(*g, e) =~= crate::dag::children_set(g.ps(), Set::new(|j: int| 0 <= j < g.len() && lists(after, j))));
        let ghost cv = children@;
        let r = check_targets(g, immutable_heads, crate::refs::copy_positions(insert_after), children, false);
        assert(checks_pass(*g, immutable_heads@, insert_after@, cv, false, r));
        return r;
    }
    Ok((crate::refs::copy_positions(destination), Vec::new()))
}

} // verus!
