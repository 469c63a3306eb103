//! Breadth-first walks over the ancestry index, for depth-limited ancestors
//! and descendants.
use vstd::prelude::*;
use crate::dag::{bits, lists};
use crate::graph::{is_parent, CommitGraph};

verus! {

/// The commits next to `c` in the walk: its parents in order when walking
/// up, its children by ascending position when walking down.
pub open spec fn neighbors(ps: Seq<Seq<usize>>, c: int, up: bool) -> Seq<usize> {
    if up {
        if 0 <= c < ps.len() { ps[c] } else { Seq::empty() }
    } else {
        Seq::new(ps.len(), |j: int| j as usize).filter(|j: usize| is_parent(ps, c, j as int))
    }
}

/// `order` with the first `k` of `nb` appended, each that is not there yet.
pub open spec fn add_new(order: Seq<usize>, nb: Seq<usize>, k: int) -> Seq<usize>
    decreases k,
{
    if k <= 0 {
        order
    } else {
        let o = add_new(order, nb, k - 1);
        if o.contains(nb[k - 1]) { o } else { o.push(nb[k - 1]) }
    }
}

/// The walk from state `order`, having expanded its first `next` commits,
/// for at most `fuel` more expansions.
pub open spec fn walk(ps: Seq<Seq<usize>>, order: Seq<usize>, next: int, up: bool, fuel: nat) -> Seq<usize>
    decreases fuel,
{
    if fuel == 0 || next < 0 || next >= order.len() {
        order
    } else {
        let nb = neighbors(ps, order[next] as int, up);
        walk(ps, add_new(order, nb, nb.len() as int), next + 1, up, (fuel - 1) as nat)
    }
}

/// One flag per position below `n`: set for the members of `s`.
pub open spec fn flags(s: Set<int>, n: nat) -> Seq<bool> {
    Seq::new(n, |i: int| s.contains(i))
}

/// The members of a set, highest position first.
pub open spec fn members_desc(m: Seq<bool>) -> Seq<usize> {
    Seq::new(m.len(), |k: int| (m.len() - 1 - k) as usize).filter(|i: usize| i < m.len() && m[i as int])
}

/// The breadth-first order from the members of `m`, highest first: every
/// commit reachable from them, in the order the walk meets it.
pub open spec fn bfs_order(ps: Seq<Seq<usize>>, m: Seq<bool>, up: bool) -> Seq<usize> {
    walk(ps, members_desc(m), 0, up, ps.len())
}

/// The first `limit` commits that the walk from `m` meets.
pub open spec fn limited_set(ps: Seq<Seq<usize>>, m: Seq<bool>, up: bool, limit: int) -> Set<int> {
    let o = bfs_order(ps, m, up);
    Set::new(|i: int| exists|k: int| 0 <= k < o.len() && k < limit && o[k] == i)
}

/// The members of a set, highest position first.
fn members_desc_exec(m: &Vec<bool>) -> (r: Vec<usize>)
    ensures
        r@ == members_desc(m@),
{
    let n = m.len();
    let ghost f = |k: int| (n - 1 - k) as usize;
    let ghost pred = |i: usize| i < n && m@[i as int];
    let mut r: Vec<usize> = Vec::new();
    let mut k: usize = 0;
    assert(Seq::new(0, f) =~= Seq::<usize>::empty());
    while k < n
        invariant
            k <= n,
            n == m@.len(),
            f == (|k: int| (n - 1 - k) as usize),
            pred == (|i: usize| i < n && m@[i as int]),
            r@ == Seq::new(k as nat, f).filter(pred),
        decreases n - k,
    {
        let i = n - 1 - k;
        proof {
            assert(Seq::new((k + 1) as nat, f) =~= Seq::new(k as nat, f).push(i));
            Seq::new(k as nat, f).lemma_filter_push(i, pred);
        }
        if m[i] {
            r.push(i);
        }
        k = k + 1;
    }
    assert(Seq::new(n as nat, f) =~= Seq::new(m@.len(), |k: int| (m@.len() - 1 - k) as usize));
    r
}

/// The commits next to `c`.
fn neighbors_exec(g: &CommitGraph, c: usize, up: bool) -> (r: Vec<usize>)
    requires
        c < g.len(),
    ensures
        r@ == neighbors(g.ps(), c as int, up),
{
    if up {
        let r = crate::refs::copy_positions(&g.commits[c].parents);
        assert(r@ == g.ps()[c as int]);
        return r;
    }
    let ghost ps = g.ps();
    let n = g.commits.len();
    let ghost f = |j: int| j as usize;
    let ghost pred = |j: usize| is_parent(ps, c as int, j as int);
    let mut r: Vec<usize> = Vec::new();
    let mut j: usize = 0;
    assert(Seq::new(0, f) =~= Seq::<usize>::empty());
    while j < n
        invariant
            j <= n,
            n == g.len(),
            ps == g.ps(),
            c < n,
            f == (|j: int| j as usize),
            pred == (|j: usize| is_parent(ps, c as int, j as int)),
            r@ == Seq::new(j as nat, f).filter(pred),
        decreases n - j,
    {
        proof {
            assert(Seq::new((j + 1) as nat, f) =~= Seq::new(j as nat, f).push(j));
            Seq::new(j as nat, f).lemma_filter_push(j, pred);
        }
        let pv = &g.commits[j].parents;
        assert(pv@ == ps[j as int]);
        let mut hit = false;
        let mut k: usize = 0;
        while k < pv.len()
            invariant
                k <= pv@.len(),
                j < n,
                ps == g.ps(),
                n == g.len(),
                pv@ == ps[j as int],
                hit == exists|kk: int| 0 <= kk < k && ps[j as int][kk] == c,
            decreases pv@.len() - k,
        {
            if pv[k] == c {
                hit = true;
            }
            k = k + 1;
        }
        assert(hit == pred(j));
        if hit {
            r.push(j);
        }
        j = j + 1;
    }
    assert(Seq::new(n as nat, f) =~= Seq::new(ps.len(), |j: int| j as usize));
    r
}

/// Appends the commits of `nb` that `order` does not hold, keeping `seen`
/// in step with `order`.
fn add_new_exec(order: &mut Vec<usize>, seen: &mut Vec<bool>, nb: &Vec<usize>)
    requires
        old(seen)@.len() >= 0,
        forall|i: int| 0 <= i < old(seen)@.len() ==> (old(seen)@[i] <==> lists(old(order)@, i)),
        forall|k: int| 0 <= k < nb@.len() ==> #[trigger] nb@[k] < old(seen)@.len(),
    ensures
        final(order)@ == add_new(old(order)@, nb@, nb@.len() as int),
        final(seen)@.len() == old(seen)@.len(),
        forall|i: int| 0 <= i < final(seen)@.len() ==> (final(seen)@[i] <==> lists(final(order)@, i)),
{
    let ghost start = order@;
    let mut k: usize = 0;
    while k < nb.len()
        invariant
            k <= nb@.len(),
            seen@.len() == old(seen)@.len(),
            forall|kk: int| 0 <= kk < nb@.len() ==> #[trigger] nb@[kk] < seen@.len(),
            order@ == add_new(start, nb@, k as int),
            forall|i: int| 0 <= i < seen@.len() ==> (seen@[i] <==> lists(order@, i)),
        decreases nb@.len() - k,
    {
        let x = nb[k];
        let ghost before = order@;
        proof {
            if lists(before, x as int) {
                let a = choose|a: int| 0 <= a < before.len() && before[a] == x;
                assert(before.contains(x));
            }
            if before.contains(x) {
                let a = choose|a: int| 0 <= a < before.len() && before[a] == x;
                assert(lists(before, x as int));
            }
        }
        if !seen[x] {
            order.push(x);
            seen.set(x, true);
            proof {
                assert forall|i: int| 0 <= i < seen@.len() implies (seen@[i] <==> lists(order@, i)) by {
                    if lists(order@, i) {
                        let a = choose|a: int| 0 <= a < order@.len() && order@[a] == i;
                        if a < before.len() {
                            assert(lists(before, i));
                        }
                    }
                    if i != x && lists(before, i) {
                        let a = choose|a: int| 0 <= a < before.len() && before[a] == i;
                        assert(order@[a] == i);
                    }
                    if i == x {
                        assert(order@[before.len() as int] == x);
                    }
                }
            }
        }
        k = k + 1;
    }
}

proof fn lemma_members_desc(m: Seq<bool>)
    requires
        m.len() <= usize::MAX,
    ensures
        forall|i: int| 0 <= i < m.len() ==> (lists(members_desc(m), i) <==> #[trigger] m[i]),
        forall|k: int| 0 <= k < members_desc(m).len() ==> #[trigger] members_desc(m)[k] < m.len(),
{
    let n = m.len();
    let base = Seq::new(n, |k: int| (n - 1 - k) as usize);
    let pred = |j: usize| j < n && m[j as int];
    assert forall|k: int| 0 <= k < members_desc(m).len() implies #[trigger] members_desc(m)[k] < m.len() by {
        base.lemma_filter_pred(pred, k);
    }
    assert forall|i: int| 0 <= i < m.len() implies (lists(members_desc(m), i) <==> #[trigger] m[i]) by {
        if lists(members_desc(m), i) {
            let k = choose|k: int| 0 <= k < members_desc(m).len() && members_desc(m)[k] == i;
            base.lemma_filter_pred(pred, k);
        }
        if m[i] {
            assert(base[n - 1 - i] == i);
            assert(pred(base[n - 1 - i]));
            base.lemma_filter_contains(pred, n - 1 - i);
            let k = choose|k: int| 0 <= k < members_desc(m).len() && members_desc(m)[k] == base[n - 1 - i];
            assert(members_desc(m)[k] == i);
        }
    }
}

/// The first `limit` commits met by a breadth-first walk from the members of
/// `x`, up through parents or down through children.
pub fn limited_walk(g: &CommitGraph, x: &Vec<bool>, up: bool, limit: usize) -> (r: Vec<bool>)
    requires
        g.wf(),
        x@.len() == g.len(),
    ensures
        r@.len() == g.len(),
        bits(r@) == limited_set(g.ps(), x@, up, limit as int),
{
    let ghost ps = g.ps();
    let n = g.commits.len();
    let mut order = members_desc_exec(x);
    let mut seen: Vec<bool> = Vec::new();
    let mut i: usize = 0;
    while i < n
        invariant
            i <= n,
            n == x@.len(),
            seen@ == x@.subrange(0, i as int),
        decreases n - i,
    {
        seen.push(x[i]);
        i = i + 1;
        assert(seen@ =~= x@.subrange(0, i as int));
    }
    assert(seen@ =~= x@);
    proof {
        lemma_members_desc(x@);
    }
    let mut next: usize = 0;
    let mut fuel: usize = n;
    while next < order.len() && fuel > 0
        invariant
            g.wf(),
            ps == g.ps(),
            n == g.len(),
            seen@.len() == n,
            forall|k: int| 0 <= k < order@.len() ==> #[trigger] order@[k] < n,
            forall|i: int| 0 <= i < n ==> (seen@[i] <==> lists(order@, i)),
            walk(ps, order@, next as int, up, fuel as nat) == bfs_order(ps, x@, up),
        decreases fuel,
    {
        let c = order[next];
        let nb = neighbors_exec(g, c, up);
        proof {
            assert forall|k: int| 0 <= k < nb@.len() implies #[trigger] nb@[k] < seen@.len() by {
                if up {
                    assert(ps[c as int][k] < c);
                } else {
                    let base = Seq::new(ps.len(), |j: int| j as usize);
                    base.lemma_filter_pred(|j: usize| is_parent(ps, c as int, j as int), k);
                }
            }
            assert(walk(ps, order@, next as int, up, fuel as nat)
                == walk(ps, add_new(order@, nb@, nb@.len() as int), next + 1, up, (fuel - 1) as nat));
        }
        let ghost before = order@;
        add_new_exec(&mut order, &mut seen, &nb);
        proof {
            lemma_add_new_bounded(before, nb@, nb@.len() as int, n as int);
        }
        next = next + 1;
        fuel = fuel - 1;
    }
    assert(order@ == bfs_order(ps, x@, up));
    let mut r = crate::dag::empty_bits(n);
    let mut k: usize = 0;
    while k < order.len() && k < limit
        invariant
            n == g.len(),
            r@.len() == n,
            k <= order@.len(),
            order@ == bfs_order(ps, x@, up),
            forall|kk: int| 0 <= kk < order@.len() ==> #[trigger] order@[kk] < n,
            forall|i: int| 0 <= i < n ==> (r@[i] <==> exists|kk: int| 0 <= kk < k && order@[kk] == i),
            k <= limit,
        decreases order@.len() - k,
    {
        r.set(order[k], true);
        k = k + 1;
    }
    proof {
        let o = order@;
        assert forall|i: int| bits(r@).contains(i) <==> limited_set(ps, x@, up, limit as int).contains(i) by {
            if limited_set(ps, x@, up, limit as int).contains(i) {
                let kk = choose|kk: int| 0 <= kk < o.len() && kk < limit && o[kk] == i;
                assert(o[kk] < n);
            }
        }
        assert(bits(r@) =~= limited_set(ps, x@, up, limit as int));
    }
    r
}

proof fn lemma_add_new_bounded(order: Seq<usize>, nb: Seq<usize>, k: int, n: int)
    requires
        forall|j: int| 0 <= j < order.len() ==> #[trigger] order[j] < n,
        forall|j: int| 0 <= j < nb.len() ==> #[trigger] nb[j] < n,
        k <= nb.len(),
    ensures
        forall|j: int| 0 <= j < add_new(order, nb, k).len() ==> #[trigger] add_new(order, nb, k)[j] < n,
    decreases k,
{
    if k > 0 {
        lemma_add_new_bounded(order, nb, k - 1, n);
        let o = add_new(order, nb, k - 1);
        if !o.contains(nb[k - 1]) {
            assert forall|j: int| 0 <= j < o.push(nb[k - 1]).len() implies #[trigger] o.push(nb[k - 1])[j] < n by {
                if j < o.len() {
                    assert(o.push(nb[k - 1])[j] == o[j]);
                }
            }
        }
    }
}

} // verus!
