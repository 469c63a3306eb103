//! Set algebra over the ancestry index. A set of commits is held as one flag
//! per position.
use vstd::prelude::*;
use crate::graph::{is_anc, is_parent, lemma_anc_child, lemma_anc_le, lemma_anc_step, lemma_anc_trans, lemma_parent_is_anc, timestamps, topological, CommitGraph};

verus! {

/// The positions whose flag is set.
pub open spec fn bits(m: Seq<bool>) -> Set<int> {
    Set::new(|i: int| 0 <= i < m.len() && m[i])
}

/// `j` is an ancestor-or-self of some member of `x`.
pub open spec fn reaches_down(ps: Seq<Seq<usize>>, x: Set<int>, j: int) -> bool {
    exists|h: int| x.contains(h) && is_anc(ps, j, h)
}

/// `j` is a descendant-or-self of some member of `x`.
pub open spec fn reaches_up(ps: Seq<Seq<usize>>, x: Set<int>, j: int) -> bool {
    exists|r: int| x.contains(r) && is_anc(ps, r, j)
}

/// The members of `x` and all their transitive parents.
pub open spec fn anc_set(ps: Seq<Seq<usize>>, x: Set<int>) -> Set<int> {
    Set::new(|j: int| 0 <= j < ps.len() && reaches_down(ps, x, j))
}

/// The members of `x` and all their transitive children.
pub open spec fn desc_set(ps: Seq<Seq<usize>>, x: Set<int>) -> Set<int> {
    Set::new(|j: int| 0 <= j < ps.len() && reaches_up(ps, x, j))
}

/// A set with no member, over `n` positions.
pub fn empty_bits(n: usize) -> (r: Vec<bool>)
    ensures
        r@.len() == n,
        forall|i: int| 0 <= i < n ==> !#[trigger] r@[i],
        bits(r@) == Set::<int>::empty(),
{
    let mut r: Vec<bool> = Vec::new();
    let mut i: usize = 0;
    while i < n
        invariant
            i <= n,
            r@.len() == i,
            forall|j: int| 0 <= j < i ==> !#[trigger] r@[j],
        decreases n - i,
    {
        r.push(false);
        i = i + 1;
    }
    assert(bits(r@) =~= Set::<int>::empty());
    r
}

/// The ancestors of `x`, `x` included.
pub fn ancestors(g: &CommitGraph, x: &Vec<bool>) -> (r: Vec<bool>)
    requires
        g.wf(),
        x@.len() == g.len(),
    ensures
        r@.len() == g.len(),
        bits(r@) == anc_set(g.ps(), bits(x@)),
{
    let ghost ps = g.ps();
    let ghost xs = bits(x@);
    let n = g.commits.len();
    let mut m: Vec<bool> = Vec::new();
    let mut i: usize = 0;
    while i < n
        invariant
            i <= n,
            n == g.len(),
            x@.len() == n,
            m@ == x@.subrange(0, i as int),
        decreases n - i,
    {
        m.push(x[i]);
        i = i + 1;
    }
    assert(m@ =~= x@);
    assert forall|j: int| 0 <= j < n && #[trigger] m@[j] implies reaches_down(ps, xs, j) by {
        assert(xs.contains(j) && is_anc(ps, j, j));
    }
    while i > 0
        invariant
            i <= n,
            n == g.len(),
            ps == g.ps(),
            xs == bits(x@),
            g.wf(),
            m@.len() == n,
            forall|j: int| 0 <= j < n && #[trigger] m@[j] ==> reaches_down(ps, xs, j),
            forall|j: int| 0 <= j < n && xs.contains(j) ==> #[trigger] m@[j],
            forall|c: int, k: int|
                i <= c < n && m@[c] && 0 <= k < ps[c].len() ==> #[trigger] m@[ps[c][k] as int],
            forall|j: int| i <= j < n && reaches_down(ps, xs, j) ==> #[trigger] m@[j],
        decreases i,
    {
        i = i - 1;
        proof {
            if reaches_down(ps, xs, i as int) && !xs.contains(i as int) {
                let h = choose|h: int| xs.contains(h) && is_anc(ps, i as int, h);
                let c = lemma_anc_child(ps, i as int, h);
                lemma_anc_le(ps, c, h);
                assert(reaches_down(ps, xs, c));
                let k = choose|k: int| 0 <= k < ps[c].len() && ps[c][k] == i;
                assert(m@[ps[c][k] as int]);
            }
        }
        if m[i] {
            let pv = &g.commits[i].parents;
            assert(pv@ == ps[i as int]);
            let mut k: usize = 0;
            while k < pv.len()
                invariant
                    i < n,
                    n == g.len(),
                    ps == g.ps(),
                    xs == bits(x@),
                    g.wf(),
                    pv@ == ps[i as int],
                    m@.len() == n,
                    m@[i as int],
                    k <= pv@.len(),
                    forall|j: int| 0 <= j < n && #[trigger] m@[j] ==> reaches_down(ps, xs, j),
                    forall|j: int| 0 <= j < n && xs.contains(j) ==> #[trigger] m@[j],
                    forall|c: int, k: int|
                        i + 1 <= c < n && m@[c] && 0 <= k < ps[c].len() ==> #[trigger] m@[ps[c][k] as int],
                    forall|kk: int| 0 <= kk < k ==> #[trigger] m@[ps[i as int][kk] as int],
                    forall|j: int| i <= j < n && reaches_down(ps, xs, j) ==> #[trigger] m@[j],
                decreases pv@.len() - k,
            {
                let p = pv[k];
                proof {
                    assert(ps[i as int][k as int] < i);
                    let h = choose|h: int| xs.contains(h) && is_anc(ps, i as int, h);
                    lemma_parent_is_anc(ps, i as int, k as int);
                    lemma_anc_trans(ps, p as int, i as int, h);
                }
                m.set(p, true);
                k = k + 1;
            }
        }
    }
    assert(bits(m@) =~= anc_set(ps, xs));
    m
}

/// The descendants of `x`, `x` included.
pub fn descendants(g: &CommitGraph, x: &Vec<bool>) -> (r: Vec<bool>)
    requires
        g.wf(),
        x@.len() == g.len(),
    ensures
        r@.len() == g.len(),
        bits(r@) == desc_set(g.ps(), bits(x@)),
{
    let ghost ps = g.ps();
    let ghost xs = bits(x@);
    let n = g.commits.len();
    let mut m: Vec<bool> = Vec::new();
    let mut i: usize = 0;
    while i < n
        invariant
            i <= n,
            n == g.len(),
            ps == g.ps(),
            xs == bits(x@),
            g.wf(),
            x@.len() == n,
            m@.len() == i,
            forall|j: int| 0 <= j < i ==> #[trigger] m@[j] == reaches_up(ps, xs, j),
        decreases n - i,
    {
        let pv = &g.commits[i].parents;
        assert(pv@ == ps[i as int]);
        assert(xs.contains(i as int) == x@[i as int]);
        let mut found = x[i];
        let mut k: usize = 0;
        while k < pv.len()
            invariant
                i < n,
                n == g.len(),
                ps == g.ps(),
                xs == bits(x@),
                g.wf(),
                pv@ == ps[i as int],
                m@.len() == i,
                k <= pv@.len(),
                forall|j: int| 0 <= j < i ==> #[trigger] m@[j] == reaches_up(ps, xs, j),
                found == (xs.contains(i as int) || exists|kk: int|
                    0 <= kk < k && reaches_up(ps, xs, #[trigger] ps[i as int][kk] as int)),
            decreases pv@.len() - k,
        {
            let p = pv[k];
            assert(ps[i as int][k as int] < i);
            if m[p] {
                found = true;
            }
            k = k + 1;
        }
        proof {
            if found && !xs.contains(i as int) {
                let kk = choose|kk: int| 0 <= kk < pv@.len() && reaches_up(ps, xs, #[trigger] ps[i as int][kk] as int);
                let r = choose|r: int| xs.contains(r) && is_anc(ps, r, ps[i as int][kk] as int);
                lemma_anc_step(ps, r, i as int, kk);
            }
            if found && xs.contains(i as int) {
                assert(is_anc(ps, i as int, i as int));
            }
            if reaches_up(ps, xs, i as int) && !xs.contains(i as int) {
                let r = choose|r: int| xs.contains(r) && is_anc(ps, r, i as int);
                let kk = choose|kk: int|
                    0 <= kk < ps[i as int].len() && 0 <= #[trigger] ps[i as int][kk] < i
                        && is_anc(ps, r, ps[i as int][kk] as int);
                assert(reaches_up(ps, xs, ps[i as int][kk] as int));
            }
        }
        m.push(found);
        i = i + 1;
    }
    assert(bits(m@) =~= desc_set(ps, xs));
    m
}

/// The direct parents of the members of `x`.
pub open spec fn parents_set(ps: Seq<Seq<usize>>, x: Set<int>) -> Set<int> {
    Set::new(|j: int| exists|c: int| x.contains(c) && #[trigger] is_parent(ps, j, c))
}

/// The direct children of the members of `x`.
pub open spec fn children_set(ps: Seq<Seq<usize>>, x: Set<int>) -> Set<int> {
    Set::new(|c: int| exists|p: int| x.contains(p) && #[trigger] is_parent(ps, p, c))
}

/// The direct parents of the members of `x`.
pub fn parents(g: &CommitGraph, x: &Vec<bool>) -> (r: Vec<bool>)
    requires
        g.wf(),
        x@.len() == g.len(),
    ensures
        r@.len() == g.len(),
        bits(r@) == parents_set(g.ps(), bits(x@)),
{
    let ghost ps = g.ps();
    let ghost xs = bits(x@);
    let n = g.commits.len();
    let mut m = empty_bits(n);
    let mut i: usize = 0;
    while i < n
        invariant
            i <= n,
            n == g.len(),
            ps == g.ps(),
            xs == bits(x@),
            g.wf(),
            x@.len() == n,
            m@.len() == n,
            forall|j: int| 0 <= j < n ==> (#[trigger] m@[j] <==> exists|c: int|
                0 <= c < i && xs.contains(c) && #[trigger] is_parent(ps, j, c)),
        decreases n - i,
    {
        assert(xs.contains(i as int) == x@[i as int]);
        if x[i] {
            let pv = &g.commits[i].parents;
            assert(pv@ == ps[i as int]);
            let mut k: usize = 0;
            while k < pv.len()
                invariant
                    i < n,
                    n == g.len(),
                    ps == g.ps(),
                    xs == bits(x@),
                    g.wf(),
                    x@.len() == n,
                    xs.contains(i as int),
                    pv@ == ps[i as int],
                    m@.len() == n,
                    k <= pv@.len(),
                    forall|j: int| 0 <= j < n ==> (#[trigger] m@[j] <==> (exists|c: int|
                        0 <= c < i && xs.contains(c) && #[trigger] is_parent(ps, j, c))
                        || exists|kk: int| 0 <= kk < k && ps[i as int][kk] == j),
                decreases pv@.len() - k,
            {
                let p = pv[k];
                assert(ps[i as int][k as int] < i);
                m.set(p, true);
                k = k + 1;
            }
        }
        proof {
            assert forall|j: int| 0 <= j < n implies (#[trigger] m@[j] <==> exists|c: int|
                0 <= c < i + 1 && xs.contains(c) && #[trigger] is_parent(ps, j, c)) by {
                if exists|c: int| 0 <= c < i + 1 && xs.contains(c) && #[trigger] is_parent(ps, j, c) {
                    let c = choose|c: int| 0 <= c < i + 1 && xs.contains(c) && #[trigger] is_parent(ps, j, c);
                    if c == i {
                        let kk = choose|kk: int| 0 <= kk < ps[c].len() && ps[c][kk] == j;
                    }
                }
                if x@[i as int] && exists|kk: int| 0 <= kk < ps[i as int].len() && ps[i as int][kk] == j {
                    assert(is_parent(ps, j, i as int));
                }
            }
        }
        i = i + 1;
    }
    proof {
        assert forall|j: int| #[trigger] parents_set(ps, xs).contains(j) implies 0 <= j < n by {
            let c = choose|c: int| xs.contains(c) && #[trigger] is_parent(ps, j, c);
            let kk = choose|kk: int| 0 <= kk < ps[c].len() && ps[c][kk] == j;
            assert(ps[c][kk] < c);
        }
    }
    assert(bits(m@) =~= parents_set(ps, xs));
    m
}

/// The direct children of the members of `x`.
pub fn children(g: &CommitGraph, x: &Vec<bool>) -> (r: Vec<bool>)
    requires
        g.wf(),
        x@.len() == g.len(),
    ensures
        r@.len() == g.len(),
        bits(r@) == children_set(g.ps(), bits(x@)),
{
    let ghost ps = g.ps();
    let ghost xs = bits(x@);
    let n = g.commits.len();
    let mut m: Vec<bool> = Vec::new();
    let mut i: usize = 0;
    while i < n
        invariant
            i <= n,
            n == g.len(),
            ps == g.ps(),
            xs == bits(x@),
            g.wf(),
            x@.len() == n,
            m@.len() == i,
            forall|j: int| 0 <= j < i ==> #[trigger] m@[j] == children_set(ps, xs).contains(j),
        decreases n - i,
    {
        let pv = &g.commits[i].parents;
        assert(pv@ == ps[i as int]);
        let mut found = false;
        let mut k: usize = 0;
        while k < pv.len()
            invariant
                i < n,
                n == g.len(),
                ps == g.ps(),
                xs == bits(x@),
                g.wf(),
                x@.len() == n,
                pv@ == ps[i as int],
                m@.len() == i,
                k <= pv@.len(),
                forall|j: int| 0 <= j < i ==> #[trigger] m@[j] == children_set(ps, xs).contains(j),
                found == exists|kk: int| 0 <= kk < k && xs.contains(#[trigger] ps[i as int][kk] as int),
            decreases pv@.len() - k,
        {
            let p = pv[k];
            assert(ps[i as int][k as int] < i);
            assert(xs.contains(p as int) == x@[p as int]);
            if x[p] {
                found = true;
            }
            k = k + 1;
        }
        proof {
            if found {
                let kk = choose|kk: int| 0 <= kk < k && xs.contains(#[trigger] ps[i as int][kk] as int);
                assert(is_parent(ps, ps[i as int][kk] as int, i as int));
            }
            if children_set(ps, xs).contains(i as int) {
                let p = choose|p: int| xs.contains(p) && #[trigger] is_parent(ps, p, i as int);
                let kk = choose|kk: int| 0 <= kk < ps[i as int].len() && ps[i as int][kk] == p;
                assert(xs.contains(ps[i as int][kk] as int));
            }
        }
        m.push(found);
        i = i + 1;
    }
    assert(bits(m@) =~= children_set(ps, xs));
    m
}

/// Members of either set.
pub fn union_bits(a: &Vec<bool>, b: &Vec<bool>) -> (r: Vec<bool>)
    requires
        a@.len() == b@.len(),
    ensures
        r@.len() == a@.len(),
        bits(r@) == bits(a@).union(bits(b@)),
{
    let mut m: Vec<bool> = Vec::new();
    let mut i: usize = 0;
    while i < a.len()
        invariant
            i <= a@.len(),
            a@.len() == b@.len(),
            m@.len() == i,
            forall|j: int| 0 <= j < i ==> #[trigger] m@[j] == (a@[j] || b@[j]),
        decreases a@.len() - i,
    {
        m.push(a[i] || b[i]);
        i = i + 1;
    }
    assert(bits(m@) =~= bits(a@).union(bits(b@)));
    m
}

/// Members of both sets.
pub fn intersection_bits(a: &Vec<bool>, b: &Vec<bool>) -> (r: Vec<bool>)
    requires
        a@.len() == b@.len(),
    ensures
        r@.len() == a@.len(),
        bits(r@) == bits(a@).intersect(bits(b@)),
{
    let mut m: Vec<bool> = Vec::new();
    let mut i: usize = 0;
    while i < a.len()
        invariant
            i <= a@.len(),
            a@.len() == b@.len(),
            m@.len() == i,
            forall|j: int| 0 <= j < i ==> #[trigger] m@[j] == (a@[j] && b@[j]),
        decreases a@.len() - i,
    {
        m.push(a[i] && b[i]);
        i = i + 1;
    }
    assert(bits(m@) =~= bits(a@).intersect(bits(b@)));
    m
}

/// Members of the first set that are not in the second.
pub fn difference_bits(a: &Vec<bool>, b: &Vec<bool>) -> (r: Vec<bool>)
    requires
        a@.len() == b@.len(),
    ensures
        r@.len() == a@.len(),
        bits(r@) == bits(a@).difference(bits(b@)),
{
    let mut m: Vec<bool> = Vec::new();
    let mut i: usize = 0;
    while i < a.len()
        invariant
            i <= a@.len(),
            a@.len() == b@.len(),
            m@.len() == i,
            forall|j: int| 0 <= j < i ==> #[trigger] m@[j] == (a@[j] && !b@[j]),
        decreases a@.len() - i,
    {
        m.push(a[i] && !b[i]);
        i = i + 1;
    }
    assert(bits(m@) =~= bits(a@).difference(bits(b@)));
    m
}

/// The members of `x` that have no other member of `x` as a descendant.
pub open spec fn heads_set(ps: Seq<Seq<usize>>, x: Set<int>) -> Set<int> {
    Set::new(|i: int| x.contains(i) && !exists|j: int| x.contains(j) && j != i && #[trigger] is_anc(ps, i, j))
}

/// The members of `x` that have no other member of `x` as an ancestor.
pub open spec fn roots_set(ps: Seq<Seq<usize>>, x: Set<int>) -> Set<int> {
    Set::new(|i: int| x.contains(i) && !exists|j: int| x.contains(j) && j != i && #[trigger] is_anc(ps, j, i))
}

proof fn lemma_proper_desc(ps: Seq<Seq<usize>>, x: Set<int>, i: int)
    requires
        topological(ps),
        0 <= i < ps.len(),
    ensures
        (exists|j: int| x.contains(j) && j != i && #[trigger] is_anc(ps, i, j))
            == anc_set(ps, parents_set(ps, x)).contains(i),
{
    if exists|j: int| x.contains(j) && j != i && #[trigger] is_anc(ps, i, j) {
        let j = choose|j: int| x.contains(j) && j != i && #[trigger] is_anc(ps, i, j);
        let k = choose|k: int|
            0 <= k < ps[j].len() && 0 <= #[trigger] ps[j][k] < j && is_anc(ps, i, ps[j][k] as int);
        let p = ps[j][k] as int;
        assert(is_parent(ps, p, j));
        assert(parents_set(ps, x).contains(p));
    }
    if anc_set(ps, parents_set(ps, x)).contains(i) {
        let p = choose|p: int| parents_set(ps, x).contains(p) && is_anc(ps, i, p);
        let c = choose|c: int| x.contains(c) && #[trigger] is_parent(ps, p, c);
        let k = choose|k: int| 0 <= k < ps[c].len() && ps[c][k] == p;
        lemma_anc_step(ps, i, c, k);
        lemma_anc_le(ps, i, p);
        assert(ps[c][k] < c);
    }
}

proof fn lemma_proper_anc(ps: Seq<Seq<usize>>, x: Set<int>, i: int)
    requires
        topological(ps),
        0 <= i < ps.len(),
    ensures
        (exists|j: int| x.contains(j) && j != i && #[trigger] is_anc(ps, j, i))
            == desc_set(ps, children_set(ps, x)).contains(i),
{
    if exists|j: int| x.contains(j) && j != i && #[trigger] is_anc(ps, j, i) {
        let j = choose|j: int| x.contains(j) && j != i && #[trigger] is_anc(ps, j, i);
        let c = lemma_anc_child(ps, j, i);
        assert(children_set(ps, x).contains(c));
    }
    if desc_set(ps, children_set(ps, x)).contains(i) {
        let c = choose|c: int| children_set(ps, x).contains(c) && is_anc(ps, c, i);
        let p = choose|p: int| x.contains(p) && #[trigger] is_parent(ps, p, c);
        let k = choose|k: int| 0 <= k < ps[c].len() && ps[c][k] == p;
        lemma_parent_is_anc(ps, c, k);
        lemma_anc_trans(ps, p, c, i);
        lemma_anc_le(ps, c, i);
        assert(ps[c][k] < c);
    }
}

/// The heads of `x`.
pub fn heads(g: &CommitGraph, x: &Vec<bool>) -> (r: Vec<bool>)
    requires
        g.wf(),
        x@.len() == g.len(),
    ensures
        r@.len() == g.len(),
        bits(r@) == heads_set(g.ps(), bits(x@)),
{
    let p = parents(g, x);
    let a = ancestors(g, &p);
    let r = difference_bits(x, &a);
    proof {
        let ps = g.ps();
        let xs = bits(x@);
        assert forall|i: int| 0 <= i < g.len() implies bits(r@).contains(i) == heads_set(ps, xs).contains(i) by {
            lemma_proper_desc(ps, xs, i);
        }
        assert(bits(r@) =~= heads_set(ps, xs));
    }
    r
}

/// The roots of `x`.
pub fn roots(g: &CommitGraph, x: &Vec<bool>) -> (r: Vec<bool>)
    requires
        g.wf(),
        x@.len() == g.len(),
    ensures
        r@.len() == g.len(),
        bits(r@) == roots_set(g.ps(), bits(x@)),
{
    let c = children(g, x);
    let d = descendants(g, &c);
    let r = difference_bits(x, &d);
    proof {
        let ps = g.ps();
        let xs = bits(x@);
        assert forall|i: int| 0 <= i < g.len() implies bits(r@).contains(i) == roots_set(ps, xs).contains(i) by {
            lemma_proper_anc(ps, xs, i);
        }
        assert(bits(r@) =~= roots_set(ps, xs));
    }
    r
}

/// `i` occurs in `r`.
pub open spec fn lists(r: Seq<usize>, i: int) -> bool {
    exists|a: int| 0 <= a < r.len() && r[a] == i
}

/// Positions strictly decreasing: highest first, none twice.
pub open spec fn descending(r: Seq<usize>) -> bool {
    forall|a: int, b: int| 0 <= a < b < r.len() ==> r[a] > r[b]
}

/// The members of a set, highest position first.
pub fn to_positions(m: &Vec<bool>) -> (r: Vec<usize>)
    ensures
        descending(r@),
        forall|i: int| bits(m@).contains(i) <==> lists(r@, i),
{
    let mut r: Vec<usize> = Vec::new();
    let mut i: usize = m.len();
    while i > 0
        invariant
            i <= m@.len(),
            descending(r@),
            forall|a: int| 0 <= a < r@.len() ==> r@[a] >= i,
            forall|j: int| i <= j < m@.len() ==> (m@[j] <==> lists(r@, j)),
            forall|a: int| 0 <= a < r@.len() ==> r@[a] < m@.len() && m@[r@[a] as int],
        decreases i,
    {
        i = i - 1;
        let ghost r0 = r@;
        if m[i] {
            r.push(i);
            proof {
                assert forall|j: int| i <= j < m@.len() implies (m@[j] <==> lists(r@, j)) by {
                    if lists(r0, j) {
                        let a = choose|a: int| 0 <= a < r0.len() && r0[a] == j;
                        assert(r@[a] == j);
                    }
                    if j == i {
                        assert(r@[r0.len() as int] == j);
                    }
                }
            }
        }
    }
    proof {
        assert forall|j: int| bits(m@).contains(j) <==> lists(r@, j) by {
            if lists(r@, j) {
                let a = choose|a: int| 0 <= a < r@.len() && r@[a] == j;
            }
        }
    }
    r
}

/// The set holding the given positions; positions past `n` are left out.
pub fn from_positions(ids: &Vec<usize>, n: usize) -> (r: Vec<bool>)
    ensures
        r@.len() == n,
        bits(r@) == Set::new(|i: int| 0 <= i < n && lists(ids@, i)),
{
    let mut m = empty_bits(n);
    let mut k: usize = 0;
    while k < ids.len()
        invariant
            k <= ids@.len(),
            m@.len() == n,
            forall|i: int| 0 <= i < n ==> (#[trigger] m@[i] <==> exists|a: int| 0 <= a < k && ids@[a] == i),
        decreases ids@.len() - k,
    {
        let id = ids[k];
        if id < n {
            m.set(id, true);
        }
        k = k + 1;
    }
    proof {
    }
    assert(bits(m@) =~= Set::new(|i: int| 0 <= i < n && lists(ids@, i)));
    m
}

/// Every position of the index.
pub fn all_bits(n: usize) -> (r: Vec<bool>)
    ensures
        r@.len() == n,
        bits(r@) == Set::new(|i: int| 0 <= i < n),
{
    let mut r: Vec<bool> = Vec::new();
    let mut i: usize = 0;
    while i < n
        invariant
            i <= n,
            r@.len() == i,
            forall|j: int| 0 <= j < i ==> #[trigger] r@[j],
        decreases n - i,
    {
        r.push(true);
        i = i + 1;
    }
    assert(bits(r@) =~= Set::new(|i: int| 0 <= i < n));
    r
}

/// The members of `x` with two parents or more.
pub open spec fn merges_set(ps: Seq<Seq<usize>>, x: Set<int>) -> Set<int> {
    Set::new(|i: int| x.contains(i) && 0 <= i < ps.len() && ps[i].len() >= 2)
}

/// The merge commits of `x`.
pub fn merges(g: &CommitGraph, x: &Vec<bool>) -> (r: Vec<bool>)
    requires
        x@.len() == g.len(),
    ensures
        r@.len() == g.len(),
        bits(r@) == merges_set(g.ps(), bits(x@)),
{
    let ghost ps = g.ps();
    let mut m: Vec<bool> = Vec::new();
    let mut i: usize = 0;
    while i < x.len()
        invariant
            i <= x@.len(),
            x@.len() == g.len(),
            ps == g.ps(),
            m@.len() == i,
            forall|j: int| 0 <= j < i ==> #[trigger] m@[j] == (x@[j] && ps[j].len() >= 2),
        decreases x@.len() - i,
    {
        assert(g.commits@[i as int].parents@ == ps[i as int]);
        m.push(x[i] && g.commits[i].parents.len() >= 2);
        i = i + 1;
    }
    assert(bits(m@) =~= merges_set(ps, bits(x@)));
    m
}

/// `a` is a direct parent or a direct child of `b`.
pub open spec fn adjacent(ps: Seq<Seq<usize>>, a: int, b: int) -> bool {
    is_parent(ps, a, b) || is_parent(ps, b, a)
}

/// What `k` rounds of spreading from `s` to adjacent members of `d` reach.
pub open spec fn reach_rounds(ps: Seq<Seq<usize>>, s: Set<int>, d: Set<int>, k: nat) -> Set<int>
    decreases k,
{
    if k == 0 {
        s.intersect(d)
    } else {
        let prev = reach_rounds(ps, s, d, (k - 1) as nat);
        prev.union(d.intersect(parents_set(ps, prev).union(children_set(ps, prev))))
    }
}

/// The least superset of `s ∩ d` closed under moving to a parent or a child
/// that lies in `d`.
pub open spec fn reachable_set(ps: Seq<Seq<usize>>, s: Set<int>, d: Set<int>) -> Set<int> {
    Set::new(|i: int| exists|k: nat| #[trigger] reach_rounds(ps, s, d, k).contains(i))
}

proof fn lemma_rounds_grow(ps: Seq<Seq<usize>>, s: Set<int>, d: Set<int>, j: nat, k: nat)
    requires
        j <= k,
    ensures
        reach_rounds(ps, s, d, j).subset_of(reach_rounds(ps, s, d, k)),
    decreases k - j,
{
    if j < k {
        lemma_rounds_grow(ps, s, d, j, (k - 1) as nat);
    }
}

proof fn lemma_rounds_stable(ps: Seq<Seq<usize>>, s: Set<int>, d: Set<int>, j: nat, k: nat)
    requires
        j <= k,
        reach_rounds(ps, s, d, j + 1) == reach_rounds(ps, s, d, j),
    ensures
        reach_rounds(ps, s, d, k) == reach_rounds(ps, s, d, j),
    decreases k - j,
{
    if j < k {
        lemma_rounds_stable(ps, s, d, j, (k - 1) as nat);
    }
}

/// The number of unset flags.
pub open spec fn count_unset(m: Seq<bool>) -> nat
    decreases m.len(),
{
    if m.len() == 0 {
        0
    } else {
        count_unset(m.drop_last()) + if m.last() { 0nat } else { 1nat }
    }
}

proof fn lemma_count_unset_shrinks(a: Seq<bool>, b: Seq<bool>)
    requires
        a.len() == b.len(),
        forall|i: int| 0 <= i < a.len() && a[i] ==> b[i],
    ensures
        count_unset(b) <= count_unset(a),
        a != b ==> count_unset(b) < count_unset(a),
    decreases a.len(),
{
    if a.len() == 0 {
        assert(a =~= b);
    } else {
        let a0 = a.drop_last();
        let b0 = b.drop_last();
        lemma_count_unset_shrinks(a0, b0);
        if a != b && a0 == b0 {
            assert(a.last() != b.last()) by {
                if a.last() == b.last() {
                    assert forall|i: int| 0 <= i < a.len() implies a[i] == b[i] by {
                        if i < a.len() - 1 {
                            assert(a[i] == a0[i] && b[i] == b0[i]);
                        }
                    }
                    assert(a =~= b);
                }
            }
        }
    }
}

/// Equal flags at every position.
pub fn same_bits(a: &Vec<bool>, b: &Vec<bool>) -> (r: bool)
    requires
        a@.len() == b@.len(),
    ensures
        r == (a@ == b@),
{
    let mut i: usize = 0;
    while i < a.len()
        invariant
            i <= a@.len(),
            a@.len() == b@.len(),
            forall|j: int| 0 <= j < i ==> a@[j] == b@[j],
        decreases a@.len() - i,
    {
        if a[i] != b[i] {
            return false;
        }
        i = i + 1;
    }
    assert(a@ =~= b@);
    true
}

/// The commits of `d` connected to a member of `s ∩ d` by a path that stays
/// inside `d`.
pub fn reachable(g: &CommitGraph, s: &Vec<bool>, d: &Vec<bool>) -> (r: Vec<bool>)
    requires
        g.wf(),
        s@.len() == g.len(),
        d@.len() == g.len(),
    ensures
        r@.len() == g.len(),
        bits(r@) == reachable_set(g.ps(), bits(s@), bits(d@)),
{
    let ghost ps = g.ps();
    let ghost ss = bits(s@);
    let ghost ds = bits(d@);
    let mut m = intersection_bits(s, d);
    let ghost mut k: nat = 0;
    loop
        invariant
            g.wf(),
            ps == g.ps(),
            ss == bits(s@),
            ds == bits(d@),
            s@.len() == g.len(),
            d@.len() == g.len(),
            m@.len() == g.len(),
            bits(m@) == reach_rounds(ps, ss, ds, k),
        decreases count_unset(m@),
    {
        let p = parents(g, &m);
        let c = children(g, &m);
        let pc = union_bits(&p, &c);
        let dpc = intersection_bits(d, &pc);
        let next = union_bits(&m, &dpc);
        assert(bits(next@) == reach_rounds(ps, ss, ds, k + 1));
        if same_bits(&m, &next) {
            proof {
                assert forall|i: int| reachable_set(ps, ss, ds).contains(i) <==> bits(m@).contains(i) by {
                    if reachable_set(ps, ss, ds).contains(i) {
                        let j = choose|j: nat| #[trigger] reach_rounds(ps, ss, ds, j).contains(i);
                        if j <= k {
                            lemma_rounds_grow(ps, ss, ds, j, k);
                        } else {
                            lemma_rounds_stable(ps, ss, ds, k, j);
                        }
                    }
                    if bits(m@).contains(i) {
                        assert(reach_rounds(ps, ss, ds, k).contains(i));
                    }
                }
                assert(bits(m@) =~= reachable_set(ps, ss, ds));
            }
            return m;
        }
        proof {
            assert forall|i: int| 0 <= i < m@.len() && m@[i] implies next@[i] by {
                assert(bits(m@).contains(i));
                assert(bits(next@).contains(i));
            }
            lemma_count_unset_shrinks(m@, next@);
            k = k + 1;
        }
        m = next;
    }
}

/// Commit `j` is more recent than commit `i`: a later committer timestamp,
/// or the same timestamp and a higher position.
pub open spec fn newer(ts: Seq<u64>, j: int, i: int) -> bool {
    ts[j] > ts[i] || (ts[j] == ts[i] && j > i)
}

/// How many members of `x` below position `k` are newer than `i`.
pub open spec fn rank_below(ts: Seq<u64>, x: Set<int>, i: int, k: int) -> nat
    decreases k,
{
    if k <= 0 {
        0
    } else {
        rank_below(ts, x, i, k - 1) + if x.contains(k - 1) && newer(ts, k - 1, i) { 1nat } else { 0nat }
    }
}

/// The `count` most recent members of `x`.
pub open spec fn latest_set(ts: Seq<u64>, x: Set<int>, count: int) -> Set<int> {
    Set::new(|i: int| 0 <= i < ts.len() && x.contains(i) && rank_below(ts, x, i, ts.len() as int) < count)
}

proof fn lemma_rank_bound(ts: Seq<u64>, x: Set<int>, i: int, k: int)
    requires
        0 <= k,
    ensures
        rank_below(ts, x, i, k) <= k,
    decreases k,
{
    if k > 0 {
        lemma_rank_bound(ts, x, i, k - 1);
    }
}

/// The `count` members of `x` with the latest committer timestamps; among
/// equal timestamps the higher position wins.
pub fn latest(g: &CommitGraph, x: &Vec<bool>, count: usize) -> (r: Vec<bool>)
    requires
        g.wf(),
        x@.len() == g.len(),
    ensures
        r@.len() == g.len(),
        bits(r@) == latest_set(timestamps(*g), bits(x@), count as int),
{
    let ghost ts = timestamps(*g);
    let ghost xs = bits(x@);
    let n = g.commits.len();
    let mut m: Vec<bool> = Vec::new();
    let mut i: usize = 0;
    while i < n
        invariant
            i <= n,
            n == g.len(),
            g.wf(),
            ts == timestamps(*g),
            xs == bits(x@),
            x@.len() == n,
            m@.len() == i,
            forall|j: int| 0 <= j < i ==> #[trigger] m@[j] == latest_set(ts, xs, count as int).contains(j),
        decreases n - i,
    {
        let mut keep = false;
        if x[i] {
            let ti = g.commits[i].committer_timestamp;
            let mut rank: usize = 0;
            let mut j: usize = 0;
            while j < n
                invariant
                    i < n,
                    j <= n,
                    n == g.len(),
                    ts == timestamps(*g),
                    xs == bits(x@),
                    x@.len() == n,
                    ti == ts[i as int],
                    rank == rank_below(ts, xs, i as int, j as int),
                decreases n - j,
            {
                proof {
                    lemma_rank_bound(ts, xs, i as int, j as int);
                }
                assert(xs.contains(j as int) == x@[j as int]);
                let tj = g.commits[j].committer_timestamp;
                if x[j] && (tj > ti || (tj == ti && j > i)) {
                    rank = rank + 1;
                }
                j = j + 1;
            }
            keep = rank < count;
        }
        assert(xs.contains(i as int) == x@[i as int]);
        m.push(keep);
        i = i + 1;
    }
    assert(bits(m@) =~= latest_set(ts, xs, count as int));
    m
}

} // verus!
