//! The ancestry index: every commit has a position, and every parent of a
//! commit stands at a lower position than the commit itself.
use vstd::prelude::*;

verus! {

/// One commit as the index sees it.
pub struct CommitData {
    /// Hex digits of the content-derived commit id.
    pub commit_id: Vec<u8>,
    /// Hex digits of the change id, stable across rewrites.
    pub change_id: Vec<u8>,
    /// Positions of the parents, in order.
    pub parents: Vec<usize>,
    /// Committer timestamp, in milliseconds since the epoch.
    pub committer_timestamp: u64,
    /// The commit description.
    pub description: Vec<u8>,
    /// Author timestamp, in milliseconds since the epoch.
    pub author_timestamp: u64,
    pub author_name: Vec<u8>,
    pub author_email: Vec<u8>,
    pub committer_name: Vec<u8>,
    pub committer_email: Vec<u8>,
    /// The commit's tree holds an unresolved conflict.
    pub has_conflict: bool,
}

/// The commits of a repository, indexed by position. Position 0 is the root.
pub struct CommitGraph {
    pub commits: Vec<CommitData>,
}

/// The parent lists of all commits, by position.
pub open spec fn parent_lists(g: CommitGraph) -> Seq<Seq<usize>> {
    Seq::new(g.commits@.len(), |i: int| g.commits@[i].parents@)
}

/// The committer timestamps of all commits, by position.
pub open spec fn timestamps(g: CommitGraph) -> Seq<u64> {
    Seq::new(g.commits@.len(), |i: int| g.commits@[i].committer_timestamp)
}

/// Every parent position is below its child's position.
pub open spec fn topological(ps: Seq<Seq<usize>>) -> bool {
    forall|i: int, k: int| 0 <= i < ps.len() && 0 <= k < ps[i].len() ==> #[trigger] ps[i][k] < i
}

/// `p` is a direct parent of `c`.
pub open spec fn is_parent(ps: Seq<Seq<usize>>, p: int, c: int) -> bool {
    0 <= c < ps.len() && exists|k: int| 0 <= k < ps[c].len() && ps[c][k] == p
}

/// `a` is `b` or a transitive parent of `b`.
pub open spec fn is_anc(ps: Seq<Seq<usize>>, a: int, b: int) -> bool
    decreases b,
{
    a == b || (0 <= b < ps.len() && exists|k: int|
        0 <= k < ps[b].len() && 0 <= #[trigger] ps[b][k] < b && is_anc(ps, a, ps[b][k] as int))
}

/// A parent is an ancestor of its child.
pub proof fn lemma_parent_is_anc(ps: Seq<Seq<usize>>, c: int, k: int)
    requires
        topological(ps),
        0 <= c < ps.len(),
        0 <= k < ps[c].len(),
    ensures
        is_anc(ps, ps[c][k] as int, c),
{
    let p = ps[c][k] as int;
    assert(is_anc(ps, p, p));
    assert(0 <= ps[c][k] < c);
}

/// Extending an ancestry chain by one parent step.
pub proof fn lemma_anc_step(ps: Seq<Seq<usize>>, a: int, c: int, k: int)
    requires
        topological(ps),
        0 <= c < ps.len(),
        0 <= k < ps[c].len(),
        is_anc(ps, a, ps[c][k] as int),
    ensures
        is_anc(ps, a, c),
{
    assert(0 <= ps[c][k] < c);
}

/// An ancestor never stands above its descendant.
pub proof fn lemma_anc_le(ps: Seq<Seq<usize>>, a: int, b: int)
    requires
        is_anc(ps, a, b),
    ensures
        a <= b,
    decreases b,
{
    if a != b {
        let k = choose|k: int|
            0 <= k < ps[b].len() && 0 <= #[trigger] ps[b][k] < b && is_anc(ps, a, ps[b][k] as int);
        lemma_anc_le(ps, a, ps[b][k] as int);
    }
}

/// Ancestry is transitive.
pub proof fn lemma_anc_trans(ps: Seq<Seq<usize>>, a: int, b: int, c: int)
    requires
        is_anc(ps, a, b),
        is_anc(ps, b, c),
    ensures
        is_anc(ps, a, c),
    decreases c,
{
    if b != c {
        let k = choose|k: int|
            0 <= k < ps[c].len() && 0 <= #[trigger] ps[c][k] < c && is_anc(ps, b, ps[c][k] as int);
        lemma_anc_trans(ps, a, b, ps[c][k] as int);
    }
}

/// A proper ancestor `a` of `b` is a parent of some ancestor-or-self of `b`.
pub proof fn lemma_anc_child(ps: Seq<Seq<usize>>, a: int, b: int) -> (c: int)
    requires
        is_anc(ps, a, b),
        a != b,
    ensures
        is_parent(ps, a, c),
        is_anc(ps, c, b),
        a < c,
    decreases b,
{
    let k = choose|k: int|
        0 <= k < ps[b].len() && 0 <= #[trigger] ps[b][k] < b && is_anc(ps, a, ps[b][k] as int);
    let p = ps[b][k] as int;
    if a == p {
        assert(is_anc(ps, b, b));
        b
    } else {
        let c = lemma_anc_child(ps, a, p);
        assert(is_anc(ps, c, b));
        c
    }
}

impl CommitGraph {
    pub open spec fn ps(self) -> Seq<Seq<usize>> {
        parent_lists(self)
    }

    pub open spec fn len(self) -> nat {
        self.commits@.len()
    }

    /// The graph is a valid ancestry index.
    pub open spec fn wf(self) -> bool {
        &&& topological(self.ps())
        &&& self.commits@.len() < usize::MAX
    }

    /// Whether every parent stands below its child, so that the graph is a
    /// valid ancestry index.
    pub fn is_valid(&self) -> (r: bool)
        ensures
            r == self.wf(),
    {
        let n = self.commits.len();
        if n == usize::MAX {
            return false;
        }
        let mut i: usize = 0;
        while i < n
            invariant
                i <= n,
                n == self.len(),
                forall|c: int, k: int| 0 <= c < i && 0 <= k < self.ps()[c].len() ==> #[trigger] self.ps()[c][k] < c,
            decreases n - i,
        {
            let pv = &self.commits[i].parents;
            assert(pv@ == self.ps()[i as int]);
            let mut k: usize = 0;
            while k < pv.len()
                invariant
                    i < n,
                    n == self.len(),
                    k <= pv@.len(),
                    pv@ == self.ps()[i as int],
                    forall|c: int, kk: int| 0 <= c < i && 0 <= kk < self.ps()[c].len() ==> #[trigger] self.ps()[c][kk] < c,
                    forall|kk: int| 0 <= kk < k ==> #[trigger] self.ps()[i as int][kk] < i,
                decreases pv@.len() - k,
            {
                if pv[k] >= i {
                    return false;
                }
                k = k + 1;
            }
            i = i + 1;
        }
        true
    }
}

} // verus!
