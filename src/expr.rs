//! Revset expressions, what each denotes, and their evaluation.
use vstd::prelude::*;
use crate::bfs::{flags, limited_set, limited_walk};
use crate::dag::{all_bits, anc_set, ancestors, bits, children, children_set, desc_set, descendants, descending, difference_bits, empty_bits, from_positions, heads, heads_set, intersection_bits, latest, latest_set, lists, merges, merges_set, parents, parents_set, reachable, reachable_set, roots, roots_set, to_positions, union_bits};
use crate::graph::{is_anc, timestamps, CommitGraph};
use crate::pattern::{lower, to_lower, StringPattern};
use crate::refs::{bytes_eq, RemoteRefState};

verus! {

/// A leaf that names commits through the view.
pub enum RevsetCommitRef {
    /// A bare symbol: a commit or change id prefix, a tag, a bookmark or a
    /// raw ref name.
    Symbol(Vec<u8>),
    /// `name@remote`.
    RemoteSymbol { name: Vec<u8>, remote: Vec<u8> },
    /// The commit checked out in the named workspace.
    WorkingCopy(Vec<u8>),
    /// The commits checked out in all workspaces.
    WorkingCopies,
    /// Local bookmarks whose names match.
    Bookmarks(StringPattern),
    /// Remote bookmarks whose names and remotes match, optionally of one
    /// tracking state.
    RemoteBookmarks { bookmark_pattern: StringPattern, remote_pattern: StringPattern, state: Option<RemoteRefState> },
    /// Tags whose names match.
    Tags(StringPattern),
    /// All raw refs of the foreign VCS.
    GitRefs,
    /// The foreign VCS's HEAD.
    GitHead,
}

/// A condition on a single commit.
pub enum RevsetFilterPredicate {
    /// The description matches the pattern.
    Description(StringPattern),
    /// The committer timestamp is at or after the bound.
    CommitterAfter(u64),
    /// The committer timestamp is before the bound.
    CommitterBefore(u64),
    /// The author timestamp is at or after the bound.
    AuthorAfter(u64),
    /// The author timestamp is before the bound.
    AuthorBefore(u64),
    /// The author's name or email matches the pattern.
    Author(StringPattern),
    /// The committer's name or email matches the pattern.
    Committer(StringPattern),
    /// The author's email is this email, ignoring ASCII case.
    Mine(Vec<u8>),
    /// The commit's tree holds an unresolved conflict.
    Conflict,
}

/// A revset expression.
pub enum RevsetExpression {
    /// No commit at all.
    Empty,
    All,
    /// The root commit, at position 0.
    Root,
    VisibleHeads,
    CommitRef(RevsetCommitRef),
    /// Commits given by position.
    Commits(Vec<usize>),
    Ancestors(Box<RevsetExpression>),
    Descendants(Box<RevsetExpression>),
    /// The first `limit` ancestors met by a breadth-first walk from `heads`,
    /// the heads counted first.
    AncestorsLimited { heads: Box<RevsetExpression>, limit: usize },
    /// The first `limit` descendants met by a breadth-first walk from
    /// `roots`, the roots counted first.
    DescendantsLimited { roots: Box<RevsetExpression>, limit: usize },
    Parents(Box<RevsetExpression>),
    Children(Box<RevsetExpression>),
    /// Ancestors of `heads` that are descendants of `roots`.
    DagRange { roots: Box<RevsetExpression>, heads: Box<RevsetExpression> },
    /// Ancestors of `heads` that are not ancestors of `roots`.
    Range { roots: Box<RevsetExpression>, heads: Box<RevsetExpression> },
    Heads(Box<RevsetExpression>),
    Roots(Box<RevsetExpression>),
    Connected(Box<RevsetExpression>),
    Reachable { sources: Box<RevsetExpression>, domain: Box<RevsetExpression> },
    Latest { candidates: Box<RevsetExpression>, count: usize },
    Merges(Box<RevsetExpression>),
    Filter(RevsetFilterPredicate),
    /// The inner expression, where a symbol that names nothing yields no
    /// commit instead of an error.
    Present(Box<RevsetExpression>),
    Union(Box<RevsetExpression>, Box<RevsetExpression>),
    Intersection(Box<RevsetExpression>, Box<RevsetExpression>),
    Difference(Box<RevsetExpression>, Box<RevsetExpression>),
}

/// Every position of `g`.
pub open spec fn all_set(g: CommitGraph) -> Set<int> {
    Set::new(|i: int| 0 <= i < g.len())
}

/// Whether commit `i` satisfies `p`.
pub open spec fn holds(g: CommitGraph, p: RevsetFilterPredicate, i: int) -> bool {
    match p {
        RevsetFilterPredicate::Description(pat) => pat.spec_matches(g.commits@[i].description@),
        RevsetFilterPredicate::CommitterAfter(t) => g.commits@[i].committer_timestamp >= t,
        RevsetFilterPredicate::CommitterBefore(t) => g.commits@[i].committer_timestamp < t,
        RevsetFilterPredicate::AuthorAfter(t) => g.commits@[i].author_timestamp >= t,
        RevsetFilterPredicate::AuthorBefore(t) => g.commits@[i].author_timestamp < t,
        RevsetFilterPredicate::Author(pat) =>
            pat.spec_matches(g.commits@[i].author_name@) || pat.spec_matches(g.commits@[i].author_email@),
        RevsetFilterPredicate::Committer(pat) =>
            pat.spec_matches(g.commits@[i].committer_name@) || pat.spec_matches(g.commits@[i].committer_email@),
        RevsetFilterPredicate::Mine(email) => lower(g.commits@[i].author_email@) == lower(email@),
        RevsetFilterPredicate::Conflict => g.commits@[i].has_conflict,
    }
}

/// No leaf of `e` needs the view: it can be evaluated on the index alone.
pub open spec fn is_resolved(e: RevsetExpression) -> bool
    decreases e,
{
    match e {
        RevsetExpression::CommitRef(_) => false,
        RevsetExpression::Present(_) => false,
        RevsetExpression::Ancestors(x) => is_resolved(*x),
        RevsetExpression::Descendants(x) => is_resolved(*x),
        RevsetExpression::AncestorsLimited { heads, limit } => is_resolved(*heads),
        RevsetExpression::DescendantsLimited { roots, limit } => is_resolved(*roots),
        RevsetExpression::Parents(x) => is_resolved(*x),
        RevsetExpression::Children(x) => is_resolved(*x),
        RevsetExpression::DagRange { roots, heads } => is_resolved(*roots) && is_resolved(*heads),
        RevsetExpression::Range { roots, heads } => is_resolved(*roots) && is_resolved(*heads),
        RevsetExpression::Heads(x) => is_resolved(*x),
        RevsetExpression::Roots(x) => is_resolved(*x),
        RevsetExpression::Connected(x) => is_resolved(*x),
        RevsetExpression::Reachable { sources, domain } => is_resolved(*sources) && is_resolved(*domain),
        RevsetExpression::Latest { candidates, count } => is_resolved(*candidates),
        RevsetExpression::Merges(x) => is_resolved(*x),
        RevsetExpression::Union(a, b) => is_resolved(*a) && is_resolved(*b),
        RevsetExpression::Intersection(a, b) => is_resolved(*a) && is_resolved(*b),
        RevsetExpression::Difference(a, b) => is_resolved(*a) && is_resolved(*b),
        _ => true,
    }
}

/// The set of positions that a resolved expression denotes in `g`.
pub open spec fn sem(g: CommitGraph, e: RevsetExpression) -> Set<int>
    decreases e,
{
    let ps = g.ps();
    match e {
        RevsetExpression::Empty => Set::empty(),
        RevsetExpression::All => all_set(g),
        RevsetExpression::Root => Set::new(|i: int| i == 0 && 0 < g.len()),
        RevsetExpression::VisibleHeads => heads_set(ps, all_set(g)),
        RevsetExpression::CommitRef(_) => Set::empty(),
        RevsetExpression::Commits(ids) => Set::new(|i: int| 0 <= i < g.len() && lists(ids@, i)),
        RevsetExpression::Ancestors(x) => anc_set(ps, sem(g, *x)),
        RevsetExpression::Descendants(x) => desc_set(ps, sem(g, *x)),
        RevsetExpression::AncestorsLimited { heads, limit } =>
            limited_set(ps, flags(sem(g, *heads), g.len()), true, limit as int),
        RevsetExpression::DescendantsLimited { roots, limit } =>
            limited_set(ps, flags(sem(g, *roots), g.len()), false, limit as int),
        RevsetExpression::Parents(x) => parents_set(ps, sem(g, *x)),
        RevsetExpression::Children(x) => children_set(ps, sem(g, *x)),
        RevsetExpression::DagRange { roots, heads } =>
            anc_set(ps, sem(g, *heads)).intersect(desc_set(ps, sem(g, *roots))),
        RevsetExpression::Range { roots, heads } =>
            anc_set(ps, sem(g, *heads)).difference(anc_set(ps, sem(g, *roots))),
        RevsetExpression::Heads(x) => heads_set(ps, sem(g, *x)),
        RevsetExpression::Roots(x) => roots_set(ps, sem(g, *x)),
        RevsetExpression::Connected(x) =>
            anc_set(ps, heads_set(ps, sem(g, *x))).intersect(desc_set(ps, roots_set(ps, sem(g, *x)))),
        RevsetExpression::Reachable { sources, domain } =>
            reachable_set(ps, sem(g, *sources), sem(g, *domain)),
        RevsetExpression::Latest { candidates, count } =>
            latest_set(timestamps(g), sem(g, *candidates), count as int),
        RevsetExpression::Merges(x) => merges_set(ps, sem(g, *x)),
        RevsetExpression::Filter(p) => Set::new(|i: int| 0 <= i < g.len() && holds(g, p, i)),
        RevsetExpression::Present(x) => sem(g, *x),
        RevsetExpression::Union(a, b) => sem(g, *a).union(sem(g, *b)),
        RevsetExpression::Intersection(a, b) => sem(g, *a).intersect(sem(g, *b)),
        RevsetExpression::Difference(a, b) => sem(g, *a).difference(sem(g, *b)),
    }
}

/// The commits satisfying a predicate.
fn filter_bits(g: &CommitGraph, p: &RevsetFilterPredicate) -> (r: Vec<bool>)
    ensures
        r@.len() == g.len(),
        bits(r@) == Set::new(|i: int| 0 <= i < g.len() && holds(*g, *p, i)),
{
    let mut m: Vec<bool> = Vec::new();
    let mut i: usize = 0;
    while i < g.commits.len()
        invariant
            i <= g.len(),
            m@.len() == i,
            forall|j: int| 0 <= j < i ==> #[trigger] m@[j] == holds(*g, *p, j),
        decreases g.len() - i,
    {
        let c = &g.commits[i];
        let v = match p {
            RevsetFilterPredicate::Description(pat) => pat.matches(&c.description),
            RevsetFilterPredicate::CommitterAfter(t) => c.committer_timestamp >= *t,
            RevsetFilterPredicate::CommitterBefore(t) => c.committer_timestamp < *t,
            RevsetFilterPredicate::AuthorAfter(t) => c.author_timestamp >= *t,
            RevsetFilterPredicate::AuthorBefore(t) => c.author_timestamp < *t,
            RevsetFilterPredicate::Author(pat) => pat.matches(&c.author_name) || pat.matches(&c.author_email),
            RevsetFilterPredicate::Committer(pat) => pat.matches(&c.committer_name) || pat.matches(&c.committer_email),
            RevsetFilterPredicate::Mine(email) => bytes_eq(&to_lower(&c.author_email), &to_lower(email)),
            RevsetFilterPredicate::Conflict => c.has_conflict,
        };
        m.push(v);
        i = i + 1;
    }
    assert(bits(m@) =~= Set::new(|i: int| 0 <= i < g.len() && holds(*g, *p, i)));
    m
}

/// Evaluates a resolved expression to one flag per position.
pub fn evaluate_bits(g: &CommitGraph, e: &RevsetExpression) -> (r: Vec<bool>)
    requires
        g.wf(),
        is_resolved(*e),
    ensures
        r@.len() == g.len(),
        bits(r@) == sem(*g, *e),
    decreases e,
{
    let n = g.commits.len();
    match e {
        RevsetExpression::Empty => empty_bits(n),
        RevsetExpression::All => all_bits(n),
        RevsetExpression::Root => {
            let mut m = empty_bits(n);
            if n > 0 {
                m.set(0, true);
            }
            assert(bits(m@) =~= sem(*g, *e));
            m
        },
        RevsetExpression::VisibleHeads => {
            let a = all_bits(n);
            heads(g, &a)
        },
        RevsetExpression::CommitRef(_) => empty_bits(n),
        RevsetExpression::Commits(ids) => from_positions(ids, n),
        RevsetExpression::Ancestors(x) => {
            let v = evaluate_bits(g, x);
            ancestors(g, &v)
        },
        RevsetExpression::Descendants(x) => {
            let v = evaluate_bits(g, x);
            descendants(g, &v)
        },
        RevsetExpression::AncestorsLimited { heads, limit } => {
            let v = evaluate_bits(g, heads);
            assert(v@ =~= flags(sem(*g, **heads), g.len()));
            limited_walk(g, &v, true, *limit)
        },
        RevsetExpression::DescendantsLimited { roots, limit } => {
            let v = evaluate_bits(g, roots);
            assert(v@ =~= flags(sem(*g, **roots), g.len()));
            limited_walk(g, &v, false, *limit)
        },
        RevsetExpression::Parents(x) => {
            let v = evaluate_bits(g, x);
            parents(g, &v)
        },
        RevsetExpression::Children(x) => {
            let v = evaluate_bits(g, x);
            children(g, &v)
        },
        RevsetExpression::DagRange { roots, heads } => {
            let h = evaluate_bits(g, heads);
            let r = evaluate_bits(g, roots);
            let a = ancestors(g, &h);
            let d = descendants(g, &r);
            intersection_bits(&a, &d)
        },
        RevsetExpression::Range { roots, heads } => {
            let h = evaluate_bits(g, heads);
            let r = evaluate_bits(g, roots);
            let a = ancestors(g, &h);
            let b = ancestors(g, &r);
            difference_bits(&a, &b)
        },
        RevsetExpression::Heads(x) => {
            let v = evaluate_bits(g, x);
            heads(g, &v)
        },
        RevsetExpression::Roots(x) => {
            let v = evaluate_bits(g, x);
            roots(g, &v)
        },
        RevsetExpression::Connected(x) => {
            let v = evaluate_bits(g, x);
            let h = heads(g, &v);
            let r = roots(g, &v);
            let a = ancestors(g, &h);
            let d = descendants(g, &r);
            intersection_bits(&a, &d)
        },
        RevsetExpression::Reachable { sources, domain } => {
            let s = evaluate_bits(g, sources);
            let d = evaluate_bits(g, domain);
            reachable(g, &s, &d)
        },
        RevsetExpression::Latest { candidates, count } => {
            let v = evaluate_bits(g, candidates);
            latest(g, &v, *count)
        },
        RevsetExpression::Merges(x) => {
            let v = evaluate_bits(g, x);
            merges(g, &v)
        },
        RevsetExpression::Filter(p) => filter_bits(g, p),
        RevsetExpression::Present(x) => empty_bits(n),
        RevsetExpression::Union(a, b) => {
            let va = evaluate_bits(g, a);
            let vb = evaluate_bits(g, b);
            union_bits(&va, &vb)
        },
        RevsetExpression::Intersection(a, b) => {
            let va = evaluate_bits(g, a);
            let vb = evaluate_bits(g, b);
            intersection_bits(&va, &vb)
        },
        RevsetExpression::Difference(a, b) => {
            let va = evaluate_bits(g, a);
            let vb = evaluate_bits(g, b);
            difference_bits(&va, &vb)
        },
    }
}

/// An evaluated revset: its members can be listed any number of times, in
/// the same order, and tested one by one.
pub struct Revset {
    members: Vec<bool>,
}

impl Revset {
    /// The positions of the members.
    pub closed spec fn set(&self) -> Set<int> {
        bits(self.members@)
    }

    /// Whether the commit at `pos` is a member.
    pub fn contains(&self, pos: usize) -> (r: bool)
        ensures
            r == self.set().contains(pos as int),
    {
        pos < self.members.len() && self.members[pos]
    }

    /// The members, highest position first, each once.
    pub fn positions(&self) -> (r: Vec<usize>)
        ensures
            descending(r@),
            forall|i: int| self.set().contains(i) <==> lists(r@, i),
    {
        to_positions(&self.members)
    }
}

/// Evaluates a resolved expression against the index.
pub fn evaluate(g: &CommitGraph, e: &RevsetExpression) -> (r: Revset)
    requires
        g.wf(),
        is_resolved(*e),
    ensures
        r.set() == sem(*g, *e),
{
    Revset { members: evaluate_bits(g, e) }
}

/// The positions of a resolved expression's commits, highest first, each
/// once: a child always comes before its ancestors.
pub fn evaluate_to_positions(g: &CommitGraph, e: &RevsetExpression) -> (r: Vec<usize>)
    requires
        g.wf(),
        is_resolved(*e),
    ensures
        descending(r@),
        forall|i: int| sem(*g, *e).contains(i) <==> lists(r@, i),
{
    let m = evaluate_bits(g, e);
    to_positions(&m)
}

/// Whether `a` is `b` or one of its ancestors.
pub fn is_ancestor(g: &CommitGraph, a: usize, b: usize) -> (r: bool)
    requires
        g.wf(),
    ensures
        r == is_anc(g.ps(), a as int, b as int),
{
    let n = g.commits.len();
    if b >= n {
        if a == b {
            return true;
        }
        return false;
    }
    let mut m = empty_bits(n);
    m.set(b, true);
    let ghost x = bits(m@);
    assert(x =~= Set::new(|i: int| i == b));
    let anc = ancestors(g, &m);
    if a >= n {
        proof {
            if is_anc(g.ps(), a as int, b as int) {
                crate::graph::lemma_anc_le(g.ps(), a as int, b as int);
            }
        }
        return false;
    }
    assert(bits(anc@).contains(a as int) == anc@[a as int]);
    assert(x.contains(b as int));
    anc[a]
}

} // verus!
