//! Laws of the revset algebra, stated over what the expressions denote.
use vstd::prelude::*;
use crate::dag::{anc_set, descending, heads_set, lists, roots_set};
use crate::expr::{sem, RevsetCommitRef, RevsetExpression};
use crate::graph::{is_anc, lemma_anc_le, CommitGraph};
use crate::resolver::{first_error, meaning};
use crate::symbol::{id_matches, id_result, is_hex, prefix_lookup, symbol_result, PrefixLookup, ResolutionFailure};
use crate::view::RepoView;

verus! {

/// `a` is an ancestor of `b` exactly when `a` is a member of the ancestors
/// of `b`.
pub proof fn law_ancestor_membership(g: CommitGraph, a: usize, b: usize, ids: Vec<usize>, e: RevsetExpression)
    requires
        a < g.len(),
        b < g.len(),
        ids@ == seq![b],
        e == RevsetExpression::Ancestors(Box::new(RevsetExpression::Commits(ids))),
    ensures
        is_anc(g.ps(), a as int, b as int) == sem(g, e).contains(a as int),
{
    let x = sem(g, RevsetExpression::Commits(ids));
    assert(ids@[0] == b);
    assert(lists(ids@, b as int) && x.contains(b as int));
    assert(sem(g, e) == anc_set(g.ps(), x));
    if sem(g, e).contains(a as int) {
        let h = choose|h: int| x.contains(h) && is_anc(g.ps(), a as int, h);
        let k = choose|k: int| 0 <= k < ids@.len() && ids@[k] == h;
        assert(h == b);
    }
}

/// The range from `a` to `b` is the ancestors of `b` less the ancestors of
/// `a`; with an empty `a` it is all ancestors of `b`.
pub proof fn law_range(g: CommitGraph, a: RevsetExpression, b: RevsetExpression, e: RevsetExpression)
    requires
        e == (RevsetExpression::Range { roots: Box::new(a), heads: Box::new(b) }),
    ensures
        sem(g, e) == sem(g, RevsetExpression::Ancestors(Box::new(b))).difference(
            sem(g, RevsetExpression::Ancestors(Box::new(a))),
        ),
        a is Empty ==> sem(g, e) == sem(g, RevsetExpression::Ancestors(Box::new(b))),
{
    if a is Empty {
        assert(sem(g, a) == Set::<int>::empty());
        assert(anc_set(g.ps(), Set::empty()) =~= Set::empty());
        assert(sem(g, e) =~= sem(g, RevsetExpression::Ancestors(Box::new(b))));
    }
}

/// The dag range from `r` to `h` is the ancestors of `h` that are also
/// descendants of `r`.
pub proof fn law_dag_range(g: CommitGraph, r: RevsetExpression, h: RevsetExpression, e: RevsetExpression)
    requires
        e == (RevsetExpression::DagRange { roots: Box::new(r), heads: Box::new(h) }),
    ensures
        sem(g, e) == sem(g, RevsetExpression::Ancestors(Box::new(h))).intersect(
            sem(g, RevsetExpression::Descendants(Box::new(r))),
        ),
{
}

/// Connecting a set is the dag range from its roots to its heads.
pub proof fn law_connected(g: CommitGraph, x: RevsetExpression, e: RevsetExpression)
    requires
        e == RevsetExpression::Connected(Box::new(x)),
    ensures
        sem(g, e) == sem(g, RevsetExpression::DagRange {
            roots: Box::new(RevsetExpression::Roots(Box::new(x))),
            heads: Box::new(RevsetExpression::Heads(Box::new(x))),
        }),
{
    let r = RevsetExpression::Roots(Box::new(x));
    let h = RevsetExpression::Heads(Box::new(x));
    assert(sem(g, r) == roots_set(g.ps(), sem(g, x)));
    assert(sem(g, h) == heads_set(g.ps(), sem(g, x)));
}

/// Taking the heads twice gives the heads; likewise the roots.
pub proof fn law_heads_roots_idempotent(g: CommitGraph, x: RevsetExpression)
    ensures
        sem(g, RevsetExpression::Heads(Box::new(RevsetExpression::Heads(Box::new(x)))))
            == sem(g, RevsetExpression::Heads(Box::new(x))),
        sem(g, RevsetExpression::Roots(Box::new(RevsetExpression::Roots(Box::new(x)))))
            == sem(g, RevsetExpression::Roots(Box::new(x))),
{
    let ps = g.ps();
    let s = sem(g, x);
    assert(sem(g, RevsetExpression::Heads(Box::new(x))) == heads_set(ps, s));
    assert(sem(g, RevsetExpression::Roots(Box::new(x))) == roots_set(ps, s));
    assert(heads_set(ps, heads_set(ps, s)) =~= heads_set(ps, s));
    assert(roots_set(ps, roots_set(ps, s)) =~= roots_set(ps, s));
}

/// The empty set has no ancestors, no heads, and connects nothing.
pub proof fn law_empty(g: CommitGraph)
    ensures
        sem(g, RevsetExpression::Ancestors(Box::new(RevsetExpression::Empty))) == Set::<int>::empty(),
        sem(g, RevsetExpression::Heads(Box::new(RevsetExpression::Empty))) == Set::<int>::empty(),
        sem(g, RevsetExpression::Connected(Box::new(RevsetExpression::Empty))) == Set::<int>::empty(),
{
    let ps = g.ps();
    let none = Set::<int>::empty();
    assert(sem(g, RevsetExpression::Empty) == none);
    assert(anc_set(ps, none) =~= none);
    assert(heads_set(ps, none) =~= none);
    assert(anc_set(ps, heads_set(ps, none)) =~= none);
    assert(sem(g, RevsetExpression::Connected(Box::new(RevsetExpression::Empty))) =~= none);
}

/// Once a prefix of a commit id matches that commit alone, every longer
/// prefix of it, up to the full id, resolves to exactly that commit.
pub proof fn law_unique_prefix(g: CommitGraph, v: RepoView, c: int, k: int, k2: int)
    requires
        0 <= c < g.len(),
        is_hex(g.commits@[c].commit_id@),
        1 <= k <= k2 <= g.commits@[c].commit_id@.len(),
        forall|j: int| #[trigger] id_matches(g, g.commits@[c].commit_id@.subrange(0, k), j, false) ==> j == c,
    ensures
        symbol_result(g, v, g.commits@[c].commit_id@.subrange(0, k2)) == Ok::<Seq<usize>, ResolutionFailure>(seq![c as usize]),
{
    let id = g.commits@[c].commit_id@;
    let shorter = id.subrange(0, k);
    let longer = id.subrange(0, k2);
    assert(longer.subrange(0, k) =~= shorter);
    assert(id.subrange(0, longer.len() as int) =~= longer);
    assert(id_matches(g, longer, c, false));
    assert forall|j: int| #[trigger] id_matches(g, longer, j, false) implies j == c by {
        let idj = g.commits@[j].commit_id@;
        assert(idj.subrange(0, k) =~= idj.subrange(0, k2).subrange(0, k));
        assert(id_matches(g, shorter, j, false));
    }
    assert(is_hex(longer));
    assert(prefix_lookup(g, longer, false) == PrefixLookup::Unique(c));
    assert(id_result(g, longer) == Some(Ok::<Seq<usize>, ResolutionFailure>(seq![c as usize])));
}

/// A hex prefix that two commit ids share is ambiguous, and `present` does
/// not hide that.
pub proof fn law_ambiguous_prefix(g: CommitGraph, v: RepoView, p: Seq<u8>, a: int, b: int, s: Vec<u8>, e: RevsetExpression)
    requires
        is_hex(p),
        a != b,
        id_matches(g, p, a, false),
        id_matches(g, p, b, false),
        forall|j: int| #[trigger] id_matches(g, p, j, false) ==> j == a || j == b,
        s@ == p,
        e == RevsetExpression::Present(Box::new(RevsetExpression::CommitRef(RevsetCommitRef::Symbol(s)))),
    ensures
        symbol_result(g, v, p) == Err::<Seq<usize>, ResolutionFailure>(ResolutionFailure::AmbiguousCommitIdPrefix(p)),
        first_error(g, v, e) == Some(ResolutionFailure::AmbiguousCommitIdPrefix(p)),
{
    assert(!(prefix_lookup(g, p, false) is NoMatch));
    assert(!(prefix_lookup(g, p, false) is Unique)) by {
        if exists|i: int| #[trigger] id_matches(g, p, i, false)
            && forall|j: int| #[trigger] id_matches(g, p, j, false) ==> j == i {
            let i = choose|i: int| #[trigger] id_matches(g, p, i, false)
                && forall|j: int| #[trigger] id_matches(g, p, j, false) ==> j == i;
            assert(a == i && b == i);
        }
    }
    let x = RevsetExpression::CommitRef(RevsetCommitRef::Symbol(s));
    assert(first_error(g, v, x) == Some(ResolutionFailure::AmbiguousCommitIdPrefix(p)));
}

/// In an evaluated sequence a commit comes no later than its ancestors: if
/// the commit at `j` is an ancestor of the commit at `i`, then `i <= j`.
pub proof fn law_descendants_first(g: CommitGraph, r: Seq<usize>, i: int, j: int)
    requires
        descending(r),
        0 <= i < r.len(),
        0 <= j < r.len(),
        is_anc(g.ps(), r[j] as int, r[i] as int),
    ensures
        i <= j,
{
    lemma_anc_le(g.ps(), r[j] as int, r[i] as int);
}

/// A revision spelled as such a prefix names exactly that commit, so
/// resolving it as a single commit (a move target) gives that commit.
pub proof fn law_unique_prefix_revision(g: CommitGraph, v: RepoView, c: int, k: int, k2: int, s: Vec<u8>, e: RevsetExpression)
    requires
        g.wf(),
        0 <= c < g.len(),
        is_hex(g.commits@[c].commit_id@),
        1 <= k <= k2 <= g.commits@[c].commit_id@.len(),
        forall|j: int| #[trigger] id_matches(g, g.commits@[c].commit_id@.subrange(0, k), j, false) ==> j == c,
        s@ == g.commits@[c].commit_id@.subrange(0, k2),
        e == RevsetExpression::CommitRef(RevsetCommitRef::Symbol(s)),
    ensures
        first_error(g, v, e) is None,
        meaning(g, v, e) == set![c],
{
    law_unique_prefix(g, v, c, k, k2);
    assert(seq![c as usize][0] == c);
    assert(meaning(g, v, e) =~= set![c]);
}

/// The default commits of a push are the range from the remote's bookmarks
/// to the working copy, met with the bookmarked commits.
pub proof fn law_default_push_is_range(g: CommitGraph, v: RepoView, remote: Vec<u8>, w: usize, ws: Vec<usize>,
    bp: crate::pattern::StringPattern, e: RevsetExpression)
    requires
        forall|s: Seq<u8>| bp.spec_matches(s),
        ws@ == seq![w],
        e == (RevsetExpression::Range {
            roots: Box::new(RevsetExpression::CommitRef(RevsetCommitRef::RemoteBookmarks {
                bookmark_pattern: bp,
                remote_pattern: crate::pattern::StringPattern::Exact(remote),
                state: None,
            })),
            heads: Box::new(RevsetExpression::Commits(ws)),
        }),
    ensures
        first_error(g, v, e) is None,
        meaning(g, v, e).intersect(crate::push::local_ids_set(g, v)) == crate::push::default_push_set(g, v, remote@, w),
{
    let roots = RevsetExpression::CommitRef(RevsetCommitRef::RemoteBookmarks {
        bookmark_pattern: bp,
        remote_pattern: crate::pattern::StringPattern::Exact(remote),
        state: None,
    });
    let heads = RevsetExpression::Commits(ws);
    assert(first_error(g, v, roots) is None);
    assert(first_error(g, v, heads) is None);
    let hs = meaning(g, v, roots);
    assert forall|x: int| hs.contains(x) <==> crate::push::remote_heads_set(g, v, remote@).contains(x) by {
        if crate::push::remote_heads_set(g, v, remote@).contains(x) {
            let j = choose|j: int| 0 <= j < v.remote_bookmarks@.len()
                && v.remote_bookmarks@[j].remote@ == remote@
                && #[trigger] lists(crate::refs::target_ids(v.remote_bookmarks@[j].remote_ref.target), x);
            assert(bp.spec_matches(v.remote_bookmarks@[j].name@));
        }
    }
    assert(hs =~= crate::push::remote_heads_set(g, v, remote@));
    assert forall|i: int| i == w implies lists(ws@, i) by {
        assert(ws@[0] == w);
    }
    assert(meaning(g, v, heads) =~= crate::push::single_commit(w as int, g.len() as int));
    assert(meaning(g, v, e).intersect(crate::push::local_ids_set(g, v)) =~= crate::push::default_push_set(g, v, remote@, w));
}

} // verus!
