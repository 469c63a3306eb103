//! The resolver pass: every leaf that names commits through the view is
//! replaced by the list of those commits.
use vstd::prelude::*;
use crate::bfs::{flags, limited_set};
use crate::dag::{anc_set, children_set, desc_set, descending, heads_set, latest_set, lists, merges_set, parents_set, reachable_set, roots_set};
use crate::expr::{all_set, evaluate, evaluate_to_positions, is_resolved, sem, Revset, RevsetCommitRef, RevsetExpression};
use crate::graph::{timestamps, CommitGraph};
use crate::pattern::StringPattern;
use crate::refs::{target_ids, RemoteRefState};
use crate::symbol::{remote_symbol_result, resolve_remote_symbol, resolve_symbol, symbol_result, ResolutionFailure, RevsetResolutionError};
use crate::view::{find_wc, ids_matching, lookup_wc, matching_ids, push_all, NamedTarget, RemoteBookmark, RepoView, WorkspaceCommit};

verus! {

/// What a leaf names: a set of positions, or why it names nothing.
pub enum RefOutcome {
    Found(Set<int>),
    Failed(ResolutionFailure),
}

/// The positions listed in `ids`.
pub open spec fn listed(ids: Seq<usize>) -> Set<int> {
    Set::new(|i: int| lists(ids, i))
}

/// `git`, the remote that stands for the local copy of a foreign VCS's refs.
pub open spec fn git_remote() -> Seq<u8> {
    seq![103u8, 105u8, 116u8]
}

/// The remote bookmark `b` is selected by the name and remote patterns and
/// the state. Unless the remote pattern is exact, the `git` remote is left
/// out.
pub open spec fn remote_selected(b: RemoteBookmark, name: StringPattern, remote: StringPattern, state: Option<RemoteRefState>) -> bool {
    &&& name.spec_matches(b.name@)
    &&& remote.spec_matches(b.remote@)
    &&& (remote is Exact || b.remote@ != git_remote())
    &&& match state {
        Some(st) => b.remote_ref.state == st,
        None => true,
    }
}

/// Some commit of the refs in `s` is `c`.
pub open spec fn any_ids(s: Seq<NamedTarget>, c: int) -> bool {
    exists|i: int| 0 <= i < s.len() && #[trigger] lists(target_ids(s[i].target), c)
}

/// What a leaf names in the view.
pub open spec fn ref_outcome(g: CommitGraph, v: RepoView, c: RevsetCommitRef) -> RefOutcome {
    match c {
        RevsetCommitRef::Symbol(s) => match symbol_result(g, v, s@) {
            Ok(ids) => RefOutcome::Found(listed(ids)),
            Err(f) => RefOutcome::Failed(f),
        },
        RevsetCommitRef::RemoteSymbol { name, remote } => match remote_symbol_result(v, name@, remote@) {
            Ok(ids) => RefOutcome::Found(listed(ids)),
            Err(f) => RefOutcome::Failed(f),
        },
        RevsetCommitRef::WorkingCopy(ws) => match lookup_wc(v.wc_commits@, ws@) {
            Some(c) => RefOutcome::Found(set![c as int]),
            None => RefOutcome::Failed(ResolutionFailure::WorkspaceMissingWorkingCopy(ws@)),
        },
        RevsetCommitRef::WorkingCopies => RefOutcome::Found(Set::new(|c: int|
            exists|i: int| 0 <= i < v.wc_commits@.len() && #[trigger] v.wc_commits@[i].commit == c)),
        RevsetCommitRef::Bookmarks(p) => RefOutcome::Found(Set::new(|c: int| matching_ids(v.local_bookmarks@, p, c))),
        RevsetCommitRef::Tags(p) => RefOutcome::Found(Set::new(|c: int| matching_ids(v.tags@, p, c))),
        RevsetCommitRef::RemoteBookmarks { bookmark_pattern, remote_pattern, state } => RefOutcome::Found(Set::new(|c: int|
            exists|i: int| 0 <= i < v.remote_bookmarks@.len()
                && remote_selected(v.remote_bookmarks@[i], bookmark_pattern, remote_pattern, state)
                && #[trigger] lists(target_ids(v.remote_bookmarks@[i].remote_ref.target), c))),
        RevsetCommitRef::GitRefs => RefOutcome::Found(Set::new(|c: int| any_ids(v.git_refs@, c))),
        RevsetCommitRef::GitHead => RefOutcome::Found(listed(target_ids(v.git_head))),
    }
}

/// The first error met when resolving `e` depth first, left to right.
pub open spec fn first_error(g: CommitGraph, v: RepoView, e: RevsetExpression) -> Option<ResolutionFailure>
    decreases e,
{
    match e {
        RevsetExpression::CommitRef(c) => match ref_outcome(g, v, c) {
            RefOutcome::Failed(f) => Some(f),
            RefOutcome::Found(_) => None,
        },
        RevsetExpression::Present(x) => match first_error(g, v, *x) {
            Some(ResolutionFailure::NoSuchRevision(_)) => None,
            other => other,
        },
        RevsetExpression::Ancestors(x) => first_error(g, v, *x),
        RevsetExpression::Descendants(x) => first_error(g, v, *x),
        RevsetExpression::AncestorsLimited { heads, limit } => first_error(g, v, *heads),
        RevsetExpression::DescendantsLimited { roots, limit } => first_error(g, v, *roots),
        RevsetExpression::Parents(x) => first_error(g, v, *x),
        RevsetExpression::Children(x) => first_error(g, v, *x),
        RevsetExpression::Heads(x) => first_error(g, v, *x),
        RevsetExpression::Roots(x) => first_error(g, v, *x),
        RevsetExpression::Connected(x) => first_error(g, v, *x),
        RevsetExpression::Merges(x) => first_error(g, v, *x),
        RevsetExpression::Latest { candidates, count } => first_error(g, v, *candidates),
        RevsetExpression::DagRange { roots, heads } => either_error(first_error(g, v, *roots), first_error(g, v, *heads)),
        RevsetExpression::Range { roots, heads } => either_error(first_error(g, v, *roots), first_error(g, v, *heads)),
        RevsetExpression::Reachable { sources, domain } => either_error(first_error(g, v, *sources), first_error(g, v, *domain)),
        RevsetExpression::Union(a, b) => either_error(first_error(g, v, *a), first_error(g, v, *b)),
        RevsetExpression::Intersection(a, b) => either_error(first_error(g, v, *a), first_error(g, v, *b)),
        RevsetExpression::Difference(a, b) => either_error(first_error(g, v, *a), first_error(g, v, *b)),
        _ => None,
    }
}

/// The first of two errors.
pub open spec fn either_error(a: Option<ResolutionFailure>, b: Option<ResolutionFailure>) -> Option<ResolutionFailure> {
    match a {
        Some(f) => Some(f),
        None => b,
    }
}

/// The positions that `e` names in view `v` and graph `g`.
pub open spec fn meaning(g: CommitGraph, v: RepoView, e: RevsetExpression) -> Set<int>
    decreases e,
{
    let ps = g.ps();
    match e {
        RevsetExpression::CommitRef(c) => match ref_outcome(g, v, c) {
            RefOutcome::Found(s) => s.intersect(all_set(g)),
            RefOutcome::Failed(_) => Set::empty(),
        },
        RevsetExpression::Present(x) => match first_error(g, v, *x) {
            Some(ResolutionFailure::NoSuchRevision(_)) => Set::empty(),
            _ => meaning(g, v, *x),
        },
        RevsetExpression::Ancestors(x) => anc_set(ps, meaning(g, v, *x)),
        RevsetExpression::Descendants(x) => desc_set(ps, meaning(g, v, *x)),
        RevsetExpression::AncestorsLimited { heads, limit } =>
            limited_set(ps, flags(meaning(g, v, *heads), g.len()), true, limit as int),
        RevsetExpression::DescendantsLimited { roots, limit } =>
            limited_set(ps, flags(meaning(g, v, *roots), g.len()), false, limit as int),
        RevsetExpression::Parents(x) => parents_set(ps, meaning(g, v, *x)),
        RevsetExpression::Children(x) => children_set(ps, meaning(g, v, *x)),
        RevsetExpression::DagRange { roots, heads } =>
            anc_set(ps, meaning(g, v, *heads)).intersect(desc_set(ps, meaning(g, v, *roots))),
        RevsetExpression::Range { roots, heads } =>
            anc_set(ps, meaning(g, v, *heads)).difference(anc_set(ps, meaning(g, v, *roots))),
        RevsetExpression::Heads(x) => heads_set(ps, meaning(g, v, *x)),
        RevsetExpression::Roots(x) => roots_set(ps, meaning(g, v, *x)),
        RevsetExpression::Connected(x) =>
            anc_set(ps, heads_set(ps, meaning(g, v, *x))).intersect(desc_set(ps, roots_set(ps, meaning(g, v, *x)))),
        RevsetExpression::Reachable { sources, domain } =>
            reachable_set(ps, meaning(g, v, *sources), meaning(g, v, *domain)),
        RevsetExpression::Latest { candidates, count } =>
            latest_set(timestamps(g), meaning(g, v, *candidates), count as int),
        RevsetExpression::Merges(x) => merges_set(ps, meaning(g, v, *x)),
        RevsetExpression::Union(a, b) => meaning(g, v, *a).union(meaning(g, v, *b)),
        RevsetExpression::Intersection(a, b) => meaning(g, v, *a).intersect(meaning(g, v, *b)),
        RevsetExpression::Difference(a, b) => meaning(g, v, *a).difference(meaning(g, v, *b)),
        _ => sem(g, e),
    }
}

/// The commits checked out in all workspaces.
fn working_copy_ids(s: &Vec<WorkspaceCommit>) -> (r: Vec<usize>)
    ensures
        listed(r@) == Set::new(|c: int| exists|i: int| 0 <= i < s@.len() && #[trigger] s@[i].commit == c),
{
    let mut out: Vec<usize> = Vec::new();
    let mut i: usize = 0;
    while i < s.len()
        invariant
            i <= s@.len(),
            out@.len() == i,
            forall|k: int| 0 <= k < i ==> out@[k] == #[trigger] s@[k].commit,
        decreases s@.len() - i,
    {
        out.push(s[i].commit);
        i = i + 1;
    }
    proof {
        assert forall|c: int| listed(out@).contains(c) <==> exists|i: int| 0 <= i < s@.len() && #[trigger] s@[i].commit == c by {
            if listed(out@).contains(c) {
                let k = choose|k: int| 0 <= k < out@.len() && out@[k] == c;
                assert(s@[k].commit == c);
            }
            if exists|i: int| 0 <= i < s@.len() && #[trigger] s@[i].commit == c {
                let k = choose|k: int| 0 <= k < s@.len() && #[trigger] s@[k].commit == c;
                assert(out@[k] == c);
            }
        }
    }
    assert(listed(out@) =~= Set::new(|c: int| exists|i: int| 0 <= i < s@.len() && #[trigger] s@[i].commit == c));
    out
}

/// Whether `remote` is `git`.
pub fn is_git_remote(remote: &Vec<u8>) -> (r: bool)
    ensures
        r == (remote@ == git_remote()),
{
    let result = remote.len() == 3 && remote[0] == 103u8 && remote[1] == 105u8 && remote[2] == 116u8;
    proof {
        if result {
            assert(remote@ =~= git_remote());
        }
    }
    result
}

/// The commits of the remote bookmarks selected by the patterns and state.
fn remote_bookmark_ids(
    s: &Vec<RemoteBookmark>,
    name: &StringPattern,
    remote: &StringPattern,
    state: &Option<RemoteRefState>,
) -> (r: Vec<usize>)
    ensures
        forall|c: int| lists(r@, c) <==> exists|i: int| 0 <= i < s@.len()
            && remote_selected(s@[i], *name, *remote, *state)
            && #[trigger] lists(target_ids(s@[i].remote_ref.target), c),
{
    let mut out: Vec<usize> = Vec::new();
    let mut i: usize = 0;
    while i < s.len()
        invariant
            i <= s@.len(),
            forall|c: int| lists(out@, c) <==> exists|k: int| 0 <= k < i
                && remote_selected(s@[k], *name, *remote, *state)
                && #[trigger] lists(target_ids(s@[k].remote_ref.target), c),
        decreases s@.len() - i,
    {
        let ghost before = out@;
        let b = &s[i];
        let selected = name.matches(&b.name) && remote.matches(&b.remote)
            && (remote.is_exact() || !is_git_remote(&b.remote))
            && match state {
                Some(st) => b.remote_ref.state == *st,
                None => true,
            };
        assert(selected == remote_selected(s@[i as int], *name, *remote, *state));
        if selected {
            let ids = b.remote_ref.target.added_ids();
            push_all(&mut out, &ids);
        }
        proof {
            assert forall|c: int| lists(out@, c) <==> exists|k: int| 0 <= k < i + 1
                && remote_selected(s@[k], *name, *remote, *state)
                && #[trigger] lists(target_ids(s@[k].remote_ref.target), c) by {
                let ids = target_ids(s@[i as int].remote_ref.target);
                if lists(out@, c) {
                    let a = choose|a: int| 0 <= a < out@.len() && out@[a] == c;
                    if a < before.len() {
                        assert(lists(before, c));
                    } else {
                        assert(ids[a - before.len()] == c);
                        assert(lists(ids, c));
                    }
                }
                if exists|k: int| 0 <= k < i + 1
                    && remote_selected(s@[k], *name, *remote, *state)
                    && #[trigger] lists(target_ids(s@[k].remote_ref.target), c) {
                    let k = choose|k: int| 0 <= k < i + 1
                        && remote_selected(s@[k], *name, *remote, *state)
                        && #[trigger] lists(target_ids(s@[k].remote_ref.target), c);
                    if k < i {
                        assert(lists(before, c));
                        let a = choose|a: int| 0 <= a < before.len() && before[a] == c;
                        assert(out@[a] == c);
                    } else {
                        let b2 = choose|b2: int| 0 <= b2 < ids.len() && ids[b2] == c;
                        assert(out@[before.len() + b2] == c);
                    }
                }
            }
        }
        i = i + 1;
    }
    out
}

/// The commits of all refs in `s`.
fn all_ref_ids(s: &Vec<NamedTarget>) -> (r: Vec<usize>)
    ensures
        listed(r@) == Set::new(|c: int| any_ids(s@, c)),
{
    let p = StringPattern::everything();
    let r = ids_matching(s, &p);
    proof {
        assert forall|c: int| listed(r@).contains(c) <==> any_ids(s@, c) by {
            if any_ids(s@, c) {
                let i = choose|i: int| 0 <= i < s@.len() && #[trigger] lists(target_ids(s@[i].target), c);
                assert(p.spec_matches(s@[i].name@));
                assert(matching_ids(s@, p, c));
            }
        }
    }
    assert(listed(r@) =~= Set::new(|c: int| any_ids(s@, c)));
    r
}

/// Resolves one leaf to the commits it names.
pub fn resolve_commit_ref(g: &CommitGraph, v: &RepoView, c: &RevsetCommitRef) -> (r: Result<Vec<usize>, RevsetResolutionError>)
    ensures
        match ref_outcome(*g, *v, *c) {
            RefOutcome::Found(s) => r is Ok && listed(r->Ok_0@) == s,
            RefOutcome::Failed(f) => r is Err && r->Err_0@ == f,
        },
{
    match c {
        RevsetCommitRef::Symbol(s) => resolve_symbol(g, v, s),
        RevsetCommitRef::RemoteSymbol { name, remote } => resolve_remote_symbol(v, name, remote),
        RevsetCommitRef::WorkingCopy(ws) => match find_wc(&v.wc_commits, ws) {
            Some(pos) => {
                let mut ids: Vec<usize> = Vec::new();
                ids.push(pos);
                proof {
                    assert forall|i: int| listed(ids@).contains(i) <==> set![pos as int].contains(i) by {
                        if i == pos {
                            assert(ids@[0] == pos);
                        }
                    }
                }
                assert(listed(ids@) =~= set![pos as int]);
                Ok(ids)
            },
            None => Err(RevsetResolutionError::WorkspaceMissingWorkingCopy(crate::refs::copy_bytes(ws))),
        },
        RevsetCommitRef::WorkingCopies => Ok(working_copy_ids(&v.wc_commits)),
        RevsetCommitRef::Bookmarks(p) => {
            let r = ids_matching(&v.local_bookmarks, p);
            assert(listed(r@) =~= Set::new(|c: int| matching_ids(v.local_bookmarks@, *p, c)));
            Ok(r)
        },
        RevsetCommitRef::Tags(p) => {
            let r = ids_matching(&v.tags, p);
            assert(listed(r@) =~= Set::new(|c: int| matching_ids(v.tags@, *p, c)));
            Ok(r)
        },
        RevsetCommitRef::RemoteBookmarks { bookmark_pattern, remote_pattern, state } => {
            let r = remote_bookmark_ids(&v.remote_bookmarks, bookmark_pattern, remote_pattern, state);
            assert(listed(r@) =~= Set::new(|c: int|
                exists|i: int| 0 <= i < v.remote_bookmarks@.len()
                    && remote_selected(v.remote_bookmarks@[i], *bookmark_pattern, *remote_pattern, *state)
                    && #[trigger] lists(target_ids(v.remote_bookmarks@[i].remote_ref.target), c)));
            Ok(r)
        },
        RevsetCommitRef::GitRefs => Ok(all_ref_ids(&v.git_refs)),
        RevsetCommitRef::GitHead => Ok(v.git_head.added_ids()),
    }
}

/// Replaces every leaf of `e` that names commits through the view by the
/// commits it names, leaving the algebra as it is. Fails on the first error,
/// except that `present` turns a name that names nothing into no commit.
pub fn resolve(g: &CommitGraph, v: &RepoView, e: RevsetExpression) -> (r: Result<RevsetExpression, RevsetResolutionError>)
    ensures
        match first_error(*g, *v, e) {
            None => r matches Ok(x) && is_resolved(x) && sem(*g, x) == meaning(*g, *v, e),
            Some(f) => r matches Err(err) && err@ == f,
        },
    decreases e,
{
    let ghost e0 = e;
    match e {
        RevsetExpression::CommitRef(c) => match resolve_commit_ref(g, v, &c) {
            Ok(ids) => {
                let x = RevsetExpression::Commits(ids);
                assert(sem(*g, x) =~= meaning(*g, *v, e0));
                Ok(x)
            },
            Err(err) => Err(err),
        },
        RevsetExpression::Present(x) => match resolve(g, v, *x) {
            Ok(rx) => Ok(rx),
            Err(err) => {
                if let RevsetResolutionError::NoSuchRevision { name, candidates } = err {
                    let none = RevsetExpression::Empty;
                    assert(sem(*g, none) =~= meaning(*g, *v, e0));
                    Ok(none)
                } else {
                    Err(err)
                }
            },
        },
        RevsetExpression::AncestorsLimited { heads, limit } => match resolve(g, v, *heads) {
            Ok(rx) => Ok(RevsetExpression::AncestorsLimited { heads: Box::new(rx), limit }),
            Err(err) => Err(err),
        },
        RevsetExpression::DescendantsLimited { roots, limit } => match resolve(g, v, *roots) {
            Ok(rx) => Ok(RevsetExpression::DescendantsLimited { roots: Box::new(rx), limit }),
            Err(err) => Err(err),
        },
        RevsetExpression::Latest { candidates, count } => match resolve(g, v, *candidates) {
            Ok(rx) => Ok(RevsetExpression::Latest { candidates: Box::new(rx), count }),
            Err(err) => Err(err),
        },
        RevsetExpression::Ancestors(x) => match resolve(g, v, *x) {
            Ok(rx) => Ok(RevsetExpression::Ancestors(Box::new(rx))),
            Err(err) => Err(err),
        },
        RevsetExpression::Descendants(x) => match resolve(g, v, *x) {
            Ok(rx) => Ok(RevsetExpression::Descendants(Box::new(rx))),
            Err(err) => Err(err),
        },
        RevsetExpression::Parents(x) => match resolve(g, v, *x) {
            Ok(rx) => Ok(RevsetExpression::Parents(Box::new(rx))),
            Err(err) => Err(err),
        },
        RevsetExpression::Children(x) => match resolve(g, v, *x) {
            Ok(rx) => Ok(RevsetExpression::Children(Box::new(rx))),
            Err(err) => Err(err),
        },
        RevsetExpression::Heads(x) => match resolve(g, v, *x) {
            Ok(rx) => Ok(RevsetExpression::Heads(Box::new(rx))),
            Err(err) => Err(err),
        },
        RevsetExpression::Roots(x) => match resolve(g, v, *x) {
            Ok(rx) => Ok(RevsetExpression::Roots(Box::new(rx))),
            Err(err) => Err(err),
        },
        RevsetExpression::Connected(x) => match resolve(g, v, *x) {
            Ok(rx) => Ok(RevsetExpression::Connected(Box::new(rx))),
            Err(err) => Err(err),
        },
        RevsetExpression::Merges(x) => match resolve(g, v, *x) {
            Ok(rx) => Ok(RevsetExpression::Merges(Box::new(rx))),
            Err(err) => Err(err),
        },
        RevsetExpression::DagRange { roots, heads } => match resolve(g, v, *roots) {
            Ok(ra) => match resolve(g, v, *heads) {
                Ok(rb) => Ok(RevsetExpression::DagRange { roots: Box::new(ra), heads: Box::new(rb) }),
                Err(err) => Err(err),
            },
            Err(err) => Err(err),
        },
        RevsetExpression::Range { roots, heads } => match resolve(g, v, *roots) {
            Ok(ra) => match resolve(g, v, *heads) {
                Ok(rb) => Ok(RevsetExpression::Range { roots: Box::new(ra), heads: Box::new(rb) }),
                Err(err) => Err(err),
            },
            Err(err) => Err(err),
        },
        RevsetExpression::Reachable { sources, domain } => match resolve(g, v, *sources) {
            Ok(ra) => match resolve(g, v, *domain) {
                Ok(rb) => Ok(RevsetExpression::Reachable { sources: Box::new(ra), domain: Box::new(rb) }),
                Err(err) => Err(err),
            },
            Err(err) => Err(err),
        },
        RevsetExpression::Union(a, b) => match resolve(g, v, *a) {
            Ok(ra) => match resolve(g, v, *b) {
                Ok(rb) => Ok(RevsetExpression::Union(Box::new(ra), Box::new(rb))),
                Err(err) => Err(err),
            },
            Err(err) => Err(err),
        },
        RevsetExpression::Intersection(a, b) => match resolve(g, v, *a) {
            Ok(ra) => match resolve(g, v, *b) {
                Ok(rb) => Ok(RevsetExpression::Intersection(Box::new(ra), Box::new(rb))),
                Err(err) => Err(err),
            },
            Err(err) => Err(err),
        },
        RevsetExpression::Difference(a, b) => match resolve(g, v, *a) {
            Ok(ra) => match resolve(g, v, *b) {
                Ok(rb) => Ok(RevsetExpression::Difference(Box::new(ra), Box::new(rb))),
                Err(err) => Err(err),
            },
            Err(err) => Err(err),
        },
        RevsetExpression::Empty => Ok(RevsetExpression::Empty),
        RevsetExpression::All => Ok(RevsetExpression::All),
        RevsetExpression::Root => Ok(RevsetExpression::Root),
        RevsetExpression::VisibleHeads => Ok(RevsetExpression::VisibleHeads),
        RevsetExpression::Commits(ids) => Ok(RevsetExpression::Commits(ids)),
        RevsetExpression::Filter(p) => Ok(RevsetExpression::Filter(p)),
    }
}

/// Resolves a query against the view and evaluates it against the index:
/// the commits' positions, highest first, each once.
pub fn evaluate_query(g: &CommitGraph, v: &RepoView, e: RevsetExpression) -> (r: Result<Vec<usize>, RevsetResolutionError>)
    requires
        g.wf(),
    ensures
        match first_error(*g, *v, e) {
            None => r matches Ok(ids) && descending(ids@)
                && forall|i: int| meaning(*g, *v, e).contains(i) <==> lists(ids@, i),
            Some(f) => r matches Err(err) && err@ == f,
        },
{
    match resolve(g, v, e) {
        Ok(x) => Ok(evaluate_to_positions(g, &x)),
        Err(err) => Err(err),
    }
}

/// Resolves and evaluates a query, for membership tests.
pub fn evaluate_revset(g: &CommitGraph, v: &RepoView, e: RevsetExpression) -> (r: Result<Revset, RevsetResolutionError>)
    requires
        g.wf(),
    ensures
        match first_error(*g, *v, e) {
            None => r matches Ok(rs) && rs.set() == meaning(*g, *v, e),
            Some(f) => r matches Err(err) && err@ == f,
        },
{
    match resolve(g, v, e) {
        Ok(x) => Ok(evaluate(g, &x)),
        Err(err) => Err(err),
    }
}

/// Why a revision did not name exactly one commit.
pub enum SingleRevisionError {
    Resolution(RevsetResolutionError),
    /// The revision names no commit.
    Empty,
    /// The revision names more than one commit: the first two.
    TooMany(usize, usize),
}

/// Resolves a revision that must name exactly one commit, such as the
/// target of a bookmark move.
pub fn resolve_single_rev(g: &CommitGraph, v: &RepoView, e: RevsetExpression) -> (r: Result<usize, SingleRevisionError>)
    requires
        g.wf(),
    ensures
        first_error(*g, *v, e) matches Some(f) ==> (r matches Err(SingleRevisionError::Resolution(err)) && err@ == f),
        first_error(*g, *v, e) is None ==> {
            let s = meaning(*g, *v, e);
            &&& r matches Ok(c) ==> s.contains(c as int) && forall|d: int| #[trigger] s.contains(d) ==> d == c
            &&& r matches Err(SingleRevisionError::Empty) ==> forall|d: int| !#[trigger] s.contains(d)
            &&& r matches Err(SingleRevisionError::TooMany(a, b)) ==> a != b && s.contains(a as int) && s.contains(b as int)
            &&& !(r matches Err(SingleRevisionError::Resolution(_)))
        },
{
    match evaluate_query(g, v, e) {
        Ok(ids) => {
            if ids.len() == 0 {
                proof {
                    assert forall|d: int| !#[trigger] meaning(*g, *v, e).contains(d) by {
                        if meaning(*g, *v, e).contains(d) {
                            assert(lists(ids@, d));
                        }
                    }
                }
                Err(SingleRevisionError::Empty)
            } else if ids.len() == 1 {
                assert(lists(ids@, ids@[0] as int));
                proof {
                    assert forall|d: int| #[trigger] meaning(*g, *v, e).contains(d) implies d == ids@[0] by {
                        assert(lists(ids@, d));
                    }
                }
                Ok(ids[0])
            } else {
                assert(lists(ids@, ids@[0] as int));
                assert(lists(ids@, ids@[1] as int));
                Err(SingleRevisionError::TooMany(ids[0], ids[1]))
            }
        },
        Err(err) => Err(SingleRevisionError::Resolution(err)),
    }
}

} // verus!
