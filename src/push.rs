//! Deciding what pushing a bookmark to a remote would do.
use vstd::prelude::*;
use crate::bookmark::{lists_misses, pattern_error, CommandError};
use crate::dag::{anc_set, bits, descending, lists};
use crate::expr::{is_ancestor, Revset, RevsetCommitRef, RevsetExpression};
use crate::graph::{is_anc, CommitGraph};
use crate::pattern::StringPattern;
use crate::refs::{bytes_eq, copy_bytes, copy_positions, target_ids, RefTarget, RemoteRef, RemoteRefState};
use crate::resolver::{evaluate_revset, first_error, meaning, remote_selected};
use crate::symbol::{has_name, RevsetResolutionError};
use crate::view::{matching_ids, NamedTarget, RemoteBookmark, RepoView};

verus! {

/// A local bookmark and the same bookmark on one remote.
pub struct LocalAndRemoteRef {
    pub local_target: RefTarget,
    pub remote_ref: RemoteRef,
}

/// Where the remote bookmark is and where it would be after the push.
#[derive(PartialEq, Eq, Structural, Clone, Copy, Debug)]
pub struct BranchPushUpdate {
    pub old_target: Option<usize>,
    pub new_target: Option<usize>,
}

/// What pushing a bookmark would do.
pub enum BranchPushAction {
    Update(BranchPushUpdate),
    AlreadyMatches,
    LocalConflicted,
    RemoteConflicted,
    RemoteUntracked,
}

/// Two targets hold the same commits in the same shape.
pub open spec fn same_target(a: RefTarget, b: RefTarget) -> bool {
    match (a, b) {
        (RefTarget::Absent, RefTarget::Absent) => true,
        (RefTarget::Normal(x), RefTarget::Normal(y)) => x == y,
        (RefTarget::Conflicted { adds: a1, removes: r1 }, RefTarget::Conflicted { adds: a2, removes: r2 }) =>
            a1@ == a2@ && r1@ == r2@,
        _ => false,
    }
}

/// The commit of a normal target.
pub open spec fn normal_of(t: RefTarget) -> Option<usize> {
    match t {
        RefTarget::Normal(c) => Some(c),
        _ => None,
    }
}

/// What pushing the local target over the remote ref would do.
pub open spec fn push_action(t: LocalAndRemoteRef) -> BranchPushAction {
    let local = t.local_target;
    let remote = t.remote_ref.target;
    if same_target(local, remote) {
        BranchPushAction::AlreadyMatches
    } else if local is Conflicted {
        BranchPushAction::LocalConflicted
    } else if remote is Conflicted {
        BranchPushAction::RemoteConflicted
    } else if !(remote is Absent) && t.remote_ref.state != RemoteRefState::Tracking {
        BranchPushAction::RemoteUntracked
    } else {
        BranchPushAction::Update(BranchPushUpdate { old_target: normal_of(remote), new_target: normal_of(local) })
    }
}

/// Lists with equal contents.
fn positions_eq(a: &Vec<usize>, b: &Vec<usize>) -> (r: bool)
    ensures
        r == (a@ == b@),
{
    if a.len() != b.len() {
        return false;
    }
    let mut i: usize = 0;
    while i < a.len()
        invariant
            i <= a@.len(),
            a@.len() == b@.len(),
            forall|j: int| 0 <= j < i ==> a@[j] == b@[j],
        decreases a@.len() - i,
    {
        if a[i] != b[i] {
            return false;
        }
        i = i + 1;
    }
    assert(a@ =~= b@);
    true
}

/// Whether two targets are the same.
pub fn targets_equal(a: &RefTarget, b: &RefTarget) -> (r: bool)
    ensures
        r == same_target(*a, *b),
{
    match (a, b) {
        (RefTarget::Absent, RefTarget::Absent) => true,
        (RefTarget::Normal(x), RefTarget::Normal(y)) => *x == *y,
        (RefTarget::Conflicted { adds: a1, removes: r1 }, RefTarget::Conflicted { adds: a2, removes: r2 }) =>
            positions_eq(a1, a2) && positions_eq(r1, r2),
        _ => false,
    }
}

/// Classifies pushing a bookmark: nothing to do, a conflict or an untracked
/// remote bookmark that stops it, or the update to make.
pub fn classify_bookmark_push_action(t: &LocalAndRemoteRef) -> (r: BranchPushAction)
    ensures
        r == push_action(*t),
{
    let local = &t.local_target;
    let remote = &t.remote_ref.target;
    if targets_equal(local, remote) {
        BranchPushAction::AlreadyMatches
    } else if let RefTarget::Conflicted { .. } = local {
        BranchPushAction::LocalConflicted
    } else if let RefTarget::Conflicted { .. } = remote {
        BranchPushAction::RemoteConflicted
    } else if remote.is_present() && !t.remote_ref.is_tracking() {
        BranchPushAction::RemoteUntracked
    } else {
        BranchPushAction::Update(BranchPushUpdate { old_target: remote.as_normal(), new_target: local.as_normal() })
    }
}

/// Why a bookmark will not be pushed.
#[derive(PartialEq, Eq, Structural, Clone, Copy, Debug)]
pub enum RejectionKind {
    LocalConflicted,
    RemoteConflicted,
    RemoteUntracked,
}

/// A bookmark that will not be pushed, and why.
pub struct RejectedBranchUpdateReason {
    pub kind: RejectionKind,
    pub bookmark: Vec<u8>,
    pub remote: Vec<u8>,
}

/// Decides the push of one bookmark: `Ok(None)` when the remote already
/// matches, the update to make, or why the bookmark is refused.
pub fn classify_bookmark_update(bookmark_name: &Vec<u8>, remote_name: &Vec<u8>, targets: &LocalAndRemoteRef)
    -> (r: Result<Option<BranchPushUpdate>, RejectedBranchUpdateReason>)
    ensures
        match push_action(*targets) {
            BranchPushAction::AlreadyMatches => r == Ok::<Option<BranchPushUpdate>, RejectedBranchUpdateReason>(None),
            BranchPushAction::Update(u) => r == Ok::<Option<BranchPushUpdate>, RejectedBranchUpdateReason>(Some(u)),
            BranchPushAction::LocalConflicted => r matches Err(e) && e.kind == RejectionKind::LocalConflicted,
            BranchPushAction::RemoteConflicted => r matches Err(e) && e.kind == RejectionKind::RemoteConflicted,
            BranchPushAction::RemoteUntracked => r matches Err(e) && e.kind == RejectionKind::RemoteUntracked,
        },
        r matches Err(e) ==> e.bookmark@ == bookmark_name@ && e.remote@ == remote_name@,
{
    let kind = match classify_bookmark_push_action(targets) {
        BranchPushAction::AlreadyMatches => {
            return Ok(None);
        },
        BranchPushAction::Update(u) => {
            return Ok(Some(u));
        },
        BranchPushAction::LocalConflicted => RejectionKind::LocalConflicted,
        BranchPushAction::RemoteConflicted => RejectionKind::RemoteConflicted,
        BranchPushAction::RemoteUntracked => RejectionKind::RemoteUntracked,
    };
    Err(RejectedBranchUpdateReason { kind, bookmark: copy_bytes(bookmark_name), remote: copy_bytes(remote_name) })
}

/// Which way a bookmark moves.
#[derive(PartialEq, Eq, Structural, Clone, Copy, Debug)]
pub enum BranchMoveDirection {
    Forward,
    Backward,
    Sideways,
}

/// Forward when the old commit is an ancestor of the new one, backward when
/// the new one is an ancestor of the old, sideways otherwise.
pub open spec fn move_dir(ps: Seq<Seq<usize>>, old: int, new: int) -> BranchMoveDirection {
    if is_anc(ps, old, new) {
        BranchMoveDirection::Forward
    } else if is_anc(ps, new, old) {
        BranchMoveDirection::Backward
    } else {
        BranchMoveDirection::Sideways
    }
}

/// The direction of an update that moves a bookmark from one commit to
/// another; none for any other result.
pub open spec fn direction_of(ps: Seq<Seq<usize>>, r: Result<Option<BranchPushUpdate>, RejectionKind>) -> Option<BranchMoveDirection> {
    match r {
        Ok(Some(u)) => match (u.old_target, u.new_target) {
            (Some(o), Some(n)) => Some(move_dir(ps, o as int, n as int)),
            _ => None,
        },
        _ => None,
    }
}

/// Which way a bookmark moves from `old` to `new`.
pub fn move_direction(g: &CommitGraph, old: usize, new: usize) -> (r: BranchMoveDirection)
    requires
        g.wf(),
    ensures
        r == move_dir(g.ps(), old as int, new as int),
{
    if is_ancestor(g, old, new) {
        BranchMoveDirection::Forward
    } else if is_ancestor(g, new, old) {
        BranchMoveDirection::Backward
    } else {
        BranchMoveDirection::Sideways
    }
}

/// `", "` between the names.
pub open spec fn joined(names: Seq<Seq<u8>>) -> Seq<u8>
    decreases names.len(),
{
    if names.len() == 0 {
        Seq::empty()
    } else if names.len() == 1 {
        names[0]
    } else {
        joined(names.drop_last()) + seq![44u8, 32u8] + names.last()
    }
}

/// `bookmark ` for one name, `bookmarkes ` otherwise, then the names.
pub open spec fn bookmark_term(names: Seq<Seq<u8>>) -> Seq<u8> {
    if names.len() == 1 {
        seq![98u8, 111u8, 111u8, 107u8, 109u8, 97u8, 114u8, 107u8, 32u8] + names[0]
    } else {
        seq![98u8, 111u8, 111u8, 107u8, 109u8, 97u8, 114u8, 107u8, 101u8, 115u8, 32u8] + joined(names)
    }
}

/// Appends `b` to `out`.
fn append_bytes(out: &mut Vec<u8>, b: &Vec<u8>)
    ensures
        final(out)@ == old(out)@ + b@,
{
    let ghost start = out@;
    let mut i: usize = 0;
    while i < b.len()
        invariant
            i <= b@.len(),
            out@ == start + b@.subrange(0, i as int),
        decreases b@.len() - i,
    {
        out.push(b[i]);
        i = i + 1;
        assert(out@ =~= start + b@.subrange(0, i as int));
    }
    assert(b@.subrange(0, b@.len() as int) =~= b@);
}

/// Names the bookmarks in a sentence: `bookmark a`, or `bookmarkes a, b`.
pub fn make_bookmark_term(bookmark_names: &Vec<Vec<u8>>) -> (r: Vec<u8>)
    ensures
        r@ == bookmark_term(bookmark_names@.map_values(|n: Vec<u8>| n@)),
{
    let ghost names = bookmark_names@.map_values(|n: Vec<u8>| n@);
    let mut out: Vec<u8> = Vec::new();
    out.push(98u8);
    out.push(111u8);
    out.push(111u8);
    out.push(107u8);
    out.push(109u8);
    out.push(97u8);
    out.push(114u8);
    out.push(107u8);
    if bookmark_names.len() != 1 {
        out.push(101u8);
        out.push(115u8);
    }
    out.push(32u8);
    let ghost head = out@;
    let mut i: usize = 0;
    while i < bookmark_names.len()
        invariant
            i <= bookmark_names@.len(),
            names == bookmark_names@.map_values(|n: Vec<u8>| n@),
            out@ == head + joined(names.subrange(0, i as int)),
        decreases bookmark_names@.len() - i,
    {
        let ghost pre = names.subrange(0, i as int);
        let ghost cur = names.subrange(0, i + 1);
        assert(cur.drop_last() =~= pre);
        assert(cur.last() == bookmark_names@[i as int]@);
        if i > 0 {
            out.push(44u8);
            out.push(32u8);
        } else {
            assert(pre.len() == 0);
        }
        append_bytes(&mut out, &bookmark_names[i]);
        i = i + 1;
        assert(out@ =~= head + joined(cur));
    }
    assert(names.subrange(0, names.len() as int) =~= names);
    proof {
        if names.len() == 1 {
            assert(joined(names) == names[0]);
        }
    }
    assert(out@ =~= bookmark_term(names));
    out
}

/// A bookmark name with its local bookmark and its bookmark on one remote,
/// by index in the view's lists.
#[derive(PartialEq, Eq, Structural, Clone, Copy, Debug)]
pub struct LocalRemotePair {
    pub local: Option<usize>,
    pub remote: Option<usize>,
}

/// Entry `j` is the bookmark `name` on `remote`.
pub open spec fn remote_entry_is(s: Seq<RemoteBookmark>, j: int, name: Seq<u8>, remote: Seq<u8>) -> bool {
    0 <= j < s.len() && s[j].name@ == name && s[j].remote@ == remote
}

/// The first entry of `s` for `name` on `remote`.
pub open spec fn first_remote_entry(s: Seq<RemoteBookmark>, name: Seq<u8>, remote: Seq<u8>, r: Option<usize>) -> bool {
    match r {
        Some(j) => remote_entry_is(s, j as int, name, remote)
            && forall|i: int| 0 <= i < j ==> !#[trigger] remote_entry_is(s, i, name, remote),
        None => forall|i: int| !#[trigger] remote_entry_is(s, i, name, remote),
    }
}

/// The first entry of `s` from position `j` on for `name` on `remote`.
pub open spec fn first_remote_from(s: Seq<RemoteBookmark>, name: Seq<u8>, remote: Seq<u8>, j: int) -> Option<usize>
    decreases s.len() - j,
{
    if j < 0 || j >= s.len() {
        None
    } else if remote_entry_is(s, j, name, remote) {
        Some(j as usize)
    } else {
        first_remote_from(s, name, remote, j + 1)
    }
}

/// The first entry of `s` for `name` on `remote`.
fn find_remote_index(s: &Vec<RemoteBookmark>, name: &Vec<u8>, remote: &Vec<u8>) -> (r: Option<usize>)
    ensures
        first_remote_entry(s@, name@, remote@, r),
        r == first_remote_from(s@, name@, remote@, 0),
{
    let mut i: usize = 0;
    while i < s.len()
        invariant
            i <= s@.len(),
            forall|j: int| 0 <= j < i ==> !#[trigger] remote_entry_is(s@, j, name@, remote@),
            first_remote_from(s@, name@, remote@, 0) == first_remote_from(s@, name@, remote@, i as int),
        decreases s@.len() - i,
    {
        if bytes_eq(&s[i].name, name) && bytes_eq(&s[i].remote, remote) {
            return Some(i);
        }
        i = i + 1;
    }
    None
}

/// Whether some local bookmark is named `name`.
fn has_local(s: &Vec<NamedTarget>, name: &Vec<u8>) -> (r: bool)
    ensures
        r == has_name(s@, name@),
{
    let mut i: usize = 0;
    while i < s.len()
        invariant
            i <= s@.len(),
            forall|j: int| 0 <= j < i ==> s@[j].name@ != name@,
        decreases s@.len() - i,
    {
        if bytes_eq(&s[i].name, name) {
            return true;
        }
        i = i + 1;
    }
    false
}

/// The pairs of a view for one remote: first every local bookmark with its
/// bookmark on the remote, if any; then every bookmark on the remote that has
/// no local bookmark of its name.
pub open spec fn pairs_of(view: RepoView, remote: Seq<u8>, r: Seq<LocalRemotePair>) -> bool {
    let l = view.local_bookmarks@;
    let s = view.remote_bookmarks@;
    &&& r.len() >= l.len()
    &&& forall|k: int| 0 <= k < l.len() ==> (#[trigger] r[k]).local == Some(k as usize)
        && first_remote_entry(s, l[k].name@, remote, r[k].remote)
    &&& forall|k: int| l.len() <= k < r.len() ==> (#[trigger] r[k]).local is None
        && (r[k].remote matches Some(j) && j < s.len() && s[j as int].remote@ == remote && !has_name(l, s[j as int].name@))
    &&& forall|j: int| 0 <= j < s.len() && s[j].remote@ == remote && !has_name(l, s[j].name@)
        ==> exists|k: int| l.len() <= k < r.len() && #[trigger] r[k].remote == Some(j as usize)
}

/// The bookmarks on `remote` among the first `j` remote entries that have
/// no local bookmark of their name, in order.
pub open spec fn remote_only(view: RepoView, remote: Seq<u8>, j: int) -> Seq<LocalRemotePair>
    decreases j,
{
    if j <= 0 {
        Seq::empty()
    } else {
        let pre = remote_only(view, remote, j - 1);
        let b = view.remote_bookmarks@[j - 1];
        if b.remote@ == remote && !has_name(view.local_bookmarks@, b.name@) {
            pre.push(LocalRemotePair { local: None, remote: Some((j - 1) as usize) })
        } else {
            pre
        }
    }
}

/// The pairs of a view for one remote: every local bookmark in order, with
/// the first entry of its name on the remote; then the remote's bookmarks
/// that have no local bookmark, in order.
pub open spec fn local_remote_pairs(view: RepoView, remote: Seq<u8>) -> Seq<LocalRemotePair> {
    Seq::new(view.local_bookmarks@.len(), |k: int| LocalRemotePair {
        local: Some(k as usize),
        remote: first_remote_from(view.remote_bookmarks@, view.local_bookmarks@[k].name@, remote, 0),
    }) + remote_only(view, remote, view.remote_bookmarks@.len() as int)
}

/// Pairs every bookmark name of the view with its local bookmark and its
/// bookmark on `remote`.
pub fn local_remote_bookmarks(view: &RepoView, remote: &Vec<u8>) -> (r: Vec<LocalRemotePair>)
    ensures
        pairs_of(*view, remote@, r@),
        r@ == local_remote_pairs(*view, remote@),
        forall|k: int| 0 <= k < r@.len() ==> pair_valid(*view, #[trigger] r@[k])
            && (r@[k].local is Some || r@[k].remote is Some),
{
    let l = &view.local_bookmarks;
    let s = &view.remote_bookmarks;
    let mut out: Vec<LocalRemotePair> = Vec::new();
    let mut i: usize = 0;
    while i < l.len()
        invariant
            i <= l@.len(),
            *l == view.local_bookmarks,
            *s == view.remote_bookmarks,
            out@.len() == i,
            forall|k: int| 0 <= k < i ==> (#[trigger] out@[k]).local == Some(k as usize)
                && first_remote_entry(s@, l@[k].name@, remote@, out@[k].remote)
                && out@[k].remote == first_remote_from(s@, l@[k].name@, remote@, 0),
        decreases l@.len() - i,
    {
        let j = find_remote_index(s, &l[i].name, remote);
        out.push(LocalRemotePair { local: Some(i), remote: j });
        i = i + 1;
    }
    let mut j: usize = 0;
    while j < s.len()
        invariant
            j <= s@.len(),
            *l == view.local_bookmarks,
            *s == view.remote_bookmarks,
            out@.len() >= l@.len(),
            forall|k: int| 0 <= k < l@.len() ==> (#[trigger] out@[k]).local == Some(k as usize)
                && first_remote_entry(s@, l@[k].name@, remote@, out@[k].remote)
                && out@[k].remote == first_remote_from(s@, l@[k].name@, remote@, 0),
            out@.subrange(l@.len() as int, out@.len() as int) == remote_only(*view, remote@, j as int),
            forall|k: int| l@.len() <= k < out@.len() ==> (#[trigger] out@[k]).local is None
                && (out@[k].remote matches Some(jj) && jj < s@.len() && s@[jj as int].remote@ == remote@
                && !has_name(l@, s@[jj as int].name@)),
            forall|jj: int| 0 <= jj < j && s@[jj].remote@ == remote@ && !has_name(l@, s@[jj].name@)
                ==> exists|k: int| l@.len() <= k < out@.len() && #[trigger] out@[k].remote == Some(jj as usize),
        decreases s@.len() - j,
    {
        let ghost before = out@;
        assert(before.subrange(l@.len() as int, before.len() as int) == remote_only(*view, remote@, j as int));
        if bytes_eq(&s[j].remote, remote) && !has_local(l, &s[j].name) {
            out.push(LocalRemotePair { local: None, remote: Some(j) });
            assert(out@.subrange(l@.len() as int, out@.len() as int)
                =~= before.subrange(l@.len() as int, before.len() as int).push(LocalRemotePair { local: None, remote: Some(j) }));
            proof {
                assert forall|jj: int| 0 <= jj < j + 1 && s@[jj].remote@ == remote@ && !has_name(l@, s@[jj].name@)
                    implies exists|k: int| l@.len() <= k < out@.len() && #[trigger] out@[k].remote == Some(jj as usize) by {
                    if jj < j {
                        let k = choose|k: int| l@.len() <= k < before.len() && #[trigger] before[k].remote == Some(jj as usize);
                        assert(out@[k] == before[k]);
                    } else {
                        assert(out@[before.len() as int].remote == Some(jj as usize));
                    }
                }
            }
        }
        j = j + 1;
    }
    proof {
        let want = local_remote_pairs(*view, remote@);
        let ll = l@.len() as int;
        assert(out@.len() == want.len());
        assert forall|k: int| 0 <= k < out@.len() implies out@[k] == want[k] by {
            if k >= ll {
                assert(out@[k] == out@.subrange(ll, out@.len() as int)[k - ll]);
            }
        }
        assert(out@ =~= want);
        assert forall|k: int| 0 <= k < out@.len() implies pair_valid(*view, #[trigger] out@[k])
            && (out@[k].local is Some || out@[k].remote is Some) by {
            if k < ll {
                let o = out@[k].remote;
                if o is Some {
                    assert(remote_entry_is(s@, o->Some_0 as int, l@[k].name@, remote@));
                }
            }
        }
    }
    out
}

/// Which bookmarks a push of a whole remote covers.
#[derive(PartialEq, Eq, Structural, Clone, Copy, Debug)]
pub enum PushScope {
    /// Every bookmark, deleted ones included.
    All,
    /// Every bookmark whose remote bookmark is tracked.
    TrackedOnly,
    /// Every bookmark deleted locally.
    Deleted,
}

/// The local target of a pair.
pub open spec fn pair_local(view: RepoView, p: LocalRemotePair) -> RefTarget {
    match p.local {
        Some(i) => view.local_bookmarks@[i as int].target,
        None => RefTarget::Absent,
    }
}

/// The remote ref of a pair.
pub open spec fn pair_remote(view: RepoView, p: LocalRemotePair) -> RemoteRef {
    match p.remote {
        Some(j) => view.remote_bookmarks@[j as int].remote_ref,
        None => RemoteRef { target: RefTarget::Absent, state: RemoteRefState::New },
    }
}

/// The pair is in the scope of the push.
pub open spec fn in_scope(view: RepoView, scope: PushScope, p: LocalRemotePair) -> bool {
    match scope {
        PushScope::All => true,
        PushScope::TrackedOnly => pair_remote(view, p).state == RemoteRefState::Tracking,
        PushScope::Deleted => pair_local(view, p) is Absent,
    }
}

/// Both indices of the pair are in range.
pub open spec fn pair_valid(view: RepoView, p: LocalRemotePair) -> bool {
    &&& (p.local matches Some(i) ==> i < view.local_bookmarks@.len())
    &&& (p.remote matches Some(j) ==> j < view.remote_bookmarks@.len())
}

/// Two targets with the same view.
pub open spec fn target_copy(a: RefTarget, b: RefTarget) -> bool {
    match (a, b) {
        (RefTarget::Absent, RefTarget::Absent) => true,
        (RefTarget::Normal(x), RefTarget::Normal(y)) => x == y,
        (RefTarget::Conflicted { adds: a1, removes: r1 }, RefTarget::Conflicted { adds: a2, removes: r2 }) =>
            a1@ == a2@ && r1@ == r2@,
        _ => false,
    }
}

/// A copy of a target.
pub fn copy_target(t: &RefTarget) -> (r: RefTarget)
    ensures
        target_copy(r, *t),
{
    match t {
        RefTarget::Absent => RefTarget::Absent,
        RefTarget::Normal(c) => RefTarget::Normal(*c),
        RefTarget::Conflicted { adds, removes } => RefTarget::Conflicted { adds: copy_positions(adds), removes: copy_positions(removes) },
    }
}

/// The local target and remote ref of a pair.
fn pair_targets(view: &RepoView, p: LocalRemotePair) -> (r: LocalAndRemoteRef)
    requires
        pair_valid(*view, p),
    ensures
        push_action(r) == push_action(LocalAndRemoteRef { local_target: pair_local(*view, p), remote_ref: pair_remote(*view, p) }),
        r.remote_ref.state == pair_remote(*view, p).state,
        target_copy(r.local_target, pair_local(*view, p)),
{
    let local_target = match p.local {
        Some(i) => copy_target(&view.local_bookmarks[i].target),
        None => RefTarget::Absent,
    };
    let remote_ref = match p.remote {
        Some(j) => {
            let rr = &view.remote_bookmarks[j].remote_ref;
            RemoteRef { target: copy_target(&rr.target), state: rr.state }
        },
        None => RemoteRef { target: RefTarget::Absent, state: RemoteRefState::New },
    };
    LocalAndRemoteRef { local_target, remote_ref }
}

/// The push decision on one bookmark.
pub struct PushDecision {
    pub pair: LocalRemotePair,
    pub result: Result<Option<BranchPushUpdate>, RejectionKind>,
}

/// The direction of an update that moves a bookmark.
fn direction_for(g: &CommitGraph, r: &Result<Option<BranchPushUpdate>, RejectionKind>) -> (d: Option<BranchMoveDirection>)
    requires
        g.wf(),
    ensures
        d == direction_of(g.ps(), *r),
{
    match r {
        Ok(Some(u)) => match (u.old_target, u.new_target) {
            (Some(o), Some(n)) => Some(move_direction(g, o, n)),
            _ => None,
        },
        _ => None,
    }
}

/// The direction of each decision's update.
fn directions_of(g: &CommitGraph, ds: &Vec<PushDecision>) -> (r: Vec<Option<BranchMoveDirection>>)
    requires
        g.wf(),
    ensures
        r@.len() == ds@.len(),
        forall|k: int| 0 <= k < ds@.len() ==> #[trigger] r@[k] == direction_of(g.ps(), ds@[k].result),
{
    let mut r: Vec<Option<BranchMoveDirection>> = Vec::new();
    let mut k: usize = 0;
    while k < ds.len()
        invariant
            g.wf(),
            k <= ds@.len(),
            r@.len() == k,
            forall|j: int| 0 <= j < k ==> #[trigger] r@[j] == direction_of(g.ps(), ds@[j].result),
        decreases ds@.len() - k,
    {
        r.push(direction_for(g, &ds[k].result));
        k = k + 1;
    }
    r
}

/// What deciding the push of a pair gives.
pub open spec fn decision_of(view: RepoView, p: LocalRemotePair) -> Result<Option<BranchPushUpdate>, RejectionKind> {
    match push_action(LocalAndRemoteRef { local_target: pair_local(view, p), remote_ref: pair_remote(view, p) }) {
        BranchPushAction::AlreadyMatches => Ok(None),
        BranchPushAction::Update(u) => Ok(Some(u)),
        BranchPushAction::LocalConflicted => Err(RejectionKind::LocalConflicted),
        BranchPushAction::RemoteConflicted => Err(RejectionKind::RemoteConflicted),
        BranchPushAction::RemoteUntracked => Err(RejectionKind::RemoteUntracked),
    }
}

/// Decides the push of every pair in the scope, in order.
pub fn decide_push(view: &RepoView, pairs: &Vec<LocalRemotePair>, scope: PushScope) -> (r: Vec<PushDecision>)
    requires
        forall|k: int| 0 <= k < pairs@.len() ==> pair_valid(*view, #[trigger] pairs@[k]),
    ensures
        ({
            let sel = pairs@.filter(|p: LocalRemotePair| in_scope(*view, scope, p));
            &&& r@.len() == sel.len()
            &&& forall|k: int| 0 <= k < sel.len() ==> (#[trigger] r@[k]).pair == sel[k]
                && r@[k].result == decision_of(*view, sel[k])
        }),
{
    let ghost f = |p: LocalRemotePair| in_scope(*view, scope, p);
    let mut out: Vec<PushDecision> = Vec::new();
    let mut k: usize = 0;
    assert(pairs@.subrange(0, 0) =~= Seq::<LocalRemotePair>::empty());
    while k < pairs.len()
        invariant
            k <= pairs@.len(),
            f == (|p: LocalRemotePair| in_scope(*view, scope, p)),
            forall|j: int| 0 <= j < pairs@.len() ==> pair_valid(*view, #[trigger] pairs@[j]),
            out@.len() == pairs@.subrange(0, k as int).filter(f).len(),
            forall|j: int| 0 <= j < out@.len() ==> (#[trigger] out@[j]).pair == pairs@.subrange(0, k as int).filter(f)[j]
                && out@[j].result == decision_of(*view, pairs@.subrange(0, k as int).filter(f)[j]),
        decreases pairs@.len() - k,
    {
        let p = pairs[k];
        let ghost pre = pairs@.subrange(0, k as int);
        assert(pairs@.subrange(0, k + 1) =~= pre.push(p));
        proof {
            pre.lemma_filter_push(p, f);
        }
        let t = pair_targets(view, p);
        let keep = match scope {
            PushScope::All => true,
            PushScope::TrackedOnly => t.remote_ref.is_tracking(),
            PushScope::Deleted => !t.local_target.is_present(),
        };
        assert(keep == f(p));
        if keep {
            let result = match classify_bookmark_push_action(&t) {
                BranchPushAction::AlreadyMatches => Ok(None),
                BranchPushAction::Update(u) => Ok(Some(u)),
                BranchPushAction::LocalConflicted => Err(RejectionKind::LocalConflicted),
                BranchPushAction::RemoteConflicted => Err(RejectionKind::RemoteConflicted),
                BranchPushAction::RemoteUntracked => Err(RejectionKind::RemoteUntracked),
            };
            out.push(PushDecision { pair: p, result });
        }
        k = k + 1;
    }
    assert(pairs@.subrange(0, pairs@.len() as int) =~= pairs@);
    out
}

/// The name of a pair.
pub open spec fn pair_name(view: RepoView, p: LocalRemotePair) -> Seq<u8> {
    match p.local {
        Some(i) => view.local_bookmarks@[i as int].name@,
        None => match p.remote {
            Some(j) => view.remote_bookmarks@[j as int].name@,
            None => Seq::empty(),
        },
    }
}

/// The pair can be pushed by name: it exists locally, or its remote
/// bookmark is tracked (an absent local bookmark then means a deletion).
pub open spec fn pushable(view: RepoView, p: LocalRemotePair) -> bool {
    !(pair_local(view, p) is Absent) || pair_remote(view, p).state == RemoteRefState::Tracking
}

/// The pair is pushable and `pat` matches its name.
pub open spec fn push_hit(view: RepoView, pat: StringPattern, p: LocalRemotePair) -> bool {
    pushable(view, p) && pat.spec_matches(pair_name(view, p))
}

/// The pairs of `s` that `pat` selects for a push by name, in order.
pub open spec fn pattern_pairs(view: RepoView, pat: StringPattern, s: Seq<LocalRemotePair>) -> Seq<LocalRemotePair>
    decreases s.len(),
{
    if s.len() == 0 {
        s
    } else {
        let pre = pattern_pairs(view, pat, s.drop_last());
        if push_hit(view, pat, s.last()) { pre.push(s.last()) } else { pre }
    }
}

/// The pairs selected by the first `k` patterns: those of each pattern in
/// turn, joined in pattern order, repeats kept.
pub open spec fn named_pairs(view: RepoView, pats: Seq<StringPattern>, pairs: Seq<LocalRemotePair>, k: int) -> Seq<LocalRemotePair>
    decreases k,
{
    if k <= 0 {
        Seq::empty()
    } else {
        named_pairs(view, pats, pairs, k - 1) + pattern_pairs(view, pats[k - 1], pairs)
    }
}

/// For each pattern, whether it selects a pair.
pub open spec fn push_hits(view: RepoView, pairs: Seq<LocalRemotePair>, pats: Seq<StringPattern>) -> Seq<bool> {
    Seq::new(pats.len(), |k: int| pattern_selects(view, pairs, pats[k]))
}

/// Some pair of `pairs` is a push hit of `pat`.
pub open spec fn pattern_selects(view: RepoView, pairs: Seq<LocalRemotePair>, pat: StringPattern) -> bool {
    exists|j: int| 0 <= j < pairs.len() && #[trigger] push_hit(view, pat, pairs[j])
}

/// The name of a pair.
fn name_of_pair<'a>(view: &'a RepoView, p: LocalRemotePair) -> (r: &'a Vec<u8>)
    requires
        pair_valid(*view, p),
        p.local is Some || p.remote is Some,
    ensures
        r@ == pair_name(*view, p),
{
    match p.local {
        Some(i) => &view.local_bookmarks[i].name,
        None => match p.remote {
            Some(j) => &view.remote_bookmarks[j].name,
            None => &view.local_bookmarks[0].name,
        },
    }
}

/// The pairs that the patterns select for a push by name: those of each
/// pattern in turn, in pattern order, repeats kept. Fails when a pattern
/// selects none.
pub fn find_bookmarks_to_push(view: &RepoView, pairs: &Vec<LocalRemotePair>, pats: &Vec<StringPattern>)
    -> (r: Result<Vec<LocalRemotePair>, CommandError>)
    requires
        forall|k: int| 0 <= k < pairs@.len() ==> pair_valid(*view, #[trigger] pairs@[k])
            && (pairs@[k].local is Some || pairs@[k].remote is Some),
    ensures
        (forall|k: int| 0 <= k < pats@.len() ==> pattern_selects(*view, pairs@, #[trigger] pats@[k])) <==> r is Ok,
        r matches Ok(sel) ==> sel@ == named_pairs(*view, pats@, pairs@, pats@.len() as int)
            && forall|k: int| 0 <= k < sel@.len() ==> pairs@.contains(#[trigger] sel@[k]),
        r matches Err(err) ==> pattern_error(pats@, push_hits(*view, pairs@, pats@), err),
{
    let ghost hits = push_hits(*view, pairs@, pats@);
    let mut out: Vec<LocalRemotePair> = Vec::new();
    let mut unmatched: Vec<usize> = Vec::new();
    let mut k: usize = 0;
    while k < pats.len()
        invariant
            k <= pats@.len(),
            hits == push_hits(*view, pairs@, pats@),
            forall|j: int| 0 <= j < pairs@.len() ==> pair_valid(*view, #[trigger] pairs@[j])
                && (pairs@[j].local is Some || pairs@[j].remote is Some),
            out@ == named_pairs(*view, pats@, pairs@, k as int),
            forall|m: int| 0 <= m < out@.len() ==> pairs@.contains(#[trigger] out@[m]),
            forall|m: int| 0 <= m < unmatched@.len() ==> unmatched@[m] < k,
            lists_misses(unmatched@, hits.subrange(0, k as int)),
        decreases pats@.len() - k,
    {
        let ghost start = out@;
        let mut hit = false;
        let mut j: usize = 0;
        assert(pairs@.subrange(0, 0) =~= Seq::<LocalRemotePair>::empty());
        while j < pairs.len()
            invariant
                k < pats@.len(),
                j <= pairs@.len(),
                forall|jj: int| 0 <= jj < pairs@.len() ==> pair_valid(*view, #[trigger] pairs@[jj])
                    && (pairs@[jj].local is Some || pairs@[jj].remote is Some),
                start == named_pairs(*view, pats@, pairs@, k as int),
                out@ == start + pattern_pairs(*view, pats@[k as int], pairs@.subrange(0, j as int)),
                forall|m: int| 0 <= m < out@.len() ==> pairs@.contains(#[trigger] out@[m]),
                hit == exists|jj: int| 0 <= jj < j && #[trigger] push_hit(*view, pats@[k as int], pairs@[jj]),
            decreases pairs@.len() - j,
        {
            let p = pairs[j];
            let ghost cur = pairs@.subrange(0, j + 1);
            assert(cur.drop_last() =~= pairs@.subrange(0, j as int));
            assert(cur.last() == p);
            let t = pair_targets(view, p);
            let ok = t.local_target.is_present() || t.remote_ref.is_tracking();
            assert(ok == pushable(*view, p));
            let ghost before = out@;
            if ok && pats[k].matches(name_of_pair(view, p)) {
                assert(push_hit(*view, pats@[k as int], pairs@[j as int]));
                out.push(p);
                hit = true;
                assert(out@ =~= start + pattern_pairs(*view, pats@[k as int], cur));
                assert forall|m: int| 0 <= m < out@.len() implies pairs@.contains(#[trigger] out@[m]) by {
                    if m == before.len() {
                        assert(pairs@[j as int] == out@[m]);
                    } else {
                        assert(before[m] == out@[m]);
                    }
                }
            } else {
                assert(!push_hit(*view, pats@[k as int], pairs@[j as int]));
                assert(out@ =~= start + pattern_pairs(*view, pats@[k as int], cur));
            }
            j = j + 1;
        }
        assert(pairs@.subrange(0, pairs@.len() as int) =~= pairs@);
        assert(out@ == named_pairs(*view, pats@, pairs@, k + 1));
        assert(hit == hits[k as int]);
        let ghost before = unmatched@;
        assert(hits.subrange(0, k + 1).subrange(0, k as int) =~= hits.subrange(0, k as int));
        if !hit {
            unmatched.push(k);
        }
        proof {
            let cur = hits.subrange(0, k + 1);
            assert forall|i: int| lists(unmatched@, i) <==> 0 <= i < cur.len() && !cur[i] by {
                if lists(unmatched@, i) {
                    let c = choose|c: int| 0 <= c < unmatched@.len() && unmatched@[c] == i;
                    if c < before.len() {
                        assert(lists(before, i));
                    }
                }
                if 0 <= i < k && !cur[i] {
                    assert(hits.subrange(0, k as int)[i] == cur[i]);
                    assert(lists(before, i));
                    let c = choose|c: int| 0 <= c < before.len() && before[c] == i;
                    assert(unmatched@[c] == i);
                }
                if i == k && !hit {
                    assert(unmatched@[before.len() as int] == i);
                }
                if lists(before, i) {
                    assert(hits.subrange(0, k as int)[i] == cur[i]);
                }
            }
        }
        k = k + 1;
    }
    assert(hits.subrange(0, pats@.len() as int) =~= hits);
    if unmatched.len() > 0 {
        assert(lists(unmatched@, unmatched@[0] as int));
        assert(!pattern_selects(*view, pairs@, pats@[unmatched@[0] as int]));
        if unmatched.len() == 1 {
            if let StringPattern::Exact(t) = &pats[unmatched[0]] {
                proof {
                    assert forall|j: int| 0 <= j < pats@.len() && !hits[j] implies j == unmatched@[0] by {
                        assert(lists(unmatched@, j));
                    }
                }
                return Err(CommandError::NoSuchBookmark(copy_bytes(t)));
            }
        }
        return Err(CommandError::NoMatchingBookmarks(unmatched));
    }
    proof {
        assert forall|k: int| 0 <= k < pats@.len() implies pattern_selects(*view, pairs@, #[trigger] pats@[k]) by {
            if !hits[k] {
                assert(lists(unmatched@, k));
            }
        }
    }
    Ok(out)
}

/// The commits that local bookmarks point to.
pub open spec fn local_ids_set(g: CommitGraph, view: RepoView) -> Set<int> {
    Set::new(|c: int| 0 <= c < g.len() && exists|i: int| 0 <= i < view.local_bookmarks@.len()
        && #[trigger] lists(target_ids(view.local_bookmarks@[i].target), c))
}

/// The commits that the bookmarks on `remote` point to.
pub open spec fn remote_heads_set(g: CommitGraph, view: RepoView, remote: Seq<u8>) -> Set<int> {
    Set::new(|c: int| 0 <= c < g.len() && exists|j: int| 0 <= j < view.remote_bookmarks@.len()
        && view.remote_bookmarks@[j].remote@ == remote
        && #[trigger] lists(target_ids(view.remote_bookmarks@[j].remote_ref.target), c))
}

/// The commit `c`, where the index holds it.
pub open spec fn single_commit(c: int, n: int) -> Set<int> {
    Set::new(|i: int| i == c && c < n)
}

/// The default commits of a push: bookmarked commits that are ancestors of
/// the working copy and not ancestors of what `remote` already has.
pub open spec fn default_push_set(g: CommitGraph, view: RepoView, remote: Seq<u8>, wc: usize) -> Set<int> {
    anc_set(g.ps(), single_commit(wc as int, g.len() as int))
        .difference(anc_set(g.ps(), remote_heads_set(g, view, remote)))
        .intersect(local_ids_set(g, view))
}

/// The local bookmark of the pair points into `set`.
pub open spec fn targets_into(view: RepoView, set: Set<int>, p: LocalRemotePair) -> bool {
    exists|k: int| 0 <= k < target_ids(pair_local(view, p)).len()
        && #[trigger] set.contains(target_ids(pair_local(view, p))[k] as int)
}

/// The commits whose bookmarks a push by revisions covers: the bookmarked
/// commits of the revisions, and with the default, `default_push_set`.
pub open spec fn revision_push_set(g: CommitGraph, view: RepoView, remote: Seq<u8>, revs: Seq<RevsetExpression>,
    use_default: bool, wc: Option<usize>) -> Set<int> {
    Set::new(|c: int| (use_default && default_push_set(g, view, remote, wc->Some_0).contains(c))
        || (local_ids_set(g, view).contains(c) && exists|i: int| 0 <= i < revs.len()
            && #[trigger] meaning(g, view, revs[i]).contains(c)))
}

/// The pairs whose local bookmark points into `set`.
pub open spec fn targeted_pairs(view: RepoView, set: Set<int>, pairs: Seq<LocalRemotePair>) -> Seq<LocalRemotePair> {
    pairs.filter(|p: LocalRemotePair| targets_into(view, set, p))
}

/// Why the bookmarks to push could not be found from revisions.
pub enum PushTargetError {
    /// The default revisions need a working-copy commit.
    NothingCheckedOut,
    Resolution(RevsetResolutionError),
}

/// The local bookmark `bookmarks()` expression.
fn all_bookmarks() -> (r: RevsetExpression)
    ensures
        forall|g: CommitGraph, v: RepoView| #[trigger] meaning(g, v, r) == local_ids_set(g, v),
        forall|g: CommitGraph, v: RepoView| #[trigger] first_error(g, v, r) is None,
{
    let p = StringPattern::everything();
    let ghost pg = p;
    let r = RevsetExpression::CommitRef(RevsetCommitRef::Bookmarks(p));
    assert forall|g: CommitGraph, v: RepoView| #[trigger] meaning(g, v, r) == local_ids_set(g, v) by {
        assert forall|c: int| meaning(g, v, r).contains(c) <==> local_ids_set(g, v).contains(c) by {
            if local_ids_set(g, v).contains(c) {
                let i = choose|i: int| 0 <= i < v.local_bookmarks@.len()
                    && #[trigger] lists(target_ids(v.local_bookmarks@[i].target), c);
                assert(pg.spec_matches(v.local_bookmarks@[i].name@));
                assert(matching_ids(v.local_bookmarks@, pg, c));
            }
        }
        assert(meaning(g, v, r) =~= local_ids_set(g, v));
    }
    r
}

/// The expression `remote_bookmarks(remote=R)`.
fn remote_heads_expr(g: &CommitGraph, view: &RepoView, remote: &Vec<u8>) -> (r: RevsetExpression)
    ensures
        meaning(*g, *view, r) == remote_heads_set(*g, *view, remote@),
        first_error(*g, *view, r) is None,
{
    let ev = StringPattern::everything();
    let ex = StringPattern::exact(remote);
    let ghost evg = ev;
    let ghost exg = ex;
    let r = RevsetExpression::CommitRef(RevsetCommitRef::RemoteBookmarks { bookmark_pattern: ev, remote_pattern: ex, state: None });
    proof {
        let hs = meaning(*g, *view, r);
        assert forall|x: int| hs.contains(x) <==> remote_heads_set(*g, *view, remote@).contains(x) by {
            if remote_heads_set(*g, *view, remote@).contains(x) {
                let j = choose|j: int| 0 <= j < view.remote_bookmarks@.len()
                    && view.remote_bookmarks@[j].remote@ == remote@
                    && #[trigger] lists(target_ids(view.remote_bookmarks@[j].remote_ref.target), x);
                assert(remote_selected(view.remote_bookmarks@[j], evg, exg, None));
            }
        }
        assert(hs =~= remote_heads_set(*g, *view, remote@));
    }
    r
}

/// The default push expression, `remote_bookmarks(remote=R)..wc & bookmarks()`.
fn default_push_expr(g: &CommitGraph, view: &RepoView, remote: &Vec<u8>, wc: usize) -> (r: RevsetExpression)
    ensures
        meaning(*g, *view, r) == default_push_set(*g, *view, remote@, wc),
        first_error(*g, *view, r) is None,
{
    let mut wcs: Vec<usize> = Vec::new();
    wcs.push(wc);
    let heads_expr = remote_heads_expr(g, view, remote);
    let ghost hg = heads_expr;
    let ghost wg = RevsetExpression::Commits(wcs);
    let range = RevsetExpression::Range { roots: Box::new(heads_expr), heads: Box::new(RevsetExpression::Commits(wcs)) };
    let ghost rg = range;
    let bm = all_bookmarks();
    let ghost bg = bm;
    let e = RevsetExpression::Intersection(Box::new(range), Box::new(bm));
    proof {
        assert(first_error(*g, *view, hg) is None);
        assert(first_error(*g, *view, wg) is None);
        assert(first_error(*g, *view, rg) is None);
        assert(first_error(*g, *view, bg) is None);
        assert(meaning(*g, *view, rg) == anc_set(g.ps(), meaning(*g, *view, wg)).difference(anc_set(g.ps(), meaning(*g, *view, hg))));
        assert(meaning(*g, *view, e) == meaning(*g, *view, rg).intersect(meaning(*g, *view, bg)));
        assert forall|i: int| i == wc implies lists(wcs@, i) by {
            assert(wcs@[0] == wc);
        }
        assert(meaning(*g, *view, wg) =~= single_commit(wc as int, g.len() as int));
        assert(meaning(*g, *view, e) =~= default_push_set(*g, *view, remote@, wc));
    }
    e
}

/// The revision holds a bookmarked commit.
pub open spec fn revision_hit(g: CommitGraph, view: RepoView, rev: RevsetExpression) -> bool {
    exists|c: int| #[trigger] meaning(g, view, rev).contains(c) && local_ids_set(g, view).contains(c)
}

/// For each revision, whether it holds a bookmarked commit.
pub open spec fn revision_hits(g: CommitGraph, view: RepoView, revs: Seq<RevsetExpression>) -> Seq<bool> {
    Seq::new(revs.len(), |i: int| revision_hit(g, view, revs[i]))
}

/// The bookmarks that revisions select for a push, and which revisions
/// selected none.
pub struct PushTargets {
    pub pairs: Vec<LocalRemotePair>,
    /// The default revisions hold no bookmarked commit.
    pub default_empty: bool,
    /// The revisions, by index, that hold no bookmarked commit.
    pub empty_revisions: Vec<usize>,
}

/// Whether an evaluated revset has no member.
fn revset_empty(rs: &Revset) -> (r: bool)
    ensures
        r == !exists|c: int| #[trigger] rs.set().contains(c),
{
    let ps = rs.positions();
    if ps.len() == 0 {
        proof {
            assert forall|c: int| !#[trigger] rs.set().contains(c) by {
                if rs.set().contains(c) {
                    assert(lists(ps@, c));
                }
            }
        }
        true
    } else {
        assert(lists(ps@, ps@[0] as int));
        assert(rs.set().contains(ps@[0] as int));
        false
    }
}

/// Adds the members of `rs` to `m`.
fn add_members(m: &mut Vec<bool>, rs: &Revset)
    requires
        forall|c: int| #[trigger] rs.set().contains(c) ==> 0 <= c < old(m)@.len(),
    ensures
        final(m)@.len() == old(m)@.len(),
        bits(final(m)@) == bits(old(m)@).union(rs.set()),
{
    let ghost start = bits(m@);
    let n = m.len();
    let mut i: usize = 0;
    while i < n
        invariant
            i <= n,
            m@.len() == n,
            forall|c: int| #[trigger] rs.set().contains(c) ==> 0 <= c < n,
            forall|c: int| 0 <= c < n ==> (#[trigger] m@[c] <==> (start.contains(c) || (c < i && rs.set().contains(c)))),
        decreases n - i,
    {
        if rs.contains(i) {
            m.set(i, true);
        }
        i = i + 1;
    }
    assert(bits(m@) =~= start.union(rs.set()));
}

/// Finds the bookmarks that revisions select for a push: those whose local
/// bookmark points to a bookmarked commit of one of the revisions, or, with
/// the default, of `default_push_set`. The default comes first, then the
/// revisions in order; the first that cannot be resolved fails the search.
pub fn find_bookmarks_targeted_by_revisions(
    g: &CommitGraph,
    view: &RepoView,
    remote: &Vec<u8>,
    pairs: &Vec<LocalRemotePair>,
    revisions: Vec<RevsetExpression>,
    use_default_revset: bool,
    wc: Option<usize>,
) -> (r: Result<PushTargets, PushTargetError>)
    requires
        g.wf(),
        forall|k: int| 0 <= k < pairs@.len() ==> pair_valid(*view, #[trigger] pairs@[k]),
    ensures
        (use_default_revset && wc is None) <==> r matches Err(PushTargetError::NothingCheckedOut),
        !(use_default_revset && wc is None) ==> (r is Ok <==> forall|i: int| 0 <= i < revisions@.len()
            ==> first_error(*g, *view, #[trigger] revisions@[i]) is None),
        r matches Err(PushTargetError::Resolution(e)) ==> exists|i: int| 0 <= i < revisions@.len()
            && first_error(*g, *view, #[trigger] revisions@[i]) == Some(e@)
            && forall|j: int| 0 <= j < i ==> first_error(*g, *view, #[trigger] revisions@[j]) is None,
        r matches Ok(t) ==> t.pairs@ == targeted_pairs(*view,
            revision_push_set(*g, *view, remote@, revisions@, use_default_revset, wc), pairs@)
            && (forall|k: int| 0 <= k < t.pairs@.len() ==> pairs@.contains(#[trigger] t.pairs@[k]))
            && t.default_empty == (use_default_revset
                && !exists|c: int| #[trigger] default_push_set(*g, *view, remote@, wc->Some_0).contains(c))
            && lists_misses(t.empty_revisions@, revision_hits(*g, *view, revisions@)),
{
    let ghost revs = revisions@;
    let ghost lids = local_ids_set(*g, *view);
    let ghost hits = revision_hits(*g, *view, revs);
    let n = g.commits.len();
    let mut members = crate::dag::empty_bits(n);
    let mut default_empty = false;
    if use_default_revset {
        let c = match wc {
            Some(c) => c,
            None => {
                return Err(PushTargetError::NothingCheckedOut);
            },
        };
        let e = default_push_expr(g, view, remote, c);
        let rs = match evaluate_revset(g, view, e) {
            Ok(rs) => rs,
            Err(err) => {
                return Err(PushTargetError::Resolution(err));
            },
        };
        default_empty = revset_empty(&rs);
        add_members(&mut members, &rs);
    }
    let ghost base = Set::new(|c: int| use_default_revset && default_push_set(*g, *view, remote@, wc->Some_0).contains(c));
    assert(bits(members@) =~= base);
    let total = revisions.len();
    let mut rest = revisions;
    let mut empty_revisions: Vec<usize> = Vec::new();
    let mut k: usize = 0;
    while rest.len() > 0
        invariant
            g.wf(),
            n == g.len(),
            members@.len() == n,
            total == revs.len(),
            k + rest@.len() == total,
            rest@ == revs.subrange(k as int, revs.len() as int),
            revs == revisions@,
            !(use_default_revset && wc is None),
            lids == local_ids_set(*g, *view),
            hits == revision_hits(*g, *view, revs),
            forall|j: int| 0 <= j < k ==> first_error(*g, *view, #[trigger] revs[j]) is None,
            bits(members@) == base.union(Set::new(|c: int| lids.contains(c) && exists|i: int| 0 <= i < k
                && #[trigger] meaning(*g, *view, revs[i]).contains(c))),
            forall|m: int| 0 <= m < empty_revisions@.len() ==> empty_revisions@[m] < k,
            lists_misses(empty_revisions@, hits.subrange(0, k as int)),
        decreases rest@.len(),
    {
        let rev = rest.remove(0);
        assert(rev == revs[k as int]);
        assert(rest@ =~= revs.subrange(k + 1, revs.len() as int));
        let bm = all_bookmarks();
        let ghost inter = RevsetExpression::Intersection(Box::new(rev), Box::new(bm));
        assert(meaning(*g, *view, bm) == lids);
        assert(first_error(*g, *view, bm) is None);
        assert(meaning(*g, *view, inter) == meaning(*g, *view, rev).intersect(lids));
        assert(first_error(*g, *view, inter) == first_error(*g, *view, rev));
        let e = RevsetExpression::Intersection(Box::new(rev), Box::new(bm));
        let rs = match evaluate_revset(g, view, e) {
            Ok(rs) => rs,
            Err(err) => {
                return Err(PushTargetError::Resolution(err));
            },
        };
        let ghost before_m = bits(members@);
        proof {
            assert forall|c: int| #[trigger] rs.set().contains(c) implies 0 <= c < n by {
                assert(lids.contains(c));
            }
        }
        let empty = revset_empty(&rs);
        assert(empty == !hits[k as int]) by {
            if !empty {
                let c = choose|c: int| #[trigger] rs.set().contains(c);
                assert(meaning(*g, *view, revs[k as int]).contains(c) && lids.contains(c));
            }
            if hits[k as int] {
                let c = choose|c: int| #[trigger] meaning(*g, *view, revs[k as int]).contains(c) && lids.contains(c);
                assert(rs.set().contains(c));
            }
        }
        add_members(&mut members, &rs);
        proof {
            assert(bits(members@) =~= base.union(Set::new(|c: int| lids.contains(c) && exists|i: int| 0 <= i < k + 1
                && #[trigger] meaning(*g, *view, revs[i]).contains(c))));
        }
        let ghost before = empty_revisions@;
        assert(hits.subrange(0, k + 1).subrange(0, k as int) =~= hits.subrange(0, k as int));
        if empty {
            empty_revisions.push(k);
        }
        proof {
            let cur = hits.subrange(0, k + 1);
            assert forall|i: int| lists(empty_revisions@, i) <==> 0 <= i < cur.len() && !cur[i] by {
                if lists(empty_revisions@, i) {
                    let c = choose|c: int| 0 <= c < empty_revisions@.len() && empty_revisions@[c] == i;
                    if c < before.len() {
                        assert(lists(before, i));
                    }
                }
                if 0 <= i < k && !cur[i] {
                    assert(hits.subrange(0, k as int)[i] == cur[i]);
                    assert(lists(before, i));
                    let c = choose|c: int| 0 <= c < before.len() && before[c] == i;
                    assert(empty_revisions@[c] == i);
                }
                if i == k && empty {
                    assert(empty_revisions@[before.len() as int] == i);
                }
                if lists(before, i) {
                    assert(hits.subrange(0, k as int)[i] == cur[i]);
                }
            }
        }
        k = k + 1;
    }
    assert(hits.subrange(0, revs.len() as int) =~= hits);
    let ghost set = revision_push_set(*g, *view, remote@, revs, use_default_revset, wc);
    assert(bits(members@) =~= set) by {
        assert forall|c: int| set.contains(c) implies 0 <= c < n by {
            if use_default_revset && default_push_set(*g, *view, remote@, wc->Some_0).contains(c) {
                assert(lids.contains(c));
            }
        }
    }
    let ghost f = |p: LocalRemotePair| targets_into(*view, set, p);
    let mut out: Vec<LocalRemotePair> = Vec::new();
    let mut j: usize = 0;
    assert(pairs@.subrange(0, 0) =~= Seq::<LocalRemotePair>::empty());
    while j < pairs.len()
        invariant
            j <= pairs@.len(),
            members@.len() == n,
            bits(members@) == set,
            f == (|p: LocalRemotePair| targets_into(*view, set, p)),
            forall|jj: int| 0 <= jj < pairs@.len() ==> pair_valid(*view, #[trigger] pairs@[jj]),
            out@ == pairs@.subrange(0, j as int).filter(f),
            forall|m: int| 0 <= m < out@.len() ==> pairs@.contains(#[trigger] out@[m]),
        decreases pairs@.len() - j,
    {
        let p = pairs[j];
        let ghost pre = pairs@.subrange(0, j as int);
        assert(pairs@.subrange(0, j + 1) =~= pre.push(p));
        proof {
            pre.lemma_filter_push(p, f);
        }
        let t = pair_targets(view, p);
        let ids = t.local_target.added_ids();
        assert(ids@ == target_ids(pair_local(*view, p)));
        let mut hit = false;
        let mut m: usize = 0;
        while m < ids.len()
            invariant
                m <= ids@.len(),
                members@.len() == n,
                bits(members@) == set,
                ids@ == target_ids(pair_local(*view, p)),
                hit == exists|mm: int| 0 <= mm < m && #[trigger] set.contains(ids@[mm] as int),
            decreases ids@.len() - m,
        {
            let id = ids[m];
            if id < n && members[id] {
                hit = true;
            }
            assert((id < n && members@[id as int]) == set.contains(id as int));
            m = m + 1;
        }
        assert(hit == f(p));
        let ghost before = out@;
        if hit {
            out.push(p);
            assert forall|mm: int| 0 <= mm < out@.len() implies pairs@.contains(#[trigger] out@[mm]) by {
                if mm == before.len() {
                    assert(pairs@[j as int] == out@[mm]);
                } else {
                    assert(before[mm] == out@[mm]);
                }
            }
        }
        j = j + 1;
    }
    assert(pairs@.subrange(0, pairs@.len() as int) =~= pairs@);
    assert(out@ == targeted_pairs(*view, set, pairs@));
    Ok(PushTargets { pairs: out, default_empty, empty_revisions })
}

/// How many hex digits of a change id name a change in short.
pub const SHORT_CHANGE_ID_LEN: usize = 12;

/// The first digits of a change id.
pub open spec fn short_id(id: Seq<u8>) -> Seq<u8> {
    if id.len() <= SHORT_CHANGE_ID_LEN {
        id
    } else {
        id.subrange(0, SHORT_CHANGE_ID_LEN as int)
    }
}

/// The bookmark name that a push of change `c` creates or moves: the prefix
/// and the full change id, unless no bookmark has that name and the short
/// change id resolves to one commit, in which case the short id is used.
pub open spec fn change_bookmark_name(g: CommitGraph, view: RepoView, prefix: Seq<u8>, c: int) -> Seq<u8> {
    let id = g.commits@[c].change_id@;
    let full = prefix + id;
    let short_ok = crate::symbol::symbol_result(g, view, short_id(id)) matches Ok(ids) && ids.len() == 1;
    if crate::view::lookup(view.local_bookmarks@, full) is Absent && short_ok {
        prefix + short_id(id)
    } else {
        full
    }
}

/// Concatenation of two byte strings.
fn concat_bytes(a: &Vec<u8>, b: &Vec<u8>) -> (r: Vec<u8>)
    ensures
        r@ == a@ + b@,
{
    let mut r = copy_bytes(a);
    append_bytes(&mut r, b);
    r
}

/// The first digits of a change id.
fn short_id_of(id: &Vec<u8>) -> (r: Vec<u8>)
    ensures
        r@ == short_id(id@),
{
    if id.len() <= SHORT_CHANGE_ID_LEN {
        return copy_bytes(id);
    }
    let mut r: Vec<u8> = Vec::new();
    let mut i: usize = 0;
    while i < SHORT_CHANGE_ID_LEN
        invariant
            i <= SHORT_CHANGE_ID_LEN,
            SHORT_CHANGE_ID_LEN < id@.len(),
            r@ == id@.subrange(0, i as int),
        decreases SHORT_CHANGE_ID_LEN - i,
    {
        r.push(id[i]);
        i = i + 1;
        assert(r@ =~= id@.subrange(0, i as int));
    }
    r
}

/// A bookmark that a push by change creates or moves.
pub struct ChangeBookmark {
    pub name: Vec<u8>,
    pub commit: usize,
    /// No local bookmark had this name.
    pub created: bool,
}

/// No local bookmark of the view has the name.
fn local_absent(view: &RepoView, name: &Vec<u8>) -> (r: bool)
    ensures
        r == (crate::view::lookup(view.local_bookmarks@, name@) is Absent),
{
    match crate::view::find_target(&view.local_bookmarks, name) {
        Some(t) => !t.is_present(),
        None => true,
    }
}

/// The local target and remote ref of a bookmark pushed by change: the
/// bookmark will point at `commit`, and the remote holds what the view says.
pub fn change_push_targets(view: &RepoView, remote: &Vec<u8>, name: &Vec<u8>, commit: usize) -> (r: LocalAndRemoteRef)
    ensures
        push_action(r) == push_action(LocalAndRemoteRef {
            local_target: RefTarget::Normal(commit),
            remote_ref: crate::view::lookup_remote(view.remote_bookmarks@, name@, remote@),
        }),
{
    let remote_ref = match crate::view::find_remote(&view.remote_bookmarks, name, remote) {
        Some(rr) => RemoteRef { target: copy_target(&rr.target), state: rr.state },
        None => RemoteRef { target: RefTarget::Absent, state: RemoteRefState::New },
    };
    LocalAndRemoteRef { local_target: RefTarget::Normal(commit), remote_ref }
}

/// Names a bookmark for each commit pushed by change, in order.
pub fn update_change_bookmarks(g: &CommitGraph, view: &RepoView, commits: &Vec<usize>, prefix: &Vec<u8>)
    -> (r: Vec<ChangeBookmark>)
    requires
        forall|k: int| 0 <= k < commits@.len() ==> #[trigger] commits@[k] < g.len(),
    ensures
        r@.len() == commits@.len(),
        forall|k: int| 0 <= k < r@.len() ==> {
            let cb = #[trigger] r@[k];
            &&& cb.commit == commits@[k]
            &&& cb.name@ == change_bookmark_name(*g, *view, prefix@, commits@[k] as int)
            &&& cb.created == (crate::view::lookup(view.local_bookmarks@, cb.name@) is Absent)
        },
{
    let mut out: Vec<ChangeBookmark> = Vec::new();
    let mut k: usize = 0;
    while k < commits.len()
        invariant
            k <= commits@.len(),
            forall|j: int| 0 <= j < commits@.len() ==> #[trigger] commits@[j] < g.len(),
            out@.len() == k,
            forall|j: int| 0 <= j < k ==> {
                let cb = #[trigger] out@[j];
                &&& cb.commit == commits@[j]
                &&& cb.name@ == change_bookmark_name(*g, *view, prefix@, commits@[j] as int)
                &&& cb.created == (crate::view::lookup(view.local_bookmarks@, cb.name@) is Absent)
            },
        decreases commits@.len() - k,
    {
        let c = commits[k];
        let id = &g.commits[c].change_id;
        let full = concat_bytes(prefix, id);
        let short = short_id_of(id);
        let mut name = full;
        if local_absent(view, &name) {
            let short_ok = match crate::symbol::resolve_symbol(g, view, &short) {
                Ok(ids) => ids.len() == 1,
                Err(_) => false,
            };
            if short_ok {
                name = concat_bytes(prefix, &short);
            }
        }
        assert(name@ == change_bookmark_name(*g, *view, prefix@, c as int));
        let created = local_absent(view, &name);
        out.push(ChangeBookmark { name, commit: c, created });
        k = k + 1;
    }
    out
}

/// The author name that stands for "not configured".
pub open spec fn name_placeholder() -> Seq<u8> {
    seq![40u8, 110u8, 111u8, 32u8, 110u8, 97u8, 109u8, 101u8, 32u8, 99u8, 111u8, 110u8, 102u8, 105u8, 103u8, 117u8, 114u8, 101u8, 100u8, 41u8]
}

/// The email that stands for "not configured".
pub open spec fn email_placeholder() -> Seq<u8> {
    seq![40u8, 110u8, 111u8, 32u8, 101u8, 109u8, 97u8, 105u8, 108u8, 32u8, 99u8, 111u8, 110u8, 102u8, 105u8, 103u8, 117u8, 114u8, 101u8, 100u8, 41u8]
}

/// A name or email that is missing: empty, or the placeholder.
pub open spec fn unset(v: Seq<u8>, placeholder: Seq<u8>) -> bool {
    v.len() == 0 || v == placeholder
}

/// Why a commit will not be pushed.
#[derive(PartialEq, Eq, Structural, Clone, Copy, Debug)]
pub enum PushProblem {
    NoDescription,
    NoAuthorOrCommitter,
    HasConflicts,
    IsPrivate,
}

/// What keeps commit `c` from being pushed, in this order.
pub open spec fn push_problems(g: CommitGraph, c: int, allow_empty_description: bool, allow_private: bool, private: Set<int>) -> Seq<PushProblem> {
    let d = g.commits@[c];
    let no_desc = d.description@.len() == 0 && !allow_empty_description;
    let no_id = unset(d.author_name@, name_placeholder()) || unset(d.author_email@, email_placeholder())
        || unset(d.committer_name@, name_placeholder()) || unset(d.committer_email@, email_placeholder());
    (if no_desc { seq![PushProblem::NoDescription] } else { Seq::empty() })
        + (if no_id { seq![PushProblem::NoAuthorOrCommitter] } else { Seq::empty() })
        + (if d.has_conflict { seq![PushProblem::HasConflicts] } else { Seq::empty() })
        + (if !allow_private && private.contains(c) { seq![PushProblem::IsPrivate] } else { Seq::empty() })
}

/// The placeholder name.
fn name_placeholder_bytes() -> (r: Vec<u8>)
    ensures
        r@ == name_placeholder(),
{
    let r: Vec<u8> = vec![40u8, 110u8, 111u8, 32u8, 110u8, 97u8, 109u8, 101u8, 32u8, 99u8, 111u8, 110u8, 102u8, 105u8, 103u8, 117u8, 114u8, 101u8, 100u8, 41u8];
    assert(r@ =~= name_placeholder());
    r
}

/// The placeholder email.
fn email_placeholder_bytes() -> (r: Vec<u8>)
    ensures
        r@ == email_placeholder(),
{
    let r: Vec<u8> = vec![40u8, 110u8, 111u8, 32u8, 101u8, 109u8, 97u8, 105u8, 108u8, 32u8, 99u8, 111u8, 110u8, 102u8, 105u8, 103u8, 117u8, 114u8, 101u8, 100u8, 41u8];
    assert(r@ =~= email_placeholder());
    r
}

/// What keeps commit `c` from being pushed.
pub fn commit_push_problems(g: &CommitGraph, c: usize, allow_empty_description: bool, allow_private: bool, is_private: bool)
    -> (r: Vec<PushProblem>)
    requires
        c < g.len(),
    ensures
        forall|private: Set<int>| private.contains(c as int) == is_private
            ==> r@ == #[trigger] push_problems(*g, c as int, allow_empty_description, allow_private, private),
{
    let d = &g.commits[c];
    let np = name_placeholder_bytes();
    let ep = email_placeholder_bytes();
    let mut r: Vec<PushProblem> = Vec::new();
    if d.description.len() == 0 && !allow_empty_description {
        r.push(PushProblem::NoDescription);
    }
    let ghost r1 = r@;
    if d.author_name.len() == 0 || bytes_eq(&d.author_name, &np) || d.author_email.len() == 0 || bytes_eq(&d.author_email, &ep)
        || d.committer_name.len() == 0 || bytes_eq(&d.committer_name, &np) || d.committer_email.len() == 0
        || bytes_eq(&d.committer_email, &ep) {
        r.push(PushProblem::NoAuthorOrCommitter);
    }
    let ghost r2 = r@;
    if d.has_conflict {
        r.push(PushProblem::HasConflicts);
    }
    let ghost r3 = r@;
    if !allow_private && is_private {
        r.push(PushProblem::IsPrivate);
    }
    proof {
        assert forall|private: Set<int>| private.contains(c as int) == is_private
            implies r@ == #[trigger] push_problems(*g, c as int, allow_empty_description, allow_private, private) by {
            assert(r@ =~= push_problems(*g, c as int, allow_empty_description, allow_private, private));
        }
    }
    r
}

/// A commit that will not be pushed, and why.
pub struct UnreadyCommit {
    pub commit: usize,
    pub problems: Vec<PushProblem>,
}

/// Why a push was refused before any commit was looked at, or the commit
/// that stops it.
pub enum ValidateError {
    Resolution(RevsetResolutionError),
    Unready(UnreadyCommit),
}

/// The commits a push would send: those that the new heads reach and that
/// neither the remote's bookmarks nor the immutable heads reach.
pub open spec fn commits_to_push(g: CommitGraph, view: RepoView, remote: Seq<u8>, new_heads: Seq<usize>, immutable: Set<int>) -> Set<int> {
    anc_set(g.ps(), Set::new(|i: int| 0 <= i < g.len() && lists(new_heads, i)))
        .difference(anc_set(g.ps(), remote_heads_set(g, view, remote).union(immutable)))
}

/// Checks the commits that a push would send, highest position first: fails
/// on the first that has no description (unless allowed), no author or
/// committer, a conflict, or is private (unless allowed).
pub fn validate_commits_ready_to_push(
    g: &CommitGraph,
    view: &RepoView,
    remote: &Vec<u8>,
    new_heads: Vec<usize>,
    immutable_heads: RevsetExpression,
    private: RevsetExpression,
    allow_empty_description: bool,
    allow_private: bool,
) -> (r: Result<(), ValidateError>)
    requires
        g.wf(),
    ensures
        (first_error(*g, *view, immutable_heads) is None && first_error(*g, *view, private) is None) ==> ({
            let set = commits_to_push(*g, *view, remote@, new_heads@, meaning(*g, *view, immutable_heads));
            let priv_set = meaning(*g, *view, private);
            &&& r is Ok <==> forall|c: int| #[trigger] set.contains(c)
                ==> push_problems(*g, c, allow_empty_description, allow_private, priv_set).len() == 0
            &&& r matches Err(ValidateError::Unready(u)) ==> set.contains(u.commit as int)
                && u.problems@ == push_problems(*g, u.commit as int, allow_empty_description, allow_private, priv_set)
                && u.problems@.len() > 0
                && forall|c: int| #[trigger] set.contains(c) && c > u.commit
                    ==> push_problems(*g, c, allow_empty_description, allow_private, priv_set).len() == 0
        }),
        first_error(*g, *view, immutable_heads) matches Some(f) ==> r matches Err(ValidateError::Resolution(e)) && e@ == f,
        first_error(*g, *view, immutable_heads) is None ==> (first_error(*g, *view, private) matches Some(f)
            ==> r matches Err(ValidateError::Resolution(e)) && e@ == f),
{
    let ghost imm = immutable_heads;
    let ghost heads0 = new_heads@;
    let remote_heads = remote_heads_expr(g, view, remote);
    let ghost rh = remote_heads;
    let roots_expr = RevsetExpression::Union(Box::new(remote_heads), Box::new(immutable_heads));
    let ghost rt = roots_expr;
    let ghost hd = RevsetExpression::Commits(new_heads);
    let e = RevsetExpression::Range { roots: Box::new(roots_expr), heads: Box::new(RevsetExpression::Commits(new_heads)) };
    proof {
        assert(first_error(*g, *view, rt) == first_error(*g, *view, imm));
        assert(first_error(*g, *view, hd) is None);
        assert(first_error(*g, *view, e) == first_error(*g, *view, imm));
        assert(meaning(*g, *view, rt) == remote_heads_set(*g, *view, remote@).union(meaning(*g, *view, imm)));
        assert(meaning(*g, *view, hd) =~= Set::new(|i: int| 0 <= i < g.len() && lists(heads0, i)));
        assert(meaning(*g, *view, e) == commits_to_push(*g, *view, remote@, heads0, meaning(*g, *view, imm)));
    }
    let ghost set = commits_to_push(*g, *view, remote@, heads0, meaning(*g, *view, imm));
    let ids = match crate::resolver::evaluate_query(g, view, e) {
        Ok(ids) => ids,
        Err(err) => {
            return Err(ValidateError::Resolution(err));
        },
    };
    let ghost pv = private;
    let private_set = match evaluate_revset(g, view, private) {
        Ok(rs) => rs,
        Err(err) => {
            return Err(ValidateError::Resolution(err));
        },
    };
    let ghost priv_set = meaning(*g, *view, pv);
    assert(g.ps().len() == g.len());
    assert forall|i: int| set.contains(i) implies 0 <= i < g.len() by {
        assert(anc_set(g.ps(), Set::new(|i: int| 0 <= i < g.len() && lists(heads0, i))).contains(i));
    }
    let mut k: usize = 0;
    while k < ids.len()
        invariant
            g.wf(),
            k <= ids@.len(),
            descending(ids@),
            private_set.set() == priv_set,
            priv_set == meaning(*g, *view, pv),
            pv == private,
            imm == immutable_heads,
            heads0 == new_heads@,
            first_error(*g, *view, imm) is None,
            first_error(*g, *view, pv) is None,
            set == commits_to_push(*g, *view, remote@, heads0, meaning(*g, *view, imm)),
            forall|i: int| set.contains(i) <==> lists(ids@, i),
            forall|i: int| set.contains(i) ==> 0 <= i < g.len(),
            forall|j: int| 0 <= j < k ==> push_problems(*g, #[trigger] ids@[j] as int, allow_empty_description, allow_private, priv_set).len() == 0,
        decreases ids@.len() - k,
    {
        let c = ids[k];
        assert(lists(ids@, c as int));
        assert(set.contains(c as int));
        let problems = commit_push_problems(g, c, allow_empty_description, allow_private, private_set.contains(c));
        assert(problems@ == push_problems(*g, c as int, allow_empty_description, allow_private, priv_set));
        if problems.len() > 0 {
            proof {
                assert forall|d: int| #[trigger] set.contains(d) && d > c
                    implies push_problems(*g, d, allow_empty_description, allow_private, priv_set).len() == 0 by {
                    assert(lists(ids@, d));
                    let j = choose|j: int| 0 <= j < ids@.len() && ids@[j] == d;
                    if j >= k {
                        if j > k {
                            assert(ids@[k as int] > ids@[j]);
                        }
                    }
                }
            }
            return Err(ValidateError::Unready(UnreadyCommit { commit: c, problems }));
        }
        k = k + 1;
    }
    proof {
        assert forall|c: int| #[trigger] set.contains(c)
            implies push_problems(*g, c, allow_empty_description, allow_private, priv_set).len() == 0 by {
            assert(lists(ids@, c));
            let j = choose|j: int| 0 <= j < ids@.len() && ids@[j] == c;
            assert(push_problems(*g, ids@[j] as int, allow_empty_description, allow_private, priv_set).len() == 0);
        }
    }
    Ok(())
}

/// The first occurrence of each element, in order.
pub open spec fn first_occurrences(s: Seq<LocalRemotePair>) -> Seq<LocalRemotePair>
    decreases s.len(),
{
    if s.len() == 0 {
        s
    } else {
        let pre = first_occurrences(s.drop_last());
        if s.drop_last().contains(s.last()) {
            pre
        } else {
            pre.push(s.last())
        }
    }
}

/// `s` without repeats, the first occurrence of each pair kept.
fn dedup_pairs(s: &Vec<LocalRemotePair>) -> (r: Vec<LocalRemotePair>)
    ensures
        r@ == first_occurrences(s@),
{
    let mut out: Vec<LocalRemotePair> = Vec::new();
    let mut k: usize = 0;
    assert(s@.subrange(0, 0) =~= Seq::<LocalRemotePair>::empty());
    while k < s.len()
        invariant
            k <= s@.len(),
            out@ == first_occurrences(s@.subrange(0, k as int)),
            forall|x: LocalRemotePair| out@.contains(x) <==> s@.subrange(0, k as int).contains(x),
        decreases s@.len() - k,
    {
        let x = s[k];
        let ghost pre = s@.subrange(0, k as int);
        let ghost cur = s@.subrange(0, k + 1);
        assert(cur.drop_last() =~= pre);
        assert(cur.last() == x);
        let mut seen = false;
        let mut j: usize = 0;
        while j < out.len()
            invariant
                j <= out@.len(),
                seen == exists|i: int| 0 <= i < j && out@[i] == x,
            decreases out@.len() - j,
        {
            if out[j] == x {
                seen = true;
            }
            j = j + 1;
        }
        assert(seen == out@.contains(x));
        let ghost before = out@;
        if !seen {
            out.push(x);
        }
        proof {
            assert forall|y: LocalRemotePair| out@.contains(y) <==> cur.contains(y) by {
                if cur.contains(y) {
                    let i = choose|i: int| 0 <= i < cur.len() && cur[i] == y;
                    if i < k {
                        assert(pre[i] == y);
                        assert(pre.contains(y));
                        assert(before.contains(y));
                        let a = choose|a: int| 0 <= a < before.len() && before[a] == y;
                        assert(out@[a] == y);
                    } else if !seen {
                        assert(out@[before.len() as int] == y);
                    } else {
                        assert(before.contains(y));
                        let a = choose|a: int| 0 <= a < before.len() && before[a] == y;
                        assert(out@[a] == y);
                    }
                }
                if out@.contains(y) {
                    let a = choose|a: int| 0 <= a < out@.len() && out@[a] == y;
                    if a < before.len() {
                        assert(before.contains(y));
                        assert(pre.contains(y));
                        let i = choose|i: int| 0 <= i < pre.len() && pre[i] == y;
                        assert(cur[i] == y);
                    } else {
                        assert(cur[k as int] == y);
                    }
                }
            }
        }
        k = k + 1;
    }
    assert(s@.subrange(0, s@.len() as int) =~= s@);
    out
}

/// Arguments of `git push`. The remote is chosen by the caller, and the
/// commits of `--change` are resolved by the caller.
pub struct GitPushArgs {
    /// Push the bookmarks matching these patterns.
    pub bookmark: Vec<StringPattern>,
    /// Push every bookmark, deleted ones included.
    pub all: bool,
    /// Push every bookmark whose remote bookmark is tracked.
    pub tracking: bool,
    /// Push every bookmark deleted locally.
    pub deleted: bool,
    /// Push the bookmarks on these revisions.
    pub revisions: Vec<RevsetExpression>,
    /// Push these commits under bookmarks named after their change ids.
    pub change: Vec<usize>,
    /// Allow pushing commits with empty descriptions.
    pub allow_empty_description: bool,
    /// Allow pushing private commits.
    pub allow_private: bool,
    /// Only say what would change.
    pub dry_run: bool,
}

/// Why `git push` refused.
pub enum GitPushError {
    Command(CommandError),
    Target(PushTargetError),
    /// A bookmark named on the command line cannot be pushed.
    Rejected { pair: LocalRemotePair, kind: RejectionKind },
    /// The bookmark of a `--change` commit, by its index, cannot be pushed.
    RejectedChange { index: usize, kind: RejectionKind },
}

/// The push of a bookmark made for a `--change` commit.
pub struct ChangePush {
    pub bookmark: ChangeBookmark,
    /// An earlier change bookmark has the same name; this one adds nothing.
    pub repeated: bool,
    /// The update to make, if the remote does not already match.
    pub update: Option<BranchPushUpdate>,
    pub direction: Option<BranchMoveDirection>,
}

/// What a push covers, and which of the revisions selected nothing.
pub struct GitPushPlan {
    pub changes: Vec<ChangePush>,
    pub decisions: Vec<PushDecision>,
    /// The direction of each decision's update, in the same order.
    pub directions: Vec<Option<BranchMoveDirection>>,
    /// The default revisions hold no bookmarked commit.
    pub default_empty: bool,
    /// The revisions, by index, that hold no bookmarked commit.
    pub empty_revisions: Vec<usize>,
}

/// The scope of a push of a whole remote, if the arguments ask for one.
pub open spec fn scope_of(args: GitPushArgs) -> Option<PushScope> {
    if args.all {
        Some(PushScope::All)
    } else if args.tracking {
        Some(PushScope::TrackedOnly)
    } else if args.deleted {
        Some(PushScope::Deleted)
    } else {
        None
    }
}

/// With no name, change or revision given, the default revisions are used.
pub open spec fn uses_default(args: GitPushArgs) -> bool {
    args.bookmark@.len() == 0 && args.change@.len() == 0 && args.revisions@.len() == 0
}

/// The bookmark names for the `--change` commits.
pub open spec fn change_names(g: CommitGraph, view: RepoView, prefix: Seq<u8>, cs: Seq<usize>) -> Seq<Seq<u8>> {
    Seq::new(cs.len(), |k: int| change_bookmark_name(g, view, prefix, cs[k] as int))
}

/// An earlier name of `cn` equals the one at `k`.
pub open spec fn repeated_at(cn: Seq<Seq<u8>>, k: int) -> bool {
    exists|j: int| 0 <= j < k && cn[j] == cn[k]
}

/// What an action gives as a decision.
pub open spec fn action_result(a: BranchPushAction) -> Result<Option<BranchPushUpdate>, RejectionKind> {
    match a {
        BranchPushAction::AlreadyMatches => Ok(None),
        BranchPushAction::Update(u) => Ok(Some(u)),
        BranchPushAction::LocalConflicted => Err(RejectionKind::LocalConflicted),
        BranchPushAction::RemoteConflicted => Err(RejectionKind::RemoteConflicted),
        BranchPushAction::RemoteUntracked => Err(RejectionKind::RemoteUntracked),
    }
}

/// The decision on pushing the bookmark `name` pointed at commit `c`.
pub open spec fn change_result(view: RepoView, remote: Seq<u8>, name: Seq<u8>, c: usize) -> Result<Option<BranchPushUpdate>, RejectionKind> {
    action_result(push_action(LocalAndRemoteRef {
        local_target: RefTarget::Normal(c),
        remote_ref: crate::view::lookup_remote(view.remote_bookmarks@, name, remote),
    }))
}

/// The pairs of `s` whose names are not among `cn`, in order.
pub open spec fn drop_named(view: RepoView, cn: Seq<Seq<u8>>, s: Seq<LocalRemotePair>) -> Seq<LocalRemotePair>
    decreases s.len(),
{
    if s.len() == 0 {
        s
    } else {
        let pre = drop_named(view, cn, s.drop_last());
        if cn.contains(pair_name(view, s.last())) { pre } else { pre.push(s.last()) }
    }
}

/// Every pair selected by name whose name no change bookmark has can be
/// pushed.
pub open spec fn named_pushable(view: RepoView, named: Seq<LocalRemotePair>, cn: Seq<Seq<u8>>) -> bool {
    forall|m: int| 0 <= m < named.len() && !cn.contains(pair_name(view, named[m]))
        ==> #[trigger] decision_of(view, named[m]) is Ok
}

/// Every first bookmark of a name among the change bookmarks can be pushed.
pub open spec fn changes_pushable(view: RepoView, remote: Seq<u8>, cn: Seq<Seq<u8>>, cs: Seq<usize>) -> bool {
    forall|k: int| 0 <= k < cn.len() && !repeated_at(cn, k) ==> #[trigger] change_result(view, remote, cn[k], cs[k]) is Ok
}

/// The revisions resolve, and the default has a working copy if it is used.
pub open spec fn targets_resolve(g: CommitGraph, view: RepoView, args: GitPushArgs, wc: Option<usize>) -> bool {
    &&& !(uses_default(args) && wc is None)
    &&& forall|i: int| 0 <= i < args.revisions@.len() ==> first_error(g, view, #[trigger] args.revisions@[i]) is None
}

/// What `git push` decides when it names bookmarks, changes, revisions or
/// none. It succeeds exactly when every name pattern selects a bookmark,
/// every bookmark made for a change and every bookmark selected by name can
/// be pushed, and the revisions resolve. It covers the change bookmarks (a
/// repeated name once), then the bookmarks selected by name, then those on
/// the revisions, each once and none whose name a change bookmark has.
pub open spec fn named_push_outcome(g: CommitGraph, view: RepoView, remote: Seq<u8>, prefix: Seq<u8>, args: GitPushArgs,
    wc: Option<usize>, r: Result<GitPushPlan, GitPushError>) -> bool {
    let pairs = local_remote_pairs(view, remote);
    let hits = push_hits(view, pairs, args.bookmark@);
    let names_ok = forall|k: int| 0 <= k < args.bookmark@.len() ==> pattern_selects(view, pairs, #[trigger] args.bookmark@[k]);
    let cn = change_names(g, view, prefix, args.change@);
    let named = named_pairs(view, args.bookmark@, pairs, args.bookmark@.len() as int);
    let set = revision_push_set(g, view, remote, args.revisions@, uses_default(args), wc);
    let chosen = drop_named(view, cn, first_occurrences(named + targeted_pairs(view, set, pairs)));
    &&& r is Ok <==> (names_ok && changes_pushable(view, remote, cn, args.change@) && named_pushable(view, named, cn)
        && targets_resolve(g, view, args, wc))
    &&& (r matches Err(GitPushError::Command(_))) <==> !names_ok
    &&& r matches Err(GitPushError::Command(e)) ==> pattern_error(args.bookmark@, hits, e)
    &&& r matches Err(GitPushError::RejectedChange { index, kind }) ==> names_ok && index < cn.len()
        && !repeated_at(cn, index as int)
        && change_result(view, remote, cn[index as int], args.change@[index as int]) == Err::<Option<BranchPushUpdate>, RejectionKind>(kind)
    &&& r matches Err(GitPushError::Rejected { pair, kind }) ==> names_ok && changes_pushable(view, remote, cn, args.change@)
        && named.contains(pair) && !cn.contains(pair_name(view, pair))
        && decision_of(view, pair) == Err::<Option<BranchPushUpdate>, RejectionKind>(kind)
    &&& r matches Err(GitPushError::Target(_)) ==> names_ok && changes_pushable(view, remote, cn, args.change@)
        && named_pushable(view, named, cn)
    &&& r matches Ok(plan) ==> {
        &&& plan.changes@.len() == cn.len()
        &&& forall|k: int| 0 <= k < cn.len() ==> {
            let cp = #[trigger] plan.changes@[k];
            &&& cp.bookmark.name@ == cn[k]
            &&& cp.bookmark.commit == args.change@[k]
            &&& cp.bookmark.created == (crate::view::lookup(view.local_bookmarks@, cn[k]) is Absent)
            &&& cp.repeated == repeated_at(cn, k)
            &&& !cp.repeated ==> (Ok::<Option<BranchPushUpdate>, RejectionKind>(cp.update)
                == change_result(view, remote, cn[k], args.change@[k])
                && cp.direction == direction_of(g.ps(), change_result(view, remote, cn[k], args.change@[k])))
        }
        &&& plan.decisions@.len() == chosen.len()
        &&& forall|k: int| 0 <= k < chosen.len() ==> (#[trigger] plan.decisions@[k]).pair == chosen[k]
            && plan.decisions@[k].result == decision_of(view, chosen[k])
        &&& plan.directions@.len() == plan.decisions@.len()
        &&& forall|k: int| 0 <= k < plan.directions@.len()
            ==> #[trigger] plan.directions@[k] == direction_of(g.ps(), plan.decisions@[k].result)
        &&& plan.default_empty == (uses_default(args)
            && !exists|c: int| #[trigger] default_push_set(g, view, remote, wc->Some_0).contains(c))
        &&& lists_misses(plan.empty_revisions@, revision_hits(g, view, args.revisions@))
    }
}

/// Decides a push to `remote`: the bookmarks it covers and, for each, the
/// update to make (with its direction) or why it is refused. For a whole
/// remote, every bookmark in the scope; otherwise as `named_push_outcome`
/// says, change bookmarks named with `prefix`.
pub fn cmd_git_push(g: &CommitGraph, view: &RepoView, remote: &Vec<u8>, prefix: &Vec<u8>, args: GitPushArgs, wc: Option<usize>)
    -> (r: Result<GitPushPlan, GitPushError>)
    requires
        g.wf(),
        forall|k: int| 0 <= k < args.change@.len() ==> #[trigger] args.change@[k] < g.len(),
    ensures
        scope_of(args) matches Some(scope) ==> r matches Ok(plan) && ({
            let sel = local_remote_pairs(*view, remote@).filter(|p: LocalRemotePair| in_scope(*view, scope, p));
            &&& plan.changes@.len() == 0
            &&& plan.decisions@.len() == sel.len()
            &&& forall|k: int| 0 <= k < sel.len() ==> (#[trigger] plan.decisions@[k]).pair == sel[k]
                && plan.decisions@[k].result == decision_of(*view, sel[k])
            &&& plan.directions@.len() == plan.decisions@.len()
            &&& forall|k: int| 0 <= k < plan.directions@.len()
                ==> #[trigger] plan.directions@[k] == direction_of(g.ps(), plan.decisions@[k].result)
        }),
        scope_of(args) is None ==> named_push_outcome(*g, *view, remote@, prefix@, args, wc, r),
{
    let pairs = local_remote_bookmarks(view, remote);
    if args.all || args.tracking || args.deleted {
        let scope = if args.all {
            PushScope::All
        } else if args.tracking {
            PushScope::TrackedOnly
        } else {
            PushScope::Deleted
        };
        let ds = decide_push(view, &pairs, scope);
        let directions = directions_of(g, &ds);
        return Ok(GitPushPlan { changes: Vec::new(), decisions: ds, directions, default_empty: false, empty_revisions: Vec::new() });
    }
    let by_name = match find_bookmarks_to_push(view, &pairs, &args.bookmark) {
        Ok(sel) => sel,
        Err(e) => {
            return Err(GitPushError::Command(e));
        },
    };
    let cbs = update_change_bookmarks(g, view, &args.change, prefix);
    let ghost cn = change_names(*g, *view, prefix@, args.change@);
    assert(names_of(cbs@) =~= cn);
    let changes = match change_pushes(g, view, remote, &cbs, &args.change) {
        Ok(c) => c,
        Err((index, kind)) => {
            return Err(GitPushError::RejectedChange { index, kind });
        },
    };
    match first_rejected(view, &pairs, &by_name, &cbs) {
        Some((p, kind)) => {
            return Err(GitPushError::Rejected { pair: p, kind });
        },
        None => {},
    }
    let use_default = args.bookmark.len() == 0 && args.change.len() == 0 && args.revisions.len() == 0;
    let targets = match find_bookmarks_targeted_by_revisions(g, view, remote, &pairs, args.revisions, use_default, wc) {
        Ok(t) => t,
        Err(e) => {
            return Err(GitPushError::Target(e));
        },
    };
    let ds = decide_all(view, &pairs, &by_name, &targets.pairs, &cbs);
    let directions = directions_of(g, &ds);
    Ok(GitPushPlan { changes, decisions: ds, directions, default_empty: targets.default_empty, empty_revisions: targets.empty_revisions })
}

/// The names of change bookmarks.
pub open spec fn names_of(cbs: Seq<ChangeBookmark>) -> Seq<Seq<u8>> {
    Seq::new(cbs.len(), |k: int| cbs[k].name@)
}

/// Whether a change bookmark has the name `name`.
fn has_change_name(cbs: &Vec<ChangeBookmark>, name: &Vec<u8>, upto: usize) -> (r: bool)
    requires
        upto <= cbs@.len(),
    ensures
        r == exists|j: int| 0 <= j < upto && #[trigger] cbs@[j].name@ == name@,
{
    let mut j: usize = 0;
    while j < upto
        invariant
            j <= upto,
            upto <= cbs@.len(),
            forall|i: int| 0 <= i < j ==> #[trigger] cbs@[i].name@ != name@,
        decreases upto - j,
    {
        if bytes_eq(&cbs[j].name, name) {
            return true;
        }
        j = j + 1;
    }
    false
}

/// Decides the push of each change bookmark; the first that cannot be
/// pushed, by index, and why.
fn change_pushes(g: &CommitGraph, view: &RepoView, remote: &Vec<u8>, cbs: &Vec<ChangeBookmark>, cs: &Vec<usize>) -> (r: Result<Vec<ChangePush>, (usize, RejectionKind)>)
    requires
        g.wf(),
        cbs@.len() == cs@.len(),
        forall|k: int| 0 <= k < cbs@.len() ==> (#[trigger] cbs@[k]).commit == cs@[k],
    ensures
        match r {
            Ok(v) => changes_pushable(*view, remote@, names_of(cbs@), cs@) && v@.len() == cbs@.len()
                && forall|k: int| 0 <= k < cbs@.len() ==> {
                    let cp = #[trigger] v@[k];
                    &&& cp.bookmark.name@ == cbs@[k].name@
                    &&& cp.bookmark.commit == cbs@[k].commit
                    &&& cp.bookmark.created == cbs@[k].created
                    &&& cp.repeated == repeated_at(names_of(cbs@), k)
                    &&& !cp.repeated ==> (Ok::<Option<BranchPushUpdate>, RejectionKind>(cp.update)
                        == change_result(*view, remote@, names_of(cbs@)[k], cs@[k])
                        && cp.direction == direction_of(g.ps(), change_result(*view, remote@, names_of(cbs@)[k], cs@[k])))
                },
            Err((index, kind)) => index < names_of(cbs@).len() && !repeated_at(names_of(cbs@), index as int)
                && change_result(*view, remote@, names_of(cbs@)[index as int], cs@[index as int]) == Err::<Option<BranchPushUpdate>, RejectionKind>(kind),
        },
{
    let mut out: Vec<ChangePush> = Vec::new();
    let mut k: usize = 0;
    while k < cbs.len()
        invariant
            g.wf(),
            k <= cbs@.len(),
                cbs@.len() == cs@.len(),
            forall|i: int| 0 <= i < cbs@.len() ==> (#[trigger] cbs@[i]).commit == cs@[i],
            out@.len() == k,
            forall|i: int| 0 <= i < k && !repeated_at(names_of(cbs@), i) ==> #[trigger] change_result(*view, remote@, names_of(cbs@)[i], cs@[i]) is Ok,
            forall|i: int| 0 <= i < k ==> {
                let cp = #[trigger] out@[i];
                &&& cp.bookmark.name@ == cbs@[i].name@
                &&& cp.bookmark.commit == cbs@[i].commit
                &&& cp.bookmark.created == cbs@[i].created
                &&& cp.repeated == repeated_at(names_of(cbs@), i)
                &&& !cp.repeated ==> (Ok::<Option<BranchPushUpdate>, RejectionKind>(cp.update)
                    == change_result(*view, remote@, names_of(cbs@)[i], cs@[i])
                    && cp.direction == direction_of(g.ps(), change_result(*view, remote@, names_of(cbs@)[i], cs@[i])))
            },
        decreases cbs@.len() - k,
    {
        let cb = &cbs[k];
        assert(names_of(cbs@)[k as int] == cb.name@);
        let repeated = has_change_name(cbs, &cb.name, k);
        assert(repeated == repeated_at(names_of(cbs@), k as int)) by {
            if repeated {
                let j = choose|j: int| 0 <= j < k && #[trigger] cbs@[j].name@ == cb.name@;
                assert(names_of(cbs@)[j] == names_of(cbs@)[k as int]);
            }
            if repeated_at(names_of(cbs@), k as int) {
                let j = choose|j: int| 0 <= j < k && names_of(cbs@)[j] == names_of(cbs@)[k as int];
                assert(cbs@[j].name@ == cb.name@);
            }
        }
        let bookmark = ChangeBookmark { name: copy_bytes(&cb.name), commit: cb.commit, created: cb.created };
        if repeated {
            out.push(ChangePush { bookmark, repeated: true, update: None, direction: None });
        } else {
            let t = change_push_targets(view, remote, &cb.name, cb.commit);
            let result = match classify_bookmark_push_action(&t) {
                BranchPushAction::AlreadyMatches => Ok(None),
                BranchPushAction::Update(u) => Ok(Some(u)),
                BranchPushAction::LocalConflicted => Err(RejectionKind::LocalConflicted),
                BranchPushAction::RemoteConflicted => Err(RejectionKind::RemoteConflicted),
                BranchPushAction::RemoteUntracked => Err(RejectionKind::RemoteUntracked),
            };
            assert(result == change_result(*view, remote@, names_of(cbs@)[k as int], cs@[k as int]));
            match result {
                Err(kind) => {
                    return Err((k, kind));
                },
                Ok(update) => {
                    let direction = direction_for(g, &result);
                    out.push(ChangePush { bookmark, repeated: false, update, direction });
                },
            }
        }
        k = k + 1;
    }
    Ok(out)
}

/// Whether a change bookmark has the pair's name.
fn pair_change_named(view: &RepoView, p: LocalRemotePair, cbs: &Vec<ChangeBookmark>) -> (r: bool)
    requires
        pair_valid(*view, p),
        p.local is Some || p.remote is Some,
    ensures
        r == names_of(cbs@).contains(pair_name(*view, p)),
{
    let name = name_of_pair(view, p);
    let r = has_change_name(cbs, name, cbs.len());
    proof {
        if r {
            let j = choose|j: int| 0 <= j < cbs@.len() && #[trigger] cbs@[j].name@ == name@;
            assert(names_of(cbs@)[j] == name@);
        }
        if names_of(cbs@).contains(pair_name(*view, p)) {
            let j = choose|j: int| 0 <= j < names_of(cbs@).len() && names_of(cbs@)[j] == pair_name(*view, p);
            assert(cbs@[j].name@ == name@);
        }
    }
    r
}

/// The first pair of `sel`, among those no change bookmark names, whose push
/// is refused, and why.
fn first_rejected(view: &RepoView, pairs: &Vec<LocalRemotePair>, sel: &Vec<LocalRemotePair>, cbs: &Vec<ChangeBookmark>) -> (r: Option<(LocalRemotePair, RejectionKind)>)
    requires
        forall|k: int| 0 <= k < pairs@.len() ==> pair_valid(*view, #[trigger] pairs@[k])
            && (pairs@[k].local is Some || pairs@[k].remote is Some),
        forall|k: int| 0 <= k < sel@.len() ==> pairs@.contains(#[trigger] sel@[k]),
    ensures
        match r {
            Some((p, kind)) => sel@.contains(p) && !names_of(cbs@).contains(pair_name(*view, p))
                && decision_of(*view, p) == Err::<Option<BranchPushUpdate>, RejectionKind>(kind),
            None => named_pushable(*view, sel@, names_of(cbs@)),
        },
{
    let mut m: usize = 0;
    while m < sel.len()
        invariant
            m <= sel@.len(),
                forall|k: int| 0 <= k < sel@.len() ==> pairs@.contains(#[trigger] sel@[k]),
            forall|k: int| 0 <= k < pairs@.len() ==> pair_valid(*view, #[trigger] pairs@[k])
                && (pairs@[k].local is Some || pairs@[k].remote is Some),
            forall|mm: int| 0 <= mm < m && !names_of(cbs@).contains(pair_name(*view, sel@[mm]))
                ==> #[trigger] decision_of(*view, sel@[mm]) is Ok,
        decreases sel@.len() - m,
    {
        let p = sel[m];
        assert(pairs@.contains(sel@[m as int]));
        proof {
            let i = choose|i: int| 0 <= i < pairs@.len() && pairs@[i] == p;
        }
        assert(sel@.contains(p)) by {
            assert(sel@[m as int] == p);
        }
        if !pair_change_named(view, p, cbs) {
            let t = pair_targets(view, p);
            match classify_bookmark_push_action(&t) {
                BranchPushAction::LocalConflicted => {
                    return Some((p, RejectionKind::LocalConflicted));
                },
                BranchPushAction::RemoteConflicted => {
                    return Some((p, RejectionKind::RemoteConflicted));
                },
                BranchPushAction::RemoteUntracked => {
                    return Some((p, RejectionKind::RemoteUntracked));
                },
                _ => {},
            }
        }
        m = m + 1;
    }
    None
}

/// The decisions on the pairs of `a`, then those of `b`, each pair once and
/// none that a change bookmark names.
fn decide_all(view: &RepoView, pairs: &Vec<LocalRemotePair>, a: &Vec<LocalRemotePair>, b: &Vec<LocalRemotePair>,
    cbs: &Vec<ChangeBookmark>) -> (r: Vec<PushDecision>)
    requires
        forall|k: int| 0 <= k < pairs@.len() ==> pair_valid(*view, #[trigger] pairs@[k])
            && (pairs@[k].local is Some || pairs@[k].remote is Some),
        forall|k: int| 0 <= k < a@.len() ==> pairs@.contains(#[trigger] a@[k]),
        forall|k: int| 0 <= k < b@.len() ==> pairs@.contains(#[trigger] b@[k]),
    ensures
        r@.len() == drop_named(*view, names_of(cbs@), first_occurrences(a@ + b@)).len(),
        forall|k: int| 0 <= k < r@.len() ==> (#[trigger] r@[k]).pair == drop_named(*view, names_of(cbs@), first_occurrences(a@ + b@))[k]
            && r@[k].result == decision_of(*view, drop_named(*view, names_of(cbs@), first_occurrences(a@ + b@))[k]),
{
    let mut all_sel: Vec<LocalRemotePair> = Vec::new();
    let mut k: usize = 0;
    while k < a.len()
        invariant
            k <= a@.len(),
            all_sel@ == a@.subrange(0, k as int),
        decreases a@.len() - k,
    {
        all_sel.push(a[k]);
        k = k + 1;
        assert(all_sel@ =~= a@.subrange(0, k as int));
    }
    let mut k: usize = 0;
    assert(a@.subrange(0, a@.len() as int) =~= a@);
    while k < b.len()
        invariant
            k <= b@.len(),
            all_sel@ == a@ + b@.subrange(0, k as int),
        decreases b@.len() - k,
    {
        all_sel.push(b[k]);
        k = k + 1;
        assert(all_sel@ =~= a@ + b@.subrange(0, k as int));
    }
    assert(b@.subrange(0, b@.len() as int) =~= b@);
    let cands = dedup_pairs(&all_sel);
    proof {
        lemma_first_occurrences_contents(all_sel@);
        assert forall|k: int| 0 <= k < cands@.len() implies pair_valid(*view, #[trigger] cands@[k])
            && (cands@[k].local is Some || cands@[k].remote is Some) by {
            let x = cands@[k];
            assert(cands@.contains(x));
            assert(all_sel@.contains(x));
            let i = choose|i: int| 0 <= i < all_sel@.len() && all_sel@[i] == x;
            if i < a@.len() {
                assert(a@[i] == x);
                assert(pairs@.contains(a@[i]));
            } else {
                assert(b@[i - a@.len()] == x);
                assert(pairs@.contains(b@[i - a@.len()]));
            }
            let j = choose|j: int| 0 <= j < pairs@.len() && pairs@[j] == x;
        }
    }
    let mut ds: Vec<PushDecision> = Vec::new();
    let mut k: usize = 0;
    assert(cands@.subrange(0, 0) =~= Seq::<LocalRemotePair>::empty());
    while k < cands.len()
        invariant
            k <= cands@.len(),
                forall|j: int| 0 <= j < cands@.len() ==> pair_valid(*view, #[trigger] cands@[j])
                && (cands@[j].local is Some || cands@[j].remote is Some),
            ds@.len() == drop_named(*view, names_of(cbs@), cands@.subrange(0, k as int)).len(),
            forall|j: int| 0 <= j < ds@.len() ==> (#[trigger] ds@[j]).pair == drop_named(*view, names_of(cbs@), cands@.subrange(0, k as int))[j]
                && ds@[j].result == decision_of(*view, drop_named(*view, names_of(cbs@), cands@.subrange(0, k as int))[j]),
        decreases cands@.len() - k,
    {
        let p = cands[k];
        let ghost cur = cands@.subrange(0, k + 1);
        assert(cur.drop_last() =~= cands@.subrange(0, k as int));
        assert(cur.last() == p);
        if !pair_change_named(view, p, cbs) {
            let t = pair_targets(view, p);
            let result = match classify_bookmark_push_action(&t) {
                BranchPushAction::AlreadyMatches => Ok(None),
                BranchPushAction::Update(u) => Ok(Some(u)),
                BranchPushAction::LocalConflicted => Err(RejectionKind::LocalConflicted),
                BranchPushAction::RemoteConflicted => Err(RejectionKind::RemoteConflicted),
                BranchPushAction::RemoteUntracked => Err(RejectionKind::RemoteUntracked),
            };
            ds.push(PushDecision { pair: p, result });
        }
        k = k + 1;
    }
    assert(cands@.subrange(0, cands@.len() as int) =~= cands@);
    ds
}

/// `origin`, the remote pushed to when nothing else decides.
pub open spec fn origin() -> Seq<u8> {
    seq![111u8, 114u8, 105u8, 103u8, 105u8, 110u8]
}

/// The remote a push goes to when none is given: the configured one, else
/// the only remote there is, else `origin`.
pub open spec fn default_remote(configured: Option<Seq<u8>>, remotes: Seq<Seq<u8>>) -> Seq<u8> {
    match configured {
        Some(c) => c,
        None => if remotes.len() == 1 { remotes[0] } else { origin() },
    }
}

/// Chooses the remote to push to when none is given, and whether to tell
/// the user that it is the only remote (when that is not `origin`).
pub fn default_push_remote(configured: &Option<Vec<u8>>, remotes: &Vec<Vec<u8>>) -> (r: (Vec<u8>, bool))
    ensures
        r.0@ == default_remote(match configured { Some(c) => Some(c@), None => None }, remotes@.map_values(|x: Vec<u8>| x@)),
        r.1 == (configured is None && remotes@.len() == 1 && remotes@[0]@ != origin()),
{
    match configured {
        Some(c) => (copy_bytes(c), false),
        None => {
            if remotes.len() == 1 {
                let o: Vec<u8> = vec![111u8, 114u8, 105u8, 103u8, 105u8, 110u8];
                assert(o@ =~= origin());
                let hint = !bytes_eq(&remotes[0], &o);
                (copy_bytes(&remotes[0]), hint)
            } else {
                let o: Vec<u8> = vec![111u8, 114u8, 105u8, 103u8, 105u8, 110u8];
                assert(o@ =~= origin());
                (o, false)
            }
        },
    }
}

/// Whether `s` holds `p`.
fn contains_pair(s: &Vec<LocalRemotePair>, p: LocalRemotePair) -> (r: bool)
    ensures
        r == s@.contains(p),
{
    let mut j: usize = 0;
    while j < s.len()
        invariant
            j <= s@.len(),
            forall|i: int| 0 <= i < j ==> s@[i] != p,
        decreases s@.len() - j,
    {
        if s[j] == p {
            return true;
        }
        j = j + 1;
    }
    false
}

proof fn lemma_first_occurrences_distinct(s: Seq<LocalRemotePair>, a: int, b: int)
    requires
        0 <= a < b < first_occurrences(s).len(),
    ensures
        first_occurrences(s)[a] != first_occurrences(s)[b],
    decreases s.len(),
{
    let pre = s.drop_last();
    lemma_first_occurrences_contents(pre);
    if b < first_occurrences(pre).len() {
        lemma_first_occurrences_distinct(pre, a, b);
    } else {
        assert(first_occurrences(pre).contains(first_occurrences(s)[a]));
    }
}

proof fn lemma_first_occurrences_contents(s: Seq<LocalRemotePair>)
    ensures
        forall|x: LocalRemotePair| first_occurrences(s).contains(x) <==> s.contains(x),
    decreases s.len(),
{
    if s.len() > 0 {
        let pre = s.drop_last();
        let last = s.last();
        lemma_first_occurrences_contents(pre);
        assert(s =~= pre.push(last));
        assert forall|x: LocalRemotePair| first_occurrences(s).contains(x) <==> s.contains(x) by {
            lemma_push_contains(pre, last, x);
            lemma_push_contains(first_occurrences(pre), last, x);
        }
    }
}

proof fn lemma_push_contains(s: Seq<LocalRemotePair>, y: LocalRemotePair, x: LocalRemotePair)
    ensures
        s.push(y).contains(x) <==> s.contains(x) || x == y,
{
    if s.push(y).contains(x) {
        let i = choose|i: int| 0 <= i < s.push(y).len() && s.push(y)[i] == x;
        if i < s.len() {
            assert(s[i] == x);
        }
    }
    if s.contains(x) {
        let i = choose|i: int| 0 <= i < s.len() && s[i] == x;
        assert(s.push(y)[i] == x);
    }
    if x == y {
        assert(s.push(y)[s.len() as int] == x);
    }
}

} // verus!
