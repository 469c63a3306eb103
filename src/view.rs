//! The repository's ref namespaces, read-only to the revset engine.
use vstd::prelude::*;
use crate::dag::lists;
use crate::pattern::StringPattern;
use crate::refs::{bytes_eq, target_ids, RefTarget, RemoteRef, RemoteRefState};

verus! {

/// A ref name and its target.
pub struct NamedTarget {
    pub name: Vec<u8>,
    pub target: RefTarget,
}

/// A bookmark as last seen on one remote.
pub struct RemoteBookmark {
    pub name: Vec<u8>,
    pub remote: Vec<u8>,
    pub remote_ref: RemoteRef,
}

/// The commit checked out in one workspace.
pub struct WorkspaceCommit {
    pub workspace: Vec<u8>,
    pub commit: usize,
}

/// The current ref namespaces of a repository.
pub struct RepoView {
    pub local_bookmarks: Vec<NamedTarget>,
    pub remote_bookmarks: Vec<RemoteBookmark>,
    pub tags: Vec<NamedTarget>,
    /// Raw refs of a foreign VCS, by full path (`refs/heads/main`).
    pub git_refs: Vec<NamedTarget>,
    pub git_head: RefTarget,
    pub wc_commits: Vec<WorkspaceCommit>,
}

/// `a` comes before `b` in byte-wise lexicographic order.
pub open spec fn bytes_lt(a: Seq<u8>, b: Seq<u8>) -> bool
    decreases a.len(),
{
    if a.len() == 0 {
        b.len() > 0
    } else if b.len() == 0 {
        false
    } else if a[0] != b[0] {
        a[0] < b[0]
    } else {
        bytes_lt(a.drop_first(), b.drop_first())
    }
}

/// The entries are in strictly increasing order of name, as in a sorted map.
pub open spec fn names_sorted(s: Seq<NamedTarget>) -> bool {
    forall|i: int, j: int| 0 <= i < j < s.len() ==> bytes_lt(s[i].name@, s[j].name@)
}

/// The remote entries are in strictly increasing order of name, then
/// remote.
pub open spec fn remotes_sorted(s: Seq<RemoteBookmark>) -> bool {
    forall|i: int, j: int| 0 <= i < j < s.len() ==> #[trigger] remote_lt(s[i], s[j])
}

/// `x` comes before `y` by name, then by remote.
pub open spec fn remote_lt(x: RemoteBookmark, y: RemoteBookmark) -> bool {
    bytes_lt(x.name@, y.name@) || (x.name@ == y.name@ && bytes_lt(x.remote@, y.remote@))
}

/// No two entries of `s` have the same name.
pub open spec fn unique_names(s: Seq<NamedTarget>) -> bool {
    forall|i: int, j: int| 0 <= i < j < s.len() ==> s[i].name@ != s[j].name@
}

impl RepoView {
    /// Each namespace is a sorted map: names (or bookmark and remote pairs)
    /// strictly increase, and every conflicted target has an added side.
    pub open spec fn wf(&self) -> bool {
        &&& names_sorted(self.local_bookmarks@)
        &&& names_sorted(self.tags@)
        &&& names_sorted(self.git_refs@)
        &&& remotes_sorted(self.remote_bookmarks@)
        &&& unique_names(self.local_bookmarks@)
        &&& unique_names(self.tags@)
        &&& unique_names(self.git_refs@)
        &&& forall|i: int, j: int| 0 <= i < j < self.remote_bookmarks@.len() ==> !(
            self.remote_bookmarks@[i].name@ == self.remote_bookmarks@[j].name@
                && self.remote_bookmarks@[i].remote@ == self.remote_bookmarks@[j].remote@)
        &&& forall|i: int, j: int| 0 <= i < j < self.wc_commits@.len()
            ==> self.wc_commits@[i].workspace@ != self.wc_commits@[j].workspace@
        &&& forall|i: int| 0 <= i < self.local_bookmarks@.len() ==> (#[trigger] self.local_bookmarks@[i]).target.wf()
        &&& forall|i: int| 0 <= i < self.tags@.len() ==> (#[trigger] self.tags@[i]).target.wf()
        &&& forall|i: int| 0 <= i < self.git_refs@.len() ==> (#[trigger] self.git_refs@[i]).target.wf()
        &&& forall|i: int| 0 <= i < self.remote_bookmarks@.len() ==> (#[trigger] self.remote_bookmarks@[i]).remote_ref.target.wf()
        &&& self.git_head.wf()
    }
}

/// The target of `name`; absent where no entry has that name.
pub open spec fn lookup(s: Seq<NamedTarget>, name: Seq<u8>) -> RefTarget
    decreases s.len(),
{
    if s.len() == 0 {
        RefTarget::Absent
    } else if s[0].name@ == name {
        s[0].target
    } else {
        lookup(s.drop_first(), name)
    }
}

/// With unique names, looking a name up finds the one entry of that name.
pub proof fn lemma_lookup_unique(s: Seq<NamedTarget>, i: int)
    requires
        unique_names(s),
        0 <= i < s.len(),
    ensures
        lookup(s, s[i].name@) == s[i].target,
    decreases s.len(),
{
    if i > 0 {
        assert(s[0].name@ != s[i].name@);
        let rest = s.drop_first();
        assert(rest[i - 1] == s[i]);
        lemma_lookup_unique(rest, i - 1);
    }
}

/// The remote ref of `name@remote`; absent where no entry has that pair.
pub open spec fn lookup_remote(s: Seq<RemoteBookmark>, name: Seq<u8>, remote: Seq<u8>) -> RemoteRef
    decreases s.len(),
{
    if s.len() == 0 {
        RemoteRef { target: RefTarget::Absent, state: RemoteRefState::New }
    } else if s[0].name@ == name && s[0].remote@ == remote {
        s[0].remote_ref
    } else {
        lookup_remote(s.drop_first(), name, remote)
    }
}

/// The commit checked out in `ws`, if any.
pub open spec fn lookup_wc(s: Seq<WorkspaceCommit>, ws: Seq<u8>) -> Option<usize>
    decreases s.len(),
{
    if s.len() == 0 {
        None
    } else if s[0].workspace@ == ws {
        Some(s[0].commit)
    } else {
        lookup_wc(s.drop_first(), ws)
    }
}

/// The commits that the refs matching `p` point to.
pub open spec fn matching_ids(s: Seq<NamedTarget>, p: StringPattern, c: int) -> bool {
    exists|i: int| 0 <= i < s.len() && p.spec_matches(s[i].name@) && #[trigger] lists(target_ids(s[i].target), c)
}

/// The target of `name` in `s`.
pub fn find_target<'a>(s: &'a Vec<NamedTarget>, name: &Vec<u8>) -> (r: Option<&'a RefTarget>)
    ensures
        match r {
            Some(t) => *t == lookup(s@, name@),
            None => lookup(s@, name@) is Absent,
        },
{
    let mut i: usize = 0;
    assert(s@.subrange(0, s@.len() as int) =~= s@);
    while i < s.len()
        invariant
            i <= s@.len(),
            lookup(s@, name@) == lookup(s@.subrange(i as int, s@.len() as int), name@),
        decreases s@.len() - i,
    {
        let ghost rest = s@.subrange(i as int, s@.len() as int);
        assert(rest.drop_first() =~= s@.subrange(i + 1, s@.len() as int));
        assert(rest[0] == s@[i as int]);
        if bytes_eq(&s[i].name, name) {
            return Some(&s[i].target);
        }
        i = i + 1;
    }
    None
}

/// The remote ref of `name@remote` in `s`.
pub fn find_remote<'a>(s: &'a Vec<RemoteBookmark>, name: &Vec<u8>, remote: &Vec<u8>) -> (r: Option<&'a RemoteRef>)
    ensures
        match r {
            Some(t) => *t == lookup_remote(s@, name@, remote@),
            None => lookup_remote(s@, name@, remote@).target is Absent,
        },
{
    let mut i: usize = 0;
    assert(s@.subrange(0, s@.len() as int) =~= s@);
    while i < s.len()
        invariant
            i <= s@.len(),
            lookup_remote(s@, name@, remote@) == lookup_remote(s@.subrange(i as int, s@.len() as int), name@, remote@),
        decreases s@.len() - i,
    {
        let ghost rest = s@.subrange(i as int, s@.len() as int);
        assert(rest.drop_first() =~= s@.subrange(i + 1, s@.len() as int));
        assert(rest[0] == s@[i as int]);
        if bytes_eq(&s[i].name, name) && bytes_eq(&s[i].remote, remote) {
            return Some(&s[i].remote_ref);
        }
        i = i + 1;
    }
    None
}

/// The commit checked out in workspace `ws`.
pub fn find_wc(s: &Vec<WorkspaceCommit>, ws: &Vec<u8>) -> (r: Option<usize>)
    ensures
        r == lookup_wc(s@, ws@),
{
    let mut i: usize = 0;
    assert(s@.subrange(0, s@.len() as int) =~= s@);
    while i < s.len()
        invariant
            i <= s@.len(),
            lookup_wc(s@, ws@) == lookup_wc(s@.subrange(i as int, s@.len() as int), ws@),
        decreases s@.len() - i,
    {
        let ghost rest = s@.subrange(i as int, s@.len() as int);
        assert(rest.drop_first() =~= s@.subrange(i + 1, s@.len() as int));
        assert(rest[0] == s@[i as int]);
        if bytes_eq(&s[i].workspace, ws) {
            return Some(s[i].commit);
        }
        i = i + 1;
    }
    None
}

/// Appends `ids` to `out`.
pub fn push_all(out: &mut Vec<usize>, ids: &Vec<usize>)
    ensures
        final(out)@ == old(out)@ + ids@,
{
    let ghost start = out@;
    let mut i: usize = 0;
    while i < ids.len()
        invariant
            i <= ids@.len(),
            out@ == start + ids@.subrange(0, i as int),
        decreases ids@.len() - i,
    {
        out.push(ids[i]);
        i = i + 1;
        assert(out@ =~= start + ids@.subrange(0, i as int));
    }
    assert(ids@.subrange(0, ids@.len() as int) =~= ids@);
}

/// The commits that the refs in `s` whose names match `p` point to.
pub fn ids_matching(s: &Vec<NamedTarget>, p: &StringPattern) -> (r: Vec<usize>)
    ensures
        forall|c: int| lists(r@, c) <==> matching_ids(s@, *p, c),
{
    let mut out: Vec<usize> = Vec::new();
    let mut i: usize = 0;
    while i < s.len()
        invariant
            i <= s@.len(),
            forall|c: int| lists(out@, c) <==> matching_ids(s@.subrange(0, i as int), *p, c),
        decreases s@.len() - i,
    {
        let ghost before = out@;
        let ghost pre = s@.subrange(0, i as int);
        assert(forall|c: int| lists(before, c) <==> matching_ids(pre, *p, c));
        if p.matches(&s[i].name) {
            let ids = s[i].target.added_ids();
            push_all(&mut out, &ids);
        }
        proof {
            let cur = s@.subrange(0, i + 1);
            assert forall|c: int| lists(out@, c) <==> matching_ids(cur, *p, c) by {
                if lists(out@, c) {
                    let a = choose|a: int| 0 <= a < out@.len() && out@[a] == c;
                    if a < before.len() {
                        assert(lists(before, c));
                        let j = choose|j: int| 0 <= j < pre.len() && p.spec_matches(pre[j].name@) && #[trigger] lists(target_ids(pre[j].target), c);
                        assert(cur[j] == pre[j]);
                    } else {
                        assert(cur[i as int] == s@[i as int]);
                        assert(lists(target_ids(cur[i as int].target), c)) by {
                            assert(target_ids(s@[i as int].target)[a - before.len()] == c);
                        }
                    }
                }
                if matching_ids(cur, *p, c) {
                    let j = choose|j: int| 0 <= j < cur.len() && p.spec_matches(cur[j].name@) && #[trigger] lists(target_ids(cur[j].target), c);
                    let ids = target_ids(cur[j].target);
                    let b = choose|b: int| 0 <= b < ids.len() && ids[b] == c;
                    if j < i {
                        assert(pre[j] == cur[j]);
                        assert(matching_ids(pre, *p, c));
                        assert(lists(before, c));
                        let a = choose|a: int| 0 <= a < before.len() && before[a] == c;
                        assert(out@[a] == c);
                    } else {
                        assert(out@[before.len() + b] == c);
                    }
                }
            }
        }
        i = i + 1;
    }
    assert(s@.subrange(0, s@.len() as int) =~= s@);
    out
}

} // verus!
