//! Bookmark commands: which bookmarks a command selects and how it changes
//! them. The commands compute edits; applying them and reporting is left to
//! the caller.
use vstd::prelude::*;
use crate::dag::lists;
use crate::expr::is_ancestor;
use crate::graph::{is_anc, CommitGraph};
use crate::pattern::StringPattern;
use crate::refs::{copy_bytes, target_ids, RefTarget, RemoteRef, RemoteRefState};
use crate::resolver::{git_remote, is_git_remote};
use crate::view::{bytes_lt, names_sorted, remote_lt, remotes_sorted, NamedTarget, RemoteBookmark, RepoView};

verus! {

/// Why a bookmark command refused to run.
pub enum CommandError {
    /// The one unmatched pattern was an exact name.
    NoSuchBookmark(Vec<u8>),
    /// These patterns, by index, matched no bookmark.
    NoMatchingBookmarks(Vec<usize>),
    /// The one unmatched remote pattern was an exact `name@remote`.
    NoSuchRemoteBookmark { name: Vec<u8>, remote: Vec<u8> },
    /// These remote patterns, by index, matched no remote bookmark.
    NoMatchingRemoteBookmarks(Vec<usize>),
    /// Moving this bookmark would take it backwards or sideways.
    MoveBackwards(Vec<u8>),
}

/// One change to the view.
pub enum RefEdit {
    /// Point the local bookmark `name` at `target`.
    SetLocal { name: Vec<u8>, target: RefTarget },
    /// Replace the remote ref of `name@remote`.
    SetRemote { name: Vec<u8>, remote: Vec<u8>, remote_ref: RemoteRef },
    /// Stop tracking `name@remote`.
    Untrack { name: Vec<u8>, remote: Vec<u8> },
}

/// A pattern for `bookmark@remote`.
pub struct RemoteBookmarkNamePattern {
    pub bookmark: StringPattern,
    pub remote: StringPattern,
}

impl RemoteBookmarkNamePattern {
    pub open spec fn spec_matches(&self, b: RemoteBookmark) -> bool {
        self.bookmark.spec_matches(b.name@) && self.remote.spec_matches(b.remote@)
    }
}

/// Some eligible local bookmark of `s` matches `p`.
pub open spec fn hits_local(s: Seq<NamedTarget>, el: Seq<bool>, p: StringPattern) -> bool {
    exists|i: int| 0 <= i < s.len() && el[i] && #[trigger] p.spec_matches(s[i].name@)
}

/// Some remote bookmark of `s` matches `p`.
pub open spec fn hits_remote(s: Seq<RemoteBookmark>, p: RemoteBookmarkNamePattern) -> bool {
    exists|i: int| 0 <= i < s.len() && #[trigger] p.spec_matches(s[i])
}

/// Some pattern of `pats` matches the name `n`.
pub open spec fn any_pattern(pats: Seq<StringPattern>, n: Seq<u8>) -> bool {
    exists|k: int| 0 <= k < pats.len() && #[trigger] pats[k].spec_matches(n)
}

/// Indices strictly increasing.
pub open spec fn ascending(r: Seq<usize>) -> bool {
    forall|a: int, b: int| 0 <= a < b < r.len() ==> r[a] < r[b]
}

/// `r` lists, in order, exactly the indices below `n` that satisfy `f`.
pub open spec fn selects(r: Seq<usize>, n: int, f: spec_fn(int) -> bool) -> bool {
    &&& ascending(r)
    &&& forall|i: int| lists(r, i) <==> 0 <= i < n && f(i)
}

/// Every one of `n` positions.
pub open spec fn all_true(n: nat) -> Seq<bool> {
    Seq::new(n, |i: int| true)
}

/// For each pattern, whether it matches an eligible local bookmark.
pub open spec fn local_hits(s: Seq<NamedTarget>, el: Seq<bool>, pats: Seq<StringPattern>) -> Seq<bool> {
    Seq::new(pats.len(), |k: int| hits_local(s, el, pats[k]))
}

/// For each pattern, whether it matches a remote bookmark.
pub open spec fn remote_hits(s: Seq<RemoteBookmark>, pats: Seq<RemoteBookmarkNamePattern>) -> Seq<bool> {
    Seq::new(pats.len(), |k: int| hits_remote(s, pats[k]))
}

/// `ks` lists, in order, the patterns that `hit` marks as matching nothing.
pub open spec fn lists_misses(ks: Seq<usize>, hit: Seq<bool>) -> bool {
    &&& ascending(ks)
    &&& forall|i: int| lists(ks, i) <==> 0 <= i < hit.len() && !hit[i]
}

/// The error of a selection by name patterns, where `hit` tells which
/// patterns matched: `NoSuchBookmark` when the one pattern that matched
/// nothing is an exact name, else `NoMatchingBookmarks` listing every pattern
/// that matched nothing.
pub open spec fn pattern_error(pats: Seq<StringPattern>, hit: Seq<bool>, err: CommandError) -> bool {
    match err {
        CommandError::NoSuchBookmark(name) => exists|k: int| #![trigger pats[k]] 0 <= k < pats.len()
            && !hit[k] && (forall|j: int| 0 <= j < pats.len() && !hit[j] ==> j == k)
            && (pats[k] matches StringPattern::Exact(t) && name@ == t@),
        CommandError::NoMatchingBookmarks(ks) => lists_misses(ks@, hit)
            && !(ks@.len() == 1 && pats[ks@[0] as int] is Exact),
        _ => false,
    }
}

/// The error of a selection by `bookmark@remote` patterns, as
/// `pattern_error`; a lone missing pattern gives `NoSuchRemoteBookmark` when
/// both its parts are exact.
pub open spec fn remote_pattern_error(pats: Seq<RemoteBookmarkNamePattern>, hit: Seq<bool>, err: CommandError) -> bool {
    match err {
        CommandError::NoSuchRemoteBookmark { name, remote } => exists|k: int| #![trigger pats[k]] 0 <= k < pats.len()
            && !hit[k] && (forall|j: int| 0 <= j < pats.len() && !hit[j] ==> j == k)
            && (pats[k].bookmark matches StringPattern::Exact(t) && name@ == t@)
            && (pats[k].remote matches StringPattern::Exact(u) && remote@ == u@),
        CommandError::NoMatchingRemoteBookmarks(ks) => lists_misses(ks@, hit)
            && !(ks@.len() == 1 && pats[ks@[0] as int].bookmark is Exact && pats[ks@[0] as int].remote is Exact),
        _ => false,
    }
}

proof fn lemma_local_hits(s: Seq<NamedTarget>, el: Seq<bool>, pats: Seq<StringPattern>)
    ensures
        (forall|k: int| 0 <= k < local_hits(s, el, pats).len() ==> #[trigger] local_hits(s, el, pats)[k])
            <==> (forall|k: int| 0 <= k < pats.len() ==> hits_local(s, el, #[trigger] pats[k])),
{
    let hit = local_hits(s, el, pats);
    if forall|k: int| 0 <= k < hit.len() ==> #[trigger] hit[k] {
        assert forall|k: int| 0 <= k < pats.len() implies hits_local(s, el, #[trigger] pats[k]) by {
            assert(hit[k]);
        }
    }
    if forall|k: int| 0 <= k < pats.len() ==> hits_local(s, el, #[trigger] pats[k]) {
        assert forall|k: int| 0 <= k < hit.len() implies #[trigger] hit[k] by {
            assert(hits_local(s, el, pats[k]));
        }
    }
}

proof fn lemma_remote_hits(s: Seq<RemoteBookmark>, pats: Seq<RemoteBookmarkNamePattern>)
    ensures
        (forall|k: int| 0 <= k < remote_hits(s, pats).len() ==> #[trigger] remote_hits(s, pats)[k])
            <==> (forall|k: int| 0 <= k < pats.len() ==> hits_remote(s, #[trigger] pats[k])),
{
    let hit = remote_hits(s, pats);
    if forall|k: int| 0 <= k < hit.len() ==> #[trigger] hit[k] {
        assert forall|k: int| 0 <= k < pats.len() implies hits_remote(s, #[trigger] pats[k]) by {
            assert(hit[k]);
        }
    }
    if forall|k: int| 0 <= k < pats.len() ==> hits_remote(s, #[trigger] pats[k]) {
        assert forall|k: int| 0 <= k < hit.len() implies #[trigger] hit[k] by {
            assert(hits_remote(s, pats[k]));
        }
    }
}

/// The patterns of `pats` that match no eligible local bookmark, by index.
pub fn unmatched_local(s: &Vec<NamedTarget>, el: &Vec<bool>, pats: &Vec<StringPattern>) -> (r: Vec<usize>)
    requires
        el@.len() == s@.len(),
    ensures
        selects(r@, pats@.len() as int, |k: int| !hits_local(s@, el@, pats@[k])),
{
    let mut out: Vec<usize> = Vec::new();
    let mut k: usize = 0;
    while k < pats.len()
        invariant
            k <= pats@.len(),
            el@.len() == s@.len(),
            forall|a: int| 0 <= a < out@.len() ==> out@[a] < k,
            selects(out@, k as int, |j: int| !hits_local(s@, el@, pats@[j])),
        decreases pats@.len() - k,
    {
        let p = &pats[k];
        let mut hit = false;
        let mut i: usize = 0;
        while i < s.len()
            invariant
                i <= s@.len(),
                el@.len() == s@.len(),
                *p == pats@[k as int],
                hit == exists|j: int| 0 <= j < i && el@[j] && #[trigger] p.spec_matches(s@[j].name@),
            decreases s@.len() - i,
        {
            if el[i] && p.matches(&s[i].name) {
                hit = true;
            }
            i = i + 1;
        }
        let ghost before = out@;
        assert(forall|i: int| lists(before, i) <==> 0 <= i < k && !hits_local(s@, el@, pats@[i]));
        assert(hit == hits_local(s@, el@, pats@[k as int]));
        if !hit {
            out.push(k);
        }
        proof {
            assert forall|i: int| lists(out@, i) <==> 0 <= i < k + 1 && !hits_local(s@, el@, pats@[i]) by {
                if lists(out@, i) {
                    let a = choose|a: int| 0 <= a < out@.len() && out@[a] == i;
                    if a < before.len() {
                        assert(lists(before, i));
                    }
                }
                if 0 <= i < k && !hits_local(s@, el@, pats@[i]) {
                    assert(lists(before, i));
                    let a = choose|a: int| 0 <= a < before.len() && before[a] == i;
                    assert(out@[a] == i);
                }
                if i == k && !hit {
                    assert(out@[before.len() as int] == i);
                }
            }
        }
        k = k + 1;
    }
    out
}

/// The eligible local bookmarks that some pattern matches, by index in view
/// order.
pub fn matched_local(s: &Vec<NamedTarget>, el: &Vec<bool>, pats: &Vec<StringPattern>) -> (r: Vec<usize>)
    requires
        el@.len() == s@.len(),
    ensures
        selects(r@, s@.len() as int, |i: int| el@[i] && any_pattern(pats@, s@[i].name@)),
{
    let mut out: Vec<usize> = Vec::new();
    let mut i: usize = 0;
    while i < s.len()
        invariant
            i <= s@.len(),
            el@.len() == s@.len(),
            forall|a: int| 0 <= a < out@.len() ==> out@[a] < i,
            selects(out@, i as int, |j: int| el@[j] && any_pattern(pats@, s@[j].name@)),
        decreases s@.len() - i,
    {
        let name = &s[i].name;
        let mut hit = false;
        let mut k: usize = 0;
        while k < pats.len()
            invariant
                k <= pats@.len(),
                *name == s@[i as int].name,
                hit == exists|j: int| 0 <= j < k && #[trigger] pats@[j].spec_matches(name@),
            decreases pats@.len() - k,
        {
            if pats[k].matches(name) {
                hit = true;
            }
            k = k + 1;
        }
        let ghost before = out@;
        assert(forall|j: int| lists(before, j) <==> 0 <= j < i && el@[j] && any_pattern(pats@, s@[j].name@));
        assert(hit == any_pattern(pats@, s@[i as int].name@));
        let hit = hit && el[i];
        if hit {
            out.push(i);
        }
        proof {
            assert forall|j: int| lists(out@, j) <==> 0 <= j < i + 1 && el@[j] && any_pattern(pats@, s@[j].name@) by {
                if lists(out@, j) {
                    let a = choose|a: int| 0 <= a < out@.len() && out@[a] == j;
                    if a < before.len() {
                        assert(lists(before, j));
                    }
                }
                if 0 <= j < i && el@[j] && any_pattern(pats@, s@[j].name@) {
                    assert(lists(before, j));
                    let a = choose|a: int| 0 <= a < before.len() && before[a] == j;
                    assert(out@[a] == j);
                }
                if j == i && hit {
                    assert(out@[before.len() as int] == j);
                }
            }
        }
        i = i + 1;
    }
    out
}

/// The eligible local bookmarks selected by name patterns: each one that
/// some pattern matches, once, in view order (by name). Fails when a pattern
/// matches no eligible bookmark.
pub fn find_bookmarks_with(s: &Vec<NamedTarget>, el: &Vec<bool>, pats: &Vec<StringPattern>) -> (r: Result<Vec<usize>, CommandError>)
    requires
        el@.len() == s@.len(),
    ensures
        (forall|k: int| 0 <= k < pats@.len() ==> hits_local(s@, el@, #[trigger] pats@[k])) <==> r is Ok,
        r matches Ok(ix) ==> selects(ix@, s@.len() as int, |i: int| el@[i] && any_pattern(pats@, s@[i].name@)),
        r matches Ok(ix) ==> (names_sorted(s@) ==> forall|a: int, b: int| 0 <= a < b < ix@.len()
            ==> bytes_lt(s@[ix@[a] as int].name@, s@[ix@[b] as int].name@)),
        r matches Err(err) ==> pattern_error(pats@, local_hits(s@, el@, pats@), err),
{
    let unmatched = unmatched_local(s, el, pats);
    if unmatched.len() == 0 {
        proof {
            assert forall|k: int| 0 <= k < pats@.len() implies hits_local(s@, el@, #[trigger] pats@[k]) by {
                if !hits_local(s@, el@, pats@[k]) {
                    assert(lists(unmatched@, k));
                }
            }
        }
        let ix = matched_local(s, el, pats);
        proof {
            if names_sorted(s@) {
                assert forall|a: int, b: int| 0 <= a < b < ix@.len()
                    implies bytes_lt(s@[ix@[a] as int].name@, s@[ix@[b] as int].name@) by {
                    assert(lists(ix@, ix@[a] as int));
                    assert(lists(ix@, ix@[b] as int));
                }
            }
        }
        return Ok(ix);
    }
    assert(lists(unmatched@, unmatched@[0] as int));
    if unmatched.len() == 1 {
        let k = unmatched[0];
        if let StringPattern::Exact(t) = &pats[k] {
            proof {
                assert forall|j: int| #![trigger pats@[j]] 0 <= j < pats@.len()
                    && !hits_local(s@, el@, pats@[j]) implies j == k by {
                    assert(lists(unmatched@, j));
                }
            }
            return Err(CommandError::NoSuchBookmark(copy_bytes(t)));
        }
    }
    Err(CommandError::NoMatchingBookmarks(unmatched))
}

/// Flags set at all `n` positions.
pub fn all_eligible(n: usize) -> (r: Vec<bool>)
    ensures
        r@.len() == n,
        forall|i: int| 0 <= i < n ==> #[trigger] r@[i],
{
    let mut r: Vec<bool> = Vec::new();
    let mut i: usize = 0;
    while i < n
        invariant
            i <= n,
            r@.len() == i,
            forall|j: int| 0 <= j < i ==> #[trigger] r@[j],
        decreases n - i,
    {
        r.push(true);
        i = i + 1;
    }
    r
}

/// The local bookmarks selected by name patterns; see `find_bookmarks_with`.
pub fn find_local_bookmarks(view: &RepoView, pats: &Vec<StringPattern>) -> (r: Result<Vec<usize>, CommandError>)
    ensures
        (forall|k: int| 0 <= k < pats@.len() ==> hits_local(view.local_bookmarks@, all_true(view.local_bookmarks@.len()), #[trigger] pats@[k])) <==> r is Ok,
        r matches Err(err) ==> pattern_error(pats@, local_hits(view.local_bookmarks@, all_true(view.local_bookmarks@.len()), pats@), err),
        r matches Ok(ix) ==> selects(ix@, view.local_bookmarks@.len() as int, |i: int| any_pattern(pats@, view.local_bookmarks@[i].name@)),
{
    let el = all_eligible(view.local_bookmarks.len());
    assert(el@ =~= all_true(view.local_bookmarks@.len()));
    let r = find_bookmarks_with(&view.local_bookmarks, &el, pats);
    proof {
        if r is Ok {
            let ix = r->Ok_0;
            assert forall|i: int| lists(ix@, i) <==> 0 <= i < view.local_bookmarks@.len() && any_pattern(pats@, view.local_bookmarks@[i].name@) by {
                if 0 <= i < view.local_bookmarks@.len() {
                    assert(el@[i]);
                }
            }
        }
    }
    r
}

/// Some remote pattern of `pats` matches `b`.
pub open spec fn any_remote_pattern(pats: Seq<RemoteBookmarkNamePattern>, b: RemoteBookmark) -> bool {
    exists|k: int| 0 <= k < pats.len() && #[trigger] pats[k].spec_matches(b)
}

impl RemoteBookmarkNamePattern {
    /// Whether `b` matches both the bookmark and the remote pattern.
    pub fn matches(&self, b: &RemoteBookmark) -> (r: bool)
        ensures
            r == self.spec_matches(*b),
    {
        self.bookmark.matches(&b.name) && self.remote.matches(&b.remote)
    }

    /// Both parts are exact names.
    pub fn is_exact(&self) -> (r: bool)
        ensures
            r == (self.bookmark is Exact && self.remote is Exact),
    {
        self.bookmark.is_exact() && self.remote.is_exact()
    }
}

/// `ix` lists, in view order, the remote bookmarks of `s` that some pattern
/// of `pats` matches.
pub open spec fn picks_remote(ix: Seq<usize>, s: Seq<RemoteBookmark>, pats: Seq<RemoteBookmarkNamePattern>) -> bool {
    &&& ascending(ix)
    &&& forall|i: int| lists(ix, i) <==> 0 <= i < s.len() && any_remote_pattern(pats, s[i])
}

/// The remote patterns of `pats` that match no remote bookmark, by index.
pub fn unmatched_remote(s: &Vec<RemoteBookmark>, pats: &Vec<RemoteBookmarkNamePattern>) -> (r: Vec<usize>)
    ensures
        selects(r@, pats@.len() as int, |k: int| !hits_remote(s@, pats@[k])),
{
    let mut out: Vec<usize> = Vec::new();
    let mut k: usize = 0;
    while k < pats.len()
        invariant
            k <= pats@.len(),
            forall|a: int| 0 <= a < out@.len() ==> out@[a] < k,
            selects(out@, k as int, |j: int| !hits_remote(s@, pats@[j])),
        decreases pats@.len() - k,
    {
        let p = &pats[k];
        let mut hit = false;
        let mut i: usize = 0;
        while i < s.len()
            invariant
                i <= s@.len(),
                *p == pats@[k as int],
                hit == exists|j: int| 0 <= j < i && #[trigger] p.spec_matches(s@[j]),
            decreases s@.len() - i,
        {
            if p.matches(&s[i]) {
                hit = true;
            }
            i = i + 1;
        }
        let ghost before = out@;
        assert(forall|i: int| lists(before, i) <==> 0 <= i < k && !hits_remote(s@, pats@[i]));
        assert(hit == hits_remote(s@, pats@[k as int]));
        if !hit {
            out.push(k);
        }
        proof {
            assert forall|i: int| lists(out@, i) <==> 0 <= i < k + 1 && !hits_remote(s@, pats@[i]) by {
                if lists(out@, i) {
                    let a = choose|a: int| 0 <= a < out@.len() && out@[a] == i;
                    if a < before.len() {
                        assert(lists(before, i));
                    }
                }
                if 0 <= i < k && !hits_remote(s@, pats@[i]) {
                    assert(lists(before, i));
                    let a = choose|a: int| 0 <= a < before.len() && before[a] == i;
                    assert(out@[a] == i);
                }
                if i == k && !hit {
                    assert(out@[before.len() as int] == i);
                }
            }
        }
        k = k + 1;
    }
    out
}

/// The remote bookmarks that some pattern matches, by index in view order.
pub fn matched_remote(s: &Vec<RemoteBookmark>, pats: &Vec<RemoteBookmarkNamePattern>) -> (r: Vec<usize>)
    ensures
        selects(r@, s@.len() as int, |i: int| any_remote_pattern(pats@, s@[i])),
{
    let mut out: Vec<usize> = Vec::new();
    let mut i: usize = 0;
    while i < s.len()
        invariant
            i <= s@.len(),
            forall|a: int| 0 <= a < out@.len() ==> out@[a] < i,
            selects(out@, i as int, |j: int| any_remote_pattern(pats@, s@[j])),
        decreases s@.len() - i,
    {
        let b = &s[i];
        let mut hit = false;
        let mut k: usize = 0;
        while k < pats.len()
            invariant
                k <= pats@.len(),
                *b == s@[i as int],
                hit == exists|j: int| 0 <= j < k && #[trigger] pats@[j].spec_matches(*b),
            decreases pats@.len() - k,
        {
            if pats[k].matches(b) {
                hit = true;
            }
            k = k + 1;
        }
        let ghost before = out@;
        assert(forall|j: int| lists(before, j) <==> 0 <= j < i && any_remote_pattern(pats@, s@[j]));
        assert(hit == any_remote_pattern(pats@, s@[i as int]));
        if hit {
            out.push(i);
        }
        proof {
            assert forall|j: int| lists(out@, j) <==> 0 <= j < i + 1 && any_remote_pattern(pats@, s@[j]) by {
                if lists(out@, j) {
                    let a = choose|a: int| 0 <= a < out@.len() && out@[a] == j;
                    if a < before.len() {
                        assert(lists(before, j));
                    }
                }
                if 0 <= j < i && any_remote_pattern(pats@, s@[j]) {
                    assert(lists(before, j));
                    let a = choose|a: int| 0 <= a < before.len() && before[a] == j;
                    assert(out@[a] == j);
                }
                if j == i && hit {
                    assert(out@[before.len() as int] == j);
                }
            }
        }
        i = i + 1;
    }
    out
}

/// The remote bookmarks selected by `bookmark@remote` patterns: each one
/// that some pattern matches, once, in view order. Fails when a pattern
/// matches nothing.
pub fn find_remote_bookmarks(view: &RepoView, pats: &Vec<RemoteBookmarkNamePattern>) -> (r: Result<Vec<usize>, CommandError>)
    ensures
        (forall|k: int| 0 <= k < pats@.len() ==> hits_remote(view.remote_bookmarks@, #[trigger] pats@[k])) <==> r is Ok,
        r matches Ok(ix) ==> picks_remote(ix@, view.remote_bookmarks@, pats@),
        r matches Ok(ix) ==> (remotes_sorted(view.remote_bookmarks@) ==> forall|a: int, b: int| 0 <= a < b < ix@.len()
            ==> #[trigger] remote_lt(view.remote_bookmarks@[ix@[a] as int], view.remote_bookmarks@[ix@[b] as int])),
        r matches Err(err) ==> remote_pattern_error(pats@, remote_hits(view.remote_bookmarks@, pats@), err),
{
    let s = &view.remote_bookmarks;
    let unmatched = unmatched_remote(s, pats);
    if unmatched.len() == 0 {
        proof {
            assert forall|k: int| 0 <= k < pats@.len() implies hits_remote(s@, #[trigger] pats@[k]) by {
                if !hits_remote(s@, pats@[k]) {
                    assert(lists(unmatched@, k));
                }
            }
        }
        let ix = matched_remote(s, pats);
        assert(picks_remote(ix@, s@, pats@));
        proof {
            if remotes_sorted(s@) {
                assert forall|a: int, b: int| 0 <= a < b < ix@.len()
                    implies #[trigger] remote_lt(s@[ix@[a] as int], s@[ix@[b] as int]) by {
                    assert(lists(ix@, ix@[a] as int));
                    assert(lists(ix@, ix@[b] as int));
                }
            }
        }
        return Ok(ix);
    }
    assert(lists(unmatched@, unmatched@[0] as int));
    if unmatched.len() == 1 {
        let k = unmatched[0];
        if let StringPattern::Exact(t) = &pats[k].bookmark {
            if let StringPattern::Exact(u) = &pats[k].remote {
                proof {
                    assert forall|j: int| #![trigger pats@[j]] 0 <= j < pats@.len()
                        && !hits_remote(s@, pats@[j]) implies j == k by {
                        assert(lists(unmatched@, j));
                    }
                }
                return Err(CommandError::NoSuchRemoteBookmark { name: copy_bytes(t), remote: copy_bytes(u) });
            }
        }
    }
    Err(CommandError::NoMatchingRemoteBookmarks(unmatched))
}

/// Some tracked remote other than `git` holds a bookmark named `name`.
pub open spec fn spec_has_tracked(s: Seq<RemoteBookmark>, name: Seq<u8>) -> bool {
    exists|i: int| 0 <= i < s.len() && #[trigger] s[i].name@ == name && s[i].remote@ != git_remote()
        && s[i].remote_ref.state == RemoteRefState::Tracking
}

/// Whether the bookmark `name` tracks some remote (the `git` remote aside).
pub fn has_tracked_remote_bookmarks(view: &RepoView, name: &Vec<u8>) -> (r: bool)
    ensures
        r == spec_has_tracked(view.remote_bookmarks@, name@),
{
    let s = &view.remote_bookmarks;
    let mut i: usize = 0;
    while i < s.len()
        invariant
            i <= s@.len(),
            *s == view.remote_bookmarks,
            forall|j: int| 0 <= j < i ==> !(#[trigger] s@[j].name@ == name@ && s@[j].remote@ != git_remote()
                && s@[j].remote_ref.state == RemoteRefState::Tracking),
        decreases s@.len() - i,
    {
        let b = &s[i];
        if crate::refs::bytes_eq(&b.name, name) && !is_git_remote(&b.remote) && b.remote_ref.is_tracking() {
            return true;
        }
        i = i + 1;
    }
    false
}

/// Moving a bookmark from `old` to `new` goes forward: the bookmark is new,
/// or one of its commits is an ancestor of `new`.
pub open spec fn fast_forward(ps: Seq<Seq<usize>>, old: RefTarget, new: int) -> bool {
    !old.spec_is_present() || exists|k: int| 0 <= k < target_ids(old).len()
        && #[trigger] is_anc(ps, target_ids(old)[k] as int, new)
}

/// Whether moving a bookmark from `old` to `new` goes forward.
pub fn is_fast_forward(g: &CommitGraph, old: &RefTarget, new: usize) -> (r: bool)
    requires
        g.wf(),
    ensures
        r == fast_forward(g.ps(), *old, new as int),
{
    if !old.is_present() {
        return true;
    }
    let ids = old.added_ids();
    let mut k: usize = 0;
    while k < ids.len()
        invariant
            g.wf(),
            k <= ids@.len(),
            ids@ == target_ids(*old),
            forall|j: int| 0 <= j < k ==> !#[trigger] is_anc(g.ps(), ids@[j] as int, new as int),
        decreases ids@.len() - k,
    {
        if is_ancestor(g, ids[k], new) {
            return true;
        }
        k = k + 1;
    }
    false
}

/// Arguments of `bookmark delete`.
pub struct BookmarkDeleteArgs {
    /// The bookmarks to delete.
    pub names: Vec<StringPattern>,
}

/// Arguments of `bookmark forget`.
pub struct BookmarkForgetArgs {
    /// The bookmarks to forget.
    pub names: Vec<StringPattern>,
}

/// Arguments of `bookmark move`.
pub struct BookmarkMoveArgs {
    /// Move the bookmarks on these commits; when empty, every commit is a
    /// source.
    pub from: Vec<usize>,
    /// The commit to move the bookmarks to.
    pub to: usize,
    /// Allow moving bookmarks backwards or sideways.
    pub allow_backwards: bool,
    /// Move the bookmarks matching these patterns.
    pub names: Vec<StringPattern>,
}

/// Arguments of `bookmark untrack`.
pub struct BookmarkUntrackArgs {
    /// The remote bookmarks to stop tracking.
    pub names: Vec<RemoteBookmarkNamePattern>,
}

/// A bookmark subcommand.
pub enum BranchCommand {
    Delete(BookmarkDeleteArgs),
    Forget(BookmarkForgetArgs),
    Move(BookmarkMoveArgs),
    Untrack(BookmarkUntrackArgs),
}

/// Something a command skipped and tells the user about.
pub enum BookmarkNotice {
    /// A bookmark of the `git` remote cannot be untracked.
    GitTrackingCannotBeUntracked { name: Vec<u8>, remote: Vec<u8> },
    /// The remote bookmark was not tracked.
    NotTrackedYet { name: Vec<u8>, remote: Vec<u8> },
}

/// What a bookmark command does to the view.
pub struct BookmarkChanges {
    /// The bookmarks the command selected, by index in their list of the
    /// view.
    pub selected: Vec<usize>,
    /// The remote bookmarks the command selected besides, by index.
    pub selected_remote: Vec<usize>,
    pub edits: Vec<RefEdit>,
    pub notices: Vec<BookmarkNotice>,
}

/// `edits[k]` points the local bookmark `s[ix[k]]` at `t`, for every `k`.
pub open spec fn sets_locals(edits: Seq<RefEdit>, s: Seq<NamedTarget>, ix: Seq<usize>, t: RefTarget) -> bool {
    &&& edits.len() == ix.len()
    &&& forall|k: int| 0 <= k < edits.len() ==> (#[trigger] edits[k] matches RefEdit::SetLocal { name, target }
        && ix[k] < s.len() && name@ == s[ix[k] as int].name@ && target == t)
}

/// Edits that point each local bookmark of `ix` at `t`.
fn set_locals(s: &Vec<NamedTarget>, ix: &Vec<usize>, t: &RefTarget) -> (r: Vec<RefEdit>)
    requires
        forall|k: int| 0 <= k < ix@.len() ==> #[trigger] ix@[k] < s@.len(),
        !(*t is Conflicted),
    ensures
        sets_locals(r@, s@, ix@, *t),
{
    let mut out: Vec<RefEdit> = Vec::new();
    let mut k: usize = 0;
    while k < ix.len()
        invariant
            k <= ix@.len(),
            !(*t is Conflicted),
            forall|j: int| 0 <= j < ix@.len() ==> #[trigger] ix@[j] < s@.len(),
            sets_locals(out@, s@, ix@.subrange(0, k as int), *t),
        decreases ix@.len() - k,
    {
        let target = match t {
            RefTarget::Normal(c) => RefTarget::Normal(*c),
            _ => RefTarget::Absent,
        };
        out.push(RefEdit::SetLocal { name: copy_bytes(&s[ix[k]].name), target });
        k = k + 1;
        assert forall|j: int| 0 <= j < out@.len() implies (#[trigger] out@[j] matches RefEdit::SetLocal { name, target }
            && ix@.subrange(0, k as int)[j] < s@.len() && name@ == s@[ix@.subrange(0, k as int)[j] as int].name@ && target == *t) by {
            if j < k - 1 {
                assert(ix@.subrange(0, k as int)[j] == ix@.subrange(0, k - 1)[j]);
            }
        }
    }
    assert(ix@.subrange(0, ix@.len() as int) =~= ix@);
    out
}

/// What `bookmark delete` gives: success exactly when every pattern matches
/// a local bookmark, and then an absent target for each selected bookmark;
/// else the pattern error.
pub open spec fn delete_outcome(view: RepoView, args: BookmarkDeleteArgs, r: Result<BookmarkChanges, CommandError>) -> bool {
    let l = view.local_bookmarks@;
    let hit = local_hits(l, all_true(l.len()), args.names@);
    &&& (forall|k: int| 0 <= k < hit.len() ==> #[trigger] hit[k]) <==> r is Ok
    &&& r matches Ok(ch) ==> ch.notices@.len() == 0
        && selects(ch.selected@, l.len() as int, |i: int| any_pattern(args.names@, l[i].name@))
        && sets_locals(ch.edits@, l, ch.selected@, RefTarget::Absent)
    &&& r matches Err(err) ==> pattern_error(args.names@, hit, err)
}

/// `bookmark delete`: makes every selected local bookmark absent.
pub fn cmd_bookmark_delete(view: &RepoView, args: &BookmarkDeleteArgs) -> (r: Result<BookmarkChanges, CommandError>)
    ensures
        delete_outcome(*view, *args, r),
{
    match find_local_bookmarks(view, &args.names) {
        Ok(ix) => {
            proof {
                assert forall|k: int| 0 <= k < ix@.len() implies #[trigger] ix@[k] < view.local_bookmarks@.len() by {
                    assert(lists(ix@, ix@[k] as int));
                }
            }
            let edits = set_locals(&view.local_bookmarks, &ix, &RefTarget::Absent);
            proof {
                lemma_local_hits(view.local_bookmarks@, all_true(view.local_bookmarks@.len()), args.names@);
            }
            Ok(BookmarkChanges { selected: ix, selected_remote: Vec::new(), edits, notices: Vec::new() })
        },
        Err(e) => {
            proof {
                lemma_local_hits(view.local_bookmarks@, all_true(view.local_bookmarks@.len()), args.names@);
            }
            Err(e)
        },
    }
}

/// The untrack command stops tracking remote bookmark `b`: it is tracked
/// and its remote is not `git`.
pub open spec fn untrackable(b: RemoteBookmark) -> bool {
    b.remote@ != git_remote() && b.remote_ref.state == RemoteRefState::Tracking
}

/// `edits[k]` stops tracking `s[ix[k]]`, and `notices` tells of the other
/// selected remote bookmarks, for every `k`.
pub open spec fn untrack_changes(edits: Seq<RefEdit>, notices: Seq<BookmarkNotice>, s: Seq<RemoteBookmark>, ix: Seq<usize>) -> bool {
    let sel = ix.filter(|i: usize| i < s.len() && untrackable(s[i as int]));
    let skip = ix.filter(|i: usize| !(i < s.len() && untrackable(s[i as int])));
    &&& edits.len() == sel.len()
    &&& forall|k: int| 0 <= k < sel.len() ==> (#[trigger] edits[k] matches RefEdit::Untrack { name, remote }
        && sel[k] < s.len() && name@ == s[sel[k] as int].name@ && remote@ == s[sel[k] as int].remote@)
    &&& notices.len() == skip.len()
    &&& forall|k: int| 0 <= k < skip.len() ==> skip[k] < s.len() && match #[trigger] notices[k] {
        BookmarkNotice::GitTrackingCannotBeUntracked { name, remote } =>
            s[skip[k] as int].remote@ == git_remote() && name@ == s[skip[k] as int].name@ && remote@ == s[skip[k] as int].remote@,
        BookmarkNotice::NotTrackedYet { name, remote } =>
            s[skip[k] as int].remote@ != git_remote() && s[skip[k] as int].remote_ref.state == RemoteRefState::New
                && name@ == s[skip[k] as int].name@ && remote@ == s[skip[k] as int].remote@,
    }
}

/// What `bookmark untrack` gives: success exactly when every pattern
/// matches a remote bookmark, and then the untrack edits and notices of the
/// selected ones; else the pattern error.
pub open spec fn untrack_outcome(view: RepoView, args: BookmarkUntrackArgs, r: Result<BookmarkChanges, CommandError>) -> bool {
    let s = view.remote_bookmarks@;
    let hit = remote_hits(s, args.names@);
    &&& (forall|k: int| 0 <= k < hit.len() ==> #[trigger] hit[k]) <==> r is Ok
    &&& r matches Ok(ch) ==> picks_remote(ch.selected@, s, args.names@)
        && untrack_changes(ch.edits@, ch.notices@, s, ch.selected@)
    &&& r matches Err(err) ==> remote_pattern_error(args.names@, hit, err)
}

/// `bookmark untrack`: stops tracking every selected remote bookmark that
/// is tracked, and tells of those of the `git` remote and those not tracked.
pub fn cmd_bookmark_untrack(view: &RepoView, args: &BookmarkUntrackArgs) -> (r: Result<BookmarkChanges, CommandError>)
    ensures
        untrack_outcome(*view, *args, r),
{
    match find_remote_bookmarks(view, &args.names) {
        Ok(ix) => {
            proof {
                lemma_remote_hits(view.remote_bookmarks@, args.names@);
            }
            Ok(untrack_selected(view, ix))
        },
        Err(e) => {
            proof {
                lemma_remote_hits(view.remote_bookmarks@, args.names@);
            }
            Err(e)
        },
    }
}

/// The changes that untrack the remote bookmarks of `ix`.
fn untrack_selected(view: &RepoView, ix: Vec<usize>) -> (ch: BookmarkChanges)
    requires
        forall|i: int| lists(ix@, i) ==> 0 <= i < view.remote_bookmarks@.len(),
    ensures
        ch.selected@ == ix@,
        untrack_changes(ch.edits@, ch.notices@, view.remote_bookmarks@, ix@),
{
    let s = &view.remote_bookmarks;
    proof {
        assert forall|j: int| 0 <= j < ix@.len() implies #[trigger] ix@[j] < s@.len() by {
            assert(lists(ix@, ix@[j] as int));
        }
        assert(ix@.subrange(0, 0) =~= Seq::<usize>::empty());
    }
    let mut edits: Vec<RefEdit> = Vec::new();
    let mut notices: Vec<BookmarkNotice> = Vec::new();
    let mut k: usize = 0;
    while k < ix.len()
        invariant
            k <= ix@.len(),
            *s == view.remote_bookmarks,
            forall|j: int| 0 <= j < ix@.len() ==> #[trigger] ix@[j] < s@.len(),
            untrack_changes(edits@, notices@, s@, ix@.subrange(0, k as int)),
        decreases ix@.len() - k,
    {
        let i = ix[k];
        let b = &s[i];
        let ghost pre = ix@.subrange(0, k as int);
        let ghost cur = ix@.subrange(0, k + 1);
        assert(cur =~= pre.push(i));
        let ghost fsel = |j: usize| j < s@.len() && untrackable(s@[j as int]);
        let ghost fskip = |j: usize| !(j < s@.len() && untrackable(s@[j as int]));
        proof {
            pre.lemma_filter_push(i, fsel);
            pre.lemma_filter_push(i, fskip);
        }
        if is_git_remote(&b.remote) {
            notices.push(BookmarkNotice::GitTrackingCannotBeUntracked { name: copy_bytes(&b.name), remote: copy_bytes(&b.remote) });
        } else if !b.remote_ref.is_tracking() {
            notices.push(BookmarkNotice::NotTrackedYet { name: copy_bytes(&b.name), remote: copy_bytes(&b.remote) });
        } else {
            edits.push(RefEdit::Untrack { name: copy_bytes(&b.name), remote: copy_bytes(&b.remote) });
        }
        k = k + 1;
    }
    assert(ix@.subrange(0, ix@.len() as int) =~= ix@);
    BookmarkChanges { selected: ix, selected_remote: Vec::new(), edits, notices }
}

/// Commit `c` is a source of a move from `from`: any commit when `from` is
/// empty.
pub open spec fn is_source(from: Seq<usize>, c: int) -> bool {
    from.len() == 0 || lists(from, c)
}

/// The target has a commit among the sources.
pub open spec fn on_source(t: RefTarget, from: Seq<usize>) -> bool {
    exists|k: int| 0 <= k < target_ids(t).len() && #[trigger] is_source(from, target_ids(t)[k] as int)
}

/// The local bookmarks that stand on a source commit.
pub open spec fn move_eligible(view: RepoView, from: Seq<usize>) -> Seq<bool> {
    Seq::new(view.local_bookmarks@.len(), |i: int| on_source(view.local_bookmarks@[i].target, from))
}

/// The target is already exactly the commit `to`.
pub open spec fn already_at(t: RefTarget, to: usize) -> bool {
    t matches RefTarget::Normal(c) && c == to
}

/// `bookmark move` moves local bookmark `i`: it stands on a source, a name
/// pattern matches it (when there are any), and it is not already at the
/// destination.
pub open spec fn moved(view: RepoView, args: BookmarkMoveArgs, i: int) -> bool {
    let b = view.local_bookmarks@[i];
    &&& on_source(b.target, args.from@)
    &&& (args.names@.len() == 0 || any_pattern(args.names@, b.name@))
    &&& !already_at(b.target, args.to)
}

/// Whether a commit of `t` is a source.
fn stands_on_source(t: &RefTarget, from: &Vec<usize>) -> (r: bool)
    ensures
        r == on_source(*t, from@),
{
    let ids = t.added_ids();
    let mut k: usize = 0;
    while k < ids.len()
        invariant
            k <= ids@.len(),
            ids@ == target_ids(*t),
            forall|j: int| 0 <= j < k ==> !#[trigger] is_source(from@, ids@[j] as int),
        decreases ids@.len() - k,
    {
        let c = ids[k];
        let mut found = from.len() == 0;
        let mut a: usize = 0;
        while a < from.len()
            invariant
                a <= from@.len(),
                found == (from@.len() == 0 || exists|b: int| 0 <= b < a && from@[b] == c),
            decreases from@.len() - a,
        {
            if from[a] == c {
                found = true;
            }
            a = a + 1;
        }
        if found {
            proof {
                if from@.len() > 0 {
                    let b = choose|b: int| 0 <= b < a && from@[b] == c;
                    assert(lists(from@, c as int));
                }
                assert(is_source(from@, ids@[k as int] as int));
            }
            return true;
        }
        k = k + 1;
    }
    false
}

/// Whether some pattern matches `name`.
fn any_matches(pats: &Vec<StringPattern>, name: &Vec<u8>) -> (r: bool)
    ensures
        r == any_pattern(pats@, name@),
{
    let mut k: usize = 0;
    while k < pats.len()
        invariant
            k <= pats@.len(),
            forall|j: int| 0 <= j < k ==> !#[trigger] pats@[j].spec_matches(name@),
        decreases pats@.len() - k,
    {
        if pats[k].matches(name) {
            return true;
        }
        k = k + 1;
    }
    false
}

/// What `bookmark move` gives. It succeeds exactly when every pattern
/// matches a bookmark on a source commit and, unless allowed, no move goes
/// backwards or sideways. A pattern error comes first; else the refusal
/// names the first bookmark, in view order, that would not go forward.
pub open spec fn move_outcome(g: CommitGraph, view: RepoView, args: BookmarkMoveArgs, r: Result<BookmarkChanges, CommandError>) -> bool {
    let l = view.local_bookmarks@;
    let hit = local_hits(l, move_eligible(view, args.from@), args.names@);
    let patterns_ok = forall|k: int| 0 <= k < hit.len() ==> #[trigger] hit[k];
    let forward_ok = args.allow_backwards || forall|i: int| 0 <= i < l.len()
        && #[trigger] moved(view, args, i) ==> fast_forward(g.ps(), l[i].target, args.to as int);
    &&& (patterns_ok && forward_ok) <==> r is Ok
    &&& !patterns_ok ==> (r matches Err(err) && pattern_error(args.names@, hit, err))
    &&& (patterns_ok && !forward_ok) ==> (r matches Err(CommandError::MoveBackwards(_)))
    &&& r matches Ok(ch) ==> ch.notices@.len() == 0
        && selects(ch.selected@, l.len() as int, |i: int| moved(view, args, i))
        && sets_locals(ch.edits@, l, ch.selected@, RefTarget::Normal(args.to))
    &&& r matches Err(CommandError::MoveBackwards(name)) ==> !args.allow_backwards && patterns_ok
        && exists|i: int| 0 <= i < l.len() && #[trigger] moved(view, args, i)
            && !fast_forward(g.ps(), l[i].target, args.to as int)
            && name@ == l[i].name@
            && (forall|j: int| 0 <= j < i && #[trigger] moved(view, args, j) ==> fast_forward(g.ps(), l[j].target, args.to as int))
            && (names_sorted(l) ==> forall|j: int| 0 <= j < l.len() && j != i && #[trigger] moved(view, args, j)
                && !fast_forward(g.ps(), l[j].target, args.to as int) ==> bytes_lt(l[i].name@, l[j].name@))
}

/// `bookmark move`: points the selected local bookmarks at `to`. Refuses to
/// move one backwards or sideways unless that is allowed.
pub fn cmd_bookmark_move(g: &CommitGraph, view: &RepoView, args: &BookmarkMoveArgs) -> (r: Result<BookmarkChanges, CommandError>)
    requires
        g.wf(),
    ensures
        move_outcome(*g, *view, *args, r),
{
    let s = &view.local_bookmarks;
    let ghost elv = move_eligible(*view, args.from@);
    let mut el: Vec<bool> = Vec::new();
    let mut i: usize = 0;
    while i < s.len()
        invariant
            i <= s@.len(),
            *s == view.local_bookmarks,
            elv == move_eligible(*view, args.from@),
            elv.len() == s@.len(),
            el@ == elv.subrange(0, i as int),
        decreases s@.len() - i,
    {
        el.push(stands_on_source(&s[i].target, &args.from));
        i = i + 1;
        assert(el@ =~= elv.subrange(0, i as int));
    }
    assert(el@ =~= elv);
    proof {
        lemma_local_hits(s@, elv, args.names@);
    }
    if args.names.len() > 0 {
        match find_bookmarks_with(s, &el, &args.names) {
            Ok(_) => {},
            Err(e) => {
                return Err(e);
            },
        }
    }
    let ghost hit = local_hits(s@, elv, args.names@);
    assert(forall|k: int| 0 <= k < hit.len() ==> #[trigger] hit[k]);
    let mut kept: Vec<usize> = Vec::new();
    let mut i: usize = 0;
    while i < s.len()
        invariant
            i <= s@.len(),
            *s == view.local_bookmarks,
            el@ == elv,
            elv.len() == s@.len(),
            elv == move_eligible(*view, args.from@),
            hit == local_hits(s@, elv, args.names@),
            forall|k: int| 0 <= k < hit.len() ==> #[trigger] hit[k],
            forall|a: int| 0 <= a < kept@.len() ==> kept@[a] < i,
            selects(kept@, i as int, |j: int| moved(*view, *args, j)),
        decreases s@.len() - i,
    {
        let b = &s[i];
        let at = match b.target.as_normal() {
            Some(c) => c == args.to,
            None => false,
        };
        let take = el[i] && (args.names.len() == 0 || any_matches(&args.names, &b.name)) && !at;
        assert(take == moved(*view, *args, i as int));
        let ghost before = kept@;
        assert(forall|j: int| lists(before, j) <==> 0 <= j < i && moved(*view, *args, j));
        if take {
            kept.push(i);
        }
        proof {
            assert forall|j: int| lists(kept@, j) <==> 0 <= j < i + 1 && moved(*view, *args, j) by {
                if lists(kept@, j) {
                    let a = choose|a: int| 0 <= a < kept@.len() && kept@[a] == j;
                    if a < before.len() {
                        assert(lists(before, j));
                    }
                }
                if 0 <= j < i && moved(*view, *args, j) {
                    assert(lists(before, j));
                    let a = choose|a: int| 0 <= a < before.len() && before[a] == j;
                    assert(kept@[a] == j);
                }
                if j == i && take {
                    assert(kept@[before.len() as int] == j);
                }
            }
        }
        i = i + 1;
    }
    proof {
        assert forall|k: int| 0 <= k < kept@.len() implies #[trigger] kept@[k] < s@.len() by {
            assert(lists(kept@, kept@[k] as int));
        }
    }
    if !args.allow_backwards {
        match first_backward(g, s, &kept, args.to) {
            Some(k) => {
                let ghost idx = kept@[k as int] as int;
                assert(lists(kept@, idx));
                proof {
                    assert forall|j: int| 0 <= j < idx && #[trigger] moved(*view, *args, j)
                        implies fast_forward(g.ps(), s@[j].target, args.to as int) by {
                        assert(lists(kept@, j));
                        let a = choose|a: int| 0 <= a < kept@.len() && kept@[a] == j;
                        if a >= k {
                            if a > k {
                                assert(kept@[k as int] < kept@[a]);
                            }
                        }
                        assert(fast_forward(g.ps(), s@[kept@[a] as int].target, args.to as int));
                    }
                }
                let name = copy_bytes(&s[kept[k]].name);
                return Err(CommandError::MoveBackwards(name));
            },
            None => {
                proof {
                    assert forall|i: int| 0 <= i < s@.len() && #[trigger] moved(*view, *args, i)
                        implies fast_forward(g.ps(), s@[i].target, args.to as int) by {
                        assert(lists(kept@, i));
                        let a = choose|a: int| 0 <= a < kept@.len() && kept@[a] == i;
                    }
                }
            },
        }
    }
    let edits = set_locals(s, &kept, &RefTarget::Normal(args.to));
    Ok(BookmarkChanges { selected: kept, selected_remote: Vec::new(), edits, notices: Vec::new() })
}

/// The first of the bookmarks `kept` whose move to `to` would not go
/// forward, by its place in `kept`.
fn first_backward(g: &CommitGraph, s: &Vec<NamedTarget>, kept: &Vec<usize>, to: usize) -> (r: Option<usize>)
    requires
        g.wf(),
        forall|j: int| 0 <= j < kept@.len() ==> #[trigger] kept@[j] < s@.len(),
    ensures
        match r {
            Some(k) => k < kept@.len() && !fast_forward(g.ps(), s@[kept@[k as int] as int].target, to as int)
                && forall|j: int| 0 <= j < k ==> fast_forward(g.ps(), s@[#[trigger] kept@[j] as int].target, to as int),
            None => forall|j: int| 0 <= j < kept@.len() ==> fast_forward(g.ps(), s@[#[trigger] kept@[j] as int].target, to as int),
        },
{
    let mut k: usize = 0;
    while k < kept.len()
        invariant
            g.wf(),
            k <= kept@.len(),
            forall|j: int| 0 <= j < kept@.len() ==> #[trigger] kept@[j] < s@.len(),
            forall|j: int| 0 <= j < k ==> fast_forward(g.ps(), s@[#[trigger] kept@[j] as int].target, to as int),
        decreases kept@.len() - k,
    {
        if !is_fast_forward(g, &s[kept[k]].target, to) {
            return Some(k);
        }
        k = k + 1;
    }
    None
}

/// Runs a bookmark subcommand against the view: the edits to apply, or why
/// none.
pub fn cmd_bookmark(g: &CommitGraph, view: &RepoView, subcommand: &BranchCommand) -> (r: Result<BookmarkChanges, CommandError>)
    requires
        g.wf(),
    ensures
        match subcommand {
            BranchCommand::Delete(args) => delete_outcome(*view, *args, r),
            BranchCommand::Forget(args) => forget_outcome(*view, *args, r),
            BranchCommand::Move(args) => move_outcome(*g, *view, *args, r),
            BranchCommand::Untrack(args) => untrack_outcome(*view, *args, r),
        },
{
    match subcommand {
        BranchCommand::Delete(args) => cmd_bookmark_delete(view, args),
        BranchCommand::Forget(args) => cmd_bookmark_forget(view, args),
        BranchCommand::Move(args) => cmd_bookmark_move(g, view, args),
        BranchCommand::Untrack(args) => cmd_bookmark_untrack(view, args),
    }
}

/// Some remote bookmark of `s` has a name that `p` matches.
pub open spec fn hits_remote_name(s: Seq<RemoteBookmark>, p: StringPattern) -> bool {
    exists|i: int| 0 <= i < s.len() && #[trigger] p.spec_matches(s[i].name@)
}

/// The forget edits: the selected local bookmarks made absent, then the
/// selected remote bookmarks made absent, in that order.
pub open spec fn forgets(edits: Seq<RefEdit>, view: RepoView, ix: Seq<usize>, rx: Seq<usize>) -> bool {
    let s = view.remote_bookmarks@;
    &&& sets_locals(edits.subrange(0, ix.len() as int), view.local_bookmarks@, ix, RefTarget::Absent)
    &&& edits.len() == ix.len() + rx.len()
    &&& forall|m: int| 0 <= m < rx.len() ==> (#[trigger] edits[ix.len() + m] matches RefEdit::SetRemote { name, remote, remote_ref }
        && rx[m] < s.len() && name@ == s[rx[m] as int].name@ && remote@ == s[rx[m] as int].remote@
        && remote_ref.target is Absent && remote_ref.state == RemoteRefState::New)
}

/// The remote bookmarks whose names some pattern matches, by index.
fn matched_remote_names(s: &Vec<RemoteBookmark>, pats: &Vec<StringPattern>) -> (r: Vec<usize>)
    ensures
        selects(r@, s@.len() as int, |i: int| any_pattern(pats@, s@[i].name@)),
{
    let mut out: Vec<usize> = Vec::new();
    let mut i: usize = 0;
    while i < s.len()
        invariant
            i <= s@.len(),
            forall|a: int| 0 <= a < out@.len() ==> out@[a] < i,
            selects(out@, i as int, |j: int| any_pattern(pats@, s@[j].name@)),
        decreases s@.len() - i,
    {
        let hit = any_matches(pats, &s[i].name);
        let ghost before = out@;
        assert(forall|j: int| lists(before, j) <==> 0 <= j < i && any_pattern(pats@, s@[j].name@));
        if hit {
            out.push(i);
        }
        proof {
            assert forall|j: int| lists(out@, j) <==> 0 <= j < i + 1 && any_pattern(pats@, s@[j].name@) by {
                if lists(out@, j) {
                    let a = choose|a: int| 0 <= a < out@.len() && out@[a] == j;
                    if a < before.len() {
                        assert(lists(before, j));
                    }
                }
                if 0 <= j < i && any_pattern(pats@, s@[j].name@) {
                    assert(lists(before, j));
                    let a = choose|a: int| 0 <= a < before.len() && before[a] == j;
                    assert(out@[a] == j);
                }
                if j == i && hit {
                    assert(out@[before.len() as int] == j);
                }
            }
        }
        i = i + 1;
    }
    out
}

/// For each pattern, whether it matches a local or a remote bookmark's name.
pub open spec fn forget_hits(view: RepoView, pats: Seq<StringPattern>) -> Seq<bool> {
    Seq::new(pats.len(), |k: int| hits_local(view.local_bookmarks@, all_true(view.local_bookmarks@.len()), pats[k])
        || hits_remote_name(view.remote_bookmarks@, pats[k]))
}

/// What `bookmark forget` gives: success exactly when every pattern matches
/// a local or a remote bookmark's name, and then the forget edits; else the
/// pattern error.
pub open spec fn forget_outcome(view: RepoView, args: BookmarkForgetArgs, r: Result<BookmarkChanges, CommandError>) -> bool {
    let hit = forget_hits(view, args.names@);
    &&& (forall|k: int| 0 <= k < hit.len() ==> #[trigger] hit[k]) <==> r is Ok
    &&& r matches Ok(ch) ==> ch.notices@.len() == 0
        && selects(ch.selected@, view.local_bookmarks@.len() as int, |i: int| any_pattern(args.names@, view.local_bookmarks@[i].name@))
        && selects(ch.selected_remote@, view.remote_bookmarks@.len() as int, |i: int| any_pattern(args.names@, view.remote_bookmarks@[i].name@))
        && forgets(ch.edits@, view, ch.selected@, ch.selected_remote@)
    &&& r matches Err(err) ==> pattern_error(args.names@, hit, err)
}

/// `bookmark forget`: makes every selected bookmark absent, locally and on
/// every remote. A pattern must match a local or a remote bookmark's name.
pub fn cmd_bookmark_forget(view: &RepoView, args: &BookmarkForgetArgs) -> (r: Result<BookmarkChanges, CommandError>)
    ensures
        forget_outcome(*view, *args, r),
{
    let pats = &args.names;
    let s = &view.remote_bookmarks;
    let ghost all = all_true(view.local_bookmarks@.len());
    let el = all_eligible(view.local_bookmarks.len());
    assert(el@ =~= all);
    let ghost hits = forget_hits(*view, pats@);
    // The patterns that match no local and no remote name.
    let mut missing: Vec<usize> = Vec::new();
    let mut k: usize = 0;
    while k < pats.len()
        invariant
            k <= pats@.len(),
            el@ == all,
            all == all_true(view.local_bookmarks@.len()),
            *s == view.remote_bookmarks,
            hits == forget_hits(*view, pats@),
            forall|m: int| 0 <= m < missing@.len() ==> missing@[m] < k,
            lists_misses(missing@, hits.subrange(0, k as int)),
        decreases pats@.len() - k,
    {
        let p = &pats[k];
        let mut hit = false;
        let mut i: usize = 0;
        while i < view.local_bookmarks.len()
            invariant
                i <= view.local_bookmarks@.len(),
                *p == pats@[k as int],
                el@ == all,
                all == all_true(view.local_bookmarks@.len()),
                hit == exists|j: int| 0 <= j < i && all[j] && #[trigger] p.spec_matches(view.local_bookmarks@[j].name@),
            decreases view.local_bookmarks@.len() - i,
        {
            if p.matches(&view.local_bookmarks[i].name) {
                hit = true;
            }
            i = i + 1;
        }
        let mut i: usize = 0;
        while i < s.len()
            invariant
                i <= s@.len(),
                *p == pats@[k as int],
                *s == view.remote_bookmarks,
                all == all_true(view.local_bookmarks@.len()),
                hit == (hits_local(view.local_bookmarks@, all, pats@[k as int])
                    || exists|j: int| 0 <= j < i && #[trigger] p.spec_matches(s@[j].name@)),
            decreases s@.len() - i,
        {
            if p.matches(&s[i].name) {
                hit = true;
            }
            i = i + 1;
        }
        assert(hit == hits[k as int]);
        let ghost before = missing@;
        assert(hits.subrange(0, k + 1).subrange(0, k as int) =~= hits.subrange(0, k as int));
        if !hit {
            missing.push(k);
        }
        proof {
            let cur = hits.subrange(0, k + 1);
            assert forall|i: int| lists(missing@, i) <==> 0 <= i < cur.len() && !cur[i] by {
                if lists(missing@, i) {
                    let c = choose|c: int| 0 <= c < missing@.len() && missing@[c] == i;
                    if c < before.len() {
                        assert(lists(before, i));
                    }
                }
                if 0 <= i < k && !cur[i] {
                    assert(hits.subrange(0, k as int)[i] == cur[i]);
                    assert(lists(before, i));
                    let c = choose|c: int| 0 <= c < before.len() && before[c] == i;
                    assert(missing@[c] == i);
                }
                if i == k && !hit {
                    assert(missing@[before.len() as int] == i);
                }
                if lists(before, i) {
                    assert(hits.subrange(0, k as int)[i] == cur[i]);
                }
            }
        }
        k = k + 1;
    }
    assert(hits.subrange(0, pats@.len() as int) =~= hits);
    if missing.len() > 0 {
        assert(lists(missing@, missing@[0] as int));
        if missing.len() == 1 {
            if let StringPattern::Exact(t) = &pats[missing[0]] {
                proof {
                    assert forall|j: int| 0 <= j < pats@.len() && !hits[j] implies j == missing@[0] by {
                        assert(lists(missing@, j));
                    }
                }
                return Err(CommandError::NoSuchBookmark(copy_bytes(t)));
            }
        }
        return Err(CommandError::NoMatchingBookmarks(missing));
    }
    proof {
        assert forall|k: int| 0 <= k < hits.len() implies #[trigger] hits[k] by {
            if !hits[k] {
                assert(lists(missing@, k));
            }
        }
        assert forall|k: int| 0 <= k < pats@.len() implies (hits_local(view.local_bookmarks@, all, #[trigger] pats@[k])
            || hits_remote_name(s@, pats@[k])) by {
            assert(hits[k]);
        }
    }
    let ix = matched_local(&view.local_bookmarks, &el, pats);
    proof {
        assert forall|k: int| 0 <= k < ix@.len() implies #[trigger] ix@[k] < view.local_bookmarks@.len() by {
            assert(lists(ix@, ix@[k] as int));
        }
        assert forall|i: int| lists(ix@, i) <==> 0 <= i < view.local_bookmarks@.len() && any_pattern(pats@, view.local_bookmarks@[i].name@) by {
            if 0 <= i < view.local_bookmarks@.len() {
                assert(el@[i]);
            }
        }
    }
    let mut edits = set_locals(&view.local_bookmarks, &ix, &RefTarget::Absent);
    let rx = matched_remote_names(s, pats);
    proof {
        assert forall|k: int| 0 <= k < rx@.len() implies #[trigger] rx@[k] < s@.len() by {
            assert(lists(rx@, rx@[k] as int));
        }
        assert(edits@.subrange(0, ix@.len() as int) =~= edits@);
    }
    let ghost head = edits@;
    let mut m: usize = 0;
    while m < rx.len()
        invariant
            m <= rx@.len(),
            *s == view.remote_bookmarks,
            head.len() == ix@.len(),
            forall|j: int| 0 <= j < rx@.len() ==> #[trigger] rx@[j] < s@.len(),
            edits@.len() == ix@.len() + m,
            edits@.subrange(0, ix@.len() as int) == head,
            forall|j: int| 0 <= j < m ==> (#[trigger] edits@[ix@.len() + j] matches RefEdit::SetRemote { name, remote, remote_ref }
                && name@ == s@[rx@[j] as int].name@ && remote@ == s@[rx@[j] as int].remote@
                && remote_ref.target is Absent && remote_ref.state == RemoteRefState::New),
        decreases rx@.len() - m,
    {
        let e = &s[rx[m]];
        let ghost prev = edits@;
        edits.push(RefEdit::SetRemote {
            name: copy_bytes(&e.name),
            remote: copy_bytes(&e.remote),
            remote_ref: RemoteRef { target: RefTarget::Absent, state: RemoteRefState::New },
        });
        assert(edits@.subrange(0, ix@.len() as int) =~= prev.subrange(0, ix@.len() as int));
        m = m + 1;
    }
    Ok(BookmarkChanges { selected: ix, selected_remote: rx, edits, notices: Vec::new() })
}

} // verus!
