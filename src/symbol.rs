//! Resolving a bare symbol to commits: commit and change id prefixes first,
//! then tags, local bookmarks and raw refs.
use vstd::prelude::*;
use crate::graph::CommitGraph;
use crate::refs::{copy_bytes, target_ids};
use crate::view::{find_remote, find_target, lookup, lookup_remote, NamedTarget, RemoteBookmark, RepoView};

verus! {

/// Why a symbol or a query could not be resolved.
pub enum RevsetResolutionError {
    /// A quoted empty symbol.
    EmptyString,
    /// Nothing has this name; `candidates` are names close to it.
    NoSuchRevision { name: Vec<u8>, candidates: Vec<Vec<u8>> },
    /// The prefix matches more than one commit id.
    AmbiguousCommitIdPrefix(Vec<u8>),
    /// The prefix matches more than one change id.
    AmbiguousChangeIdPrefix(Vec<u8>),
    /// The workspace has no working-copy commit.
    WorkspaceMissingWorkingCopy(Vec<u8>),
}

/// The kind of a resolution error and the name it is about.
pub enum ResolutionFailure {
    EmptyString,
    NoSuchRevision(Seq<u8>),
    AmbiguousCommitIdPrefix(Seq<u8>),
    AmbiguousChangeIdPrefix(Seq<u8>),
    WorkspaceMissingWorkingCopy(Seq<u8>),
}

impl View for RevsetResolutionError {
    type V = ResolutionFailure;

    open spec fn view(&self) -> ResolutionFailure {
        match self {
            RevsetResolutionError::EmptyString => ResolutionFailure::EmptyString,
            RevsetResolutionError::NoSuchRevision { name, candidates } => ResolutionFailure::NoSuchRevision(name@),
            RevsetResolutionError::AmbiguousCommitIdPrefix(p) => ResolutionFailure::AmbiguousCommitIdPrefix(p@),
            RevsetResolutionError::AmbiguousChangeIdPrefix(p) => ResolutionFailure::AmbiguousChangeIdPrefix(p@),
            RevsetResolutionError::WorkspaceMissingWorkingCopy(w) => ResolutionFailure::WorkspaceMissingWorkingCopy(w@),
        }
    }
}

/// What looking a prefix up among ids found.
pub enum PrefixLookup {
    NoMatch,
    Unique(int),
    Ambiguous,
}

/// `p` is a prefix of `s`.
pub open spec fn is_prefix(p: Seq<u8>, s: Seq<u8>) -> bool {
    p.len() <= s.len() && s.subrange(0, p.len() as int) == p
}

/// A lower-case hexadecimal digit.
pub open spec fn is_hex_digit(b: u8) -> bool {
    (48 <= b <= 57) || (97 <= b <= 102)
}

/// A non-empty string of hexadecimal digits.
pub open spec fn is_hex(s: Seq<u8>) -> bool {
    s.len() > 0 && forall|i: int| 0 <= i < s.len() ==> is_hex_digit(#[trigger] s[i])
}

/// The id of commit `i`: its commit id, or its change id.
pub open spec fn id_of(g: CommitGraph, i: int, change: bool) -> Seq<u8> {
    if change {
        g.commits@[i].change_id@
    } else {
        g.commits@[i].commit_id@
    }
}

/// Commit `i` has an id that starts with `p`.
pub open spec fn id_matches(g: CommitGraph, p: Seq<u8>, i: int, change: bool) -> bool {
    0 <= i < g.len() && is_prefix(p, id_of(g, i, change))
}

/// Which commits have an id starting with `p`.
pub open spec fn prefix_lookup(g: CommitGraph, p: Seq<u8>, change: bool) -> PrefixLookup {
    if !exists|i: int| #[trigger] id_matches(g, p, i, change) {
        PrefixLookup::NoMatch
    } else if exists|i: int| #[trigger] id_matches(g, p, i, change)
        && forall|j: int| #[trigger] id_matches(g, p, j, change) ==> j == i {
        PrefixLookup::Unique(choose|i: int| #[trigger] id_matches(g, p, i, change)
            && forall|j: int| #[trigger] id_matches(g, p, j, change) ==> j == i)
    } else {
        PrefixLookup::Ambiguous
    }
}

/// `refs/heads/`, where a foreign VCS keeps its branches.
pub open spec fn heads_namespace() -> Seq<u8> {
    seq![114u8, 101u8, 102u8, 115u8, 47u8, 104u8, 101u8, 97u8, 100u8, 115u8, 47u8]
}

/// What the id prefixes say of a symbol: nothing when neither a commit id
/// nor a change id starts with it.
pub open spec fn id_result(g: CommitGraph, sym: Seq<u8>) -> Option<Result<Seq<usize>, ResolutionFailure>> {
    let commit = prefix_lookup(g, sym, false);
    let change = prefix_lookup(g, sym, true);
    if !is_hex(sym) {
        None
    } else if !(commit is NoMatch) {
        Some(match commit {
            PrefixLookup::Unique(i) => Ok(seq![i as usize]),
            _ => Err(ResolutionFailure::AmbiguousCommitIdPrefix(sym)),
        })
    } else if !(change is NoMatch) {
        Some(match change {
            PrefixLookup::Unique(i) => Ok(seq![i as usize]),
            _ => Err(ResolutionFailure::AmbiguousChangeIdPrefix(sym)),
        })
    } else {
        None
    }
}

/// What a symbol names as a ref: a tag, else a local bookmark, else a raw
/// branch ref.
pub open spec fn name_result(v: RepoView, sym: Seq<u8>) -> Result<Seq<usize>, ResolutionFailure> {
    let tag = lookup(v.tags@, sym);
    let local = lookup(v.local_bookmarks@, sym);
    let git = lookup(v.git_refs@, heads_namespace() + sym);
    if !(tag is Absent) {
        Ok(target_ids(tag))
    } else if !(local is Absent) {
        Ok(target_ids(local))
    } else if !(git is Absent) {
        Ok(target_ids(git))
    } else {
        Err(ResolutionFailure::NoSuchRevision(sym))
    }
}

/// What a bare symbol resolves to: the commits in order, or why none.
pub open spec fn symbol_result(g: CommitGraph, v: RepoView, sym: Seq<u8>) -> Result<Seq<usize>, ResolutionFailure> {
    if sym.len() == 0 {
        Err(ResolutionFailure::EmptyString)
    } else {
        match id_result(g, sym) {
            Some(r) => r,
            None => name_result(v, sym),
        }
    }
}

/// `name@remote`.
pub open spec fn remote_symbol_text(name: Seq<u8>, remote: Seq<u8>) -> Seq<u8> {
    name + seq![64u8] + remote
}

/// What `name@remote` resolves to: the commits of that remote bookmark,
/// whatever its tracking state.
pub open spec fn remote_symbol_result(v: RepoView, name: Seq<u8>, remote: Seq<u8>) -> Result<Seq<usize>, ResolutionFailure> {
    let r = lookup_remote(v.remote_bookmarks@, name, remote);
    if !(r.target is Absent) {
        Ok(target_ids(r.target))
    } else {
        Err(ResolutionFailure::NoSuchRevision(remote_symbol_text(name, remote)))
    }
}

/// Whether every byte is a hexadecimal digit, and there is one at least.
pub fn hex_text(s: &Vec<u8>) -> (r: bool)
    ensures
        r == is_hex(s@),
{
    if s.len() == 0 {
        return false;
    }
    let mut i: usize = 0;
    while i < s.len()
        invariant
            i <= s@.len(),
            forall|j: int| 0 <= j < i ==> is_hex_digit(#[trigger] s@[j]),
        decreases s@.len() - i,
    {
        let b = s[i];
        if !((48 <= b && b <= 57) || (97 <= b && b <= 102)) {
            assert(!is_hex_digit(s@[i as int]));
            return false;
        }
        i = i + 1;
    }
    true
}

/// Whether `p` is a prefix of `s`.
pub fn starts_with(s: &Vec<u8>, p: &Vec<u8>) -> (r: bool)
    ensures
        r == is_prefix(p@, s@),
{
    if p.len() > s.len() {
        return false;
    }
    let mut i: usize = 0;
    while i < p.len()
        invariant
            i <= p@.len(),
            p@.len() <= s@.len(),
            forall|j: int| 0 <= j < i ==> s@[j] == p@[j],
        decreases p@.len() - i,
    {
        if s[i] != p[i] {
            assert(s@.subrange(0, p@.len() as int)[i as int] != p@[i as int]);
            return false;
        }
        i = i + 1;
    }
    assert(s@.subrange(0, p@.len() as int) =~= p@);
    true
}

/// Looks `p` up among the commit ids, or the change ids.
pub fn lookup_prefix(g: &CommitGraph, p: &Vec<u8>, change: bool) -> (r: PrefixResult)
    ensures
        match prefix_lookup(*g, p@, change) {
            PrefixLookup::NoMatch => r is NoMatch,
            PrefixLookup::Unique(i) => r == PrefixResult::Unique(i as usize),
            PrefixLookup::Ambiguous => r is Ambiguous,
        },
{
    let n = g.commits.len();
    let mut count: usize = 0;
    let mut first: usize = 0;
    let mut second: usize = 0;
    let mut i: usize = 0;
    while i < n
        invariant
            i <= n,
            n == g.len(),
            count <= 2,
            count == 0 ==> forall|j: int| 0 <= j < i ==> !#[trigger] id_matches(*g, p@, j, change),
            count >= 1 ==> first < i && id_matches(*g, p@, first as int, change),
            count == 1 ==> forall|j: int| 0 <= j < i && #[trigger] id_matches(*g, p@, j, change) ==> j == first,
            count == 2 ==> second < i && second != first && id_matches(*g, p@, second as int, change),
        decreases n - i,
    {
        let id = if change { &g.commits[i].change_id } else { &g.commits[i].commit_id };
        if starts_with(id, p) {
            if count == 0 {
                first = i;
                count = 1;
            } else if count == 1 {
                second = i;
                count = 2;
            }
        }
        i = i + 1;
    }
    proof {
        if count == 1 {
            assert(forall|j: int| #[trigger] id_matches(*g, p@, j, change) ==> j == first);
            assert(id_matches(*g, p@, first as int, change));
        }
        if count == 2 {
            assert(id_matches(*g, p@, first as int, change));
            assert(id_matches(*g, p@, second as int, change));
        }
    }
    if count == 0 {
        PrefixResult::NoMatch
    } else if count == 1 {
        PrefixResult::Unique(first)
    } else {
        PrefixResult::Ambiguous
    }
}

/// What looking a prefix up found.
#[derive(PartialEq, Eq, Structural, Clone, Copy, Debug)]
pub enum PrefixResult {
    NoMatch,
    Unique(usize),
    Ambiguous,
}

/// One of `a` and `b` starts with the other.
pub open spec fn near(a: Seq<u8>, b: Seq<u8>) -> bool {
    is_prefix(a, b) || is_prefix(b, a)
}

/// Some entry of `s` is named `c`.
pub open spec fn has_name(s: Seq<NamedTarget>, c: Seq<u8>) -> bool {
    exists|i: int| 0 <= i < s.len() && #[trigger] s[i].name@ == c
}

/// Some remote bookmark of `s` is spelled `c` as `name@remote`.
pub open spec fn has_remote_name(s: Seq<RemoteBookmark>, c: Seq<u8>) -> bool {
    exists|i: int| 0 <= i < s.len() && #[trigger] remote_symbol_text(s[i].name@, s[i].remote@) == c
}

/// `c` is offered as a near name when `sym` names nothing: a local
/// bookmark, a tag or a `name@remote` pair, one of whose spelling and the
/// symbol's starts with the other.
pub open spec fn is_candidate(v: RepoView, sym: Seq<u8>, c: Seq<u8>) -> bool {
    near(c, sym) && (has_name(v.local_bookmarks@, c) || has_name(v.tags@, c)
        || has_remote_name(v.remote_bookmarks@, c))
}

/// Some element of `out` spells `c`.
pub open spec fn has_text(out: Seq<Vec<u8>>, c: Seq<u8>) -> bool {
    exists|k: int| 0 <= k < out.len() && #[trigger] out[k]@ == c
}

proof fn lemma_has_text_push(out: Seq<Vec<u8>>, x: Vec<u8>, c: Seq<u8>)
    ensures
        has_text(out.push(x), c) <==> has_text(out, c) || x@ == c,
{
    if has_text(out.push(x), c) {
        let k = choose|k: int| 0 <= k < out.push(x).len() && #[trigger] out.push(x)[k]@ == c;
        if k < out.len() {
            assert(out[k]@ == c);
        }
    }
    if has_text(out, c) {
        let k = choose|k: int| 0 <= k < out.len() && #[trigger] out[k]@ == c;
        assert(out.push(x)[k]@ == c);
    }
    if x@ == c {
        assert(out.push(x)[out.len() as int]@ == c);
    }
}

/// Adds the names of `s` that are near `sym`.
fn push_near_names(out: &mut Vec<Vec<u8>>, s: &Vec<NamedTarget>, sym: &Vec<u8>)
    ensures
        forall|c: Seq<u8>| has_text(final(out)@, c) <==> has_text(old(out)@, c) || (near(c, sym@) && has_name(s@, c)),
{
    let ghost start = out@;
    let mut i: usize = 0;
    while i < s.len()
        invariant
            i <= s@.len(),
            forall|c: Seq<u8>| has_text(out@, c) <==> has_text(start, c)
                || (near(c, sym@) && has_name(s@.subrange(0, i as int), c)),
        decreases s@.len() - i,
    {
        let ghost before = out@;
        let ghost pre = s@.subrange(0, i as int);
        let ghost cur = s@.subrange(0, i + 1);
        assert(forall|c: Seq<u8>| has_text(before, c) <==> has_text(start, c)
            || (near(c, sym@) && has_name(pre, c)));
        let name = &s[i].name;
        if starts_with(name, sym) || starts_with(sym, name) {
            let copy = copy_bytes(name);
            proof {
                assert forall|c: Seq<u8>| has_text(before.push(copy), c) <==> has_text(before, c) || name@ == c by {
                    lemma_has_text_push(before, copy, c);
                }
            }
            out.push(copy);
        }
        proof {
            assert forall|c: Seq<u8>| has_text(out@, c) <==> has_text(start, c)
                || (near(c, sym@) && has_name(cur, c)) by {
                if has_name(cur, c) {
                    let j = choose|j: int| 0 <= j < cur.len() && #[trigger] cur[j].name@ == c;
                    if j < i {
                        assert(pre[j] == cur[j]);
                    }
                }
                if has_name(pre, c) {
                    let j = choose|j: int| 0 <= j < pre.len() && #[trigger] pre[j].name@ == c;
                    assert(pre[j] == cur[j]);
                }
                assert(cur[i as int] == s@[i as int]);
            }
        }
        i = i + 1;
    }
    assert(s@.subrange(0, s@.len() as int) =~= s@);
}

/// `name@remote` as bytes.
fn remote_symbol_bytes(name: &Vec<u8>, remote: &Vec<u8>) -> (r: Vec<u8>)
    ensures
        r@ == remote_symbol_text(name@, remote@),
{
    let mut r = copy_bytes(name);
    r.push(64u8);
    let mut i: usize = 0;
    while i < remote.len()
        invariant
            i <= remote@.len(),
            r@ == name@ + seq![64u8] + remote@.subrange(0, i as int),
        decreases remote@.len() - i,
    {
        r.push(remote[i]);
        i = i + 1;
        assert(r@ =~= name@ + seq![64u8] + remote@.subrange(0, i as int));
    }
    assert(remote@.subrange(0, remote@.len() as int) =~= remote@);
    r
}

/// Adds the `name@remote` spellings of `s` that are near `sym`.
fn push_near_remote_names(out: &mut Vec<Vec<u8>>, s: &Vec<RemoteBookmark>, sym: &Vec<u8>)
    ensures
        forall|c: Seq<u8>| has_text(final(out)@, c) <==> has_text(old(out)@, c) || (near(c, sym@) && has_remote_name(s@, c)),
{
    let ghost start = out@;
    let mut i: usize = 0;
    while i < s.len()
        invariant
            i <= s@.len(),
            forall|c: Seq<u8>| has_text(out@, c) <==> has_text(start, c)
                || (near(c, sym@) && has_remote_name(s@.subrange(0, i as int), c)),
        decreases s@.len() - i,
    {
        let ghost before = out@;
        let ghost pre = s@.subrange(0, i as int);
        let ghost cur = s@.subrange(0, i + 1);
        assert(forall|c: Seq<u8>| has_text(before, c) <==> has_text(start, c)
            || (near(c, sym@) && has_remote_name(pre, c)));
        let text = remote_symbol_bytes(&s[i].name, &s[i].remote);
        let ghost tv = text@;
        if starts_with(&text, sym) || starts_with(sym, &text) {
            proof {
                assert forall|c: Seq<u8>| has_text(before.push(text), c) <==> has_text(before, c) || tv == c by {
                    lemma_has_text_push(before, text, c);
                }
            }
            out.push(text);
        }
        proof {
            assert forall|c: Seq<u8>| has_text(out@, c) <==> has_text(start, c)
                || (near(c, sym@) && has_remote_name(cur, c)) by {
                if has_remote_name(cur, c) {
                    let j = choose|j: int| 0 <= j < cur.len() && #[trigger] remote_symbol_text(cur[j].name@, cur[j].remote@) == c;
                    if j < i {
                        assert(pre[j] == cur[j]);
                    }
                }
                if has_remote_name(pre, c) {
                    let j = choose|j: int| 0 <= j < pre.len() && #[trigger] remote_symbol_text(pre[j].name@, pre[j].remote@) == c;
                    assert(pre[j] == cur[j]);
                }
                assert(cur[i as int] == s@[i as int]);
            }
        }
        i = i + 1;
    }
    assert(s@.subrange(0, s@.len() as int) =~= s@);
}

/// The names offered when `sym` names nothing.
pub fn candidates_for(v: &RepoView, sym: &Vec<u8>) -> (r: Vec<Vec<u8>>)
    ensures
        forall|c: Seq<u8>| has_text(r@, c) <==> is_candidate(*v, sym@, c),
{
    let mut out: Vec<Vec<u8>> = Vec::new();
    push_near_names(&mut out, &v.local_bookmarks, sym);
    push_near_names(&mut out, &v.tags, sym);
    push_near_remote_names(&mut out, &v.remote_bookmarks, sym);
    out
}

/// The error for a symbol that names nothing.
fn no_such_revision(v: &RepoView, sym: &Vec<u8>) -> (r: RevsetResolutionError)
    ensures
        r@ == ResolutionFailure::NoSuchRevision(sym@),
        forall|c: Seq<u8>| has_text(r->candidates@, c) <==> is_candidate(*v, sym@, c),
{
    RevsetResolutionError::NoSuchRevision { name: copy_bytes(sym), candidates: candidates_for(v, sym) }
}

/// A list of one position.
fn single(i: usize) -> (r: Vec<usize>)
    ensures
        r@ == seq![i],
{
    let mut ids: Vec<usize> = Vec::new();
    ids.push(i);
    assert(ids@ =~= seq![i]);
    ids
}

/// Resolves a symbol as a commit id prefix, else as a change id prefix.
fn resolve_id_prefix(g: &CommitGraph, sym: &Vec<u8>) -> (r: Option<Result<Vec<usize>, RevsetResolutionError>>)
    ensures
        match id_result(*g, sym@) {
            Some(Ok(ids)) => r matches Some(Ok(x)) && x@ == ids,
            Some(Err(f)) => r matches Some(Err(x)) && x@ == f,
            None => r is None,
        },
{
    if !hex_text(sym) {
        return None;
    }
    match lookup_prefix(g, sym, false) {
        PrefixResult::Unique(i) => {
            return Some(Ok(single(i)));
        },
        PrefixResult::Ambiguous => {
            return Some(Err(RevsetResolutionError::AmbiguousCommitIdPrefix(copy_bytes(sym))));
        },
        PrefixResult::NoMatch => {},
    }
    match lookup_prefix(g, sym, true) {
        PrefixResult::Unique(i) => Some(Ok(single(i))),
        PrefixResult::Ambiguous => Some(Err(RevsetResolutionError::AmbiguousChangeIdPrefix(copy_bytes(sym)))),
        PrefixResult::NoMatch => None,
    }
}

/// The commits of the present target of `name` in `s`, if it has one.
fn present_ids(s: &Vec<NamedTarget>, name: &Vec<u8>) -> (r: Option<Vec<usize>>)
    ensures
        match r {
            Some(ids) => !(lookup(s@, name@) is Absent) && ids@ == target_ids(lookup(s@, name@)),
            None => lookup(s@, name@) is Absent,
        },
{
    match find_target(s, name) {
        Some(t) => {
            if t.is_present() {
                Some(t.added_ids())
            } else {
                None
            }
        },
        None => None,
    }
}

/// Resolves a symbol as a ref name.
fn resolve_ref_name(v: &RepoView, sym: &Vec<u8>) -> (r: Result<Vec<usize>, RevsetResolutionError>)
    ensures
        match name_result(*v, sym@) {
            Ok(ids) => r is Ok && r->Ok_0@ == ids,
            Err(f) => r is Err && r->Err_0@ == f,
        },
        r matches Err(RevsetResolutionError::NoSuchRevision { name, candidates })
            ==> forall|c: Seq<u8>| has_text(candidates@, c) <==> is_candidate(*v, sym@, c),
{
    if let Some(ids) = present_ids(&v.tags, sym) {
        return Ok(ids);
    }
    if let Some(ids) = present_ids(&v.local_bookmarks, sym) {
        return Ok(ids);
    }
    let path = heads_path(sym);
    if let Some(ids) = present_ids(&v.git_refs, &path) {
        return Ok(ids);
    }
    Err(no_such_revision(v, sym))
}

/// Resolves a bare symbol: a commit id prefix, else a change id prefix, else
/// a tag, a local bookmark, or a raw branch ref of that name.
pub fn resolve_symbol(g: &CommitGraph, v: &RepoView, sym: &Vec<u8>) -> (r: Result<Vec<usize>, RevsetResolutionError>)
    ensures
        match symbol_result(*g, *v, sym@) {
            Ok(ids) => r is Ok && r->Ok_0@ == ids,
            Err(f) => r is Err && r->Err_0@ == f,
        },
        r matches Err(RevsetResolutionError::NoSuchRevision { name, candidates })
            ==> forall|c: Seq<u8>| has_text(candidates@, c) <==> is_candidate(*v, sym@, c),
{
    if sym.len() == 0 {
        return Err(RevsetResolutionError::EmptyString);
    }
    match resolve_id_prefix(g, sym) {
        Some(r) => r,
        None => resolve_ref_name(v, sym),
    }
}

/// `refs/heads/` followed by `sym`.
fn heads_path(sym: &Vec<u8>) -> (r: Vec<u8>)
    ensures
        r@ == heads_namespace() + sym@,
{
    let mut r: Vec<u8> = Vec::new();
    r.push(114u8);
    r.push(101u8);
    r.push(102u8);
    r.push(115u8);
    r.push(47u8);
    r.push(104u8);
    r.push(101u8);
    r.push(97u8);
    r.push(100u8);
    r.push(115u8);
    r.push(47u8);
    let mut i: usize = 0;
    while i < sym.len()
        invariant
            i <= sym@.len(),
            r@ == heads_namespace() + sym@.subrange(0, i as int),
        decreases sym@.len() - i,
    {
        r.push(sym[i]);
        i = i + 1;
        assert(r@ =~= heads_namespace() + sym@.subrange(0, i as int));
    }
    assert(sym@.subrange(0, sym@.len() as int) =~= sym@);
    r
}

/// Resolves `name@remote`: the remote bookmark's commits, tracked or not.
pub fn resolve_remote_symbol(v: &RepoView, name: &Vec<u8>, remote: &Vec<u8>) -> (r: Result<Vec<usize>, RevsetResolutionError>)
    ensures
        match remote_symbol_result(*v, name@, remote@) {
            Ok(ids) => r is Ok && r->Ok_0@ == ids,
            Err(f) => r is Err && r->Err_0@ == f,
        },
        r matches Err(RevsetResolutionError::NoSuchRevision { name: text, candidates })
            ==> forall|c: Seq<u8>| has_text(candidates@, c) <==> is_candidate(*v, text@, c),
{
    match find_remote(&v.remote_bookmarks, name, remote) {
        Some(rr) => {
            if rr.target.is_present() {
                return Ok(rr.target.added_ids());
            }
        },
        None => {},
    }
    let text = remote_symbol_bytes(name, remote);
    Err(no_such_revision(v, &text))
}

} // verus!
