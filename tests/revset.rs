use jj_revset::expr::{
    evaluate, evaluate_to_positions, is_ancestor, RevsetCommitRef, RevsetExpression,
    RevsetFilterPredicate,
};
use jj_revset::graph::{CommitData, CommitGraph};
use jj_revset::pattern::StringPattern;
use jj_revset::refs::{RefTarget, RemoteRef, RemoteRefState};
use jj_revset::resolver::{evaluate_query, evaluate_revset, resolve_single_rev, SingleRevisionError};
use jj_revset::symbol::{resolve_remote_symbol, resolve_symbol, RevsetResolutionError};
use jj_revset::view::{NamedTarget, RemoteBookmark, RepoView, WorkspaceCommit};

fn b(s: &str) -> Vec<u8> {
    s.as_bytes().to_vec()
}

fn commit(id: &str, change: &str, parents: &[usize], ts: u64, desc: &str) -> CommitData {
    CommitData {
        commit_id: b(id),
        change_id: b(change),
        parents: parents.to_vec(),
        committer_timestamp: ts,
        description: b(desc),
        author_timestamp: ts,
        author_name: b("Test User"),
        author_email: b("test.user@example.com"),
        committer_name: b("Test User"),
        committer_email: b("test.user@example.com"),
        has_conflict: false,
    }
}

fn root() -> CommitData {
    commit("0000000000000000000000000000000000000000", "00000000000000000000000000000000", &[], 0, "")
}

/// Root, then commits with the given parents, ids `1...`, `2...`.
fn graph(parents: &[&[usize]]) -> CommitGraph {
    let mut commits = vec![root()];
    for (i, ps) in parents.iter().enumerate() {
        let n = i + 1;
        let id = format!("{:x}{}", n, "a".repeat(39));
        let change = format!("{}{:x}", "c".repeat(31), n);
        commits.push(commit(&id, &change, ps, n as u64, ""));
    }
    CommitGraph { commits }
}

fn empty_view() -> RepoView {
    RepoView {
        local_bookmarks: vec![],
        remote_bookmarks: vec![],
        tags: vec![],
        git_refs: vec![],
        git_head: RefTarget::Absent,
        wc_commits: vec![],
    }
}

fn named(name: &str, target: RefTarget) -> NamedTarget {
    NamedTarget { name: b(name), target }
}

fn remote(name: &str, remote: &str, target: RefTarget, state: RemoteRefState) -> RemoteBookmark {
    RemoteBookmark { name: b(name), remote: b(remote), remote_ref: RemoteRef { target, state } }
}

fn bx(e: RevsetExpression) -> Box<RevsetExpression> {
    Box::new(e)
}

fn commits(ids: &[usize]) -> RevsetExpression {
    RevsetExpression::Commits(ids.to_vec())
}

fn sym(s: &str) -> RevsetExpression {
    RevsetExpression::CommitRef(RevsetCommitRef::Symbol(b(s)))
}

fn union(a: RevsetExpression, c: RevsetExpression) -> RevsetExpression {
    RevsetExpression::Union(bx(a), bx(c))
}

fn eval(g: &CommitGraph, e: RevsetExpression) -> Vec<usize> {
    evaluate_to_positions(g, &e)
}

/// Root 0; 1 <- 0; 2 <- 1; 3 <- 2; 4 <- 1.
fn small() -> CommitGraph {
    graph(&[&[0], &[1], &[2], &[1]])
}

#[test]
fn test_resolve_symbol_empty_string() {
    let g = small();
    assert!(matches!(
        resolve_symbol(&g, &empty_view(), &b("")),
        Err(RevsetResolutionError::EmptyString)
    ));
}

fn id_graph() -> CommitGraph {
    CommitGraph {
        commits: vec![
            root(),
            commit("0454de3cae04c46cda37ba2e8873b4c17ff51dcb", "781199f9d55d18e855a7aa84c5e4b40d", &[0], 0, "test 1"),
            commit("045f56cd1b17e8abde86771e2705395dcde6a957", "a2c96fc88f32e487328f04927f20c4b1", &[0], 0, "test 167"),
            commit("0468f7da8de2ce442f512aacf83411d26cd2e0cf", "4399e4f3123763dfe7d68a2809ecc01b", &[0], 0, "test 895"),
        ],
    }
}

#[test]
fn test_resolve_symbol_commit_id() {
    let g = id_graph();
    let v = empty_view();
    assert_eq!(resolve_symbol(&g, &v, &b("0454de3cae04c46cda37ba2e8873b4c17ff51dcb")).ok(), Some(vec![1]));
    assert_eq!(resolve_symbol(&g, &v, &b("045f56cd1b17e8abde86771e2705395dcde6a957")).ok(), Some(vec![2]));
    assert_eq!(resolve_symbol(&g, &v, &b("0468f7da8de2ce442f512aacf83411d26cd2e0cf")).ok(), Some(vec![3]));
    assert_eq!(resolve_symbol(&g, &v, &b("046")).ok(), Some(vec![3]));
    match resolve_symbol(&g, &v, &b("04")) {
        Err(RevsetResolutionError::AmbiguousCommitIdPrefix(s)) => assert_eq!(s, b("04")),
        _ => panic!("expected an ambiguous prefix"),
    }
    match resolve_symbol(&g, &v, &b("040")) {
        Err(RevsetResolutionError::NoSuchRevision { name, candidates }) => {
            assert_eq!(name, b("040"));
            assert!(candidates.is_empty());
        }
        _ => panic!("expected no such revision"),
    }
    match resolve_symbol(&g, &v, &b("foo")) {
        Err(RevsetResolutionError::NoSuchRevision { name, candidates }) => {
            assert_eq!(name, b("foo"));
            assert!(candidates.is_empty());
        }
        _ => panic!("expected no such revision"),
    }
    // present() hides a missing name, not an ambiguous one.
    let present_foo = RevsetExpression::Present(bx(sym("foo")));
    assert_eq!(evaluate_query(&g, &v, present_foo).ok(), Some(vec![]));
    let present_04 = RevsetExpression::Present(bx(sym("04")));
    assert!(matches!(
        evaluate_query(&g, &v, present_04),
        Err(RevsetResolutionError::AmbiguousCommitIdPrefix(_))
    ));
    // A change id prefix, when no commit id starts with it.
    assert_eq!(resolve_symbol(&g, &v, &b("78")).ok(), Some(vec![1]));
    assert_eq!(resolve_symbol(&g, &v, &b("a2c9")).ok(), Some(vec![2]));
}

#[test]
fn unique_prefix_every_length() {
    let g = id_graph();
    let v = empty_view();
    let full = "0468f7da8de2ce442f512aacf83411d26cd2e0cf";
    for k in 3..=full.len() {
        assert_eq!(resolve_symbol(&g, &v, &b(&full[..k])).ok(), Some(vec![3]), "prefix length {k}");
    }
}

#[test]
fn ambiguous_change_id_prefix() {
    let mut g = small();
    g.commits[1].change_id = b("dd01");
    g.commits[2].change_id = b("dd02");
    match resolve_symbol(&g, &empty_view(), &b("dd0")) {
        Err(RevsetResolutionError::AmbiguousChangeIdPrefix(s)) => assert_eq!(s, b("dd0")),
        _ => panic!("expected an ambiguous change id prefix"),
    }
}

#[test]
fn test_resolve_working_copy() {
    let g = small();
    let mut v = empty_view();
    v.wc_commits = vec![WorkspaceCommit { workspace: b("ws1"), commit: 2 }, WorkspaceCommit { workspace: b("ws2"), commit: 3 }];
    let wc = |ws: &str| RevsetExpression::CommitRef(RevsetCommitRef::WorkingCopy(b(ws)));
    match evaluate_query(&g, &v, wc("ws0")) {
        Err(RevsetResolutionError::WorkspaceMissingWorkingCopy(name)) => assert_eq!(name, b("ws0")),
        _ => panic!("expected a missing working copy"),
    }
    assert_eq!(evaluate_query(&g, &v, wc("ws1")).ok(), Some(vec![2]));
    assert_eq!(evaluate_query(&g, &v, wc("ws2")).ok(), Some(vec![3]));
}

#[test]
fn test_resolve_working_copies() {
    let g = small();
    let mut v = empty_view();
    v.wc_commits = vec![WorkspaceCommit { workspace: b("ws1"), commit: 2 }, WorkspaceCommit { workspace: b("ws2"), commit: 3 }];
    let e = RevsetExpression::CommitRef(RevsetCommitRef::WorkingCopies);
    assert_eq!(evaluate_query(&g, &v, e).ok(), Some(vec![3, 2]));
}

#[test]
fn test_resolve_symbol_bookmarkes() {
    let g = small();
    let mut v = empty_view();
    v.local_bookmarks = vec![named("local", RefTarget::Normal(1))];
    v.remote_bookmarks = vec![remote("remote", "origin", RefTarget::Normal(2), RemoteRefState::Tracking)];
    assert_eq!(resolve_symbol(&g, &v, &b("local")).ok(), Some(vec![1]));
    match resolve_symbol(&g, &v, &b("remote")) {
        Err(RevsetResolutionError::NoSuchRevision { name, candidates }) => {
            assert_eq!(name, b("remote"));
            assert_eq!(candidates, vec![b("remote@origin")]);
        }
        _ => panic!("expected no such revision"),
    }
    assert_eq!(resolve_remote_symbol(&v, &b("remote"), &b("origin")).ok(), Some(vec![2]));
    assert!(matches!(
        resolve_remote_symbol(&v, &b("local"), &b("origin")),
        Err(RevsetResolutionError::NoSuchRevision { .. })
    ));
}

#[test]
fn test_resolve_symbol_tags() {
    let g = small();
    let mut v = empty_view();
    v.tags = vec![named("tag-bookmark", RefTarget::Normal(1))];
    v.local_bookmarks = vec![named("tag-bookmark", RefTarget::Normal(2))];
    // A tag wins over a bookmark of the same name.
    assert_eq!(resolve_symbol(&g, &v, &b("tag-bookmark")).ok(), Some(vec![1]));
}

#[test]
fn test_resolve_symbol_git_refs() {
    let g = small();
    let mut v = empty_view();
    v.git_refs = vec![
        named("refs/heads/branch1", RefTarget::Normal(1)),
        named("refs/heads/conflicted", RefTarget::Conflicted { adds: vec![2, 3], removes: vec![1] }),
    ];
    assert_eq!(resolve_symbol(&g, &v, &b("branch1")).ok(), Some(vec![1]));
    assert_eq!(resolve_symbol(&g, &v, &b("conflicted")).ok(), Some(vec![2, 3]));
    assert!(resolve_symbol(&g, &v, &b("refs/heads/branch1")).is_err());
}

#[test]
fn test_evaluate_expression_root_and_checkout() {
    let g = small();
    assert_eq!(eval(&g, RevsetExpression::Root), vec![0]);
    assert_eq!(eval(&g, commits(&[3])), vec![3]);
}

#[test]
fn test_evaluate_expression_heads() {
    let g = small();
    let heads = |e: RevsetExpression| eval(&g, RevsetExpression::Heads(bx(e)));
    assert_eq!(heads(RevsetExpression::Empty), Vec::<usize>::new());
    assert_eq!(heads(RevsetExpression::Root), vec![0]);
    assert_eq!(heads(commits(&[2])), vec![2]);
    assert_eq!(heads(union(commits(&[2]), commits(&[3]))), vec![3]);
    assert_eq!(heads(union(commits(&[1]), commits(&[3]))), vec![3]);
    assert_eq!(heads(union(commits(&[3]), commits(&[4]))), vec![4, 3]);
    assert_eq!(heads(RevsetExpression::All), eval(&g, RevsetExpression::VisibleHeads));
}

#[test]
fn heads_twice_and_roots_twice() {
    let g = small();
    let x = || union(commits(&[1, 2]), commits(&[4]));
    let h = eval(&g, RevsetExpression::Heads(bx(x())));
    let hh = eval(&g, RevsetExpression::Heads(bx(RevsetExpression::Heads(bx(x())))));
    assert_eq!(h, vec![4, 2]);
    assert_eq!(hh, h);
    let r = eval(&g, RevsetExpression::Roots(bx(x())));
    let rr = eval(&g, RevsetExpression::Roots(bx(RevsetExpression::Roots(bx(x())))));
    assert_eq!(r, vec![1]);
    assert_eq!(rr, r);
}

#[test]
fn test_evaluate_expression_roots() {
    let g = small();
    let roots = |e: RevsetExpression| eval(&g, RevsetExpression::Roots(bx(e)));
    assert_eq!(roots(RevsetExpression::Empty), Vec::<usize>::new());
    assert_eq!(roots(RevsetExpression::Root), vec![0]);
    assert_eq!(roots(commits(&[2])), vec![2]);
    assert_eq!(roots(union(commits(&[2]), commits(&[3]))), vec![2]);
    assert_eq!(roots(union(commits(&[1]), commits(&[3]))), vec![1]);
    assert_eq!(roots(RevsetExpression::All), vec![0]);
    assert_eq!(roots(union(commits(&[3]), commits(&[4]))), vec![4, 3]);
}

#[test]
fn test_evaluate_expression_parents() {
    // 1 <- root; 2 <- 1; 3 <- root; 4 <- 2, 3; 5 <- 2.
    let g = graph(&[&[0], &[1], &[0], &[2, 3], &[2]]);
    let par = |e: RevsetExpression| RevsetExpression::Parents(bx(e));
    assert_eq!(eval(&g, par(RevsetExpression::Root)), Vec::<usize>::new());
    assert_eq!(eval(&g, par(commits(&[2]))), vec![1]);
    assert_eq!(eval(&g, par(commits(&[4]))), vec![3, 2]);
    assert_eq!(eval(&g, par(commits(&[2, 3]))), vec![1, 0]);
    assert_eq!(eval(&g, par(commits(&[1, 2]))), vec![1, 0]);
    assert_eq!(eval(&g, par(commits(&[4, 5]))), vec![3, 2]);
    assert_eq!(eval(&g, par(par(commits(&[4])))), vec![1, 0]);
    assert_eq!(eval(&g, par(par(commits(&[4, 5])))), vec![1, 0]);
    assert_eq!(eval(&g, par(par(commits(&[4, 2])))), vec![1, 0]);
}

#[test]
fn test_evaluate_expression_children() {
    // 1 <- root; 2 <- 1; 3 <- 2; 4 <- 1; 5 <- 3, 4; 6 <- 5.
    let g = graph(&[&[0], &[1], &[2], &[1], &[3, 4], &[5]]);
    let ch = |e: RevsetExpression| RevsetExpression::Children(bx(e));
    assert_eq!(eval(&g, ch(RevsetExpression::Root)), vec![1]);
    assert_eq!(eval(&g, ch(commits(&[1, 2]))), vec![4, 3, 2]);
    assert_eq!(eval(&g, ch(commits(&[3, 4]))), vec![5]);
    assert_eq!(eval(&g, ch(ch(RevsetExpression::Root))), vec![4, 2]);
    assert_eq!(eval(&g, ch(ch(union(RevsetExpression::Root, commits(&[1]))))), vec![5, 4, 3, 2]);
    assert_eq!(eval(&g, ch(ch(commits(&[4, 2])))), vec![6, 5]);
    assert_eq!(eval(&g, ch(RevsetExpression::Empty)), Vec::<usize>::new());
}

#[test]
fn test_evaluate_expression_ancestors() {
    // 1 <- root; 2 <- 1; 3 <- 2; 4 <- 1, 3.
    let g = graph(&[&[0], &[1], &[2], &[1, 3]]);
    let anc = |e: RevsetExpression| RevsetExpression::Ancestors(bx(e));
    let par = |e: RevsetExpression| RevsetExpression::Parents(bx(e));
    let limited = |e: RevsetExpression, n: usize| RevsetExpression::AncestorsLimited { heads: bx(e), limit: n };
    assert_eq!(eval(&g, anc(RevsetExpression::Root)), vec![0]);
    assert_eq!(eval(&g, anc(commits(&[4]))), vec![4, 3, 2, 1, 0]);
    assert_eq!(eval(&g, anc(par(commits(&[4])))), vec![3, 2, 1, 0]);
    assert_eq!(eval(&g, par(anc(commits(&[3, 2])))), vec![2, 1, 0]);
    assert_eq!(eval(&g, anc(par(commits(&[3, 2])))), vec![2, 1, 0]);
    assert_eq!(eval(&g, limited(commits(&[2]), 0)), Vec::<usize>::new());
    assert_eq!(eval(&g, limited(commits(&[3]), 1)), vec![3]);
    assert_eq!(eval(&g, limited(commits(&[3]), 3)), vec![3, 2, 1]);
    assert_eq!(eval(&g, anc(RevsetExpression::Empty)), Vec::<usize>::new());
}

#[test]
fn ancestor_relation_matches_ancestors() {
    let g = small();
    for b2 in 0..5usize {
        let anc = eval(&g, RevsetExpression::Ancestors(bx(commits(&[b2]))));
        for a in 0..5usize {
            assert_eq!(is_ancestor(&g, a, b2), anc.contains(&a), "{a} {b2}");
        }
    }
}

#[test]
fn test_evaluate_expression_range() {
    // 1 <- root; 2 <- 1; 3 <- 2; 4 <- 1, 3.
    let g = graph(&[&[0], &[1], &[2], &[1, 3]]);
    let range = |r: RevsetExpression, h: RevsetExpression| RevsetExpression::Range { roots: bx(r), heads: bx(h) };
    let par = |e: RevsetExpression| RevsetExpression::Parents(bx(e));
    assert_eq!(eval(&g, range(RevsetExpression::Root, RevsetExpression::Root)), Vec::<usize>::new());
    assert_eq!(eval(&g, range(commits(&[1]), commits(&[3]))), vec![3, 2]);
    assert_eq!(eval(&g, range(commits(&[3]), commits(&[1]))), Vec::<usize>::new());
    assert_eq!(eval(&g, range(commits(&[1]), commits(&[4]))), vec![4, 3, 2]);
    assert_eq!(eval(&g, range(par(par(commits(&[4]))), commits(&[3]))), vec![3]);
    assert_eq!(eval(&g, range(commits(&[2]), commits(&[3]))), vec![3]);
    assert_eq!(eval(&g, range(RevsetExpression::Root, commits(&[2]))), vec![2, 1]);
    assert_eq!(eval(&g, range(commits(&[2]), RevsetExpression::VisibleHeads)), vec![4, 3]);
    assert_eq!(eval(&g, range(RevsetExpression::Root, RevsetExpression::VisibleHeads)), vec![4, 3, 2, 1]);
    // With no roots the range is all ancestors.
    assert_eq!(eval(&g, range(RevsetExpression::Empty, commits(&[2]))), vec![2, 1, 0]);
}

#[test]
fn test_evaluate_expression_dag_range() {
    // 1 <- root; 2 <- 1; 3 <- 2; 4 <- 1; 5 <- 3, 4.
    let g = graph(&[&[0], &[1], &[2], &[1], &[3, 4]]);
    let dag = |r: RevsetExpression, h: RevsetExpression| RevsetExpression::DagRange { roots: bx(r), heads: bx(h) };
    assert_eq!(eval(&g, dag(RevsetExpression::Root, RevsetExpression::Root)), vec![0]);
    assert_eq!(eval(&g, dag(RevsetExpression::Root, commits(&[2]))), vec![2, 1, 0]);
    assert_eq!(eval(&g, dag(commits(&[2]), commits(&[4]))), Vec::<usize>::new());
    assert_eq!(eval(&g, dag(RevsetExpression::Empty, commits(&[5]))), Vec::<usize>::new());
    assert_eq!(eval(&g, dag(commits(&[1]), commits(&[5]))), vec![5, 4, 3, 2, 1]);
    assert_eq!(eval(&g, dag(commits(&[2]), commits(&[5]))), vec![5, 3, 2]);
    assert_eq!(eval(&g, dag(commits(&[2]), RevsetExpression::All)), vec![5, 3, 2]);
}

#[test]
fn test_evaluate_expression_connected() {
    let g = small();
    let conn = |e: RevsetExpression| RevsetExpression::Connected(bx(e));
    assert_eq!(eval(&g, conn(commits(&[1, 3]))), vec![3, 2, 1]);
    // Siblings stay as they are: their common parent is not added.
    assert_eq!(eval(&g, conn(commits(&[2, 4]))), vec![4, 2]);
    assert_eq!(eval(&g, conn(RevsetExpression::Empty)), Vec::<usize>::new());
    assert_eq!(eval(&g, conn(commits(&[0, 3]))), vec![3, 2, 1, 0]);
}

#[test]
fn test_evaluate_expression_reachable() {
    // Three separate lines of history off the root.
    let g = graph(&[&[0], &[1], &[0], &[3], &[3], &[0], &[6, 0]]);
    let domain = || RevsetExpression::Difference(bx(RevsetExpression::All), bx(RevsetExpression::Root));
    let reach = |s: &[usize]| RevsetExpression::Reachable { sources: bx(commits(s)), domain: bx(domain()) };
    assert_eq!(eval(&g, reach(&[2])), vec![2, 1]);
    assert_eq!(eval(&g, reach(&[1])), vec![2, 1]);
    assert_eq!(eval(&g, reach(&[5])), vec![5, 4, 3]);
    assert_eq!(eval(&g, reach(&[4])), vec![5, 4, 3]);
    assert_eq!(eval(&g, reach(&[7])), vec![7, 6]);
    assert_eq!(eval(&g, reach(&[0])), Vec::<usize>::new());
}

#[test]
fn test_evaluate_expression_descendants() {
    let g = small();
    assert_eq!(eval(&g, RevsetExpression::Descendants(bx(commits(&[1])))), vec![4, 3, 2, 1]);
    assert_eq!(eval(&g, RevsetExpression::Descendants(bx(commits(&[2])))), vec![3, 2]);
    assert_eq!(eval(&g, RevsetExpression::Descendants(bx(RevsetExpression::Root))), vec![4, 3, 2, 1, 0]);
}

#[test]
fn test_evaluate_expression_none() {
    assert_eq!(eval(&small(), RevsetExpression::Empty), Vec::<usize>::new());
}

#[test]
fn test_evaluate_expression_all() {
    assert_eq!(eval(&small(), RevsetExpression::All), vec![4, 3, 2, 1, 0]);
}

#[test]
fn test_evaluate_expression_visible_heads() {
    assert_eq!(eval(&small(), RevsetExpression::VisibleHeads), vec![4, 3]);
}

#[test]
fn test_evaluate_expression_git_refs() {
    let g = small();
    let mut v = empty_view();
    let e = || RevsetExpression::CommitRef(RevsetCommitRef::GitRefs);
    assert_eq!(evaluate_query(&g, &v, e()).ok(), Some(vec![]));
    v.git_refs = vec![named("refs/heads/a", RefTarget::Normal(1)), named("refs/tags/b", RefTarget::Normal(2))];
    assert_eq!(evaluate_query(&g, &v, e()).ok(), Some(vec![2, 1]));
    v.git_refs.push(named("refs/heads/c", RefTarget::Conflicted { adds: vec![3, 4], removes: vec![1] }));
    assert_eq!(evaluate_query(&g, &v, e()).ok(), Some(vec![4, 3, 2, 1]));
}

#[test]
fn test_evaluate_expression_git_head() {
    let g = small();
    let mut v = empty_view();
    let e = || RevsetExpression::CommitRef(RevsetCommitRef::GitHead);
    assert_eq!(evaluate_query(&g, &v, e()).ok(), Some(vec![]));
    v.git_head = RefTarget::Normal(2);
    assert_eq!(evaluate_query(&g, &v, e()).ok(), Some(vec![2]));
}

#[test]
fn test_evaluate_expression_bookmarkes() {
    let g = small();
    let mut v = empty_view();
    let bm = |p: StringPattern| RevsetExpression::CommitRef(RevsetCommitRef::Bookmarks(p));
    assert_eq!(evaluate_query(&g, &v, bm(StringPattern::everything())).ok(), Some(vec![]));
    v.local_bookmarks = vec![named("bookmark1", RefTarget::Normal(1)), named("bookmark2", RefTarget::Normal(2))];
    assert_eq!(evaluate_query(&g, &v, bm(StringPattern::everything())).ok(), Some(vec![2, 1]));
    assert_eq!(evaluate_query(&g, &v, bm(StringPattern::Exact(b("bookmark1")))).ok(), Some(vec![1]));
    assert_eq!(evaluate_query(&g, &v, bm(StringPattern::Substring(b("ark2")))).ok(), Some(vec![2]));
    assert_eq!(evaluate_query(&g, &v, bm(StringPattern::Glob(b("book*1")))).ok(), Some(vec![1]));
    assert_eq!(evaluate_query(&g, &v, bm(StringPattern::Exact(b("bookmark3")))).ok(), Some(vec![]));
    v.local_bookmarks.push(named("bookmark3", RefTarget::Conflicted { adds: vec![3, 4], removes: vec![1] }));
    assert_eq!(evaluate_query(&g, &v, bm(StringPattern::Exact(b("bookmark3")))).ok(), Some(vec![4, 3]));
}

#[test]
fn test_evaluate_expression_remote_bookmarkes() {
    let g = small();
    let mut v = empty_view();
    v.remote_bookmarks = vec![
        remote("bookmark1", "origin", RefTarget::Normal(1), RemoteRefState::Tracking),
        remote("bookmark2", "private", RefTarget::Normal(2), RemoteRefState::New),
        remote("bookmark3", "git", RefTarget::Normal(3), RemoteRefState::Tracking),
    ];
    let rb = |n: StringPattern, r: StringPattern, st: Option<RemoteRefState>| {
        RevsetExpression::CommitRef(RevsetCommitRef::RemoteBookmarks { bookmark_pattern: n, remote_pattern: r, state: st })
    };
    let all = || StringPattern::everything();
    assert_eq!(evaluate_query(&g, &v, rb(all(), all(), None)).ok(), Some(vec![2, 1]));
    assert_eq!(evaluate_query(&g, &v, rb(all(), StringPattern::Exact(b("git")), None)).ok(), Some(vec![3]));
    assert_eq!(evaluate_query(&g, &v, rb(all(), all(), Some(RemoteRefState::Tracking))).ok(), Some(vec![1]));
    assert_eq!(evaluate_query(&g, &v, rb(all(), all(), Some(RemoteRefState::New))).ok(), Some(vec![2]));
    assert_eq!(evaluate_query(&g, &v, rb(StringPattern::Exact(b("bookmark2")), all(), None)).ok(), Some(vec![2]));
    assert_eq!(evaluate_query(&g, &v, rb(all(), StringPattern::Exact(b("origin")), None)).ok(), Some(vec![1]));
}

/// Four children of the root, committed at 3, 2, 2 and 1.
fn timed() -> CommitGraph {
    let mut g = graph(&[&[0], &[0], &[0], &[0]]);
    for (i, ts) in [3u64, 2, 2, 1].iter().enumerate() {
        g.commits[i + 1].committer_timestamp = *ts;
    }
    g
}

#[test]
fn test_evaluate_expression_latest() {
    let g = timed();
    let latest = |e: RevsetExpression, n: usize| RevsetExpression::Latest { candidates: bx(e), count: n };
    assert_eq!(eval(&g, latest(RevsetExpression::All, 1)), vec![1]);
    assert_eq!(eval(&g, latest(RevsetExpression::All, 0)), Vec::<usize>::new());
    assert_eq!(eval(&g, latest(RevsetExpression::Empty, 1)), Vec::<usize>::new());
    assert_eq!(eval(&g, latest(RevsetExpression::All, 2)), vec![3, 1]);
    assert_eq!(eval(&g, latest(RevsetExpression::All, 3)), vec![3, 2, 1]);
    assert_eq!(eval(&g, latest(RevsetExpression::All, 4)), vec![4, 3, 2, 1]);
    assert_eq!(eval(&g, latest(RevsetExpression::All, 5)), vec![4, 3, 2, 1, 0]);
    assert_eq!(eval(&g, latest(RevsetExpression::All, 6)), vec![4, 3, 2, 1, 0]);
    assert_eq!(eval(&g, latest(commits(&[2, 4]), 1)), vec![2]);
    let not_root = RevsetExpression::Difference(bx(RevsetExpression::All), bx(RevsetExpression::Root));
    assert_eq!(eval(&g, latest(not_root, 5)), vec![4, 3, 2, 1]);
}

#[test]
fn test_evaluate_expression_merges() {
    let g = graph(&[&[0], &[0], &[1, 2], &[1, 2, 0]]);
    assert_eq!(eval(&g, RevsetExpression::Merges(bx(RevsetExpression::All))), vec![4, 3]);
    assert_eq!(eval(&g, RevsetExpression::Merges(bx(commits(&[1, 3])))), vec![3]);
}

#[test]
fn test_evaluate_expression_description() {
    let mut g = small();
    g.commits[1].description = b("commit 1\n");
    g.commits[2].description = b("commit 2\n\nblah blah...\n");
    g.commits[3].description = b("commit 3\n");
    let desc = |p: StringPattern| RevsetExpression::Filter(RevsetFilterPredicate::Description(p));
    assert_eq!(eval(&g, desc(StringPattern::Substring(b("commit")))), vec![3, 2, 1]);
    assert_eq!(eval(&g, desc(StringPattern::Substring(b("blah")))), vec![2]);
    assert_eq!(eval(&g, desc(StringPattern::Substring(b("none")))), Vec::<usize>::new());
}

#[test]
fn test_evaluate_expression_committer_date() {
    let g = timed();
    let after = RevsetExpression::Filter(RevsetFilterPredicate::CommitterAfter(2));
    let before = RevsetExpression::Filter(RevsetFilterPredicate::CommitterBefore(2));
    assert_eq!(eval(&g, after), vec![3, 2, 1]);
    assert_eq!(eval(&g, before), vec![4, 0]);
}

#[test]
fn test_evaluate_expression_union() {
    let g = small();
    assert_eq!(eval(&g, union(commits(&[3]), commits(&[4]))), vec![4, 3]);
    assert_eq!(eval(&g, union(commits(&[3, 1]), commits(&[1, 4]))), vec![4, 3, 1]);
}

#[test]
fn test_evaluate_expression_intersection() {
    let g = small();
    let e = RevsetExpression::Intersection(bx(RevsetExpression::Ancestors(bx(commits(&[3])))), bx(RevsetExpression::Ancestors(bx(commits(&[4])))));
    assert_eq!(eval(&g, e), vec![1, 0]);
}

#[test]
fn test_evaluate_expression_difference() {
    let g = small();
    let e = RevsetExpression::Difference(bx(RevsetExpression::Ancestors(bx(commits(&[3])))), bx(RevsetExpression::Ancestors(bx(commits(&[4])))));
    assert_eq!(eval(&g, e), vec![3, 2]);
    let e2 = RevsetExpression::Difference(bx(RevsetExpression::All), bx(RevsetExpression::All));
    assert_eq!(eval(&g, e2), Vec::<usize>::new());
}

#[test]
fn test_revset_containing_fn() {
    let g = small();
    let rs = evaluate(&g, &commits(&[1, 3]));
    assert!(!rs.contains(0));
    assert!(rs.contains(1));
    assert!(!rs.contains(2));
    assert!(rs.contains(3));
    assert!(!rs.contains(99));
    // The members come out the same way every time.
    assert_eq!(rs.positions(), vec![3, 1]);
    assert_eq!(rs.positions(), vec![3, 1]);
}

#[test]
fn test_no_such_revision_suggestion() {
    let g = small();
    let mut v = empty_view();
    v.local_bookmarks = vec![named("foo", RefTarget::Normal(1)), named("bar", RefTarget::Normal(2))];
    v.tags = vec![named("foobar", RefTarget::Normal(3))];
    match resolve_symbol(&g, &v, &b("fo")) {
        Err(RevsetResolutionError::NoSuchRevision { name, candidates }) => {
            assert_eq!(name, b("fo"));
            assert_eq!(candidates, vec![b("foo"), b("foobar")]);
        }
        _ => panic!("expected no such revision"),
    }
}

#[test]
fn query_with_symbols_and_algebra() {
    let g = small();
    let mut v = empty_view();
    v.local_bookmarks = vec![named("main", RefTarget::Normal(3)), named("side", RefTarget::Normal(4))];
    let e = RevsetExpression::Range { roots: bx(sym("side")), heads: bx(sym("main")) };
    assert_eq!(evaluate_query(&g, &v, e).ok(), Some(vec![3, 2]));
    let missing = RevsetExpression::Union(bx(sym("main")), bx(sym("nope")));
    assert!(matches!(evaluate_query(&g, &v, missing), Err(RevsetResolutionError::NoSuchRevision { .. })));
    let rs = evaluate_revset(&g, &v, sym("side")).ok().unwrap();
    assert!(rs.contains(4));
    assert!(!rs.contains(3));
}

fn people() -> CommitGraph {
    let mut g = graph(&[&[0], &[1], &[2]]);
    g.commits[1].author_name = b("name1");
    g.commits[1].author_email = b("email1@example.com");
    g.commits[2].author_name = b("name2");
    g.commits[2].author_email = b("Email2@Example.com");
    g.commits[2].committer_name = b("name3");
    g.commits[2].committer_email = b("email3");
    g.commits[3].has_conflict = true;
    g
}

#[test]
fn test_evaluate_expression_author() {
    let g = people();
    let author = |p: StringPattern| RevsetExpression::Filter(RevsetFilterPredicate::Author(p));
    assert_eq!(eval(&g, author(StringPattern::Substring(b("name1")))), vec![1]);
    assert_eq!(eval(&g, author(StringPattern::Substring(b("email1")))), vec![1]);
    assert_eq!(eval(&g, author(StringPattern::Substring(b("name3")))), Vec::<usize>::new());
    assert_eq!(eval(&g, author(StringPattern::SubstringI(b("EMAIL2")))), vec![2]);
}

#[test]
fn test_evaluate_expression_committer() {
    let g = people();
    let committer = |p: StringPattern| RevsetExpression::Filter(RevsetFilterPredicate::Committer(p));
    assert_eq!(eval(&g, committer(StringPattern::Substring(b("name3")))), vec![2]);
    assert_eq!(eval(&g, committer(StringPattern::Exact(b("email3")))), vec![2]);
    assert_eq!(eval(&g, committer(StringPattern::Substring(b("name1")))), Vec::<usize>::new());
}

#[test]
fn test_evaluate_expression_mine() {
    let g = people();
    let mine = |e: &str| RevsetExpression::Filter(RevsetFilterPredicate::Mine(b(e)));
    assert_eq!(eval(&g, mine("email2@example.com")), vec![2]);
    assert_eq!(eval(&g, mine("EMAIL1@example.com")), vec![1]);
    assert_eq!(eval(&g, mine("nobody")), Vec::<usize>::new());
}

#[test]
fn test_evaluate_expression_conflict() {
    let g = people();
    assert_eq!(eval(&g, RevsetExpression::Filter(RevsetFilterPredicate::Conflict)), vec![3]);
}

#[test]
fn test_evaluate_expression_machine_generated_union() {
    let g = graph(&[&[0], &[1], &[2], &[3], &[4], &[5]]);
    let mut e = commits(&[1]);
    for i in 2..7usize {
        e = union(e, commits(&[i]));
    }
    let e = RevsetExpression::Ancestors(bx(e));
    assert_eq!(eval(&g, e), vec![6, 5, 4, 3, 2, 1, 0]);
}

#[test]
fn test_evaluate_expression_filter_combinator() {
    let mut g = small();
    g.commits[1].description = b("commit 1");
    g.commits[2].description = b("commit 2");
    g.commits[3].description = b("commit 3");
    let desc = |s: &str| RevsetExpression::Filter(RevsetFilterPredicate::Description(StringPattern::Substring(b(s))));
    let not_root = RevsetExpression::Difference(bx(RevsetExpression::All), bx(RevsetExpression::Root));
    assert_eq!(eval(&g, RevsetExpression::Difference(bx(not_root), bx(desc("commit")))), vec![4]);
    let both = RevsetExpression::Intersection(bx(desc("commit")), bx(RevsetExpression::Ancestors(bx(commits(&[2])))));
    assert_eq!(eval(&g, both), vec![2, 1]);
    assert_eq!(eval(&g, union(desc("1"), desc("3"))), vec![3, 1]);
}

#[test]
fn ancestors_with_depth_limit() {
    let g = small();
    let anc = |h: &[usize], n: usize| RevsetExpression::AncestorsLimited { heads: bx(commits(h)), limit: n };
    // The walk meets 4, 3, then 1 (parent of 4), 2, 0.
    assert_eq!(eval(&g, anc(&[3, 4], 3)), vec![4, 3, 1]);
    assert_eq!(eval(&g, anc(&[3, 4], 4)), vec![4, 3, 2, 1]);
    assert_eq!(eval(&g, anc(&[3], 1)), vec![3]);
    assert_eq!(eval(&g, anc(&[3], 2)), vec![3, 2]);
    assert_eq!(eval(&g, anc(&[3], 0)), Vec::<usize>::new());
    assert_eq!(eval(&g, anc(&[3], 99)), vec![3, 2, 1, 0]);
}

#[test]
fn descendants_with_depth_limit() {
    let g = small();
    let desc = |r: &[usize], n: usize| RevsetExpression::DescendantsLimited { roots: bx(commits(r)), limit: n };
    // The walk meets 1, then its children 2 and 4, then 3.
    assert_eq!(eval(&g, desc(&[1], 2)), vec![2, 1]);
    assert_eq!(eval(&g, desc(&[1], 3)), vec![4, 2, 1]);
    assert_eq!(eval(&g, desc(&[0], 3)), vec![2, 1, 0]);
    assert_eq!(eval(&g, desc(&[0], 99)), vec![4, 3, 2, 1, 0]);
}

#[test]
fn test_evaluate_expression_author_date() {
    let mut g = graph(&[&[0], &[1], &[2]]);
    g.commits[1].author_timestamp = 1000;
    g.commits[2].author_timestamp = 2000;
    g.commits[3].author_timestamp = 3000;
    let after = RevsetExpression::Filter(RevsetFilterPredicate::AuthorAfter(2000));
    let before = RevsetExpression::Filter(RevsetFilterPredicate::AuthorBefore(2000));
    assert_eq!(eval(&g, after), vec![3, 2]);
    assert_eq!(eval(&g, before), vec![1, 0]);
}

#[test]
fn single_revision_targets() {
    let g = id_graph();
    let v = empty_view();
    assert!(matches!(resolve_single_rev(&g, &v, sym("046")), Ok(3)));
    assert!(matches!(
        resolve_single_rev(&g, &v, sym("04")),
        Err(SingleRevisionError::Resolution(RevsetResolutionError::AmbiguousCommitIdPrefix(_)))
    ));
    assert!(matches!(
        resolve_single_rev(&g, &v, RevsetExpression::Present(bx(sym("04")))),
        Err(SingleRevisionError::Resolution(RevsetResolutionError::AmbiguousCommitIdPrefix(_)))
    ));
    assert!(matches!(resolve_single_rev(&g, &v, RevsetExpression::All), Err(SingleRevisionError::TooMany(3, 2))));
    assert!(matches!(resolve_single_rev(&g, &v, RevsetExpression::Empty), Err(SingleRevisionError::Empty)));
}
