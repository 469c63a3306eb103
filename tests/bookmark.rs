use jj_revset::bookmark::{
    cmd_bookmark, find_local_bookmarks, find_remote_bookmarks, has_tracked_remote_bookmarks,
    is_fast_forward, BookmarkDeleteArgs, BookmarkForgetArgs, BookmarkMoveArgs, BookmarkNotice, BookmarkUntrackArgs,
    BranchCommand, CommandError, RefEdit, RemoteBookmarkNamePattern,
};
use jj_revset::duplicate::{duplicate_targets, ensure_no_commit_loop, plan_duplicate, DuplicateError, NewParent};
use jj_revset::graph::{CommitData, CommitGraph};
use jj_revset::pattern::{glob_matches, has_substring, StringPattern};
use jj_revset::push::{
    classify_bookmark_push_action, classify_bookmark_update, decide_push,
    find_bookmarks_targeted_by_revisions, find_bookmarks_to_push, local_remote_bookmarks,
    make_bookmark_term, move_direction, BranchMoveDirection, BranchPushAction, BranchPushUpdate,
    LocalAndRemoteRef, LocalRemotePair, PushProblem, PushScope, PushTargetError, RejectionKind,
    update_change_bookmarks, validate_commits_ready_to_push, ValidateError, cmd_git_push,
    GitPushArgs, GitPushError, default_push_remote,
};
use jj_revset::expr::{RevsetCommitRef, RevsetExpression};
use jj_revset::refs::{RefTarget, RemoteRef, RemoteRefState};
use jj_revset::view::{NamedTarget, RemoteBookmark, RepoView};

fn b(s: &str) -> Vec<u8> {
    s.as_bytes().to_vec()
}

/// Root 0; 1 <- 0; 2 <- 1; 3 <- 2; 4 <- 1.
fn small() -> CommitGraph {
    let parents: [&[usize]; 5] = [&[], &[0], &[1], &[2], &[1]];
    let commits = parents
        .iter()
        .enumerate()
        .map(|(i, ps)| CommitData {
            commit_id: b(&format!("{:x}{}", i, "e".repeat(39))),
            change_id: b(&format!("{}{:x}", "f".repeat(31), i)),
            parents: ps.to_vec(),
            committer_timestamp: i as u64,
            description: vec![],
            author_timestamp: i as u64,
            author_name: b("Test User"),
            author_email: b("test.user@example.com"),
            committer_name: b("Test User"),
            committer_email: b("test.user@example.com"),
            has_conflict: false,
        })
        .collect();
    CommitGraph { commits }
}

fn named(name: &str, target: RefTarget) -> NamedTarget {
    NamedTarget { name: b(name), target }
}

fn remote(name: &str, remote: &str, target: RefTarget, state: RemoteRefState) -> RemoteBookmark {
    RemoteBookmark { name: b(name), remote: b(remote), remote_ref: RemoteRef { target, state } }
}

fn view() -> RepoView {
    RepoView {
        local_bookmarks: vec![
            named("bar", RefTarget::Normal(3)),
            named("foo", RefTarget::Normal(2)),
            named("foo2", RefTarget::Normal(4)),
        ],
        remote_bookmarks: vec![
            remote("bar", "git", RefTarget::Normal(3), RemoteRefState::Tracking),
            remote("foo", "origin", RefTarget::Normal(1), RemoteRefState::Tracking),
            remote("foo", "upstream", RefTarget::Normal(1), RemoteRefState::New),
        ],
        tags: vec![],
        git_refs: vec![],
        git_head: RefTarget::Absent,
        wc_commits: vec![],
    }
}

fn exact(s: &str) -> StringPattern {
    StringPattern::Exact(b(s))
}

fn local_names(v: &RepoView, edits: &[RefEdit]) -> Vec<(Vec<u8>, Option<usize>, bool)> {
    let _ = v;
    edits
        .iter()
        .map(|e| match e {
            RefEdit::SetLocal { name, target } => (name.clone(), target.as_normal(), target.is_present()),
            _ => panic!("expected a local edit"),
        })
        .collect()
}

#[test]
fn find_local_bookmarks_by_patterns() {
    let v = view();
    assert_eq!(find_local_bookmarks(&v, &vec![exact("foo")]).ok(), Some(vec![1]));
    assert_eq!(find_local_bookmarks(&v, &vec![StringPattern::Glob(b("foo*"))]).ok(), Some(vec![1, 2]));
    // Two patterns matching one bookmark select it once.
    assert_eq!(find_local_bookmarks(&v, &vec![exact("foo"), StringPattern::Glob(b("f*"))]).ok(), Some(vec![1, 2]));
    match find_local_bookmarks(&v, &vec![exact("baz")]) {
        Err(CommandError::NoSuchBookmark(name)) => assert_eq!(name, b("baz")),
        _ => panic!("expected no such bookmark"),
    }
    match find_local_bookmarks(&v, &vec![exact("baz"), exact("foo"), StringPattern::Glob(b("q*"))]) {
        Err(CommandError::NoMatchingBookmarks(ks)) => assert_eq!(ks, vec![0, 2]),
        _ => panic!("expected unmatched patterns"),
    }
    match find_local_bookmarks(&v, &vec![StringPattern::Glob(b("q*"))]) {
        Err(CommandError::NoMatchingBookmarks(ks)) => assert_eq!(ks, vec![0]),
        _ => panic!("expected unmatched patterns"),
    }
}

#[test]
fn find_remote_bookmarks_by_patterns() {
    let v = view();
    let p = |n: StringPattern, r: StringPattern| RemoteBookmarkNamePattern { bookmark: n, remote: r };
    assert_eq!(find_remote_bookmarks(&v, &vec![p(exact("foo"), StringPattern::everything())]).ok(), Some(vec![1, 2]));
    assert_eq!(find_remote_bookmarks(&v, &vec![p(exact("foo"), exact("origin"))]).ok(), Some(vec![1]));
    match find_remote_bookmarks(&v, &vec![p(exact("foo"), exact("nowhere"))]) {
        Err(CommandError::NoSuchRemoteBookmark { name, remote }) => {
            assert_eq!(name, b("foo"));
            assert_eq!(remote, b("nowhere"));
        }
        _ => panic!("expected no such remote bookmark"),
    }
}

#[test]
fn tracked_remote_bookmarks() {
    let v = view();
    assert!(has_tracked_remote_bookmarks(&v, &b("foo")));
    // Only the git remote tracks "bar", and it does not count.
    assert!(!has_tracked_remote_bookmarks(&v, &b("bar")));
    assert!(!has_tracked_remote_bookmarks(&v, &b("foo2")));
}

#[test]
fn fast_forward_checks() {
    let g = small();
    assert!(is_fast_forward(&g, &RefTarget::Absent, 3));
    assert!(is_fast_forward(&g, &RefTarget::Normal(1), 3));
    assert!(!is_fast_forward(&g, &RefTarget::Normal(3), 1));
    assert!(!is_fast_forward(&g, &RefTarget::Normal(4), 3));
    let conflicted = RefTarget::Conflicted { adds: vec![4, 2], removes: vec![1] };
    assert!(is_fast_forward(&g, &conflicted, 3));
}

#[test]
fn delete_bookmarks() {
    let g = small();
    let v = view();
    let cmd = BranchCommand::Delete(BookmarkDeleteArgs { names: vec![StringPattern::Glob(b("foo*"))] });
    let ch = cmd_bookmark(&g, &v, &cmd).ok().unwrap();
    assert_eq!(ch.selected, vec![1, 2]);
    assert_eq!(local_names(&v, &ch.edits), vec![(b("foo"), None, false), (b("foo2"), None, false)]);
    let missing = BranchCommand::Delete(BookmarkDeleteArgs { names: vec![exact("nope")] });
    assert!(matches!(cmd_bookmark(&g, &v, &missing), Err(CommandError::NoSuchBookmark(_))));
}

#[test]
fn move_bookmarks() {
    let g = small();
    let v = view();
    // foo (at 2) moves forward to 3.
    let args = BookmarkMoveArgs { from: vec![], to: 3, allow_backwards: false, names: vec![exact("foo")] };
    let ch = cmd_bookmark(&g, &v, &BranchCommand::Move(args)).ok().unwrap();
    assert_eq!(local_names(&v, &ch.edits), vec![(b("foo"), Some(3), true)]);
    // foo2 (at 4) would go sideways.
    let args = BookmarkMoveArgs { from: vec![], to: 3, allow_backwards: false, names: vec![exact("foo2")] };
    match cmd_bookmark(&g, &v, &BranchCommand::Move(args)) {
        Err(CommandError::MoveBackwards(name)) => assert_eq!(name, b("foo2")),
        _ => panic!("expected a refusal"),
    }
    let args = BookmarkMoveArgs { from: vec![], to: 3, allow_backwards: true, names: vec![exact("foo2")] };
    let ch = cmd_bookmark(&g, &v, &BranchCommand::Move(args)).ok().unwrap();
    assert_eq!(local_names(&v, &ch.edits), vec![(b("foo2"), Some(3), true)]);
    // From commit 2: only foo stands there; bar already at 3 is no move.
    let args = BookmarkMoveArgs { from: vec![2, 3], to: 3, allow_backwards: false, names: vec![] };
    let ch = cmd_bookmark(&g, &v, &BranchCommand::Move(args)).ok().unwrap();
    assert_eq!(ch.selected, vec![1]);
    // A name pattern with no bookmark on the sources fails.
    let args = BookmarkMoveArgs { from: vec![4], to: 3, allow_backwards: true, names: vec![exact("foo")] };
    assert!(matches!(cmd_bookmark(&g, &v, &BranchCommand::Move(args)), Err(CommandError::NoSuchBookmark(_))));
    // Nothing to move is no error.
    let args = BookmarkMoveArgs { from: vec![3], to: 3, allow_backwards: false, names: vec![] };
    let ch = cmd_bookmark(&g, &v, &BranchCommand::Move(args)).ok().unwrap();
    assert!(ch.edits.is_empty());
}

#[test]
fn untrack_bookmarks() {
    let g = small();
    let v = view();
    let names = vec![
        RemoteBookmarkNamePattern { bookmark: StringPattern::everything(), remote: StringPattern::everything() },
    ];
    let ch = cmd_bookmark(&g, &v, &BranchCommand::Untrack(BookmarkUntrackArgs { names })).ok().unwrap();
    assert_eq!(ch.selected, vec![0, 1, 2]);
    assert_eq!(ch.edits.len(), 1);
    match &ch.edits[0] {
        RefEdit::Untrack { name, remote } => {
            assert_eq!(name, &b("foo"));
            assert_eq!(remote, &b("origin"));
        }
        _ => panic!("expected an untrack edit"),
    }
    assert_eq!(ch.notices.len(), 2);
    assert!(matches!(&ch.notices[0], BookmarkNotice::GitTrackingCannotBeUntracked { name, .. } if name == &b("bar")));
    assert!(matches!(&ch.notices[1], BookmarkNotice::NotTrackedYet { remote, .. } if remote == &b("upstream")));
}

#[test]
fn push_actions() {
    let t = |local: RefTarget, r: RefTarget, st: RemoteRefState| LocalAndRemoteRef {
        local_target: local,
        remote_ref: RemoteRef { target: r, state: st },
    };
    let tr = RemoteRefState::Tracking;
    assert!(matches!(classify_bookmark_push_action(&t(RefTarget::Normal(1), RefTarget::Normal(1), tr)), BranchPushAction::AlreadyMatches));
    assert!(matches!(
        classify_bookmark_push_action(&t(RefTarget::Conflicted { adds: vec![1, 2], removes: vec![0] }, RefTarget::Normal(1), tr)),
        BranchPushAction::LocalConflicted
    ));
    assert!(matches!(
        classify_bookmark_push_action(&t(RefTarget::Normal(1), RefTarget::Conflicted { adds: vec![1, 2], removes: vec![0] }, tr)),
        BranchPushAction::RemoteConflicted
    ));
    assert!(matches!(
        classify_bookmark_push_action(&t(RefTarget::Normal(2), RefTarget::Normal(1), RemoteRefState::New)),
        BranchPushAction::RemoteUntracked
    ));
    match classify_bookmark_push_action(&t(RefTarget::Normal(2), RefTarget::Normal(1), tr)) {
        BranchPushAction::Update(u) => assert_eq!(u, BranchPushUpdate { old_target: Some(1), new_target: Some(2) }),
        _ => panic!("expected an update"),
    }
    // A new bookmark, and a deleted one.
    match classify_bookmark_update(&b("x"), &b("origin"), &t(RefTarget::Normal(2), RefTarget::Absent, RemoteRefState::New)) {
        Ok(Some(u)) => assert_eq!(u, BranchPushUpdate { old_target: None, new_target: Some(2) }),
        _ => panic!("expected an update"),
    }
    match classify_bookmark_update(&b("x"), &b("origin"), &t(RefTarget::Absent, RefTarget::Normal(2), tr)) {
        Ok(Some(u)) => assert_eq!(u, BranchPushUpdate { old_target: Some(2), new_target: None }),
        _ => panic!("expected an update"),
    }
    match classify_bookmark_update(&b("x"), &b("origin"), &t(RefTarget::Normal(2), RefTarget::Normal(1), RemoteRefState::New)) {
        Err(e) => {
            assert_eq!(e.kind, RejectionKind::RemoteUntracked);
            assert_eq!(e.bookmark, b("x"));
            assert_eq!(e.remote, b("origin"));
        }
        _ => panic!("expected a rejection"),
    }
    assert!(matches!(classify_bookmark_update(&b("x"), &b("o"), &t(RefTarget::Normal(1), RefTarget::Normal(1), tr)), Ok(None)));
}

#[test]
fn move_directions() {
    let g = small();
    assert_eq!(move_direction(&g, 1, 3), BranchMoveDirection::Forward);
    assert_eq!(move_direction(&g, 3, 1), BranchMoveDirection::Backward);
    assert_eq!(move_direction(&g, 4, 3), BranchMoveDirection::Sideways);
}

#[test]
fn bookmark_terms() {
    assert_eq!(make_bookmark_term(&vec![b("main")]), b("bookmark main"));
    assert_eq!(make_bookmark_term(&vec![b("a"), b("b"), b("c")]), b("bookmarkes a, b, c"));
    assert_eq!(make_bookmark_term(&vec![]), b("bookmarkes "));
}

#[test]
fn commit_loops() {
    let g = small();
    // Inserting between 1 and 3 would put 2 on both sides.
    assert_eq!(ensure_no_commit_loop(&g, vec![1], vec![3]), Err(3));
    assert_eq!(ensure_no_commit_loop(&g, vec![3], vec![1]), Ok(()));
    assert_eq!(ensure_no_commit_loop(&g, vec![4], vec![3]), Ok(()));
}

#[test]
fn name_patterns() {
    assert!(glob_matches(&b("a*c"), &b("abbc")));
    assert!(glob_matches(&b("a?c"), &b("abc")));
    assert!(!glob_matches(&b("a?c"), &b("abbc")));
    assert!(glob_matches(&b("*"), &b("")));
    assert!(glob_matches(&b("v[0-9]"), &b("v7")));
    assert!(!glob_matches(&b("v[0-9]"), &b("vx")));
    assert!(glob_matches(&b("v[!0-9]"), &b("vx")));
    assert!(!glob_matches(&b("v[!0-9]"), &b("v7")));
    assert!(glob_matches(&b("[*]"), &b("*")));
    assert!(!glob_matches(&b("[*]"), &b("a")));
    assert!(glob_matches(&b("[]]x"), &b("]x")));
    assert!(glob_matches(&b("a[bc-]"), &b("a-")));
    assert!(glob_matches(&b("[ab"), &b("[ab")));
    assert!(StringPattern::GlobI(b("M[A-Z]IN")).matches(&b("main")));
    assert!(!glob_matches(&b(""), &b("x")));
    assert!(has_substring(&b("hello"), &b("ll")));
    assert!(!has_substring(&b("hello"), &b("lo!")));
    assert!(has_substring(&b("x"), &b("")));
    assert!(StringPattern::ExactI(b("Main")).matches(&b("mAIN")));
    assert!(!StringPattern::Exact(b("Main")).matches(&b("main")));
    assert!(StringPattern::SubstringI(b("AI")).matches(&b("main")));
    assert!(StringPattern::GlobI(b("M*N")).matches(&b("main")));
    assert!(!StringPattern::GlobI(b("M?N")).matches(&b("main")));
}

fn push_view() -> RepoView {
    RepoView {
        local_bookmarks: vec![
            named("main", RefTarget::Normal(3)),
            named("topic", RefTarget::Normal(4)),
            named("wip", RefTarget::Normal(2)),
        ],
        remote_bookmarks: vec![
            remote("main", "origin", RefTarget::Normal(2), RemoteRefState::Tracking),
            remote("gone", "origin", RefTarget::Normal(1), RemoteRefState::Tracking),
            remote("other", "origin", RefTarget::Normal(1), RemoteRefState::New),
            remote("main", "upstream", RefTarget::Normal(1), RemoteRefState::Tracking),
        ],
        tags: vec![],
        git_refs: vec![],
        git_head: RefTarget::Absent,
        wc_commits: vec![],
    }
}

#[test]
fn pairs_for_a_remote() {
    let v = push_view();
    let pairs = local_remote_bookmarks(&v, &b("origin"));
    assert_eq!(
        pairs,
        vec![
            LocalRemotePair { local: Some(0), remote: Some(0) },
            LocalRemotePair { local: Some(1), remote: None },
            LocalRemotePair { local: Some(2), remote: None },
            LocalRemotePair { local: None, remote: Some(1) },
            LocalRemotePair { local: None, remote: Some(2) },
        ]
    );
}

#[test]
fn push_decisions_by_scope() {
    let v = push_view();
    let pairs = local_remote_bookmarks(&v, &b("origin"));
    let all = decide_push(&v, &pairs, PushScope::All);
    assert_eq!(all.len(), 5);
    assert_eq!(all[0].result, Ok(Some(BranchPushUpdate { old_target: Some(2), new_target: Some(3) })));
    assert_eq!(all[1].result, Ok(Some(BranchPushUpdate { old_target: None, new_target: Some(4) })));
    assert_eq!(all[3].result, Ok(Some(BranchPushUpdate { old_target: Some(1), new_target: None })));
    assert_eq!(all[4].result, Err(RejectionKind::RemoteUntracked));
    let tracking_only = decide_push(&v, &pairs, PushScope::TrackedOnly);
    assert_eq!(tracking_only.iter().map(|d| d.pair).collect::<Vec<_>>(), vec![pairs[0], pairs[3]]);
    let deleted = decide_push(&v, &pairs, PushScope::Deleted);
    assert_eq!(deleted.iter().map(|d| d.pair).collect::<Vec<_>>(), vec![pairs[3], pairs[4]]);
}

#[test]
fn bookmarks_to_push_by_name() {
    let v = push_view();
    let pairs = local_remote_bookmarks(&v, &b("origin"));
    assert_eq!(find_bookmarks_to_push(&v, &pairs, &vec![exact("main")]).ok(), Some(vec![pairs[0]]));
    // A deleted bookmark that the remote tracks can be pushed.
    assert_eq!(find_bookmarks_to_push(&v, &pairs, &vec![exact("gone")]).ok(), Some(vec![pairs[3]]));
    // An untracked remote bookmark without a local one cannot.
    match find_bookmarks_to_push(&v, &pairs, &vec![exact("other")]) {
        Err(CommandError::NoSuchBookmark(name)) => assert_eq!(name, b("other")),
        _ => panic!("expected no such bookmark"),
    }
    assert_eq!(
        find_bookmarks_to_push(&v, &pairs, &vec![StringPattern::Glob(b("*i*"))]).ok(),
        Some(vec![pairs[0], pairs[1], pairs[2]])
    );
    // Each pattern's matches in turn, repeats kept.
    assert_eq!(
        find_bookmarks_to_push(&v, &pairs, &vec![exact("topic"), exact("main"), exact("main")]).ok(),
        Some(vec![pairs[1], pairs[0], pairs[0]])
    );
    match find_bookmarks_to_push(&v, &pairs, &vec![exact("zz"), exact("main"), StringPattern::Glob(b("q*"))]) {
        Err(CommandError::NoMatchingBookmarks(ks)) => assert_eq!(ks, vec![0, 2]),
        _ => panic!("expected unmatched patterns"),
    }
}

#[test]
fn bookmarks_targeted_by_revisions() {
    let g = small();
    let v = push_view();
    let pairs = local_remote_bookmarks(&v, &b("origin"));
    // With the working copy at 3: 3 is bookmarked (main) and not yet on origin (at 2).
    let r = find_bookmarks_targeted_by_revisions(&g, &v, &b("origin"), &pairs, vec![], true, Some(3)).ok().unwrap();
    assert_eq!(r.pairs, vec![pairs[0]]);
    assert!(!r.default_empty);
    // With the working copy at 2, which origin already has, nothing is new.
    let r = find_bookmarks_targeted_by_revisions(&g, &v, &b("origin"), &pairs, vec![], true, Some(2)).ok().unwrap();
    assert!(r.pairs.is_empty());
    assert!(r.default_empty);
    assert!(matches!(
        find_bookmarks_targeted_by_revisions(&g, &v, &b("origin"), &pairs, vec![], true, None),
        Err(PushTargetError::NothingCheckedOut)
    ));
    let revs = vec![RevsetExpression::Commits(vec![4]), RevsetExpression::Commits(vec![0])];
    let r = find_bookmarks_targeted_by_revisions(&g, &v, &b("origin"), &pairs, revs, false, None).ok().unwrap();
    assert_eq!(r.pairs, vec![pairs[1]]);
    // Revision 1 (the root) holds no bookmark.
    assert_eq!(r.empty_revisions, vec![1]);
    let connected_none = vec![RevsetExpression::Connected(Box::new(RevsetExpression::Empty))];
    let r = find_bookmarks_targeted_by_revisions(&g, &v, &b("origin"), &pairs, connected_none, false, None).ok().unwrap();
    assert!(r.pairs.is_empty());
    assert_eq!(r.empty_revisions, vec![0]);
    let bad = vec![RevsetExpression::CommitRef(RevsetCommitRef::Symbol(b("nope")))];
    assert!(matches!(
        find_bookmarks_targeted_by_revisions(&g, &v, &b("origin"), &pairs, bad, false, None),
        Err(PushTargetError::Resolution(_))
    ));
}

#[test]
fn forget_bookmarks() {
    let g = small();
    let v = view();
    let cmd = BranchCommand::Forget(BookmarkForgetArgs { names: vec![exact("foo")] });
    let ch = cmd_bookmark(&g, &v, &cmd).ok().unwrap();
    assert_eq!(ch.selected, vec![1]);
    assert_eq!(ch.selected_remote, vec![1, 2]);
    assert_eq!(ch.edits.len(), 3);
    assert!(matches!(&ch.edits[0], RefEdit::SetLocal { name, target: RefTarget::Absent } if name == &b("foo")));
    assert!(matches!(&ch.edits[2], RefEdit::SetRemote { remote, .. } if remote == &b("upstream")));
    let missing = BranchCommand::Forget(BookmarkForgetArgs { names: vec![exact("zzz"), exact("yyy")] });
    match cmd_bookmark(&g, &v, &missing) {
        Err(CommandError::NoMatchingBookmarks(ks)) => assert_eq!(ks, vec![0, 1]),
        _ => panic!("expected unmatched patterns"),
    }
}

#[test]
fn change_bookmark_names() {
    let mut g = small();
    let mut v = push_view();
    // The short ids of commits 1 and 2 are alike, so they keep the full id.
    let made = update_change_bookmarks(&g, &v, &vec![1, 2], &b("push-"));
    assert_eq!(made.len(), 2);
    assert_eq!(made[0].name, b(&format!("push-{}1", "f".repeat(31))));
    assert_eq!(made[1].commit, 2);
    g.commits[3].change_id = b("0123456789abcdef0123456789abcdef");
    let made = update_change_bookmarks(&g, &v, &vec![3], &b("push-"));
    assert_eq!(made[0].name, b("push-0123456789ab"));
    assert_eq!(made[0].commit, 3);
    assert!(made[0].created);
    // A bookmark with the full change id is kept.
    let full = "push-0123456789abcdef0123456789abcdef";
    v.local_bookmarks.push(named(full, RefTarget::Normal(2)));
    let made = update_change_bookmarks(&g, &v, &vec![3], &b("push-"));
    assert_eq!(made[0].name, b(full));
    assert!(!made[0].created);
}

#[test]
fn validate_push_commits() {
    let mut g = small();
    let v = push_view();
    for c in g.commits.iter_mut() {
        c.description = b("done");
    }
    let ok = validate_commits_ready_to_push(
        &g, &v, &b("origin"), vec![4], RevsetExpression::Root, RevsetExpression::Empty, false, false,
    );
    assert!(ok.is_ok());
    g.commits[4].description = vec![];
    g.commits[1].has_conflict = true;
    // origin has 2 and 1, so only 4 is pushed.
    match validate_commits_ready_to_push(
        &g, &v, &b("origin"), vec![4], RevsetExpression::Root, RevsetExpression::Empty, false, false,
    ) {
        Err(ValidateError::Unready(u)) => {
            assert_eq!(u.commit, 4);
            assert_eq!(u.problems, vec![PushProblem::NoDescription]);
        }
        _ => panic!("expected an unready commit"),
    }
    assert!(validate_commits_ready_to_push(
        &g, &v, &b("origin"), vec![4], RevsetExpression::Root, RevsetExpression::Empty, true, false,
    )
    .is_ok());
    g.commits[4].author_email = b("(no email configured)");
    match validate_commits_ready_to_push(
        &g, &v, &b("origin"), vec![4], RevsetExpression::Root, RevsetExpression::Commits(vec![4]), true, false,
    ) {
        Err(ValidateError::Unready(u)) => {
            assert_eq!(u.problems, vec![PushProblem::NoAuthorOrCommitter, PushProblem::IsPrivate]);
        }
        _ => panic!("expected an unready commit"),
    }
    // To a remote with nothing, commit 1 and its conflict come along.
    g.commits[4].author_email = b("a@b.c");
    match validate_commits_ready_to_push(
        &g, &v, &b("elsewhere"), vec![2], RevsetExpression::Root, RevsetExpression::Empty, true, false,
    ) {
        Err(ValidateError::Unready(u)) => {
            assert_eq!(u.commit, 1);
            assert_eq!(u.problems, vec![PushProblem::HasConflicts]);
        }
        _ => panic!("expected an unready commit"),
    }
}

#[test]
fn git_push_plans() {
    let g = small();
    let v = push_view();
    let pairs = local_remote_bookmarks(&v, &b("origin"));
    let args = |all: bool, tracking: bool, deleted: bool, bookmark: Vec<StringPattern>, revisions: Vec<RevsetExpression>| {
        GitPushArgs {
            bookmark,
            all,
            tracking,
            deleted,
            revisions,
            change: vec![],
            allow_empty_description: false,
            allow_private: false,
            dry_run: false,
        }
    };
    let all = cmd_git_push(&g, &v, &b("origin"), &b("push-"), args(true, false, false, vec![], vec![]), None).ok().unwrap().decisions;
    assert_eq!(all.len(), 5);
    let deleted = cmd_git_push(&g, &v, &b("origin"), &b("push-"), args(false, false, true, vec![], vec![]), None).ok().unwrap().decisions;
    assert_eq!(deleted.iter().map(|d| d.pair).collect::<Vec<_>>(), vec![pairs[3], pairs[4]]);
    // By name, then by revision, each bookmark once.
    let named = cmd_git_push(
        &g,
        &v,
        &b("origin"),
        &b("push-"),
        args(false, false, false, vec![exact("main"), exact("topic")], vec![RevsetExpression::Commits(vec![3, 2])]),
        None,
    )
    .ok()
    .unwrap()
    .decisions;
    assert_eq!(named.iter().map(|d| d.pair).collect::<Vec<_>>(), vec![pairs[0], pairs[1], pairs[2]]);
    assert_eq!(named[2].result, Ok(Some(BranchPushUpdate { old_target: None, new_target: Some(2) })));
    // The default revisions need a working copy.
    assert!(matches!(
        cmd_git_push(&g, &v, &b("origin"), &b("push-"), args(false, false, false, vec![], vec![]), None),
        Err(GitPushError::Target(PushTargetError::NothingCheckedOut))
    ));
    let dflt = cmd_git_push(&g, &v, &b("origin"), &b("push-"), args(false, false, false, vec![], vec![]), Some(3)).ok().unwrap().decisions;
    assert_eq!(dflt.iter().map(|d| d.pair).collect::<Vec<_>>(), vec![pairs[0]]);
}

#[test]
fn git_push_refuses_named_conflict() {
    let g = small();
    let mut v = push_view();
    v.local_bookmarks[1].target = RefTarget::Conflicted { adds: vec![3, 4], removes: vec![1] };
    let args = |bookmark: Vec<StringPattern>, revisions: Vec<RevsetExpression>| GitPushArgs {
        bookmark,
        all: false,
        tracking: false,
        deleted: false,
        revisions,
        change: vec![],
        allow_empty_description: false,
        allow_private: false,
        dry_run: false,
    };
    match cmd_git_push(&g, &v, &b("origin"), &b("push-"), args(vec![exact("topic")], vec![]), None) {
        Err(GitPushError::Rejected { kind, .. }) => assert_eq!(kind, RejectionKind::LocalConflicted),
        _ => panic!("expected a rejection"),
    }
    // Reached only through a revision, the same bookmark is kept with its refusal.
    let plan = cmd_git_push(&g, &v, &b("origin"), &b("push-"), args(vec![], vec![RevsetExpression::Commits(vec![3])]), None).ok().unwrap();
    assert_eq!(plan.decisions.len(), 2);
    assert_eq!(plan.decisions[1].result, Err(RejectionKind::LocalConflicted));
    // An unmatched name comes first.
    assert!(matches!(
        cmd_git_push(&g, &v, &b("origin"), &b("push-"), args(vec![exact("nope")], vec![]), None),
        Err(GitPushError::Command(CommandError::NoSuchBookmark(_)))
    ));
}

#[test]
fn duplicate_plans() {
    let g = small();
    // Without destinations each duplicate keeps its parents, or their duplicates.
    let plan = plan_duplicate(&g, &vec![3, 2], &vec![], &vec![]).ok().unwrap();
    assert_eq!(plan.order, vec![2, 3]);
    assert_eq!(plan.parents, vec![vec![NewParent::Existing(1)], vec![NewParent::Duplicate(2)]]);
    assert!(plan.heads.is_empty());
    // With a destination the root of the set moves onto it.
    let plan = plan_duplicate(&g, &vec![2], &vec![4], &vec![]).ok().unwrap();
    assert_eq!(plan.parents, vec![vec![NewParent::Existing(4)]]);
    // Inserted before a child, the set's heads become the child's new parents.
    let plan = plan_duplicate(&g, &vec![2, 3], &vec![1], &vec![4]).ok().unwrap();
    assert_eq!(plan.order, vec![2, 3]);
    assert_eq!(plan.parents, vec![vec![NewParent::Existing(1)], vec![NewParent::Duplicate(2)]]);
    assert_eq!(plan.heads, vec![3]);
    // A chain onto a destination keeps its shape.
    let plan = plan_duplicate(&g, &vec![2, 3], &vec![4], &vec![]).ok().unwrap();
    assert_eq!(plan.parents, vec![vec![NewParent::Existing(4)], vec![NewParent::Duplicate(2)]]);
    // A commit between two duplicated ones, not itself duplicated, gives way
    // to the nearest duplicated one below it.
    let plan = plan_duplicate(&g, &vec![1, 3], &vec![4], &vec![]).ok().unwrap();
    assert_eq!(plan.parents, vec![vec![NewParent::Existing(4)], vec![NewParent::Duplicate(1)]]);
    assert_eq!(plan_duplicate(&g, &vec![2, 0], &vec![], &vec![]).err(), Some(DuplicateError::RootCommit));
}

#[test]
fn duplicate_target_cases() {
    let g = small();
    let none: Vec<usize> = vec![];
    // Before 3 only: its parents are the parents.
    assert_eq!(duplicate_targets(&g, &none, &none, &vec![3], &none).ok(), Some((vec![2], vec![3])));
    // After 1 only: its children, highest first, are the children.
    assert_eq!(duplicate_targets(&g, &none, &vec![1], &none, &none).ok(), Some((vec![1], vec![4, 2])));
    assert_eq!(duplicate_targets(&g, &vec![4], &none, &none, &none).ok(), Some((vec![4], vec![])));
    // After 3 and before 2 would put 2 and 3 on both sides.
    assert_eq!(duplicate_targets(&g, &none, &vec![3], &vec![2], &none).err(), Some(DuplicateError::CommitLoop(3)));
    // An immutable child cannot be rebased.
    assert_eq!(duplicate_targets(&g, &none, &none, &vec![2], &vec![2]).err(), Some(DuplicateError::NotRewritable(2)));
    assert_eq!(duplicate_targets(&g, &none, &vec![0], &none, &vec![3]).err(), Some(DuplicateError::NotRewritable(1)));
}

#[test]
fn git_push_change_and_directions() {
    let g = small();
    let v = push_view();
    let args = |bookmark: Vec<StringPattern>, change: Vec<usize>| GitPushArgs {
        bookmark,
        all: false,
        tracking: false,
        deleted: false,
        revisions: vec![],
        change,
        allow_empty_description: false,
        allow_private: false,
        dry_run: false,
    };
    let plan = cmd_git_push(&g, &v, &b("origin"), &b("push-"), args(vec![exact("main")], vec![3, 3]), None).ok().unwrap();
    assert_eq!(plan.changes.len(), 2);
    assert_eq!(plan.changes[0].bookmark.name, b(&format!("push-{}3", "f".repeat(31))));
    assert_eq!(plan.changes[0].update, Some(BranchPushUpdate { old_target: None, new_target: Some(3) }));
    assert!(!plan.changes[0].repeated);
    assert!(plan.changes[1].repeated);
    assert_eq!(plan.decisions.len(), 1);
    assert_eq!(plan.directions, vec![Some(BranchMoveDirection::Forward)]);
}

#[test]
fn default_remote_choice() {
    assert_eq!(default_push_remote(&Some(b("up")), &vec![b("a")]), (b("up"), false));
    assert_eq!(default_push_remote(&None, &vec![b("fork")]), (b("fork"), true));
    assert_eq!(default_push_remote(&None, &vec![b("origin")]), (b("origin"), false));
    assert_eq!(default_push_remote(&None, &vec![b("a"), b("b")]), (b("origin"), false));
}

#[test]
fn connected_revision_adds_no_common_ancestor() {
    let g = small();
    let mut v = push_view();
    v.local_bookmarks = vec![named("b1", RefTarget::Normal(1))];
    let pairs = local_remote_bookmarks(&v, &b("origin"));
    let connected = vec![RevsetExpression::Connected(Box::new(RevsetExpression::Commits(vec![2, 4])))];
    let plain = vec![RevsetExpression::Commits(vec![2, 4])];
    let a = find_bookmarks_targeted_by_revisions(&g, &v, &b("origin"), &pairs, connected, false, None).ok().unwrap();
    let b2 = find_bookmarks_targeted_by_revisions(&g, &v, &b("origin"), &pairs, plain, false, None).ok().unwrap();
    assert!(a.pairs.is_empty());
    assert_eq!(a.pairs, b2.pairs);
}
