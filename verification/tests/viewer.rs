use divergence::present::{
    branch_display, commit_summaries, first_line, hex_bytes, remote_list, short_id,
};
use divergence::repo::{Commit, RefEntry, Repo, RepoState};
use divergence::resolve::{baseline_or_default, resolve_baseline_branch};
use divergence::walk::{compute_divergence, revparse, WalkError};

fn commit(id: u8, parents: Vec<usize>, time: i64, message: &str) -> Commit {
    Commit {
        id: vec![id],
        parents,
        time,
        message: message.as_bytes().to_vec(),
    }
}

fn bare_repo() -> Repo {
    Repo {
        commits: Vec::new(),
        refs: Vec::new(),
        origin_head: None,
        upstream_head: None,
        has_master: false,
        has_main: false,
        head: None,
        head_name: None,
        remotes: Vec::new(),
        state: RepoState::Clean,
    }
}

/// A -> B -> C (A oldest), with a reference for `baseline_name` at
/// `baseline_target` and HEAD at C.
fn linear_repo(baseline_name: &str, baseline_target: usize) -> Repo {
    let mut repo = bare_repo();
    repo.commits = vec![
        commit(0xa0, vec![], 100, "first\n"),
        commit(0xb0, vec![0], 200, "second\n"),
        commit(0xc0, vec![1], 300, "third\n"),
    ];
    repo.refs = vec![RefEntry {
        name: baseline_name.to_string(),
        target: baseline_target,
    }];
    repo.head = Some(2);
    repo.head_name = Some("feature".to_string());
    repo
}

#[test]
fn origin_symbolic_head_wins_over_local_branches() {
    let mut repo = bare_repo();
    repo.origin_head = Some("origin/main".to_string());
    repo.upstream_head = Some("upstream/dev".to_string());
    repo.has_master = true;
    repo.has_main = true;
    assert_eq!(resolve_baseline_branch(&repo), "origin/main");
}

#[test]
fn upstream_symbolic_head_when_origin_missing() {
    let mut repo = bare_repo();
    repo.upstream_head = Some("upstream/dev".to_string());
    repo.has_master = true;
    assert_eq!(resolve_baseline_branch(&repo), "upstream/dev");
}

#[test]
fn local_master_wins_over_main() {
    let mut repo = bare_repo();
    repo.has_master = true;
    repo.has_main = true;
    assert_eq!(resolve_baseline_branch(&repo), "master");
}

#[test]
fn local_main_when_no_master() {
    let mut repo = bare_repo();
    repo.has_main = true;
    assert_eq!(resolve_baseline_branch(&repo), "main");
}

#[test]
fn default_is_master_even_when_absent() {
    let repo = bare_repo();
    assert_eq!(resolve_baseline_branch(&repo), "master");
}

#[test]
fn explicit_baseline_overrides_heuristic() {
    let mut repo = bare_repo();
    repo.origin_head = Some("origin/main".to_string());
    assert_eq!(
        baseline_or_default(&repo, Some("release".to_string())),
        "release"
    );
    assert_eq!(baseline_or_default(&repo, None), "origin/main");
}

#[test]
fn revparse_returns_first_matching_reference() {
    let mut repo = linear_repo("main", 0);
    repo.refs.push(RefEntry {
        name: "main".to_string(),
        target: 1,
    });
    assert_eq!(revparse(&repo, &"main".to_string()), Some(0));
    assert_eq!(revparse(&repo, &"missing".to_string()), None);
}

#[test]
fn divergence_of_baseline_equal_to_head_is_empty() {
    let repo = linear_repo("main", 2);
    let out = compute_divergence(&repo, &"main".to_string()).unwrap();
    assert!(out.is_empty());
}

#[test]
fn divergence_over_linear_history_is_time_descending() {
    // "main" points at A, HEAD at C: the walk shows C then B, A excluded.
    let repo = linear_repo("main", 0);
    let out = compute_divergence(&repo, &"main".to_string()).unwrap();
    assert_eq!(out, vec![2, 1]);
}

#[test]
fn divergence_orders_by_commit_time_not_index() {
    let mut repo = linear_repo("main", 0);
    // B is newer than C even though C is the child.
    repo.commits[1].time = 400;
    let out = compute_divergence(&repo, &"main".to_string()).unwrap();
    assert_eq!(out, vec![1, 2]);
}

#[test]
fn divergence_breaks_time_ties_toward_newer_index() {
    let mut repo = linear_repo("main", 0);
    repo.commits[1].time = 300;
    let out = compute_divergence(&repo, &"main".to_string()).unwrap();
    assert_eq!(out, vec![2, 1]);
}

#[test]
fn divergence_excludes_all_baseline_ancestors() {
    let mut repo = bare_repo();
    repo.commits = vec![
        commit(0xa0, vec![], 100, "first\n"),
        commit(0xb0, vec![0], 200, "second\n"),
        commit(0xc0, vec![1], 300, "third\n"),
        commit(0xd0, vec![2], 400, "fourth\n"),
    ];
    repo.refs = vec![RefEntry {
        name: "main".to_string(),
        target: 1,
    }];
    repo.head = Some(3);
    let out = compute_divergence(&repo, &"main".to_string()).unwrap();
    assert_eq!(out, vec![3, 2]);
}

#[test]
fn divergence_of_parallel_histories_keeps_parallel_commits() {
    // A is the root; B and C are siblings on top of it. The baseline B is
    // not an ancestor of HEAD C: C is still shown, A stays excluded.
    let mut repo = bare_repo();
    repo.commits = vec![
        commit(0xa0, vec![], 100, "root\n"),
        commit(0xb0, vec![0], 200, "baseline side\n"),
        commit(0xc0, vec![0], 300, "head side\n"),
    ];
    repo.refs = vec![RefEntry {
        name: "other".to_string(),
        target: 1,
    }];
    repo.head = Some(2);
    let out = compute_divergence(&repo, &"other".to_string()).unwrap();
    assert_eq!(out, vec![2]);
}

#[test]
fn divergence_walks_both_parents_of_a_merge() {
    let mut repo = bare_repo();
    repo.commits = vec![
        commit(0xa0, vec![], 100, "root\n"),
        commit(0xb0, vec![0], 200, "side one\n"),
        commit(0xc0, vec![0], 300, "side two\n"),
        commit(0xd0, vec![1, 2], 400, "merge\n"),
    ];
    repo.refs = vec![RefEntry {
        name: "main".to_string(),
        target: 0,
    }];
    repo.head = Some(3);
    let out = compute_divergence(&repo, &"main".to_string()).unwrap();
    assert_eq!(out, vec![3, 2, 1]);
}

#[test]
fn divergence_is_idempotent_on_an_unchanged_repository() {
    let repo = linear_repo("main", 0);
    let first = compute_divergence(&repo, &"main".to_string()).unwrap();
    let second = compute_divergence(&repo, &"main".to_string()).unwrap();
    assert_eq!(first, second);
}

#[test]
fn unresolved_head_is_a_fatal_walk_error() {
    let mut repo = linear_repo("main", 0);
    repo.head = None;
    assert_eq!(
        compute_divergence(&repo, &"main".to_string()),
        Err(WalkError::HeadUnresolved)
    );
}

#[test]
fn unknown_baseline_is_a_fatal_walk_error() {
    let repo = linear_repo("main", 0);
    assert_eq!(
        compute_divergence(&repo, &"nosuch".to_string()),
        Err(WalkError::BaselineNotFound)
    );
}

#[test]
fn missing_baseline_error_wins_in_an_empty_repository() {
    let repo = bare_repo();
    assert_eq!(
        compute_divergence(&repo, &"master".to_string()),
        Err(WalkError::BaselineNotFound)
    );
}

#[test]
fn branch_display_shows_shorthand() {
    assert_eq!(branch_display(&Some("main".to_string())), "main");
}

#[test]
fn branch_display_falls_back_to_placeholder() {
    assert_eq!(branch_display(&None), "HEAD");
}

#[test]
fn hex_rendering_is_two_lowercase_digits_per_byte() {
    assert_eq!(hex_bytes(&vec![0x00, 0xff, 0x1a]), b"00ff1a".to_vec());
    assert_eq!(hex_bytes(&Vec::new()), Vec::<u8>::new());
}

#[test]
fn short_id_is_seven_hex_digits() {
    let id = vec![0xab, 0xcd, 0xef, 0x12, 0x34];
    assert_eq!(short_id(&id), b"abcdef1".to_vec());
}

#[test]
fn short_id_of_a_short_identifier_is_its_whole_rendering() {
    assert_eq!(short_id(&vec![0x0f]), b"0f".to_vec());
}

#[test]
fn first_line_stops_at_line_feed() {
    assert_eq!(
        first_line(&b"subject\nbody\nmore".to_vec()),
        b"subject".to_vec()
    );
}

#[test]
fn first_line_drops_a_trailing_carriage_return() {
    assert_eq!(first_line(&b"subject\r\nbody".to_vec()), b"subject".to_vec());
}

#[test]
fn first_line_of_a_single_line_is_the_line() {
    assert_eq!(first_line(&b"one line".to_vec()), b"one line".to_vec());
}

#[test]
fn first_line_of_empty_or_leading_newline_is_empty() {
    assert_eq!(first_line(&Vec::new()), Vec::<u8>::new());
    assert_eq!(first_line(&b"\nrest".to_vec()), Vec::<u8>::new());
}

#[test]
fn commit_summaries_follow_the_walk_order() {
    let repo = linear_repo("main", 0);
    let order = compute_divergence(&repo, &"main".to_string()).unwrap();
    let rows = commit_summaries(&repo.commits, &order);
    assert_eq!(
        rows,
        vec![
            (b"c0".to_vec(), b"third".to_vec()),
            (b"b0".to_vec(), b"second".to_vec()),
        ]
    );
}

#[test]
fn state_labels_match_their_variants() {
    assert_eq!(RepoState::Clean.label(), "Clean");
    assert_eq!(RepoState::Merge.label(), "Merge");
    assert_eq!(RepoState::RebaseInteractive.label(), "RebaseInteractive");
    assert_eq!(RepoState::CherryPick.label(), "CherryPick");
}

#[test]
fn remote_list_joins_names_with_commas() {
    assert_eq!(remote_list(&Vec::new()), "");
    assert_eq!(remote_list(&vec!["origin".to_string()]), "origin");
    assert_eq!(
        remote_list(&vec!["origin".to_string(), "upstream".to_string()]),
        "origin, upstream"
    );
}
