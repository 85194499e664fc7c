use commit_viz::data::{default_category, Branch, CollectedData, Commit, DateRange, Merge, Metadata};
use commit_viz::stats::{precompute_frame_stats, FrameStats};

const DAY: i64 = 86_400;
const T0: i64 = 1_700_000_000;

fn branch(name: &str, is_default: bool, parent: Option<&str>) -> Branch {
    Branch { name: name.to_string(), is_default, parent_branch: parent.map(|p| p.to_string()) }
}

fn commit(sha: &str, day: i64, branch: &str, category: &str, lines: u32, files: u32) -> Commit {
    Commit {
        sha: sha.to_string(),
        timestamp: T0 + day * DAY,
        branch: branch.to_string(),
        tags: Vec::new(),
        insertions: lines,
        deletions: 0,
        files_changed: files,
        category: category.to_string(),
        parents: Vec::new(),
    }
}

fn tagged(sha: &str, day: i64, branch: &str, tag: &str) -> Commit {
    let mut c = commit(sha, day, branch, "release", 1, 1);
    c.tags.push(tag.to_string());
    c
}

fn merge(sha: &str, from: &str, to: &str, day: i64) -> Merge {
    Merge {
        sha: sha.to_string(),
        from_branch: from.to_string(),
        to_branch: to.to_string(),
        timestamp: T0 + day * DAY,
    }
}

fn history(branches: Vec<Branch>, commits: Vec<Commit>, merges: Vec<Merge>) -> CollectedData {
    CollectedData {
        metadata: Metadata {
            repo: "example".to_string(),
            date_range: DateRange { start: String::new(), end: String::new() },
        },
        branches,
        commits,
        merges,
    }
}

fn feature_merged_late() -> CollectedData {
    history(
        vec![branch("main", true, None), branch("feature/x", false, Some("main"))],
        vec![
            commit("m0", 0, "main", "feature", 3, 1),
            commit("f1", 1, "feature/x", "feature", 10, 1),
            commit("f2", 2, "feature/x", "feature", 10, 1),
            commit("f3", 3, "feature/x", "feature", 10, 1),
            commit("f4", 4, "feature/x", "feature", 10, 1),
            commit("f5", 5, "feature/x", "feature", 10, 1),
            commit("m1", 6, "main", "merge", 0, 0),
            commit("m2", 7, "main", "feature", 3, 1),
        ],
        vec![merge("m1", "feature/x", "main", 6)],
    )
}

#[test]
fn the_default_category_is_other() {
    assert_eq!(default_category(), "other");
}

#[test]
fn lines_are_insertions_plus_deletions() {
    let mut c = commit("a", 0, "main", "feature", u32::MAX, 1);
    c.deletions = u32::MAX;
    assert_eq!(c.lines(), 2 * (u32::MAX as u64));
}

#[test]
fn single_main_branch_has_nothing_unmerged() {
    let data = history(
        vec![branch("main", true, None)],
        vec![
            commit("a", 0, "main", "feature", 10, 1),
            commit("b", 1, "main", "feature", 10, 1),
            commit("c", 3, "main", "feature", 10, 1),
        ],
        Vec::new(),
    );
    let stats = precompute_frame_stats(&data, "main");
    assert_eq!(stats.len(), 3);
    for (i, s) in stats.iter().enumerate() {
        assert_eq!(s.unmerged_commits, 0);
        assert_eq!(s.unmerged_lines, 0);
        assert_eq!(s.unmerged_files, 0);
        assert_eq!(s.active_branches, 0);
        assert_eq!(s.stale_branches, 0);
        assert_eq!(s.integration_debt, 0);
        assert_eq!(s.oldest_unmerged_seconds, 0);
        assert_eq!(s.merge_throughput, 0);
        assert_eq!(s.awaiting_release, i as u64 + 1);
        assert_eq!(
            s.seconds_since_release,
            (data.commits[i].timestamp - data.commits[0].timestamp) as i128
        );
    }
    assert_eq!(stats[2].seconds_since_release, 3 * DAY as i128);
}

#[test]
fn a_feature_branch_counts_until_it_is_merged() {
    let data = feature_merged_late();
    let stats = precompute_frame_stats(&data, "main");
    assert_eq!(stats.len(), 8);
    assert_eq!(stats[0].unmerged_commits, 0);
    for k in 1..=5usize {
        assert_eq!(stats[k].unmerged_commits, k as u64);
        assert_eq!(stats[k].unmerged_lines, 10 * k as u128);
        assert_eq!(stats[k].unmerged_files, k as u128);
        assert_eq!(stats[k].active_branches, 1);
        assert_eq!(stats[k].stale_branches, 0);
        assert_eq!(stats[k].merge_throughput, 0);
    }
    assert_eq!(stats[5].unmerged_commits, 5);
    for k in 6..8usize {
        assert_eq!(stats[k].unmerged_commits, 0);
        assert_eq!(stats[k].unmerged_lines, 0);
        assert_eq!(stats[k].unmerged_files, 0);
        assert_eq!(stats[k].active_branches, 0);
        assert_eq!(stats[k].stale_branches, 0);
        assert_eq!(stats[k].integration_debt, 0);
        assert_eq!(stats[k].oldest_unmerged_seconds, 0);
        assert_eq!(stats[k].merge_throughput, 1);
    }
}

#[test]
fn debt_is_lines_times_days() {
    let data = feature_merged_late();
    let stats = precompute_frame_stats(&data, "main");
    assert_eq!(stats[1].integration_debt, 0);
    assert_eq!(stats[2].integration_debt, 20);
    assert_eq!(stats[5].integration_debt, 50 * 4);
    assert_eq!(stats[5].oldest_unmerged_seconds, 4 * DAY as u64);
}

#[test]
fn debt_of_a_part_of_a_day_is_rounded_down() {
    let mut commits = vec![
        commit("a", 0, "side", "feature", 7, 1),
        commit("b", 0, "main", "feature", 1, 1),
    ];
    commits[1].timestamp += DAY / 2;
    let data = history(vec![branch("main", true, None)], commits, Vec::new());
    let stats = precompute_frame_stats(&data, "main");
    assert_eq!(stats[1].integration_debt, 3);
    assert_eq!(stats[1].oldest_unmerged_seconds, (DAY / 2) as u64);
}

#[test]
fn a_snapshot_is_the_same_when_derived_from_a_prefix() {
    let data = feature_merged_late();
    let whole = precompute_frame_stats(&data, "main");
    for n in 1..=data.commits.len() {
        let prefix = history(
            data.branches.clone(),
            data.commits[..n].to_vec(),
            data.merges.clone(),
        );
        let part = precompute_frame_stats(&prefix, "main");
        assert_eq!(part.len(), n);
        assert_eq!(&whole[..n], &part[..]);
    }
}

#[test]
fn a_release_tag_resets_the_wait() {
    let data = history(
        vec![branch("main", true, None)],
        vec![
            commit("a", 0, "main", "feature", 1, 1),
            commit("b", 1, "main", "feature", 1, 1),
            tagged("c", 2, "main", "v1.0"),
            commit("d", 5, "main", "feature", 1, 1),
            tagged("e", 6, "side", "v9"),
            commit("f", 7, "main", "feature", 1, 1),
        ],
        Vec::new(),
    );
    let stats = precompute_frame_stats(&data, "main");
    let waits: Vec<u64> = stats.iter().map(|s| s.awaiting_release).collect();
    assert_eq!(waits, vec![1, 2, 0, 1, 1, 2]);
    let since: Vec<i128> = stats.iter().map(|s| s.seconds_since_release / DAY as i128).collect();
    assert_eq!(since, vec![0, 1, 0, 3, 4, 5]);
}

#[test]
fn a_branch_turns_stale_after_thirty_days_of_silence() {
    let mut commits = vec![
        commit("a", 0, "quiet", "feature", 1, 1),
        commit("b", 30, "main", "feature", 1, 1),
        commit("c", 30, "main", "feature", 1, 1),
        commit("d", 40, "quiet", "feature", 1, 1),
    ];
    commits[2].timestamp += 1;
    let data = history(vec![branch("main", true, None)], commits, Vec::new());
    let stats = precompute_frame_stats(&data, "main");
    let counts: Vec<(u64, u64)> = stats.iter().map(|s| (s.active_branches, s.stale_branches)).collect();
    assert_eq!(counts, vec![(1, 0), (1, 0), (0, 1), (1, 0)]);
    for s in &stats {
        assert_eq!(s.active_branches + s.stale_branches, 1);
    }
}

#[test]
fn merges_count_for_thirty_days() {
    let data = history(
        vec![branch("main", true, None)],
        vec![
            commit("x1", 0, "x", "feature", 1, 1),
            commit("y1", 0, "y", "feature", 1, 1),
            commit("m1", 1, "main", "merge", 1, 1),
            commit("m2", 20, "main", "merge", 1, 1),
            commit("n1", 31, "main", "feature", 1, 1),
            commit("n2", 32, "main", "feature", 1, 1),
            commit("n3", 51, "main", "feature", 1, 1),
        ],
        vec![merge("m1", "x", "main", 1), merge("m2", "y", "main", 20)],
    );
    let stats = precompute_frame_stats(&data, "main");
    let recent: Vec<u64> = stats.iter().map(|s| s.merge_throughput).collect();
    assert_eq!(recent, vec![0, 0, 1, 2, 2, 1, 0]);
    let open: Vec<u64> = stats.iter().map(|s| s.unmerged_commits).collect();
    assert_eq!(open, vec![1, 2, 1, 0, 0, 0, 0]);
}

#[test]
fn one_commit_may_merge_several_branches() {
    let data = history(
        vec![branch("main", true, None)],
        vec![
            commit("x1", 0, "x", "feature", 1, 1),
            commit("y1", 1, "y", "feature", 1, 1),
            commit("z1", 2, "z", "feature", 1, 1),
            commit("oct", 3, "main", "merge", 1, 1),
        ],
        vec![merge("oct", "x", "main", 3), merge("oct", "y", "main", 3)],
    );
    let stats = precompute_frame_stats(&data, "main");
    assert_eq!(stats[2].unmerged_commits, 3);
    assert_eq!(stats[3].unmerged_commits, 1);
    assert_eq!(stats[3].merge_throughput, 1);
}

#[test]
fn a_merge_before_the_first_commit_of_its_source_merges_nothing() {
    let data = history(
        vec![branch("main", true, None)],
        vec![
            commit("early", 0, "main", "merge", 1, 1),
            commit("x1", 1, "x", "feature", 4, 2),
            commit("m", 2, "main", "feature", 1, 1),
        ],
        vec![merge("early", "x", "main", 0)],
    );
    let stats = precompute_frame_stats(&data, "main");
    assert_eq!(stats[0].merge_throughput, 1);
    assert_eq!(stats[1].unmerged_commits, 1);
    assert_eq!(stats[2].unmerged_commits, 1);
    assert_eq!(stats[2].unmerged_lines, 4);
    assert_eq!(stats[2].unmerged_files, 2);
}

#[test]
fn commits_that_go_back_in_time_add_no_debt() {
    let data = history(
        vec![branch("main", true, None)],
        vec![
            commit("x1", 10, "x", "feature", 100, 1),
            commit("m", 5, "main", "feature", 1, 1),
        ],
        Vec::new(),
    );
    let stats = precompute_frame_stats(&data, "main");
    assert_eq!(stats[1].integration_debt, 0);
    assert_eq!(stats[1].oldest_unmerged_seconds, 0);
    assert_eq!(stats[1].active_branches, 1);
    assert_eq!(stats[1].seconds_since_release, -5 * DAY as i128);
}

#[test]
fn an_empty_history_has_no_snapshots() {
    let data = history(vec![branch("main", true, None)], Vec::new(), Vec::new());
    let stats: Vec<FrameStats> = precompute_frame_stats(&data, "main");
    assert!(stats.is_empty());
}

#[test]
fn the_default_branch_is_never_counted() {
    let data = history(
        vec![branch("trunk", true, None)],
        vec![
            commit("a", 0, "trunk", "conflict", 5, 5),
            commit("b", 100, "trunk", "feature", 5, 5),
        ],
        Vec::new(),
    );
    let stats = precompute_frame_stats(&data, "trunk");
    for s in &stats {
        assert_eq!(s.unmerged_commits, 0);
        assert_eq!(s.stale_branches, 0);
        assert_eq!(s.active_branches, 0);
    }
    let other = precompute_frame_stats(&data, "main");
    assert_eq!(other[1].unmerged_commits, 2);
    assert_eq!(other[1].stale_branches, 0);
    assert_eq!(other[1].active_branches, 1);
}

#[test]
fn the_default_snapshot_is_empty() {
    let s = FrameStats::default();
    assert_eq!(s.unmerged_commits, 0);
    assert_eq!(s.active_branches, 0);
    assert_eq!(s.stale_branches, 0);
    assert_eq!(s.unmerged_lines, 0);
    assert_eq!(s.unmerged_files, 0);
    assert_eq!(s.integration_debt, 0);
    assert_eq!(s.seconds_since_release, 0);
    assert_eq!(s.awaiting_release, 0);
    assert_eq!(s.oldest_unmerged_seconds, 0);
    assert_eq!(s.merge_throughput, 0);
}
