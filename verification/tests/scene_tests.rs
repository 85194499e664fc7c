use commit_viz::data::{Branch, CollectedData, Commit, DateRange, Merge, Metadata};
use commit_viz::fixed::ONE;
use commit_viz::layout::NetworkLayout;
use commit_viz::palette::Rgba;
use commit_viz::scene::{branch_groups, compose_frame, stat_colors, tick_step};
use commit_viz::stats::FrameStats;
use commit_viz::timeline::Layout;

const DAY: i64 = 86_400;
const T0: i64 = 1_700_000_000;

fn branch(name: &str, is_default: bool) -> Branch {
    Branch { name: name.to_string(), is_default, parent_branch: None }
}

fn commit(sha: &str, day: i64, branch: &str, tags: &[&str]) -> Commit {
    Commit {
        sha: sha.to_string(),
        timestamp: T0 + day * DAY,
        branch: branch.to_string(),
        tags: tags.iter().map(|t| t.to_string()).collect(),
        insertions: 3,
        deletions: 1,
        files_changed: 2,
        category: "feature".to_string(),
        parents: Vec::new(),
    }
}

fn merge(sha: &str, from: &str, to: &str, day: i64) -> Merge {
    Merge {
        sha: sha.to_string(),
        from_branch: from.to_string(),
        to_branch: to.to_string(),
        timestamp: T0 + day * DAY,
    }
}

fn history(branches: Vec<Branch>, commits: Vec<Commit>, merges: Vec<Merge>) -> CollectedData {
    CollectedData {
        metadata: Metadata {
            repo: "example".to_string(),
            date_range: DateRange { start: String::new(), end: String::new() },
        },
        branches,
        commits,
        merges,
    }
}

fn sample() -> CollectedData {
    history(
        vec![branch("main", true), branch("f", false), branch("g", false)],
        vec![
            commit("a", 0, "main", &["v1"]),
            commit("b", 1, "f", &[]),
            commit("c", 2, "g", &[]),
            commit("d", 3, "f", &[]),
            commit("e", 4, "main", &["v2"]),
            commit("h", 5, "f", &[]),
            commit("i", 6, "main", &[]),
        ],
        vec![merge("e", "f", "main", 4), merge("i", "g", "main", 6)],
    )
}

fn zero_stats() -> FrameStats {
    FrameStats::default()
}

#[test]
fn branches_are_numbered_by_their_first_commit() {
    let data = sample();
    let layout = NetworkLayout::from_data(&data, 1920, 1080);
    let (placed, _) = layout.position_commits_dynamic(&data);
    let (groups, count) = branch_groups(&placed);
    assert_eq!(groups, vec![0, 1, 2, 1, 0, 1, 0]);
    assert_eq!(count, 3);
    let (none, zero) = branch_groups(&[]);
    assert!(none.is_empty());
    assert_eq!(zero, 0);
}

#[test]
fn a_frame_shows_what_has_come_into_view() {
    let data = sample();
    let layout = NetworkLayout::from_data(&data, 1920, 1080);
    let (placed, _) = layout.position_commits_dynamic(&data);
    let merges = layout.position_merges_dynamic(&data, &placed);
    let labels = layout.compute_branch_labels(&placed);
    let tags = layout.position_tags(&placed);
    let (groups, count) = branch_groups(&placed);
    assert_eq!(merges.len(), 2);
    assert_eq!(labels.len(), 3);
    assert_eq!(tags.len(), 2);

    let none = compose_frame(&placed, &groups, count, &merges, &labels, &tags, 0);
    assert_eq!(none.visible, 0);
    assert_eq!(none.x_limit, 0);
    assert!(none.tags.is_empty() && none.labels.is_empty() && none.merges.is_empty());
    assert!(none.splines.is_empty());

    let early = compose_frame(&placed, &groups, count, &merges, &labels, &tags, 2);
    assert_eq!(early.visible, 2);
    assert_eq!(early.x_limit, placed[1].x);
    assert_eq!(early.tags, vec![0]);
    assert_eq!(early.labels, vec![0, 1]);
    assert!(early.merges.is_empty());
    assert!(early.splines.is_empty());

    let mid = compose_frame(&placed, &groups, count, &merges, &labels, &tags, 5);
    assert_eq!(mid.x_limit, placed[4].x);
    assert_eq!(mid.tags, vec![0, 1]);
    assert_eq!(mid.labels, vec![0, 1, 2]);
    assert_eq!(mid.merges, vec![0]);
    let lines: Vec<(Vec<usize>, bool)> =
        mid.splines.iter().map(|s| (s.commits.clone(), s.is_default)).collect();
    assert_eq!(lines, vec![(vec![0, 4], true), (vec![1, 3], false)]);
    assert_eq!(mid.splines[1].slot, placed[1].slot);

    let all = compose_frame(&placed, &groups, count, &merges, &labels, &tags, 99);
    assert_eq!(all.visible, 7);
    assert_eq!(all.x_limit, (1920 - 40) * ONE);
    assert_eq!(all.merges, vec![0, 1]);
    let lines: Vec<Vec<usize>> = all.splines.iter().map(|s| s.commits.clone()).collect();
    assert_eq!(lines, vec![vec![0, 4, 6], vec![1, 3, 5]]);
}

#[test]
fn alerts_follow_the_snapshot() {
    let green = Rgba { r: 129, g: 199, b: 132, a: 255 };
    let yellow = Rgba { r: 255, g: 200, b: 60, a: 255 };
    let red = Rgba { r: 239, g: 83, b: 80, a: 255 };
    let calm = stat_colors(&zero_stats());
    assert_eq!(calm.unmerged_commits, green);
    assert_eq!(calm.stale_branches, green);
    assert_eq!(calm.unmerged_lines, green);
    assert_eq!(calm.integration_debt, green);
    assert_eq!(calm.since_release, green);
    assert_eq!(calm.oldest_unmerged, green);
    let mut s = zero_stats();
    s.unmerged_commits = 11;
    s.stale_branches = 6;
    s.unmerged_lines = 5000;
    s.integration_debt = u128::MAX;
    s.seconds_since_release = 14 * DAY as i128 + 1;
    s.oldest_unmerged_seconds = 30 * DAY as u64;
    let c = stat_colors(&s);
    assert_eq!(c.unmerged_commits, yellow);
    assert_eq!(c.stale_branches, red);
    assert_eq!(c.unmerged_lines, yellow);
    assert_eq!(c.integration_debt, red);
    assert_eq!(c.since_release, yellow);
    assert_eq!(c.oldest_unmerged, yellow);
}

#[test]
fn a_crowded_date_axis_is_thinned() {
    assert_eq!(tick_step(0), 1);
    assert_eq!(tick_step(30), 1);
    assert_eq!(tick_step(31), 1);
    assert_eq!(tick_step(40), 2);
    assert_eq!(tick_step(200), 10);
}

#[test]
fn the_timeline_has_a_lane_for_every_branch() {
    let data = history(
        vec![branch("dev", false), branch("main", true), branch("second", true), branch("x", false)],
        vec![commit("a", 10, "x", &[]), commit("b", 0, "main", &[]), commit("c", 20, "dev", &[])],
        vec![merge("c", "x", "main", 15), merge("c", "gone", "dev", 20)],
    );
    let layout = Layout::from_data(&data, 1920, 1080, 7);
    assert!(layout.is_wf());
    assert_eq!(
        layout.branch_lanes,
        vec![("main".to_string(), 0), ("dev".to_string(), 1), ("x".to_string(), 2)]
    );
    assert_eq!(layout.time_start, T0);
    assert_eq!(layout.time_end, T0 + 20 * DAY);
    assert_eq!(layout.time_to_x(T0), 80 * ONE);
    assert_eq!(layout.time_to_x(T0 + 20 * DAY), (1920 - 80) * ONE);
    assert_eq!(layout.time_to_x(T0 + 10 * DAY), 960 * ONE);
    assert_eq!(layout.branch_to_y(&"main".to_string()), (110 * ONE, 0));
    assert_eq!(layout.branch_to_y(&"x".to_string()), (230 * ONE, 2));
    assert_eq!(layout.branch_to_y(&"second".to_string()), (290 * ONE, 3));
    let placed = layout.position_commits(&data);
    let seen: Vec<(i128, i128, usize)> = placed.iter().map(|p| (p.x, p.y, p.lane)).collect();
    assert_eq!(
        seen,
        vec![(960 * ONE, 230 * ONE, 2), (80 * ONE, 110 * ONE, 0), (1840 * ONE, 170 * ONE, 1)]
    );
    let lines = layout.position_merges(&data);
    assert_eq!(lines.len(), 2);
    assert_eq!(lines[0].from_x, lines[0].to_x);
    assert_eq!(lines[0].from_x, layout.time_to_x(T0 + 15 * DAY));
    assert_eq!((lines[0].from_y, lines[0].to_y), (230 * ONE, 110 * ONE));
    assert_eq!((lines[1].from_y, lines[1].to_y), (290 * ONE, 170 * ONE));
}

#[test]
fn a_timeline_without_commits_stands_at_the_given_time() {
    let data = history(vec![branch("dev", false)], Vec::new(), Vec::new());
    let layout = Layout::from_data(&data, 800, 600, 1234);
    assert_eq!(layout.time_start, 1234);
    assert_eq!(layout.time_end, 1234);
    assert_eq!(layout.branch_lanes, vec![("dev".to_string(), 0)]);
    assert_eq!(layout.time_to_x(1234), 80 * ONE);
    assert_eq!(layout.time_to_x(1235), (800 - 80) * ONE);
    assert!(layout.position_commits(&data).is_empty());
}
