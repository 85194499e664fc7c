use commit_viz::data::{Branch, CollectedData, Commit, DateRange, Merge, Metadata};
use commit_viz::fixed::{floor_div, log2_fixed, ONE};
use commit_viz::layout::{
    branch_has_conflict, branch_is_stale, is_merge_source, latest_commit_on, log_extent,
    NetworkLayout, MAX_DIVERGENCE_OFFSET, MIN_BRANCH_SPACING,
};

const DAY: i64 = 86_400;
const T0: i64 = 1_700_000_000;

fn branch(name: &str, is_default: bool, parent: Option<&str>) -> Branch {
    Branch { name: name.to_string(), is_default, parent_branch: parent.map(|p| p.to_string()) }
}

fn commit(sha: &str, day: i64, branch: &str, category: &str, lines: u32, files: u32) -> Commit {
    Commit {
        sha: sha.to_string(),
        timestamp: T0 + day * DAY,
        branch: branch.to_string(),
        tags: Vec::new(),
        insertions: lines,
        deletions: 0,
        files_changed: files,
        category: category.to_string(),
        parents: Vec::new(),
    }
}

fn merge(sha: &str, from: &str, to: &str, day: i64) -> Merge {
    Merge {
        sha: sha.to_string(),
        from_branch: from.to_string(),
        to_branch: to.to_string(),
        timestamp: T0 + day * DAY,
    }
}

fn history(branches: Vec<Branch>, commits: Vec<Commit>, merges: Vec<Merge>) -> CollectedData {
    CollectedData {
        metadata: Metadata {
            repo: "example".to_string(),
            date_range: DateRange { start: String::new(), end: String::new() },
        },
        branches,
        commits,
        merges,
    }
}

#[test]
fn log2_fixed_is_exact_at_powers_of_two() {
    assert_eq!(log2_fixed(0), 0);
    assert_eq!(log2_fixed(1), 0);
    assert_eq!(log2_fixed(2), 65536);
    assert_eq!(log2_fixed(8), 3 * 65536);
    assert_eq!(log2_fixed(1 << 100), 100 * 65536);
    assert_eq!(log2_fixed(u128::MAX), 127 * 65536 + 65535);
}

#[test]
fn log2_fixed_is_the_logarithm_rounded_down_at_its_steps() {
    assert_eq!(log2_fixed(3), 103872);
    assert_eq!(log2_fixed(5), 2 * 65536 + 21097);
    assert_eq!(log2_fixed(10), 217705);
    assert_eq!(log2_fixed(11), 226717);
    assert_eq!(log2_fixed(65), 6 * 65536 + 1465);
    assert_eq!(log2_fixed(1000), 653117);
}

#[test]
fn log2_fixed_rises_linearly_between_its_steps() {
    assert_eq!(log2_fixed(129), 459484);
    assert_eq!(log2_fixed(130), 7 * 65536 + 1465);
    assert_eq!(log2_fixed(1001), 653211);
    assert_eq!(log2_fixed((1 << 40) | 1), 2621440);
    assert_eq!(log2_fixed((1 << 64) + 12345678901234567890), 4242747);
}

#[test]
fn log2_fixed_never_falls() {
    let mut last = 0;
    for n in 0..5000u128 {
        let l = log2_fixed(n);
        assert!(l >= last);
        last = l;
    }
}

#[test]
fn floor_div_rounds_down() {
    assert_eq!(floor_div(7, 2), 3);
    assert_eq!(floor_div(-7, 2), -4);
    assert_eq!(floor_div(-8, 2), -4);
    assert_eq!(floor_div(0, 5), 0);
}

#[test]
fn layout_of_full_hd() {
    let data = history(vec![branch("trunk", true, None)], Vec::new(), Vec::new());
    let layout = NetworkLayout::from_data(&data, 1920, 1080);
    assert_eq!(layout.width, 1920);
    assert_eq!(layout.margin_left, 80 * ONE);
    assert_eq!(layout.margin_right, 40 * ONE);
    assert_eq!(layout.main_y, 13336576);
    assert_eq!(layout.min_branch_spacing, 35 * ONE);
    assert_eq!(layout.max_divergence_offset, 250 * ONE);
    assert_eq!(layout.default_branch, "trunk");
    assert!(layout.is_wf());
}

#[test]
fn layout_of_a_drawing_lower_than_its_margins() {
    let data = history(Vec::new(), Vec::new(), Vec::new());
    let layout = NetworkLayout::from_data(&data, 100, 100);
    assert_eq!(layout.main_y, 3702784);
    assert!(layout.is_wf());
}

#[test]
fn default_branch_falls_back_to_main() {
    let data = history(vec![branch("dev", false, None)], Vec::new(), Vec::new());
    let layout = NetworkLayout::from_data(&data, 800, 600);
    assert_eq!(layout.default_branch, "main");
}

#[test]
fn first_flagged_branch_is_the_default() {
    let data = history(
        vec![branch("dev", false, None), branch("trunk", true, None), branch("main", true, None)],
        Vec::new(),
        Vec::new(),
    );
    let layout = NetworkLayout::from_data(&data, 800, 600);
    assert_eq!(layout.default_branch, "trunk");
}

#[test]
fn x_runs_from_margin_to_margin() {
    let data = history(Vec::new(), Vec::new(), Vec::new());
    let layout = NetworkLayout::from_data(&data, 1920, 1080);
    assert_eq!(layout.commit_to_x(0, 4), 80 * ONE);
    assert_eq!(layout.commit_to_x(1, 4), 44564480);
    assert_eq!(layout.commit_to_x(2, 4), 83886080);
    assert_eq!(layout.commit_to_x(3, 4), (1920 - 40) * ONE);
    let mut last = layout.commit_to_x(0, 1000);
    for i in 1..1000usize {
        let x = layout.commit_to_x(i, 1000);
        assert!(x >= last);
        last = x;
    }
}

#[test]
fn a_single_commit_stands_in_the_middle() {
    let data = history(Vec::new(), Vec::new(), Vec::new());
    let layout = NetworkLayout::from_data(&data, 1920, 1080);
    assert_eq!(layout.commit_to_x(0, 1), 64225280);
    assert_eq!(layout.commit_to_x(0, 0), 64225280);
}

#[test]
fn x_falls_where_the_margins_overlap() {
    let data = history(Vec::new(), Vec::new(), Vec::new());
    let layout = NetworkLayout::from_data(&data, 100, 100);
    assert_eq!(layout.commit_to_x(0, 3), 80 * ONE);
    assert_eq!(layout.commit_to_x(2, 3), (100 - 40) * ONE);
    assert!(layout.commit_to_x(1, 3) < layout.commit_to_x(0, 3));
}

#[test]
fn rectangles_grow_with_the_logarithm() {
    assert_eq!(log_extent(0, 4 * ONE, 20 * ONE), 4 * ONE);
    assert_eq!(log_extent(1, 4 * ONE, 20 * ONE), 4 * ONE);
    assert_eq!(log_extent(10, 4 * ONE, 20 * ONE), 1310699);
    assert_eq!(log_extent(100, 4 * ONE, 20 * ONE), 20 * ONE);
    assert_eq!(log_extent(10, 4 * ONE, 24 * ONE), 1572838);
    assert_eq!(log_extent(500, 4 * ONE, 24 * ONE), 24 * ONE);
    let c = commit("a", 0, "main", "feature", 10, 10);
    assert_eq!(NetworkLayout::commit_rect(&c), (1310699, 1572838));
}

#[test]
fn divergence_grows_and_is_capped() {
    let data = history(Vec::new(), Vec::new(), Vec::new());
    let layout = NetworkLayout::from_data(&data, 1920, 1080);
    assert_eq!(layout.divergence_offset(0, 0, 0), 0);
    assert_eq!(layout.divergence_offset(1, 10, 1), 3124456);
    assert_eq!(layout.divergence_offset(2, 20, 2), 4380272);
    assert_eq!(layout.divergence_offset(3, 30, 3), 5218864);
    assert_eq!(layout.divergence_offset(1_000_000, 1_000_000_000, 1_000_000), MAX_DIVERGENCE_OFFSET);
    let mut last = 0;
    for k in 0..300u64 {
        let d = layout.divergence_offset(k, 7 * k as u128, 2 * k as u128);
        assert!(d >= last);
        assert!(d <= MAX_DIVERGENCE_OFFSET);
        last = d;
    }
}

#[test]
fn default_branch_stays_on_its_line() {
    let data = history(
        vec![branch("main", true, None)],
        vec![
            commit("a", 0, "main", "feature", 10, 1),
            commit("b", 1, "main", "conflict", 10, 1),
            commit("c", 2, "main", "feature", 10, 1),
        ],
        Vec::new(),
    );
    let layout = NetworkLayout::from_data(&data, 1920, 1080);
    let (placed, infos) = layout.position_commits_dynamic(&data);
    assert_eq!(placed.len(), 3);
    assert!(infos.is_empty());
    for (i, p) in placed.iter().enumerate() {
        assert_eq!(p.commit.sha, data.commits[i].sha);
        assert_eq!(p.y, layout.main_y);
        assert_eq!(p.slot, 0);
        assert!(p.is_default_branch);
        assert!(!p.branch_has_conflicts);
        assert!(!p.branch_is_stale);
    }
    assert_eq!(placed[0].x, 80 * ONE);
    assert_eq!(placed[2].x, (1920 - 40) * ONE);
}

#[test]
fn a_branch_bows_away_from_its_base_line() {
    let data = history(
        vec![branch("main", true, None), branch("feature/x", false, Some("main"))],
        vec![
            commit("a", 0, "main", "feature", 5, 1),
            commit("b", 1, "feature/x", "feature", 10, 1),
            commit("c", 2, "feature/x", "feature", 10, 1),
            commit("d", 3, "feature/x", "feature", 10, 1),
        ],
        Vec::new(),
    );
    let layout = NetworkLayout::from_data(&data, 1920, 1080);
    let (placed, infos) = layout.position_commits_dynamic(&data);
    let base = layout.main_y + MIN_BRANCH_SPACING;
    assert_eq!(infos.len(), 1);
    assert_eq!(infos[0].name, "feature/x");
    assert_eq!(infos[0].base_y, base);
    assert_eq!(infos[0].slot, 1);
    assert_eq!(placed[0].slot, 0);
    assert_eq!(placed[1].slot, 1);
    assert_eq!(infos[0].parent_branch, Some("main".to_string()));
    assert_eq!(placed[1].y, base + 3124456);
    assert_eq!(placed[2].y, base + 4380272);
    assert_eq!(placed[3].y, base + 5218864);
    assert!(placed[1].y <= placed[2].y && placed[2].y <= placed[3].y);
    assert!(!placed[1].is_default_branch);
}

#[test]
fn base_lines_step_down_with_the_depth() {
    let data = history(
        vec![
            branch("main", true, None),
            branch("b/child", false, Some("b")),
            branch("b", false, Some("main")),
            branch("b/child/leaf", false, Some("b/child")),
            branch("a", false, None),
        ],
        vec![commit("c1", 0, "b/child/leaf", "feature", 0, 0)],
        Vec::new(),
    );
    let layout = NetworkLayout::from_data(&data, 1920, 1080);
    let (placed, infos) = layout.position_commits_dynamic(&data);
    let names: Vec<&str> = infos.iter().map(|i| i.name.as_str()).collect();
    assert_eq!(names, vec!["a", "b", "b/child", "b/child/leaf"]);
    let slots: Vec<usize> = infos.iter().map(|i| i.slot).collect();
    assert_eq!(slots, vec![1, 2, 3, 4]);
    assert_eq!(infos[0].base_y, layout.main_y + MIN_BRANCH_SPACING);
    assert_eq!(infos[1].base_y, layout.main_y + MIN_BRANCH_SPACING);
    assert_eq!(infos[2].base_y, infos[1].base_y + MIN_BRANCH_SPACING);
    assert_eq!(infos[3].base_y, infos[2].base_y + MIN_BRANCH_SPACING);
    assert_eq!(placed[0].slot, 4);
    assert_eq!(placed[0].y, infos[3].base_y + layout.divergence_offset(1, 0, 0));
}

#[test]
fn a_branch_that_is_not_declared_is_drawn_under_the_default_branch() {
    let data = history(
        vec![branch("main", true, None), branch("declared", false, None)],
        vec![
            commit("a", 0, "wild", "feature", 1, 1),
            commit("b", 1, "main", "feature", 1, 1),
            commit("c", 2, "other", "feature", 1, 1),
            commit("d", 3, "wild", "feature", 1, 1),
        ],
        Vec::new(),
    );
    let layout = NetworkLayout::from_data(&data, 1920, 1080);
    let (placed, infos) = layout.position_commits_dynamic(&data);
    let names: Vec<&str> = infos.iter().map(|i| i.name.as_str()).collect();
    assert_eq!(names, vec!["declared", "wild", "other"]);
    let slots: Vec<usize> = infos.iter().map(|i| i.slot).collect();
    assert_eq!(slots, vec![1, 2, 3]);
    assert_eq!(infos[1].parent_branch, None);
    assert_eq!(infos[1].base_y, layout.main_y + MIN_BRANCH_SPACING);
    let slots: Vec<usize> = placed.iter().map(|p| p.slot).collect();
    assert_eq!(slots, vec![2, 0, 3, 2]);
    assert_eq!(placed[3].y, infos[1].base_y + layout.divergence_offset(2, 2, 2));
}

#[test]
fn a_conflict_marks_the_whole_branch() {
    let data = history(
        vec![branch("main", true, None), branch("risky", false, None), branch("calm", false, None)],
        vec![
            commit("a", 0, "risky", "feature", 1, 1),
            commit("b", 1, "calm", "feature", 1, 1),
            commit("c", 2, "risky", "conflict", 1, 1),
            commit("d", 3, "risky", "bugfix", 1, 1),
            commit("e", 4, "main", "conflict", 1, 1),
        ],
        Vec::new(),
    );
    let layout = NetworkLayout::from_data(&data, 1920, 1080);
    let (placed, infos) = layout.position_commits_dynamic(&data);
    assert!(placed[0].branch_has_conflicts);
    assert!(!placed[1].branch_has_conflicts);
    assert!(placed[2].branch_has_conflicts);
    assert!(placed[3].branch_has_conflicts);
    assert!(!placed[4].branch_has_conflicts);
    assert_eq!(infos[0].name, "calm");
    assert!(!infos[0].has_conflicts);
    assert!(infos[1].has_conflicts);
    assert!(branch_has_conflict(&data.commits, &"risky".to_string()));
    assert!(!branch_has_conflict(&data.commits, &"calm".to_string()));
    assert!(!branch_has_conflict(&data.commits, &"absent".to_string()));
}

#[test]
fn a_branch_is_stale_after_thirty_days_without_a_merge() {
    let data = history(
        vec![
            branch("main", true, None),
            branch("old", false, None),
            branch("old-merged", false, None),
            branch("edge", false, None),
            branch("fresh", false, None),
            branch("empty", false, None),
        ],
        vec![
            commit("a", 0, "old", "feature", 1, 1),
            commit("b", 1, "old-merged", "feature", 1, 1),
            commit("c", 2, "main", "merge", 1, 1),
            commit("d", 10, "edge", "feature", 1, 1),
            commit("e", 39, "fresh", "feature", 1, 1),
            commit("f", 40, "main", "feature", 1, 1),
        ],
        vec![merge("c", "old-merged", "main", 2)],
    );
    let layout = NetworkLayout::from_data(&data, 1920, 1080);
    let (placed, infos) = layout.position_commits_dynamic(&data);
    assert!(placed[0].branch_is_stale);
    assert!(!placed[1].branch_is_stale);
    assert!(!placed[2].branch_is_stale);
    assert!(!placed[3].branch_is_stale);
    assert!(!placed[4].branch_is_stale);
    let stale: Vec<(&str, bool)> = infos.iter().map(|i| (i.name.as_str(), i.is_stale)).collect();
    assert_eq!(
        stale,
        vec![
            ("edge", false),
            ("empty", false),
            ("fresh", false),
            ("old", true),
            ("old-merged", false)
        ]
    );
    let main = "main".to_string();
    assert!(branch_is_stale(&data, &main, &"old".to_string()));
    assert!(!branch_is_stale(&data, &main, &main));
    assert!(is_merge_source(&data.merges, &"old-merged".to_string()));
    assert!(!is_merge_source(&data.merges, &"old".to_string()));
}

#[test]
fn staleness_begins_after_exactly_thirty_days() {
    let mut commits = vec![
        commit("a", 0, "exact", "feature", 1, 1),
        commit("b", 30, "main", "feature", 1, 1),
    ];
    let data = history(vec![branch("main", true, None)], commits.clone(), Vec::new());
    let main = "main".to_string();
    assert!(!branch_is_stale(&data, &main, &"exact".to_string()));
    commits[1].timestamp += 1;
    let data = history(vec![branch("main", true, None)], commits, Vec::new());
    assert!(branch_is_stale(&data, &main, &"exact".to_string()));
}

#[test]
fn the_latest_commit_of_a_branch_is_the_one_latest_in_time() {
    let commits = vec![
        commit("a", 5, "x", "feature", 1, 1),
        commit("b", 3, "x", "feature", 1, 1),
        commit("c", 9, "y", "feature", 1, 1),
    ];
    assert_eq!(latest_commit_on(&commits, &"x".to_string()), Some(T0 + 5 * DAY));
    assert_eq!(latest_commit_on(&commits, &"y".to_string()), Some(T0 + 9 * DAY));
    assert_eq!(latest_commit_on(&commits, &"z".to_string()), None);
}

#[test]
fn an_empty_history_has_no_positions() {
    let data = history(vec![branch("main", true, None), branch("b", false, None)], Vec::new(), Vec::new());
    let layout = NetworkLayout::from_data(&data, 1920, 1080);
    let (placed, infos) = layout.position_commits_dynamic(&data);
    assert!(placed.is_empty());
    assert_eq!(infos.len(), 1);
    assert!(!infos[0].is_stale);
    assert!(!infos[0].has_conflicts);
}

#[test]
fn a_stale_branch_is_never_a_merged_one() {
    let data = history(
        vec![branch("main", true, None)],
        vec![
            commit("a", 0, "left", "feature", 1, 1),
            commit("b", 1, "taken", "feature", 1, 1),
            commit("c", 2, "main", "merge", 1, 1),
            commit("d", 90, "main", "feature", 1, 1),
        ],
        vec![merge("c", "taken", "main", 2)],
    );
    let layout = NetworkLayout::from_data(&data, 1920, 1080);
    let (_, infos) = layout.position_commits_dynamic(&data);
    for info in &infos {
        assert_ne!(info.name, "main");
        if info.is_stale {
            assert!(!is_merge_source(&data.merges, &info.name));
        }
    }
    let flags: Vec<(&str, bool)> = infos.iter().map(|i| (i.name.as_str(), i.is_stale)).collect();
    assert_eq!(flags, vec![("left", true), ("taken", false)]);
}

#[test]
fn every_branch_is_described_once() {
    let data = history(
        vec![
            branch("main", true, None),
            branch("a", false, None),
            branch("a", false, Some("b")),
            branch("b", false, Some("a")),
        ],
        vec![
            commit("1", 0, "a", "feature", 1, 1),
            commit("2", 1, "c", "feature", 1, 1),
            commit("3", 2, "b", "feature", 1, 1),
            commit("4", 3, "c", "feature", 1, 1),
            commit("5", 4, "main", "feature", 1, 1),
        ],
        Vec::new(),
    );
    let layout = NetworkLayout::from_data(&data, 1920, 1080);
    let (placed, infos) = layout.position_commits_dynamic(&data);
    let names: Vec<&str> = infos.iter().map(|i| i.name.as_str()).collect();
    assert_eq!(names, vec!["a", "b", "c"]);
    assert_eq!(infos[1].base_y, infos[0].base_y + MIN_BRANCH_SPACING);
    let slots: Vec<usize> = infos.iter().map(|i| i.slot).collect();
    assert_eq!(slots, vec![1, 2, 3]);
    let slots: Vec<usize> = placed.iter().map(|p| p.slot).collect();
    assert_eq!(slots, vec![1, 3, 2, 3, 0]);
}

#[test]
fn slots_follow_the_traversal_and_leave_zero_to_the_default_branch() {
    let data = history(
        vec![
            branch("main", true, None),
            branch("b", false, Some("main")),
            branch("z", false, Some("a")),
            branch("a", false, Some("main")),
        ],
        vec![
            commit("1", 0, "b", "feature", 1, 1),
            commit("2", 1, "main", "feature", 1, 1),
            commit("3", 2, "z", "feature", 1, 1),
            commit("4", 3, "a", "feature", 1, 1),
            commit("5", 4, "stray", "feature", 1, 1),
            commit("6", 5, "a", "feature", 1, 1),
        ],
        Vec::new(),
    );
    let layout = NetworkLayout::from_data(&data, 1920, 1080);
    let (placed, infos) = layout.position_commits_dynamic(&data);
    let described: Vec<(&str, usize)> = infos.iter().map(|i| (i.name.as_str(), i.slot)).collect();
    assert_eq!(described, vec![("a", 1), ("z", 2), ("b", 3), ("stray", 4)]);
    let slots: Vec<usize> = placed.iter().map(|p| p.slot).collect();
    assert_eq!(slots, vec![3, 0, 2, 1, 4, 1]);
    for p in &placed {
        assert_eq!(p.slot == 0, p.is_default_branch);
    }
    let (again, _) = layout.position_commits_dynamic(&data);
    let same: Vec<usize> = again.iter().map(|p| p.slot).collect();
    assert_eq!(same, slots);
}

#[test]
fn a_branch_in_a_ring_keeps_the_parent_it_declares() {
    let data = history(
        vec![
            branch("main", true, None),
            branch("x", false, Some("y")),
            branch("y", false, Some("x")),
            branch("x", false, Some("main")),
            branch("fine", false, None),
        ],
        vec![
            commit("1", 0, "x", "feature", 1, 1),
            commit("2", 1, "wild", "feature", 1, 1),
            commit("3", 2, "main", "feature", 1, 1),
        ],
        Vec::new(),
    );
    let layout = NetworkLayout::from_data(&data, 1920, 1080);
    let (placed, infos) = layout.position_commits_dynamic(&data);
    let described: Vec<(&str, usize, Option<&str>)> =
        infos.iter().map(|i| (i.name.as_str(), i.slot, i.parent_branch.as_deref())).collect();
    assert_eq!(described, vec![("fine", 1, None), ("x", 2, Some("y")), ("wild", 3, None)]);
    assert_eq!(infos[1].base_y, layout.main_y + MIN_BRANCH_SPACING);
    assert_eq!(placed[0].slot, 2);
    assert_eq!(placed[0].y, infos[1].base_y + layout.divergence_offset(1, 1, 1));
}
