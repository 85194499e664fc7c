//! What a frame shows: the revealed commits, the lines that join the
//! commits of a branch, and the marks that have come into view.

use vstd::prelude::*;
use crate::data::Commit;
use crate::layout::PositionedCommit;
use crate::names::position_of;
use crate::overlay::{commits_of, BranchLabel, PositionedMerge, PositionedTag};
use crate::palette::{threshold_color, Rgba};
use crate::stats::{openers, opens_branch, seen_before, FrameStats};

verus! {

/// The line through the revealed commits of one branch.
#[derive(Clone, Debug, PartialEq, Eq)]
pub struct Spline {
    /// The revealed commits of the branch, in their order; at least two.
    pub commits: Vec<usize>,
    pub is_default: bool,
    pub slot: usize,
    pub has_conflicts: bool,
    pub is_stale: bool,
}

/// What one frame shows.
#[derive(Clone, Debug, PartialEq, Eq)]
pub struct Scene {
    /// The number of revealed commits: the commits before this index are
    /// drawn.
    pub visible: usize,
    /// The x of the last revealed commit; 0 where none is revealed.
    pub x_limit: i128,
    /// The tag markers in view.
    pub tags: Vec<usize>,
    /// The branch labels in view.
    pub labels: Vec<usize>,
    /// The merge curves in view.
    pub merges: Vec<usize>,
    /// One line for every branch with two revealed commits or more, in the
    /// order of the first commits of the branches.
    pub splines: Vec<Spline>,
}

/// For every commit the number of its branch, the branches numbered in the
/// order of their first commits.
pub open spec fn is_grouping(commits: Seq<Commit>, groups: Seq<usize>) -> bool {
    &&& groups.len() == commits.len()
    &&& forall|j: int|
        0 <= j < commits.len() ==> {
            let g = #[trigger] groups[j];
            &&& g < openers(commits, commits.len()).len()
            &&& commits[openers(commits, commits.len())[g as int]].branch@ == commits[j].branch@
        }
}

/// The places, among the first `upto`, of the values that do not exceed
/// `limit`.
pub open spec fn within(xs: Seq<i128>, limit: i128, upto: nat) -> Seq<usize>
    decreases upto,
{
    if upto == 0 {
        Seq::empty()
    } else {
        let rest = within(xs, limit, (upto - 1) as nat);
        if xs[upto - 1] <= limit {
            rest.push((upto - 1) as usize)
        } else {
            rest
        }
    }
}

/// The commits of group `g` among the first `upto`, in their order.
pub open spec fn members(groups: Seq<usize>, g: usize, upto: nat) -> Seq<usize>
    decreases upto,
{
    if upto == 0 {
        Seq::empty()
    } else {
        let rest = members(groups, g, (upto - 1) as nat);
        if groups[upto - 1] == g {
            rest.push((upto - 1) as usize)
        } else {
            rest
        }
    }
}

/// The groups below `count` that have two commits or more among the first
/// `visible`.
pub open spec fn drawn_groups(groups: Seq<usize>, visible: nat, count: nat) -> Seq<usize>
    decreases count,
{
    if count == 0 {
        Seq::empty()
    } else {
        let rest = drawn_groups(groups, visible, (count - 1) as nat);
        if members(groups, (count - 1) as usize, visible).len() >= 2 {
            rest.push((count - 1) as usize)
        } else {
            rest
        }
    }
}

/// `spline` joins the commits of group `g` among the first `visible`, in the
/// manner of the first of them.
pub open spec fn joins_group(
    placed: Seq<PositionedCommit>,
    groups: Seq<usize>,
    visible: nat,
    g: usize,
    spline: Spline,
) -> bool {
    let first = placed[members(groups, g, visible)[0] as int];
    &&& spline.commits@ == members(groups, g, visible)
    &&& spline.commits@.len() >= 2
    &&& spline.is_default == first.is_default_branch
    &&& spline.slot == first.slot
    &&& spline.has_conflicts == first.branch_has_conflicts
    &&& spline.is_stale == first.branch_is_stale
}

/// The x of every tag marker.
pub open spec fn tag_xs(tags: Seq<PositionedTag>) -> Seq<i128> {
    Seq::new(tags.len(), |i: int| tags[i].x)
}

/// The x of every branch label.
pub open spec fn label_xs(labels: Seq<BranchLabel>) -> Seq<i128> {
    Seq::new(labels.len(), |i: int| labels[i].x)
}

/// The x at which every merge curve ends.
pub open spec fn merge_xs(merges: Seq<PositionedMerge>) -> Seq<i128> {
    Seq::new(merges.len(), |i: int| merges[i].to_x)
}

/// The number of the branch of every commit.
pub fn branch_groups(positioned: &[PositionedCommit]) -> (grouping: (Vec<usize>, usize))
    ensures
        is_grouping(commits_of(positioned@), grouping.0@),
        grouping.1 == openers(commits_of(positioned@), positioned@.len()).len(),
{
    let ghost commits = commits_of(positioned@);
    let mut names: Vec<String> = Vec::new();
    let mut groups: Vec<usize> = Vec::new();
    let mut i: usize = 0;
    while i < positioned.len()
        invariant
            i <= positioned@.len(),
            commits == commits_of(positioned@),
            names@.len() == openers(commits, i as nat).len(),
            forall|k: int|
                0 <= k < names@.len() ==> {
                    let j = #[trigger] openers(commits, i as nat)[k];
                    0 <= j < i && names@[k]@ == commits[j].branch@
                },
            groups@.len() == i,
            forall|j: int|
                0 <= j < i ==> (#[trigger] groups@[j]) < names@.len() && names@[groups@[j] as int]@
                    == commits[j].branch@,
        decreases positioned@.len() - i,
    {
        let p = &positioned[i];
        let ghost b = p.commit.branch@;
        let ghost before = openers(commits, i as nat);
        let ghost names0 = names@;
        assert(commits[i as int].branch@ == b);
        let found = position_of(&names, &p.commit.branch);
        proof {
            match found {
                Some(k) => {
                    let j = before[k as int];
                    assert(0 <= j < i && commits[j].branch@ == b);
                    assert(seen_before(commits, b, i as int));
                },
                None => {
                    if seen_before(commits, b, i as int) {
                        let j = choose|j: int|
                            0 <= j < i && j < commits.len() && (#[trigger] commits[j]).branch@ == b;
                        assert(names@[groups@[j] as int]@ == b);
                        assert(false);
                    }
                    assert(opens_branch(commits, i as int));
                },
            }
        }
        let g: usize = match found {
            Some(k) => k,
            None => {
                names.push(p.commit.branch.clone());
                names.len() - 1
            },
        };
        groups.push(g);
        proof {
            let after = openers(commits, (i + 1) as nat);
            assert forall|k: int| 0 <= k < names@.len() implies {
                let j = #[trigger] after[k];
                0 <= j < i + 1 && names@[k]@ == commits[j].branch@
            } by {
                if k < names0.len() {
                    assert(after[k] == before[k]);
                    assert(names@[k] == names0[k]);
                }
            }
            assert forall|j: int| 0 <= j < i + 1 implies (#[trigger] groups@[j]) < names@.len()
                && names@[groups@[j] as int]@ == commits[j].branch@ by {
                if j < i {
                    assert(names@[groups@[j] as int] == names0[groups@[j] as int]);
                }
            }
        }
        i += 1;
    }
    proof {
        let o = openers(commits, commits.len());
        assert forall|j: int| 0 <= j < commits.len() implies {
            let g = #[trigger] groups@[j];
            &&& g < o.len()
            &&& commits[o[g as int]].branch@ == commits[j].branch@
        } by {
            let g = groups@[j];
            let w = o[g as int];
            assert(names@[g as int]@ == commits[w].branch@);
        }
    }
    (groups, names.len())
}

fn places_within(xs: &Vec<i128>, limit: i128) -> (places: Vec<usize>)
    ensures
        places@ == within(xs@, limit, xs@.len()),
{
    let mut places: Vec<usize> = Vec::new();
    let mut i: usize = 0;
    while i < xs.len()
        invariant
            i <= xs@.len(),
            places@ == within(xs@, limit, i as nat),
        decreases xs@.len() - i,
    {
        if xs[i] <= limit {
            places.push(i);
        }
        i += 1;
    }
    places
}

/// What the frame that reveals `visible_count` commits shows. `groups`
/// numbers the branches of the commits, with numbers below `group_count`.
pub fn compose_frame(
    positioned: &[PositionedCommit],
    groups: &Vec<usize>,
    group_count: usize,
    merges: &Vec<PositionedMerge>,
    labels: &Vec<BranchLabel>,
    tags: &Vec<PositionedTag>,
    visible_count: usize,
) -> (scene: Scene)
    requires
        groups@.len() == positioned@.len(),
        forall|j: int| 0 <= j < groups@.len() ==> (#[trigger] groups@[j]) < group_count,
    ensures
        scene.visible == if visible_count < positioned@.len() {
            visible_count
        } else {
            positioned@.len() as usize
        },
        scene.x_limit == if scene.visible == 0 {
            0
        } else {
            positioned@[scene.visible - 1].x
        },
        scene.tags@ == within(tag_xs(tags@), scene.x_limit, tags@.len()),
        scene.labels@ == within(label_xs(labels@), scene.x_limit, labels@.len()),
        scene.merges@ == within(merge_xs(merges@), scene.x_limit, merges@.len()),
        scene.splines@.len() == drawn_groups(
            groups@,
            scene.visible as nat,
            group_count as nat,
        ).len(),
        forall|w: int|
            0 <= w < scene.splines@.len() ==> joins_group(
                positioned@,
                groups@,
                scene.visible as nat,
                drawn_groups(groups@, scene.visible as nat, group_count as nat)[w],
                #[trigger] scene.splines@[w],
            ),
{
    let visible: usize = if visible_count < positioned.len() {
        visible_count
    } else {
        positioned.len()
    };
    let x_limit: i128 = if visible == 0 {
        0
    } else {
        positioned[visible - 1].x
    };
    let mut xs: Vec<i128> = Vec::new();
    let mut i: usize = 0;
    while i < tags.len()
        invariant
            i <= tags@.len(),
            xs@.len() == i,
            forall|j: int| 0 <= j < i ==> xs@[j] == tags@[j].x,
        decreases tags@.len() - i,
    {
        xs.push(tags[i].x);
        i += 1;
    }
    assert(xs@ =~= tag_xs(tags@));
    let shown_tags = places_within(&xs, x_limit);
    let mut xs: Vec<i128> = Vec::new();
    let mut i: usize = 0;
    while i < labels.len()
        invariant
            i <= labels@.len(),
            xs@.len() == i,
            forall|j: int| 0 <= j < i ==> xs@[j] == labels@[j].x,
        decreases labels@.len() - i,
    {
        xs.push(labels[i].x);
        i += 1;
    }
    assert(xs@ =~= label_xs(labels@));
    let shown_labels = places_within(&xs, x_limit);
    let mut xs: Vec<i128> = Vec::new();
    let mut i: usize = 0;
    while i < merges.len()
        invariant
            i <= merges@.len(),
            xs@.len() == i,
            forall|j: int| 0 <= j < i ==> xs@[j] == merges@[j].to_x,
        decreases merges@.len() - i,
    {
        xs.push(merges[i].to_x);
        i += 1;
    }
    assert(xs@ =~= merge_xs(merges@));
    let shown_merges = places_within(&xs, x_limit);
    let mut buckets: Vec<Vec<usize>> = Vec::new();
    let mut g: usize = 0;
    while g < group_count
        invariant
            g <= group_count,
            buckets@.len() == g,
            forall|k: int| 0 <= k < g ==> (#[trigger] buckets@[k])@ == Seq::<usize>::empty(),
        decreases group_count - g,
    {
        buckets.push(Vec::new());
        g += 1;
    }
    let mut j: usize = 0;
    while j < visible
        invariant
            j <= visible <= positioned@.len(),
            groups@.len() == positioned@.len(),
            forall|k: int| 0 <= k < groups@.len() ==> (#[trigger] groups@[k]) < group_count,
            buckets@.len() == group_count,
            forall|k: int|
                0 <= k < group_count ==> (#[trigger] buckets@[k])@ == members(
                    groups@,
                    k as usize,
                    j as nat,
                ),
        decreases visible - j,
    {
        let g: usize = groups[j];
        buckets[g].push(j);
        j += 1;
    }
    let mut splines: Vec<Spline> = Vec::new();
    let mut g: usize = 0;
    while g < group_count
        invariant
            g <= group_count,
            visible <= positioned@.len(),
            groups@.len() == positioned@.len(),
            buckets@.len() == group_count,
            forall|k: int|
                0 <= k < group_count ==> (#[trigger] buckets@[k])@ == members(
                    groups@,
                    k as usize,
                    visible as nat,
                ),
            splines@.len() == drawn_groups(groups@, visible as nat, g as nat).len(),
            forall|w: int|
                0 <= w < splines@.len() ==> joins_group(
                    positioned@,
                    groups@,
                    visible as nat,
                    drawn_groups(groups@, visible as nat, g as nat)[w],
                    #[trigger] splines@[w],
                ),
        decreases group_count - g,
    {
        let ghost before = drawn_groups(groups@, visible as nat, g as nat);
        let ghost old_splines = splines@;
        let bucket = &buckets[g];
        if bucket.len() >= 2 {
            proof {
                lemma_members_in_range(groups@, g, visible as nat);
            }
            let first = &positioned[bucket[0]];
            splines.push(
                Spline {
                    commits: bucket.clone(),
                    is_default: first.is_default_branch,
                    slot: first.slot,
                    has_conflicts: first.branch_has_conflicts,
                    is_stale: first.branch_is_stale,
                },
            );
        }
        proof {
            let after = drawn_groups(groups@, visible as nat, (g + 1) as nat);
            assert forall|w: int| 0 <= w < splines@.len() implies joins_group(
                positioned@,
                groups@,
                visible as nat,
                after[w],
                #[trigger] splines@[w],
            ) by {
                if w < old_splines.len() {
                    assert(splines@[w] == old_splines[w]);
                    assert(after[w] == before[w]);
                }
            }
        }
        g += 1;
    }
    Scene {
        visible,
        x_limit,
        tags: shown_tags,
        labels: shown_labels,
        merges: shown_merges,
        splines,
    }
}

/// The members of a group among the first `upto` commits are among them.
proof fn lemma_members_in_range(groups: Seq<usize>, g: usize, upto: nat)
    requires
        upto <= groups.len(),
        upto <= usize::MAX,
    ensures
        forall|k: int|
            0 <= k < members(groups, g, upto).len() ==> (#[trigger] members(groups, g, upto)[k])
                < upto,
    decreases upto,
{
    if upto > 0 {
        let rest = members(groups, g, (upto - 1) as nat);
        lemma_members_in_range(groups, g, (upto - 1) as nat);
        assert forall|k: int| 0 <= k < members(groups, g, upto).len() implies (#[trigger] members(
            groups,
            g,
            upto,
        )[k]) < upto by {
            if k < rest.len() {
                assert(members(groups, g, upto)[k] == rest[k]);
            }
        }
    }
}

/// The colours of the alerts of a snapshot.
#[derive(Clone, Copy, Debug, PartialEq, Eq)]
pub struct StatColors {
    pub unmerged_commits: Rgba,
    pub stale_branches: Rgba,
    pub unmerged_lines: Rgba,
    pub integration_debt: Rgba,
    pub since_release: Rgba,
    pub oldest_unmerged: Rgba,
}

pub open spec fn spec_threshold(value: int, yellow: int, red: int) -> Rgba {
    if value > red {
        crate::palette::alert_red()
    } else if value > yellow {
        crate::palette::alert_yellow()
    } else {
        crate::palette::alert_green()
    }
}

pub open spec fn clamp_i128(n: int) -> int {
    if n > i128::MAX {
        i128::MAX as int
    } else {
        n
    }
}

/// The alert colours of `stats`: yellow and red above 10 and 50 unmerged
/// commits, 2 and 5 stale branches, 1000 and 5000 unmerged lines, 10000 and
/// 50000 line-days of debt, and 14 and 30 days since the last release and
/// since the oldest unmerged branch began.
pub fn stat_colors(stats: &FrameStats) -> (colors: StatColors)
    ensures
        colors.unmerged_commits == spec_threshold(stats.unmerged_commits as int, 10, 50),
        colors.stale_branches == spec_threshold(stats.stale_branches as int, 2, 5),
        colors.unmerged_lines == spec_threshold(clamp_i128(stats.unmerged_lines as int), 1000, 5000),
        colors.integration_debt == spec_threshold(
            clamp_i128(stats.integration_debt as int),
            10000,
            50000,
        ),
        colors.since_release == spec_threshold(
            stats.seconds_since_release as int,
            1209600,
            2592000,
        ),
        colors.oldest_unmerged == spec_threshold(
            stats.oldest_unmerged_seconds as int,
            1209600,
            2592000,
        ),
{
    let lines: i128 = if stats.unmerged_lines > i128::MAX as u128 {
        i128::MAX
    } else {
        stats.unmerged_lines as i128
    };
    let debt: i128 = if stats.integration_debt > i128::MAX as u128 {
        i128::MAX
    } else {
        stats.integration_debt as i128
    };
    StatColors {
        unmerged_commits: threshold_color(stats.unmerged_commits as i128, 10, 50),
        stale_branches: threshold_color(stats.stale_branches as i128, 2, 5),
        unmerged_lines: threshold_color(lines, 1000, 5000),
        integration_debt: threshold_color(debt, 10000, 50000),
        since_release: threshold_color(stats.seconds_since_release, 1209600, 2592000),
        oldest_unmerged: threshold_color(stats.oldest_unmerged_seconds as i128, 1209600, 2592000),
    }
}

/// Every how many ticks of the date axis one is drawn: every one up to 30
/// ticks, about 20 in all beyond.
pub fn tick_step(ticks: usize) -> (step: usize)
    ensures
        step == if ticks > 30 {
            ticks / 20
        } else {
            1
        },
        step >= 1,
{
    if ticks > 30 {
        ticks / 20
    } else {
        1
    }
}

} // verus!
