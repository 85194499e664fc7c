//! The timeline layout: one horizontal lane for every branch, commits
//! placed by their time.

use vstd::prelude::*;
use crate::data::{Branch, CollectedData, Commit, Merge};
use crate::fixed::{floor_div, ONE};
use crate::layout::LIMIT;
use crate::names::same_name;

verus! {

/// A commit with its place on its lane.
#[derive(Clone, Copy, Debug)]
pub struct PositionedCommit<'a> {
    pub commit: &'a Commit,
    pub x: i128,
    pub y: i128,
    pub lane: usize,
}

/// The line of a merge, from the lane of its source to the lane of its
/// target at the time of the merge.
#[derive(Clone, Copy, Debug, PartialEq, Eq)]
pub struct PositionedMerge {
    pub from_x: i128,
    pub from_y: i128,
    pub to_x: i128,
    pub to_y: i128,
}

#[derive(Clone, Debug)]
pub struct Layout {
    pub width: u32,
    pub height: u32,
    pub margin: i128,
    pub lane_height: i128,
    /// The branches with their lanes: the lane of a branch is its place here.
    pub branch_lanes: Vec<(String, usize)>,
    /// The time at the left margin.
    pub time_start: i64,
    /// The time at the right margin.
    pub time_end: i64,
}

/// The names of the branches among the first `upto` that are not flagged as
/// default, in their order.
pub open spec fn other_names(branches: Seq<Branch>, upto: nat) -> Seq<Seq<char>>
    decreases upto,
{
    if upto == 0 {
        Seq::empty()
    } else {
        let rest = other_names(branches, (upto - 1) as nat);
        if branches[upto - 1].is_default {
            rest
        } else {
            rest.push(branches[upto - 1].name@)
        }
    }
}

/// The name of the first branch that is flagged as default, if there is one.
pub open spec fn first_default_name(branches: Seq<Branch>, upto: nat) -> Option<Seq<char>>
    decreases upto,
{
    if upto == 0 {
        None
    } else {
        match first_default_name(branches, (upto - 1) as nat) {
            Some(name) => Some(name),
            None => if branches[upto - 1].is_default {
                Some(branches[upto - 1].name@)
            } else {
                None
            },
        }
    }
}

/// The names of the branches that have a lane, top lane first: the first
/// branch flagged as default, then the branches that are not flagged.
pub open spec fn lane_names(branches: Seq<Branch>) -> Seq<Seq<char>> {
    match first_default_name(branches, branches.len()) {
        Some(name) => seq![name] + other_names(branches, branches.len()),
        None => other_names(branches, branches.len()),
    }
}

/// The earliest timestamp among the first `upto` commits; `fallback` where
/// there is none.
pub open spec fn earliest(commits: Seq<Commit>, upto: nat, fallback: i64) -> i64
    decreases upto,
{
    if upto == 0 {
        fallback
    } else if upto == 1 {
        commits[0].timestamp
    } else {
        let rest = earliest(commits, (upto - 1) as nat, fallback);
        if commits[upto - 1].timestamp < rest {
            commits[upto - 1].timestamp
        } else {
            rest
        }
    }
}

/// The latest timestamp among the first `upto` commits; `fallback` where
/// there is none.
pub open spec fn latest(commits: Seq<Commit>, upto: nat, fallback: i64) -> i64
    decreases upto,
{
    if upto == 0 {
        fallback
    } else if upto == 1 {
        commits[0].timestamp
    } else {
        let rest = latest(commits, (upto - 1) as nat, fallback);
        if commits[upto - 1].timestamp > rest {
            commits[upto - 1].timestamp
        } else {
            rest
        }
    }
}

/// The first lane that carries the name; the number of lanes where none does.
pub open spec fn lane_of(lanes: Seq<(String, usize)>, name: Seq<char>, from: nat) -> nat
    decreases lanes.len() - from,
{
    if from >= lanes.len() {
        lanes.len()
    } else if lanes[from as int].0@ == name {
        lanes[from as int].1 as nat
    } else {
        lane_of(lanes, name, from + 1)
    }
}

impl Layout {
    pub open spec fn wf(&self) -> bool {
        &&& 0 <= self.margin <= LIMIT
        &&& 0 <= self.lane_height <= LIMIT
    }

    pub fn is_wf(&self) -> (ok: bool)
        ensures
            ok == self.wf(),
    {
        0 <= self.margin && self.margin <= LIMIT && 0 <= self.lane_height && self.lane_height
            <= LIMIT
    }

    /// The layout of a drawing of `width` by `height` pixels with margins of
    /// 80 and lanes of 60 pixels. The times run from the earliest to the
    /// latest commit; both are `now` for a history without commits.
    pub fn from_data(data: &CollectedData, width: u32, height: u32, now: i64) -> (layout: Self)
        ensures
            layout.wf(),
            layout.width == width,
            layout.height == height,
            layout.margin == 80 * ONE,
            layout.lane_height == 60 * ONE,
            layout.branch_lanes@.len() == lane_names(data.branches@).len(),
            forall|k: int|
                0 <= k < layout.branch_lanes@.len() ==> (#[trigger] layout.branch_lanes@[k]).0@
                    == lane_names(data.branches@)[k] && layout.branch_lanes@[k].1 == k,
            layout.time_start == earliest(data.commits@, data.commits@.len(), now),
            layout.time_end == latest(data.commits@, data.commits@.len(), now),
    {
        let mut lanes: Vec<(String, usize)> = Vec::new();
        let mut i: usize = 0;
        while i < data.branches.len() && lanes.len() == 0
            invariant
                i <= data.branches@.len(),
                lanes@.len() <= 1,
                match first_default_name(data.branches@, i as nat) {
                    Some(name) => lanes@.len() == 1 && lanes@[0].0@ == name && lanes@[0].1 == 0,
                    None => lanes@.len() == 0,
                },
            decreases data.branches@.len() - i,
        {
            if data.branches[i].is_default {
                lanes.push((data.branches[i].name.clone(), 0));
            }
            i += 1;
        }
        proof {
            lemma_first_default_stays(data.branches@, i as nat, data.branches@.len());
        }
        let ghost head = lanes@;
        let mut i: usize = 0;
        while i < data.branches.len()
            invariant
                i <= data.branches@.len(),
                head.len() <= 1,
                lanes@.len() == head.len() + other_names(data.branches@, i as nat).len(),
                forall|k: int| 0 <= k < head.len() ==> lanes@[k] == head[k],
                forall|k: int|
                    head.len() <= k < lanes@.len() ==> (#[trigger] lanes@[k]).0@ == other_names(
                        data.branches@,
                        i as nat,
                    )[k - head.len()],
                forall|k: int| 0 <= k < lanes@.len() ==> (#[trigger] lanes@[k]).1 == k,
            decreases data.branches@.len() - i,
        {
            if !data.branches[i].is_default {
                let lane: usize = lanes.len();
                lanes.push((data.branches[i].name.clone(), lane));
            }
            i += 1;
        }
        let mut time_start: i64 = now;
        let mut time_end: i64 = now;
        let mut j: usize = 0;
        while j < data.commits.len()
            invariant
                j <= data.commits@.len(),
                time_start == earliest(data.commits@, j as nat, now),
                time_end == latest(data.commits@, j as nat, now),
            decreases data.commits@.len() - j,
        {
            let t: i64 = data.commits[j].timestamp;
            if j == 0 || t < time_start {
                time_start = t;
            }
            if j == 0 || t > time_end {
                time_end = t;
            }
            j += 1;
        }
        Layout {
            width,
            height,
            margin: 80 * ONE,
            lane_height: 60 * ONE,
            branch_lanes: lanes,
            time_start,
            time_end,
        }
    }

    /// The x of the time `ts`: `time_start` on the left margin, `time_end`
    /// on the right margin, and the times between them in proportion. Where
    /// the two are the same, a second is taken to lie between them.
    pub open spec fn x_of(&self, ts: i64) -> int {
        let total = if self.time_end - self.time_start < 1 {
            1
        } else {
            self.time_end - self.time_start
        };
        let usable = self.width * ONE - 2 * self.margin;
        self.margin + ((ts - self.time_start) * usable) / total
    }

    pub fn time_to_x(&self, ts: i64) -> (x: i128)
        requires
            self.wf(),
        ensures
            x == self.x_of(ts),
    {
        let span: i128 = self.time_end as i128 - self.time_start as i128;
        let total: i128 = if span < 1 {
            1
        } else {
            span
        };
        let usable: i128 = self.width as i128 * ONE - 2 * self.margin;
        let elapsed: i128 = ts as i128 - self.time_start as i128;
        assert(-0x4000_0000_0000_0000_0000_0000_0000_0000 <= elapsed * usable
            <= 0x4000_0000_0000_0000_0000_0000_0000_0000) by (nonlinear_arith)
            requires
                -0x1_0000_0000_0000_0000 <= elapsed <= 0x1_0000_0000_0000_0000,
                -0x2000_0000_0000_0000 <= usable <= 0x2000_0000_0000_0000,
        ;
        let scaled: i128 = elapsed * usable;
        let q: i128 = floor_div(scaled, total);
        assert(-0x4000_0000_0000_0000_0000_0000_0000_0000 <= scaled / total
            <= 0x4000_0000_0000_0000_0000_0000_0000_0000) by (nonlinear_arith)
            requires
                -0x4000_0000_0000_0000_0000_0000_0000_0000 <= scaled
                    <= 0x4000_0000_0000_0000_0000_0000_0000_0000,
                total >= 1,
        ;
        self.margin + q
    }

    /// The middle of lane `lane`.
    pub open spec fn lane_y(&self, lane: nat) -> int {
        self.margin + lane * self.lane_height + self.lane_height / 2
    }

    /// The y and the lane of a branch: the first lane with its name, and
    /// the lane below all lanes for a branch without one.
    pub fn branch_to_y(&self, branch: &String) -> (place: (i128, usize))
        requires
            self.wf(),
        ensures
            place.1 == lane_of(self.branch_lanes@, branch@, 0),
            place.0 == self.lane_y(place.1 as nat),
    {
        let mut k: usize = 0;
        let mut lane: usize = self.branch_lanes.len();
        let mut found = false;
        while k < self.branch_lanes.len() && !found
            invariant
                k <= self.branch_lanes@.len(),
                found ==> lane == lane_of(self.branch_lanes@, branch@, 0),
                !found ==> lane == self.branch_lanes@.len() && lane_of(
                    self.branch_lanes@,
                    branch@,
                    0,
                ) == lane_of(self.branch_lanes@, branch@, k as nat),
            decreases self.branch_lanes@.len() - k,
        {
            if same_name(&self.branch_lanes[k].0, branch) {
                lane = self.branch_lanes[k].1;
                found = true;
            }
            k += 1;
        }
        let height: i128 = self.lane_height;
        assert(0 <= lane * height <= 0xffff_ffff_ffff_ffff * 0x1000_0000_0000_0000)
            by (nonlinear_arith)
            requires
                0 <= lane <= 0xffff_ffff_ffff_ffff,
                0 <= height <= 0x1000_0000_0000_0000,
        ;
        (self.margin + lane as i128 * height + height / 2, lane)
    }

    /// Every commit at the x of its time, on the lane of its branch.
    pub fn position_commits<'a>(&self, data: &'a CollectedData) -> (placed: Vec<
        PositionedCommit<'a>,
    >)
        requires
            self.wf(),
        ensures
            placed@.len() == data.commits@.len(),
            forall|i: int|
                0 <= i < placed@.len() ==> {
                    let p = #[trigger] placed@[i];
                    &&& *p.commit == data.commits@[i]
                    &&& p.x == self.x_of(data.commits@[i].timestamp)
                    &&& p.lane == lane_of(self.branch_lanes@, data.commits@[i].branch@, 0)
                    &&& p.y == self.lane_y(p.lane as nat)
                },
    {
        let mut placed: Vec<PositionedCommit<'a>> = Vec::new();
        let mut i: usize = 0;
        while i < data.commits.len()
            invariant
                i <= data.commits@.len(),
                self.wf(),
                placed@.len() == i,
                forall|j: int|
                    0 <= j < i ==> {
                        let p = #[trigger] placed@[j];
                        &&& *p.commit == data.commits@[j]
                        &&& p.x == self.x_of(data.commits@[j].timestamp)
                        &&& p.lane == lane_of(self.branch_lanes@, data.commits@[j].branch@, 0)
                        &&& p.y == self.lane_y(p.lane as nat)
                    },
            decreases data.commits@.len() - i,
        {
            let c: &'a Commit = &data.commits[i];
            let x = self.time_to_x(c.timestamp);
            let (y, lane) = self.branch_to_y(&c.branch);
            placed.push(PositionedCommit { commit: c, x, y, lane });
            i += 1;
        }
        placed
    }

    /// Every merge as an upright line at the x of its time, from the lane
    /// of its source to the lane of its target.
    pub fn position_merges(&self, data: &CollectedData) -> (lines: Vec<PositionedMerge>)
        requires
            self.wf(),
        ensures
            lines@.len() == data.merges@.len(),
            forall|i: int|
                0 <= i < lines@.len() ==> self.draws_merge(data.merges@[i], #[trigger] lines@[i]),
    {
        let mut lines: Vec<PositionedMerge> = Vec::new();
        let mut i: usize = 0;
        while i < data.merges.len()
            invariant
                i <= data.merges@.len(),
                self.wf(),
                lines@.len() == i,
                forall|j: int|
                    0 <= j < i ==> self.draws_merge(data.merges@[j], #[trigger] lines@[j]),
            decreases data.merges@.len() - i,
        {
            let m = &data.merges[i];
            let x = self.time_to_x(m.timestamp);
            let (from_y, _) = self.branch_to_y(&m.from_branch);
            let (to_y, _) = self.branch_to_y(&m.to_branch);
            lines.push(PositionedMerge { from_x: x, from_y, to_x: x, to_y });
            i += 1;
        }
        lines
    }

    /// `line` is the line of `merge`.
    pub open spec fn draws_merge(&self, merge: Merge, line: PositionedMerge) -> bool {
        &&& line.from_x == self.x_of(merge.timestamp)
        &&& line.to_x == self.x_of(merge.timestamp)
        &&& line.from_y == self.lane_y(lane_of(self.branch_lanes@, merge.from_branch@, 0))
        &&& line.to_y == self.lane_y(lane_of(self.branch_lanes@, merge.to_branch@, 0))
    }
}

proof fn lemma_first_default_stays(branches: Seq<Branch>, i: nat, n: nat)
    requires
        i <= n <= branches.len(),
        first_default_name(branches, i) is Some || i == n,
    ensures
        first_default_name(branches, n) == first_default_name(branches, i),
    decreases n - i,
{
    if i < n {
        lemma_first_default_stays(branches, i, (n - 1) as nat);
    }
}

} // verus!
