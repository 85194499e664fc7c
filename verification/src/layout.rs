//! The divergence layout: a position for every commit.
//!
//! The default branch is a flat line at `main_y`. Every other branch starts
//! one spacing below its parent and bows further down as it gathers commits,
//! lines and files. Lengths and coordinates are in units of `1 / fixed::ONE`
//! pixel; y grows downwards.

use vstd::prelude::*;
use crate::data::{commits_on, files_on, lines_on, Branch, CollectedData, Commit, Merge};
use crate::fixed::{floor_div, log2_fixed, spec_log2_fixed, ONE};
use crate::names::same_name;
use crate::tree::{
    build_branch_tree, declared, find_branch, first_named, link_of, traversal, Link,
};

verus! {

/// No length of a layout exceeds this.
pub const LIMIT: i128 = 0x1000_0000_0000_0000;

pub const MIN_RECT_W: i128 = 4 * ONE;

pub const MAX_RECT_W: i128 = 20 * ONE;

pub const MIN_RECT_H: i128 = 4 * ONE;

pub const MAX_RECT_H: i128 = 24 * ONE;

pub const MIN_BRANCH_SPACING: i128 = 35 * ONE;

pub const MAX_DIVERGENCE_OFFSET: i128 = 250 * ONE;

/// The decimal logarithm of two, in units of 1/65536.
pub const LOG10_OF_2: i128 = 19728;

/// A branch whose last commit is more than this many seconds older than the
/// last commit of the history is stale: 30 days.
pub const STALE_AFTER: i64 = 2592000;

/// A commit with its place in the drawing.
#[derive(Clone, Copy, Debug)]
pub struct PositionedCommit<'a> {
    pub commit: &'a Commit,
    pub x: i128,
    pub y: i128,
    /// The slot of the commit's branch: 0 for the default branch, 1 or more
    /// for any other.
    pub slot: usize,
    pub rect_w: i128,
    pub rect_h: i128,
    pub is_default_branch: bool,
    pub branch_has_conflicts: bool,
    pub branch_is_stale: bool,
}

/// What is drawn the same way for all commits of one branch.
#[derive(Clone, Debug)]
pub struct BranchVisualInfo {
    pub name: String,
    /// The place of the branch among the branches that are drawn, counted
    /// from 1.
    pub slot: usize,
    pub has_conflicts: bool,
    pub is_stale: bool,
    pub base_y: i128,
    pub parent_branch: Option<String>,
}

#[derive(Clone, Debug)]
pub struct NetworkLayout {
    /// Width of the drawing in pixels.
    pub width: u32,
    pub margin_left: i128,
    pub margin_right: i128,
    /// The y of the default branch.
    pub main_y: i128,
    pub min_branch_spacing: i128,
    pub max_divergence_offset: i128,
    pub default_branch: String,
}

pub open spec fn has_default(branches: Seq<Branch>) -> bool {
    exists|i: int| 0 <= i < branches.len() && (#[trigger] branches[i]).is_default
}

pub open spec fn is_first_default(branches: Seq<Branch>, i: int) -> bool {
    &&& 0 <= i < branches.len()
    &&& branches[i].is_default
    &&& forall|j: int| 0 <= j < i ==> !(#[trigger] branches[j]).is_default
}

/// The name of the default branch: that of the first branch flagged as
/// default, and `main` where none is flagged.
pub open spec fn default_name(branches: Seq<Branch>) -> Seq<char> {
    if has_default(branches) {
        branches[choose|i: int| is_first_default(branches, i)].name@
    } else {
        "main"@
    }
}

/// The binary logarithm scaled to a length between `low` and `high`: `low`
/// for 0 and 1, one `span` more for every factor of ten, never over `high`.
pub open spec fn spec_log_extent(n: nat, low: int, high: int) -> int {
    let m = if n == 0 {
        1
    } else {
        n
    };
    let raw: int = low + (spec_log2_fixed(m) * LOG10_OF_2 * ((high - low) / (ONE as int))) / (ONE as int);
    if raw < low {
        low
    } else if raw > high {
        high
    } else {
        raw
    }
}

/// How far a branch bows away from its base line once it holds `commits`
/// commits that touch `lines` lines and `files` files. `max` caps it.
pub open spec fn spec_divergence(commits: nat, lines: nat, files: nat, max: int) -> int {
    let raw = (15 * spec_log2_fixed(1 + commits) + 8 * spec_log2_fixed(1 + lines) + 5
        * spec_log2_fixed(1 + files)) as int;
    if raw > max {
        max
    } else {
        raw
    }
}

/// The offset never falls when a branch gathers more commits, lines or
/// files, it is never negative, and it never exceeds the cap.
pub proof fn lemma_divergence_monotone(
    commits: nat,
    lines: nat,
    files: nat,
    more_commits: nat,
    more_lines: nat,
    more_files: nat,
    max: int,
)
    requires
        commits <= more_commits,
        lines <= more_lines,
        files <= more_files,
        0 <= max,
    ensures
        spec_divergence(commits, lines, files, max) <= spec_divergence(
            more_commits,
            more_lines,
            more_files,
            max,
        ),
        0 <= spec_divergence(commits, lines, files, max) <= max,
{
    crate::fixed::lemma_log2_fixed_monotone(1 + commits, 1 + more_commits);
    crate::fixed::lemma_log2_fixed_monotone(1 + lines, 1 + more_lines);
    crate::fixed::lemma_log2_fixed_monotone(1 + files, 1 + more_files);
}


pub open spec fn opt_view(name: Option<String>) -> Option<Seq<char>> {
    match name {
        Some(n) => Some(n@),
        None => None,
    }
}

/// A branch has conflicts if any commit on it, early or late, is of the
/// category `conflict`.
pub open spec fn has_conflict(commits: Seq<Commit>, name: Seq<char>) -> bool {
    exists|j: int|
        0 <= j < commits.len() && (#[trigger] commits[j]).branch@ == name && commits[j].category@
            == "conflict"@
}

/// The latest timestamp among the first `upto` commits on the branch `name`.
pub open spec fn latest_on(commits: Seq<Commit>, name: Seq<char>, upto: nat) -> Option<i64>
    decreases upto,
{
    if upto == 0 {
        None
    } else {
        let rest = latest_on(commits, name, (upto - 1) as nat);
        let c = commits[upto - 1];
        if c.branch@ == name {
            match rest {
                Some(t) => if t >= c.timestamp {
                    Some(t)
                } else {
                    Some(c.timestamp)
                },
                None => Some(c.timestamp),
            }
        } else {
            rest
        }
    }
}

/// Whether any merge names the branch as its source.
pub open spec fn merge_source(merges: Seq<Merge>, name: Seq<char>) -> bool {
    exists|m: int| 0 <= m < merges.len() && (#[trigger] merges[m]).from_branch@ == name
}

/// A branch is stale if it is not the default branch, no merge names it as
/// its source, and its latest commit is more than 30 days older than the last
/// commit of the history.
pub open spec fn is_stale(data: &CollectedData, default: Seq<char>, name: Seq<char>) -> bool {
    &&& name != default
    &&& !merge_source(data.merges@, name)
    &&& data.commits@.len() > 0
    &&& latest_on(data.commits@, name, data.commits@.len()) matches Some(t)
    &&& data.commits@.last().timestamp - t > STALE_AFTER
}

/// The parent that a branch declares: that of the first declaration of its
/// name, resolved or not; none for a name that is not declared.
pub open spec fn declared_parent(branches: Seq<Branch>, name: Seq<char>) -> Option<Seq<char>> {
    if declared(branches, name) {
        opt_view(branches[first_named(branches, name)].parent_branch)
    } else {
        None
    }
}

/// The names of the listed branches, in traversal order.
pub open spec fn listed_names(branches: Seq<Branch>, default: Seq<char>) -> Seq<Seq<char>> {
    Seq::new(
        traversal(branches, default).len(),
        |k: int| branches[traversal(branches, default)[k].branch as int].name@,
    )
}

/// The names, in the order of their first commit, of the branches that
/// occur among the first `upto` commits without being listed or being the
/// default branch.
pub open spec fn extra_names(
    commits: Seq<Commit>,
    default: Seq<char>,
    listed: Seq<Seq<char>>,
    upto: nat,
) -> Seq<Seq<char>>
    decreases upto,
{
    if upto == 0 {
        Seq::empty()
    } else {
        let rest = extra_names(commits, default, listed, (upto - 1) as nat);
        let b = commits[upto - 1].branch@;
        if b == default || listed.contains(b) || rest.contains(b) {
            rest
        } else {
            rest.push(b)
        }
    }
}

/// Every branch that is drawn: the listed ones in traversal order, then the
/// others that have commits.
pub open spec fn roster(data: &CollectedData, default: Seq<char>) -> Seq<Seq<char>> {
    let listed = listed_names(data.branches@, default);
    listed + extra_names(data.commits@, default, listed, data.commits@.len())
}

/// `k` is the first place at which `names` holds `name`.
pub open spec fn is_first_at(names: Seq<Seq<char>>, name: Seq<char>, k: int) -> bool {
    &&& 0 <= k < names.len()
    &&& names[k] == name
    &&& forall|j: int| 0 <= j < k ==> (#[trigger] names[j]) != name
}

/// The place of a branch in the traversal, if it is listed.
pub open spec fn listed_at(branches: Seq<Branch>, default: Seq<char>, name: Seq<char>) -> Option<
    int,
> {
    let listed = listed_names(branches, default);
    if listed.contains(name) {
        Some(choose|k: int| is_first_at(listed, name, k))
    } else {
        None
    }
}

/// The slot of a branch: 0 for the default branch, and for every other
/// branch its place in the roster, counted from 1. The listed branches so
/// have the slots 1, 2, ... in traversal order, and the branches that are
/// not listed the slots after them. 0 also for a name that the roster does
/// not hold.
pub open spec fn slot_of(data: &CollectedData, default: Seq<char>, name: Seq<char>) -> int {
    let names = roster(data, default);
    if names.contains(name) {
        (choose|k: int| is_first_at(names, name, k)) + 1
    } else {
        0
    }
}

/// How deep a branch hangs: 0 directly under the default branch, and 0
/// where it is not listed.
pub open spec fn depth_of(branches: Seq<Branch>, default: Seq<char>, name: Seq<char>) -> nat {
    match listed_at(branches, default, name) {
        Some(k) => traversal(branches, default)[k].depth as nat,
        None => 0,
    }
}

proof fn lemma_first_at_unique(names: Seq<Seq<char>>, name: Seq<char>, a: int, b: int)
    requires
        is_first_at(names, name, a),
        is_first_at(names, name, b),
    ensures
        a == b,
{
    if a < b {
        assert(names[a] != name);
    } else if b < a {
        assert(names[b] != name);
    }
}

/// A branch with a commit is the default branch or stands in the roster.
proof fn lemma_extra_names_cover(
    commits: Seq<Commit>,
    default: Seq<char>,
    listed: Seq<Seq<char>>,
    upto: nat,
    j: int,
)
    requires
        0 <= j < upto <= commits.len(),
        commits[j].branch@ != default,
    ensures
        listed.contains(commits[j].branch@) || extra_names(
            commits,
            default,
            listed,
            upto,
        ).contains(commits[j].branch@),
    decreases upto,
{
    let rest = extra_names(commits, default, listed, (upto - 1) as nat);
    let b = commits[upto - 1].branch@;
    if j < upto - 1 {
        lemma_extra_names_cover(commits, default, listed, (upto - 1) as nat, j);
        let bj = commits[j].branch@;
        if rest.contains(bj) && !(b == default || listed.contains(b) || rest.contains(b)) {
            let w = choose|w: int| 0 <= w < rest.len() && rest[w] == bj;
            assert(rest.push(b)[w] == bj);
        }
    } else {
        if !(listed.contains(b) || rest.contains(b)) {
            assert(rest.push(b)[rest.len() as int] == b);
        }
    }
}

impl NetworkLayout {
    /// The lengths are within `LIMIT`, so that no coordinate overflows.
    pub open spec fn wf(&self) -> bool {
        &&& 0 <= self.margin_left <= LIMIT
        &&& 0 <= self.margin_right <= LIMIT
        &&& -LIMIT <= self.main_y <= LIMIT
        &&& 0 <= self.min_branch_spacing <= LIMIT
        &&& 0 <= self.max_divergence_offset <= LIMIT
    }

    pub fn is_wf(&self) -> (ok: bool)
        ensures
            ok == self.wf(),
    {
        0 <= self.margin_left && self.margin_left <= LIMIT && 0 <= self.margin_right
            && self.margin_right <= LIMIT && -LIMIT <= self.main_y && self.main_y <= LIMIT && 0
            <= self.min_branch_spacing && self.min_branch_spacing <= LIMIT && 0
            <= self.max_divergence_offset && self.max_divergence_offset <= LIMIT
    }

    /// The layout of a drawing of `width` by `height` pixels: margins of 80
    /// and 40 pixels left and right, the default branch 15% down the area
    /// between a top margin of 70 and a bottom margin of 120 pixels.
    pub fn from_data(data: &CollectedData, width: u32, height: u32) -> (layout: Self)
        ensures
            layout.wf(),
            layout.width == width,
            layout.margin_left == 80 * ONE,
            layout.margin_right == 40 * ONE,
            layout.main_y == 70 * ONE + ((height - 190) * 49152) / 5,
            layout.min_branch_spacing == MIN_BRANCH_SPACING,
            layout.max_divergence_offset == MAX_DIVERGENCE_OFFSET,
            layout.default_branch@ == default_name(data.branches@),
    {
        let mut default_branch: Option<String> = None;
        let mut i: usize = 0;
        while i < data.branches.len() && default_branch.is_none()
            invariant
                i <= data.branches@.len(),
                match default_branch {
                    Some(name) => i > 0 && is_first_default(data.branches@, i - 1) && name@
                        == data.branches@[i - 1].name@,
                    None => forall|j: int| 0 <= j < i ==> !(#[trigger] data.branches@[j]).is_default,
                },
            decreases data.branches@.len() - i,
        {
            if data.branches[i].is_default {
                default_branch = Some(data.branches[i].name.clone());
            }
            i += 1;
        }
        let default_branch = match default_branch {
            Some(name) => {
                proof {
                    let c = choose|c: int| is_first_default(data.branches@, c);
                    assert(is_first_default(data.branches@, i - 1));
                    if c < i - 1 {
                        assert(!data.branches@[c].is_default);
                    } else if i - 1 < c {
                        assert(!data.branches@[i - 1].is_default);
                    }
                }
                name
            },
            None => "main".to_owned(),
        };
        let below_top: i128 = (height as i128 - 190) * 49152;
        let main_y: i128 = 70 * ONE + floor_div(below_top, 5);
        NetworkLayout {
            width,
            margin_left: 80 * ONE,
            margin_right: 40 * ONE,
            main_y,
            min_branch_spacing: MIN_BRANCH_SPACING,
            max_divergence_offset: MAX_DIVERGENCE_OFFSET,
            default_branch,
        }
    }

    /// The width between the margins; negative where the margins overlap.
    pub open spec fn usable(&self) -> int {
        self.width * ONE - self.margin_left - self.margin_right
    }

    /// The x of the commit at `index` out of `total`: the commits are spread
    /// evenly from the left to the right margin in the order of their
    /// indices; a single commit stands in the middle.
    pub open spec fn x_at(&self, index: nat, total: nat) -> int {
        if total <= 1 {
            self.margin_left + self.usable() / 2
        } else {
            self.margin_left + (index * self.usable()) / (total - 1)
        }
    }

    pub fn commit_to_x(&self, index: usize, total: usize) -> (x: i128)
        requires
            self.wf(),
        ensures
            x == self.x_at(index as nat, total as nat),
    {
        let usable: i128 = self.width as i128 * ONE - self.margin_left - self.margin_right;
        if total <= 1 {
            self.margin_left + floor_div(usable, 2)
        } else {
            let steps: i128 = (total - 1) as i128;
            assert(-0x4000_0000_0000_0000_0000_0000_0000_0000 <= index * usable
                <= 0x4000_0000_0000_0000_0000_0000_0000_0000) by (nonlinear_arith)
                requires
                    0 <= index <= 0xffff_ffff_ffff_ffff,
                    -0x2000_0000_0000_0000 <= usable <= 0x2000_0000_0000_0000,
            ;
            let scaled: i128 = index as i128 * usable;
            let q: i128 = floor_div(scaled, steps);
            assert(-0x4000_0000_0000_0000_0000_0000_0000_0000 <= scaled / steps
                <= 0x4000_0000_0000_0000_0000_0000_0000_0000) by (nonlinear_arith)
                requires
                    -0x4000_0000_0000_0000_0000_0000_0000_0000 <= scaled
                        <= 0x4000_0000_0000_0000_0000_0000_0000_0000,
                    steps >= 1,
            ;
            self.margin_left + q
        }
    }

    /// The base line of a branch `depth` levels below the children of the
    /// default branch.
    pub open spec fn base_y_at(&self, depth: nat) -> int {
        self.main_y + (depth + 1) * self.min_branch_spacing
    }

    pub fn base_y(&self, depth: usize) -> (y: i128)
        requires
            self.wf(),
        ensures
            y == self.base_y_at(depth as nat),
            -LIMIT <= y <= LIMIT + 0x1_0000_0000_0000_0000 * 0x1000_0000_0000_0000,
    {
        let levels: i128 = depth as i128 + 1;
        let spacing: i128 = self.min_branch_spacing;
        assert(0 <= levels * spacing <= 0x1_0000_0000_0000_0000 * 0x1000_0000_0000_0000)
            by (nonlinear_arith)
            requires
                0 <= levels <= 0x1_0000_0000_0000_0000,
                0 <= spacing <= 0x1000_0000_0000_0000,
        ;
        self.main_y + levels * spacing
    }

    /// Width and height of the rectangle of a commit: the width grows with
    /// the files it changes, the height with the lines it touches.
    pub fn commit_rect(commit: &Commit) -> (size: (i128, i128))
        ensures
            size.0 == spec_log_extent(commit.files_changed as nat, MIN_RECT_W as int, MAX_RECT_W as int),
            size.1 == spec_log_extent(commit.spec_lines(), MIN_RECT_H as int, MAX_RECT_H as int),
    {
        (
            log_extent(commit.files_changed as u64, MIN_RECT_W, MAX_RECT_W),
            log_extent(commit.lines(), MIN_RECT_H, MAX_RECT_H),
        )
    }

    /// How far below its base line a branch with these totals is drawn.
    pub fn divergence_offset(&self, commits: u64, lines: u128, files: u128) -> (offset: i128)
        requires
            self.wf(),
            lines < u128::MAX,
            files < u128::MAX,
        ensures
            offset == spec_divergence(
                commits as nat,
                lines as nat,
                files as nat,
                self.max_divergence_offset as int,
            ),
            0 <= offset <= self.max_divergence_offset,
    {
        let by_commits: i128 = log2_fixed(1 + commits as u128) as i128;
        let by_lines: i128 = log2_fixed(1 + lines) as i128;
        let by_files: i128 = log2_fixed(1 + files) as i128;
        let raw: i128 = 15 * by_commits + 8 * by_lines + 5 * by_files;
        if raw > self.max_divergence_offset {
            self.max_divergence_offset
        } else {
            raw
        }
    }
}

/// Whether any commit on the branch `name` is of the category `conflict`.
pub fn branch_has_conflict(commits: &Vec<Commit>, name: &String) -> (found: bool)
    ensures
        found == has_conflict(commits@, name@),
{
    let conflict = "conflict".to_owned();
    let mut j: usize = 0;
    while j < commits.len()
        invariant
            j <= commits@.len(),
            conflict@ == "conflict"@,
            forall|k: int|
                0 <= k < j ==> !((#[trigger] commits@[k]).branch@ == name@ && commits@[k].category@
                    == "conflict"@),
        decreases commits@.len() - j,
    {
        if same_name(&commits[j].branch, name) && same_name(&commits[j].category, &conflict) {
            return true;
        }
        j += 1;
    }
    false
}

/// The latest timestamp of a commit on the branch `name`.
pub fn latest_commit_on(commits: &Vec<Commit>, name: &String) -> (latest: Option<i64>)
    ensures
        latest == latest_on(commits@, name@, commits@.len() as nat),
{
    let mut latest: Option<i64> = None;
    let mut j: usize = 0;
    while j < commits.len()
        invariant
            j <= commits@.len(),
            latest == latest_on(commits@, name@, j as nat),
        decreases commits@.len() - j,
    {
        if same_name(&commits[j].branch, name) {
            let t: i64 = commits[j].timestamp;
            latest = match latest {
                Some(seen) => if seen >= t {
                    Some(seen)
                } else {
                    Some(t)
                },
                None => Some(t),
            };
        }
        j += 1;
    }
    latest
}

/// Whether any merge names the branch `name` as its source.
pub fn is_merge_source(merges: &Vec<Merge>, name: &String) -> (found: bool)
    ensures
        found == merge_source(merges@, name@),
{
    let mut m: usize = 0;
    while m < merges.len()
        invariant
            m <= merges@.len(),
            forall|k: int| 0 <= k < m ==> (#[trigger] merges@[k]).from_branch@ != name@,
        decreases merges@.len() - m,
    {
        if same_name(&merges[m].from_branch, name) {
            return true;
        }
        m += 1;
    }
    false
}

/// Whether the branch `name` is stale in a history whose default branch is
/// `default_branch`.
pub fn branch_is_stale(data: &CollectedData, default_branch: &String, name: &String) -> (stale:
    bool)
    ensures
        stale == is_stale(data, default_branch@, name@),
{
    if same_name(name, default_branch) || is_merge_source(&data.merges, name) {
        return false;
    }
    let n: usize = data.commits.len();
    if n == 0 {
        return false;
    }
    match latest_commit_on(&data.commits, name) {
        Some(t) => {
            let end: i128 = data.commits[n - 1].timestamp as i128;
            end - t as i128 > STALE_AFTER as i128
        },
        None => false,
    }
}

/// What the pass over the commits keeps of one branch of the roster.
struct Entry {
    name: String,
    depth: usize,
    parent: Option<String>,
    has_conflicts: bool,
    is_stale: bool,
}

/// What a branch has gathered so far.
#[derive(Clone, Copy)]
struct Totals {
    commits: u64,
    lines: u128,
    files: u128,
}

spec fn entry_names(entries: Seq<Entry>) -> Seq<Seq<char>> {
    Seq::new(entries.len(), |k: int| entries[k].name@)
}

fn find_entry(entries: &Vec<Entry>, name: &String) -> (found: Option<usize>)
    ensures
        match found {
            Some(k) => is_first_at(entry_names(entries@), name@, k as int),
            None => !entry_names(entries@).contains(name@),
        },
{
    let mut k: usize = 0;
    while k < entries.len()
        invariant
            k <= entries@.len(),
            forall|j: int| 0 <= j < k ==> (#[trigger] entry_names(entries@)[j]) != name@,
        decreases entries@.len() - k,
    {
        if same_name(&entries[k].name, name) {
            return Some(k);
        }
        k += 1;
    }
    None
}

fn clone_name(name: &Option<String>) -> (copy: Option<String>)
    ensures
        opt_view(copy) == opt_view(*name),
{
    match name {
        Some(n) => Some(n.clone()),
        None => None,
    }
}

impl NetworkLayout {
    /// The y of commit `i`: the default branch's line for a commit on the
    /// default branch; else the base line of its branch plus what the branch
    /// has diverged by, this commit included.
    pub open spec fn commit_y(&self, data: &CollectedData, i: int) -> int {
        let b = data.commits@[i].branch@;
        let d = self.default_branch@;
        if b == d {
            self.main_y as int
        } else {
            self.base_y_at(depth_of(data.branches@, d, b)) + spec_divergence(
                commits_on(data.commits@, b, (i + 1) as nat),
                lines_on(data.commits@, b, (i + 1) as nat),
                files_on(data.commits@, b, (i + 1) as nat),
                self.max_divergence_offset as int,
            )
        }
    }

    /// `placed` is commit `i` of `data` at its place.
    pub open spec fn positions_commit(
        &self,
        data: &CollectedData,
        i: int,
        placed: PositionedCommit,
    ) -> bool {
        let c = data.commits@[i];
        let b = c.branch@;
        let d = self.default_branch@;
        &&& *placed.commit == c
        &&& placed.x == self.x_at(i as nat, data.commits@.len())
        &&& placed.y == self.commit_y(data, i)
        &&& placed.is_default_branch == (b == d)
        &&& placed.slot == slot_of(data, d, b)
        &&& (placed.slot == 0) == (b == d)
        &&& placed.branch_has_conflicts == (b != d && has_conflict(data.commits@, b))
        &&& placed.branch_is_stale == is_stale(data, d, b)
        &&& placed.rect_w == spec_log_extent(
            c.files_changed as nat,
            MIN_RECT_W as int,
            MAX_RECT_W as int,
        )
        &&& placed.rect_h == spec_log_extent(c.spec_lines(), MIN_RECT_H as int, MAX_RECT_H as int)
    }

    /// `info` describes branch `k` of the roster. Its slot is its place in
    /// the roster, counted from 1, and its parent is the parent that it
    /// declares, whether or not the branch hangs under that parent. A listed
    /// branch has a base line one spacing below its parent's; any other
    /// branch has the base line of a child of the default branch.
    pub open spec fn describes_branch(
        &self,
        data: &CollectedData,
        k: int,
        info: BranchVisualInfo,
    ) -> bool {
        let d = self.default_branch@;
        let order = traversal(data.branches@, d);
        let name = roster(data, d)[k];
        &&& info.name@ == name
        &&& info.has_conflicts == has_conflict(data.commits@, name)
        &&& info.is_stale == is_stale(data, d, name)
        &&& info.slot == k + 1
        &&& opt_view(info.parent_branch) == declared_parent(data.branches@, name)
        &&& info.base_y == if k < order.len() {
            self.base_y_at(order[k].depth as nat)
        } else {
            self.base_y_at(0)
        }
    }

    /// The roster of `data`: the listed branches, then the others with
    /// commits, each with its flags.
    fn build_roster(&self, data: &CollectedData) -> (entries: Vec<Entry>)
        ensures
            entry_names(entries@) == roster(data, self.default_branch@),
            forall|k: int|
                0 <= k < entries@.len() ==> {
                    let e = #[trigger] entries@[k];
                    let order = traversal(data.branches@, self.default_branch@);
                    &&& e.has_conflicts == has_conflict(data.commits@, e.name@)
                    &&& e.is_stale == is_stale(data, self.default_branch@, e.name@)
                    &&& if k < order.len() {
                        &&& e.depth == order[k].depth
                        &&& opt_view(e.parent) == opt_view(
                            data.branches@[order[k].branch as int].parent_branch,
                        )
                    } else {
                        &&& e.depth == 0
                        &&& opt_view(e.parent) == declared_parent(data.branches@, e.name@)
                    }
                },
    {
        let tree = build_branch_tree(&data.branches, &self.default_branch);
        let ghost d = self.default_branch@;
        let ghost order = traversal(data.branches@, d);
        let ghost listed = listed_names(data.branches@, d);
        let mut entries: Vec<Entry> = Vec::new();
        let mut k: usize = 0;
        while k < tree.order.len()
            invariant
                k <= tree.order@.len(),
                tree.order@ == order,
                order == traversal(data.branches@, d),
                d == self.default_branch@,
                listed == listed_names(data.branches@, d),
                forall|j: int|
                    0 <= j < tree.order@.len() ==> (#[trigger] tree.order@[j]).branch
                        < data.branches@.len(),
                entries@.len() == k,
                entry_names(entries@) == listed.take(k as int),
                forall|j: int|
                    0 <= j < k ==> {
                        let e = #[trigger] entries@[j];
                        &&& e.has_conflicts == has_conflict(data.commits@, e.name@)
                        &&& e.is_stale == is_stale(data, d, e.name@)
                        &&& e.depth == order[j].depth
                        &&& opt_view(e.parent) == opt_view(
                            data.branches@[order[j].branch as int].parent_branch,
                        )
                    },
            decreases tree.order@.len() - k,
        {
            let v = tree.order[k];
            let branch = &data.branches[v.branch];
            let name = branch.name.clone();
            let has_conflicts = branch_has_conflict(&data.commits, &name);
            let is_stale = branch_is_stale(data, &self.default_branch, &name);
            let ghost before = entries@;
            entries.push(
                Entry {
                    name,
                    depth: v.depth,
                    parent: clone_name(&branch.parent_branch),
                    has_conflicts,
                    is_stale,
                },
            );
            proof {
                assert(entry_names(entries@) =~= entry_names(before).push(branch.name@));
                assert(listed.take(k + 1) =~= listed.take(k as int).push(listed[k as int]));
            }
            k += 1;
        }
        proof {
            assert(listed.take(k as int) =~= listed);
            assert(entry_names(entries@) =~= listed + Seq::<Seq<char>>::empty());
        }
        let mut i: usize = 0;
        while i < data.commits.len()
            invariant
                i <= data.commits@.len(),
                order == traversal(data.branches@, d),
                d == self.default_branch@,
                listed == listed_names(data.branches@, d),
                listed.len() == order.len(),
                entry_names(entries@) == listed + extra_names(data.commits@, d, listed, i as nat),
                forall|j: int|
                    0 <= j < entries@.len() ==> {
                        let e = #[trigger] entries@[j];
                        &&& e.has_conflicts == has_conflict(data.commits@, e.name@)
                        &&& e.is_stale == is_stale(data, d, e.name@)
                        &&& if j < order.len() {
                            &&& e.depth == order[j].depth
                            &&& opt_view(e.parent) == opt_view(
                                data.branches@[order[j].branch as int].parent_branch,
                            )
                        } else {
                            &&& e.depth == 0
                            &&& opt_view(e.parent) == declared_parent(data.branches@, e.name@)
                        }
                    },
            decreases data.commits@.len() - i,
        {
            let c = &data.commits[i];
            let ghost rest = extra_names(data.commits@, d, listed, i as nat);
            let ghost names = entry_names(entries@);
            proof {
                let b = c.branch@;
                if listed.contains(b) {
                    let w = choose|w: int| 0 <= w < listed.len() && listed[w] == b;
                    assert(names[w] == b);
                }
                if rest.contains(b) {
                    let w = choose|w: int| 0 <= w < rest.len() && rest[w] == b;
                    assert(names[listed.len() + w] == b);
                }
                if names.contains(b) {
                    let w = choose|w: int| 0 <= w < names.len() && names[w] == b;
                    if w < listed.len() {
                        assert(listed[w] == b);
                    } else {
                        assert(rest[w - listed.len()] == b);
                    }
                }
            }
            if !same_name(&c.branch, &self.default_branch) {
                if find_entry(&entries, &c.branch).is_none() {
                    let name = c.branch.clone();
                    let has_conflicts = branch_has_conflict(&data.commits, &name);
                    let is_stale = branch_is_stale(data, &self.default_branch, &name);
                    let parent = match find_branch(&data.branches, &name) {
                        Some(first) => {
                            proof {
                                crate::tree::lemma_first_named(data.branches@, name@, first as int);
                            }
                            clone_name(&data.branches[first].parent_branch)
                        },
                        None => None,
                    };
                    entries.push(Entry { name, depth: 0, parent, has_conflicts, is_stale });
                    proof {
                        assert(entry_names(entries@) =~= names.push(c.branch@));
                        assert(names.push(c.branch@) =~= listed + rest.push(c.branch@));
                    }
                }
            }
            i += 1;
        }
        entries
    }

    /// Places every commit and describes every branch that is drawn.
    ///
    /// The commits come back in their order. The branches are the roster:
    /// the listed branches in traversal order, then the other branches that
    /// have commits, in the order of their first commit.
    pub fn position_commits_dynamic<'a>(&self, data: &'a CollectedData) -> (placed: (
        Vec<PositionedCommit<'a>>,
        Vec<BranchVisualInfo>,
    ))
        requires
            self.wf(),
        ensures
            placed.0@.len() == data.commits@.len(),
            forall|i: int|
                0 <= i < data.commits@.len() ==> self.positions_commit(
                    data,
                    i,
                    #[trigger] placed.0@[i],
                ),
            placed.1@.len() == roster(data, self.default_branch@).len(),
            forall|k: int|
                0 <= k < placed.1@.len() ==> self.describes_branch(data, k, #[trigger] placed.1@[k]),
    {
        let entries = self.build_roster(data);
        let ghost d = self.default_branch@;
        let ghost names = entry_names(entries@);
        let ghost listed = listed_names(data.branches@, d);
        let n: usize = data.commits.len();
        let mut totals: Vec<Totals> = Vec::new();
        let mut k: usize = 0;
        while k < entries.len()
            invariant
                k <= entries@.len(),
                totals@.len() == k,
                forall|j: int|
                    0 <= j < k ==> (#[trigger] totals@[j]) == (Totals {
                        commits: 0,
                        lines: 0,
                        files: 0,
                    }),
            decreases entries@.len() - k,
        {
            totals.push(Totals { commits: 0, lines: 0, files: 0 });
            k += 1;
        }
        let mut positions: Vec<PositionedCommit<'a>> = Vec::new();
        let mut i: usize = 0;
        while i < n
            invariant
                i <= n,
                n == data.commits@.len(),
                self.wf(),
                d == self.default_branch@,
                names == entry_names(entries@),
                names == roster(data, d),
                listed == listed_names(data.branches@, d),
                totals@.len() == entries@.len(),
                forall|j: int|
                    0 <= j < entries@.len() ==> {
                        let e = #[trigger] entries@[j];
                        let order = traversal(data.branches@, d);
                        &&& e.has_conflicts == has_conflict(data.commits@, e.name@)
                        &&& e.is_stale == is_stale(data, d, e.name@)
                        &&& if j < order.len() {
                            e.depth == order[j].depth
                        } else {
                            e.depth == 0
                        }
                    },
                forall|j: int|
                    0 <= j < totals@.len() ==> {
                        let t = #[trigger] totals@[j];
                        &&& t.commits <= i
                        &&& t.lines <= i * 0x2_0000_0000
                        &&& t.files <= i * 0x1_0000_0000
                    },
                forall|j: int|
                    0 <= j < totals@.len() && is_first_at(names, names[j], j) ==> {
                        let t = #[trigger] totals@[j];
                        &&& t.commits == commits_on(data.commits@, names[j], i as nat)
                        &&& t.lines == lines_on(data.commits@, names[j], i as nat)
                        &&& t.files == files_on(data.commits@, names[j], i as nat)
                    },
                positions@.len() == i,
                forall|j: int| 0 <= j < i ==> self.positions_commit(data, j, #[trigger] positions@[j]),
            decreases n - i,
        {
            let c: &'a Commit = &data.commits[i];
            let x = self.commit_to_x(i, n);
            let (rect_w, rect_h) = Self::commit_rect(c);
            if same_name(&c.branch, &self.default_branch) {
                positions.push(
                    PositionedCommit {
                        commit: c,
                        x,
                        y: self.main_y,
                        slot: 0,
                        rect_w,
                        rect_h,
                        is_default_branch: true,
                        branch_has_conflicts: false,
                        branch_is_stale: false,
                    },
                );
                proof {
                    assert forall|j: int|
                        0 <= j < totals@.len() && is_first_at(names, names[j], j) implies {
                        let t = #[trigger] totals@[j];
                        &&& t.commits == commits_on(data.commits@, names[j], (i + 1) as nat)
                        &&& t.lines == lines_on(data.commits@, names[j], (i + 1) as nat)
                        &&& t.files == files_on(data.commits@, names[j], (i + 1) as nat)
                    } by {
                        self.lemma_roster_skips_default(data, j);
                    }
                    assert(slot_of(data, d, c.branch@) == 0) by {
                        if names.contains(d) {
                            let w = choose|w: int| 0 <= w < names.len() && names[w] == d;
                            self.lemma_roster_skips_default(data, w);
                        }
                    }
                }
            } else {
                proof {
                    lemma_extra_names_cover(data.commits@, d, listed, n as nat, i as int);
                    let b = c.branch@;
                    let extras = extra_names(data.commits@, d, listed, n as nat);
                    if listed.contains(b) {
                        let w = choose|w: int| 0 <= w < listed.len() && listed[w] == b;
                        assert(names[w] == b);
                    } else {
                        let w = choose|w: int| 0 <= w < extras.len() && extras[w] == b;
                        assert(names[listed.len() + w] == b);
                    }
                    assert(names.contains(b));
                }
                let found = find_entry(&entries, &c.branch);
                let s: usize = found.unwrap();
                assert(s < entries.len());
                let old_t = totals[s];
                let t = Totals {
                    commits: old_t.commits + 1,
                    lines: old_t.lines + c.lines() as u128,
                    files: old_t.files + c.files_changed as u128,
                };
                let ghost before = totals@;
                totals.set(s, t);
                let e = &entries[s];
                let y = self.base_y(e.depth) + self.divergence_offset(t.commits, t.lines, t.files);
                proof {
                    let b = c.branch@;
                    assert(names[s as int] == b);
                    assert forall|j: int|
                        0 <= j < totals@.len() && is_first_at(names, names[j], j) implies {
                        let t = #[trigger] totals@[j];
                        &&& t.commits == commits_on(data.commits@, names[j], (i + 1) as nat)
                        &&& t.lines == lines_on(data.commits@, names[j], (i + 1) as nat)
                        &&& t.files == files_on(data.commits@, names[j], (i + 1) as nat)
                    } by {
                        if j != s {
                            if names[j] == b {
                                lemma_first_at_unique(names, b, j, s as int);
                            }
                            assert(totals@[j] == before[j]);
                        }
                    }
                    let order = traversal(data.branches@, d);
                    if s < order.len() {
                        assert(listed[s as int] == names[s as int]);
                        assert(is_first_at(listed, b, s as int)) by {
                            assert forall|j: int| 0 <= j < s implies (#[trigger] listed[j]) != b by {
                                assert(names[j] == listed[j]);
                            }
                        }
                        let w = choose|w: int| is_first_at(listed, b, w);
                        lemma_first_at_unique(listed, b, w, s as int);
                    } else {
                        if listed.contains(b) {
                            let w = choose|w: int| 0 <= w < listed.len() && listed[w] == b;
                            assert(names[w] == b);
                        }
                    }
                    assert(slot_of(data, d, b) == s + 1) by {
                        assert(is_first_at(names, b, s as int));
                        let w = choose|w: int| is_first_at(names, b, w);
                        lemma_first_at_unique(names, b, w, s as int);
                    }
                }
                positions.push(
                    PositionedCommit {
                        commit: c,
                        x,
                        y,
                        slot: s + 1,
                        rect_w,
                        rect_h,
                        is_default_branch: false,
                        branch_has_conflicts: e.has_conflicts,
                        branch_is_stale: e.is_stale,
                    },
                );
            }
            i += 1;
        }
        let mut infos: Vec<BranchVisualInfo> = Vec::new();
        let mut k: usize = 0;
        while k < entries.len()
            invariant
                k <= entries@.len(),
                self.wf(),
                d == self.default_branch@,
                entry_names(entries@) == roster(data, d),
                forall|j: int|
                    0 <= j < entries@.len() ==> {
                        let e = #[trigger] entries@[j];
                        let order = traversal(data.branches@, d);
                        &&& e.has_conflicts == has_conflict(data.commits@, e.name@)
                        &&& e.is_stale == is_stale(data, d, e.name@)
                        &&& if j < order.len() {
                            &&& e.depth == order[j].depth
                            &&& opt_view(e.parent) == opt_view(
                                data.branches@[order[j].branch as int].parent_branch,
                            )
                        } else {
                            &&& e.depth == 0
                            &&& opt_view(e.parent) == declared_parent(data.branches@, e.name@)
                        }
                    },
                infos@.len() == k,
                forall|j: int| 0 <= j < k ==> self.describes_branch(data, j, #[trigger] infos@[j]),
            decreases entries@.len() - k,
        {
            let e = &entries[k];
            proof {
                assert(entry_names(entries@)[k as int] == e.name@);
                let order = traversal(data.branches@, d);
                if k < order.len() {
                    // A listed branch is the first declaration of its name.
                    assert(data.branches@.len() == data.branches.len());
                    assert(e.name@ == listed_names(data.branches@, d)[k as int]);
                    crate::tree::lemma_traversal_names(data.branches@, d, k as int);
                    crate::tree::lemma_first_named(
                        data.branches@,
                        e.name@,
                        order[k as int].branch as int,
                    );
                }
            }
            infos.push(
                BranchVisualInfo {
                    name: e.name.clone(),
                    slot: k + 1,
                    has_conflicts: e.has_conflicts,
                    is_stale: e.is_stale,
                    base_y: self.base_y(e.depth),
                    parent_branch: clone_name(&e.parent),
                },
            );
            k += 1;
        }
        (positions, infos)
    }

    /// No branch of the roster is the default branch.
    pub proof fn lemma_roster_skips_default(&self, data: &CollectedData, k: int)
        requires
            0 <= k < roster(data, self.default_branch@).len(),
        ensures
            roster(data, self.default_branch@)[k] != self.default_branch@,
    {
        let d = self.default_branch@;
        let listed = listed_names(data.branches@, d);
        assert(data.branches@.len() == data.branches.len());
        if k < listed.len() {
            crate::tree::lemma_traversal_names(data.branches@, d, k);
        } else {
            lemma_extra_names_skip_default(data.commits@, d, listed, data.commits@.len(), k - listed.len());
        }
    }
}

proof fn lemma_extra_names_skip_default(
    commits: Seq<Commit>,
    default: Seq<char>,
    listed: Seq<Seq<char>>,
    upto: nat,
    k: int,
)
    requires
        0 <= k < extra_names(commits, default, listed, upto).len(),
    ensures
        extra_names(commits, default, listed, upto)[k] != default,
    decreases upto,
{
    if upto > 0 {
        let rest = extra_names(commits, default, listed, (upto - 1) as nat);
        if k < rest.len() {
            lemma_extra_names_skip_default(commits, default, listed, (upto - 1) as nat, k);
        }
    }
}

/// A length between `low` and `high` that grows with the logarithm of `n`.
pub fn log_extent(n: u64, low: i128, high: i128) -> (extent: i128)
    requires
        0 <= low <= high <= LIMIT,
    ensures
        extent == spec_log_extent(n as nat, low as int, high as int),
        low <= extent <= high,
{
    let m: u128 = if n == 0 {
        1
    } else {
        n as u128
    };
    let log: i128 = log2_fixed(m) as i128;
    let span: i128 = (high - low) / ONE;
    assert(0 <= log * LOG10_OF_2 * span <= (128 * 65536) * 19728 * 0x1000_0000_0000_0000)
        by (nonlinear_arith)
        requires
            0 <= log <= 128 * 65536,
            0 <= span <= 0x1000_0000_0000_0000,
            LOG10_OF_2 == 19728,
    ;
    let grown: i128 = (log * LOG10_OF_2 * span) / ONE;
    let raw: i128 = low + grown;
    if raw < low {
        low
    } else if raw > high {
        high
    } else {
        raw
    }
}

/// The base line of every listed branch lies exactly one spacing below the
/// base line of its parent: below the default branch's line for a child of
/// the default branch, else below the base line of a branch that is listed
/// before it.
pub proof fn lemma_base_below_parent(layout: &NetworkLayout, branches: Seq<Branch>, k: int)
    requires
        branches.len() <= usize::MAX,
        0 <= k < traversal(branches, layout.default_branch@).len(),
    ensures
        ({
            let order = traversal(branches, layout.default_branch@);
            match link_of(branches, layout.default_branch@, order[k].branch as int) {
                Link::Skip => false,
                Link::Root => layout.base_y_at(order[k].depth as nat) == layout.main_y
                    + layout.min_branch_spacing,
                Link::Under(p) => exists|j: int|
                    0 <= j < k && (#[trigger] order[j]).branch == p && layout.base_y_at(
                        order[k].depth as nat,
                    ) == layout.base_y_at(order[j].depth as nat) + layout.min_branch_spacing,
            }
        }),
        layout.min_branch_spacing > 0 ==> layout.base_y_at(
            traversal(branches, layout.default_branch@)[k].depth as nat,
        ) > layout.main_y,
{
    let d = layout.default_branch@;
    let order = traversal(branches, d);
    let links = crate::tree::link_table(branches, d);
    let s = layout.min_branch_spacing as int;
    let e = order[k].branch as int;
    let depth = order[k].depth as int;
    crate::tree::lemma_traversal_parent_first(branches, d, k);
    crate::tree::lemma_traversal_names(branches, d, k);
    assert(links[e] == link_of(branches, d, e));
    assert(crate::tree::hangs_in(links, order, Link::Root, 0, k));
    assert(layout.base_y_at(depth as nat) == layout.main_y + (depth + 1) * s);
    if s > 0 {
        assert((depth + 1) * s > 0) by (nonlinear_arith)
            requires
                depth >= 0,
                s > 0,
        ;
    }
    match link_of(branches, d, e) {
        Link::Skip => {},
        Link::Root => {
            // A child of the default branch hangs at depth 0.
            assert(depth == 0) by {
                if !(links[e] == Link::Root && order[k].depth == 0) {
                    let j = choose|j: int|
                        0 <= j < k && links[e] == Link::Under((#[trigger] order[j]).branch)
                            && order[k].depth == order[j].depth + 1;
                    assert(links[e] == Link::Under(order[j].branch));
                }
            }
            assert((0 + 1) * s == s) by (nonlinear_arith);
        },
        Link::Under(p) => {
            // Any other branch hangs one level under its parent, which is listed
            // before it.
            assert(!(links[e] == Link::Root));
            let j = choose|j: int|
                0 <= j < k && links[e] == Link::Under((#[trigger] order[j]).branch)
                    && order[k].depth == order[j].depth + 1;
            assert(order[j].branch == p);
            let dj = order[j].depth as int;
            assert(depth == dj + 1);
            assert(layout.base_y_at(dj as nat) == layout.main_y + (dj + 1) * s);
            assert((dj + 2) * s == (dj + 1) * s + s) by (nonlinear_arith);
            assert(layout.base_y_at(depth as nat) == layout.base_y_at(dj as nat) + s);
            assert(0 <= j < k && order[j].branch == p && layout.base_y_at(order[k].depth as nat)
                == layout.base_y_at(order[j].depth as nat) + layout.min_branch_spacing);
        },
    }
}

/// The extra names are not listed, and none of them occurs twice.
proof fn lemma_extra_names_are_new(
    commits: Seq<Commit>,
    default: Seq<char>,
    listed: Seq<Seq<char>>,
    upto: nat,
)
    ensures
        forall|k: int|
            0 <= k < extra_names(commits, default, listed, upto).len() ==> !listed.contains(
                #[trigger] extra_names(commits, default, listed, upto)[k],
            ),
        forall|a: int, b: int|
            0 <= a < b < extra_names(commits, default, listed, upto).len() ==> (
            #[trigger] extra_names(commits, default, listed, upto)[a]) != (#[trigger] extra_names(
                commits,
                default,
                listed,
                upto,
            )[b]),
    decreases upto,
{
    if upto > 0 {
        let rest = extra_names(commits, default, listed, (upto - 1) as nat);
        let now = extra_names(commits, default, listed, upto);
        lemma_extra_names_are_new(commits, default, listed, (upto - 1) as nat);
        let b = commits[upto - 1].branch@;
        if !(b == default || listed.contains(b) || rest.contains(b)) {
            assert forall|x: int, y: int| 0 <= x < y < now.len() implies (#[trigger] now[x]) != (
            #[trigger] now[y]) by {
                if y == rest.len() {
                    assert(now[x] == rest[x]);
                    assert(rest.contains(rest[x]));
                } else {
                    assert(now[x] == rest[x] && now[y] == rest[y]);
                }
            }
            assert forall|k: int| 0 <= k < now.len() implies !listed.contains(#[trigger] now[k]) by {
                if k < rest.len() {
                    assert(now[k] == rest[k]);
                }
            }
        }
    }
}

/// Every branch stands in the roster once: no two places of the roster
/// hold the same name.
pub proof fn lemma_roster_names_differ(data: &CollectedData, default: Seq<char>, a: int, b: int)
    requires
        0 <= a < b < roster(data, default).len(),
    ensures
        roster(data, default)[a] != roster(data, default)[b],
{
    let branches = data.branches@;
    assert(branches.len() == data.branches.len());
    let listed = listed_names(branches, default);
    let extras = extra_names(data.commits@, default, listed, data.commits@.len());
    let order = traversal(branches, default);
    lemma_extra_names_are_new(data.commits@, default, listed, data.commits@.len());
    if b < listed.len() {
        crate::tree::lemma_listed_once(branches, default, a, b);
        crate::tree::lemma_traversal_names(branches, default, a);
        crate::tree::lemma_traversal_names(branches, default, b);
        let i = order[a].branch as int;
        let j = order[b].branch as int;
        if branches[i].name@ == branches[j].name@ {
            if i < j {
                assert(branches[i].name@ != branches[j].name@);
            } else {
                assert(branches[j].name@ != branches[i].name@);
            }
        }
    } else if a < listed.len() {
        assert(roster(data, default)[b] == extras[b - listed.len()]);
        assert(listed.contains(listed[a]));
    } else {
        assert(roster(data, default)[a] == extras[a - listed.len()]);
        assert(roster(data, default)[b] == extras[b - listed.len()]);
    }
}

/// Slots follow the roster: the branch at place `k` of the roster has the
/// slot `k + 1`, so that the listed branches have the slots 1, 2, ... in
/// traversal order, no two branches share a slot, and no branch but the
/// default branch has the slot 0.
pub proof fn lemma_slots_follow_roster(data: &CollectedData, default: Seq<char>, k: int)
    requires
        0 <= k < roster(data, default).len(),
    ensures
        slot_of(data, default, roster(data, default)[k]) == k + 1,
{
    let names = roster(data, default);
    let name = names[k];
    assert(is_first_at(names, name, k)) by {
        assert forall|j: int| 0 <= j < k implies (#[trigger] names[j]) != name by {
            lemma_roster_names_differ(data, default, j, k);
        }
    }
    assert(names.contains(name));
    let w = choose|w: int| is_first_at(names, name, w);
    lemma_first_at_unique(names, name, w, k);
}

/// The default branch has the slot 0, and every commit on another branch
/// has a slot of 1 or more: the place of its branch in the roster.
pub proof fn lemma_slot_of_commit(layout: &NetworkLayout, data: &CollectedData, i: int)
    requires
        0 <= i < data.commits@.len(),
    ensures
        slot_of(data, layout.default_branch@, layout.default_branch@) == 0,
        data.commits@[i].branch@ != layout.default_branch@ ==> {
            let slot = slot_of(data, layout.default_branch@, data.commits@[i].branch@);
            &&& 1 <= slot <= roster(data, layout.default_branch@).len()
            &&& roster(data, layout.default_branch@)[slot - 1] == data.commits@[i].branch@
        },
{
    let d = layout.default_branch@;
    let names = roster(data, d);
    let listed = listed_names(data.branches@, d);
    if names.contains(d) {
        let w = choose|w: int| 0 <= w < names.len() && names[w] == d;
        layout.lemma_roster_skips_default(data, w);
    }
    let b = data.commits@[i].branch@;
    if b != d {
        let extras = extra_names(data.commits@, d, listed, data.commits@.len());
        lemma_extra_names_cover(data.commits@, d, listed, data.commits@.len(), i);
        let place = if listed.contains(b) {
            choose|w: int| 0 <= w < listed.len() && listed[w] == b
        } else {
            listed.len() + choose|w: int| 0 <= w < extras.len() && extras[w] == b
        };
        assert(names[place] == b);
        lemma_slots_follow_roster(data, d, place);
    }
}

/// Commits stand from left to right in the order of their indices, the
/// first on the left margin and the last on the right margin.
pub proof fn lemma_x_ordered(layout: &NetworkLayout, i: nat, j: nat, total: nat)
    requires
        0 <= layout.usable(),
        i <= j,
    ensures
        layout.x_at(i, total) <= layout.x_at(j, total),
        total > 1 ==> layout.x_at(0, total) == layout.margin_left,
        total > 1 ==> layout.x_at((total - 1) as nat, total) == layout.width * ONE
            - layout.margin_right,
{
    let u = layout.usable();
    if total > 1 {
        let d = total - 1;
        assert((i * u) / d <= (j * u) / d) by (nonlinear_arith)
            requires
                0 <= u,
                i <= j,
                d > 0,
        ;
        assert((0 * u) / d == 0) by (nonlinear_arith)
            requires
                d > 0,
        ;
        assert((d * u) / d == u) by (nonlinear_arith)
            requires
                d > 0,
        ;
    }
}

} // verus!
