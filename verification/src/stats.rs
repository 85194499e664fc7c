//! The metrics window: one snapshot of the code inventory per revealed commit.
//!
//! The snapshot after `upto` commits describes the branches that have a
//! commit among them, are not the default branch and have not been merged by
//! one of them. Times are in seconds.

use vstd::prelude::*;
use crate::data::{commits_on, files_on, lines_on, CollectedData, Commit, Merge};
use crate::names::{position_of, same_name};

verus! {

/// A branch without a commit for more than this many seconds is stale, and a
/// merge older than this no longer counts as recent: 30 days.
pub const WINDOW: i64 = 2592000;

/// Seconds in a day.
pub const DAY: u128 = 86400;

/// The code inventory right after a commit has been revealed.
#[derive(Clone, Copy, Debug, PartialEq, Eq)]
pub struct FrameStats {
    /// Commits on unmerged branches.
    pub unmerged_commits: u64,
    /// Unmerged branches with a commit in the last 30 days.
    pub active_branches: u64,
    /// Unmerged branches without one.
    pub stale_branches: u64,
    /// Lines touched on unmerged branches.
    pub unmerged_lines: u128,
    /// Files changed on unmerged branches.
    pub unmerged_files: u128,
    /// Unmerged lines weighted by the days since their branch began, in
    /// line-days; `u128::MAX` where the sum is larger.
    pub integration_debt: u128,
    /// Seconds since the last tagged commit on the default branch, or since
    /// the first commit where there is none.
    pub seconds_since_release: i128,
    /// Commits on the default branch since its last tagged commit.
    pub awaiting_release: u64,
    /// Seconds since the first commit of the oldest unmerged branch.
    pub oldest_unmerged_seconds: u64,
    /// Merge commits of the last 30 days.
    pub merge_throughput: u64,
}

impl Default for FrameStats {
    /// The inventory of a history in which nothing has happened yet.
    fn default() -> (stats: FrameStats)
        ensures
            stats == (FrameStats {
                unmerged_commits: 0,
                active_branches: 0,
                stale_branches: 0,
                unmerged_lines: 0,
                unmerged_files: 0,
                integration_debt: 0,
                seconds_since_release: 0,
                awaiting_release: 0,
                oldest_unmerged_seconds: 0,
                merge_throughput: 0,
            }),
    {
        FrameStats {
            unmerged_commits: 0,
            active_branches: 0,
            stale_branches: 0,
            unmerged_lines: 0,
            unmerged_files: 0,
            integration_debt: 0,
            seconds_since_release: 0,
            awaiting_release: 0,
            oldest_unmerged_seconds: 0,
            merge_throughput: 0,
        }
    }
}

/// What a snapshot adds up over the unmerged branches.
#[derive(Clone, Copy, Debug, PartialEq, Eq, Structural)]
pub enum Metric {
    Commits,
    Lines,
    Files,
    Debt,
    Active,
    Stale,
}

/// Whether one of the first `upto` commits is on the branch `name`.
pub open spec fn seen_before(commits: Seq<Commit>, name: Seq<char>, upto: int) -> bool {
    exists|j: int| 0 <= j < upto && j < commits.len() && (#[trigger] commits[j]).branch@ == name
}

/// Whether commit `j` is the first on its branch.
pub open spec fn opens_branch(commits: Seq<Commit>, j: int) -> bool {
    !seen_before(commits, commits[j].branch@, j)
}

/// The commits among the first `upto` that are the first on their branch.
pub open spec fn openers(commits: Seq<Commit>, upto: nat) -> Seq<int>
    decreases upto,
{
    if upto == 0 {
        Seq::empty()
    } else {
        let rest = openers(commits, (upto - 1) as nat);
        if opens_branch(commits, upto - 1) {
            rest.push(upto - 1)
        } else {
            rest
        }
    }
}

/// Whether a merge made by the commit `sha` has the branch `name` as source.
pub open spec fn sha_merges(merges: Seq<Merge>, sha: Seq<char>, name: Seq<char>) -> bool {
    exists|m: int|
        0 <= m < merges.len() && (#[trigger] merges[m]).sha@ == sha && merges[m].from_branch@
            == name
}

/// Whether any merge was made by the commit `sha`.
pub open spec fn is_merge_sha(merges: Seq<Merge>, sha: Seq<char>) -> bool {
    exists|m: int| 0 <= m < merges.len() && (#[trigger] merges[m]).sha@ == sha
}

/// A branch is merged after `upto` commits if one of them made a merge with
/// the branch as source, at a time when the branch had a commit already.
pub open spec fn merged_by(
    commits: Seq<Commit>,
    merges: Seq<Merge>,
    name: Seq<char>,
    upto: nat,
) -> bool {
    exists|j: int|
        0 <= j < upto && j < commits.len() && sha_merges(
            merges,
            (#[trigger] commits[j]).sha@,
            name,
        ) && seen_before(commits, name, j + 1)
}

/// The timestamp of the last of the first `upto` commits that is on the
/// branch `name`; 0 where there is none.
pub open spec fn last_time_on(commits: Seq<Commit>, name: Seq<char>, upto: nat) -> i64
    decreases upto,
{
    if upto == 0 {
        0
    } else if commits[upto - 1].branch@ == name {
        commits[upto - 1].timestamp
    } else {
        last_time_on(commits, name, (upto - 1) as nat)
    }
}

/// Whether the branch that commit `j` opens counts into the snapshot after
/// `upto` commits.
pub open spec fn counts_as_unmerged(
    commits: Seq<Commit>,
    merges: Seq<Merge>,
    default: Seq<char>,
    upto: nat,
    j: int,
) -> bool {
    commits[j].branch@ != default && !merged_by(commits, merges, commits[j].branch@, upto)
}

/// The debt of `lines` lines that are `age` seconds old, in line-days.
pub open spec fn debt_of(lines: nat, age: int) -> nat {
    if age <= 0 {
        0
    } else {
        ((lines * age) / 86400) as nat
    }
}

/// What the branch that commit `j` opens adds to `metric` after `upto` commits.
pub open spec fn weight(commits: Seq<Commit>, upto: nat, j: int, metric: Metric) -> nat {
    let b = commits[j].branch@;
    let now = commits[upto - 1].timestamp;
    match metric {
        Metric::Commits => commits_on(commits, b, upto),
        Metric::Lines => lines_on(commits, b, upto),
        Metric::Files => files_on(commits, b, upto),
        Metric::Debt => debt_of(lines_on(commits, b, upto), now - commits[j].timestamp),
        Metric::Active => if now - last_time_on(commits, b, upto) <= WINDOW {
            1
        } else {
            0
        },
        Metric::Stale => if now - last_time_on(commits, b, upto) > WINDOW {
            1
        } else {
            0
        },
    }
}

/// The sum of `metric` over the unmerged ones of the first `k` branches,
/// branches taken in the order of their first commit.
pub open spec fn open_total(
    commits: Seq<Commit>,
    merges: Seq<Merge>,
    default: Seq<char>,
    upto: nat,
    k: nat,
    metric: Metric,
) -> nat
    decreases k,
{
    if k == 0 {
        0
    } else {
        let j = openers(commits, upto)[k - 1];
        open_total(commits, merges, default, upto, (k - 1) as nat, metric) + if counts_as_unmerged(
            commits,
            merges,
            default,
            upto,
            j,
        ) {
            weight(commits, upto, j, metric)
        } else {
            0
        }
    }
}

/// The largest age in seconds among the unmerged ones of the first `k`
/// branches; 0 where there is none, or none with a positive age.
pub open spec fn open_oldest(
    commits: Seq<Commit>,
    merges: Seq<Merge>,
    default: Seq<char>,
    upto: nat,
    k: nat,
) -> int
    decreases k,
{
    if k == 0 {
        0
    } else {
        let j = openers(commits, upto)[k - 1];
        let rest = open_oldest(commits, merges, default, upto, (k - 1) as nat);
        let age = commits[upto - 1].timestamp - commits[j].timestamp;
        if counts_as_unmerged(commits, merges, default, upto, j) && age > rest {
            age
        } else {
            rest
        }
    }
}

/// The timestamp of the last tagged commit on the default branch among the
/// first `upto` commits.
pub open spec fn release_time(commits: Seq<Commit>, default: Seq<char>, upto: nat) -> Option<i64>
    decreases upto,
{
    if upto == 0 {
        None
    } else {
        let c = commits[upto - 1];
        if c.branch@ == default && c.tags@.len() > 0 {
            Some(c.timestamp)
        } else {
            release_time(commits, default, (upto - 1) as nat)
        }
    }
}

/// How many commits the default branch has had since its last tagged one.
pub open spec fn awaiting(commits: Seq<Commit>, default: Seq<char>, upto: nat) -> nat
    decreases upto,
{
    if upto == 0 {
        0
    } else {
        let c = commits[upto - 1];
        if c.branch@ != default {
            awaiting(commits, default, (upto - 1) as nat)
        } else if c.tags@.len() > 0 {
            0
        } else {
            awaiting(commits, default, (upto - 1) as nat) + 1
        }
    }
}

/// The timestamps of the merge commits among the first `upto` commits.
pub open spec fn merge_stamps(commits: Seq<Commit>, merges: Seq<Merge>, upto: nat) -> Seq<i64>
    decreases upto,
{
    if upto == 0 {
        Seq::empty()
    } else {
        let rest = merge_stamps(commits, merges, (upto - 1) as nat);
        if is_merge_sha(merges, commits[upto - 1].sha@) {
            rest.push(commits[upto - 1].timestamp)
        } else {
            rest
        }
    }
}

/// How many of the first `k` timestamps lie at most 30 days before `now`.
pub open spec fn count_within(stamps: Seq<i64>, now: int, k: nat) -> nat
    decreases k,
{
    if k == 0 {
        0
    } else {
        count_within(stamps, now, (k - 1) as nat) + if now - stamps[k - 1] <= WINDOW {
            1nat
        } else {
            0nat
        }
    }
}

pub open spec fn clamp128(n: nat) -> u128 {
    if n > u128::MAX {
        u128::MAX
    } else {
        n as u128
    }
}

/// `stats` is the snapshot after the first `upto` commits.
pub open spec fn is_snapshot(
    stats: FrameStats,
    commits: Seq<Commit>,
    merges: Seq<Merge>,
    default: Seq<char>,
    upto: nat,
) -> bool {
    let k = openers(commits, upto).len();
    let now = commits[upto - 1].timestamp;
    &&& stats.unmerged_commits == open_total(commits, merges, default, upto, k, Metric::Commits)
    &&& stats.unmerged_lines == open_total(commits, merges, default, upto, k, Metric::Lines)
    &&& stats.unmerged_files == open_total(commits, merges, default, upto, k, Metric::Files)
    &&& stats.integration_debt == clamp128(
        open_total(commits, merges, default, upto, k, Metric::Debt),
    )
    &&& stats.active_branches == open_total(commits, merges, default, upto, k, Metric::Active)
    &&& stats.stale_branches == open_total(commits, merges, default, upto, k, Metric::Stale)
    &&& stats.oldest_unmerged_seconds == open_oldest(commits, merges, default, upto, k)
    &&& stats.seconds_since_release == now - match release_time(commits, default, upto) {
        Some(t) => t,
        None => commits[0].timestamp,
    }
    &&& stats.awaiting_release == awaiting(commits, default, upto)
    &&& stats.merge_throughput == count_within(
        merge_stamps(commits, merges, upto),
        now as int,
        merge_stamps(commits, merges, upto).len(),
    )
}

/// What the window keeps of one branch.
#[derive(Clone, Copy)]
struct Counters {
    first: usize,
    commits: u64,
    lines: u128,
    files: u128,
    first_time: i64,
    last_time: i64,
    merged: bool,
}

/// The state of the pass: one name and one set of counters per branch seen,
/// in the order of their first commit.
struct Window {
    names: Vec<String>,
    counters: Vec<Counters>,
    merge_times: Vec<i64>,
    release: Option<i64>,
    awaiting: u64,
}

spec fn field(c: Counters, metric: Metric) -> nat {
    match metric {
        Metric::Commits => c.commits as nat,
        Metric::Lines => c.lines as nat,
        Metric::Files => c.files as nat,
        _ => 0,
    }
}

spec fn sum_upto(cs: Seq<Counters>, k: nat, metric: Metric) -> nat
    decreases k,
{
    if k == 0 {
        0
    } else {
        sum_upto(cs, (k - 1) as nat, metric) + field(cs[k - 1], metric)
    }
}

proof fn lemma_sum_update(cs: Seq<Counters>, s: int, new: Counters, k: nat, metric: Metric)
    requires
        0 <= s < cs.len(),
        k <= cs.len(),
    ensures
        sum_upto(cs.update(s, new), k, metric) == sum_upto(cs, k, metric) + if s < k {
            field(new, metric) - field(cs[s], metric)
        } else {
            0
        },
    decreases k,
{
    if k > 0 {
        lemma_sum_update(cs, s, new, (k - 1) as nat, metric);
    }
}

proof fn lemma_sum_push_prefix(cs: Seq<Counters>, new: Counters, k: nat, metric: Metric)
    requires
        k <= cs.len(),
    ensures
        sum_upto(cs.push(new), k, metric) == sum_upto(cs, k, metric),
    decreases k,
{
    if k > 0 {
        lemma_sum_push_prefix(cs, new, (k - 1) as nat, metric);
    }
}

proof fn lemma_sum_push(cs: Seq<Counters>, new: Counters, metric: Metric)
    ensures
        sum_upto(cs.push(new), cs.len() + 1, metric) == sum_upto(cs, cs.len(), metric) + field(
            new,
            metric,
        ),
{
    lemma_sum_push_prefix(cs, new, cs.len(), metric);
    assert(cs.push(new)[cs.len() as int] == new);
}

proof fn lemma_sum_monotone(cs: Seq<Counters>, k: nat, n: nat, metric: Metric)
    requires
        k <= n <= cs.len(),
    ensures
        sum_upto(cs, k, metric) <= sum_upto(cs, n, metric),
    decreases n,
{
    if k < n {
        lemma_sum_monotone(cs, k, (n - 1) as nat, metric);
    }
}

proof fn lemma_sum_same(a: Seq<Counters>, b: Seq<Counters>, k: nat, metric: Metric)
    requires
        k <= a.len(),
        a.len() == b.len(),
        forall|i: int|
            0 <= i < a.len() ==> field(#[trigger] a[i], metric) == field(b[i], metric),
    ensures
        sum_upto(a, k, metric) == sum_upto(b, k, metric),
    decreases k,
{
    if k > 0 {
        lemma_sum_same(a, b, (k - 1) as nat, metric);
    }
}

/// The debt of `lines` lines that are `age` seconds old, capped.
fn debt_term(lines: u128, age: i128) -> (debt: u128)
    requires
        age <= 0xffff_ffff_ffff_ffff,
    ensures
        debt == clamp128(debt_of(lines as nat, age as int)),
{
    if age <= 0 {
        return 0;
    }
    let a: u128 = age as u128;
    let q: u128 = lines / DAY;
    let r: u128 = lines % DAY;
    proof {
        let (l, ai, qi, ri) = (lines as int, a as int, q as int, r as int);
        assert(l == qi * 86400 + ri);
        assert((l * ai) / 86400 == qi * ai + (ri * ai) / 86400) by (nonlinear_arith)
            requires
                l == qi * 86400 + ri,
                0 <= ri < 86400,
                0 <= ai,
                0 <= qi,
        ;
        assert(0 <= ri * ai <= 86400 * 0xffff_ffff_ffff_ffff) by (nonlinear_arith)
            requires
                0 <= ri < 86400,
                0 <= ai <= 0xffff_ffff_ffff_ffff,
        ;
        assert(0 <= (ri * ai) / 86400);
    }
    let part: u128 = (r * a) / DAY;
    match q.checked_mul(a) {
        Some(whole) => match whole.checked_add(part) {
            Some(debt) => debt,
            None => u128::MAX,
        },
        None => u128::MAX,
    }
}

/// Marks the branches that the merges made by the commit `sha` have as
/// source, and tells whether there is such a merge.
fn mark_merged(
    counters: &mut Vec<Counters>,
    names: &Vec<String>,
    merges: &Vec<Merge>,
    sha: &String,
) -> (any: bool)
    requires
        old(counters)@.len() == names@.len(),
        forall|a: int, b: int|
            0 <= a < b < names@.len() ==> (#[trigger] names@[a])@ != (#[trigger] names@[b])@,
    ensures
        any == is_merge_sha(merges@, sha@),
        final(counters)@.len() == old(counters)@.len(),
        forall|k: int|
            0 <= k < names@.len() ==> (#[trigger] final(counters)@[k]) == (Counters {
                merged: old(counters)@[k].merged || sha_merges(merges@, sha@, names@[k]@),
                ..old(counters)@[k]
            }),
{
    let mut any = false;
    let mut m: usize = 0;
    while m < merges.len()
        invariant
            m <= merges@.len(),
            counters@.len() == names@.len(),
            counters@.len() == old(counters)@.len(),
            forall|a: int, b: int|
                0 <= a < b < names@.len() ==> (#[trigger] names@[a])@ != (#[trigger] names@[b])@,
            any == exists|w: int| 0 <= w < m && (#[trigger] merges@[w]).sha@ == sha@,
            forall|k: int|
                0 <= k < names@.len() ==> (#[trigger] counters@[k]) == (Counters {
                    merged: old(counters)@[k].merged || exists|w: int|
                        0 <= w < m && (#[trigger] merges@[w]).sha@ == sha@
                            && merges@[w].from_branch@ == names@[k]@,
                    ..old(counters)@[k]
                }),
        decreases merges@.len() - m,
    {
        let ghost before = counters@;
        if same_name(&merges[m].sha, sha) {
            any = true;
            match position_of(names, &merges[m].from_branch) {
                Some(t) => {
                    let c = counters[t];
                    counters.set(t, Counters { merged: true, ..c });
                },
                None => {},
            }
        }
        proof {
            assert forall|k: int| 0 <= k < names@.len() implies (#[trigger] counters@[k])
                == (Counters {
                merged: old(counters)@[k].merged || exists|w: int|
                    0 <= w < m + 1 && (#[trigger] merges@[w]).sha@ == sha@
                        && merges@[w].from_branch@ == names@[k]@,
                ..old(counters)@[k]
            }) by {
                let was = exists|w: int|
                    0 <= w < m && (#[trigger] merges@[w]).sha@ == sha@ && merges@[w].from_branch@
                        == names@[k]@;
                let now = exists|w: int|
                    0 <= w < m + 1 && (#[trigger] merges@[w]).sha@ == sha@
                        && merges@[w].from_branch@ == names@[k]@;
                let hit = merges@[m as int].sha@ == sha@ && merges@[m as int].from_branch@
                    == names@[k]@;
                assert(before[k].merged == (old(counters)@[k].merged || was));
                if was {
                    let w = choose|w: int|
                        0 <= w < m && (#[trigger] merges@[w]).sha@ == sha@
                            && merges@[w].from_branch@ == names@[k]@;
                    assert(0 <= w < m + 1 && merges@[w].sha@ == sha@);
                }
                if hit {
                    assert(now);
                }
                if now && !was {
                    let w = choose|w: int|
                        0 <= w < m + 1 && (#[trigger] merges@[w]).sha@ == sha@
                            && merges@[w].from_branch@ == names@[k]@;
                    assert(w == m);
                }
                assert(now == (was || hit));
            }
        }
        m += 1;
    }
    any
}

impl Window {
    spec fn tracks_branch(
        &self,
        commits: Seq<Commit>,
        merges: Seq<Merge>,
        upto: nat,
        k: int,
    ) -> bool {
        let c = self.counters@[k];
        let name = self.names@[k]@;
        let j = openers(commits, upto)[k];
        &&& c.first == j
        &&& 0 <= j < upto
        &&& commits[j].branch@ == name
        &&& c.commits == commits_on(commits, name, upto)
        &&& c.lines == lines_on(commits, name, upto)
        &&& c.files == files_on(commits, name, upto)
        &&& c.first_time == commits[j].timestamp
        &&& c.last_time == last_time_on(commits, name, upto)
        &&& c.merged == merged_by(commits, merges, name, upto)
    }

    spec fn tracks(
        &self,
        commits: Seq<Commit>,
        merges: Seq<Merge>,
        default: Seq<char>,
        upto: nat,
    ) -> bool {
        let o = openers(commits, upto);
        &&& upto <= commits.len()
        &&& self.names@.len() == o.len()
        &&& self.counters@.len() == o.len()
        &&& forall|k: int| 0 <= k < o.len() ==> self.tracks_branch(commits, merges, upto, k)
        &&& forall|a: int, b: int|
            0 <= a < b < self.names@.len() ==> (#[trigger] self.names@[a])@
                != (#[trigger] self.names@[b])@
        &&& forall|j: int|
            0 <= j < upto ==> exists|k: int|
                0 <= k < self.names@.len() && (#[trigger] self.names@[k])@
                    == (#[trigger] commits[j]).branch@
        &&& sum_upto(self.counters@, self.counters@.len(), Metric::Commits) <= upto
        &&& sum_upto(self.counters@, self.counters@.len(), Metric::Lines) <= upto * 0x2_0000_0000
        &&& sum_upto(self.counters@, self.counters@.len(), Metric::Files) <= upto * 0x1_0000_0000
        &&& self.merge_times@ == merge_stamps(commits, merges, upto)
        &&& self.release == release_time(commits, default, upto)
        &&& self.awaiting == awaiting(commits, default, upto)
        &&& self.awaiting <= upto
    }

    fn new() -> (window: Window)
        ensures
            forall|commits: Seq<Commit>, merges: Seq<Merge>, default: Seq<char>|
                window.tracks(commits, merges, default, 0),
    {
        Window {
            names: Vec::new(),
            counters: Vec::new(),
            merge_times: Vec::new(),
            release: None,
            awaiting: 0,
        }
    }
}

/// A branch without a commit among the first `upto` has gathered nothing.
proof fn lemma_unseen_is_empty(commits: Seq<Commit>, name: Seq<char>, upto: nat)
    requires
        upto <= commits.len(),
        !seen_before(commits, name, upto as int),
    ensures
        commits_on(commits, name, upto) == 0,
        lines_on(commits, name, upto) == 0,
        files_on(commits, name, upto) == 0,
    decreases upto,
{
    if upto > 0 {
        assert(commits[upto - 1].branch@ != name);
        assert(!seen_before(commits, name, upto - 1)) by {
            if seen_before(commits, name, upto - 1) {
                let j = choose|j: int|
                    0 <= j < upto - 1 && j < commits.len() && (#[trigger] commits[j]).branch@
                        == name;
                assert(0 <= j < upto && commits[j].branch@ == name);
            }
        }
        lemma_unseen_is_empty(commits, name, (upto - 1) as nat);
    }
}

/// What revealing commit `i` changes about a branch being merged.
proof fn lemma_merged_step(commits: Seq<Commit>, merges: Seq<Merge>, name: Seq<char>, i: int)
    requires
        0 <= i < commits.len(),
    ensures
        merged_by(commits, merges, name, (i + 1) as nat) == (merged_by(
            commits,
            merges,
            name,
            i as nat,
        ) || (sha_merges(merges, commits[i].sha@, name) && seen_before(commits, name, i + 1))),
{
    let step = sha_merges(merges, commits[i].sha@, name) && seen_before(commits, name, i + 1);
    if merged_by(commits, merges, name, i as nat) {
        let j = choose|j: int|
            0 <= j < i && j < commits.len() && sha_merges(
                merges,
                (#[trigger] commits[j]).sha@,
                name,
            ) && seen_before(commits, name, j + 1);
        assert(0 <= j < i + 1 && sha_merges(merges, commits[j].sha@, name));
    }
    if step {
        assert(0 <= i < i + 1 && sha_merges(merges, commits[i].sha@, name));
    }
    if merged_by(commits, merges, name, (i + 1) as nat) {
        let j = choose|j: int|
            0 <= j < i + 1 && j < commits.len() && sha_merges(
                merges,
                (#[trigger] commits[j]).sha@,
                name,
            ) && seen_before(commits, name, j + 1);
        if j < i {
            assert(merged_by(commits, merges, name, i as nat));
        }
    }
}

impl Window {
    /// Reveals commit `i`.
    fn advance(&mut self, commits: &Vec<Commit>, merges: &Vec<Merge>, default: &String, i: usize)
        requires
            i < commits@.len(),
            old(self).tracks(commits@, merges@, default@, i as nat),
        ensures
            final(self).tracks(commits@, merges@, default@, (i + 1) as nat),
    {
        let c = &commits[i];
        let now: i64 = c.timestamp;
        let ghost b = c.branch@;
        let ghost o = openers(commits@, i as nat);
        let ghost o2 = openers(commits@, (i + 1) as nat);
        let ghost names0 = self.names@;
        let ghost counters0 = self.counters@;
        let ghost w0 = *self;
        let found = position_of(&self.names, &c.branch);
        proof {
            if found is None {
                if seen_before(commits@, b, i as int) {
                    let j = choose|j: int|
                        0 <= j < i && j < commits@.len() && (#[trigger] commits@[j]).branch@ == b;
                    let k = choose|k: int|
                        0 <= k < names0.len() && (#[trigger] names0[k])@ == commits@[j].branch@;
                    assert(false);
                }
                lemma_unseen_is_empty(commits@, b, i as nat);
                assert(!merged_by(commits@, merges@, b, i as nat)) by {
                    if merged_by(commits@, merges@, b, i as nat) {
                        let j = choose|j: int|
                            0 <= j < i && j < commits@.len() && sha_merges(
                                merges@,
                                (#[trigger] commits@[j]).sha@,
                                b,
                            ) && seen_before(commits@, b, j + 1);
                        let w = choose|w: int|
                            0 <= w < j + 1 && w < commits@.len() && (#[trigger] commits@[w]).branch@
                                == b;
                        assert(0 <= w < i && commits@[w].branch@ == b);
                    }
                }
            } else {
                let s = found->0 as int;
                assert(w0.tracks_branch(commits@, merges@, i as nat, s));
                assert(0 <= o[s] < i && commits@[o[s]].branch@ == b);
            }
            assert(o2 == if found is None {
                o.push(i as int)
            } else {
                o
            });
        }
        let s: usize = match found {
            Some(s) => s,
            None => {
                self.names.push(c.branch.clone());
                self.counters.push(
                    Counters {
                        first: i,
                        commits: 0,
                        lines: 0,
                        files: 0,
                        first_time: now,
                        last_time: now,
                        merged: false,
                    },
                );
                proof {
                    lemma_sum_push(counters0, self.counters@[counters0.len() as int], Metric::Commits);
                    lemma_sum_push(counters0, self.counters@[counters0.len() as int], Metric::Lines);
                    lemma_sum_push(counters0, self.counters@[counters0.len() as int], Metric::Files);
                    assert(self.counters@ == counters0.push(self.counters@[counters0.len() as int]));
                }
                self.names.len() - 1
            },
        };
        let ghost names1 = self.names@;
        let ghost counters1 = self.counters@;
        assert(names1.len() == o2.len() && counters1.len() == o2.len());
        assert(names1[s as int]@ == b);
        let old_c = self.counters[s];
        proof {
            assert(commits@.len() == commits.len());
            lemma_sum_monotone(counters1, (s + 1) as nat, counters1.len(), Metric::Commits);
            lemma_sum_monotone(counters1, (s + 1) as nat, counters1.len(), Metric::Lines);
            lemma_sum_monotone(counters1, (s + 1) as nat, counters1.len(), Metric::Files);
            assert(i * 0x2_0000_0000 <= 0xffff_ffff_ffff_ffff * 0x2_0000_0000) by (nonlinear_arith)
                requires
                    i <= 0xffff_ffff_ffff_ffff,
            ;
            assert(i * 0x1_0000_0000 <= 0xffff_ffff_ffff_ffff * 0x1_0000_0000) by (nonlinear_arith)
                requires
                    i <= 0xffff_ffff_ffff_ffff,
            ;
        }
        let new_c = Counters {
            commits: old_c.commits + 1,
            lines: old_c.lines + c.lines() as u128,
            files: old_c.files + c.files_changed as u128,
            last_time: now,
            ..old_c
        };
        self.counters.set(s, new_c);
        let ghost counters2 = self.counters@;
        proof {
            lemma_sum_update(counters1, s as int, new_c, counters1.len(), Metric::Commits);
            lemma_sum_update(counters1, s as int, new_c, counters1.len(), Metric::Lines);
            lemma_sum_update(counters1, s as int, new_c, counters1.len(), Metric::Files);
            assert(counters2 == counters1.update(s as int, new_c));
        }
        let is_merge = mark_merged(&mut self.counters, &self.names, merges, &c.sha);
        let ghost counters3 = self.counters@;
        proof {
            lemma_sum_same(counters3, counters2, counters2.len(), Metric::Commits);
            lemma_sum_same(counters3, counters2, counters2.len(), Metric::Lines);
            lemma_sum_same(counters3, counters2, counters2.len(), Metric::Files);
        }
        if is_merge {
            self.merge_times.push(now);
        }
        if same_name(&c.branch, default) {
            if c.tags.len() > 0 {
                self.release = Some(now);
                self.awaiting = 0;
            } else {
                self.awaiting = self.awaiting + 1;
            }
        }
        proof {
            let up = (i + 1) as nat;
            assert forall|j: int| 0 <= j < up implies exists|k: int|
                0 <= k < self.names@.len() && (#[trigger] self.names@[k])@
                    == (#[trigger] commits@[j]).branch@ by {
                if j < i {
                    let k = choose|k: int|
                        0 <= k < names0.len() && (#[trigger] names0[k])@ == commits@[j].branch@;
                    assert(self.names@[k]@ == commits@[j].branch@);
                } else {
                    assert(self.names@[s as int]@ == commits@[j].branch@);
                }
            }
            assert forall|k: int| 0 <= k < o2.len() implies self.tracks_branch(
                commits@,
                merges@,
                up,
                k,
            ) by {
                let name = self.names@[k]@;
                lemma_merged_step(commits@, merges@, name, i as int);
                if k < o.len() {
                    assert(w0.tracks_branch(commits@, merges@, i as nat, k));
                    assert(names0[k] == self.names@[k]);
                }
                assert(0 <= o2[k] < up && commits@[o2[k]].branch@ == name);
                assert(seen_before(commits@, name, i + 1));
                if k != s {
                    assert(name != b);
                    assert(counters2[k] == counters1[k]);
                }
            }
        }
    }

    /// The snapshot after the first `upto` commits.
    fn snapshot(
        &self,
        commits: &Vec<Commit>,
        merges: &Vec<Merge>,
        default: &String,
        upto: usize,
    ) -> (stats: FrameStats)
        requires
            1 <= upto,
            self.tracks(commits@, merges@, default@, upto as nat),
        ensures
            is_snapshot(stats, commits@, merges@, default@, upto as nat),
    {
        let now: i128 = commits[upto - 1].timestamp as i128;
        let ghost up = upto as nat;
        let ghost o = openers(commits@, up);
        let mut unmerged_commits: u64 = 0;
        let mut unmerged_lines: u128 = 0;
        let mut unmerged_files: u128 = 0;
        let mut debt: u128 = 0;
        let mut active: u64 = 0;
        let mut stale: u64 = 0;
        let mut oldest: u64 = 0;
        let mut k: usize = 0;
        proof {
            assert(upto * 0x2_0000_0000 <= 0xffff_ffff_ffff_ffff * 0x2_0000_0000)
                by (nonlinear_arith)
                requires
                    upto <= 0xffff_ffff_ffff_ffff,
            ;
            assert(upto * 0x1_0000_0000 <= 0xffff_ffff_ffff_ffff * 0x1_0000_0000)
                by (nonlinear_arith)
                requires
                    upto <= 0xffff_ffff_ffff_ffff,
            ;
        }
        while k < self.counters.len()
            invariant
                k <= self.counters@.len(),
                1 <= upto,
                up == upto,
                o == openers(commits@, up),
                now == commits@[upto - 1].timestamp,
                self.tracks(commits@, merges@, default@, up),
                upto * 0x2_0000_0000 <= 0xffff_ffff_ffff_ffff * 0x2_0000_0000,
                upto * 0x1_0000_0000 <= 0xffff_ffff_ffff_ffff * 0x1_0000_0000,
                unmerged_commits == open_total(commits@, merges@, default@, up, k as nat, Metric::Commits),
                unmerged_lines == open_total(commits@, merges@, default@, up, k as nat, Metric::Lines),
                unmerged_files == open_total(commits@, merges@, default@, up, k as nat, Metric::Files),
                unmerged_commits <= sum_upto(self.counters@, k as nat, Metric::Commits),
                unmerged_lines <= sum_upto(self.counters@, k as nat, Metric::Lines),
                unmerged_files <= sum_upto(self.counters@, k as nat, Metric::Files),
                debt == clamp128(open_total(commits@, merges@, default@, up, k as nat, Metric::Debt)),
                active == open_total(commits@, merges@, default@, up, k as nat, Metric::Active),
                stale == open_total(commits@, merges@, default@, up, k as nat, Metric::Stale),
                active <= k,
                stale <= k,
                oldest == open_oldest(commits@, merges@, default@, up, k as nat),
            decreases self.counters@.len() - k,
        {
            let c = self.counters[k];
            proof {
                assert(self.tracks_branch(commits@, merges@, up, k as int));
                lemma_sum_monotone(self.counters@, (k + 1) as nat, self.counters@.len(), Metric::Commits);
                lemma_sum_monotone(self.counters@, (k + 1) as nat, self.counters@.len(), Metric::Lines);
                lemma_sum_monotone(self.counters@, (k + 1) as nat, self.counters@.len(), Metric::Files);
            }
            if !same_name(&self.names[k], default) && !c.merged {
                let age: i128 = now - c.first_time as i128;
                let idle: i128 = now - c.last_time as i128;
                unmerged_commits = unmerged_commits + c.commits;
                unmerged_lines = unmerged_lines + c.lines;
                unmerged_files = unmerged_files + c.files;
                debt = debt.saturating_add(debt_term(c.lines, age));
                if idle <= WINDOW as i128 {
                    active = active + 1;
                } else {
                    stale = stale + 1;
                }
                if age > oldest as i128 {
                    oldest = age as u64;
                }
            }
            k += 1;
        }
        let mut recent: u64 = 0;
        let mut m: usize = 0;
        while m < self.merge_times.len()
            invariant
                m <= self.merge_times@.len(),
                -0x8000_0000_0000_0000 <= now <= 0x7fff_ffff_ffff_ffff,
                recent <= m,
                recent == count_within(self.merge_times@, now as int, m as nat),
            decreases self.merge_times@.len() - m,
        {
            if now - self.merge_times[m] as i128 <= WINDOW as i128 {
                recent = recent + 1;
            }
            m += 1;
        }
        let anchor: i128 = match self.release {
            Some(t) => t as i128,
            None => commits[0].timestamp as i128,
        };
        FrameStats {
            unmerged_commits,
            active_branches: active,
            stale_branches: stale,
            unmerged_lines,
            unmerged_files,
            integration_debt: debt,
            seconds_since_release: now - anchor,
            awaiting_release: self.awaiting,
            oldest_unmerged_seconds: oldest,
            merge_throughput: recent,
        }
    }
}

/// One snapshot per commit: entry `i` is the inventory right after commit
/// `i` has been revealed. `default_branch` names the default branch.
pub fn precompute_frame_stats(data: &CollectedData, default_branch: &str) -> (snapshots: Vec<
    FrameStats,
>)
    ensures
        snapshots@.len() == data.commits@.len(),
        forall|i: int|
            0 <= i < snapshots@.len() ==> is_snapshot(
                #[trigger] snapshots@[i],
                data.commits@,
                data.merges@,
                default_branch@,
                (i + 1) as nat,
            ),
{
    let default = default_branch.to_owned();
    let mut window = Window::new();
    let mut snapshots: Vec<FrameStats> = Vec::new();
    let mut i: usize = 0;
    assert(window.tracks(data.commits@, data.merges@, default@, 0));
    while i < data.commits.len()
        invariant
            i <= data.commits@.len(),
            default@ == default_branch@,
            window.tracks(data.commits@, data.merges@, default@, i as nat),
            snapshots@.len() == i,
            forall|j: int|
                0 <= j < i ==> is_snapshot(
                    #[trigger] snapshots@[j],
                    data.commits@,
                    data.merges@,
                    default@,
                    (j + 1) as nat,
                ),
        decreases data.commits@.len() - i,
    {
        window.advance(&data.commits, &data.merges, &default, i);
        let stats = window.snapshot(&data.commits, &data.merges, &default, i + 1);
        snapshots.push(stats);
        i += 1;
    }
    snapshots
}

/// Whether the branch `name` counts as stale after `upto` commits: it is
/// not the default branch, it is not merged, and its last commit is more
/// than 30 days older than the commit revealed last.
pub open spec fn stale_at(
    commits: Seq<Commit>,
    merges: Seq<Merge>,
    default: Seq<char>,
    name: Seq<char>,
    upto: nat,
) -> bool {
    &&& name != default
    &&& !merged_by(commits, merges, name, upto)
    &&& commits[upto - 1].timestamp - last_time_on(commits, name, upto) > WINDOW
}

/// A stale branch is not merged, and the default branch is never stale. The
/// snapshot counts a branch as stale exactly where it is stale.
pub proof fn lemma_stale_is_unmerged(
    commits: Seq<Commit>,
    merges: Seq<Merge>,
    default: Seq<char>,
    upto: nat,
    j: int,
)
    ensures
        stale_at(commits, merges, default, commits[j].branch@, upto) ==> !merged_by(
            commits,
            merges,
            commits[j].branch@,
            upto,
        ),
        !stale_at(commits, merges, default, default, upto),
        (if counts_as_unmerged(commits, merges, default, upto, j) {
            weight(commits, upto, j, Metric::Stale)
        } else {
            0
        }) == (if stale_at(commits, merges, default, commits[j].branch@, upto) {
            1nat
        } else {
            0nat
        }),
{
}

/// `a` and `b` have the same first `n` commits.
pub open spec fn agree(a: Seq<Commit>, b: Seq<Commit>, n: nat) -> bool {
    &&& n <= a.len()
    &&& n <= b.len()
    &&& forall|j: int| 0 <= j < n ==> a[j] == b[j]
}

proof fn lemma_seen_agree(a: Seq<Commit>, b: Seq<Commit>, n: nat, name: Seq<char>, m: int)
    requires
        agree(a, b, n),
        0 <= m <= n,
    ensures
        seen_before(a, name, m) == seen_before(b, name, m),
{
    if seen_before(a, name, m) {
        let j = choose|j: int| 0 <= j < m && j < a.len() && (#[trigger] a[j]).branch@ == name;
        assert(0 <= j < m && j < b.len() && b[j].branch@ == name);
    }
    if seen_before(b, name, m) {
        let j = choose|j: int| 0 <= j < m && j < b.len() && (#[trigger] b[j]).branch@ == name;
        assert(0 <= j < m && j < a.len() && a[j].branch@ == name);
    }
}

proof fn lemma_merged_agree(
    a: Seq<Commit>,
    b: Seq<Commit>,
    n: nat,
    merges: Seq<Merge>,
    name: Seq<char>,
    m: nat,
)
    requires
        agree(a, b, n),
        m <= n,
    ensures
        merged_by(a, merges, name, m) == merged_by(b, merges, name, m),
{
    if merged_by(a, merges, name, m) {
        let j = choose|j: int|
            0 <= j < m && j < a.len() && sha_merges(merges, (#[trigger] a[j]).sha@, name)
                && seen_before(a, name, j + 1);
        lemma_seen_agree(a, b, n, name, j + 1);
        assert(0 <= j < m && j < b.len() && sha_merges(merges, b[j].sha@, name));
    }
    if merged_by(b, merges, name, m) {
        let j = choose|j: int|
            0 <= j < m && j < b.len() && sha_merges(merges, (#[trigger] b[j]).sha@, name)
                && seen_before(b, name, j + 1);
        lemma_seen_agree(a, b, n, name, j + 1);
        assert(0 <= j < m && j < a.len() && sha_merges(merges, a[j].sha@, name));
    }
}

proof fn lemma_branch_agree(a: Seq<Commit>, b: Seq<Commit>, n: nat, name: Seq<char>, m: nat)
    requires
        agree(a, b, n),
        m <= n,
    ensures
        commits_on(a, name, m) == commits_on(b, name, m),
        lines_on(a, name, m) == lines_on(b, name, m),
        files_on(a, name, m) == files_on(b, name, m),
        last_time_on(a, name, m) == last_time_on(b, name, m),
    decreases m,
{
    if m > 0 {
        lemma_branch_agree(a, b, n, name, (m - 1) as nat);
    }
}

proof fn lemma_history_agree(
    a: Seq<Commit>,
    b: Seq<Commit>,
    n: nat,
    merges: Seq<Merge>,
    default: Seq<char>,
    m: nat,
)
    requires
        agree(a, b, n),
        m <= n,
    ensures
        openers(a, m) == openers(b, m),
        release_time(a, default, m) == release_time(b, default, m),
        awaiting(a, default, m) == awaiting(b, default, m),
        merge_stamps(a, merges, m) == merge_stamps(b, merges, m),
        forall|k: int| 0 <= k < openers(a, m).len() ==> 0 <= (#[trigger] openers(a, m)[k]) < m,
    decreases m,
{
    if m > 0 {
        lemma_history_agree(a, b, n, merges, default, (m - 1) as nat);
        lemma_seen_agree(a, b, n, a[m - 1].branch@, m - 1);
    }
}

proof fn lemma_totals_agree(
    a: Seq<Commit>,
    b: Seq<Commit>,
    n: nat,
    merges: Seq<Merge>,
    default: Seq<char>,
    upto: nat,
    k: nat,
    metric: Metric,
)
    requires
        agree(a, b, n),
        1 <= upto <= n,
        k <= openers(a, upto).len(),
    ensures
        open_total(a, merges, default, upto, k, metric) == open_total(
            b,
            merges,
            default,
            upto,
            k,
            metric,
        ),
        open_oldest(a, merges, default, upto, k) == open_oldest(b, merges, default, upto, k),
    decreases k,
{
    lemma_history_agree(a, b, n, merges, default, upto);
    if k > 0 {
        lemma_totals_agree(a, b, n, merges, default, upto, (k - 1) as nat, metric);
        let j = openers(a, upto)[k - 1];
        assert(0 <= j < upto);
        let name = a[j].branch@;
        lemma_branch_agree(a, b, n, name, upto);
        lemma_merged_agree(a, b, n, merges, name, upto);
    }
}

/// A snapshot depends on the revealed commits alone: what is the snapshot
/// after `upto` commits of a history is the snapshot after `upto` commits of
/// every history that begins with the same `upto` commits.
pub proof fn lemma_snapshot_of_prefix(
    stats: FrameStats,
    a: Seq<Commit>,
    b: Seq<Commit>,
    merges: Seq<Merge>,
    default: Seq<char>,
    upto: nat,
)
    requires
        1 <= upto,
        agree(a, b, upto),
    ensures
        is_snapshot(stats, a, merges, default, upto) == is_snapshot(
            stats,
            b,
            merges,
            default,
            upto,
        ),
{
    lemma_history_agree(a, b, upto, merges, default, upto);
    let k = openers(a, upto).len();
    lemma_totals_agree(a, b, upto, merges, default, upto, k, Metric::Commits);
    lemma_totals_agree(a, b, upto, merges, default, upto, k, Metric::Lines);
    lemma_totals_agree(a, b, upto, merges, default, upto, k, Metric::Files);
    lemma_totals_agree(a, b, upto, merges, default, upto, k, Metric::Debt);
    lemma_totals_agree(a, b, upto, merges, default, upto, k, Metric::Active);
    lemma_totals_agree(a, b, upto, merges, default, upto, k, Metric::Stale);
}

/// There is one snapshot after `upto` commits: deriving it again, from the
/// whole history or from the revealed commits alone, gives the same values.
pub proof fn lemma_snapshot_rederived(
    first: FrameStats,
    second: FrameStats,
    commits: Seq<Commit>,
    merges: Seq<Merge>,
    default: Seq<char>,
    upto: nat,
)
    requires
        1 <= upto <= commits.len(),
        is_snapshot(first, commits, merges, default, upto),
        is_snapshot(second, commits.take(upto as int), merges, default, upto),
    ensures
        first == second,
{
    lemma_snapshot_of_prefix(second, commits, commits.take(upto as int), merges, default, upto);
}

} // verus!
