//! What is drawn on top of the positioned commits: merge curves, tag
//! markers and branch labels.

use vstd::prelude::*;
use vstd::string::*;
use crate::data::{CollectedData, Commit, Merge};
use crate::fixed::ONE;
use crate::layout::{NetworkLayout, PositionedCommit};
use crate::names::{position_of, same_name};
use crate::stats::{openers, opens_branch, seen_before};

verus! {

/// A tag name longer than this many characters is shortened.
pub const TAG_LIMIT: usize = 16;

/// A shortened tag name keeps this many characters.
pub const TAG_KEEP: usize = 13;

/// A branch name longer than this many characters is shortened.
pub const LABEL_LIMIT: usize = 24;

/// A shortened branch name keeps this many characters.
pub const LABEL_KEEP: usize = 21;

/// How far above the default branch a tag's label stands.
pub const TAG_LABEL_RISE: i128 = 50 * ONE;

/// The curve of a merge: from the last commit of the source branch to the
/// merge commit, drawn in the manner of the source branch.
#[derive(Clone, Copy, Debug, PartialEq, Eq)]
pub struct PositionedMerge {
    pub from_x: i128,
    pub from_y: i128,
    pub to_x: i128,
    pub to_y: i128,
    pub slot: usize,
    pub has_conflicts: bool,
    pub is_stale: bool,
}

/// The marker of a release tag above the default branch.
#[derive(Clone, Debug)]
pub struct PositionedTag {
    pub x: i128,
    pub main_y: i128,
    pub label_y: i128,
    pub tag_name: String,
}

/// The label of a branch, at the branch's first commit.
#[derive(Clone, Debug)]
pub struct BranchLabel {
    pub name: String,
    pub x: i128,
    pub y: i128,
    pub slot: usize,
    pub has_conflicts: bool,
    pub is_stale: bool,
}

/// The commits that `placed` positions.
pub open spec fn commits_of(placed: Seq<PositionedCommit>) -> Seq<Commit> {
    Seq::new(placed.len(), |i: int| *placed[i].commit)
}

/// The last of the first `upto` commits with the hash `sha`.
pub open spec fn last_with_sha(commits: Seq<Commit>, sha: Seq<char>, upto: nat) -> Option<int>
    decreases upto,
{
    if upto == 0 {
        None
    } else if commits[upto - 1].sha@ == sha {
        Some(upto - 1)
    } else {
        last_with_sha(commits, sha, (upto - 1) as nat)
    }
}

/// The last of the first `upto` commits on the branch `name`.
pub open spec fn last_on_branch(commits: Seq<Commit>, name: Seq<char>, upto: nat) -> Option<int>
    decreases upto,
{
    if upto == 0 {
        None
    } else if commits[upto - 1].branch@ == name {
        Some(upto - 1)
    } else {
        last_on_branch(commits, name, (upto - 1) as nat)
    }
}

/// The two ends of the curve of `merge`: the last commit on the source
/// branch before the merge commit, and the merge commit, which is the last
/// commit with the merge's hash. None where there is no such commit.
pub open spec fn curve_ends(commits: Seq<Commit>, merge: Merge) -> Option<(int, int)> {
    match last_with_sha(commits, merge.sha@, commits.len()) {
        Some(to) => match last_on_branch(commits, merge.from_branch@, to as nat) {
            Some(from) => Some((from, to)),
            None => None,
        },
        None => None,
    }
}

/// The ends of the curves of the first `k` merges, dropped merges left out.
pub open spec fn curves(commits: Seq<Commit>, merges: Seq<Merge>, k: nat) -> Seq<(int, int)>
    decreases k,
{
    if k == 0 {
        Seq::empty()
    } else {
        let rest = curves(commits, merges, (k - 1) as nat);
        match curve_ends(commits, merges[k - 1]) {
            Some(ends) => rest.push(ends),
            None => rest,
        }
    }
}

/// The curve between the positioned commits `from` and `to`.
pub open spec fn curve_between(from: PositionedCommit, to: PositionedCommit) -> PositionedMerge {
    PositionedMerge {
        from_x: from.x,
        from_y: from.y,
        to_x: to.x,
        to_y: to.y,
        slot: from.slot,
        has_conflicts: from.branch_has_conflicts,
        is_stale: from.branch_is_stale,
    }
}

/// `curve` runs between the positioned commits at `ends`, the first of
/// which comes before the second.
pub open spec fn draws_curve(
    placed: Seq<PositionedCommit>,
    ends: (int, int),
    curve: PositionedMerge,
) -> bool {
    &&& 0 <= ends.0 < ends.1 < placed.len()
    &&& curve == curve_between(placed[ends.0], placed[ends.1])
}

/// `label` names the branch of the positioned commit `j` and stands at it.
pub open spec fn labels_branch(placed: Seq<PositionedCommit>, j: int, label: BranchLabel) -> bool {
    &&& 0 <= j < placed.len()
    &&& label.name@ == shortened(placed[j].commit.branch@, LABEL_LIMIT as nat, LABEL_KEEP as nat)
    &&& label.x == placed[j].x
    &&& label.y == placed[j].y
    &&& label.slot == placed[j].slot
    &&& label.has_conflicts == placed[j].branch_has_conflicts
    &&& label.is_stale == placed[j].branch_is_stale
}

/// `text`, or its first `keep` characters and three dots where it has more
/// than `limit` characters.
pub open spec fn shortened(text: Seq<char>, limit: nat, keep: nat) -> Seq<char> {
    if text.len() > limit {
        text.take(keep as int) + "..."@
    } else {
        text
    }
}

/// The name to display for `text`.
pub fn shorten(text: &String, limit: usize, keep: usize) -> (short: String)
    requires
        keep <= limit,
    ensures
        short@ == shortened(text@, limit as nat, keep as nat),
{
    let s = text.as_str();
    if s.unicode_len() > limit {
        let head = s.substring_char(0, keep);
        let mut short = String::from_str(head);
        short.append("...");
        proof {
            assert(text@.subrange(0, keep as int) =~= text@.take(keep as int));
        }
        short
    } else {
        text.clone()
    }
}

/// The `count` tags of commit `i`.
pub open spec fn tags_of_commit(i: int, count: nat) -> Seq<(int, int)> {
    Seq::new(count, |t: int| (i, t))
}

/// The tags of the commits on the default branch among the first `upto`
/// positioned commits: each as the index of its commit and its place among
/// the commit's tags.
pub open spec fn tag_marks(placed: Seq<PositionedCommit>, upto: nat) -> Seq<(int, int)>
    decreases upto,
{
    if upto == 0 {
        Seq::empty()
    } else {
        let rest = tag_marks(placed, (upto - 1) as nat);
        let p = placed[upto - 1];
        if p.is_default_branch {
            rest + tags_of_commit(upto - 1, p.commit.tags@.len())
        } else {
            rest
        }
    }
}

fn last_commit_with_sha(placed: &[PositionedCommit], sha: &String) -> (found: Option<usize>)
    ensures
        match found {
            Some(t) => last_with_sha(commits_of(placed@), sha@, placed@.len()) == Some(t as int)
                && t < placed@.len(),
            None => last_with_sha(commits_of(placed@), sha@, placed@.len()) is None,
        },
{
    let mut j: usize = placed.len();
    while j > 0
        invariant
            j <= placed@.len(),
            last_with_sha(commits_of(placed@), sha@, placed@.len()) == last_with_sha(
                commits_of(placed@),
                sha@,
                j as nat,
            ),
        decreases j,
    {
        if same_name(&placed[j - 1].commit.sha, sha) {
            return Some(j - 1);
        }
        j -= 1;
    }
    None
}

fn last_commit_on_branch(placed: &[PositionedCommit], name: &String, upto: usize) -> (found:
    Option<usize>)
    requires
        upto <= placed@.len(),
    ensures
        match found {
            Some(f) => last_on_branch(commits_of(placed@), name@, upto as nat) == Some(f as int)
                && f < upto,
            None => last_on_branch(commits_of(placed@), name@, upto as nat) is None,
        },
{
    let mut j: usize = upto;
    while j > 0
        invariant
            j <= upto <= placed@.len(),
            last_on_branch(commits_of(placed@), name@, upto as nat) == last_on_branch(
                commits_of(placed@),
                name@,
                j as nat,
            ),
        decreases j,
    {
        if same_name(&placed[j - 1].commit.branch, name) {
            return Some(j - 1);
        }
        j -= 1;
    }
    None
}

impl NetworkLayout {
    /// The curves of the merges, in the order of the merges. A merge whose
    /// hash no commit has, or whose source branch has no commit before the
    /// merge commit, has no curve.
    pub fn position_merges_dynamic(
        &self,
        data: &CollectedData,
        positioned_commits: &[PositionedCommit],
    ) -> (drawn: Vec<PositionedMerge>)
        ensures
            drawn@.len() == curves(
                commits_of(positioned_commits@),
                data.merges@,
                data.merges@.len(),
            ).len(),
            forall|w: int|
                0 <= w < drawn@.len() ==> draws_curve(
                    positioned_commits@,
                    curves(commits_of(positioned_commits@), data.merges@, data.merges@.len())[w],
                    #[trigger] drawn@[w],
                ),
    {
        let merges = &data.merges;
        let ghost commits = commits_of(positioned_commits@);
        let mut drawn: Vec<PositionedMerge> = Vec::new();
        let mut k: usize = 0;
        while k < merges.len()
            invariant
                k <= merges@.len(),
                commits == commits_of(positioned_commits@),
                drawn@.len() == curves(commits, merges@, k as nat).len(),
                forall|w: int|
                    0 <= w < drawn@.len() ==> draws_curve(
                        positioned_commits@,
                        curves(commits, merges@, k as nat)[w],
                        #[trigger] drawn@[w],
                    ),
            decreases merges@.len() - k,
        {
            let m = &merges[k];
            let ghost before = curves(commits, merges@, k as nat);
            let ghost old_drawn = drawn@;
            match last_commit_with_sha(positioned_commits, &m.sha) {
                Some(to) => match last_commit_on_branch(positioned_commits, &m.from_branch, to) {
                    Some(from) => {
                        let a = &positioned_commits[from];
                        let b = &positioned_commits[to];
                        drawn.push(
                            PositionedMerge {
                                from_x: a.x,
                                from_y: a.y,
                                to_x: b.x,
                                to_y: b.y,
                                slot: a.slot,
                                has_conflicts: a.branch_has_conflicts,
                                is_stale: a.branch_is_stale,
                            },
                        );
                    },
                    None => {},
                },
                None => {},
            }
            proof {
                let after = curves(commits, merges@, (k + 1) as nat);
                assert forall|w: int| 0 <= w < drawn@.len() implies draws_curve(
                    positioned_commits@,
                    after[w],
                    #[trigger] drawn@[w],
                ) by {
                    if w < old_drawn.len() {
                        assert(drawn@[w] == old_drawn[w]);
                        assert(after[w] == before[w]);
                    }
                }
            }
            k += 1;
        }
        drawn
    }

    /// `mark` is the marker of tag `at.1` of the positioned commit `at.0`.
    pub open spec fn marks_tag(
        &self,
        placed: Seq<PositionedCommit>,
        at: (int, int),
        mark: PositionedTag,
    ) -> bool {
        &&& 0 <= at.0 < placed.len()
        &&& 0 <= at.1 < placed[at.0].commit.tags@.len()
        &&& mark.x == placed[at.0].x
        &&& mark.main_y == self.main_y
        &&& mark.label_y == self.main_y - TAG_LABEL_RISE
        &&& mark.tag_name@ == shortened(
            placed[at.0].commit.tags@[at.1]@,
            TAG_LIMIT as nat,
            TAG_KEEP as nat,
        )
    }

    /// One marker for every tag of every commit on the default branch, in
    /// the order of the commits and of their tags.
    pub fn position_tags(&self, positioned_commits: &[PositionedCommit]) -> (marks: Vec<
        PositionedTag,
    >)
        requires
            self.wf(),
        ensures
            marks@.len() == tag_marks(positioned_commits@, positioned_commits@.len()).len(),
            forall|w: int|
                0 <= w < marks@.len() ==> self.marks_tag(
                    positioned_commits@,
                    tag_marks(positioned_commits@, positioned_commits@.len())[w],
                    #[trigger] marks@[w],
                ),
    {
        let mut marks: Vec<PositionedTag> = Vec::new();
        let mut i: usize = 0;
        while i < positioned_commits.len()
            invariant
                i <= positioned_commits@.len(),
                self.wf(),
                marks@.len() == tag_marks(positioned_commits@, i as nat).len(),
                forall|w: int|
                    0 <= w < marks@.len() ==> self.marks_tag(
                        positioned_commits@,
                        tag_marks(positioned_commits@, i as nat)[w],
                        #[trigger] marks@[w],
                    ),
            decreases positioned_commits@.len() - i,
        {
            let p = &positioned_commits[i];
            if p.is_default_branch {
                let ghost before = tag_marks(positioned_commits@, i as nat);
                let ghost after = before + tags_of_commit(i as int, p.commit.tags@.len());
                let mut t: usize = 0;
                while t < p.commit.tags.len()
                    invariant
                        t <= p.commit.tags@.len(),
                        i < positioned_commits@.len(),
                        *p == positioned_commits@[i as int],
                        self.wf(),
                        after == before + tags_of_commit(i as int, p.commit.tags@.len()),
                        marks@.len() == before.len() + t,
                        forall|w: int|
                            0 <= w < marks@.len() ==> self.marks_tag(
                                positioned_commits@,
                                after[w],
                                #[trigger] marks@[w],
                            ),
                    decreases p.commit.tags@.len() - t,
                {
                    let ghost old_marks = marks@;
                    marks.push(
                        PositionedTag {
                            x: p.x,
                            main_y: self.main_y,
                            label_y: self.main_y - TAG_LABEL_RISE,
                            tag_name: shorten(&p.commit.tags[t], TAG_LIMIT, TAG_KEEP),
                        },
                    );
                    proof {
                        assert(after[before.len() + t] == (i as int, t as int));
                        assert forall|w: int| 0 <= w < marks@.len() implies self.marks_tag(
                            positioned_commits@,
                            after[w],
                            #[trigger] marks@[w],
                        ) by {
                            if w < old_marks.len() {
                                assert(marks@[w] == old_marks[w]);
                            }
                        }
                    }
                    t += 1;
                }
            }
            i += 1;
        }
        marks
    }

    /// One label for every branch that has a commit, the default branch
    /// included, at the branch's first commit and in the order of these
    /// commits.
    pub fn compute_branch_labels(&self, positioned: &[PositionedCommit]) -> (labels: Vec<
        BranchLabel,
    >)
        ensures
            labels@.len() == openers(commits_of(positioned@), positioned@.len()).len(),
            forall|w: int|
                0 <= w < labels@.len() ==> labels_branch(
                    positioned@,
                    openers(commits_of(positioned@), positioned@.len())[w],
                    #[trigger] labels@[w],
                ),
    {
        let ghost commits = commits_of(positioned@);
        let mut seen: Vec<String> = Vec::new();
        let mut labels: Vec<BranchLabel> = Vec::new();
        let mut i: usize = 0;
        while i < positioned.len()
            invariant
                i <= positioned@.len(),
                commits == commits_of(positioned@),
                forall|j: int|
                    0 <= j < i ==> exists|k: int|
                        0 <= k < seen@.len() && (#[trigger] seen@[k])@
                            == (#[trigger] commits[j]).branch@,
                forall|k: int|
                    0 <= k < seen@.len() ==> seen_before(commits, (#[trigger] seen@[k])@, i as int),
                labels@.len() == openers(commits, i as nat).len(),
                forall|w: int|
                    0 <= w < labels@.len() ==> labels_branch(
                        positioned@,
                        openers(commits, i as nat)[w],
                        #[trigger] labels@[w],
                    ),
            decreases positioned@.len() - i,
        {
            let p = &positioned[i];
            let ghost b = p.commit.branch@;
            let ghost seen0 = seen@;
            let ghost labels0 = labels@;
            let ghost before = openers(commits, i as nat);
            assert(commits[i as int].branch@ == b);
            let known = position_of(&seen, &p.commit.branch).is_some();
            proof {
                if known {
                    let w = choose|w: int| 0 <= w < seen@.len() && (#[trigger] seen@[w])@ == b;
                    assert(seen_before(commits, seen@[w]@, i as int));
                    assert(!opens_branch(commits, i as int));
                } else {
                    assert(forall|w: int| 0 <= w < seen@.len() ==> (#[trigger] seen@[w])@ != b);
                    if seen_before(commits, b, i as int) {
                        let j = choose|j: int|
                            0 <= j < i && j < commits.len() && (#[trigger] commits[j]).branch@ == b;
                        let w = choose|w: int|
                            0 <= w < seen@.len() && (#[trigger] seen@[w])@ == commits[j].branch@;
                        assert(false);
                    }
                    assert(opens_branch(commits, i as int));
                }
            }
            if !known {
                seen.push(p.commit.branch.clone());
                labels.push(
                    BranchLabel {
                        name: shorten(&p.commit.branch, LABEL_LIMIT, LABEL_KEEP),
                        x: p.x,
                        y: p.y,
                        slot: p.slot,
                        has_conflicts: p.branch_has_conflicts,
                        is_stale: p.branch_is_stale,
                    },
                );
            }
            proof {
                let after = openers(commits, (i + 1) as nat);
                assert forall|w: int| 0 <= w < labels@.len() implies labels_branch(
                    positioned@,
                    after[w],
                    #[trigger] labels@[w],
                ) by {
                    if w < labels0.len() {
                        assert(labels@[w] == labels0[w]);
                        assert(after[w] == before[w]);
                    }
                }
                assert forall|j: int| 0 <= j < i + 1 implies exists|k: int|
                    0 <= k < seen@.len() && (#[trigger] seen@[k])@
                        == (#[trigger] commits[j]).branch@ by {
                    if j < i {
                        let w = choose|w: int|
                            0 <= w < seen0.len() && (#[trigger] seen0[w])@ == commits[j].branch@;
                        assert(seen@[w]@ == commits[j].branch@);
                    } else if known {
                        let w = choose|w: int| 0 <= w < seen@.len() && (#[trigger] seen@[w])@ == b;
                        assert(seen@[w]@ == commits[j].branch@);
                    } else {
                        assert(seen@[seen0.len() as int]@ == commits[j].branch@);
                    }
                }
                assert forall|k: int| 0 <= k < seen@.len() implies seen_before(
                    commits,
                    (#[trigger] seen@[k])@,
                    i + 1,
                ) by {
                    if k < seen0.len() {
                        assert(seen_before(commits, seen0[k]@, i as int));
                        let j = choose|j: int|
                            0 <= j < i && j < commits.len() && (#[trigger] commits[j]).branch@
                                == seen0[k]@;
                        assert(0 <= j < i + 1 && commits[j].branch@ == seen@[k]@);
                    } else {
                        assert(0 <= i < i + 1 && commits[i as int].branch@ == seen@[k]@);
                    }
                }
            }
            i += 1;
        }
        labels
    }
}

/// Whether `pattern` stands in `text` at the place `i`.
pub open spec fn occurs_at(text: Seq<char>, pattern: Seq<char>, i: int) -> bool {
    0 <= i && i + pattern.len() <= text.len() && text.subrange(i, i + pattern.len()) == pattern
}

/// `i` is the last place at which `pattern` stands in `text`.
pub open spec fn is_last_occurrence(text: Seq<char>, pattern: Seq<char>, i: int) -> bool {
    occurs_at(text, pattern, i) && forall|j: int| i < j ==> !occurs_at(text, pattern, j)
}

/// What follows the last `pattern` in `text`; all of `text` where it holds
/// no `pattern`.
pub open spec fn after_last(text: Seq<char>, pattern: Seq<char>) -> Seq<char> {
    if exists|i: int| occurs_at(text, pattern, i) {
        let i = choose|i: int| is_last_occurrence(text, pattern, i);
        text.skip(i + pattern.len())
    } else {
        text
    }
}

fn stands_at(text: &str, pattern: &str, i: usize, pattern_len: usize) -> (found: bool)
    requires
        pattern_len == pattern@.len(),
        i + pattern_len <= text@.len() <= usize::MAX,
    ensures
        found == occurs_at(text@, pattern@, i as int),
{
    let mut t: usize = 0;
    while t < pattern_len
        invariant
            t <= pattern_len,
            pattern_len == pattern@.len(),
            i + pattern_len <= text@.len() <= usize::MAX,
            forall|u: int| 0 <= u < t ==> text@[i + u] == pattern@[u],
        decreases pattern_len - t,
    {
        if text.get_char(i + t) != pattern.get_char(t) {
            proof {
                let part = text@.subrange(i as int, i + pattern_len);
                assert(part[t as int] != pattern@[t as int]);
            }
            return false;
        }
        t += 1;
    }
    proof {
        assert(text@.subrange(i as int, i + pattern_len) =~= pattern@);
    }
    true
}

/// What follows the last `pattern` in `text`.
pub fn text_after_last(text: &str, pattern: &str) -> (rest: String)
    ensures
        rest@ == after_last(text@, pattern@),
{
    let n: usize = text.unicode_len();
    let p: usize = pattern.unicode_len();
    if p > n {
        proof {
            assert(forall|i: int| !occurs_at(text@, pattern@, i));
        }
        return String::from_str(text);
    }
    if p == 0 {
        proof {
            assert(text@.subrange(n as int, n as int) =~= pattern@);
            assert(is_last_occurrence(text@, pattern@, n as int));
            let c = choose|c: int| is_last_occurrence(text@, pattern@, c);
            if c < n {
                assert(!occurs_at(text@, pattern@, n as int));
            }
            assert(text@.skip(n as int) =~= Seq::<char>::empty());
        }
        return String::new();
    }
    let mut i: usize = n - p + 1;
    while i > 0
        invariant
            i <= n - p + 1,
            p <= n,
            n == text@.len(),
            p == pattern@.len(),
            forall|j: int| i <= j ==> !occurs_at(text@, pattern@, j),
        decreases i,
    {
        i -= 1;
        if stands_at(text, pattern, i, p) {
            proof {
                assert(is_last_occurrence(text@, pattern@, i as int));
                let c = choose|c: int| is_last_occurrence(text@, pattern@, c);
                if c < i {
                    assert(!occurs_at(text@, pattern@, i as int));
                } else if i < c {
                    assert(!occurs_at(text@, pattern@, c));
                }
                assert(text@.subrange(i + p, n as int) =~= text@.skip(i + p));
            }
            return String::from_str(text.substring_char(i + p, n));
        }
    }
    proof {
        assert(forall|j: int| !occurs_at(text@, pattern@, j));
    }
    String::from_str(text)
}

/// The name under which a repository is shown: what follows the last
/// `github.com/` in its address, and the address itself where it holds none.
pub fn short_repo_name(repo: &str) -> (name: String)
    ensures
        name@ == after_last(repo@, "github.com/"@),
{
    text_after_last(repo, "github.com/")
}

} // verus!
