//! What holds of the layout and of the metrics window together.

use vstd::prelude::*;
use crate::data::{commits_on, files_on, lemma_totals_grow, lines_on, CollectedData};
use crate::layout::{
    depth_of, is_stale, lemma_divergence_monotone, merge_source, roster, NetworkLayout,
    PositionedCommit,
};
use crate::stats::{merged_by, sha_merges, stale_at};

verus! {

/// A branch that the layout draws as stale is not the default branch and is
/// at no time merged: no snapshot, after however many commits, holds it as
/// merged.
pub proof fn lemma_stale_never_merged(
    data: &CollectedData,
    default: Seq<char>,
    name: Seq<char>,
    upto: nat,
)
    requires
        is_stale(data, default, name),
    ensures
        name != default,
        !merge_source(data.merges@, name),
        !merged_by(data.commits@, data.merges@, name, upto),
{
    if merged_by(data.commits@, data.merges@, name, upto) {
        let j = choose|j: int|
            0 <= j < upto && j < data.commits@.len() && sha_merges(
                data.merges@,
                (#[trigger] data.commits@[j]).sha@,
                name,
            );
        let m = choose|m: int|
            0 <= m < data.merges@.len() && (#[trigger] data.merges@[m]).sha@ == data.commits@[j].sha@
                && data.merges@[m].from_branch@ == name;
        assert(merge_source(data.merges@, name));
    }
}

/// The default branch is never stale and never has conflicts: a commit on
/// it is placed on the default branch's line with both flags down, the
/// snapshots never count it as stale, and no branch of the roster is the
/// default branch.
pub proof fn lemma_default_is_clean(
    layout: &NetworkLayout,
    data: &CollectedData,
    i: int,
    placed: PositionedCommit,
    upto: nat,
)
    requires
        0 <= i < data.commits@.len(),
        layout.positions_commit(data, i, placed),
        data.commits@[i].branch@ == layout.default_branch@,
    ensures
        placed.y == layout.main_y,
        !placed.branch_is_stale,
        !placed.branch_has_conflicts,
        !is_stale(data, layout.default_branch@, layout.default_branch@),
        !stale_at(
            data.commits@,
            data.merges@,
            layout.default_branch@,
            layout.default_branch@,
            upto,
        ),
        forall|k: int|
            0 <= k < roster(data, layout.default_branch@).len() ==> (#[trigger] roster(
                data,
                layout.default_branch@,
            )[k]) != layout.default_branch@,
{
    assert forall|k: int| 0 <= k < roster(data, layout.default_branch@).len() implies (
    #[trigger] roster(data, layout.default_branch@)[k]) != layout.default_branch@ by {
        layout.lemma_roster_skips_default(data, k);
    }
}

/// Along a branch the commits never come nearer to the base line: of two
/// commits on one branch other than the default branch, the later is drawn
/// at least as far below the base line of the branch as the earlier, and
/// none further than the largest offset.
pub proof fn lemma_branch_never_turns_back(
    layout: &NetworkLayout,
    data: &CollectedData,
    i: int,
    j: int,
)
    requires
        0 <= layout.max_divergence_offset,
        0 <= i <= j < data.commits@.len(),
        data.commits@[i].branch@ == data.commits@[j].branch@,
        data.commits@[i].branch@ != layout.default_branch@,
    ensures
        layout.commit_y(data, i) <= layout.commit_y(data, j),
        ({
            let base = layout.base_y_at(
                depth_of(data.branches@, layout.default_branch@, data.commits@[j].branch@),
            );
            base <= layout.commit_y(data, j) <= base + layout.max_divergence_offset
        }),
{
    let b = data.commits@[i].branch@;
    lemma_totals_grow(data.commits@, b, (i + 1) as nat, (j + 1) as nat);
    lemma_divergence_monotone(
        commits_on(data.commits@, b, (i + 1) as nat),
        lines_on(data.commits@, b, (i + 1) as nat),
        files_on(data.commits@, b, (i + 1) as nat),
        commits_on(data.commits@, b, (j + 1) as nat),
        lines_on(data.commits@, b, (j + 1) as nat),
        files_on(data.commits@, b, (j + 1) as nat),
        layout.max_divergence_offset as int,
    );
}

} // verus!
