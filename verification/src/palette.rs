//! The colours of commits, branches and alerts, as bytes of red, green,
//! blue and opacity.

use vstd::prelude::*;
use crate::names::same_name;

verus! {

#[derive(Clone, Copy, Debug, PartialEq, Eq, Structural)]
pub struct Rgba {
    pub r: u8,
    pub g: u8,
    pub b: u8,
    pub a: u8,
}

/// The number of lane colours.
pub const LANES: usize = 8;

pub open spec fn conflict_color() -> Rgba {
    Rgba { r: 244, g: 80, b: 60, a: 255 }
}

pub open spec fn stale_color() -> Rgba {
    Rgba { r: 100, g: 100, b: 110, a: 100 }
}

pub open spec fn alert_red() -> Rgba {
    Rgba { r: 239, g: 83, b: 80, a: 255 }
}

pub open spec fn alert_yellow() -> Rgba {
    Rgba { r: 255, g: 200, b: 60, a: 255 }
}

pub open spec fn alert_green() -> Rgba {
    Rgba { r: 129, g: 199, b: 132, a: 255 }
}

/// The colour of a commit of the given category; grey for a category
/// that has no colour of its own.
pub open spec fn spec_category_color(category: Seq<char>) -> Rgba {
    if category == "feature"@ {
        Rgba { r: 66, g: 165, b: 245, a: 255 }
    } else if category == "bugfix"@ {
        Rgba { r: 239, g: 83, b: 80, a: 255 }
    } else if category == "release"@ {
        Rgba { r: 255, g: 215, b: 0, a: 255 }
    } else if category == "refactor"@ {
        Rgba { r: 186, g: 104, b: 200, a: 255 }
    } else if category == "docs"@ {
        Rgba { r: 129, g: 199, b: 132, a: 255 }
    } else if category == "ci"@ {
        Rgba { r: 77, g: 208, b: 225, a: 255 }
    } else if category == "test"@ {
        Rgba { r: 255, g: 167, b: 38, a: 255 }
    } else if category == "merge"@ {
        Rgba { r: 255, g: 200, b: 60, a: 200 }
    } else if category == "squash"@ {
        Rgba { r: 255, g: 183, b: 77, a: 255 }
    } else if category == "conflict"@ {
        Rgba { r: 244, g: 67, b: 54, a: 255 }
    } else {
        Rgba { r: 158, g: 158, b: 158, a: 255 }
    }
}

fn is_word(category: &String, word: &str) -> (same: bool)
    ensures
        same == (category@ == word@),
{
    let w = word.to_owned();
    same_name(category, &w)
}

pub fn category_color(category: &str) -> (color: Rgba)
    ensures
        color == spec_category_color(category@),
{
    let c = category.to_owned();
    if is_word(&c, "feature") {
        Rgba { r: 66, g: 165, b: 245, a: 255 }
    } else if is_word(&c, "bugfix") {
        Rgba { r: 239, g: 83, b: 80, a: 255 }
    } else if is_word(&c, "release") {
        Rgba { r: 255, g: 215, b: 0, a: 255 }
    } else if is_word(&c, "refactor") {
        Rgba { r: 186, g: 104, b: 200, a: 255 }
    } else if is_word(&c, "docs") {
        Rgba { r: 129, g: 199, b: 132, a: 255 }
    } else if is_word(&c, "ci") {
        Rgba { r: 77, g: 208, b: 225, a: 255 }
    } else if is_word(&c, "test") {
        Rgba { r: 255, g: 167, b: 38, a: 255 }
    } else if is_word(&c, "merge") {
        Rgba { r: 255, g: 200, b: 60, a: 200 }
    } else if is_word(&c, "squash") {
        Rgba { r: 255, g: 183, b: 77, a: 255 }
    } else if is_word(&c, "conflict") {
        Rgba { r: 244, g: 67, b: 54, a: 255 }
    } else {
        Rgba { r: 158, g: 158, b: 158, a: 255 }
    }
}

/// The colour of a category in the statistics report; grey for a category
/// that has no colour of its own there.
pub open spec fn spec_report_category_color(category: Seq<char>) -> Rgba {
    if category == "feature"@ {
        Rgba { r: 66, g: 133, b: 244, a: 255 }
    } else if category == "bugfix"@ {
        Rgba { r: 234, g: 67, b: 53, a: 255 }
    } else if category == "release"@ {
        Rgba { r: 255, g: 215, b: 0, a: 255 }
    } else if category == "refactor"@ {
        Rgba { r: 171, g: 71, b: 188, a: 255 }
    } else if category == "docs"@ {
        Rgba { r: 124, g: 179, b: 66, a: 255 }
    } else if category == "ci"@ {
        Rgba { r: 0, g: 172, b: 193, a: 255 }
    } else if category == "test"@ {
        Rgba { r: 255, g: 152, b: 0, a: 255 }
    } else {
        Rgba { r: 158, g: 158, b: 158, a: 255 }
    }
}

pub fn report_category_color(category: &str) -> (color: Rgba)
    ensures
        color == spec_report_category_color(category@),
{
    let c = category.to_owned();
    if is_word(&c, "feature") {
        Rgba { r: 66, g: 133, b: 244, a: 255 }
    } else if is_word(&c, "bugfix") {
        Rgba { r: 234, g: 67, b: 53, a: 255 }
    } else if is_word(&c, "release") {
        Rgba { r: 255, g: 215, b: 0, a: 255 }
    } else if is_word(&c, "refactor") {
        Rgba { r: 171, g: 71, b: 188, a: 255 }
    } else if is_word(&c, "docs") {
        Rgba { r: 124, g: 179, b: 66, a: 255 }
    } else if is_word(&c, "ci") {
        Rgba { r: 0, g: 172, b: 193, a: 255 }
    } else if is_word(&c, "test") {
        Rgba { r: 255, g: 152, b: 0, a: 255 }
    } else {
        Rgba { r: 158, g: 158, b: 158, a: 255 }
    }
}

/// The colour of lane `lane`, for `lane` below `LANES`.
pub open spec fn spec_lane_color(lane: nat) -> Rgba {
    if lane == 0 {
        Rgba { r: 77, g: 208, b: 225, a: 255 }
    } else if lane == 1 {
        Rgba { r: 239, g: 83, b: 80, a: 255 }
    } else if lane == 2 {
        Rgba { r: 129, g: 199, b: 132, a: 255 }
    } else if lane == 3 {
        Rgba { r: 186, g: 104, b: 200, a: 255 }
    } else if lane == 4 {
        Rgba { r: 255, g: 167, b: 38, a: 255 }
    } else if lane == 5 {
        Rgba { r: 66, g: 165, b: 245, a: 255 }
    } else if lane == 6 {
        Rgba { r: 240, g: 98, b: 146, a: 255 }
    } else {
        Rgba { r: 174, g: 213, b: 129, a: 255 }
    }
}

/// The colour of a branch: red for a branch with conflicts, a faint grey
/// for a stale branch, else the lane colour of its slot, the lanes taken
/// in turn: slot 0 has the first lane, slot 1 the second, and slot 8 the
/// first again.
pub open spec fn spec_branch_color(slot: nat, has_conflicts: bool, is_stale: bool) -> Rgba {
    if has_conflicts {
        conflict_color()
    } else if is_stale {
        stale_color()
    } else {
        spec_lane_color(slot % 8)
    }
}

pub fn branch_color(slot: usize, has_conflicts: bool, is_stale: bool) -> (color: Rgba)
    ensures
        color == spec_branch_color(slot as nat, has_conflicts, is_stale),
{
    if has_conflicts {
        Rgba { r: 244, g: 80, b: 60, a: 255 }
    } else if is_stale {
        Rgba { r: 100, g: 100, b: 110, a: 100 }
    } else {
        let lane: usize = slot % LANES;
        if lane == 0 {
            Rgba { r: 77, g: 208, b: 225, a: 255 }
        } else if lane == 1 {
            Rgba { r: 239, g: 83, b: 80, a: 255 }
        } else if lane == 2 {
            Rgba { r: 129, g: 199, b: 132, a: 255 }
        } else if lane == 3 {
            Rgba { r: 186, g: 104, b: 200, a: 255 }
        } else if lane == 4 {
            Rgba { r: 255, g: 167, b: 38, a: 255 }
        } else if lane == 5 {
            Rgba { r: 66, g: 165, b: 245, a: 255 }
        } else if lane == 6 {
            Rgba { r: 240, g: 98, b: 146, a: 255 }
        } else {
            Rgba { r: 174, g: 213, b: 129, a: 255 }
        }
    }
}

/// Red above `red`, yellow above `yellow`, else green.
pub fn threshold_color(value: i128, yellow: i128, red: i128) -> (color: Rgba)
    ensures
        color == if value > red {
            alert_red()
        } else if value > yellow {
            alert_yellow()
        } else {
            alert_green()
        },
{
    if value > red {
        Rgba { r: 239, g: 83, b: 80, a: 255 }
    } else if value > yellow {
        Rgba { r: 255, g: 200, b: 60, a: 255 }
    } else {
        Rgba { r: 129, g: 199, b: 132, a: 255 }
    }
}

} // verus!
