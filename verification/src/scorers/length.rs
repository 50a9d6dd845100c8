//! Length calibration: a score by band of estimated tokens, best inside a
//! configurable sweet spot.

use vstd::prelude::*;

verus! {

/// The sweet spot with its bounds in order (given reversed, they are swapped).
pub open spec fn sweet_spot_of(min: usize, max: usize) -> (usize, usize) {
    if min <= max {
        (min, max)
    } else {
        (max, min)
    }
}

pub fn sweet_spot(min: usize, max: usize) -> (r: (usize, usize))
    ensures
        r == sweet_spot_of(min, max),
{
    if min <= max {
        (min, max)
    } else {
        (max, min)
    }
}

/// The length score of a trace of `words` estimated tokens, for the sweet
/// spot `lo..=hi`: 5 up to 30 words, 30 up to 100, 60 below the sweet spot,
/// 100 inside it, 90 up to 2000 words past it, then 70 up to 10000, 40 up to
/// 20000 and 15 beyond.
pub open spec fn length_score_of(words: int, lo: int, hi: int) -> u32 {
    if words <= 30 {
        5
    } else if words <= 100 {
        30
    } else if words < lo {
        60
    } else if words <= hi {
        100
    } else if words <= (if hi + 2000 > usize::MAX {
        usize::MAX as int
    } else {
        hi + 2000
    }) {
        90
    } else if words <= 10000 {
        70
    } else if words <= 20000 {
        40
    } else {
        15
    }
}

pub fn length_score(words: usize, sweet_spot_min: usize, sweet_spot_max: usize) -> (r: u32)
    ensures
        r == length_score_of(words as int, sweet_spot_min as int, sweet_spot_max as int),
{
    if words <= 30 {
        5
    } else if words <= 100 {
        30
    } else if words < sweet_spot_min {
        60
    } else if words <= sweet_spot_max {
        100
    } else if words <= sweet_spot_max.saturating_add(2000) {
        90
    } else if words <= 10000 {
        70
    } else if words <= 20000 {
        40
    } else {
        15
    }
}

} // verus!
