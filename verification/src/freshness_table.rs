//! Freshness by whole days since last use, in hundredths: `exp(-0.03 * days)`
//! rounded to two decimals. Days past the table count as zero.

use vstd::prelude::*;

verus! {

/// Number of freshness entries.
pub const FRESHNESS_LEN: usize = 177;

/// Freshness in hundredths for 0, 1, ... days.
pub const FRESHNESS_HUNDREDTHS: [u8; 177] = [
    100, 97, 94, 91, 89, 86, 84, 81, 79, 76, 74, 72, 70, 68, 66, 64,
    62, 60, 58, 57, 55, 53, 52, 50, 49, 47, 46, 44, 43, 42, 41, 39,
    38, 37, 36, 35, 34, 33, 32, 31, 30, 29, 28, 28, 27, 26, 25, 24,
    24, 23, 22, 22, 21, 20, 20, 19, 19, 18, 18, 17, 17, 16, 16, 15,
    15, 14, 14, 13, 13, 13, 12, 12, 12, 11, 11, 11, 10, 10, 10, 9,
    9, 9, 9, 8, 8, 8, 8, 7, 7, 7, 7, 7, 6, 6, 6, 6,
    6, 5, 5, 5, 5, 5, 5, 5, 4, 4, 4, 4, 4, 4, 4, 4,
    3, 3, 3, 3, 3, 3, 3, 3, 3, 3, 3, 2, 2, 2, 2, 2,
    2, 2, 2, 2, 2, 2, 2, 2, 2, 2, 2, 2, 1, 1, 1, 1,
    1, 1, 1, 1, 1, 1, 1, 1, 1, 1, 1, 1, 1, 1, 1, 1,
    1, 1, 1, 1, 1, 1, 1, 1, 1, 1, 1, 1, 1, 1, 1, 1,
    1,
];

} // verus!
