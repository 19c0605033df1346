//! Random dataset generation: one bar height per screen column, each sampled
//! from the displayable range.

use vstd::prelude::*;
use rand::Rng;

verus! {

/// The smallest bar height a dataset ever holds.
pub const MIN_HEIGHT: u16 = 3;

/// Relies on rand::thread_rng and rand::Rng::gen_range: a value sampled
/// uniformly from `[lo, hi)`. gen_range panics only on an empty range, which
/// the precondition rules out; thread_rng can fail only if the operating
/// system's entropy source does when it is first initialized.
#[verifier::external_body]
fn random_in_range(lo: u16, hi: u16) -> (r: u16)
    requires
        lo < hi,
    ensures
        lo <= r < hi,
{
    rand::thread_rng().gen_range(lo..hi)
}

/// A fresh dataset of `cols` bar heights, each drawn from
/// `[MIN_HEIGHT, rows)` so that every bar fits on a screen of `rows` lines.
pub fn create_data(rows: u16, cols: u16) -> (data: Vec<u16>)
    requires
        rows > MIN_HEIGHT,
    ensures
        data@.len() == cols as int,
        forall|k: int| 0 <= k < data@.len() ==> MIN_HEIGHT <= #[trigger] data@[k] < rows,
{
    let mut data: Vec<u16> = Vec::new();
    let mut i: u16 = 0;
    while i < cols
        invariant
            i <= cols,
            rows > MIN_HEIGHT,
            data@.len() == i as int,
            forall|k: int| 0 <= k < data@.len() ==> MIN_HEIGHT <= #[trigger] data@[k] < rows,
        decreases cols - i,
    {
        let height = random_in_range(MIN_HEIGHT, rows);
        data.push(height);
        i = i + 1;
    }
    data
}

} // verus!
