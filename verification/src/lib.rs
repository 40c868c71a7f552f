use vstd::prelude::*;

pub mod cat;
pub mod datefmt;
pub mod error;
pub mod eseq;
pub mod fmtx;
pub mod format;
pub mod index;
pub mod input;
pub mod merge;
pub mod model;
pub mod replay;
pub mod scan;
pub mod settings;
pub mod tee;
pub mod theme;

verus! {

/// Strips one trailing occurrence of `ch` from the end of `slice`, if present.
pub fn strip<'a>(slice: &'a [u8], ch: u8) -> (r: &'a [u8])
    ensures
        r@ == (if slice@.len() > 0 && slice@.last() == ch {
            slice@.drop_last()
        } else {
            slice@
        }),
{
    let n = slice.len();
    if n == 0 {
        slice
    } else if slice[n - 1] == ch {
        slice_subrange(slice, 0, n - 1)
    } else {
        slice
    }
}

} // verus!

use vstd::slice::slice_subrange;
