//! Opening files with their default programs.

use vstd::prelude::*;

verus! {

/// Whether the shell opened a file, by the number it answered with: above 32 it did.
pub fn open_path(answer: isize) -> (r: bool)
    ensures
        r == (answer > 32),
{
    answer > 32
}

} // verus!
