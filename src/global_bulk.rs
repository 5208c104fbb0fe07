use vstd::prelude::*;

verus! {

/// Mapping a file into memory is not offered: every path reads as empty.
pub fn read_file_static(path: &str) -> (r: &'static str)
    ensures
        r@.len() == 0,
{
    proof {
        reveal_strlit("");
    }
    ""
}

/// Releases what [`read_file_static`] returned, which holds nothing.
pub fn delete_file_static(file: &'static str) {
}

} // verus!
