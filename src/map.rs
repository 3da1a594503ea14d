use vstd::prelude::*;

verus! {

/// Length of a read-only mapping over a file of `file_size` bytes, or `None`
/// where no mapping is made: an empty file, or one too large to address.
pub fn mapped_length(file_size: u64) -> (r: Option<usize>)
    ensures
        r == (if 0 < file_size && file_size <= usize::MAX {
            Some(file_size as usize)
        } else {
            None::<usize>
        }),
{
    if file_size > 0 && file_size <= usize::MAX as u64 {
        Some(file_size as usize)
    } else {
        None
    }
}

} // verus!
