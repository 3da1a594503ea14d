use vstd::prelude::*;

verus! {

/// What one read from the file gave.
pub enum ReadEvent {
    /// This many bytes were placed in the buffer; none means end of file.
    Bytes(usize),
    /// The read was interrupted before it transferred anything.
    Interrupted,
    /// The read failed for another reason.
    Failed,
}

/// What a full read does next.
#[derive(PartialEq, Eq, Structural, Debug)]
pub enum ReadAction {
    /// Read into the buffer from this position on.
    ReadAt(usize),
    /// Stop: this many bytes were read.
    Finish(usize),
    /// Stop and report the read's failure.
    Fail,
}

/// The first step of reading a file of `file_len` bytes into a buffer of
/// `buf_len` bytes: nothing to do if either is empty, else read from the
/// start of the buffer.
pub fn read_start(file_len: u64, buf_len: usize) -> (r: ReadAction)
    ensures
        r == (if file_len == 0 || buf_len == 0 {
            ReadAction::Finish(0)
        } else {
            ReadAction::ReadAt(0)
        }),
{
    if file_len == 0 || buf_len == 0 {
        ReadAction::Finish(0)
    } else {
        ReadAction::ReadAt(0)
    }
}

/// The step after a read into `buf[pos..]`, for a buffer of `buf_len` bytes:
/// end of file or a full buffer finish with the bytes read so far, an
/// interruption reads again at the same place, any other failure fails.
pub fn read_next(pos: usize, buf_len: usize, event: ReadEvent) -> (r: ReadAction)
    requires
        pos < buf_len,
        event matches ReadEvent::Bytes(n) ==> n <= buf_len - pos,
    ensures
        r == (match event {
            ReadEvent::Bytes(n) => if n == 0 {
                ReadAction::Finish(pos)
            } else if pos + n < buf_len {
                ReadAction::ReadAt((pos + n) as usize)
            } else {
                ReadAction::Finish((pos + n) as usize)
            },
            ReadEvent::Interrupted => ReadAction::ReadAt(pos),
            ReadEvent::Failed => ReadAction::Fail,
        }),
{
    match event {
        ReadEvent::Bytes(n) => {
            if n == 0 {
                ReadAction::Finish(pos)
            } else if n < buf_len - pos {
                ReadAction::ReadAt(pos + n)
            } else {
                ReadAction::Finish(pos + n)
            }
        },
        ReadEvent::Interrupted => ReadAction::ReadAt(pos),
        ReadEvent::Failed => ReadAction::Fail,
    }
}

} // verus!
