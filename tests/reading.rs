use file_utils::{mapped_length, read_next, read_start, ReadAction, ReadEvent};

/// Drives the read decisions over the chunks that successive reads return.
fn run(file_len: u64, buf_len: usize, reads: &[ReadEvent]) -> ReadAction {
    let mut action = read_start(file_len, buf_len);
    let mut i = 0;
    while let ReadAction::ReadAt(pos) = action {
        let event = match &reads[i] {
            ReadEvent::Bytes(n) => ReadEvent::Bytes(*n),
            ReadEvent::Interrupted => ReadEvent::Interrupted,
            ReadEvent::Failed => ReadEvent::Failed,
        };
        i += 1;
        action = read_next(pos, buf_len, event);
    }
    action
}

#[test]
fn whole_file_in_one_read() {
    assert_eq!(run(13, 13, &[ReadEvent::Bytes(13)]), ReadAction::Finish(13));
}

#[test]
fn empty_file_reads_nothing() {
    assert_eq!(read_start(0, 10), ReadAction::Finish(0));
    assert_eq!(read_start(0, 0), ReadAction::Finish(0));
    assert_eq!(read_start(0, 4096), ReadAction::Finish(0));
}

#[test]
fn empty_buffer_reads_nothing() {
    assert_eq!(read_start(13, 0), ReadAction::Finish(0));
}

#[test]
fn non_empty_read_starts_at_zero() {
    assert_eq!(read_start(1, 1), ReadAction::ReadAt(0));
}

#[test]
fn short_reads_advance() {
    assert_eq!(read_next(0, 10, ReadEvent::Bytes(4)), ReadAction::ReadAt(4));
    assert_eq!(
        run(10, 10, &[ReadEvent::Bytes(4), ReadEvent::Bytes(3), ReadEvent::Bytes(3)]),
        ReadAction::Finish(10)
    );
}

#[test]
fn end_of_file_before_full_buffer() {
    assert_eq!(read_next(5, 10, ReadEvent::Bytes(0)), ReadAction::Finish(5));
    assert_eq!(run(5, 10, &[ReadEvent::Bytes(5), ReadEvent::Bytes(0)]), ReadAction::Finish(5));
}

#[test]
fn interruption_retries_in_place() {
    assert_eq!(read_next(3, 10, ReadEvent::Interrupted), ReadAction::ReadAt(3));
    assert_eq!(
        run(13, 13, &[ReadEvent::Interrupted, ReadEvent::Bytes(6), ReadEvent::Interrupted, ReadEvent::Bytes(7)]),
        ReadAction::Finish(13)
    );
}

#[test]
fn other_failure_fails() {
    assert_eq!(read_next(0, 10, ReadEvent::Failed), ReadAction::Fail);
    assert_eq!(run(10, 10, &[ReadEvent::Bytes(2), ReadEvent::Failed]), ReadAction::Fail);
}

#[test]
fn mapping_needs_a_non_empty_file() {
    assert_eq!(mapped_length(0), None);
    assert_eq!(mapped_length(13), Some(13));
    assert_eq!(mapped_length(1), Some(1));
}
