//! The head-read decisions.

use apm_partition_forensic::reading::{next_read_step, ReadOutcome, ReadStep};

#[test]
fn bytes_advance_the_fill() {
    assert_eq!(next_read_step(0, 100, ReadOutcome::Bytes(10)), ReadStep::Continue(10));
    assert_eq!(next_read_step(90, 100, ReadOutcome::Bytes(10)), ReadStep::Finished(100));
    assert_eq!(next_read_step(90, 100, ReadOutcome::Bytes(50)), ReadStep::Finished(100));
}

#[test]
fn end_of_input_stops_where_it_is() {
    assert_eq!(next_read_step(20, 100, ReadOutcome::Bytes(0)), ReadStep::Finished(20));
}

#[test]
fn interrupted_reads_retry_and_failures_abort() {
    assert_eq!(next_read_step(20, 100, ReadOutcome::Interrupted), ReadStep::Continue(20));
    assert_eq!(next_read_step(20, 100, ReadOutcome::Failed), ReadStep::Abort);
}

/// Drives the step function over a stream handed out `chunk` bytes at a time,
/// with an interrupted read before every other read; returns the fill at which
/// it stops.
fn drive(stream_len: usize, max_bytes: usize, chunk: usize) -> usize {
    let mut filled = 0;
    let mut pos = 0;
    let mut interrupt = true;
    while filled < max_bytes {
        let outcome = if interrupt {
            ReadOutcome::Interrupted
        } else {
            let room = max_bytes - filled;
            let n = chunk.min(stream_len - pos).min(room);
            pos += n;
            ReadOutcome::Bytes(n)
        };
        interrupt = !interrupt;
        match next_read_step(filled, max_bytes, outcome) {
            ReadStep::Continue(f) => filled = f,
            ReadStep::Finished(f) => return f,
            ReadStep::Abort => panic!("a faithful source never aborts"),
        }
    }
    filled
}

#[test]
fn a_bounded_read_takes_the_head_of_the_stream() {
    assert_eq!(drive(10, 8, 3), 8);
    assert_eq!(drive(10, 100, 3), 10);
    assert_eq!(drive(10, 10, 4), 10);
    assert_eq!(drive(0, 16, 5), 0);
}
