//! The decisions of the bounded head read that feeds [`crate::analyse`] from
//! a `Read + Seek` source: the source performs each read, this module decides
//! what happens next.

use vstd::prelude::*;

verus! {

/// What one read of the source returned.
#[derive(Debug, Clone, Copy, PartialEq, Eq, Structural)]
pub enum ReadOutcome {
    /// `n` bytes were read (`0` means end of input).
    Bytes(usize),
    /// The read was interrupted before any byte arrived.
    Interrupted,
    /// The read failed.
    Failed,
}

/// What to do after a read.
#[derive(Debug, Clone, Copy, PartialEq, Eq, Structural)]
pub enum ReadStep {
    /// Read again into the buffer from this many filled bytes.
    Continue(usize),
    /// Stop: analyse the first this-many bytes of the buffer.
    Finished(usize),
    /// Stop with the read error.
    Abort,
}

/// The step after a read with `filled` of `max_bytes` bytes already filled:
/// end of input stops, an interrupted read is retried, a failed read aborts,
/// and `n` bytes advance the fill, stopping once the buffer is full.
pub open spec fn spec_next_read_step(filled: usize, max_bytes: usize, outcome: ReadOutcome) -> ReadStep {
    match outcome {
        ReadOutcome::Bytes(n) => if n == 0 {
            ReadStep::Finished(filled)
        } else if filled + n >= max_bytes {
            ReadStep::Finished(max_bytes)
        } else {
            ReadStep::Continue((filled + n) as usize)
        },
        ReadOutcome::Interrupted => ReadStep::Continue(filled),
        ReadOutcome::Failed => ReadStep::Abort,
    }
}

/// Decides the step after one read of the head.
pub fn next_read_step(filled: usize, max_bytes: usize, outcome: ReadOutcome) -> (s: ReadStep)
    requires
        filled < max_bytes,
    ensures
        s == spec_next_read_step(filled, max_bytes, outcome),
        s matches ReadStep::Continue(f) ==> filled <= f < max_bytes,
        s matches ReadStep::Finished(f) ==> filled <= f <= max_bytes,
{
    match outcome {
        ReadOutcome::Bytes(n) => {
            if n == 0 {
                ReadStep::Finished(filled)
            } else if n >= max_bytes - filled {
                ReadStep::Finished(max_bytes)
            } else {
                ReadStep::Continue(filled + n)
            }
        },
        ReadOutcome::Interrupted => ReadStep::Continue(filled),
        ReadOutcome::Failed => ReadStep::Abort,
    }
}

/// The step at which a run of reads stops, starting with `filled` bytes filled:
/// each outcome in turn is fed to the step function while it says `Continue`;
/// `Continue` itself when the outcomes run out first.
pub open spec fn run_reads(filled: usize, max_bytes: usize, outs: Seq<ReadOutcome>) -> ReadStep
    decreases outs.len(),
{
    if outs.len() == 0 {
        ReadStep::Continue(filled)
    } else {
        match spec_next_read_step(filled, max_bytes, outs[0]) {
            ReadStep::Continue(f) => run_reads(f, max_bytes, outs.drop_first()),
            other => other,
        }
    }
}

/// One read, made with `filled` of `max_bytes` bytes filled from a stream of
/// `len` bytes, behaves as a well-behaved source does: it fails never, it may be
/// interrupted, it returns no byte only at the end of the stream, and it never
/// returns more than remain in the stream or fit in the buffer.
pub open spec fn faithful_read(filled: usize, max_bytes: usize, len: nat, outcome: ReadOutcome) -> bool {
    match outcome {
        ReadOutcome::Bytes(n) => if filled >= len {
            n == 0
        } else {
            0 < n && filled + n <= len && filled + n <= max_bytes
        },
        ReadOutcome::Interrupted => true,
        ReadOutcome::Failed => false,
    }
}

/// Every read of the run that the step function gets to see is faithful.
pub open spec fn faithful_run(filled: usize, max_bytes: usize, len: nat, outs: Seq<ReadOutcome>) -> bool
    decreases outs.len(),
{
    outs.len() == 0 || (faithful_read(filled, max_bytes, len, outs[0]) && match spec_next_read_step(
        filled,
        max_bytes,
        outs[0],
    ) {
        ReadStep::Continue(f) => faithful_run(f, max_bytes, len, outs.drop_first()),
        _ => true,
    })
}

/// The number of bytes of a `len`-byte stream that a bounded read of at most
/// `max_bytes` bytes takes.
pub open spec fn head_len(max_bytes: usize, len: nat) -> nat {
    if len < max_bytes { len } else { max_bytes as nat }
}

/// A faithful run of reads from `filled` bytes never aborts, and where it
/// stops, the fill is the whole head of the stream.
proof fn lemma_run_reads_from(filled: usize, max_bytes: usize, len: nat, outs: Seq<ReadOutcome>)
    requires
        filled < max_bytes,
        filled <= len,
        faithful_run(filled, max_bytes, len, outs),
    ensures
        run_reads(filled, max_bytes, outs) !is Abort,
        run_reads(filled, max_bytes, outs) matches ReadStep::Finished(f) ==> f == head_len(max_bytes, len),
        run_reads(filled, max_bytes, outs) matches ReadStep::Continue(f) ==> f < max_bytes && f <= len,
    decreases outs.len(),
{
    if outs.len() > 0 {
        match spec_next_read_step(filled, max_bytes, outs[0]) {
            ReadStep::Continue(f) => {
                lemma_run_reads_from(f, max_bytes, len, outs.drop_first());
            },
            _ => {},
        }
    }
}

/// Reading the head of a stream through [`next_read_step`] gives the stream's
/// first `min(max_bytes, len)` bytes: from an empty buffer, a run of faithful
/// reads never aborts, and when it finishes it has filled exactly that many
/// bytes, so the head analysed is `stream.take(min(max_bytes, stream.len()))`,
/// the whole stream when `max_bytes` is at least its length.
pub proof fn lemma_bounded_read_takes_the_head(stream: Seq<u8>, max_bytes: usize, outs: Seq<ReadOutcome>)
    requires
        0 < max_bytes,
        faithful_run(0, max_bytes, stream.len(), outs),
    ensures
        run_reads(0, max_bytes, outs) !is Abort,
        run_reads(0, max_bytes, outs) matches ReadStep::Finished(f) ==> f == head_len(
            max_bytes,
            stream.len(),
        ) && stream.take(f as int) == stream.take(head_len(max_bytes, stream.len()) as int),
        run_reads(0, max_bytes, outs) matches ReadStep::Finished(f) ==> (max_bytes >= stream.len()
            ==> stream.take(f as int) == stream),
{
    lemma_run_reads_from(0, max_bytes, stream.len(), outs);
    if let ReadStep::Finished(f) = run_reads(0, max_bytes, outs) {
        if max_bytes >= stream.len() {
            assert(stream.take(f as int) =~= stream);
        }
    }
}

} // verus!
