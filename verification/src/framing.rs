//! The framing decision of the read loop.
//!
//! A session reads into a fixed-size buffer and accumulates the bytes into a
//! pending message. A read that fills the whole buffer means more bytes of
//! the same message follow; a shorter read ends the message; an empty read
//! means the connection is closed.

use vstd::prelude::*;

verus! {

/// Size of the buffer one socket read fills.
pub const BUFFER_SIZE: usize = 1024;

/// What one socket read means for the message being accumulated.
#[derive(Clone, Copy, PartialEq, Eq, Structural, Debug)]
pub enum ReadOutcome {
    /// Zero bytes were read: the connection is closed.
    Closed,
    /// The read was shorter than the buffer: the pending message is done.
    MessageComplete,
    /// The read filled the buffer: more bytes of this message follow.
    NeedMore,
}

/// The outcome a read of `n` bytes decides.
pub open spec fn read_outcome(n: nat) -> ReadOutcome {
    if n == 0 {
        ReadOutcome::Closed
    } else if n < BUFFER_SIZE {
        ReadOutcome::MessageComplete
    } else {
        ReadOutcome::NeedMore
    }
}

/// Folds one socket read into the pending message: `chunk` is what the read
/// put into the buffer. Appends it whole and decides how the loop goes on.
pub fn read_step(pending: &mut Vec<u8>, chunk: &[u8]) -> (r: ReadOutcome)
    requires
        chunk@.len() <= BUFFER_SIZE,
    ensures
        final(pending)@ == old(pending)@ + chunk@,
        r == read_outcome(chunk@.len()),
{
    let n = chunk.len();
    let mut i: usize = 0;
    proof {
        assert(pending@ =~= old(pending)@ + chunk@.subrange(0, 0));
    }
    while i < n
        invariant
            0 <= i <= n,
            n == chunk@.len(),
            pending@ == old(pending)@ + chunk@.subrange(0, i as int),
        decreases n - i,
    {
        pending.push(chunk[i]);
        i += 1;
        proof {
            assert(pending@ =~= old(pending)@ + chunk@.subrange(0, i as int));
        }
    }
    proof {
        assert(pending@ =~= old(pending)@ + chunk@);
    }
    if n == 0 {
        ReadOutcome::Closed
    } else if n < BUFFER_SIZE {
        ReadOutcome::MessageComplete
    } else {
        ReadOutcome::NeedMore
    }
}

} // verus!
