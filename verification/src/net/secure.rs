//! Receiving sealed datagrams: what opens is handed on, and what does not is skipped.
//!
//! # Why receiving skips rather than fails
//!
//! Anyone who can find the port can send a datagram to it. If a bad packet were an error the
//! caller had to handle, the natural way to write the receive loop would end the session on the
//! first one: a session anybody could kill with a single forged packet. So a packet that does
//! not open is dropped and the wait goes on, and the count is available for the statistics
//! rather than as a failure.
//!
//! The socket belongs to the caller. It reads a datagram, hands it to [`RejectBudget::take`],
//! and reads another as long as it is told to.

use vstd::prelude::*;

use crate::bytes::le_at;
use crate::net::packet::SEAL_OVERHEAD;
use crate::net::seal::{Opener, COUNTER_LEN};

verus! {

/// How many unopenable packets one receive call will skip before returning to the caller.
///
/// Without a ceiling, a flood of junk would keep the call inside its own loop indefinitely and
/// the caller would never get its timeout back. Sixty-four is far more than a healthy path ever
/// produces and small enough that the caller stays in control under a flood.
pub const REJECT_BUDGET: u32 = 64;

/// What became of a datagram.
#[derive(Debug, Clone, Copy, PartialEq, Eq, Structural)]
pub enum Received {
    /// It opened, and this much of the buffer is its text.
    Opened {
        /// Where the text begins.
        start: usize,
        /// Where the text ends.
        end: usize,
    },
    /// It did not open. Read another.
    Skipped,
    /// It did not open, and it was the last one this call will skip.
    Spent,
}

/// How many more unopenable packets one receive call will skip.
#[derive(Debug)]
pub struct RejectBudget {
    left: u32,
}

impl RejectBudget {
    /// How many are left.
    pub closed spec fn spec_left(&self) -> u32 {
        self.left
    }

    /// The budget of one receive call.
    #[must_use]
    pub fn new() -> (budget: Self)
        ensures
            budget.spec_left() == REJECT_BUDGET,
    {
        RejectBudget { left: REJECT_BUDGET }
    }

    /// Opens a datagram in place, or spends the budget on it.
    ///
    /// A packet that fails to open is never an error: it is skipped, until the budget for one
    /// call is spent.
    pub fn take(&mut self, opener: &mut Opener, packet: &mut [u8]) -> (received: Received)
        requires
            old(self).spec_left() > 0,
            old(opener).refused().0 < u64::MAX,
            old(opener).refused().1 < u64::MAX,
        ensures
            final(packet)@.len() == old(packet)@.len(),
            final(opener).key() == old(opener).key(),
            match old(opener).opens(old(packet)@) {
                Some(text) => {
                    &&& received == Received::Opened {
                        start: COUNTER_LEN,
                        end: (COUNTER_LEN + text.len()) as usize,
                    }
                    &&& COUNTER_LEN + text.len() <= final(packet)@.len()
                    &&& final(packet)@.subrange(
                        COUNTER_LEN as int,
                        (COUNTER_LEN + text.len()) as int,
                    ) == text
                    &&& final(self).spec_left() == old(self).spec_left()
                    &&& old(opener).accepting(
                        le_at(old(packet)@, 0, 8) as u64,
                        final(opener),
                    )
                    &&& final(opener).refused() == old(opener).refused()
                },
                None => {
                    &&& final(self).spec_left() == old(self).spec_left() - 1
                    &&& received == if old(self).spec_left() == 1 {
                        Received::Spent
                    } else {
                        Received::Skipped
                    }
                    &&& final(opener).refused() == old(opener).refused_with(old(packet)@)
                    &&& final(opener).newest_accepted() == old(opener).newest_accepted()
                    &&& forall|counter: u64| #[trigger]
                        final(opener).refuses(counter) == old(opener).refuses(counter)
                },
            },
    {
        let ghost before = packet@;
        let whole: usize = packet.len();
        let opened: Option<usize> = match opener.open(packet) {
            Ok(text) => Some(text.len()),
            Err(_) => None,
        };
        match opened {
            Some(len) => {
                proof {
                    let text = old(opener).opens(before)->0;
                    assert(before.take(COUNTER_LEN as int) + text + before.skip(
                        before.len() - 16,
                    ) == packet@);
                    assert(packet@.subrange(COUNTER_LEN as int, COUNTER_LEN + len as int) =~= text);
                }
                assert(len == whole - SEAL_OVERHEAD);
                Received::Opened { start: COUNTER_LEN, end: COUNTER_LEN + len }
            },
            None => {
                self.left = self.left - 1;
                if self.left == 0 {
                    Received::Spent
                } else {
                    Received::Skipped
                }
            },
        }
    }
}

impl Default for RejectBudget {
    fn default() -> (budget: Self)
        ensures
            budget.spec_left() == REJECT_BUDGET,
    {
        RejectBudget::new()
    }
}

} // verus!
