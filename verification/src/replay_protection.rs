use vstd::prelude::*;

verus! {

/// Number of recent sequences remembered by the replay window.
pub const NETCODE_REPLAY_BUFFER_SIZE: usize = 256;

/// Marks a slot of the replay window that has not seen any sequence.
pub const EMPTY: u64 = 0xffff_ffff_ffff_ffff;

/// Rejects packets whose sequence was already seen, or that are older than
/// the replay window allows.
#[derive(Debug, Clone)]
pub struct ReplayProtection {
    most_recent_sequence: u64,
    received_packet: Vec<u64>,
}

/// Whether `sequence` counts as already received, given the most recent
/// sequence and the window contents.
pub open spec fn spec_already_received(most_recent: u64, window: Seq<u64>, sequence: u64) -> bool {
    let slot = window[(sequence % 256) as int];
    sequence + 256 <= most_recent || (slot != EMPTY && slot >= sequence)
}

impl ReplayProtection {
    pub closed spec fn wf(&self) -> bool {
        self.received_packet@.len() == NETCODE_REPLAY_BUFFER_SIZE
    }

    /// The highest sequence advanced to.
    pub closed spec fn spec_most_recent(&self) -> u64 {
        self.most_recent_sequence
    }

    /// The sequence remembered in each slot of the window.
    pub closed spec fn spec_window(&self) -> Seq<u64> {
        self.received_packet@
    }

    pub open spec fn spec_received(&self, sequence: u64) -> bool {
        spec_already_received(self.spec_most_recent(), self.spec_window(), sequence)
    }

    pub fn new() -> (r: Self)
        ensures
            r.wf(),
            r.spec_most_recent() == 0,
            r.spec_window() == Seq::new(256, |i: int| EMPTY),
    {
        let mut received_packet: Vec<u64> = Vec::with_capacity(NETCODE_REPLAY_BUFFER_SIZE);
        let mut i: usize = 0;
        while i < NETCODE_REPLAY_BUFFER_SIZE
            invariant
                i <= NETCODE_REPLAY_BUFFER_SIZE,
                received_packet@ == Seq::new(i as nat, |j: int| EMPTY),
            decreases NETCODE_REPLAY_BUFFER_SIZE - i,
        {
            received_packet.push(EMPTY);
            i = i + 1;
            proof {
                assert(received_packet@ =~= Seq::new(i as nat, |j: int| EMPTY));
            }
        }
        Self { most_recent_sequence: 0, received_packet }
    }

    pub fn most_recent_sequence(&self) -> (r: u64)
        ensures
            r == self.spec_most_recent(),
    {
        self.most_recent_sequence
    }

    pub fn already_received(&self, sequence: u64) -> (r: bool)
        requires
            self.wf(),
            sequence + NETCODE_REPLAY_BUFFER_SIZE <= u64::MAX,
        ensures
            r == self.spec_received(sequence),
    {
        if sequence + NETCODE_REPLAY_BUFFER_SIZE as u64 <= self.most_recent_sequence {
            return true;
        }

        let index = (sequence % NETCODE_REPLAY_BUFFER_SIZE as u64) as usize;
        if self.received_packet[index] == EMPTY {
            return false;
        }

        if self.received_packet[index] >= sequence {
            return true;
        }

        false
    }

    pub fn advance_sequence(&mut self, sequence: u64)
        requires
            old(self).wf(),
        ensures
            final(self).wf(),
            final(self).spec_most_recent() == (if sequence > old(self).spec_most_recent() {
                sequence
            } else {
                old(self).spec_most_recent()
            }),
            final(self).spec_window() == old(self).spec_window().update(
                (sequence % 256) as int,
                sequence,
            ),
    {
        if sequence > self.most_recent_sequence {
            self.most_recent_sequence = sequence;
        }

        let index = (sequence % NETCODE_REPLAY_BUFFER_SIZE as u64) as usize;
        self.received_packet.set(index, sequence);
    }
}

/// A sequence that has just been advanced to counts as received.
pub proof fn lemma_advanced_is_received(p: ReplayProtection, q: ReplayProtection, sequence: u64)
    requires
        p.wf(),
        sequence < EMPTY,
        q.spec_most_recent() == (if sequence > p.spec_most_recent() {
            sequence
        } else {
            p.spec_most_recent()
        }),
        q.spec_window() == p.spec_window().update((sequence % 256) as int, sequence),
    ensures
        q.spec_received(sequence),
{
}

/// Advancing a sequence that was not yet received never makes another
/// sequence that was received count as new again.
pub proof fn lemma_received_stays_received(
    p: ReplayProtection,
    q: ReplayProtection,
    fresh: u64,
    seen: u64,
)
    requires
        p.wf(),
        fresh < EMPTY,
        !p.spec_received(fresh),
        p.spec_received(seen),
        q.spec_most_recent() == (if fresh > p.spec_most_recent() {
            fresh
        } else {
            p.spec_most_recent()
        }),
        q.spec_window() == p.spec_window().update((fresh % 256) as int, fresh),
    ensures
        q.spec_received(seen),
{
}

impl Default for ReplayProtection {
    fn default() -> (r: Self)
        ensures
            r.wf(),
            r.spec_most_recent() == 0,
            r.spec_window() == Seq::new(256, |i: int| EMPTY),
    {
        Self::new()
    }
}

} // verus!
