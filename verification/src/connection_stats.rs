//! Per-connection traffic counters over a sliding window.
//!
//! The window is split in `SIZE` buckets of `RESOLUTION`; times are
//! nanoseconds since the connection started. The rates and the packet loss
//! are ratios of the sums these counters give.
use vstd::prelude::*;

verus! {

/// Width of one bucket: 300 ms, in nanoseconds.
pub const RESOLUTION: u64 = 300_000_000;

/// Width of the whole window: 6000 ms, in nanoseconds.
pub const WINDOW: u64 = 6_000_000_000;

/// Number of buckets in the window.
pub const SIZE: usize = 20;

/// Nanoseconds in a millisecond.
pub const NANOS_PER_MILLI: u64 = 1_000_000;

/// Sum of a sequence of counters.
pub open spec fn seq_sum(s: Seq<u64>) -> int
    decreases s.len(),
{
    if s.len() == 0 {
        0
    } else {
        seq_sum(s.drop_last()) + s.last()
    }
}

/// The bucket that time `t` falls in.
pub open spec fn spec_index(t: u64) -> int {
    ((t / NANOS_PER_MILLI) / (RESOLUTION / NANOS_PER_MILLI)) as int % (SIZE as int)
}

#[derive(Debug)]
pub struct ConnectionStats {
    pub packets_sent: Vec<u64>,
    pub packets_acked: Vec<u64>,
    pub bytes_sent: Vec<u64>,
    pub bytes_received: Vec<u64>,
    pub current_index: usize,
}

impl ConnectionStats {
    /// Every counter has one bucket per slot of the window, and the current
    /// bucket is one of them.
    pub open spec fn wf(&self) -> bool {
        &&& self.packets_sent@.len() == SIZE
        &&& self.packets_acked@.len() == SIZE
        &&& self.bytes_sent@.len() == SIZE
        &&& self.bytes_received@.len() == SIZE
        &&& self.current_index < SIZE
    }

    /// All counters zero, the current bucket the first.
    pub fn new() -> (r: Self)
        ensures
            r.wf(),
            r.packets_sent@ == Seq::new(SIZE as nat, |i: int| 0u64),
            r.packets_acked@ == Seq::new(SIZE as nat, |i: int| 0u64),
            r.bytes_sent@ == Seq::new(SIZE as nat, |i: int| 0u64),
            r.bytes_received@ == Seq::new(SIZE as nat, |i: int| 0u64),
            r.current_index == 0,
    {
        let r = Self {
            packets_sent: zeros(),
            packets_acked: zeros(),
            bytes_sent: zeros(),
            bytes_received: zeros(),
            current_index: 0,
        };
        r
    }

    /// The bucket that time `time` falls in.
    fn index(time: u64) -> (r: usize)
        ensures
            r == spec_index(time),
            r < SIZE,
    {
        let millis = time / NANOS_PER_MILLI;
        ((millis / (RESOLUTION / NANOS_PER_MILLI)) % (SIZE as u64)) as usize
    }

    /// Moves to the bucket of `current_time`, clearing it when it is not the
    /// current one.
    pub fn update(&mut self, current_time: u64)
        requires
            old(self).wf(),
        ensures
            final(self).wf(),
            final(self).current_index == spec_index(current_time),
            old(self).current_index == spec_index(current_time) ==> *final(self) == *old(self),
            old(self).current_index != spec_index(current_time) ==> {
                let i = spec_index(current_time);
                &&& final(self).packets_sent@ == old(self).packets_sent@.update(i, 0)
                &&& final(self).packets_acked@ == old(self).packets_acked@.update(i, 0)
                &&& final(self).bytes_sent@ == old(self).bytes_sent@.update(i, 0)
                &&& final(self).bytes_received@ == old(self).bytes_received@.update(i, 0)
            },
    {
        let i = Self::index(current_time);
        if self.current_index != i {
            self.current_index = i;
            self.packets_sent.set(i, 0);
            self.bytes_sent.set(i, 0);
            self.bytes_received.set(i, 0);
            self.packets_acked.set(i, 0);
        }
    }

    /// Counts `num_packets` packets of `bytes` bytes in all sent in the
    /// current bucket.
    pub fn sent_packets(&mut self, num_packets: u64, bytes: u64)
        requires
            old(self).wf(),
            old(self).packets_sent@[old(self).current_index as int] + num_packets <= u64::MAX,
            old(self).bytes_sent@[old(self).current_index as int] + bytes <= u64::MAX,
        ensures
            final(self).wf(),
            final(self).current_index == old(self).current_index,
            final(self).packets_sent@ == old(self).packets_sent@.update(
                old(self).current_index as int,
                (old(self).packets_sent@[old(self).current_index as int] + num_packets) as u64,
            ),
            final(self).bytes_sent@ == old(self).bytes_sent@.update(
                old(self).current_index as int,
                (old(self).bytes_sent@[old(self).current_index as int] + bytes) as u64,
            ),
            final(self).packets_acked@ == old(self).packets_acked@,
            final(self).bytes_received@ == old(self).bytes_received@,
    {
        let i = self.current_index;
        let p = self.packets_sent[i] + num_packets;
        self.packets_sent.set(i, p);
        let b = self.bytes_sent[i] + bytes;
        self.bytes_sent.set(i, b);
    }

    /// Counts `bytes` received in the current bucket.
    pub fn received_packet(&mut self, bytes: u64)
        requires
            old(self).wf(),
            old(self).bytes_received@[old(self).current_index as int] + bytes <= u64::MAX,
        ensures
            final(self).wf(),
            final(self).current_index == old(self).current_index,
            final(self).bytes_received@ == old(self).bytes_received@.update(
                old(self).current_index as int,
                (old(self).bytes_received@[old(self).current_index as int] + bytes) as u64,
            ),
            final(self).packets_sent@ == old(self).packets_sent@,
            final(self).packets_acked@ == old(self).packets_acked@,
            final(self).bytes_sent@ == old(self).bytes_sent@,
    {
        let i = self.current_index;
        let b = self.bytes_received[i] + bytes;
        self.bytes_received.set(i, b);
    }

    /// Counts an ack for a packet sent at `sent_at`, in the bucket it was
    /// sent in; acks that come more than a window later are dropped.
    pub fn acked_packet(&mut self, sent_at: u64, current_time: u64)
        requires
            old(self).wf(),
            sent_at <= current_time,
            current_time - sent_at <= WINDOW ==> old(self).packets_acked@[spec_index(sent_at)] + 1
                <= u64::MAX,
        ensures
            final(self).wf(),
            final(self).current_index == old(self).current_index,
            current_time - sent_at > WINDOW ==> final(self).packets_acked@ == old(self).packets_acked@,
            current_time - sent_at <= WINDOW ==> final(self).packets_acked@ == old(
                self,
            ).packets_acked@.update(
                spec_index(sent_at),
                (old(self).packets_acked@[spec_index(sent_at)] + 1) as u64,
            ),
            final(self).packets_sent@ == old(self).packets_sent@,
            final(self).bytes_sent@ == old(self).bytes_sent@,
            final(self).bytes_received@ == old(self).bytes_received@,
    {
        let delta = current_time - sent_at;
        if delta > WINDOW {
            return;
        }
        let i = Self::index(sent_at);
        let a = self.packets_acked[i] + 1;
        self.packets_acked.set(i, a);
    }

    /// Bytes sent over the window at `current_time`: every bucket while the
    /// first window is not over, else all buckets but the current, still
    /// incomplete one.
    pub fn bytes_sent_in_window(&self, current_time: u64) -> (r: u64)
        requires
            self.wf(),
            seq_sum(self.bytes_sent@) <= u64::MAX,
        ensures
            current_time < WINDOW ==> r == seq_sum(self.bytes_sent@),
            current_time >= WINDOW ==> r == seq_sum(self.bytes_sent@)
                - self.bytes_sent@[self.current_index as int],
    {
        let total = sum(&self.bytes_sent);
        if current_time < WINDOW {
            return total;
        }
        proof {
            lemma_sum_ge_element(self.bytes_sent@, self.current_index as int);
        }
        total - self.bytes_sent[self.current_index]
    }

    /// Bytes received over the window at `current_time`, counted as
    /// `bytes_sent_in_window` counts bytes sent.
    pub fn bytes_received_in_window(&self, current_time: u64) -> (r: u64)
        requires
            self.wf(),
            seq_sum(self.bytes_received@) <= u64::MAX,
        ensures
            current_time < WINDOW ==> r == seq_sum(self.bytes_received@),
            current_time >= WINDOW ==> r == seq_sum(self.bytes_received@)
                - self.bytes_received@[self.current_index as int],
    {
        let total = sum(&self.bytes_received);
        if current_time < WINDOW {
            return total;
        }
        proof {
            lemma_sum_ge_element(self.bytes_received@, self.current_index as int);
        }
        total - self.bytes_received[self.current_index]
    }

    /// Packets sent and packets acked over the buckets whose acks must have
    /// arrived: all but the current bucket and the two before it.
    pub fn settled_packets(&self) -> (r: (u64, u64))
        requires
            self.wf(),
            seq_sum(self.packets_sent@) <= u64::MAX,
            seq_sum(self.packets_acked@) <= u64::MAX,
        ensures
            r.0 == seq_sum(self.packets_sent@) - settled_excluded(self.packets_sent@, self.current_index as int),
            r.1 == seq_sum(self.packets_acked@) - settled_excluded(self.packets_acked@, self.current_index as int),
    {
        (
            settled_sum(&self.packets_sent, self.current_index),
            settled_sum(&self.packets_acked, self.current_index),
        )
    }
}

impl Default for ConnectionStats {
    fn default() -> (r: Self)
        ensures
            r.wf(),
            r.packets_sent@ == Seq::new(SIZE as nat, |i: int| 0u64),
            r.packets_acked@ == Seq::new(SIZE as nat, |i: int| 0u64),
            r.bytes_sent@ == Seq::new(SIZE as nat, |i: int| 0u64),
            r.bytes_received@ == Seq::new(SIZE as nat, |i: int| 0u64),
            r.current_index == 0,
    {
        Self::new()
    }
}

/// The current bucket and the two before it, which `settled_packets` leaves out.
pub open spec fn settled_excluded(s: Seq<u64>, current: int) -> int {
    s[current] + s[(current + SIZE - 1) % (SIZE as int)] + s[(current + SIZE - 2) % (SIZE as int)]
}

fn zeros() -> (r: Vec<u64>)
    ensures
        r@ == Seq::new(SIZE as nat, |i: int| 0u64),
{
    let mut v: Vec<u64> = Vec::new();
    while v.len() < SIZE
        invariant
            v@.len() <= SIZE,
            forall|i: int| 0 <= i < v@.len() ==> v@[i] == 0u64,
        decreases SIZE - v@.len(),
    {
        v.push(0);
    }
    proof {
        assert(v@ =~= Seq::new(SIZE as nat, |i: int| 0u64));
    }
    v
}

proof fn lemma_sum_prefix_bound(s: Seq<u64>, k: int)
    requires
        0 <= k <= s.len(),
    ensures
        seq_sum(s.subrange(0, k)) <= seq_sum(s),
        0 <= seq_sum(s.subrange(0, k)),
    decreases s.len(),
{
    if s.len() > 0 {
        if k == s.len() {
            assert(s.subrange(0, k) =~= s);
            lemma_sum_prefix_bound(s.drop_last(), k - 1);
            assert(s.drop_last().subrange(0, k - 1) =~= s.drop_last());
        } else {
            lemma_sum_prefix_bound(s.drop_last(), k);
            assert(s.drop_last().subrange(0, k) =~= s.subrange(0, k));
        }
    }
}

proof fn lemma_sum_ge_element(s: Seq<u64>, i: int)
    requires
        0 <= i < s.len(),
    ensures
        s[i] <= seq_sum(s),
    decreases s.len(),
{
    if i < s.len() - 1 {
        lemma_sum_ge_element(s.drop_last(), i);
    } else {
        lemma_sum_prefix_bound(s.drop_last(), 0);
        assert(s.drop_last().subrange(0, 0) =~= Seq::<u64>::empty());
    }
}

proof fn lemma_sum_three_le(s: Seq<u64>, a: int, b: int, c: int)
    requires
        0 <= a < s.len(),
        0 <= b < s.len(),
        0 <= c < s.len(),
        a != b,
        b != c,
        a != c,
    ensures
        s[a] + s[b] + s[c] <= seq_sum(s),
    decreases s.len(),
{
    let n = s.len() - 1;
    if a == n || b == n || c == n {
        let t = s.drop_last();
        if a == n {
            lemma_sum_two_le(t, b, c);
        } else if b == n {
            lemma_sum_two_le(t, a, c);
        } else {
            lemma_sum_two_le(t, a, b);
        }
    } else {
        lemma_sum_three_le(s.drop_last(), a, b, c);
    }
}

proof fn lemma_sum_two_le(s: Seq<u64>, a: int, b: int)
    requires
        0 <= a < s.len(),
        0 <= b < s.len(),
        a != b,
    ensures
        s[a] + s[b] <= seq_sum(s),
    decreases s.len(),
{
    let n = s.len() - 1;
    if a == n {
        lemma_sum_ge_element(s.drop_last(), b);
    } else if b == n {
        lemma_sum_ge_element(s.drop_last(), a);
    } else {
        lemma_sum_two_le(s.drop_last(), a, b);
    }
}

/// Sum of the counters.
fn sum(v: &Vec<u64>) -> (r: u64)
    requires
        seq_sum(v@) <= u64::MAX,
    ensures
        r == seq_sum(v@),
{
    let mut total: u64 = 0;
    let mut i: usize = 0;
    while i < v.len()
        invariant
            i <= v@.len(),
            seq_sum(v@) <= u64::MAX,
            total == seq_sum(v@.subrange(0, i as int)),
        decreases v@.len() - i,
    {
        proof {
            assert(v@.subrange(0, i + 1).drop_last() =~= v@.subrange(0, i as int));
            lemma_sum_prefix_bound(v@, i + 1);
        }
        total = total + v[i];
        i = i + 1;
    }
    proof {
        assert(v@.subrange(0, i as int) =~= v@);
    }
    total
}

fn settled_sum(v: &Vec<u64>, current: usize) -> (r: u64)
    requires
        v@.len() == SIZE,
        current < SIZE,
        seq_sum(v@) <= u64::MAX,
    ensures
        r == seq_sum(v@) - settled_excluded(v@, current as int),
{
    let mut total = sum(v);
    let a = current;
    let b = (current + SIZE - 1) % SIZE;
    let c = (current + SIZE - 2) % SIZE;
    proof {
        lemma_sum_three_le(v@, a as int, b as int, c as int);
    }
    total = total - v[a];
    total = total - v[b];
    total = total - v[c];
    total
}

} // verus!
