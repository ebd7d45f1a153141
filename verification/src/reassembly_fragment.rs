//! Packets above a size limit travel in fragments; the receiver puts them
//! back together in a sequence buffer, one entry per fragmented packet.
use vstd::prelude::*;

use crate::sequence_buffer::SequenceBuffer;
use crate::slice_constructor::count_true;

verus! {

/// How packets are cut in fragments and how many are put back together at
/// once.
#[derive(Debug, Clone, Copy)]
pub struct FragmentConfig {
    pub fragment_above: u64,
    pub fragment_size: usize,
    pub reassembly_buffer_size: usize,
}

impl Default for FragmentConfig {
    fn default() -> (r: Self)
        ensures
            r.fragment_above == 1024,
            r.fragment_size == 1024,
            r.reassembly_buffer_size == 256,
    {
        Self { fragment_above: 1024, fragment_size: 1024, reassembly_buffer_size: 256 }
    }
}

/// One fragment of a packet.
#[derive(Debug, Clone, PartialEq, Eq)]
pub struct Fragment {
    pub sequence: u16,
    pub fragment_id: u8,
    pub num_fragments: u8,
    pub payload: Vec<u8>,
}

/// Why a fragment was refused.
#[derive(Debug, Clone, Copy, PartialEq, Eq)]
pub enum FragmentError {
    InvalidTotalFragment { sequence: u16, expected: u8, got: u8 },
    InvalidFragmentId { sequence: u16, id: u8, total: u8 },
    AlreadyProcessed { sequence: u16, id: u8 },
    ExceededMaxFragmentCount { sequence: u16, expected: u8, got: u8 },
    OldSequence { sequence: u16 },
}

/// A packet being put back together from its fragments.
#[derive(Debug, Clone)]
pub struct ReassemblyFragment {
    sequence: u16,
    num_fragments_received: u8,
    num_fragments_total: u8,
    buffer: Vec<u8>,
    fragments_received: Vec<bool>,
}

/// A packet being put back together: its sequence, how many of its
/// fragments arrived, how many it has, its bytes so far and which
/// fragments arrived.
pub ghost struct FragmentView {
    pub sequence: u16,
    pub received_count: nat,
    pub total: u8,
    pub buffer: Seq<u8>,
    pub received: Seq<bool>,
}

/// `b` cut or padded with zeros to `n` bytes.
pub open spec fn resized(b: Seq<u8>, n: nat) -> Seq<u8> {
    if n <= b.len() {
        b.take(n as int)
    } else {
        b + Seq::new((n - b.len()) as nat, |i: int| 0u8)
    }
}

/// The bytes of a packet once fragment `id` arrived with `payload`: the
/// last fragment first sets the length of the whole, then the payload goes
/// at `id * size`.
pub open spec fn fragment_buffer(b: Seq<u8>, total: u8, id: u8, payload: Seq<u8>, size: nat) -> Seq<u8> {
    let b1 = if id == total - 1 {
        resized(b, ((total - 1) * size + payload.len()) as nat)
    } else {
        b
    };
    let start = id * size;
    b1.take(start) + payload + b1.skip(start + payload.len())
}

/// Room for fragment `id` with `payload` in the bytes `b` of a packet.
pub open spec fn fragment_fits(b: Seq<u8>, total: u8, id: u8, payload: Seq<u8>, size: nat) -> bool {
    let len = if id == total - 1 {
        (total - 1) * size + payload.len()
    } else {
        b.len() as int
    };
    id * size + payload.len() <= len
}

/// A packet just started: no fragment arrived, room for all of them.
pub open spec fn new_fragment(sequence: u16, total: u8, size: nat) -> FragmentView {
    FragmentView {
        sequence,
        received_count: 0,
        total,
        buffer: Seq::new((total * size) as nat, |i: int| 0u8),
        received: Seq::new(total as nat, |i: int| false),
    }
}

/// The packet once fragment `id` arrived with `payload`.
pub open spec fn fragment_recorded(f: FragmentView, id: u8, payload: Seq<u8>, size: nat) -> FragmentView {
    FragmentView {
        received_count: f.received_count + 1,
        received: f.received.update(id as int, true),
        buffer: fragment_buffer(f.buffer, f.total, id, payload, size),
        ..f
    }
}

impl ReassemblyFragment {
    pub closed spec fn view(&self) -> FragmentView {
        FragmentView {
            sequence: self.sequence,
            received_count: self.num_fragments_received as nat,
            total: self.num_fragments_total,
            buffer: self.buffer@,
            received: self.fragments_received@,
        }
    }

    /// The count of arrived fragments matches the flags, one per fragment.
    pub open spec fn wf(&self) -> bool {
        &&& self@.received.len() == self@.total
        &&& self@.received_count == count_true(self@.received)
    }

    pub fn new(sequence: u16, num_fragments_total: u8, fragment_size: usize) -> (r: Self)
        requires
            num_fragments_total * fragment_size <= usize::MAX,
        ensures
            r.wf(),
            r@ == new_fragment(sequence, num_fragments_total, fragment_size as nat),
    {
        let len = num_fragments_total as usize * fragment_size;
        let buffer = vec![0u8; len];
        let fragments_received = vec![false; num_fragments_total as usize];
        let r = Self { sequence, num_fragments_received: 0, num_fragments_total, buffer, fragments_received };
        proof {
            assert(r@.buffer =~= Seq::new((num_fragments_total * fragment_size) as nat, |i: int| 0u8));
            assert(r@.received =~= Seq::new(num_fragments_total as nat, |i: int| false));
            lemma_count_none(r@.received);
        }
        r
    }

    /// Takes fragment `id` with `payload`: counted, flagged, and its bytes
    /// put at their place, the last fragment setting the length.
    fn record(&mut self, id: u8, payload: &Vec<u8>, size: usize)
        requires
            old(self).wf(),
            id < old(self)@.total,
            !old(self)@.received[id as int],
            fragment_fits(old(self)@.buffer, old(self)@.total, id, payload@, size as nat),
            id == old(self)@.total - 1 ==> (old(self)@.total - 1) * size + payload@.len() <= usize::MAX,
        ensures
            final(self).wf(),
            final(self)@ == fragment_recorded(old(self)@, id, payload@, size as nat),
    {
        proof {
            lemma_count_below(self.fragments_received@, id as int);
            crate::slice_constructor::lemma_count_true_set_pub(self.fragments_received@, id as int);
        }
        self.num_fragments_received = self.num_fragments_received + 1;
        self.fragments_received.set(id as usize, true);
        let ghost b0 = self.buffer@;
        if id == self.num_fragments_total - 1 {
            let len = (self.num_fragments_total - 1) as usize * size + payload.len();
            self.buffer.resize(len, 0);
            proof {
                if len > b0.len() {
                    assert forall|i: int| b0.len() <= i < len implies self.buffer@[i] == 0u8 by {
                        assert(cloned::<u8>(0u8, self.buffer@[i]));
                    }
                    assert(self.buffer@ =~= resized(b0, len as nat));
                } else {
                    assert(self.buffer@ =~= resized(b0, len as nat));
                }
            }
        }
        let ghost b1 = self.buffer@;
        let blen = self.buffer.len();
        proof {
            assert(b1 == (if id == self@.total - 1 {
                resized(b0, ((self@.total - 1) * size + payload@.len()) as nat)
            } else {
                b0
            }));
            assert(id * size + payload@.len() <= b1.len());
        }
        let start = id as usize * size;
        let mut j: usize = 0;
        proof {
            assert(b1.take(start as int) + payload@.take(0) + b1.skip(start as int) =~= b1);
        }
        while j < payload.len()
            invariant
                j <= payload@.len(),
                start == id * size,
                start + payload@.len() <= b1.len(),
                b1.len() == blen,
                self.fragments_received@ == old(self).fragments_received@.update(id as int, true),
                self.num_fragments_received == old(self).num_fragments_received + 1,
                self.num_fragments_total == old(self).num_fragments_total,
                self.sequence == old(self).sequence,
                b0 == old(self).buffer@,
                b1 == (if id == old(self).num_fragments_total - 1 {
                    resized(b0, ((old(self).num_fragments_total - 1) * size + payload@.len()) as nat)
                } else {
                    b0
                }),
                self.buffer@ == b1.take(start as int) + payload@.take(j as int) + b1.skip(start + j),
            decreases payload@.len() - j,
        {
            self.buffer.set(start + j, payload[j]);
            proof {
                assert(self.buffer@ =~= b1.take(start as int) + payload@.take(j + 1) + b1.skip(start + j + 1));
            }
            j = j + 1;
        }
        proof {
            assert(payload@.take(payload@.len() as int) =~= payload@);
            assert(self@.buffer =~= fragment_buffer(b0, self@.total, id, payload@, size as nat));
        }
    }
}

proof fn lemma_count_below(s: Seq<bool>, i: int)
    requires
        0 <= i < s.len(),
        !s[i],
    ensures
        count_true(s) < s.len(),
    decreases s.len(),
{
    lemma_count_at_most(s.drop_last());
    if i < s.len() - 1 {
        lemma_count_below(s.drop_last(), i);
    }
}

proof fn lemma_count_at_most(s: Seq<bool>)
    ensures
        count_true(s) <= s.len(),
    decreases s.len(),
{
    if s.len() > 0 {
        lemma_count_at_most(s.drop_last());
    }
}

proof fn lemma_count_none(s: Seq<bool>)
    requires
        forall|i: int| 0 <= i < s.len() ==> !s[i],
    ensures
        count_true(s) == 0,
    decreases s.len(),
{
    if s.len() > 0 {
        lemma_count_none(s.drop_last());
    }
}

/// The packet `fragment` belongs to: the one being put back together, or a
/// new one.
pub open spec fn entry_for(m: Map<u64, ReassemblyFragment>, fragment: Fragment, size: nat) -> FragmentView {
    if m.dom().contains(fragment.sequence as u64) {
        m[fragment.sequence as u64]@
    } else {
        new_fragment(fragment.sequence, fragment.num_fragments, size)
    }
}

/// Why `fragment` is refused by its packet `e`, if it is: the packet has
/// more fragments than `max_fragments` allows, or another count than the
/// fragment says, or no fragment with its id, or it arrived already.
pub open spec fn fragment_refusal(e: FragmentView, fragment: Fragment, max_fragments: int) -> Option<FragmentError> {
    let sequence = fragment.sequence;
    if e.total > max_fragments {
        Some(FragmentError::ExceededMaxFragmentCount { sequence, expected: max_fragments as u8, got: fragment.num_fragments })
    } else if e.total != fragment.num_fragments {
        Some(FragmentError::InvalidTotalFragment { sequence, expected: e.total, got: fragment.num_fragments })
    } else if fragment.fragment_id >= e.total {
        Some(FragmentError::InvalidFragmentId { sequence, id: fragment.fragment_id, total: e.total })
    } else if e.received[fragment.fragment_id as int] {
        Some(FragmentError::AlreadyProcessed { sequence, id: fragment.fragment_id })
    } else {
        None
    }
}

impl SequenceBuffer<ReassemblyFragment> {
    /// Takes a fragment. The first fragment of a packet starts it, unless
    /// its sequence is too old for the buffer. A fragment that does not
    /// fit its packet is refused (`fragment_refusal`); once the last
    /// fragment of a packet arrives, the packet leaves the buffer and its
    /// bytes come back.
    pub fn handle_fragment(&mut self, fragment: Fragment, max_packet_size: u64, config: &FragmentConfig) -> (r: Result<
        Option<Vec<u8>>,
        FragmentError,
    >)
        requires
            old(self).wf(),
            old(self).spec_size() <= u64::MAX,
            forall|k: u64| #[trigger] old(self)@.dom().contains(k) ==> old(self)@[k].wf(),
            config.fragment_size > 0,
            max_packet_size / (config.fragment_size as u64) + 1 <= 255,
            !old(self)@.dom().contains(fragment.sequence as u64) ==> fragment.num_fragments * config.fragment_size
                <= usize::MAX,
            ({
                let e = entry_for(old(self)@, fragment, config.fragment_size as nat);
                fragment_refusal(e, fragment, max_packet_size / (config.fragment_size as u64) + 1) is None ==> {
                    &&& fragment_fits(e.buffer, e.total, fragment.fragment_id, fragment.payload@, config.fragment_size as nat)
                    &&& (e.total - 1) * config.fragment_size + fragment.payload@.len() <= usize::MAX
                }
            }),
        ensures
            final(self).wf(),
            final(self).spec_size() == old(self).spec_size(),
            forall|k: u64| #[trigger] final(self)@.dom().contains(k) ==> final(self)@[k].wf(),
            ({
                let s = fragment.sequence as u64;
                let size = config.fragment_size as nat;
                let known = old(self)@.dom().contains(s);
                let e = entry_for(old(self)@, fragment, size);
                let base = if known {
                    old(self)@
                } else {
                    old(self).spec_inserted(s, vstd::pervasive::arbitrary())
                };
                let refusal = fragment_refusal(e, fragment, max_packet_size / (config.fragment_size as u64) + 1);
                let e2 = fragment_recorded(e, fragment.fragment_id, fragment.payload@, size);
                &&& !known && old(self).spec_discards(s) ==> r == Err::<Option<Vec<u8>>, FragmentError>(
                    FragmentError::OldSequence { sequence: fragment.sequence },
                ) && final(self)@ == old(self)@ && final(self).spec_sequence() == old(self).spec_sequence()
                &&& !(!known && old(self).spec_discards(s)) ==> {
                    &&& known ==> final(self).spec_sequence() == old(self).spec_sequence()
                    &&& !known ==> final(self).spec_sequence() == (if old(self).spec_advances(s) {
                        (s + 1) as u64
                    } else {
                        old(self).spec_sequence()
                    })
                    &&& final(self)@.remove(s) == base.remove(s)
                    &&& refusal matches Some(err) ==> r == Err::<Option<Vec<u8>>, FragmentError>(err)
                        && final(self)@.dom().contains(s) && final(self)@[s]@ == e
                    &&& refusal is None && e2.received_count == e.total ==> (r matches Ok(Some(bytes)) && bytes@
                        == e2.buffer) && !final(self)@.dom().contains(s)
                    &&& refusal is None && e2.received_count != e.total ==> (r matches Ok(None))
                        && final(self)@.dom().contains(s) && final(self)@[s]@ == e2
                }
            }),
    {
        let sequence = fragment.sequence;
        let s = sequence as u64;
        let size = config.fragment_size;
        let ghost m0 = self@;
        if !self.contains(s) {
            let inserted = self.insert(s, ReassemblyFragment::new(sequence, fragment.num_fragments, size)).is_some();
            if !inserted {
                return Err(FragmentError::OldSequence { sequence });
            }
        }
        let ghost m1 = self@;
        proof {
            assert(m1.dom().contains(s));
            assert(m1[s]@ == entry_for(m0, fragment, size as nat));
            assert(m1.remove(s) =~= (if m0.dom().contains(s) {
                m0
            } else {
                old(self).spec_inserted(s, vstd::pervasive::arbitrary())
            }).remove(s));
        }
        let max_fragments = max_packet_size / (size as u64) + 1;
        let entry = self.get(s).unwrap();
        if entry.num_fragments_total as u64 > max_fragments {
            return Err(FragmentError::ExceededMaxFragmentCount {
                sequence,
                expected: max_fragments as u8,
                got: fragment.num_fragments,
            });
        }
        if entry.num_fragments_total != fragment.num_fragments {
            return Err(FragmentError::InvalidTotalFragment {
                sequence,
                expected: entry.num_fragments_total,
                got: fragment.num_fragments,
            });
        }
        if fragment.fragment_id >= entry.num_fragments_total {
            return Err(FragmentError::InvalidFragmentId {
                sequence,
                id: fragment.fragment_id,
                total: entry.num_fragments_total,
            });
        }
        if entry.fragments_received[fragment.fragment_id as usize] {
            return Err(FragmentError::AlreadyProcessed { sequence, id: fragment.fragment_id });
        }
        let entry = self.get_mut(s).unwrap();
        entry.record(fragment.fragment_id, &fragment.payload, size);
        let complete = entry.num_fragments_received == entry.num_fragments_total;
        if complete {
            let done = self.remove(s).unwrap();
            proof {
                assert(self@.remove(s) =~= m1.remove(s));
            }
            return Ok(Some(done.buffer));
        }
        proof {
            assert(self@.remove(s) =~= m1.remove(s));
        }
        Ok(None)
    }
}

} // verus!
