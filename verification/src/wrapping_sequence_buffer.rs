use vstd::prelude::*;

use crate::sequence_buffer::{sequence_greater_than, sequence_less_than, spec_sequence_greater_than};

verus! {

/// `a + k` on the 16-bit sequence circle.
pub open spec fn seq_add(a: u16, k: int) -> u16 {
    ((a + k) % 65536) as u16
}

/// How far `b` lies ahead of `a` on the 16-bit sequence circle.
pub open spec fn seq_distance(a: u16, b: u16) -> int {
    (b - a + 65536) % 65536
}

/// The slot of sequence `s` in a buffer of `size` entries.
pub open spec fn slot16(s: u16, size: nat) -> int {
    (s as int) % (size as int)
}

/// Whether a buffer of `size` slots whose next sequence is `next` refuses
/// `s` as too old: `s` lies behind `next` moved back by the size (taken
/// modulo 2^16).
pub open spec fn discards16(next: u16, size: nat, s: u16) -> bool {
    spec_sequence_greater_than(seq_add(next, -((size % 65536) as int)), s)
}

/// Whether inserting `s` moves forward a buffer whose next sequence is `next`.
pub open spec fn advances16(next: u16, s: u16) -> bool {
    spec_sequence_greater_than(seq_add(s, 1), next)
}

/// Whether `t` lies from `next` up to, not including, `s`.
pub open spec fn skipped16(next: u16, s: u16, t: u16) -> bool {
    seq_distance(next, t) < seq_distance(next, s)
}

/// The entries `m` of a buffer of `size` slots whose next sequence is
/// `next`, after a successful insertion of `s` with `data`: sequences
/// skipped by the advance and the previous occupant of `s`'s slot are gone.
pub open spec fn inserted16<T>(m: Map<u16, T>, size: nat, next: u16, s: u16, data: T) -> Map<u16, T> {
    Map::new(
        |t: u16| m.dom().contains(t) && !(advances16(next, s) && skipped16(next, s, t)) && slot16(t, size) != slot16(s, size),
        |t: u16| m[t],
    ).insert(s, data)
}

/// The next sequence after a successful insertion of `s`.
pub open spec fn next_after16(next: u16, s: u16) -> u16 {
    if advances16(next, s) {
        seq_add(s, 1)
    } else {
        next
    }
}

/// A fixed-size ring of entries keyed by 16-bit sequence numbers that wrap
/// around. Sequence `s` lives in slot `s % size`; inserting a newer sequence
/// evicts whatever older sequence shared its slot, and "newer" is judged on
/// the wrapping circle.
pub struct WrappingSequenceBuffer<T> {
    next_sequence: u16,
    entry_sequences: Vec<Option<u16>>,
    entries: Vec<Option<T>>,
}

impl<T> WrappingSequenceBuffer<T> {
    /// Number of slots.
    pub closed spec fn spec_size(&self) -> nat {
        self.entries@.len()
    }

    /// The sequence one past the newest sequence that moved the buffer forward.
    pub closed spec fn spec_sequence(&self) -> u16 {
        self.next_sequence
    }

    pub closed spec fn wf(&self) -> bool {
        &&& self.entries@.len() == self.entry_sequences@.len()
        &&& self.entries@.len() > 0
        &&& forall|i: int|
            0 <= i < self.entries@.len() ==> (#[trigger] self.entry_sequences@[i]).is_some()
                == self.entries@[i].is_some()
        &&& forall|i: int|
            0 <= i < self.entries@.len() && (#[trigger] self.entry_sequences@[i]).is_some()
                ==> slot16(self.entry_sequences@[i].unwrap(), self.entries@.len()) == i
    }

    /// The stored entries, by sequence number.
    pub closed spec fn view(&self) -> Map<u16, T> {
        Map::new(
            |s: u16| self.entry_sequences@[slot16(s, self.entries@.len())] == Some(s),
            |s: u16| self.entries@[slot16(s, self.entries@.len())].unwrap(),
        )
    }

    /// Whether an insertion of `s` is refused as too old: it lies behind the
    /// next sequence moved back by the buffer's size (taken modulo 2^16).
    pub open spec fn spec_discards(&self, s: u16) -> bool {
        discards16(self.spec_sequence(), self.spec_size(), s)
    }

    /// Whether inserting `s` moves the buffer forward.
    pub open spec fn spec_advances(&self, s: u16) -> bool {
        advances16(self.spec_sequence(), s)
    }

    /// Whether `t` lies from the next sequence up to, not including, `s`.
    pub open spec fn spec_skipped(&self, s: u16, t: u16) -> bool {
        skipped16(self.spec_sequence(), s, t)
    }

    /// The entries after a successful insertion of `s` with `data`: sequences
    /// skipped by the advance and the previous occupant of `s`'s slot are gone.
    pub open spec fn spec_inserted(&self, s: u16, data: T) -> Map<u16, T> {
        inserted16(self@, self.spec_size(), self.spec_sequence(), s, data)
    }

    proof fn lemma_wf_keys(&self)
        requires
            self.wf(),
        ensures
            forall|i: int|
                0 <= i < self.spec_size() && (#[trigger] self.entry_sequences@[i]).is_some()
                    ==> self@.dom().contains(self.entry_sequences@[i].unwrap()),
    {
    }

    pub fn with_capacity(size: usize) -> (r: Self)
        requires
            size > 0,
        ensures
            r.wf(),
            r@ == Map::<u16, T>::empty(),
            r.spec_size() == size,
            r.spec_sequence() == 0,
    {
        let mut entry_sequences: Vec<Option<u16>> = Vec::with_capacity(size);
        let mut entries: Vec<Option<T>> = Vec::with_capacity(size);
        let mut i: usize = 0;
        while i < size
            invariant
                i <= size,
                entry_sequences@.len() == i,
                entries@.len() == i,
                forall|j: int| 0 <= j < i ==> entry_sequences@[j].is_none() && entries@[j].is_none(),
            decreases size - i,
        {
            entry_sequences.push(None);
            entries.push(None);
            i = i + 1;
        }
        let r = Self { next_sequence: 0, entry_sequences, entries };
        assert(r@ =~= Map::<u16, T>::empty());
        r
    }

    pub fn size(&self) -> (r: usize)
        requires
            self.wf(),
        ensures
            r == self.spec_size(),
    {
        self.entries.len()
    }

    #[inline]
    pub fn index(&self, sequence: u16) -> (r: usize)
        requires
            self.wf(),
        ensures
            r as int == slot16(sequence, self.spec_size()),
    {
        (sequence as usize) % self.entries.len()
    }

    /// Whether no entry occupies the slot of `sequence`.
    pub fn available(&self, sequence: u16) -> (r: bool)
        requires
            self.wf(),
        ensures
            r == (forall|t: u16| #[trigger]
                self@.dom().contains(t) ==> slot16(t, self.spec_size()) != slot16(sequence, self.spec_size())),
    {
        let index = self.index(sequence);
        proof {
            self.lemma_wf_keys();
            if self.entry_sequences@[index as int].is_some() {
                let t = self.entry_sequences@[index as int].unwrap();
                assert(self@.dom().contains(t));
            }
        }
        self.entry_sequences[index].is_none()
    }

    /// Whether an entry was inserted for `sequence` and is still there.
    pub fn contains(&self, sequence: u16) -> (r: bool)
        requires
            self.wf(),
        ensures
            r == self@.dom().contains(sequence),
    {
        let index = self.index(sequence);
        match self.entry_sequences[index] {
            Some(s) => s == sequence,
            None => false,
        }
    }

    pub fn get(&self, sequence: u16) -> (r: Option<&T>)
        requires
            self.wf(),
        ensures
            r == (if self@.dom().contains(sequence) {
                Some(&self@[sequence])
            } else {
                None
            }),
    {
        if self.contains(sequence) {
            let index = self.index(sequence);
            return self.entries[index].as_ref();
        }
        None
    }

    pub fn get_mut(&mut self, sequence: u16) -> (r: Option<&mut T>)
        requires
            old(self).wf(),
        ensures
            final(self).wf(),
            final(self).spec_size() == old(self).spec_size(),
            final(self).spec_sequence() == old(self).spec_sequence(),
            old(self)@.dom().contains(sequence) ==> r.is_some() && *r.unwrap() == old(self)@[sequence]
                && final(self)@ == old(self)@.insert(sequence, *final(r.unwrap())),
            !old(self)@.dom().contains(sequence) ==> r.is_none() && final(self)@ == old(self)@,
    {
        if self.contains(sequence) {
            let index = self.index(sequence);
            let r = self.entries[index].as_mut();
            return r;
        }
        None
    }

    pub fn remove(&mut self, sequence: u16) -> (r: Option<T>)
        requires
            old(self).wf(),
        ensures
            final(self).wf(),
            final(self).spec_size() == old(self).spec_size(),
            final(self).spec_sequence() == old(self).spec_sequence(),
            r == (if old(self)@.dom().contains(sequence) {
                Some(old(self)@[sequence])
            } else {
                None
            }),
            final(self)@ == old(self)@.remove(sequence),
    {
        if self.contains(sequence) {
            let index = self.index(sequence);
            self.entry_sequences.set(index, None);
            let mut value: Option<T> = None;
            std::mem::swap(&mut value, &mut self.entries[index]);
            proof {
                let n = self.spec_size();
                assert(forall|t: u16| #[trigger]
                    slot16(t, n) == index as int ==> (t != sequence ==> !old(self)@.dom().contains(t)));
                assert(self@ =~= old(self)@.remove(sequence));
            }
            return value;
        }
        proof {
            assert(self@ =~= old(self)@.remove(sequence));
        }
        None
    }

    /// Inserts `data` at `sequence`, unless the sequence is too old for the
    /// buffer. A newer sequence moves the buffer forward, dropping the
    /// sequences it skips over.
    pub fn insert(&mut self, sequence: u16, data: T) -> (r: Option<&mut T>)
        requires
            old(self).wf(),
        ensures
            final(self).wf(),
            final(self).spec_size() == old(self).spec_size(),
            old(self).spec_discards(sequence) ==> r.is_none() && final(self)@ == old(self)@
                && final(self).spec_sequence() == old(self).spec_sequence(),
            !old(self).spec_discards(sequence) ==> r.is_some() && *r.unwrap() == data,
            !old(self).spec_discards(sequence) ==> final(self)@ == old(self).spec_inserted(
                sequence,
                *final(r.unwrap()),
            ),
            !old(self).spec_discards(sequence) ==> final(self).spec_sequence() == (if old(self).spec_advances(sequence) {
                    seq_add(sequence, 1)
                } else {
                    old(self).spec_sequence()
                }),
    {
        let size = (self.entry_sequences.len() % 65536) as u16;
        let behind = self.next_sequence.wrapping_sub(size);
        assert(behind == seq_add(self.next_sequence, -((self.spec_size() % 65536) as int)));
        if sequence_less_than(sequence, behind) {
            return None;
        }
        let ghost old_self = *self;
        if sequence_greater_than(sequence.wrapping_add(1), self.next_sequence) {
            let mut next = self.next_sequence;
            while next != sequence
                invariant
                    self.wf(),
                    self.spec_size() == old_self.spec_size(),
                    self.next_sequence == old_self.next_sequence,
                    seq_distance(old_self.next_sequence, next) <= seq_distance(old_self.next_sequence, sequence),
                    self@ == Map::new(
                        |t: u16|
                            old_self@.dom().contains(t) && !(seq_distance(old_self.next_sequence, t)
                                < seq_distance(old_self.next_sequence, next)),
                        |t: u16| old_self@[t],
                    ),
                decreases seq_distance(next, sequence),
            {
                self.remove(next);
                let ghost prev = next;
                next = next.wrapping_add(1);
                proof {
                    assert(seq_distance(old_self.next_sequence, next) == seq_distance(old_self.next_sequence, prev)
                        + 1);
                    assert(seq_distance(next, sequence) == seq_distance(prev, sequence) - 1);
                    assert forall|t: u16|
                        (seq_distance(old_self.next_sequence, t) < seq_distance(old_self.next_sequence, next))
                            == (seq_distance(old_self.next_sequence, t) < seq_distance(
                            old_self.next_sequence,
                            prev,
                        ) || t == prev) by {
                        if t == prev {
                        } else {
                            assert(seq_distance(old_self.next_sequence, t) != seq_distance(
                                old_self.next_sequence,
                                prev,
                            ));
                        }
                    }
                    assert(self@ =~= Map::new(
                        |t: u16|
                            old_self@.dom().contains(t) && !(seq_distance(old_self.next_sequence, t)
                                < seq_distance(old_self.next_sequence, next)),
                        |t: u16| old_self@[t],
                    ));
                }
            }
            self.next_sequence = sequence.wrapping_add(1);
            proof {
                assert(self@ =~= Map::new(
                    |t: u16| old_self@.dom().contains(t) && !(old_self.spec_advances(sequence) && old_self.spec_skipped(sequence, t)),
                    |t: u16| old_self@[t],
                ));
            }
        } else {
            proof {
                assert(self@ =~= Map::new(
                    |t: u16| old_self@.dom().contains(t) && !(old_self.spec_advances(sequence) && old_self.spec_skipped(sequence, t)),
                    |t: u16| old_self@[t],
                ));
            }
        }
        let ghost mid = *self;
        let index = self.index(sequence);
        self.entry_sequences.set(index, Some(sequence));
        self.entries.set(index, Some(data));
        proof {
            let n = self.spec_size();
            let target = old_self.spec_inserted(sequence, data);
            assert(n == old_self.spec_size());
            assert forall|t: u16| #[trigger] self@.dom().contains(t) == target.dom().contains(t) by {
                if slot16(t, n) == index as int {
                    assert(self@.dom().contains(t) == (t == sequence));
                    assert(target.dom().contains(t) == (t == sequence));
                } else {
                    assert(self.entry_sequences@[slot16(t, n)] == mid.entry_sequences@[slot16(t, n)]);
                    assert(self@.dom().contains(t) == mid@.dom().contains(t));
                    assert(t != sequence);
                }
            }
            assert forall|t: u16| #[trigger] self@.dom().contains(t) implies self@[t] == target[t] by {
                if slot16(t, n) == index as int {
                    assert(t == sequence);
                } else {
                    assert(self.entries@[slot16(t, n)] == mid.entries@[slot16(t, n)]);
                    assert(self@[t] == mid@[t]);
                    assert(t != sequence);
                }
            }
            assert(self@ =~= target);
        }
        self.entries[index].as_mut()
    }

    #[inline]
    pub fn sequence(&self) -> (r: u16)
        ensures
            r == self.spec_sequence(),
    {
        self.next_sequence
    }
}

} // verus!
