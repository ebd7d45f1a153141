use vstd::prelude::*;

verus! {

/// Wrapping "greater than" on 16-bit sequence numbers: `s1` is ahead of `s2`
/// when it is at most half the number space in front of it.
pub open spec fn spec_sequence_greater_than(s1: u16, s2: u16) -> bool {
    ((s1 > s2) && (s1 - s2 <= 32768)) || ((s1 < s2) && (s2 - s1 > 32768))
}

/// Since sequences can wrap, the cut-over happens in the middle of the `u16` range.
pub fn sequence_greater_than(s1: u16, s2: u16) -> (r: bool)
    ensures
        r == spec_sequence_greater_than(s1, s2),
{
    ((s1 > s2) && (s1 - s2 <= 32768)) || ((s1 < s2) && (s2 - s1 > 32768))
}

pub fn sequence_less_than(s1: u16, s2: u16) -> (r: bool)
    ensures
        r == spec_sequence_greater_than(s2, s1),
{
    sequence_greater_than(s2, s1)
}

/// Of two distinct sequence numbers, exactly one is ahead of the other.
pub proof fn lemma_sequence_order_total(a: u16, b: u16)
    requires
        a != b,
    ensures
        spec_sequence_greater_than(a, b) != spec_sequence_greater_than(b, a),
{
}

/// No sequence number is ahead of itself.
pub proof fn lemma_sequence_order_irreflexive(a: u16)
    ensures
        !spec_sequence_greater_than(a, a),
{
}

/// Advancing a sequence number by 1 up to just under half the number space (wrapping
/// around the end of `u16`) gives a sequence number that is ahead of it.
pub proof fn lemma_sequence_advance_is_greater(a: u16, k: u16)
    requires
        1 <= k < 32768,
    ensures
        spec_sequence_greater_than(((a + k) % 65536) as u16, a),
{
    let r: int = (a + k) % 65536;
    if a + k < 65536 {
        assert(r == a + k);
    } else {
        assert(r == a + k - 65536);
    }
    assert(r as u16 == r);
}

/// A fixed-size ring of entries keyed by `u64` sequence numbers.
/// Sequence `s` lives in slot `s % size`; inserting a newer sequence evicts
/// whatever older sequence shared its slot.
pub struct SequenceBuffer<T> {
    next_sequence: u64,
    entry_sequences: Vec<Option<u64>>,
    entries: Vec<Option<T>>,
}

/// A sum of two `u64` values reduced modulo 2^64.
pub open spec fn wrap_u64(x: int) -> int {
    if x > u64::MAX {
        x - 0x1_0000_0000_0000_0000
    } else {
        x
    }
}

/// Number of occupied positions.
pub open spec fn count_some(s: Seq<Option<u64>>) -> nat
    decreases s.len(),
{
    if s.len() == 0 {
        0
    } else {
        count_some(s.drop_last()) + if s.last().is_some() {
            1nat
        } else {
            0nat
        }
    }
}

/// The sequences held at the positions.
pub open spec fn keys_of(s: Seq<Option<u64>>) -> Set<u64> {
    Set::new(|t: u64| exists|i: int| 0 <= i < s.len() && s[i] == Some(t))
}

/// The slot of sequence `s` in a buffer of `size` entries.
pub open spec fn slot_of(s: u64, size: nat) -> int {
    (s as int) % (size as int)
}

impl<T> SequenceBuffer<T> {
    /// Number of slots.
    pub closed spec fn spec_size(&self) -> nat {
        self.entries@.len()
    }

    /// The sequence one past the newest sequence that moved the buffer forward.
    pub closed spec fn spec_sequence(&self) -> u64 {
        self.next_sequence
    }

    pub closed spec fn wf(&self) -> bool {
        &&& self.entries@.len() == self.entry_sequences@.len()
        &&& self.entries@.len() > 0
        &&& forall|i: int|
            0 <= i < self.entries@.len() ==> (#[trigger] self.entry_sequences@[i]).is_some()
                == self.entries@[i].is_some()
        &&& forall|i: int|
            0 <= i < self.entries@.len() && (#[trigger] self.entry_sequences@[i]).is_some()
                ==> slot_of(self.entry_sequences@[i].unwrap(), self.entries@.len()) == i
        &&& forall|i: int|
            0 <= i < self.entries@.len() && (#[trigger] self.entry_sequences@[i]).is_some()
                ==> self.entry_sequences@[i].unwrap() < self.next_sequence || self.entry_sequences@[i].unwrap()
                == u64::MAX
    }

    /// Two stored sequences never share a slot.
    pub proof fn lemma_one_per_slot(&self)
        requires
            self.wf(),
        ensures
            forall|t1: u64, t2: u64|
                #[trigger] self@.dom().contains(t1) && #[trigger] self@.dom().contains(t2) && slot_of(t1, self.spec_size())
                    == slot_of(t2, self.spec_size()) ==> t1 == t2,
    {
    }

    /// Every stored sequence lies below the next sequence, but the last
    /// possible one, which never moves the buffer forward.
    pub proof fn lemma_stored_below_next(&self)
        requires
            self.wf(),
        ensures
            forall|t: u64| #[trigger] self@.dom().contains(t) ==> t < self.spec_sequence() || t == u64::MAX,
    {
        assert forall|t: u64| #[trigger] self@.dom().contains(t) implies t < self.spec_sequence() || t == u64::MAX by {
            let i = slot_of(t, self.spec_size());
            assert(self.entry_sequences@[i] == Some(t));
        }
    }

    /// The stored entries, by sequence number.
    pub closed spec fn view(&self) -> Map<u64, T> {
        Map::new(
            |s: u64| self.entry_sequences@[slot_of(s, self.entries@.len())] == Some(s),
            |s: u64| self.entries@[slot_of(s, self.entries@.len())].unwrap(),
        )
    }

    /// Whether an insertion of `s` is refused as too old: it lies a full
    /// buffer length (or more) behind the next sequence.
    pub open spec fn spec_discards(&self, s: u64) -> bool {
        wrap_u64(s + self.spec_size()) < self.spec_sequence()
    }

    /// Whether inserting `s` moves the buffer forward.
    pub open spec fn spec_advances(&self, s: u64) -> bool {
        wrap_u64(s + 1) > self.spec_sequence()
    }

    /// The entries after a successful insertion of `s` with `data`: sequences
    /// skipped by the advance and the previous occupant of `s`'s slot are gone.
    pub open spec fn spec_inserted(&self, s: u64, data: T) -> Map<u64, T> {
        Map::new(
            |t: u64|
                self@.dom().contains(t) && !(self.spec_advances(s) && self.spec_sequence() <= t
                    && t < s) && slot_of(t, self.spec_size()) != slot_of(s, self.spec_size()),
            |t: u64| self@[t],
        ).insert(s, data)
    }

    proof fn lemma_wf_keys(&self)
        requires
            self.wf(),
        ensures
            forall|t: u64| #[trigger]
                self@.dom().contains(t) ==> self.entries@[slot_of(t, self.spec_size())].is_some(),
            forall|i: int|
                0 <= i < self.spec_size() && (#[trigger] self.entry_sequences@[i]).is_some()
                    ==> self@.dom().contains(self.entry_sequences@[i].unwrap()),
    {
    }

    pub fn with_capacity(size: usize) -> (r: Self)
        requires
            size > 0,
        ensures
            r.wf(),
            r@ == Map::<u64, T>::empty(),
            r.spec_size() == size,
            r.spec_sequence() == 0,
    {
        let mut entry_sequences: Vec<Option<u64>> = Vec::with_capacity(size);
        let mut entries: Vec<Option<T>> = Vec::with_capacity(size);
        let mut i: usize = 0;
        while i < size
            invariant
                i <= size,
                entry_sequences@.len() == i,
                entries@.len() == i,
                forall|j: int| 0 <= j < i ==> entry_sequences@[j].is_none() && entries@[j].is_none(),
            decreases size - i,
        {
            entry_sequences.push(None);
            entries.push(None);
            i = i + 1;
        }
        let r = Self { next_sequence: 0, entry_sequences, entries };
        assert(r@ =~= Map::<u64, T>::empty());
        r
    }

    pub fn size(&self) -> (r: usize)
        requires
            self.wf(),
        ensures
            r == self.spec_size(),
    {
        self.entries.len()
    }

    #[inline]
    pub fn index(&self, sequence: u64) -> (r: usize)
        requires
            self.wf(),
        ensures
            r as int == slot_of(sequence, self.spec_size()),
    {
        (sequence % (self.entries.len() as u64)) as usize
    }

    /// Whether no entry occupies the slot of `sequence`.
    pub fn available(&self, sequence: u64) -> (r: bool)
        requires
            self.wf(),
        ensures
            r == (forall|t: u64| #[trigger]
                self@.dom().contains(t) ==> slot_of(t, self.spec_size()) != slot_of(
                    sequence,
                    self.spec_size(),
                )),
    {
        let index = self.index(sequence);
        proof {
            self.lemma_wf_keys();
            if self.entry_sequences@[index as int].is_some() {
                let t = self.entry_sequences@[index as int].unwrap();
                assert(self@.dom().contains(t));
            }
        }
        self.entry_sequences[index].is_none()
    }

    /// Returns whether or not we have previously inserted an entry for the given sequence number.
    pub fn contains(&self, sequence: u64) -> (r: bool)
        requires
            self.wf(),
        ensures
            r == self@.dom().contains(sequence),
    {
        let index = self.index(sequence);
        match self.entry_sequences[index] {
            Some(s) => s == sequence,
            None => false,
        }
    }

    pub fn get(&self, sequence: u64) -> (r: Option<&T>)
        requires
            self.wf(),
        ensures
            r == (if self@.dom().contains(sequence) {
                Some(&self@[sequence])
            } else {
                None
            }),
    {
        if self.contains(sequence) {
            let index = self.index(sequence);
            return self.entries[index].as_ref();
        }
        None
    }

    pub fn get_mut(&mut self, sequence: u64) -> (r: Option<&mut T>)
        requires
            old(self).wf(),
        ensures
            final(self).wf(),
            final(self).spec_size() == old(self).spec_size(),
            final(self).spec_sequence() == old(self).spec_sequence(),
            old(self)@.dom().contains(sequence) ==> r.is_some() && *r.unwrap() == old(self)@[sequence]
                && final(self)@ == old(self)@.insert(sequence, *final(r.unwrap())),
            !old(self)@.dom().contains(sequence) ==> r.is_none() && final(self)@ == old(self)@,
    {
        if self.contains(sequence) {
            let index = self.index(sequence);
            let r = self.entries[index].as_mut();
            return r;
        }
        None
    }

    pub fn remove(&mut self, sequence: u64) -> (r: Option<T>)
        requires
            old(self).wf(),
        ensures
            final(self).wf(),
            final(self).spec_size() == old(self).spec_size(),
            final(self).spec_sequence() == old(self).spec_sequence(),
            r == (if old(self)@.dom().contains(sequence) {
                Some(old(self)@[sequence])
            } else {
                None
            }),
            final(self)@ == old(self)@.remove(sequence),
            old(self)@.dom().contains(sequence) ==> forall|t: u64| #[trigger]
                final(self)@.dom().contains(t) ==> slot_of(t, final(self).spec_size()) != slot_of(
                    sequence,
                    final(self).spec_size(),
                ),
    {
        proof {
            old(self).lemma_one_per_slot();
        }
        if self.contains(sequence) {
            let index = self.index(sequence);
            self.entry_sequences.set(index, None);
            let mut value: Option<T> = None;
            std::mem::swap(&mut value, &mut self.entries[index]);
            proof {
                let n = self.spec_size();
                assert(forall|t: u64| #[trigger]
                    slot_of(t, n) == index as int ==> (t != sequence ==> !old(self)@.dom().contains(t)));
                assert(self@ =~= old(self)@.remove(sequence));
            }
            return value;
        }
        proof {
            assert(self@ =~= old(self)@.remove(sequence));
        }
        None
    }

    /// Inserts `data` at `sequence`, unless the sequence is too old for the
    /// buffer. A newer sequence moves the buffer forward, dropping the
    /// sequences it skips over.
    pub fn insert(&mut self, sequence: u64, data: T) -> (r: Option<&mut T>)
        requires
            old(self).wf(),
            old(self).spec_size() <= u64::MAX,
        ensures
            final(self).wf(),
            final(self).spec_size() == old(self).spec_size(),
            old(self).spec_discards(sequence) ==> r.is_none() && final(self)@ == old(self)@
                && final(self).spec_sequence() == old(self).spec_sequence(),
            !old(self).spec_discards(sequence) ==> r.is_some() && *r.unwrap() == data,
            !old(self).spec_discards(sequence) ==> final(self)@ == old(self).spec_inserted(
                sequence,
                *final(r.unwrap()),
            ),
            !old(self).spec_discards(sequence) ==> final(self).spec_sequence() == (if old(self).spec_advances(sequence) {
                    (sequence + 1) as u64
                } else {
                    old(self).spec_sequence()
                }),
            !old(self).spec_discards(sequence) ==> forall|t: u64|
                t != sequence && slot_of(t, old(self).spec_size()) != slot_of(sequence, old(self).spec_size())
                    ==> (#[trigger] final(self)@.dom().contains(t) <==> old(self)@.dom().contains(t)),
    {
        proof {
            old(self).lemma_stored_below_next();
        }
        let size = self.entry_sequences.len() as u64;
        if sequence.wrapping_add(size) < self.next_sequence {
            return None;
        }
        let ghost old_self = *self;
        if sequence.wrapping_add(1) > self.next_sequence {
            let mut next = self.next_sequence;
            while next != sequence
                invariant
                    self.wf(),
                    self.spec_size() == old_self.spec_size(),
                    self.next_sequence == old_self.next_sequence,
                    old_self.next_sequence <= next <= sequence,
                    self@ == Map::new(
                        |t: u64| old_self@.dom().contains(t) && !(old_self.next_sequence <= t && t < next),
                        |t: u64| old_self@[t],
                    ),
                decreases sequence - next,
            {
                self.remove(next);
                proof {
                    assert(self@ =~= Map::new(
                        |t: u64| old_self@.dom().contains(t) && !(old_self.next_sequence <= t && t < next + 1),
                        |t: u64| old_self@[t],
                    ));
                }
                next = next + 1;
            }
            self.next_sequence = sequence + 1;
        } else {
            proof {
                assert(self@ =~= Map::new(
                    |t: u64| old_self@.dom().contains(t) && !(old_self.spec_advances(sequence)
                        && old_self.next_sequence <= t && t < sequence),
                    |t: u64| old_self@[t],
                ));
            }
        }
        let ghost mid = *self;
        proof {
            assert(mid@ =~= Map::new(
                |t: u64| old_self@.dom().contains(t) && !(old_self.spec_advances(sequence)
                    && old_self.next_sequence <= t && t < sequence),
                |t: u64| old_self@[t],
            ));
        }
        let index = self.index(sequence);
        self.entry_sequences.set(index, Some(sequence));
        self.entries.set(index, Some(data));
        proof {
            let n = self.spec_size();
            assert forall|t: u64| #[trigger] mid@.dom().contains(t) && slot_of(t, n) == index as int
                implies t == mid.entry_sequences@[index as int].unwrap() by {}
            let target = old_self.spec_inserted(sequence, data);
            assert(n == old_self.spec_size());
            assert(self.entry_sequences@[index as int] == Some(sequence));
            assert(self.entries@[index as int] == Some(data));
            assert forall|t: u64| #[trigger] self@.dom().contains(t) == target.dom().contains(t) by {
                if slot_of(t, n) == index as int {
                    assert(self@.dom().contains(t) == (t == sequence));
                    assert(target.dom().contains(t) == (t == sequence));
                } else {
                    assert(self.entry_sequences@[slot_of(t, n)] == mid.entry_sequences@[slot_of(t, n)]);
                    assert(self@.dom().contains(t) == mid@.dom().contains(t));
                    assert(t != sequence);
                }
            }
            assert forall|t: u64| #[trigger] self@.dom().contains(t) implies self@[t] == target[t] by {
                if slot_of(t, n) == index as int {
                    assert(t == sequence);
                } else {
                    assert(self.entries@[slot_of(t, n)] == mid.entries@[slot_of(t, n)]);
                    assert(self@[t] == mid@[t]);
                    assert(t != sequence);
                }
            }
            assert(self@ =~= target);
        }
        self.entries[index].as_mut()
    }

    /// Returns the entry at `sequence`, inserting the value made by `f` when
    /// there is none (and the sequence is not too old).
    pub fn get_or_insert_with<F: FnOnce() -> T>(&mut self, sequence: u64, f: F) -> (r: Option<&mut T>)
        requires
            old(self).wf(),
            old(self).spec_size() <= u64::MAX,
            f.requires(()),
        ensures
            final(self).wf(),
            final(self).spec_size() == old(self).spec_size(),
            old(self)@.dom().contains(sequence) ==> r.is_some() && *r.unwrap() == old(self)@[sequence]
                && final(self)@ == old(self)@.insert(sequence, *final(r.unwrap()))
                && final(self).spec_sequence() == old(self).spec_sequence(),
            !old(self)@.dom().contains(sequence) && old(self).spec_discards(sequence) ==> r.is_none()
                && final(self)@ == old(self)@ && final(self).spec_sequence() == old(self).spec_sequence(),
            !old(self)@.dom().contains(sequence) && !old(self).spec_discards(sequence) ==> final(self).spec_sequence()
                == (if old(self).spec_advances(sequence) {
                (sequence + 1) as u64
            } else {
                old(self).spec_sequence()
            }),
            !old(self)@.dom().contains(sequence) && !old(self).spec_discards(sequence) ==> r.is_some()
                && f.ensures((), *r.unwrap()) && final(self)@ == old(self).spec_inserted(
                sequence,
                *final(r.unwrap()),
            ),
    {
        if self.contains(sequence) {
            self.get_mut(sequence)
        } else {
            let data = f();
            self.insert(sequence, data)
        }
    }

    /// Number of stored entries.
    pub fn num_entries(&self) -> (r: usize)
        requires
            self.wf(),
        ensures
            r == self@.dom().len(),
            self@.dom().finite(),
    {
        let mut count: usize = 0;
        let mut i: usize = 0;
        proof {
            self.lemma_keys_prefix(0);
        }
        while i < self.entry_sequences.len()
            invariant
                self.wf(),
                i <= self.entry_sequences@.len(),
                count == count_some(self.entry_sequences@.take(i as int)),
                count <= i,
            decreases self.entry_sequences@.len() - i,
        {
            proof {
                assert(self.entry_sequences@.take(i + 1).drop_last() =~= self.entry_sequences@.take(i as int));
            }
            if self.entry_sequences[i].is_some() {
                count = count + 1;
            }
            i = i + 1;
        }
        proof {
            self.lemma_keys_prefix(i as int);
            assert(self.entry_sequences@.take(i as int) =~= self.entry_sequences@);
            assert(self@.dom() =~= keys_of(self.entry_sequences@));
        }
        count
    }

    proof fn lemma_keys_prefix(&self, k: int)
        requires
            self.wf(),
            0 <= k <= self.entry_sequences@.len(),
        ensures
            keys_of(self.entry_sequences@.take(k)).finite(),
            keys_of(self.entry_sequences@.take(k)).len() == count_some(self.entry_sequences@.take(k)),
        decreases k,
    {
        let s = self.entry_sequences@;
        if k == 0 {
            assert(keys_of(s.take(0)) =~= Set::<u64>::empty());
        } else {
            self.lemma_keys_prefix(k - 1);
            let prev = keys_of(s.take(k - 1));
            assert(s.take(k).drop_last() =~= s.take(k - 1));
            if s[k - 1].is_some() {
                let t = s[k - 1].unwrap();
                assert(keys_of(s.take(k)) =~= prev.insert(t)) by {
                    assert(s.take(k)[k - 1] == Some(t));
                }
                assert(!prev.contains(t)) by {
                    if prev.contains(t) {
                        let j = choose|j: int| 0 <= j < k - 1 && #[trigger] s.take(k - 1)[j] == Some(t);
                        assert(s[j] == Some(t));
                    }
                }
            } else {
                assert(keys_of(s.take(k)) =~= prev);
            }
        }
    }

    #[inline]
    pub fn sequence(&self) -> (r: u64)
        ensures
            r == self.spec_sequence(),
    {
        self.next_sequence
    }
}

} // verus!
