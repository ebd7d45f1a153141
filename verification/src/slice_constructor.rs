//! Reassembly of a message sent in slices.
//!
//! A message of `n` slices is cut in pieces of `size` bytes, the last one
//! possibly shorter. Slices arrive in any order and more than once; each is
//! copied to its place, and once every slice has arrived the message is the
//! slices put end to end.
use vstd::prelude::*;

use crate::error::ChannelError;
use crate::packet::SLICE_SIZE;

verus! {

/// How many of the flags are set.
pub open spec fn count_true(s: Seq<bool>) -> nat
    decreases s.len(),
{
    if s.len() == 0 {
        0
    } else {
        count_true(s.drop_last()) + if s.last() {
            1nat
        } else {
            0nat
        }
    }
}

/// The slices put end to end, in order.
pub open spec fn concat_slices(s: Seq<Seq<u8>>) -> Seq<u8>
    decreases s.len(),
{
    if s.len() == 0 {
        Seq::empty()
    } else {
        concat_slices(s.drop_last()) + s.last()
    }
}

/// Slice `i` of `n` has `size` bytes, but the last, which has at most `size`.
pub open spec fn slice_len_ok(n: nat, size: nat, i: int, len: nat) -> bool {
    if i == n - 1 {
        len <= size
    } else {
        len == size
    }
}

/// The reassembly state: which slices arrived (`received`, `num_received` of
/// them), what they held (`slices`), and the buffer they are copied into.
/// Until the last slice arrives the buffer holds each arrived slice at its
/// place; once the message is complete it has been handed out and the
/// buffer is empty.
pub open spec fn assembly_wf(
    n: nat,
    size: nat,
    received: Seq<bool>,
    num_received: nat,
    data: Seq<u8>,
    slices: Seq<Seq<u8>>,
) -> bool {
    &&& n >= 1
    &&& n * size <= usize::MAX
    &&& received.len() == n
    &&& slices.len() == n
    &&& num_received == count_true(received)
    &&& forall|i: int| 0 <= i < n && #[trigger] received[i] ==> slice_len_ok(n, size, i, slices[i].len())
    &&& num_received < n ==> {
        &&& data.len() == if received[n - 1] {
            ((n - 1) * size + slices[n - 1].len()) as int
        } else {
            (n * size) as int
        }
        &&& forall|i: int|
            0 <= i < n && #[trigger] received[i] ==> data.subrange(i * size, i * size + slices[i].len())
                == slices[i]
    }
    &&& num_received == n ==> data.len() == 0
}

/// The part of `d` from `start` on overwritten by `b`.
pub open spec fn splice(d: Seq<u8>, start: int, b: Seq<u8>) -> Seq<u8> {
    d.subrange(0, start) + b + d.subrange(start + b.len(), d.len() as int)
}

pub(crate) proof fn lemma_count_true_bound(s: Seq<bool>)
    ensures
        count_true(s) <= s.len(),
        count_true(s) == s.len() ==> forall|i: int| 0 <= i < s.len() ==> #[trigger] s[i],
    decreases s.len(),
{
    if s.len() > 0 {
        lemma_count_true_bound(s.drop_last());
        if count_true(s) == s.len() {
            assert forall|i: int| 0 <= i < s.len() implies #[trigger] s[i] by {
                if i < s.len() - 1 {
                    assert(s.drop_last()[i] == s[i]);
                }
            }
        }
    }
}

pub(crate) proof fn lemma_count_true_set(s: Seq<bool>, i: int)
    requires
        0 <= i < s.len(),
        !s[i],
    ensures
        count_true(s.update(i, true)) == count_true(s) + 1,
    decreases s.len(),
{
    let t = s.update(i, true);
    if i == s.len() - 1 {
        assert(t.drop_last() =~= s.drop_last());
    } else {
        lemma_count_true_set(s.drop_last(), i);
        assert(t.drop_last() =~= s.drop_last().update(i, true));
    }
}

proof fn lemma_mul_step(j: int, size: int)
    requires
        0 <= j,
        0 <= size,
    ensures
        (j + 1) * size == j * size + size,
{
    assert((j + 1) * size == j * size + size) by (nonlinear_arith);
}

proof fn lemma_mul_le(a: int, b: int, size: int)
    requires
        0 <= a <= b,
        0 <= size,
    ensures
        a * size <= b * size,
{
    assert(a * size <= b * size) by (nonlinear_arith)
        requires
            0 <= a <= b,
            0 <= size,
    ;
}

/// The first `j` full-size slices at their places make the first `j * size`
/// bytes of the buffer.
proof fn lemma_prefix_from_places(n: nat, size: nat, data: Seq<u8>, slices: Seq<Seq<u8>>, j: int)
    requires
        n >= 1,
        0 <= j <= n - 1,
        slices.len() == n,
        forall|i: int| 0 <= i < n ==> slice_len_ok(n, size, i, #[trigger] slices[i].len()),
        data.len() == (n - 1) * size + slices[n - 1].len(),
        forall|i: int|
            0 <= i < n ==> data.subrange(i * size, i * size + #[trigger] slices[i].len()) == slices[i],
    ensures
        data.subrange(0, j * size) == concat_slices(slices.take(j)),
    decreases j,
{
    if j == 0 {
        assert(data.subrange(0, 0) =~= concat_slices(slices.take(0)));
    } else {
        let k = j - 1;
        lemma_prefix_from_places(n, size, data, slices, k);
        lemma_mul_step(k, size as int);
        lemma_mul_le(j, n - 1, size as int);
        assert(slices[k].len() == size);
        assert(data.subrange(k * size, k * size + slices[k].len()) == slices[k]);
        assert(data.subrange(0, j * size) =~= data.subrange(0, k * size) + data.subrange(
            k * size,
            k * size + size,
        ));
        assert(slices.take(j).drop_last() =~= slices.take(k));
    }
}

/// A buffer that holds every slice at its place is the slices end to end.
proof fn lemma_concat_from_places(n: nat, size: nat, data: Seq<u8>, slices: Seq<Seq<u8>>)
    requires
        n >= 1,
        slices.len() == n,
        forall|i: int| 0 <= i < n ==> slice_len_ok(n, size, i, #[trigger] slices[i].len()),
        data.len() == (n - 1) * size + slices[n - 1].len(),
        forall|i: int|
            0 <= i < n ==> data.subrange(i * size, i * size + #[trigger] slices[i].len()) == slices[i],
    ensures
        data == concat_slices(slices),
{
    let k = n - 1;
    lemma_prefix_from_places(n, size, data, slices, k);
    assert(slices.take(n as int).drop_last() =~= slices.take(k));
    assert(slices.take(n as int) =~= slices);
    assert(data.subrange(k * size, k * size + slices[k].len()) == slices[k]);
    assert(data =~= data.subrange(0, k * size) + data.subrange(k * size, k * size + slices[k].len()));
}

/// Writing slice `i` leaves every other arrived slice in place.
proof fn lemma_other_slice_kept(
    n: nat,
    size: nat,
    d: Seq<u8>,
    i: int,
    b: Seq<u8>,
    j: int,
    sj: Seq<u8>,
)
    requires
        0 <= i < n,
        0 <= j < n,
        i != j,
        slice_len_ok(n, size, i, b.len()),
        slice_len_ok(n, size, j, sj.len()),
        i * size + b.len() <= d.len(),
        j * size + sj.len() <= d.len(),
        d.subrange(j * size, j * size + sj.len()) == sj,
    ensures
        splice(d, i * size, b).subrange(j * size, j * size + sj.len()) == sj,
{
    let r = splice(d, i * size, b);
    assert(r.len() == d.len());
    if j < i {
        lemma_mul_step(j, size as int);
        lemma_mul_le(j + 1, i, size as int);
    } else {
        lemma_mul_step(i, size as int);
        lemma_mul_le(i + 1, j, size as int);
    }
    assert(r.subrange(j * size, j * size + sj.len()) =~= d.subrange(j * size, j * size + sj.len()));
}

/// Copies `bytes` into `data` from `start` on.
fn copy_into(data: &mut Vec<u8>, start: usize, bytes: &[u8])
    requires
        start + bytes@.len() <= old(data)@.len(),
    ensures
        final(data)@ == splice(old(data)@, start as int, bytes@),
{
    let mut k: usize = 0;
    let dlen = data.len();
    while k < bytes.len()
        invariant
            dlen == data@.len(),
            start + bytes@.len() <= data@.len(),
            data@.len() == old(data)@.len(),
            k <= bytes@.len(),
            data@ == old(data)@.subrange(0, start as int) + bytes@.subrange(0, k as int) + old(
                data,
            )@.subrange(start + k, old(data)@.len() as int),
        decreases bytes@.len() - k,
    {
        data.set(start + k, bytes[k]);
        k = k + 1;
        proof {
            assert(data@ =~= old(data)@.subrange(0, start as int) + bytes@.subrange(0, k as int)
                + old(data)@.subrange(start + k, old(data)@.len() as int));
        }
    }
    proof {
        assert(bytes@.subrange(0, k as int) =~= bytes@);
    }
}

/// Takes slice `slice_index` into the reassembly state. A slice that already
/// arrived changes nothing. Once every slice has arrived the buffer is
/// handed out, and it is the slices end to end.
pub(crate) fn receive_slice(
    received: &mut Vec<bool>,
    num_received: &mut usize,
    data: &mut Vec<u8>,
    slices: &mut Ghost<Seq<Seq<u8>>>,
    num_slices: usize,
    slice_size: usize,
    slice_index: usize,
    bytes: &[u8],
) -> (r: Option<Vec<u8>>)
    requires
        assembly_wf(
            num_slices as nat,
            slice_size as nat,
            old(received)@,
            *old(num_received) as nat,
            old(data)@,
            old(slices)@,
        ),
        slice_index < num_slices,
        slice_len_ok(num_slices as nat, slice_size as nat, slice_index as int, bytes@.len()),
    ensures
        assembly_wf(
            num_slices as nat,
            slice_size as nat,
            final(received)@,
            *final(num_received) as nat,
            final(data)@,
            final(slices)@,
        ),
        final(received)@ == old(received)@.update(slice_index as int, true),
        final(slices)@ == if old(received)@[slice_index as int] {
            old(slices)@
        } else {
            old(slices)@.update(slice_index as int, bytes@)
        },
        r is Some <==> *final(num_received) == num_slices,
        r matches Some(p) ==> (*old(num_received) < num_slices ==> p@ == concat_slices(final(slices)@)),
        r matches Some(p) ==> (*old(num_received) == num_slices ==> p@ == Seq::<u8>::empty()),
        r matches Some(p) ==> p@.len() <= num_slices * slice_size,
{
    let ghost n = num_slices as nat;
    let ghost size = slice_size as nat;
    let ghost old_data = data@;
    let ghost old_slices = slices@;
    let ghost old_received = received@;
    proof {
        lemma_count_true_bound(received@);
    }
    let is_last_slice = slice_index == num_slices - 1;
    if !received[slice_index] {
        proof {
            lemma_count_true_set(received@, slice_index as int);
            lemma_count_true_bound(received@.update(slice_index as int, true));
            assert(*num_received < num_slices);
            lemma_mul_le(slice_index as int, n as int, size as int);
            lemma_mul_le(slice_index as int, (n - 1) as int, size as int);
            lemma_mul_step((n - 1) as int, size as int);
            lemma_mul_step(slice_index as int, size as int);
            if slice_index < n - 1 {
                lemma_mul_le(slice_index + 1, (n - 1) as int, size as int);
            }
            lemma_mul_le((n - 1) as int, n as int, size as int);
        }
        received.set(slice_index, true);
        *num_received = *num_received + 1;
        let start = slice_index * slice_size;
        if is_last_slice {
            let len = (num_slices - 1) * slice_size + bytes.len();
            data.resize(len, 0);
        }
        let ghost resized = data@;
        proof {
            if is_last_slice {
                assert(resized =~= old_data.subrange(0, start + bytes@.len()));
            }
            assert(start + bytes@.len() <= resized.len());
        }
        copy_into(data, start, bytes);
        proof {
            slices@ = old_slices.update(slice_index as int, bytes@);
            let new_slices = slices@;
            let new_received = received@;
            assert forall|j: int| 0 <= j < n && #[trigger] new_received[j] implies slice_len_ok(
                n,
                size,
                j,
                new_slices[j].len(),
            ) by {
                if j != slice_index {
                    assert(old_received[j]);
                }
            }
            assert forall|j: int|
                0 <= j < n && #[trigger] new_received[j] implies data@.subrange(
                j * size,
                j * size + new_slices[j].len(),
            ) == new_slices[j] by {
                if j == slice_index {
                    assert(data@.subrange(j * size, j * size + new_slices[j].len()) =~= bytes@);
                } else {
                    assert(old_received[j]);
                    let sj = old_slices[j];
                    assert(slice_len_ok(n, size, j, sj.len()));
                    lemma_mul_le(j, (n - 1) as int, size as int);
                    lemma_mul_step(j, size as int);
                    if j < n - 1 {
                        lemma_mul_le(j + 1, (n - 1) as int, size as int);
                    }
                    assert(j * size + sj.len() <= old_data.len());
                    assert(old_data.subrange(j * size, j * size + sj.len()) == sj);
                    if is_last_slice {
                        assert(j < n - 1);
                        assert(resized.subrange(j * size, j * size + sj.len()) =~= old_data.subrange(
                            j * size,
                            j * size + sj.len(),
                        ));
                    }
                    lemma_other_slice_kept(n, size, resized, slice_index as int, bytes@, j, sj);
                }
            }
            assert(data@.len() == resized.len());
            if *num_received == num_slices {
                lemma_count_true_bound(new_received);
                assert forall|j: int| 0 <= j < n implies slice_len_ok(
                    n,
                    size,
                    j,
                    #[trigger] new_slices[j].len(),
                ) by {
                    assert(new_received[j]);
                }
                assert forall|j: int|
                    0 <= j < n implies data@.subrange(
                    j * size,
                    j * size + #[trigger] new_slices[j].len(),
                ) == new_slices[j] by {
                    assert(new_received[j]);
                }
                assert(new_received[n - 1]);
                if !is_last_slice {
                    assert(old_received[n - 1]);
                }
                lemma_concat_from_places(n, size, data@, new_slices);
            }
        }
    } else {
        proof {
            assert(received@ =~= received@.update(slice_index as int, true));
        }
    }
    proof {
        if *num_received == num_slices && *old(num_received) < num_slices {
            lemma_mul_step((n - 1) as int, size as int);
            assert(received@[n - 1]);
        }
    }
    if *num_received == num_slices {
        let mut payload: Vec<u8> = Vec::new();
        std::mem::swap(&mut payload, data);
        return Some(payload);
    }
    None
}

/// Rebuilds a message sent in slices of `SLICE_SIZE` bytes.
pub struct SliceConstructor {
    message_id: u64,
    pub num_slices: usize,
    num_received_slices: usize,
    received: Vec<bool>,
    sliced_data: Vec<u8>,
    slices: Ghost<Seq<Seq<u8>>>,
}

impl SliceConstructor {
    pub closed spec fn wf(&self) -> bool {
        assembly_wf(
            self.num_slices as nat,
            SLICE_SIZE as nat,
            self.received@,
            self.num_received_slices as nat,
            self.sliced_data@,
            self.slices@,
        )
    }

    /// Which slices have arrived.
    pub closed spec fn received_view(&self) -> Seq<bool> {
        self.received@
    }

    /// What each arrived slice held.
    pub closed spec fn slices_view(&self) -> Seq<Seq<u8>> {
        self.slices@
    }

    pub closed spec fn num_slices_view(&self) -> usize {
        self.num_slices
    }

    pub closed spec fn message_id_view(&self) -> u64 {
        self.message_id
    }

    /// Number of slices of the message.
    pub fn num_slices(&self) -> (r: usize)
        ensures
            r == self.num_slices_view(),
    {
        self.num_slices
    }

    /// What `wf` gives callers about the number of slices.
    pub proof fn lemma_wf_bounds(&self)
        requires
            self.wf(),
        ensures
            self.num_slices_view() >= 1,
            self.num_slices_view() * SLICE_SIZE <= usize::MAX,
            self.received_view().len() == self.num_slices_view(),
            self.slices_view().len() == self.num_slices_view(),
    {
    }

    /// Ready for the `num_slices` slices of message `message_id`, none
    /// arrived yet.
    pub fn new(message_id: u64, num_slices: usize) -> (r: Self)
        requires
            num_slices * SLICE_SIZE <= usize::MAX,
        ensures
            num_slices >= 1 ==> r.wf(),
            r.num_slices_view() == num_slices,
            r.message_id_view() == message_id,
            r.received_view() == Seq::new(num_slices as nat, |i: int| false),
            r.slices_view() == Seq::new(num_slices as nat, |i: int| Seq::<u8>::empty()),
    {
        let received = vec![false; num_slices];
        let sliced_data = vec![0u8; num_slices * SLICE_SIZE];
        proof {
            assert(received@ =~= Seq::new(num_slices as nat, |i: int| false));
            if num_slices >= 1 {
                assert(count_true(received@) == 0) by {
                    lemma_count_none(received@);
                }
            }
        }
        SliceConstructor {
            message_id,
            num_slices,
            num_received_slices: 0,
            received,
            sliced_data,
            slices: Ghost(Seq::new(num_slices as nat, |i: int| Seq::<u8>::empty())),
        }
    }

    /// Takes slice `slice_index`. A slice of the wrong size (not `SLICE_SIZE`,
    /// or above it for the last slice) is refused; once every slice has
    /// arrived the message is returned, the slices end to end.
    pub fn process_slice(&mut self, slice_index: usize, bytes: &[u8]) -> (r: Result<
        Option<Vec<u8>>,
        ChannelError,
    >)
        requires
            old(self).wf(),
            slice_len_ok(old(self).num_slices_view() as nat, SLICE_SIZE as nat, slice_index as int, bytes@.len())
                ==> slice_index < old(self).num_slices_view(),
        ensures
            final(self).wf(),
            final(self).num_slices_view() == old(self).num_slices_view(),
            final(self).message_id_view() == old(self).message_id_view(),
            !slice_len_ok(old(self).num_slices_view() as nat, SLICE_SIZE as nat, slice_index as int, bytes@.len())
                ==> r == Err::<Option<Vec<u8>>, ChannelError>(ChannelError::InvalidSliceMessage)
                && *final(self) == *old(self),
            slice_len_ok(old(self).num_slices_view() as nat, SLICE_SIZE as nat, slice_index as int, bytes@.len())
                ==> r is Ok,
            r is Ok ==> final(self).received_view() == old(self).received_view().update(
                slice_index as int,
                true,
            ),
            r is Ok ==> final(self).slices_view() == if old(self).received_view()[slice_index as int] {
                old(self).slices_view()
            } else {
                old(self).slices_view().update(slice_index as int, bytes@)
            },
            r matches Ok(m) ==> (m is Some <==> forall|i: int|
                0 <= i < final(self).num_slices_view() ==> #[trigger] final(self).received_view()[i]),
            r matches Ok(Some(p)) ==> p@.len() <= old(self).num_slices_view() * SLICE_SIZE,
            r matches Ok(Some(p)) ==> (exists|i: int|
                0 <= i < old(self).num_slices_view() && !#[trigger] old(self).received_view()[i])
                ==> p@ == concat_slices(final(self).slices_view()),
    {
        let ghost n = self.num_slices as nat;
        let is_last_slice = slice_index == self.num_slices - 1;
        if is_last_slice {
            if bytes.len() > SLICE_SIZE {
                return Err(ChannelError::InvalidSliceMessage);
            }
        } else if bytes.len() != SLICE_SIZE {
            return Err(ChannelError::InvalidSliceMessage);
        }
        proof {
            lemma_count_true_bound(self.received@);
            lemma_all_true_count(self.received@);
        }
        let r = receive_slice(
            &mut self.received,
            &mut self.num_received_slices,
            &mut self.sliced_data,
            &mut self.slices,
            self.num_slices,
            SLICE_SIZE,
            slice_index,
            bytes,
        );
        proof {
            let fr = self.received@;
            lemma_count_true_bound(fr);
            lemma_all_true_count(fr);
            assert(fr.len() == self.num_slices);
            assert(fr == self.received_view());
            if r is Some {
                assert(count_true(fr) == fr.len());
                assert forall|i: int| 0 <= i < self.num_slices_view() implies #[trigger] self.received_view()[i] by {
                    assert(fr[i]);
                }
            }
            if forall|i: int| 0 <= i < self.num_slices_view() ==> #[trigger] self.received_view()[i] {
                assert forall|i: int| 0 <= i < fr.len() implies #[trigger] fr[i] by {
                    assert(self.received_view()[i]);
                }
                assert(count_true(fr) == fr.len());
                assert(r is Some);
            }
        }
        Ok(r)
    }
}

/// Setting an unset flag adds one to the count.
pub proof fn lemma_count_true_set_pub(s: Seq<bool>, i: int)
    requires
        0 <= i < s.len(),
        !s[i],
    ensures
        count_true(s.update(i, true)) == count_true(s) + 1,
{
    lemma_count_true_set(s, i);
}

/// The count reaches the length exactly when every flag is set.
pub proof fn lemma_complete_iff_pub(s: Seq<bool>, c: nat)
    requires
        c == count_true(s),
    ensures
        c <= s.len(),
        c == s.len() <==> forall|j: int| 0 <= j < s.len() ==> #[trigger] s[j],
{
    lemma_count_true_bound(s);
    lemma_all_true_count(s);
}

proof fn lemma_count_none(s: Seq<bool>)
    requires
        forall|i: int| 0 <= i < s.len() ==> !s[i],
    ensures
        count_true(s) == 0,
    decreases s.len(),
{
    if s.len() > 0 {
        lemma_count_none(s.drop_last());
    }
}

proof fn lemma_all_true_count(s: Seq<bool>)
    ensures
        (forall|i: int| 0 <= i < s.len() ==> #[trigger] s[i]) ==> count_true(s) == s.len(),
    decreases s.len(),
{
    if s.len() > 0 {
        lemma_all_true_count(s.drop_last());
        if forall|i: int| 0 <= i < s.len() ==> #[trigger] s[i] {
            assert forall|i: int| 0 <= i < s.drop_last().len() implies #[trigger] s.drop_last()[i] by {
                assert(s[i]);
            }
            assert(s[s.len() - 1]);
        }
    }
}

} // verus!
