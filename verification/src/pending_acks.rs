//! The packets a connection has received and still has to acknowledge, kept
//! as sorted ranges of sequence numbers.
use vstd::prelude::*;

use crate::packet::ranges_view;
use std::ops::Range;

verus! {

/// Most ranges kept when a new range is added past the last one.
pub const MAX_PENDING_RANGES: usize = 64;

/// Non-empty ranges, in increasing order, with a gap between neighbours:
/// the one way to write a set of sequence numbers as ranges.
pub open spec fn ranges_wf(r: Seq<(u64, u64)>) -> bool {
    &&& forall|i: int| 0 <= i < r.len() ==> #[trigger] r[i].0 < r[i].1
    &&& forall|i: int, j: int| 0 <= i < j < r.len() ==> #[trigger] r[i].1 < #[trigger] r[j].0
}

/// Whether sequence `s` is in one of the ranges.
pub open spec fn in_ranges(r: Seq<(u64, u64)>, s: u64) -> bool {
    exists|i: int| 0 <= i < r.len() && #[trigger] r[i].0 <= s && s < r[i].1
}

/// Whether adding `s` starts a new range after the last one, the case in
/// which the oldest range is dropped once there are too many.
pub open spec fn appends_range(r: Seq<(u64, u64)>, s: u64) -> bool {
    r.len() > 0 && r[r.len() - 1].1 < s
}

/// `after` is `before` with sequence `s` added: one more sequence, or,
/// when `s` starts a new range past the last one and `MAX_PENDING_RANGES`
/// ranges are kept already, the oldest range dropped and `s` added.
pub open spec fn ack_added(before: Seq<(u64, u64)>, after: Seq<(u64, u64)>, s: u64) -> bool {
    &&& ranges_wf(after)
    &&& in_ranges(after, s)
    &&& !(appends_range(before, s) && before.len() >= MAX_PENDING_RANGES) ==> forall|t: u64|
        #![trigger in_ranges(after, t)]
        in_ranges(after, t) <==> (in_ranges(before, t) || t == s)
    &&& appends_range(before, s) && before.len() >= MAX_PENDING_RANGES ==> after == before.subrange(
        1,
        before.len() as int,
    ).push((s, (s + 1) as u64))
}

/// `after` keeps of `before` the sequences above `largest`.
pub open spec fn acks_above(before: Seq<(u64, u64)>, after: Seq<(u64, u64)>, largest: u64) -> bool {
    &&& ranges_wf(after)
    &&& forall|t: u64| #![trigger in_ranges(after, t)] in_ranges(after, t) <==> (in_ranges(before, t) && t > largest)
}

proof fn lemma_in_ranges_intro(r: Seq<(u64, u64)>, i: int, s: u64)
    requires
        0 <= i < r.len(),
        r[i].0 <= s < r[i].1,
    ensures
        in_ranges(r, s),
{
}

/// Adds `sequence` to the pending acks. A sequence past the last range
/// starts a new one, and then, with more than `MAX_PENDING_RANGES` ranges,
/// the oldest range is dropped.
pub fn add_pending_ack(pending_acks: &mut Vec<Range<u64>>, sequence: u64)
    requires
        ranges_wf(ranges_view(old(pending_acks)@)),
        sequence < u64::MAX,
    ensures
        ranges_wf(ranges_view(final(pending_acks)@)),
        in_ranges(ranges_view(final(pending_acks)@), sequence),
        !(appends_range(ranges_view(old(pending_acks)@), sequence) && old(pending_acks)@.len()
            >= MAX_PENDING_RANGES) ==> forall|s: u64|
            #![trigger in_ranges(ranges_view(final(pending_acks)@), s)]
            in_ranges(ranges_view(final(pending_acks)@), s) <==> (in_ranges(
                ranges_view(old(pending_acks)@),
                s,
            ) || s == sequence),
        appends_range(ranges_view(old(pending_acks)@), sequence) && old(pending_acks)@.len()
            >= MAX_PENDING_RANGES ==> ranges_view(final(pending_acks)@) == ranges_view(
            old(pending_acks)@,
        ).subrange(1, old(pending_acks)@.len() as int).push((sequence, (sequence + 1) as u64)),
{
    let ghost r0 = ranges_view(pending_acks@);
    if pending_acks.len() == 0 {
        pending_acks.push(Range { start: sequence, end: sequence + 1 });
        proof {
            let r1 = ranges_view(pending_acks@);
            assert(r1 =~= seq![(sequence, (sequence + 1) as u64)]);
            lemma_in_ranges_intro(r1, 0, sequence);
            assert forall|s: u64| #![trigger in_ranges(r1, s)] in_ranges(r1, s) <==> (in_ranges(r0, s) || s == sequence) by {
                if s == sequence {
                    lemma_in_ranges_intro(r1, 0, s);
                }
            }
        }
        return;
    }
    let n = pending_acks.len();
    let mut index: usize = 0;
    while index < n
        invariant
            n == pending_acks@.len(),
            pending_acks@ == old(pending_acks)@,
            r0 == ranges_view(pending_acks@),
            ranges_wf(r0),
            sequence < u64::MAX,
            index <= n,
            n > 0,
            forall|j: int| 0 <= j < index ==> #[trigger] r0[j].1 < sequence,
        decreases n - index,
    {
        let start = pending_acks[index].start;
        let end = pending_acks[index].end;
        proof {
            assert(r0[index as int] == (start, end));
        }
        if start <= sequence && sequence < end {
            proof {
                lemma_in_ranges_intro(r0, index as int, sequence);
                if index < n - 1 {
                    assert(r0[index as int].1 < r0[n - 1].0);
                    assert(r0[n - 1].0 < r0[n - 1].1);
                }
                assert forall|s: u64| #![trigger in_ranges(r0, s)] in_ranges(r0, s) <==> (in_ranges(r0, s) || s == sequence) by {}
            }
            return;
        }
        if start == sequence + 1 {
            pending_acks.set(index, Range { start: sequence, end });
            proof {
                let r1 = ranges_view(pending_acks@);
                assert(r1 =~= r0.update(index as int, (sequence, end)));
                lemma_extend_left(r0, index as int, sequence);
            }
            return;
        } else if end == sequence {
            pending_acks.set(index, Range { start, end: sequence + 1 });
            let next_index = index + 1;
            proof {
                let r1 = ranges_view(pending_acks@);
                assert(r1 =~= r0.update(index as int, (start, (sequence + 1) as u64)));
            }
            if next_index < pending_acks.len() && pending_acks[index].end
                == pending_acks[next_index].start {
                let merged_end = pending_acks[next_index].end;
                pending_acks.set(index, Range { start, end: merged_end });
                pending_acks.remove(next_index);
                proof {
                    let r2 = ranges_view(pending_acks@);
                    assert(r2 =~= r0.update(index as int, (start, r0[index + 1].1)).remove(
                        index + 1,
                    ));
                    lemma_extend_right_merge(r0, index as int, sequence);
                }
            } else {
                proof {
                    lemma_extend_right(r0, index as int, sequence);
                }
            }
            return;
        } else if start > sequence + 1 {
            pending_acks.insert(index, Range { start: sequence, end: sequence + 1 });
            proof {
                let r1 = ranges_view(pending_acks@);
                assert(r1 =~= r0.insert(index as int, (sequence, (sequence + 1) as u64)));
                lemma_insert_range(r0, index as int, sequence);
            }
            return;
        }
        index = index + 1;
    }
    pending_acks.push(Range { start: sequence, end: sequence + 1 });
    proof {
        let r1 = ranges_view(pending_acks@);
        assert(r1 =~= r0.push((sequence, (sequence + 1) as u64)));
        lemma_insert_range(r0, r0.len() as int, sequence);
        assert(r0.insert(r0.len() as int, (sequence, (sequence + 1) as u64)) =~= r1);
        assert(appends_range(r0, sequence));
    }
    if pending_acks.len() > MAX_PENDING_RANGES {
        pending_acks.remove(0);
        proof {
            let r1 = r0.push((sequence, (sequence + 1) as u64));
            let r2 = ranges_view(pending_acks@);
            assert(r2 =~= r1.remove(0));
            assert(r2 =~= r0.subrange(1, r0.len() as int).push((sequence, (sequence + 1) as u64)));
            assert(ranges_wf(r2)) by {
                assert forall|i: int, j: int| 0 <= i < j < r2.len() implies #[trigger] r2[i].1
                    < #[trigger] r2[j].0 by {
                    assert(r2[i] == r1[i + 1]);
                    assert(r2[j] == r1[j + 1]);
                }
            }
            assert(r2[r2.len() - 1] == (sequence, (sequence + 1) as u64));
            lemma_in_ranges_intro(r2, r2.len() - 1, sequence);
        }
    }
}

/// Extending range `i` down by one to `s` keeps the ranges canonical and
/// adds exactly `s`.
proof fn lemma_extend_left(r: Seq<(u64, u64)>, i: int, s: u64)
    requires
        ranges_wf(r),
        0 <= i < r.len(),
        r[i].0 == s + 1,
        forall|j: int| 0 <= j < i ==> #[trigger] r[j].1 < s,
    ensures
        ranges_wf(r.update(i, (s, r[i].1))),
        in_ranges(r.update(i, (s, r[i].1)), s),
        !appends_range(r, s),
        forall|t: u64|
            #![trigger in_ranges(r.update(i, (s, r[i].1)), t)]
            in_ranges(r.update(i, (s, r[i].1)), t) <==> (in_ranges(r, t) || t == s),
{
    let r1 = r.update(i, (s, r[i].1));
    assert forall|a: int, b: int| 0 <= a < b < r1.len() implies #[trigger] r1[a].1 < #[trigger] r1[b].0 by {
        assert(r[a].1 < r[b].0);
    }
    lemma_in_ranges_intro(r1, i, s);
    assert forall|t: u64| #![trigger in_ranges(r1, t)] in_ranges(r1, t) <==> (in_ranges(r, t) || t == s) by {
        if in_ranges(r1, t) {
            let k = choose|k: int| 0 <= k < r1.len() && #[trigger] r1[k].0 <= t && t < r1[k].1;
            if k != i || t != s {
                lemma_in_ranges_intro(r, k, t);
            }
        }
        if in_ranges(r, t) {
            let k = choose|k: int| 0 <= k < r.len() && #[trigger] r[k].0 <= t && t < r[k].1;
            lemma_in_ranges_intro(r1, k, t);
        }
    }
    assert(r[r.len() - 1].1 >= s) by {
        if i < r.len() - 1 {
            assert(r[i].1 < r[r.len() - 1].0);
        }
    }
}

/// Extending range `i` up by one to cover `s` (without reaching the next
/// range) keeps the ranges canonical and adds exactly `s`.
proof fn lemma_extend_right(r: Seq<(u64, u64)>, i: int, s: u64)
    requires
        ranges_wf(r),
        0 <= i < r.len(),
        r[i].1 == s,
        s < u64::MAX,
        i + 1 < r.len() ==> r[i + 1].0 != s + 1,
    ensures
        ranges_wf(r.update(i, (r[i].0, (s + 1) as u64))),
        !appends_range(r, s),
        in_ranges(r.update(i, (r[i].0, (s + 1) as u64)), s),
        forall|t: u64|
            #![trigger in_ranges(r.update(i, (r[i].0, (s + 1) as u64)), t)]
            in_ranges(r.update(i, (r[i].0, (s + 1) as u64)), t) <==> (in_ranges(r, t) || t == s),
{
    let r1 = r.update(i, (r[i].0, (s + 1) as u64));
    if i < r.len() - 1 {
        assert(r[i].1 < r[r.len() - 1].0);
        assert(r[r.len() - 1].0 < r[r.len() - 1].1);
    }
    assert forall|a: int, b: int| 0 <= a < b < r1.len() implies #[trigger] r1[a].1 < #[trigger] r1[b].0 by {
        assert(r[a].1 < r[b].0);
        if a == i && b > i {
            assert(r[i].1 < r[i + 1].0);
            if b > i + 1 {
                assert(r[i + 1].1 < r[b].0);
                assert(r[i + 1].0 < r[i + 1].1);
            }
        }
    }
    lemma_in_ranges_intro(r1, i, s);
    assert forall|t: u64| #![trigger in_ranges(r1, t)] in_ranges(r1, t) <==> (in_ranges(r, t) || t == s) by {
        if in_ranges(r1, t) {
            let k = choose|k: int| 0 <= k < r1.len() && #[trigger] r1[k].0 <= t && t < r1[k].1;
            if k != i || t != s {
                lemma_in_ranges_intro(r, k, t);
            }
        }
        if in_ranges(r, t) {
            let k = choose|k: int| 0 <= k < r.len() && #[trigger] r[k].0 <= t && t < r[k].1;
            lemma_in_ranges_intro(r1, k, t);
        }
    }
}

/// Extending range `i` up to cover `s` when the next range starts at `s + 1`
/// joins the two ranges; the result is canonical and adds exactly `s`.
proof fn lemma_extend_right_merge(r: Seq<(u64, u64)>, i: int, s: u64)
    requires
        ranges_wf(r),
        0 <= i,
        i + 1 < r.len(),
        r[i].1 == s,
        r[i + 1].0 == s + 1,
    ensures
        ranges_wf(r.update(i, (r[i].0, r[i + 1].1)).remove(i + 1)),
        !appends_range(r, s),
        in_ranges(r.update(i, (r[i].0, r[i + 1].1)).remove(i + 1), s),
        forall|t: u64|
            #![trigger in_ranges(r.update(i, (r[i].0, r[i + 1].1)).remove(i + 1), t)]
            in_ranges(r.update(i, (r[i].0, r[i + 1].1)).remove(i + 1), t) <==> (in_ranges(r, t)
                || t == s),
{
    let r1 = r.update(i, (r[i].0, r[i + 1].1)).remove(i + 1);
    assert(r1.len() == r.len() - 1);
    assert forall|a: int| 0 <= a < r1.len() implies r1[a] == (if a < i {
        r[a]
    } else if a == i {
        (r[i].0, r[i + 1].1)
    } else {
        r[a + 1]
    }) by {}
    assert forall|a: int, b: int| 0 <= a < b < r1.len() implies #[trigger] r1[a].1 < #[trigger] r1[b].0 by {
        if a < i {
            assert(r[a].1 < r[b].0);
            if b >= i {
                assert(r[a].1 < r[i].0);
                assert(r[i].0 < r[i].1);
                if b > i {
                    assert(r[a].1 < r[b + 1].0);
                }
            }
        } else if a == i {
            assert(r[i + 1].1 < r[b + 1].0);
        } else {
            assert(r[a + 1].1 < r[b + 1].0);
        }
    }
    assert forall|a: int| 0 <= a < r1.len() implies #[trigger] r1[a].0 < r1[a].1 by {
        if a == i {
            assert(r[i].0 < r[i].1);
            assert(r[i + 1].0 < r[i + 1].1);
        } else if a > i {
            assert(r[a + 1].0 < r[a + 1].1);
        } else {
            assert(r[a].0 < r[a].1);
        }
    }
    assert(r[i].0 < r[i].1);
    lemma_in_ranges_intro(r1, i, s);
    assert forall|t: u64| #![trigger in_ranges(r1, t)] in_ranges(r1, t) <==> (in_ranges(r, t) || t == s) by {
        if in_ranges(r1, t) {
            let k = choose|k: int| 0 <= k < r1.len() && #[trigger] r1[k].0 <= t && t < r1[k].1;
            if k < i {
                lemma_in_ranges_intro(r, k, t);
            } else if k == i {
                if t < s {
                    lemma_in_ranges_intro(r, i, t);
                } else if t > s {
                    lemma_in_ranges_intro(r, i + 1, t);
                }
            } else {
                lemma_in_ranges_intro(r, k + 1, t);
            }
        }
        if in_ranges(r, t) {
            let k = choose|k: int| 0 <= k < r.len() && #[trigger] r[k].0 <= t && t < r[k].1;
            if k < i {
                lemma_in_ranges_intro(r1, k, t);
            } else if k == i || k == i + 1 {
                lemma_in_ranges_intro(r1, i, t);
            } else {
                lemma_in_ranges_intro(r1, k - 1, t);
            }
        }
    }
    assert(r[i].1 < r[r.len() - 1].0 || i + 1 == r.len() - 1);
}

/// A new range `[s, s + 1)` put at index `i`, between the ranges that end
/// before `s` and those that start after `s + 1`, keeps the ranges canonical.
proof fn lemma_insert_range(r: Seq<(u64, u64)>, i: int, s: u64)
    requires
        ranges_wf(r),
        0 <= i <= r.len(),
        s < u64::MAX,
        forall|j: int| 0 <= j < i ==> #[trigger] r[j].1 < s,
        i < r.len() ==> r[i].0 > s + 1,
    ensures
        ranges_wf(r.insert(i, (s, (s + 1) as u64))),
        in_ranges(r.insert(i, (s, (s + 1) as u64)), s),
        i < r.len() ==> !appends_range(r, s),
        forall|t: u64|
            #![trigger in_ranges(r.insert(i, (s, (s + 1) as u64)), t)]
            in_ranges(r.insert(i, (s, (s + 1) as u64)), t) <==> (in_ranges(r, t) || t == s),
{
    let r1 = r.insert(i, (s, (s + 1) as u64));
    assert forall|a: int| 0 <= a < r1.len() implies r1[a] == (if a < i {
        r[a]
    } else if a == i {
        (s, (s + 1) as u64)
    } else {
        r[a - 1]
    }) by {}
    assert forall|a: int, b: int| 0 <= a < b < r1.len() implies #[trigger] r1[a].1 < #[trigger] r1[b].0 by {
        if a < i {
            if b == i {
                assert(r[a].1 < s);
            } else if b < i {
                assert(r[a].1 < r[b].0);
            } else {
                assert(r[a].1 < r[b - 1].0);
            }
        } else if a == i {
            if b - 1 > i {
                assert(r[i].1 < r[b - 1].0);
                assert(r[i].0 < r[i].1);
            }
        } else {
            assert(r[a - 1].1 < r[b - 1].0);
        }
    }
    assert forall|a: int| 0 <= a < r1.len() implies #[trigger] r1[a].0 < r1[a].1 by {
        if a < i {
            assert(r[a].0 < r[a].1);
        } else if a > i {
            assert(r[a - 1].0 < r[a - 1].1);
        }
    }
    lemma_in_ranges_intro(r1, i, s);
    assert forall|t: u64| #![trigger in_ranges(r1, t)] in_ranges(r1, t) <==> (in_ranges(r, t) || t == s) by {
        if in_ranges(r1, t) {
            let k = choose|k: int| 0 <= k < r1.len() && #[trigger] r1[k].0 <= t && t < r1[k].1;
            if k < i {
                lemma_in_ranges_intro(r, k, t);
            } else if k > i {
                lemma_in_ranges_intro(r, k - 1, t);
            }
        }
        if in_ranges(r, t) {
            let k = choose|k: int| 0 <= k < r.len() && #[trigger] r[k].0 <= t && t < r[k].1;
            if k < i {
                lemma_in_ranges_intro(r1, k, t);
            } else {
                lemma_in_ranges_intro(r1, k + 1, t);
            }
        }
    }
    if i < r.len() {
        assert(r[r.len() - 1].1 > s) by {
            assert(r[i].0 < r[i].1);
            if i < r.len() - 1 {
                assert(r[i].1 < r[r.len() - 1].0);
                assert(r[r.len() - 1].0 < r[r.len() - 1].1);
            }
        }
    }
}

/// Drops from the pending acks every sequence up to `largest_ack`.
pub fn remove_acked_up_to(pending_acks: &mut Vec<Range<u64>>, largest_ack: u64)
    requires
        ranges_wf(ranges_view(old(pending_acks)@)),
    ensures
        ranges_wf(ranges_view(final(pending_acks)@)),
        forall|s: u64|
            #![trigger in_ranges(ranges_view(final(pending_acks)@), s)]
            in_ranges(ranges_view(final(pending_acks)@), s) <==> (in_ranges(
                ranges_view(old(pending_acks)@),
                s,
            ) && s > largest_ack),
{
    let ghost r0 = ranges_view(pending_acks@);
    proof {
        assert forall|s: u64| #![trigger in_ranges(r0, s)] in_ranges(r0, s) <==> (in_ranges(r0, s) && s > largest_ack || in_ranges(r0, s) && s <= largest_ack) by {}
    }
    while pending_acks.len() > 0
        invariant
            r0 == ranges_view(old(pending_acks)@),
            ranges_wf(ranges_view(pending_acks@)),
            forall|s: u64|
                #![trigger in_ranges(ranges_view(pending_acks@), s)]
                s > largest_ack ==> (in_ranges(ranges_view(pending_acks@), s) <==> in_ranges(r0, s)),
            forall|s: u64|
                #![trigger in_ranges(ranges_view(pending_acks@), s)]
                in_ranges(ranges_view(pending_acks@), s) ==> in_ranges(r0, s),
        decreases pending_acks@.len(),
    {
        let ghost r = ranges_view(pending_acks@);
        let start = pending_acks[0].start;
        let end = pending_acks[0].end;
        proof {
            assert(r[0] == (start, end));
        }
        if largest_ack < start {
            proof {
                assert forall|s: u64| #![trigger in_ranges(r, s)] in_ranges(r, s) ==> s > largest_ack by {
                    if in_ranges(r, s) {
                        let k = choose|k: int| 0 <= k < r.len() && #[trigger] r[k].0 <= s && s < r[k].1;
                        if k > 0 {
                            assert(r[0].1 < r[k].0);
                            assert(r[0].0 < r[0].1);
                        }
                    }
                }
                assert forall|s: u64| #![trigger in_ranges(r, s)] in_ranges(r, s) <==> (in_ranges(r0, s) && s > largest_ack) by {
                    if in_ranges(r, s) {
                        assert(s > largest_ack);
                    }
                }
            }
            return;
        }
        if end <= largest_ack {
            pending_acks.remove(0);
            proof {
                let r1 = ranges_view(pending_acks@);
                assert(r1 =~= r.subrange(1, r.len() as int));
                lemma_drop_first_range(r, largest_ack);
            }
            continue;
        }
        pending_acks.set(0, Range { start: largest_ack + 1, end });
        proof {
            let r1 = ranges_view(pending_acks@);
            assert(r1 =~= r.update(0, ((largest_ack + 1) as u64, end)));
        }
        if largest_ack + 1 >= end {
            pending_acks.remove(0);
        }
        proof {
            lemma_trim_first_range(r, largest_ack);
            if largest_ack + 1 >= end {
                assert(ranges_view(pending_acks@) =~= r.subrange(1, r.len() as int));
            }
            let f = ranges_view(pending_acks@);
            assert forall|s: u64| #![trigger in_ranges(f, s)] in_ranges(f, s) <==> (in_ranges(r0, s) && s > largest_ack) by {
                if in_ranges(f, s) {
                    assert(in_ranges(r, s) && s > largest_ack);
                }
                if in_ranges(r0, s) && s > largest_ack {
                    assert(in_ranges(r, s));
                }
            }
        }
        return;
    }
    proof {
        assert forall|s: u64| #![trigger in_ranges(ranges_view(pending_acks@), s)] !in_ranges(ranges_view(pending_acks@), s) by {}
    }
}

/// Without its first range, which lies at or below `largest`, canonical
/// ranges lose only sequences at or below `largest`.
proof fn lemma_drop_first_range(r: Seq<(u64, u64)>, largest: u64)
    requires
        ranges_wf(r),
        r.len() > 0,
        r[0].1 <= largest,
    ensures
        ranges_wf(r.subrange(1, r.len() as int)),
        forall|s: u64|
            #![trigger in_ranges(r.subrange(1, r.len() as int), s)]
            (in_ranges(r.subrange(1, r.len() as int), s) ==> in_ranges(r, s)) && (s > largest ==> (
            in_ranges(r.subrange(1, r.len() as int), s) <==> in_ranges(r, s))),
{
    let r1 = r.subrange(1, r.len() as int);
    assert forall|a: int, b: int| 0 <= a < b < r1.len() implies #[trigger] r1[a].1 < #[trigger] r1[b].0 by {
        assert(r[a + 1].1 < r[b + 1].0);
    }
    assert forall|a: int| 0 <= a < r1.len() implies #[trigger] r1[a].0 < r1[a].1 by {
        assert(r[a + 1].0 < r[a + 1].1);
    }
    assert forall|s: u64| #![trigger in_ranges(r1, s)] (in_ranges(r1, s) ==> in_ranges(r, s)) && (s > largest ==> (in_ranges(r1, s) <==> in_ranges(r, s))) by {
        if in_ranges(r1, s) {
            let k = choose|k: int| 0 <= k < r1.len() && #[trigger] r1[k].0 <= s && s < r1[k].1;
            lemma_in_ranges_intro(r, k + 1, s);
        }
        if s > largest && in_ranges(r, s) {
            let k = choose|k: int| 0 <= k < r.len() && #[trigger] r[k].0 <= s && s < r[k].1;
            assert(k != 0);
            lemma_in_ranges_intro(r1, k - 1, s);
        }
    }
}

/// Cutting the first range at `largest` (which it contains) leaves exactly
/// the sequences above `largest`.
proof fn lemma_trim_first_range(r: Seq<(u64, u64)>, largest: u64)
    requires
        ranges_wf(r),
        r.len() > 0,
        r[0].0 <= largest < r[0].1,
    ensures
        largest + 1 < r[0].1 ==> ranges_wf(r.update(0, ((largest + 1) as u64, r[0].1))),
        largest + 1 >= r[0].1 ==> ranges_wf(r.subrange(1, r.len() as int)),
        largest + 1 < r[0].1 ==> forall|s: u64|
            #![trigger in_ranges(r.update(0, ((largest + 1) as u64, r[0].1)), s)]
            in_ranges(r.update(0, ((largest + 1) as u64, r[0].1)), s) <==> (in_ranges(r, s) && s
                > largest),
        largest + 1 >= r[0].1 ==> forall|s: u64|
            #![trigger in_ranges(r.subrange(1, r.len() as int), s)]
            in_ranges(r.subrange(1, r.len() as int), s) <==> (in_ranges(r, s) && s > largest),
{
    let t = r.update(0, ((largest + 1) as u64, r[0].1));
    let d = r.subrange(1, r.len() as int);
    assert forall|a: int, b: int| 0 <= a < b < t.len() implies #[trigger] t[a].1 < #[trigger] t[b].0 by {
        assert(r[a].1 < r[b].0);
    }
    assert forall|a: int, b: int| 0 <= a < b < d.len() implies #[trigger] d[a].1 < #[trigger] d[b].0 by {
        assert(r[a + 1].1 < r[b + 1].0);
    }
    assert forall|a: int| 0 <= a < d.len() implies #[trigger] d[a].0 < d[a].1 by {
        assert(r[a + 1].0 < r[a + 1].1);
    }
    assert forall|s: u64| #![trigger in_ranges(t, s)] largest + 1 < r[0].1 ==> (in_ranges(t, s) <==> (in_ranges(r, s) && s > largest)) by {
        if in_ranges(t, s) {
            let k = choose|k: int| 0 <= k < t.len() && #[trigger] t[k].0 <= s && s < t[k].1;
            lemma_in_ranges_intro(r, k, s);
            if k > 0 {
                assert(r[0].1 < r[k].0);
            }
        }
        if in_ranges(r, s) && s > largest {
            let k = choose|k: int| 0 <= k < r.len() && #[trigger] r[k].0 <= s && s < r[k].1;
            lemma_in_ranges_intro(t, k, s);
        }
    }
    assert forall|s: u64| #![trigger in_ranges(d, s)] largest + 1 >= r[0].1 ==> (in_ranges(d, s) <==> (in_ranges(r, s) && s > largest)) by {
        if in_ranges(d, s) {
            let k = choose|k: int| 0 <= k < d.len() && #[trigger] d[k].0 <= s && s < d[k].1;
            lemma_in_ranges_intro(r, k + 1, s);
            assert(r[0].1 < r[k + 1].0);
        }
        if in_ranges(r, s) && s > largest {
            let k = choose|k: int| 0 <= k < r.len() && #[trigger] r[k].0 <= s && s < r[k].1;
            if largest + 1 >= r[0].1 {
                assert(k != 0);
                lemma_in_ranges_intro(d, k - 1, s);
            }
        }
    }
}

} // verus!
