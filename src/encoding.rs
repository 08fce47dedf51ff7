use vstd::prelude::*;
use crate::types::BoundingRecord;

verus! {

/// `buf` is the records of `groups` one after the other, and group `k` sits
/// at positions `offsets[k]` up to `offsets[k + 1]`.
pub open spec fn encodes(groups: Seq<Seq<BoundingRecord>>, buf: Seq<BoundingRecord>, offsets: Seq<usize>) -> bool {
    &&& offsets.len() == groups.len() + 1
    &&& offsets[0] == 0
    &&& offsets.last() == buf.len()
    &&& forall|k: int| 0 <= k < groups.len() ==> #[trigger] offsets[k + 1] == offsets[k] + groups[k].len()
    &&& forall|k: int, p: int|
        0 <= k < groups.len() && 0 <= p < groups[k].len() ==> buf[offsets[k] + p] == #[trigger] groups[k][p]
}

/// The offsets rise and stay within the buffer.
pub open spec fn valid_offsets(buf: Seq<BoundingRecord>, offsets: Seq<usize>) -> bool {
    &&& offsets.len() >= 1
    &&& forall|k: int| 0 <= k < offsets.len() - 1 ==> #[trigger] offsets[k] <= offsets[k + 1]
    &&& offsets.last() <= buf.len()
}

/// The record lists of a vector of groups.
pub open spec fn record_lists(groups: Seq<Vec<BoundingRecord>>) -> Seq<Seq<BoundingRecord>> {
    groups.map_values(|v: Vec<BoundingRecord>| v@)
}

/// Concatenates the groups into one buffer and records where each begins.
pub fn flatten(groups: &Vec<Vec<BoundingRecord>>) -> (r: (Vec<BoundingRecord>, Vec<usize>))
    ensures
        encodes(record_lists(groups@), r.0@, r.1@),
{
    let ghost gs = record_lists(groups@);
    let mut buf: Vec<BoundingRecord> = Vec::new();
    let mut offsets: Vec<usize> = Vec::new();
    offsets.push(0);
    let mut k: usize = 0;
    while k < groups.len()
        invariant
            gs == record_lists(groups@),
            k <= groups.len(),
            offsets@.len() == k + 1,
            offsets@[0] == 0,
            offsets@.last() == buf@.len(),
            forall|h: int| 0 <= h <= k ==> #[trigger] offsets@[h] <= buf@.len(),
            forall|h: int| 0 <= h < k ==> #[trigger] offsets@[h + 1] == offsets@[h] + gs[h].len(),
            forall|h: int, p: int| 0 <= h < k && 0 <= p < gs[h].len() ==> buf@[offsets@[h] + p] == #[trigger] gs[h][p],
        decreases groups.len() - k,
    {
        let group = &groups[k];
        assert(gs[k as int] == group@);
        let ghost start = buf@.len();
        let mut p: usize = 0;
        while p < group.len()
            invariant
                k < groups.len(),
                *group == groups@[k as int],
                gs == record_lists(groups@),
                gs[k as int] == group@,
                p <= group.len(),
                offsets@.len() == k + 1,
                offsets@[0] == 0,
                offsets@.last() == start,
                buf@.len() == start + p,
                forall|h: int| 0 <= h <= k ==> #[trigger] offsets@[h] <= start,
                forall|h: int| 0 <= h < k ==> #[trigger] offsets@[h + 1] == offsets@[h] + gs[h].len(),
                forall|h: int, q: int| 0 <= h < k && 0 <= q < gs[h].len() ==> buf@[offsets@[h] + q] == #[trigger] gs[h][q],
                forall|q: int| 0 <= q < p ==> buf@[start + q] == #[trigger] group@[q],
            decreases group.len() - p,
        {
            let ghost before = buf@;
            buf.push(group[p]);
            proof {
                assert forall|h: int, q: int| 0 <= h < k && 0 <= q < gs[h].len() implies buf@[offsets@[h] + q]
                    == #[trigger] gs[h][q] by {
                    assert(offsets@[h + 1] == offsets@[h] + gs[h].len());
                    assert(offsets@[h + 1] <= start);
                    assert(buf@[offsets@[h] + q] == before[offsets@[h] + q]);
                }
                assert forall|q: int| 0 <= q < p + 1 implies buf@[start + q] == #[trigger] group@[q] by {
                    if q < p {
                        assert(buf@[start + q] == before[start + q]);
                    }
                }
            }
            p = p + 1;
        }
        offsets.push(buf.len());
        k = k + 1;
    }
    (buf, offsets)
}

proof fn lemma_offset_below_last(buf: Seq<BoundingRecord>, offsets: Seq<usize>, i: int)
    requires
        valid_offsets(buf, offsets),
        0 <= i < offsets.len(),
    ensures
        offsets[i] <= offsets.last(),
    decreases offsets.len() - i,
{
    if i < offsets.len() - 1 {
        assert(offsets[i] <= offsets[i + 1]);
        lemma_offset_below_last(buf, offsets, i + 1);
    }
}

/// Cuts the buffer back into groups along the offsets.
pub fn unflatten(buf: &Vec<BoundingRecord>, offsets: &Vec<usize>) -> (r: Vec<Vec<BoundingRecord>>)
    requires
        valid_offsets(buf@, offsets@),
    ensures
        r@.len() == offsets@.len() - 1,
        forall|k: int| 0 <= k < r@.len() ==> (#[trigger] r@[k])@ == buf@.subrange(offsets@[k] as int, offsets@[k + 1] as int),
{
    let mut r: Vec<Vec<BoundingRecord>> = Vec::new();
    let mut k: usize = 0;
    while k < offsets.len() - 1
        invariant
            valid_offsets(buf@, offsets@),
            k <= offsets@.len() - 1,
            r@.len() == k,
            forall|h: int| 0 <= h < k ==> (#[trigger] r@[h])@ == buf@.subrange(offsets@[h] as int, offsets@[h + 1] as int),
        decreases offsets.len() - k,
    {
        let lo = offsets[k];
        let hi = offsets[k + 1];
        proof {
            assert(offsets@[k as int] <= offsets@[k + 1]);
            lemma_offset_below_last(buf@, offsets@, k + 1);
        }
        let mut group: Vec<BoundingRecord> = Vec::new();
        let mut p: usize = lo;
        while p < hi
            invariant
                lo <= p <= hi <= buf@.len(),
                group@ == buf@.subrange(lo as int, p as int),
            decreases hi - p,
        {
            group.push(buf[p]);
            p = p + 1;
        }
        r.push(group);
        k = k + 1;
    }
    r
}

/// Cutting an encoding along its offsets gives back each group exactly.
pub proof fn lemma_round_trip(groups: Seq<Seq<BoundingRecord>>, buf: Seq<BoundingRecord>, offsets: Seq<usize>)
    requires
        encodes(groups, buf, offsets),
    ensures
        valid_offsets(buf, offsets),
        forall|k: int| 0 <= k < groups.len() ==> buf.subrange(offsets[k] as int, offsets[k + 1] as int) == #[trigger] groups[k],
{
    assert forall|k: int| 0 <= k < offsets.len() - 1 implies #[trigger] offsets[k] <= offsets[k + 1] by {
        assert(offsets[k + 1] == offsets[k] + groups[k].len());
    }
    assert forall|k: int| 0 <= k < groups.len() implies buf.subrange(offsets[k] as int, offsets[k + 1] as int)
        == #[trigger] groups[k] by {
        assert(offsets[k + 1] == offsets[k] + groups[k].len());
        lemma_offset_below_last(buf, offsets, k + 1);
        assert forall|p: int| 0 <= p < groups[k].len() implies buf.subrange(offsets[k] as int, offsets[k + 1] as int)[p]
            == groups[k][p] by {
            assert(buf[offsets[k] + p] == groups[k][p]);
        }
        assert(buf.subrange(offsets[k] as int, offsets[k + 1] as int) =~= groups[k]);
    }
}

} // verus!
