//! The data directory as the engine sees it: its segments, by ascending id, each an
//! append-only string of bytes. Only the last segment is ever appended to.

use crate::engines::kvs::record::{
    append_entry, encodable, encode, encoded_len, lemma_encode_frames, Entry, EntryPos,
};
use vstd::prelude::*;

verus! {

/// One segment: the file `data-<id>` and what it holds.
pub struct Segment {
    pub id: u64,
    pub data: Vec<u8>,
}

/// A segment as mathematical values.
pub ghost struct SegmentView {
    pub id: u64,
    pub data: Seq<u8>,
}

impl View for Segment {
    type V = SegmentView;

    open spec fn view(&self) -> SegmentView {
        SegmentView { id: self.id, data: self.data@ }
    }
}

/// The ids grow strictly from one segment to the next.
pub open spec fn ascending(segs: Seq<SegmentView>) -> bool {
    forall|i: int, j: int| 0 <= i < j < segs.len() ==> segs[i].id < segs[j].id
}

/// Every offset in a segment can be written in 64 bits.
pub open spec fn bounded(segs: Seq<SegmentView>) -> bool {
    forall|i: int| 0 <= i < segs.len() ==> (#[trigger] segs[i]).data.len() <= usize::MAX
}

/// Whether a segment with this id is among `segs`.
pub open spec fn has_segment(segs: Seq<SegmentView>, id: u64) -> bool {
    exists|i: int| 0 <= i < segs.len() && segs[i].id == id
}

/// Place of the segment with this id among `segs`, where there is one.
pub open spec fn segment_place(segs: Seq<SegmentView>, id: u64) -> int {
    choose|i: int| 0 <= i < segs.len() && segs[i].id == id
}

/// Bytes of the segment with this id; empty where there is none.
pub open spec fn segment_data(segs: Seq<SegmentView>, id: u64) -> Seq<u8> {
    if has_segment(segs, id) {
        segs[segment_place(segs, id)].data
    } else {
        Seq::empty()
    }
}

/// Sum of the segments' lengths.
pub open spec fn total_len(segs: Seq<SegmentView>) -> nat
    decreases segs.len(),
{
    if segs.len() == 0 {
        0
    } else {
        total_len(segs.drop_last()) + segs.last().data.len()
    }
}

/// In an ascending sequence an id names one place.
pub proof fn lemma_segment_at(segs: Seq<SegmentView>, i: int)
    requires
        ascending(segs),
        0 <= i < segs.len(),
    ensures
        has_segment(segs, segs[i].id),
        segment_place(segs, segs[i].id) == i,
        segment_data(segs, segs[i].id) == segs[i].data,
{
    let j = segment_place(segs, segs[i].id);
    if j < i {
        assert(segs[j].id < segs[i].id);
    } else if i < j {
        assert(segs[i].id < segs[j].id);
    }
}

/// In an ascending sequence no id is above the last.
pub proof fn lemma_segment_bound(segs: Seq<SegmentView>, id: u64)
    requires
        ascending(segs),
        has_segment(segs, id),
    ensures
        id <= segs.last().id,
{
    let i = segment_place(segs, id);
    if i < segs.len() - 1 {
        assert(segs[i].id < segs[segs.len() - 1].id);
    }
}

/// The directory's segments.
pub struct Directory {
    pub segments: Vec<Segment>,
}

impl View for Directory {
    type V = Seq<SegmentView>;

    open spec fn view(&self) -> Seq<SegmentView> {
        Seq::new(self.segments@.len(), |i: int| self.segments@[i]@)
    }
}

impl Directory {
    /// The segments stand by ascending id, and each fits in memory.
    pub open spec fn wf(&self) -> bool {
        ascending(self@) && bounded(self@)
    }

    /// A directory without segments.
    pub fn new() -> (dir: Directory)
        ensures
            dir@ == Seq::<SegmentView>::empty(),
            dir.wf(),
    {
        let dir = Directory { segments: Vec::new() };
        assert(dir@ =~= Seq::<SegmentView>::empty());
        dir
    }

    /// Number of segments.
    pub fn len(&self) -> (n: usize)
        ensures
            n == self@.len(),
    {
        self.segments.len()
    }

    /// The ids, ascending.
    pub fn ids(&self) -> (ids: Vec<u64>)
        ensures
            ids@.len() == self@.len(),
            forall|i: int| 0 <= i < ids@.len() ==> ids@[i] == self@[i].id,
    {
        let mut ids: Vec<u64> = Vec::new();
        let mut i: usize = 0;
        while i < self.segments.len()
            invariant
                i <= self.segments@.len(),
                ids@.len() == i,
                forall|j: int| 0 <= j < i ==> ids@[j] == self@[j].id,
            decreases self.segments@.len() - i,
        {
            ids.push(self.segments[i].id);
            i += 1;
        }
        ids
    }

    /// The id of the last segment.
    pub fn last_id(&self) -> (r: Option<u64>)
        ensures
            r == if self@.len() == 0 {
                None
            } else {
                Some(self@.last().id)
            },
    {
        let n: usize = self.segments.len();
        if n == 0 {
            None
        } else {
            Some(self.segments[n - 1].id)
        }
    }

    /// Place of the segment with this id.
    pub fn place(&self, id: u64) -> (r: Option<usize>)
        requires
            self.wf(),
        ensures
            r is Some <==> has_segment(self@, id),
            r matches Some(i) ==> i == segment_place(self@, id) && i < self@.len() && self@[i as int].id
                == id,
    {
        let mut i: usize = 0;
        while i < self.segments.len()
            invariant
                self.wf(),
                i <= self.segments@.len(),
                forall|j: int| 0 <= j < i ==> self@[j].id != id,
            decreases self.segments@.len() - i,
        {
            if self.segments[i].id == id {
                proof {
                    lemma_segment_at(self@, i as int);
                }
                return Some(i);
            }
            i += 1;
        }
        None
    }

    /// The bytes of the segment with this id.
    pub fn data(&self, id: u64) -> (r: Option<&Vec<u8>>)
        requires
            self.wf(),
        ensures
            r is Some <==> has_segment(self@, id),
            r matches Some(d) ==> d@ == segment_data(self@, id),
    {
        match self.place(id) {
            Some(i) => Some(&self.segments[i].data),
            None => None,
        }
    }

    /// Sum of the segments' lengths, or nothing where it does not fit in 64 bits.
    pub fn total_bytes(&self) -> (r: Option<u64>)
        ensures
            r == if total_len(self@) <= u64::MAX {
                Some(total_len(self@) as u64)
            } else {
                None
            },
    {
        let mut sum: u64 = 0;
        let mut i: usize = 0;
        while i < self.segments.len()
            invariant
                i <= self.segments@.len(),
                sum == total_len(self@.take(i as int)),
            decreases self.segments@.len() - i,
        {
            let n: usize = self.segments[i].data.len();
            proof {
                assert(self@.take(i + 1).drop_last() =~= self@.take(i as int));
                lemma_total_len_monotone(self@, i + 1);
            }
            if n as u64 > u64::MAX - sum {
                return None;
            }
            sum = sum + n as u64;
            i += 1;
        }
        assert(self@.take(i as int) =~= self@);
        Some(sum)
    }

    /// Adds a segment behind the others. Its id must be greater than theirs: otherwise the
    /// directory stays as it is and the answer is `false`.
    pub fn add_segment(&mut self, id: u64, data: Vec<u8>) -> (added: bool)
        requires
            old(self).wf(),
        ensures
            final(self).wf(),
            added == (old(self)@.len() == 0 || old(self)@.last().id < id),
            added ==> final(self)@ == old(self)@.push(SegmentView { id, data: data@ }),
            !added ==> final(self)@ == old(self)@,
    {
        let n: usize = self.segments.len();
        if n > 0 && self.segments[n - 1].id >= id {
            return false;
        }
        let ghost before = self@;
        let size: usize = data.len();
        self.segments.push(Segment { id, data });
        assert(self@ =~= before.push(SegmentView { id, data: data@ }));
        assert forall|i: int| 0 <= i < self@.len() implies (#[trigger] self@[i]).data.len()
            <= usize::MAX by {
            if i < n {
                assert(before[i].data.len() <= usize::MAX);
            }
        }
        assert forall|i: int, j: int| 0 <= i < j < self@.len() implies self@[i].id < self@[j].id by {
            if j == n {
                if i < n - 1 {
                    assert(before[i].id < before[n - 1].id);
                }
            } else {
                assert(before[i].id < before[j].id);
            }
        }
        true
    }

    /// Appends the record to the last segment and gives its locator. Without a segment
    /// nothing happens.
    pub fn append_entry(&mut self, e: &Entry) -> (r: Option<EntryPos>)
        requires
            old(self).wf(),
        ensures
            final(self).wf(),
            old(self)@.len() == 0 ==> r is None && final(self)@ == old(self)@,
            old(self)@.len() > 0 ==> {
                let last = old(self)@.last();
                &&& encodable(e@)
                &&& last.data.len() + encoded_len(e@) <= usize::MAX
                &&& r == Some(
                    EntryPos {
                        file_id: last.id,
                        pos: last.data.len() as u64,
                        sz: encoded_len(e@) as u64,
                        timestamp: e.timestamp,
                    },
                )
                &&& final(self)@ == old(self)@.drop_last().push(
                    SegmentView { id: last.id, data: last.data + encode(e@) },
                )
            },
    {
        let ghost before = self@;
        match self.segments.pop() {
            None => {
                assert(self@ =~= before);
                None
            },
            Some(last) => {
                let Segment { id, mut data } = last;
                let ghost old_data = data@;
                let p = append_entry(&mut data, id, e);
                self.segments.push(Segment { id, data });
                proof {
                    lemma_encode_frames(e@);
                    assert(before.last() == (SegmentView { id, data: old_data }));
                    assert(self@ =~= before.drop_last().push(
                        SegmentView { id, data: old_data + encode(e@) },
                    ));
                    assert forall|i: int, j: int| 0 <= i < j < self@.len() implies self@[i].id
                        < self@[j].id by {
                        assert(before[i].id < before[j].id);
                    }
                    assert forall|i: int| 0 <= i < self@.len() implies (#[trigger] self@[i]).data.len()
                        <= usize::MAX by {
                        assert(before[i].data.len() <= usize::MAX);
                    }
                }
                Some(p)
            },
        }
    }

    /// Deletes every segment whose id is below `bound`.
    pub fn remove_below(&mut self, bound: u64)
        requires
            old(self).wf(),
        ensures
            final(self).wf(),
            exists|k: int|
                0 <= k <= old(self)@.len() && final(self)@ == old(self)@.skip(k) && (forall|i: int|
                    0 <= i < k ==> old(self)@[i].id < bound) && (forall|i: int|
                    k <= i < old(self)@.len() ==> old(self)@[i].id >= bound),
    {
        let ghost before = self@;
        let ghost mut k: int = 0;
        while self.segments.len() > 0 && self.segments[0].id < bound
            invariant
                before == old(self)@,
                ascending(before),
                0 <= k <= before.len(),
                self@ == before.skip(k),
                forall|i: int| 0 <= i < k ==> before[i].id < bound,
            decreases self.segments@.len(),
        {
            let ghost cur = self@;
            assert(cur.len() == self.segments@.len());
            assert(before.skip(k)[0] == before[k]);
            assert(cur[0].id == self.segments@[0].id);
            self.segments.remove(0);
            proof {
                assert(self@ =~= cur.skip(1));
                assert(cur.skip(1) =~= before.skip(k + 1));
                k = k + 1;
            }
        }
        proof {
            assert forall|i: int| k <= i < before.len() implies before[i].id >= bound by {
                if k < before.len() {
                    assert(self@[0] == before[k]);
                    if k < i {
                        assert(before[k].id < before[i].id);
                    }
                }
            }
        }
    }
}

/// A prefix of the segments holds no more bytes than all of them.
pub proof fn lemma_total_len_monotone(segs: Seq<SegmentView>, n: int)
    requires
        0 <= n <= segs.len(),
    ensures
        total_len(segs.take(n)) <= total_len(segs),
    decreases segs.len(),
{
    if n == segs.len() {
        assert(segs.take(n) =~= segs);
    } else {
        lemma_total_len_monotone(segs.drop_last(), n);
        assert(segs.drop_last().take(n) =~= segs.take(n));
    }
}

} // verus!
