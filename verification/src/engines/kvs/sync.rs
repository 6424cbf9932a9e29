//! Bringing the files of the data directory up to the segments that the store holds.
//!
//! Segments only grow at their end and leave only whole, so a file on disk is brought up
//! to its segment by appending what it lacks, and a file without segment is deleted. The
//! plan lists these operations; performed in order on files that lag behind the segments,
//! they leave on disk exactly the segments.

use crate::engines::kvs::directory::{
    ascending, has_segment, lemma_segment_at, segment_data, segment_place, Directory,
    SegmentView,
};
use vstd::prelude::*;

verus! {

/// A file of the data directory: the id in its name, and its length.
pub struct FileLen {
    pub id: u64,
    pub len: usize,
}

/// An operation on a file of the data directory.
#[derive(Clone, Copy, Debug, PartialEq, Eq, Structural)]
pub enum FileOp {
    /// Append to `data-<id>` the bytes of segment `id` from offset `from` on. The file
    /// is created where it is missing.
    Append { id: u64, from: usize },
    /// Delete `data-<id>`.
    Remove { id: u64 },
}

/// The length that the listing gives for the file `id`, if it lists the file.
pub open spec fn listed_len(files: Seq<FileLen>, id: u64) -> Option<usize>
    decreases files.len(),
{
    if files.len() == 0 {
        None
    } else if files[0].id == id {
        Some(files[0].len)
    } else {
        listed_len(files.drop_first(), id)
    }
}

/// What brings one file up to its segment: nothing where it has the segment's length, the
/// missing bytes where it is shorter or missing, and a fresh copy where it is longer.
pub open spec fn segment_ops(seg: SegmentView, have: Option<usize>) -> Seq<FileOp> {
    match have {
        None => seq![FileOp::Append { id: seg.id, from: 0 }],
        Some(len) => if len == seg.data.len() {
            Seq::empty()
        } else if len < seg.data.len() {
            seq![FileOp::Append { id: seg.id, from: len }]
        } else {
            seq![FileOp::Remove { id: seg.id }, FileOp::Append { id: seg.id, from: 0 }]
        },
    }
}

/// What brings the files of the first `n` segments up to them.
pub open spec fn append_plan(segs: Seq<SegmentView>, files: Seq<FileLen>, n: nat) -> Seq<FileOp>
    decreases n,
{
    if n == 0 {
        Seq::empty()
    } else {
        append_plan(segs, files, (n - 1) as nat) + segment_ops(
            segs[n - 1],
            listed_len(files, segs[n - 1].id),
        )
    }
}

/// The deletions of those among the first `m` files that have no segment.
pub open spec fn remove_plan(segs: Seq<SegmentView>, files: Seq<FileLen>, m: nat) -> Seq<FileOp>
    decreases m,
{
    if m == 0 {
        Seq::empty()
    } else {
        remove_plan(segs, files, (m - 1) as nat) + if has_segment(segs, files[m - 1].id) {
            Seq::empty()
        } else {
            seq![FileOp::Remove { id: files[m - 1].id }]
        }
    }
}

/// The whole plan: first the appends, segment by segment, then the deletions.
pub open spec fn sync_plan(segs: Seq<SegmentView>, files: Seq<FileLen>) -> Seq<FileOp> {
    append_plan(segs, files, segs.len()) + remove_plan(segs, files, files.len())
}

/// The files after one operation.
pub open spec fn apply_op(disk: Map<u64, Seq<u8>>, segs: Seq<SegmentView>, op: FileOp) -> Map<
    u64,
    Seq<u8>,
> {
    match op {
        FileOp::Append { id, from } => {
            let old = if disk.contains_key(id) {
                disk[id]
            } else {
                Seq::empty()
            };
            disk.insert(id, old + segment_data(segs, id).skip(from as int))
        },
        FileOp::Remove { id } => disk.remove(id),
    }
}

/// The files after the operations, in order.
pub open spec fn run(disk: Map<u64, Seq<u8>>, segs: Seq<SegmentView>, ops: Seq<FileOp>) -> Map<
    u64,
    Seq<u8>,
>
    decreases ops.len(),
{
    if ops.len() == 0 {
        disk
    } else {
        apply_op(run(disk, segs, ops.drop_last()), segs, ops.last())
    }
}

/// The files that hold exactly the segments.
pub open spec fn disk_of(segs: Seq<SegmentView>) -> Map<u64, Seq<u8>> {
    Map::new(|id: u64| has_segment(segs, id), |id: u64| segment_data(segs, id))
}

/// The listing names the files on disk, each with its length.
pub open spec fn describes(files: Seq<FileLen>, disk: Map<u64, Seq<u8>>) -> bool {
    forall|id: u64|
        #![trigger disk.contains_key(id)]
        #![trigger listed_len(files, id)]
        match listed_len(files, id) {
            Some(len) => disk.contains_key(id) && disk[id].len() == len,
            None => !disk.contains_key(id),
        }
}

/// Each file that is no longer than its segment holds the segment's first bytes.
pub open spec fn lags(disk: Map<u64, Seq<u8>>, segs: Seq<SegmentView>) -> bool {
    forall|id: u64|
        #![trigger disk.contains_key(id)]
        disk.contains_key(id) && has_segment(segs, id) && disk[id].len() <= segment_data(
            segs,
            id,
        ).len() ==> disk[id] == segment_data(segs, id).take(disk[id].len() as int)
}

impl Directory {
    /// The operations that bring the files of the data directory up to the segments,
    /// given the files with their lengths.
    pub fn sync_plan(&self, files: &Vec<FileLen>) -> (ops: Vec<FileOp>)
        requires
            self.wf(),
        ensures
            ops@ == sync_plan(self@, files@),
    {
        let mut ops: Vec<FileOp> = Vec::new();
        let mut i: usize = 0;
        while i < self.segments.len()
            invariant
                i <= self.segments@.len(),
                self@.len() == self.segments@.len(),
                ops@ == append_plan(self@, files@, i as nat),
            decreases self.segments@.len() - i,
        {
            let id: u64 = self.segments[i].id;
            let size: usize = self.segments[i].data.len();
            let ghost before = ops@;
            match file_len(files, id) {
                None => {
                    ops.push(FileOp::Append { id, from: 0 });
                },
                Some(len) => {
                    if len < size {
                        ops.push(FileOp::Append { id, from: len });
                    } else if len > size {
                        ops.push(FileOp::Remove { id });
                        ops.push(FileOp::Append { id, from: 0 });
                    }
                },
            }
            assert(ops@ =~= before + segment_ops(self@[i as int], listed_len(files@, id)));
            i += 1;
        }
        let ghost appends = ops@;
        let mut j: usize = 0;
        while j < files.len()
            invariant
                self.wf(),
                j <= files@.len(),
                ops@ == appends + remove_plan(self@, files@, j as nat),
            decreases files@.len() - j,
        {
            let ghost before = ops@;
            if self.place(files[j].id).is_none() {
                ops.push(FileOp::Remove { id: files[j].id });
            }
            assert(ops@ =~= appends + remove_plan(self@, files@, (j + 1) as nat));
            j += 1;
        }
        ops
    }
}

/// The length that the listing gives for the file `id`.
pub fn file_len(files: &Vec<FileLen>, id: u64) -> (r: Option<usize>)
    ensures
        r == listed_len(files@, id),
{
    let mut i: usize = 0;
    assert(files@.skip(0) =~= files@);
    while i < files.len()
        invariant
            i <= files@.len(),
            listed_len(files@, id) == listed_len(files@.skip(i as int), id),
        decreases files@.len() - i,
    {
        if files[i].id == id {
            return Some(files[i].len);
        }
        assert(files@.skip(i as int).drop_first() =~= files@.skip(i + 1));
        i += 1;
    }
    None
}

/// Operations in two runs are as one run of both.
pub proof fn lemma_run_concat(
    disk: Map<u64, Seq<u8>>,
    segs: Seq<SegmentView>,
    a: Seq<FileOp>,
    b: Seq<FileOp>,
)
    ensures
        run(disk, segs, a + b) == run(run(disk, segs, a), segs, b),
    decreases b.len(),
{
    if b.len() == 0 {
        assert(a + b =~= a);
    } else {
        lemma_run_concat(disk, segs, a, b.drop_last());
        assert((a + b).drop_last() =~= a + b.drop_last());
    }
}

/// A run of one operation is that operation.
pub proof fn lemma_run_one(disk: Map<u64, Seq<u8>>, segs: Seq<SegmentView>, op: FileOp)
    ensures
        run(disk, segs, seq![op]) == apply_op(disk, segs, op),
{
    let ops = seq![op];
    assert(ops.drop_last() =~= Seq::<FileOp>::empty());
    assert(run(disk, segs, ops.drop_last()) == disk);
}

/// A listed file is one of the listing.
pub proof fn lemma_listed(files: Seq<FileLen>, id: u64)
    ensures
        listed_len(files, id) is Some <==> exists|j: int|
            0 <= j < files.len() && (#[trigger] files[j]).id == id,
    decreases files.len(),
{
    if files.len() > 0 {
        let rest = files.drop_first();
        lemma_listed(rest, id);
        if files[0].id != id {
            if listed_len(rest, id) is Some {
                let j = choose|j: int| 0 <= j < rest.len() && (#[trigger] rest[j]).id == id;
                assert(files[j + 1].id == id);
            }
            if exists|j: int| 0 <= j < files.len() && (#[trigger] files[j]).id == id {
                let j = choose|j: int| 0 <= j < files.len() && (#[trigger] files[j]).id == id;
                assert(rest[j - 1].id == id);
            }
        } else {
            assert(files[0].id == id);
        }
    }
}

/// The file `id` is after what it was before.
pub open spec fn untouched(before: Map<u64, Seq<u8>>, after: Map<u64, Seq<u8>>, id: u64) -> bool {
    &&& after.contains_key(id) <==> before.contains_key(id)
    &&& before.contains_key(id) ==> after[id] == before[id]
}

/// None of the first `n` segments has this id.
pub open spec fn beyond(segs: Seq<SegmentView>, n: nat, id: u64) -> bool {
    forall|j: int| 0 <= j < n ==> (#[trigger] segs[j]).id != id
}

/// None of the first `m` files has this id.
pub open spec fn unlisted(files: Seq<FileLen>, m: nat, id: u64) -> bool {
    forall|j: int| 0 <= j < m ==> (#[trigger] files[j]).id != id
}

/// After the appends for the first `n` segments their files hold them, and the other
/// files are as they were.
proof fn lemma_appends(
    disk: Map<u64, Seq<u8>>,
    segs: Seq<SegmentView>,
    files: Seq<FileLen>,
    n: nat,
)
    requires
        ascending(segs),
        describes(files, disk),
        lags(disk, segs),
        n <= segs.len(),
    ensures
        forall|j: int|
            0 <= j < n ==> run(disk, segs, append_plan(segs, files, n)).contains_key(
                (#[trigger] segs[j]).id,
            ) && run(disk, segs, append_plan(segs, files, n))[segs[j].id] == segs[j].data,
        forall|id: u64| #[trigger]
            beyond(segs, n, id) ==> untouched(
                disk,
                run(disk, segs, append_plan(segs, files, n)),
                id,
            ),
    decreases n,
{
    if n > 0 {
        let m = (n - 1) as nat;
        lemma_appends(disk, segs, files, m);
        let seg = segs[n - 1];
        let id = seg.id;
        let before = run(disk, segs, append_plan(segs, files, m));
        let step = segment_ops(seg, listed_len(files, id));
        let after = run(disk, segs, append_plan(segs, files, n));
        lemma_run_concat(disk, segs, append_plan(segs, files, m), step);
        lemma_segment_at(segs, n - 1);
        assert(beyond(segs, m, id)) by {
            assert forall|j: int| 0 <= j < m implies (#[trigger] segs[j]).id != id by {
                assert(segs[j].id < segs[n - 1].id);
            }
        }
        assert(untouched(disk, before, id));
        let data = seg.data;
        assert(data.skip(0) =~= data);
        match listed_len(files, id) {
            None => {
                lemma_run_one(before, segs, FileOp::Append { id, from: 0 });
                assert(step =~= seq![FileOp::Append { id, from: 0 }]);
                assert(after[id] =~= data);
            },
            Some(len) => {
                assert(before[id] == disk[id]);
                if len == data.len() {
                    assert(disk[id] =~= data);
                    assert(after == before);
                } else if len < data.len() {
                    lemma_run_one(before, segs, FileOp::Append { id, from: len });
                    assert(step =~= seq![FileOp::Append { id, from: len }]);
                    assert(data.take(len as int) + data.skip(len as int) =~= data);
                } else {
                    let first = seq![FileOp::Remove { id }];
                    lemma_run_one(before, segs, FileOp::Remove { id });
                    assert(step.drop_last() =~= first);
                    assert(after == apply_op(before.remove(id), segs, step.last()));
                    assert(after[id] =~= data);
                }
            },
        }
        assert(after.contains_key(id) && after[id] == data);
        assert forall|other: u64| other != id implies untouched(before, after, other) by {}
        assert forall|j: int| 0 <= j < n implies after.contains_key((#[trigger] segs[j]).id)
            && after[segs[j].id] == segs[j].data by {
            if j < m {
                assert(segs[j].id != id);
                assert(before.contains_key(segs[j].id));
                assert(untouched(before, after, segs[j].id));
            }
        }
        assert forall|other: u64| #[trigger] beyond(segs, n, other) implies untouched(
            disk,
            after,
            other,
        ) by {
            assert(segs[n - 1].id != other);
            assert(beyond(segs, m, other));
            assert(untouched(disk, before, other));
            assert(untouched(before, after, other));
        }
    } else {
        assert(run(disk, segs, append_plan(segs, files, 0)) == disk);
    }
}

/// After the deletions for the first `m` files the files with a segment are as they
/// were, and of the others those are left that are not among the first `m`.
proof fn lemma_removes(
    disk: Map<u64, Seq<u8>>,
    segs: Seq<SegmentView>,
    files: Seq<FileLen>,
    m: nat,
)
    requires
        m <= files.len(),
    ensures
        forall|id: u64| #[trigger]
            has_segment(segs, id) ==> untouched(
                disk,
                run(disk, segs, remove_plan(segs, files, m)),
                id,
            ),
        forall|id: u64|
            !has_segment(segs, id) ==> (#[trigger] run(
                disk,
                segs,
                remove_plan(segs, files, m),
            ).contains_key(id) <==> disk.contains_key(id) && unlisted(files, m, id)),
    decreases m,
{
    if m > 0 {
        let k = (m - 1) as nat;
        lemma_removes(disk, segs, files, k);
        let before = run(disk, segs, remove_plan(segs, files, k));
        let after = run(disk, segs, remove_plan(segs, files, m));
        let gone = files[m - 1].id;
        if has_segment(segs, gone) {
            assert(remove_plan(segs, files, m) =~= remove_plan(segs, files, k));
        } else {
            let step = seq![FileOp::Remove { id: gone }];
            lemma_run_concat(disk, segs, remove_plan(segs, files, k), step);
            lemma_run_one(before, segs, FileOp::Remove { id: gone });
            assert(after == before.remove(gone));
        }
        assert forall|id: u64| #[trigger] has_segment(segs, id) implies untouched(
            disk,
            after,
            id,
        ) by {
            assert(untouched(disk, before, id));
        }
        assert forall|id: u64| !has_segment(segs, id) implies (#[trigger] after.contains_key(id)
            <==> disk.contains_key(id) && unlisted(files, m, id)) by {
            assert(before.contains_key(id) <==> disk.contains_key(id) && unlisted(files, k, id));
            if id == gone {
                assert(files[m - 1].id == id);
                assert(!unlisted(files, m, id));
            } else {
                if unlisted(files, k, id) {
                    assert forall|j: int| 0 <= j < m implies (#[trigger] files[j]).id != id by {
                        if j == m - 1 {
                            assert(files[j].id == gone);
                        }
                    }
                }
            }
        }
    } else {
        assert(run(disk, segs, remove_plan(segs, files, 0)) == disk);
    }
}

/// The plan brings the disk up to the directory: performed in order on files that the
/// listing describes and that lag behind their segments, its operations leave on disk
/// the segments and nothing else.
pub proof fn law_sync(disk: Map<u64, Seq<u8>>, segs: Seq<SegmentView>, files: Seq<FileLen>)
    requires
        ascending(segs),
        describes(files, disk),
        lags(disk, segs),
    ensures
        run(disk, segs, sync_plan(segs, files)) == disk_of(segs),
{
    let appends = append_plan(segs, files, segs.len());
    let removes = remove_plan(segs, files, files.len());
    let mid = run(disk, segs, appends);
    let end = run(mid, segs, removes);
    lemma_run_concat(disk, segs, appends, removes);
    lemma_appends(disk, segs, files, segs.len());
    lemma_removes(mid, segs, files, files.len());
    assert forall|id: u64| end.contains_key(id) <==> has_segment(segs, id) by {
        if has_segment(segs, id) {
            let i = segment_place(segs, id);
            assert(mid.contains_key(segs[i].id));
            assert(untouched(mid, end, id));
        } else {
            assert(beyond(segs, segs.len(), id));
            assert(untouched(disk, mid, id));
            lemma_listed(files, id);
            if end.contains_key(id) {
                assert(unlisted(files, files.len(), id));
                assert(disk.contains_key(id));
                assert(listed_len(files, id) is Some);
                let j = choose|j: int| 0 <= j < files.len() && (#[trigger] files[j]).id == id;
                assert(files[j].id == id);
            }
        }
    }
    assert forall|id: u64| has_segment(segs, id) implies end[id] == segment_data(segs, id) by {
        let i = segment_place(segs, id);
        lemma_segment_at(segs, i);
        assert(mid.contains_key(segs[i].id) && mid[segs[i].id] == segs[i].data);
        assert(untouched(mid, end, id));
    }
    assert(end =~= disk_of(segs));
}

} // verus!
