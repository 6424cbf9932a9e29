//! Reader pool, recovery of the index, and the writer with its compaction.

use crate::engines::kvs::compaction::{
    greatest_key, lemma_rewriting_drop, lemma_rewriting_end, lemma_rewriting_keep,
    lemma_rewriting_start, rewriting,
};
use crate::engines::kvs::directory::{
    ascending, has_segment, lemma_segment_at, lemma_segment_bound, segment_data, Directory,
    SegmentView,
};
use crate::engines::kvs::index::{
    index_contains_key, index_entries, index_get, index_insert, index_remove, index_snapshot,
    snapshot_view,
};
use crate::engines::kvs::log::{
    appended, clean, compacted_segments, displaced, end_locator, entry_at, index_after, index_valid,
    laid_out, lemma_append_keeps_entry, lemma_append_keeps_pointer, lemma_appended_segments,
    lemma_compacted, lemma_end_locator, lemma_replay_append, locator, lookup, points_at,
    recoverable, replay, rewrites, scan, stale_after, Located,
};
use crate::engines::kvs::record::{
    append_entry, decode, decode_value, encodable, encode, encoded_len, read_entry, read_value_at,
    tail, unix_now, Entry, EntryPos, EntryView,
};
use crate::error::Error;
use crossbeam_skiplist::SkipMap;
use std::collections::BTreeMap;
use vstd::prelude::*;
use vstd::std_specs::btree::{axiom_spec_keys_iter, spec_keys_iter};
use vstd::std_specs::iter::IteratorSpec;

verus! {

/// The reader pool of one clone of the engine: the segments on which it holds a read
/// handle, by segment id, and the id below which segments are retired.
///
/// A handle is a place to read a segment from, and the segment's bytes are the
/// directory's; so the map holds nothing under an id but that a handle is held on it.
pub struct DataReader {
    pub readers: BTreeMap<u64, ()>,
    // every handle whose id is below `last_id` is invalid
    pub last_id: u64,
}

impl Clone for DataReader {
    /// The pool of another clone of the engine: the same watermark, no handles.
    fn clone(&self) -> (reader: DataReader)
        ensures
            reader.handles() == Set::<u64>::empty(),
            reader.last_id == self.last_id,
    {
        let reader = DataReader { readers: BTreeMap::new(), last_id: self.last_id };
        assert(reader.handles() =~= Set::<u64>::empty());
        reader
    }
}

impl DataReader {
    /// The ids on which a handle is held.
    pub open spec fn handles(&self) -> Set<u64> {
        self.readers@.dom()
    }

    /// A pool without handles.
    pub fn new() -> (reader: DataReader)
        ensures
            reader.handles() == Set::<u64>::empty(),
            reader.last_id == 0,
    {
        let reader = DataReader { readers: BTreeMap::new(), last_id: 0 };
        assert(reader.handles() =~= Set::<u64>::empty());
        reader
    }

    /// The ids below `last_id` on which a handle is held.
    fn redundant(&self) -> (below: Vec<u64>)
        ensures
            forall|id: u64|
                below@.contains(id) <==> self.handles().contains(id) && id < self.last_id,
    {
        let mut below: Vec<u64> = Vec::new();
        proof {
            axiom_spec_keys_iter(&self.readers);
            let all = spec_keys_iter(&self.readers).remaining();
            assert forall|id: u64|
                self.readers@.contains_key(id) <==> exists|j: int|
                    0 <= j < all.len() && *all[j] == id by {
                let s = all.unref();
                if self.readers@.contains_key(id) {
                    assert(s.to_set().contains(id));
                    let j = choose|j: int| 0 <= j < s.len() && s[j] == id;
                    assert(*all[j] == id);
                }
                if exists|j: int| 0 <= j < all.len() && *all[j] == id {
                    let j = choose|j: int| 0 <= j < all.len() && *all[j] == id;
                    assert(s[j] == id);
                    assert(s.to_set().contains(id));
                }
            }
        }
        for k in it: self.readers.keys()
            invariant
                forall|id: u64|
                    self.readers@.contains_key(id) <==> exists|j: int|
                        0 <= j < it.seq().len() && *it.seq()[j] == id,
                forall|id: u64|
                    below@.contains(id) <==> id < self.last_id && exists|j: int|
                        0 <= j < it.index() && *it.seq()[j] == id,
        {
            let ghost before = below@;
            if *k < self.last_id {
                below.push(*k);
                assert(below@[before.len() as int] == *k);
            }
            assert forall|id: u64|
                below@.contains(id) <==> id < self.last_id && exists|j: int|
                    0 <= j < it.index() + 1 && *it.seq()[j] == id by {
                if below@.contains(id) {
                    let w = choose|w: int| 0 <= w < below@.len() && below@[w] == id;
                    if w < before.len() {
                        assert(before[w] == id);
                        assert(before.contains(id));
                    } else {
                        assert(*it.seq()[it.index()] == id);
                    }
                }
                if id < self.last_id && exists|j: int|
                    0 <= j < it.index() + 1 && *it.seq()[j] == id {
                    let j = choose|j: int| 0 <= j < it.index() + 1 && *it.seq()[j] == id;
                    if j < it.index() {
                        assert(before.contains(id));
                        let w = choose|w: int| 0 <= w < before.len() && before[w] == id;
                        assert(below@[w] == id);
                    }
                }
            }
        }
        below
    }

    /// Drops every handle whose id is below `last_id`.
    pub fn remove_redundancy(&mut self)
        ensures
            final(self).last_id == old(self).last_id,
            forall|id: u64|
                final(self).handles().contains(id) <==> old(self).handles().contains(id) && id
                    >= old(self).last_id,
    {
        let below = self.redundant();
        let mut i: usize = 0;
        while i < below.len()
            invariant
                i <= below@.len(),
                self.last_id == old(self).last_id,
                forall|id: u64|
                    below@.contains(id) <==> old(self).handles().contains(id) && id < self.last_id,
                forall|id: u64|
                    self.handles().contains(id) <==> old(self).handles().contains(id) && !(
                    exists|j: int| 0 <= j < i && below@[j] == id),
            decreases below@.len() - i,
        {
            let ghost before = self.handles();
            self.readers.remove(&below[i]);
            proof {
                let gone = below@[i as int];
                assert(self.handles() =~= before.remove(gone));
                assert forall|id: u64|
                    self.handles().contains(id) <==> old(self).handles().contains(id) && !(
                    exists|j: int| 0 <= j < i + 1 && below@[j] == id) by {
                    if id != gone && before.contains(id) {
                        if exists|j: int| 0 <= j < i + 1 && below@[j] == id {
                            let j = choose|j: int| 0 <= j < i + 1 && below@[j] == id;
                            assert(j < i);
                        }
                    }
                }
            }
            i += 1;
        }
        proof {
            assert forall|id: u64|
                self.handles().contains(id) <==> old(self).handles().contains(id) && id
                    >= self.last_id by {
                if old(self).handles().contains(id) && id < self.last_id {
                    assert(below@.contains(id));
                    let j = choose|j: int| 0 <= j < below@.len() && below@[j] == id;
                    assert(below@[j] == id);
                }
                if old(self).handles().contains(id) && exists|j: int|
                    0 <= j < i && below@[j] == id {
                    let j = choose|j: int| 0 <= j < i && below@[j] == id;
                    assert(below@.contains(id));
                }
            }
        }
    }

    /// Makes sure that a handle on the locator's segment is held, and gives the segment's
    /// bytes. A handle that is missing is opened.
    pub fn check_availability<'a>(&mut self, dir: &'a Directory, p: &EntryPos) -> (r: Result<
        &'a Vec<u8>,
        Error,
    >)
        requires
            dir.wf(),
        ensures
            final(self).last_id == old(self).last_id,
            has_segment(dir@, p.file_id) ==> (r matches Ok(data) && data@ == segment_data(
                dir@,
                p.file_id,
            ) && final(self).handles() == old(self).handles().insert(p.file_id)),
            !has_segment(dir@, p.file_id) ==> (r matches Err(Error::MissingSegment(id)) && id
                == p.file_id && final(self).readers == old(self).readers),
    {
        match dir.data(p.file_id) {
            None => Err(Error::MissingSegment(p.file_id)),
            Some(data) => {
                if !self.readers.contains_key(&p.file_id) {
                    self.readers.insert(p.file_id, ());
                    assert(self.handles() =~= old(self).handles().insert(p.file_id));
                } else {
                    assert(old(self).handles().insert(p.file_id) =~= old(self).handles());
                }
                Ok(data)
            },
        }
    }

    /// Reads timestamp and value of the record at the locator.
    pub fn locate_value(&mut self, dir: &Directory, p: &EntryPos) -> (r: Result<
        (i64, String),
        Error,
    >)
        requires
            dir.wf(),
        ensures
            final(self).last_id == old(self).last_id,
            forall|id: u64|
                final(self).handles().contains(id) <==> (old(self).handles().contains(id) && id
                    >= old(self).last_id) || (id == p.file_id && has_segment(dir@, p.file_id)),
            !has_segment(dir@, p.file_id) ==> (r matches Err(Error::MissingSegment(id)) && id
                == p.file_id),
            has_segment(dir@, p.file_id) ==> match decode_value(
                tail(segment_data(dir@, p.file_id), p.pos as int),
            ) {
                Some((timestamp, value)) => r matches Ok((t, v)) && t == timestamp && v@ == value,
                None => r matches Err(Error::CorruptLog),
            },
    {
        self.remove_redundancy();
        let data = self.check_availability(dir, p)?;
        if p.pos > usize::MAX as u64 {
            return Err(Error::CorruptLog);
        }
        read_value_at(data.as_slice(), p.pos as usize)
    }

    /// Reads the whole record at the locator.
    pub fn locate_entry(&mut self, dir: &Directory, p: &EntryPos) -> (r: Result<Entry, Error>)
        requires
            dir.wf(),
        ensures
            final(self).last_id == old(self).last_id,
            forall|id: u64|
                final(self).handles().contains(id) <==> (old(self).handles().contains(id) && id
                    >= old(self).last_id) || (id == p.file_id && has_segment(dir@, p.file_id)),
            !has_segment(dir@, p.file_id) ==> (r matches Err(Error::MissingSegment(id)) && id
                == p.file_id),
            has_segment(dir@, p.file_id) ==> match decode(
                tail(segment_data(dir@, p.file_id), p.pos as int),
            ) {
                Some(e) => r matches Ok(entry) && entry@ == e,
                None => r matches Err(Error::CorruptLog),
            },
    {
        self.remove_redundancy();
        let data = self.check_availability(dir, p)?;
        if p.pos > usize::MAX as u64 {
            return Err(Error::CorruptLog);
        }
        match read_entry(data.as_slice(), p.pos as usize) {
            Ok((entry, _)) => Ok(entry),
            Err(e) => Err(e),
        }
    }
}

/// The count `n`, held at the greatest 64-bit number where it is above it.
pub open spec fn saturate(n: int) -> u64 {
    if n > u64::MAX {
        u64::MAX
    } else {
        n as u64
    }
}

/// Enters the records of one segment into the index, in the order in which they lie, and
/// gives the sum of the lengths of the locators that were displaced (held at the greatest
/// 64-bit number). The scan ends without error where no whole record begins.
pub fn generate_index(data: &[u8], file_id: u64, index: &mut SkipMap<String, EntryPos>) -> (stale:
    u64)
    ensures
        index_entries(*final(index)) == index_after(
            index_entries(*old(index)),
            file_id,
            scan(data@, 0),
        ),
        stale == saturate(
            stale_after(index_entries(*old(index)), file_id, scan(data@, 0)) as int,
        ),
{
    let ghost index0 = index_entries(*index);
    let ghost mut recs: Seq<Located> = Seq::empty();
    let mut stale: u64 = 0;
    let mut pos: usize = 0;
    let mut done: bool = false;
    assert(recs + scan(data@, 0) =~= scan(data@, 0));
    while !done
        invariant
            pos <= data@.len(),
            scan(data@, 0) == recs + scan(data@, pos as nat),
            done ==> scan(data@, pos as nat).len() == 0,
            index_entries(*index) == index_after(index0, file_id, recs),
            stale == saturate(stale_after(index0, file_id, recs) as int),
        decreases data@.len() - pos + (if done { 0int } else { 1int }),
    {
        match read_entry(data, pos) {
            Err(_) => {
                done = true;
            },
            Ok((e, next)) => {
                let ghost l = Located { entry: e@, pos: pos as nat, len: (next - pos) as nat };
                let Entry { key, value: _, timestamp } = e;
                match index_get(index, &key) {
                    Some(old_p) => {
                        stale = stale.saturating_add(old_p.sz);
                    },
                    None => {},
                }
                let p = EntryPos { file_id, pos: pos as u64, sz: (next - pos) as u64, timestamp };
                index_insert(index, key, p);
                proof {
                    let before = recs;
                    recs = recs.push(l);
                    assert(recs.drop_last() =~= before);
                    assert(scan(data@, pos as nat) =~= seq![l] + scan(data@, next as nat));
                    assert(recs + scan(data@, next as nat) =~= before + scan(data@, pos as nat));
                    assert(p == locator(file_id, l));
                }
                pos = next;
            },
        }
    }
    proof {
        assert(recs + scan(data@, pos as nat) =~= recs);
    }
    stale
}

/// Makes `file_id` the segment that is written to: it must be the last segment, or
/// greater than every id present, and then it is created empty. Otherwise the directory
/// stays as it is and the answer is `SealedSegment`.
pub fn new_entry_writer(dir: &mut Directory, file_id: u64) -> (r: Result<(), Error>)
    requires
        old(dir).wf(),
    ensures
        final(dir).wf(),
        old(dir)@.len() > 0 && old(dir)@.last().id == file_id ==> r is Ok && final(dir)@ == old(
            dir,
        )@,
        old(dir)@.len() == 0 || old(dir)@.last().id < file_id ==> r is Ok && final(dir)@ == old(
            dir,
        )@.push(SegmentView { id: file_id, data: Seq::empty() }),
        old(dir)@.len() > 0 && old(dir)@.last().id > file_id ==> (r matches Err(
            Error::SealedSegment(id),
        ) && id == file_id && final(dir)@ == old(dir)@),
{
    match dir.last_id() {
        Some(last) => {
            if last == file_id {
                return Ok(());
            }
            if last > file_id {
                return Err(Error::SealedSegment(file_id));
            }
        },
        None => {},
    }
    dir.add_segment(file_id, Vec::new());
    Ok(())
}

/// Once the stale bytes are above this, the writer compacts.
pub const COMPACTION_THRESHOLD_BYTES: u64 = 1048576;

/// The writer: it owns the index, the directory with the active segment as its last, and
/// the count of stale bytes.
pub struct DataWriter {
    pub index: SkipMap<String, EntryPos>,
    pub dir: Directory,
    pub reader: DataReader,
    pub current_id: u64,
    pub uncompacted_bytes: u64,
}

impl DataWriter {
    /// What the index holds.
    pub open spec fn entries(&self) -> Map<Seq<char>, EntryPos> {
        index_entries(self.index)
    }

    /// What a read of `key` gives.
    pub open spec fn value_of(&self, key: Seq<char>) -> Option<Seq<char>> {
        lookup(self.entries(), self.dir@, key)
    }

    /// The active segment is the last one and is made of whole records; every locator of
    /// the index points at a record of its key; recovery from the directory would give
    /// the same reads; the pool's handles are on segments that were once written.
    pub open spec fn wf(&self) -> bool {
        &&& self.dir.wf()
        &&& self.dir@.len() > 0
        &&& self.dir@.last().id == self.current_id
        &&& clean(self.dir@.last().data)
        &&& index_valid(self.entries(), self.dir@)
        &&& recoverable(self.entries(), self.dir@)
        &&& self.reader.last_id <= self.current_id
        &&& forall|id: u64| self.reader.handles().contains(id) ==> id <= self.current_id
    }

    /// What a read of `key` makes of a reader pool: the pool has seen the writer's
    /// watermark, and, where the key has an entry, has dropped the handles below the
    /// watermark and holds one on the entry's segment.
    pub open spec fn pool_after_read(
        &self,
        before: DataReader,
        after: DataReader,
        key: Seq<char>,
    ) -> bool {
        &&& after.last_id == self.reader.last_id
        &&& forall|id: u64|
            after.handles().contains(id) <==> if self.entries().contains_key(key) {
                (before.handles().contains(id) && id >= self.reader.last_id) || id
                    == self.entries()[key].file_id
            } else {
                before.handles().contains(id)
            }
    }

    /// Gets the value of the key through a reader pool: nothing where the key has no
    /// entry or its record is a tombstone. The writer is not changed, so any number of
    /// pools can read at once.
    pub fn get(&self, pool: &mut DataReader, key: String) -> (r: Result<Option<String>, Error>)
        requires
            self.wf(),
        ensures
            self.pool_after_read(*old(pool), *final(pool), key@),
            match r {
                Ok(Some(value)) => self.value_of(key@) == Some(value@),
                Ok(None) => self.value_of(key@) is None,
                Err(_) => false,
            },
    {
        pool.last_id = self.reader.last_id;
        assert(pool.handles() == old(pool).handles());
        match index_get(&self.index, &key) {
            None => Ok(None),
            Some(p) => {
                assert(points_at(self.dir@, key@, p));
                match pool.locate_value(&self.dir, &p) {
                    Err(e) => Err(e),
                    Ok((_, value)) => {
                        if !value.as_str().is_empty() {
                            Ok(Some(value))
                        } else {
                            Ok(None)
                        }
                    },
                }
            },
        }
    }

    /// What a compaction of `before` leaves: the live records rewritten by ascending key
    /// into the segment behind the old active one, a new and empty active segment behind
    /// that, nothing else in the directory, and every key reading as it read.
    pub open spec fn compacted_from(&self, before: DataWriter) -> bool {
        &&& exists|recs: Seq<Located>|
            {
                &&& #[trigger] rewrites(before.entries(), before.dir@, recs)
                &&& self.dir@ == compacted_segments(
                    (before.current_id + 1) as u64,
                    (before.current_id + 2) as u64,
                    recs,
                )
                &&& self.entries() == index_after(
                    Map::empty(),
                    (before.current_id + 1) as u64,
                    recs,
                )
            }
        &&& self.current_id == before.current_id + 2
        &&& self.uncompacted_bytes == 0
        &&& self.reader.last_id == before.current_id + 2
        &&& (forall|k: Seq<char>| !before.entries().contains_key(k)) ==> self.reader.handles()
            == before.reader.handles()
        &&& forall|k: Seq<char>| #[trigger]
            greatest_key(before.entries(), k) ==> self.reader.handles() == set![
                before.entries()[k].file_id,
            ]
        &&& forall|k: Seq<char>| self.value_of(k) == before.value_of(k)
    }

    /// Rewrites the live records into a fresh segment and retires the old segments.
    ///
    /// With `old_id` the active segment: the live records go to `old_id + 1`, the new
    /// active segment is `old_id + 2`, and every segment below `old_id + 1` is deleted.
    /// Where no two further ids exist, nothing is changed and the answer is
    /// `SegmentIdOverflow`.
    pub fn compact(&mut self) -> (r: Result<(), Error>)
        requires
            old(self).wf(),
        ensures
            final(self).wf(),
            old(self).current_id > u64::MAX - 2 ==> (r matches Err(Error::SegmentIdOverflow)
                && *final(self) == *old(self)),
            old(self).current_id <= u64::MAX - 2 ==> r is Ok && final(self).compacted_from(
                *old(self),
            ),
    {
        if self.current_id > u64::MAX - 2 {
            return Err(Error::SegmentIdOverflow);
        }
        let compact_id: u64 = self.current_id + 1;
        let active_id: u64 = self.current_id + 2;
        let ghost handles0 = self.reader.handles();
        self.reader.last_id = active_id;
        let snapshot = index_snapshot(&self.index);
        let ghost snap = snapshot_view(snapshot@);
        let ghost index0 = self.entries();
        let ghost segs = self.dir@;
        let ghost mut recs: Seq<Located> = Seq::empty();
        let mut buf: Vec<u8> = Vec::new();
        let mut i: usize = 0;
        proof {
            lemma_rewriting_start(snap, index0, segs, compact_id);
            assert(buf@ =~= laid_out(recs));
            assert(self.reader.handles() == handles0);
        }
        while i < snapshot.len()
            invariant
                i <= snapshot@.len(),
                snap == snapshot_view(snapshot@),
                snap.len() == snapshot@.len(),
                rewriting(snap, index0, segs, self.entries(), recs, i as int, compact_id),
                buf@ == laid_out(recs),
                buf@.len() <= usize::MAX,
                self.dir@ == segs,
                self.dir.wf(),
                segs.len() > 0,
                segs.last().id == self.current_id,
                self.current_id == old(self).current_id,
                self.uncompacted_bytes == old(self).uncompacted_bytes,
                compact_id == self.current_id + 1,
                active_id == self.current_id + 2,
                self.reader.last_id == active_id,
                forall|id: u64| handles0.contains(id) ==> id <= self.current_id,
                i == 0 ==> self.reader.handles() == handles0,
                i > 0 ==> self.reader.handles() == set![snap[i - 1].1.file_id],
                i > 0 ==> has_segment(segs, snap[i - 1].1.file_id),
            decreases snapshot@.len() - i,
        {
            let key: &String = &snapshot[i].0;
            let p: EntryPos = snapshot[i].1;
            let ghost cur = self.entries();
            proof {
                assert(snap[i as int] == (key@, p));
                assert(index0.contains_key(snap[i as int].0) && index0[key@] == p);
                assert(points_at(segs, key@, p));
                if i > 0 {
                    lemma_segment_bound(segs, snap[i - 1].1.file_id);
                }
            }
            let e = match self.reader.locate_entry(&self.dir, &p) {
                Ok(e) => e,
                Err(err) => {
                    return Err(err);
                },
            };
            assert(self.reader.handles() =~= set![p.file_id]);
            if p.timestamp == e.timestamp {
                if e.is_tombstone() {
                    index_remove(&mut self.index, key);
                    proof {
                        lemma_rewriting_drop(snap, index0, segs, cur, recs, i as int, compact_id);
                    }
                } else {
                    let q = append_entry(&mut buf, compact_id, &e);
                    index_insert(&mut self.index, key.clone(), q);
                    proof {
                        lemma_rewriting_keep(
                            snap,
                            index0,
                            segs,
                            cur,
                            recs,
                            i as int,
                            compact_id,
                            e@,
                        );
                        recs = recs.push(
                            Located { entry: e@, pos: laid_out(recs).len(), len: encoded_len(e@) },
                        );
                    }
                }
            }
            i += 1;
        }
        proof {
            lemma_rewriting_end(snap, index0, segs, self.entries(), recs, compact_id);
            lemma_compacted(index0, segs, recs, compact_id, active_id);
        }
        let added = self.dir.add_segment(compact_id, buf);
        let added_active = self.dir.add_segment(active_id, Vec::new());
        let ghost with_both = self.dir@;
        self.dir.remove_below(compact_id);
        self.current_id = active_id;
        self.uncompacted_bytes = 0;
        proof {
            let target = compacted_segments(compact_id, active_id, recs);
            assert(added && added_active);
            assert(with_both =~= segs + target);
            let k = choose|k: int|
                0 <= k <= with_both.len() && self.dir@ == with_both.skip(k) && (forall|j: int|
                    0 <= j < k ==> with_both[j].id < compact_id) && (forall|j: int|
                    k <= j < with_both.len() ==> with_both[j].id >= compact_id);
            if k < segs.len() {
                assert(with_both[k].id == segs[k].id);
                lemma_segment_at(segs, k);
                lemma_segment_bound(segs, segs[k].id);
            }
            if k > segs.len() {
                assert(with_both[segs.len() as int].id == compact_id);
            }
            assert(self.dir@ =~= target);
            if i > 0 {
                lemma_segment_bound(segs, snap[i - 1].1.file_id);
                assert(snap.last() == snap[i - 1]);
            }
        }
        Ok(())
    }

    /// The state after `e` was appended and entered in the index, before any compaction.
    pub open spec fn written_from(&self, before: DataWriter, e: EntryView) -> bool {
        &&& self.dir@ == appended(before.dir@, encode(e))
        &&& self.entries() == before.entries().insert(e.key, end_locator(before.dir@, e))
        &&& self.uncompacted_bytes == saturate(
            before.uncompacted_bytes + displaced(before.entries(), e.key),
        )
        &&& self.current_id == before.current_id
        &&& self.reader == before.reader
    }

    /// The state after the tombstone `e` was appended and its key left the index, before
    /// any compaction.
    pub open spec fn erased_from(&self, before: DataWriter, e: EntryView) -> bool {
        &&& self.dir@ == appended(before.dir@, encode(e))
        &&& self.entries() == before.entries().remove(e.key)
        &&& self.uncompacted_bytes == saturate(
            before.uncompacted_bytes + encoded_len(e) + displaced(before.entries(), e.key),
        )
        &&& self.current_id == before.current_id
        &&& self.reader == before.reader
    }

    /// How a mutation ends once its record is written and the state is `mid`: with more
    /// stale bytes than the threshold the writer compacts. Where no two further segment
    /// ids exist, the compaction is left and the stale bytes stay counted: the mutation
    /// has succeeded all the same.
    pub open spec fn settled_from(&self, mid: DataWriter, r: Result<(), Error>) -> bool {
        &&& r is Ok
        &&& if mid.uncompacted_bytes > COMPACTION_THRESHOLD_BYTES && mid.current_id <= u64::MAX
            - 2 {
            self.compacted_from(mid)
        } else {
            *self == mid
        }
    }

    /// What `set` of the record `e` makes of `before`.
    pub open spec fn set_from(&self, before: DataWriter, e: EntryView, r: Result<(), Error>) -> bool {
        exists|mid: DataWriter| #[trigger]
            mid.written_from(before, e) && self.settled_from(mid, r)
    }

    /// What `remove` with the tombstone `e` makes of `before`.
    pub open spec fn removed_from(
        &self,
        before: DataWriter,
        e: EntryView,
        r: Result<(), Error>,
    ) -> bool {
        if before.entries().contains_key(e.key) {
            exists|mid: DataWriter| #[trigger]
                mid.erased_from(before, e) && self.settled_from(mid, r)
        } else {
            r matches Err(Error::NonexistentKey) && *self == before
        }
    }

    /// Sets the key to the value, with the current time as the record's timestamp.
    pub fn set(&mut self, key: String, value: String) -> (r: Result<(), Error>)
        requires
            old(self).wf(),
        ensures
            final(self).wf(),
            r is Ok,
            old(self).current_id <= u64::MAX - 2 ==> final(self).uncompacted_bytes
                <= COMPACTION_THRESHOLD_BYTES,
            exists|timestamp: i64| #[trigger]
                final(self).set_from(
                    *old(self),
                    EntryView { key: key@, value: value@, timestamp },
                    r,
                ),
            forall|k: Seq<char>|
                final(self).value_of(k) == if k != key@ {
                    old(self).value_of(k)
                } else if value@.len() > 0 {
                    Some(value@)
                } else {
                    None
                },
    {
        let timestamp: i64 = unix_now();
        self.set_at(key, value, timestamp)
    }

    /// Sets the key to the value in a record with the given timestamp: the record is
    /// appended to the active segment, the index takes its locator, the length of the
    /// locator that it displaces counts as stale, and the writer compacts where the stale
    /// bytes are then above the threshold and two further segment ids exist. An empty
    /// value makes the record a tombstone.
    pub fn set_at(&mut self, key: String, value: String, timestamp: i64) -> (r: Result<
        (),
        Error,
    >)
        requires
            old(self).wf(),
        ensures
            final(self).wf(),
            r is Ok,
            old(self).current_id <= u64::MAX - 2 ==> final(self).uncompacted_bytes
                <= COMPACTION_THRESHOLD_BYTES,
            final(self).set_from(*old(self), EntryView { key: key@, value: value@, timestamp }, r),
            forall|k: Seq<char>|
                final(self).value_of(k) == if k != key@ {
                    old(self).value_of(k)
                } else if value@.len() > 0 {
                    Some(value@)
                } else {
                    None
                },
    {
        let e = Entry::with_timestamp(key, value, timestamp);
        let ghost ev = e@;
        match self.write(e) {
            Ok(()) => {},
            Err(err) => {
                return Err(err);
            },
        }
        let ghost mid = *self;
        assert(mid.written_from(*old(self), ev));
        if self.uncompacted_bytes > COMPACTION_THRESHOLD_BYTES && self.current_id <= u64::MAX - 2 {
            self.compact()
        } else {
            Ok(())
        }
    }

    /// Removes the key, with the current time as the tombstone's timestamp.
    pub fn remove(&mut self, key: String) -> (r: Result<(), Error>)
        requires
            old(self).wf(),
        ensures
            final(self).wf(),
            r is Ok <==> old(self).entries().contains_key(key@),
            r matches Err(e) ==> e is NonexistentKey,
            old(self).current_id <= u64::MAX - 2 && r is Ok ==> final(self).uncompacted_bytes
                <= COMPACTION_THRESHOLD_BYTES,
            exists|timestamp: i64| #[trigger]
                final(self).removed_from(
                    *old(self),
                    EntryView { key: key@, value: Seq::empty(), timestamp },
                    r,
                ),
            r matches Err(Error::NonexistentKey) <==> !old(self).entries().contains_key(key@),
            forall|k: Seq<char>|
                final(self).value_of(k) == if k != key@ {
                    old(self).value_of(k)
                } else {
                    None
                },
    {
        let timestamp: i64 = unix_now();
        self.remove_at(key, timestamp)
    }

    /// Removes the key with a tombstone of the given timestamp. A key without an entry in
    /// the index gives `NonexistentKey` and changes nothing. Otherwise the tombstone is
    /// appended, the key leaves the index, the tombstone's own length and that of the
    /// locator displaced count as stale, and the writer compacts where the stale bytes
    /// are then above the threshold and two further segment ids exist.
    pub fn remove_at(&mut self, key: String, timestamp: i64) -> (r: Result<(), Error>)
        requires
            old(self).wf(),
        ensures
            final(self).wf(),
            r is Ok <==> old(self).entries().contains_key(key@),
            r matches Err(e) ==> e is NonexistentKey,
            old(self).current_id <= u64::MAX - 2 && r is Ok ==> final(self).uncompacted_bytes
                <= COMPACTION_THRESHOLD_BYTES,
            final(self).removed_from(
                *old(self),
                EntryView { key: key@, value: Seq::empty(), timestamp },
                r,
            ),
            r matches Err(Error::NonexistentKey) <==> !old(self).entries().contains_key(key@),
            forall|k: Seq<char>|
                final(self).value_of(k) == if k != key@ {
                    old(self).value_of(k)
                } else {
                    None
                },
    {
        if !index_contains_key(&self.index, &key) {
            return Err(Error::NonexistentKey);
        }
        let e = Entry::with_timestamp(key, String::new(), timestamp);
        let ghost ev = e@;
        match self.erase(e) {
            Ok(()) => {},
            Err(err) => {
                return Err(err);
            },
        }
        let ghost mid = *self;
        assert(mid.erased_from(*old(self), ev));
        if self.uncompacted_bytes > COMPACTION_THRESHOLD_BYTES && self.current_id <= u64::MAX - 2 {
            self.compact()
        } else {
            Ok(())
        }
    }

    /// Appends the tombstone and takes its key out of the index. The tombstone's length
    /// and that of the locator displaced are added to the stale bytes.
    fn erase(&mut self, e: Entry) -> (r: Result<(), Error>)
        requires
            old(self).wf(),
            e@.value.len() == 0,
        ensures
            final(self).wf(),
            r is Ok,
            final(self).erased_from(*old(self), e@),
            forall|k: Seq<char>|
                final(self).value_of(k) == if k == e@.key {
                    None
                } else {
                    old(self).value_of(k)
                },
    {
        let ghost segs = self.dir@;
        let ghost index0 = self.entries();
        let p = match self.dir.append_entry(&e) {
            Some(p) => p,
            None => {
                return Err(Error::MissingSegment(self.current_id));
            },
        };
        self.uncompacted_bytes = self.uncompacted_bytes.saturating_add(p.sz);
        match index_get(&self.index, &e.key) {
            Some(old_p) => {
                self.uncompacted_bytes = self.uncompacted_bytes.saturating_add(old_p.sz);
            },
            None => {},
        }
        index_remove(&mut self.index, &e.key);
        proof {
            lemma_writer_append(index0, segs, e@);
        }
        Ok(())
    }

    /// Appends the record and enters its locator in the index. The length of the locator
    /// that it displaces is added to the stale bytes.
    fn write(&mut self, e: Entry) -> (r: Result<(), Error>)
        requires
            old(self).wf(),
        ensures
            final(self).wf(),
            r is Ok,
            final(self).written_from(*old(self), e@),
            forall|k: Seq<char>|
                final(self).value_of(k) == if k == e@.key {
                    if e@.value.len() > 0 {
                        Some(e@.value)
                    } else {
                        None
                    }
                } else {
                    old(self).value_of(k)
                },
    {
        let ghost segs = self.dir@;
        let ghost index0 = self.entries();
        let p = match self.dir.append_entry(&e) {
            Some(p) => p,
            None => {
                return Err(Error::MissingSegment(self.current_id));
            },
        };
        match index_get(&self.index, &e.key) {
            Some(old_p) => {
                self.uncompacted_bytes = self.uncompacted_bytes.saturating_add(old_p.sz);
            },
            None => {},
        }
        let ghost ev = e@;
        index_insert(&mut self.index, e.key, p);
        proof {
            lemma_writer_append(index0, segs, ev);
            assert(self.entries().remove(ev.key) =~= index0.remove(ev.key));
        }
        Ok(())
    }
}

/// How an append of `e` to the last segment changes what is read: the index with the new
/// locator under the key of `e` stays valid and recoverable, and reads of other keys
/// give what they gave.
pub proof fn lemma_writer_append(
    index: Map<Seq<char>, EntryPos>,
    segs: Seq<SegmentView>,
    e: EntryView,
)
    requires
        ascending(segs),
        segs.len() > 0,
        clean(segs.last().data),
        index_valid(index, segs),
        recoverable(index, segs),
        encodable(e),
        segs.last().data.len() + encoded_len(e) <= u64::MAX,
    ensures
        clean(appended(segs, encode(e)).last().data),
        index_valid(index.insert(e.key, end_locator(segs, e)), appended(segs, encode(e))),
        index_valid(index.remove(e.key), appended(segs, encode(e))),
        recoverable(index.insert(e.key, end_locator(segs, e)), appended(segs, encode(e))),
        e.value.len() == 0 ==> recoverable(index.remove(e.key), appended(segs, encode(e))),
        entry_at(appended(segs, encode(e)), end_locator(segs, e)) == Some(e),
        forall|k: Seq<char>|
            k != e.key ==> lookup(
                index.insert(e.key, end_locator(segs, e)),
                appended(segs, encode(e)),
                k,
            ) == lookup(index, segs, k),
        forall|k: Seq<char>|
            k != e.key ==> lookup(index.remove(e.key), appended(segs, encode(e)), k) == lookup(
                index,
                segs,
                k,
            ),
{
    let app = appended(segs, encode(e));
    let p = end_locator(segs, e);
    lemma_appended_segments(segs, encode(e));
    lemma_end_locator(segs, e);
    lemma_replay_append(segs, e);
    assert forall|k: Seq<char>| #[trigger] index.contains_key(k) implies points_at(
        app,
        k,
        index[k],
    ) by {
        lemma_append_keeps_pointer(segs, encode(e), k, index[k]);
    }
    assert forall|k: Seq<char>| #[trigger]
        index.contains_key(k) implies entry_at(app, index[k]) == entry_at(segs, index[k]) by {
        lemma_append_keeps_entry(segs, encode(e), index[k]);
    }
    assert forall|k: Seq<char>|
        k != e.key && !index.contains_key(k) && #[trigger] replay(segs).contains_key(
            k,
        ) implies entry_at(app, replay(segs)[k]) == entry_at(segs, replay(segs)[k]) by {
        lemma_append_keeps_entry(segs, encode(e), replay(segs)[k]);
    }
}

} // verus!
