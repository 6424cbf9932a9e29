//! The engine facade: one store over index, writer and reader pool.

use crate::common::{key_not_found, process, Request, Response, Served};
use crate::engines::kvs::directory::{total_len, Directory, SegmentView};
use crate::engines::kvs::index::{index_entries, index_new};
use crate::engines::kvs::log::{
    appended, compacted_segments, index_after, laid_out, lemma_new_active, lemma_recovery_reads_same,
    lemma_replay_valid, lemma_scan_truncated, lookup, replay, replay_stale, rewrites,
    scan, whole_before, Located,
};
use crate::engines::kvs::record::{
    encodable, encode, encoded_len, lemma_encode_frames, EntryPos, EntryView,
};
use crate::engines::kvs::size::{law_tight_empty, tight};
use crate::engines::kvs::store::{
    generate_index, new_entry_writer, saturate, DataReader, DataWriter,
    COMPACTION_THRESHOLD_BYTES,
};
use crate::engines::KvsEngine;
use crate::error::Error;
use vstd::prelude::*;

pub mod compaction;
pub mod directory;
pub mod index;
pub mod log;
pub mod naming;
pub mod record;
pub mod size;
pub mod store;
pub mod sync;

verus! {

/// A key/value store: the writer with index and directory, and this clone's reader pool.
pub struct KvStore {
    pub writer: DataWriter,
    pub reader: DataReader,
}

impl View for KvStore {
    type V = Map<Seq<char>, Seq<char>>;

    /// The live keys with their values.
    open spec fn view(&self) -> Map<Seq<char>, Seq<char>> {
        Map::new(
            |k: Seq<char>| self.writer.value_of(k) is Some,
            |k: Seq<char>| self.writer.value_of(k).unwrap(),
        )
    }
}

/// One mutation of a store.
pub ghost enum Op {
    Put { key: Seq<char>, value: Seq<char> },
    Remove { key: Seq<char> },
}

/// The live keys and values after one mutation. To set an empty value is to remove.
pub open spec fn apply(m: Map<Seq<char>, Seq<char>>, op: Op) -> Map<Seq<char>, Seq<char>> {
    match op {
        Op::Put { key, value } => if value.len() > 0 {
            m.insert(key, value)
        } else {
            m.remove(key)
        },
        Op::Remove { key } => m.remove(key),
    }
}

/// The live keys and values after the mutations, in order.
pub open spec fn apply_all(m: Map<Seq<char>, Seq<char>>, ops: Seq<Op>) -> Map<
    Seq<char>,
    Seq<char>,
>
    decreases ops.len(),
{
    if ops.len() == 0 {
        m
    } else {
        apply(apply_all(m, ops.drop_last()), ops.last())
    }
}

/// What the last mutation of `key` among `ops` left of it: a value, or nothing. `None`
/// where no mutation names the key.
pub open spec fn last_write(ops: Seq<Op>, key: Seq<char>) -> Option<Option<Seq<char>>>
    decreases ops.len(),
{
    if ops.len() == 0 {
        None
    } else {
        match ops.last() {
            Op::Put { key: k, value } => if k == key {
                Some(
                    if value.len() > 0 {
                        Some(value)
                    } else {
                        None
                    },
                )
            } else {
                last_write(ops.drop_last(), key)
            },
            Op::Remove { key: k } => if k == key {
                Some(None)
            } else {
                last_write(ops.drop_last(), key)
            },
        }
    }
}

/// The value of `key` in `m`, if it has one.
pub open spec fn value_in(m: Map<Seq<char>, Seq<char>>, key: Seq<char>) -> Option<Seq<char>> {
    if m.contains_key(key) {
        Some(m[key])
    } else {
        None
    }
}

/// Last write wins: after any sequence of `set` and `remove`, a key reads as its last
/// mutation left it, and as before where none named it.
pub proof fn law_last_write_wins(m: Map<Seq<char>, Seq<char>>, ops: Seq<Op>, key: Seq<char>)
    ensures
        value_in(apply_all(m, ops), key) == match last_write(ops, key) {
            Some(w) => w,
            None => value_in(m, key),
        },
    decreases ops.len(),
{
    if ops.len() > 0 {
        law_last_write_wins(m, ops.drop_last(), key);
    }
}

impl KvStore {
    /// The writer's state is sound.
    pub open spec fn wf(&self) -> bool {
        self.writer.wf()
    }

    /// The store is as `open` leaves it on the segments `dir`: the index that a replay of
    /// the segments builds, a new and empty active segment behind them, the stale bytes
    /// that the replay counted, and reader pools without handles.
    pub open spec fn opened_from(&self, dir: Seq<SegmentView>) -> bool {
        &&& self.writer.entries() == replay(dir)
        &&& self.writer.current_id == if dir.len() == 0 {
            1
        } else {
            dir.last().id + 1
        }
        &&& self.writer.dir@ == dir.push(
            SegmentView { id: self.writer.current_id, data: Seq::empty() },
        )
        &&& self.writer.uncompacted_bytes == saturate(replay_stale(dir) as int)
        &&& self.writer.reader.handles() == Set::<u64>::empty()
        &&& self.writer.reader.last_id == 0
        &&& self.reader.handles() == Set::<u64>::empty()
        &&& self.reader.last_id == 0
    }

    /// Opens a store on the segments of a directory. The index is rebuilt by scanning
    /// each segment in ascending order of id; what follows the last whole record of a
    /// segment is passed over. The active segment is a new one behind the others, with id
    /// 1 in an empty directory. Where the last id is the greatest there is, the answer is
    /// `SegmentIdOverflow`.
    pub fn open(dir: Directory) -> (r: Result<KvStore, Error>)
        requires
            dir.wf(),
        ensures
            dir@.len() > 0 && dir@.last().id == u64::MAX ==> r matches Err(
                Error::SegmentIdOverflow,
            ),
            !(dir@.len() > 0 && dir@.last().id == u64::MAX) ==> (r matches Ok(store)
                && store.wf() && store.opened_from(dir@) && forall|k: Seq<char>|
                store.writer.value_of(k) == lookup(replay(dir@), dir@, k)),
    {
        let mut dir = dir;
        let ghost segs = dir@;
        let current_id: u64 = match dir.last_id() {
            None => 1,
            Some(last) => {
                if last == u64::MAX {
                    return Err(Error::SegmentIdOverflow);
                }
                last + 1
            },
        };
        let mut index = index_new();
        let mut uncompacted_bytes: u64 = 0;
        let mut i: usize = 0;
        assert(segs.take(0) =~= Seq::<SegmentView>::empty());
        while i < dir.segments.len()
            invariant
                dir@ == segs,
                i <= segs.len(),
                segs.len() == dir.segments@.len(),
                index_entries(index) == replay(segs.take(i as int)),
                uncompacted_bytes == saturate(replay_stale(segs.take(i as int)) as int),
            decreases segs.len() - i,
        {
            let stale: u64 = generate_index(
                dir.segments[i].data.as_slice(),
                dir.segments[i].id,
                &mut index,
            );
            uncompacted_bytes = uncompacted_bytes.saturating_add(stale);
            proof {
                let next = segs.take(i + 1);
                assert(next.drop_last() =~= segs.take(i as int));
                assert(next.last() == segs[i as int]);
            }
            i += 1;
        }
        proof {
            assert(segs.take(i as int) =~= segs);
            lemma_replay_valid(segs);
            lemma_new_active(replay(segs), segs, current_id);
        }
        match new_entry_writer(&mut dir, current_id) {
            Ok(()) => {},
            Err(e) => {
                return Err(e);
            },
        }
        let reader = DataReader::new();
        let writer = DataWriter {
            index,
            dir,
            reader: reader.clone(),
            current_id,
            uncompacted_bytes,
        };
        Ok(KvStore { writer, reader })
    }

    /// The directory as the store has written it.
    pub fn directory(&self) -> (dir: &Directory)
        ensures
            *dir == self.writer.dir,
    {
        &self.writer.dir
    }

    /// What a read of `key` makes of the store `before`: the writer is as it was, and
    /// this clone's reader pool is as a read through it leaves it.
    pub open spec fn read_from(&self, before: KvStore, key: Seq<char>) -> bool {
        &&& self.writer == before.writer
        &&& before.writer.pool_after_read(before.reader, self.reader, key)
    }

    /// Closes the store and hands out its directory.
    pub fn close(self) -> (dir: Directory)
        ensures
            dir == self.writer.dir,
    {
        self.writer.dir
    }
}

impl KvsEngine for KvStore {
    open spec fn valid(&self) -> bool {
        self.wf()
    }

    /// The previous value is overwritten, and to set the empty value is to remove the
    /// key's value. The call succeeds; the writer is as `set_from` says for the record
    /// of some timestamp, and the reader pool is as it was.
    open spec fn set_to(
        &self,
        before: &Self,
        key: Seq<char>,
        value: Seq<char>,
        r: Result<(), Error>,
    ) -> bool {
        &&& self@ == apply(before@, Op::Put { key, value })
        &&& self.reader == before.reader
        &&& r is Ok
        &&& before.writer.current_id <= u64::MAX - 2 ==> self.writer.uncompacted_bytes
            <= COMPACTION_THRESHOLD_BYTES
        &&& exists|timestamp: i64| #[trigger]
            self.writer.set_from(before.writer, EntryView { key, value, timestamp }, r)
    }

    /// The answer is the key's value: nothing where the key has no entry or its record
    /// is a tombstone, and never an error. Only the reader pool changes.
    open spec fn got_from(
        &self,
        before: &Self,
        key: Seq<char>,
        r: Result<Option<String>, Error>,
    ) -> bool {
        &&& self.read_from(*before, key)
        &&& match r {
            Ok(Some(value)) => value_in(before@, key) == Some(value@),
            Ok(None) => value_in(before@, key) is None,
            Err(_) => false,
        }
    }

    /// A key without an entry in the index gives `NonexistentKey` and nothing changes.
    /// Otherwise the call succeeds and the key reads nothing; the writer is as
    /// `removed_from` says for the tombstone of some timestamp, and the reader pool is
    /// as it was.
    open spec fn removed_of(&self, before: &Self, key: Seq<char>, r: Result<(), Error>) -> bool {
        &&& self@ == apply(before@, Op::Remove { key })
        &&& self.reader == before.reader
        &&& r is Ok <==> before.writer.entries().contains_key(key)
        &&& r matches Err(e) ==> e is NonexistentKey
        &&& before.writer.current_id <= u64::MAX - 2 && r is Ok
            ==> self.writer.uncompacted_bytes <= COMPACTION_THRESHOLD_BYTES
        &&& exists|timestamp: i64| #[trigger]
            self.writer.removed_from(
                before.writer,
                EntryView { key, value: Seq::empty(), timestamp },
                r,
            )
    }

    /// Sets a `String` key to a `String` value.
    fn set(&mut self, key: String, value: String) -> (r: Result<(), Error>) {
        let r = self.writer.set(key, value);
        assert(self@ =~= apply(old(self)@, Op::Put { key: key@, value: value@ }));
        r
    }

    /// Gets the value of a `String` key.
    fn get(&mut self, key: String) -> (r: Result<Option<String>, Error>) {
        self.writer.get(&mut self.reader, key)
    }

    /// Removes a given `String` key.
    fn remove(&mut self, key: String) -> (r: Result<(), Error>) {
        let r = self.writer.remove(key);
        assert(self@ =~= apply(old(self)@, Op::Remove { key: key@ }));
        r
    }
}

impl KvStore {
    /// Serves one request of the protocol on this store.
    ///
    /// A `Put` sets the value and is answered by the empty status; a `Get` is answered by
    /// the key's value, or by `Key not found` where it has none, and changes only the
    /// reader pool; a `Remove` removes the key and is answered by the empty status, or by
    /// `Key not found` where the key has no entry. No request fails on a sound store.
    pub fn serve(&mut self, request: Request) -> (r: Served)
        requires
            old(self).wf(),
        ensures
            final(self).wf(),
            r.failure is None,
            match request {
                Request::Put { key, value } => {
                    &&& final(self)@ == apply(old(self)@, Op::Put { key: key@, value: value@ })
                    &&& final(self).reader == old(self).reader
                    &&& r.response matches Some(Response::Status(s)) && s@.len() == 0
                    &&& exists|outcome: Result<(), Error>| #[trigger]
                        final(self).set_to(old(self), key@, value@, outcome)
                },
                Request::Get { key } => {
                    &&& final(self)@ == old(self)@
                    &&& final(self).read_from(*old(self), key@)
                    &&& r.response matches Some(Response::Status(s)) && s@ == match value_in(
                        old(self)@,
                        key@,
                    ) {
                        Some(value) => value,
                        None => key_not_found(),
                    }
                },
                Request::Remove { key } => {
                    &&& final(self)@ == apply(old(self)@, Op::Remove { key: key@ })
                    &&& final(self).reader == old(self).reader
                    &&& r.response matches Some(Response::Status(s)) && s@ == if old(
                        self,
                    ).writer.entries().contains_key(key@) {
                        Seq::<char>::empty()
                    } else {
                        key_not_found()
                    }
                    &&& exists|outcome: Result<(), Error>| #[trigger]
                        final(self).removed_of(old(self), key@, outcome)
                },
            },
    {
        process(self, request)
    }
}

/// A store that is closed and opened again reads as it read.
pub proof fn law_reopen_reads_same(store: KvStore, reopened: KvStore)
    requires
        store.wf(),
        reopened.opened_from(store.writer.dir@),
    ensures
        reopened@ == store@,
{
    let segs = store.writer.dir@;
    lemma_replay_valid(segs);
    lemma_new_active(replay(segs), segs, reopened.writer.current_id);
    assert forall|k: Seq<char>| reopened.writer.value_of(k) == store.writer.value_of(k) by {
        lemma_recovery_reads_same(store.writer.entries(), segs, k);
    }
    assert(reopened@ =~= store@);
}

/// The segments as a crash leaves them that cuts the last one to its first `n` bytes.
pub open spec fn cut(segs: Seq<SegmentView>, n: nat) -> Seq<SegmentView> {
    segs.drop_last().push(SegmentView { id: segs.last().id, data: segs.last().data.take(n as int) })
}

/// A store that is opened after a crash holds the index of a prefix of the records: where
/// the last segment is cut anywhere, recovery enters exactly the records that lie whole
/// before the cut, in their order, and passes over the rest.
pub proof fn law_crash_recovers_prefix(segs: Seq<SegmentView>, n: nat) -> (k: nat)
    requires
        segs.len() > 0,
        n <= segs.last().data.len(),
    ensures
        k <= scan(segs.last().data, 0).len(),
        replay(cut(segs, n)) == index_after(
            replay(segs.drop_last()),
            segs.last().id,
            scan(segs.last().data, 0).take(k as int),
        ),
        forall|i: int|
            0 <= i < scan(segs.last().data, 0).len() ==> (i < k <==> #[trigger] whole_before(
                segs.last().data,
                0,
                i,
                n,
            )),
{
    let k = lemma_scan_truncated(segs.last().data, 0, n);
    assert(cut(segs, n).drop_last() =~= segs.drop_last());
    k
}

/// Between compactions the directory grows by the records written and by nothing else:
/// each `set` and each `remove` adds the length of its one record.
pub proof fn law_write_grows(after: DataWriter, before: DataWriter, e: EntryView)
    requires
        before.dir@.len() > 0,
        encodable(e),
        after.written_from(before, e) || after.erased_from(before, e),
    ensures
        total_len(after.dir@) == total_len(before.dir@) + encoded_len(e),
{
    let segs = before.dir@;
    lemma_encode_frames(e);
    assert(appended(segs, encode(e)).drop_last() =~= segs.drop_last());
}

/// In a store opened on an empty directory the count of stale bytes is exact. From
/// there on each `set` and each `remove` keeps it exact and each compaction makes it
/// exact (`law_tight_set`, `law_tight_remove`, `law_tight_compacted`), so that the
/// directory never holds more than the records that the index points at and the stale
/// bytes counted (`law_size`).
pub proof fn law_tight_opened(store: KvStore)
    requires
        store.opened_from(Seq::empty()),
    ensures
        tight(store.writer),
{
    let none = Seq::<SegmentView>::empty();
    assert(replay(none) == Map::<Seq<char>, EntryPos>::empty());
    assert(replay_stale(none) == 0);
    law_tight_empty(store.writer);
}

/// After a compaction the directory holds the bytes of the live records and no others.
pub proof fn law_compacted_size(after: DataWriter, before: DataWriter)
    requires
        after.compacted_from(before),
    ensures
        exists|recs: Seq<Located>| #[trigger]
            rewrites(before.entries(), before.dir@, recs) && total_len(after.dir@) == laid_out(
                recs,
            ).len(),
{
    let recs = choose|recs: Seq<Located>|
        {
            &&& #[trigger] rewrites(before.entries(), before.dir@, recs)
            &&& after.dir@ == compacted_segments(
                (before.current_id + 1) as u64,
                (before.current_id + 2) as u64,
                recs,
            )
            &&& after.entries() == index_after(
                Map::empty(),
                (before.current_id + 1) as u64,
                recs,
            )
        };
    let segs = after.dir@;
    assert(segs.drop_last().drop_last() =~= Seq::<SegmentView>::empty());
    assert(total_len(segs.drop_last().drop_last()) == 0);
    assert(total_len(segs.drop_last()) == laid_out(recs).len());
}

} // verus!
