//! What a directory means: the records that a scan of each segment finds, and the index
//! that replaying them builds.

use crate::engines::kvs::directory::{
    ascending, bounded, has_segment, lemma_segment_at, segment_data, segment_place, SegmentView,
};
use crate::engines::kvs::record::{
    decode, decode_value, encodable, encode, encoded_len, framed_key, framed_len, framed_value,
    frames, header_timestamp, law_decode_encode, lemma_encode_frames, tail, EntryPos, EntryView,
    HEADER_LEN,
};
use crate::engines::kvs::index::{key_lt, lemma_key_lt_irreflexive};
use vstd::prelude::*;

verus! {

/// A record found in a segment, with its offset and length.
pub ghost struct Located {
    pub entry: EntryView,
    pub pos: nat,
    pub len: nat,
}

/// The locator of a record found in the segment `file_id`.
pub open spec fn locator(file_id: u64, l: Located) -> EntryPos {
    EntryPos { file_id, pos: l.pos as u64, sz: l.len as u64, timestamp: l.entry.timestamp }
}

/// The records of a segment from `pos` on, in order, up to the first place where no whole
/// record begins. A partial record at the end is left out.
pub open spec fn scan(data: Seq<u8>, pos: nat) -> Seq<Located>
    decreases data.len() - pos,
{
    let t = tail(data, pos as int);
    if pos < data.len() && decode(t) is Some {
        seq![Located { entry: decode(t).unwrap(), pos, len: framed_len(t) }] + scan(
            data,
            pos + framed_len(t),
        )
    } else {
        Seq::empty()
    }
}

/// Where the scan from `pos` stops.
pub open spec fn scan_end(data: Seq<u8>, pos: nat) -> nat
    decreases data.len() - pos,
{
    let t = tail(data, pos as int);
    if pos < data.len() && decode(t) is Some {
        scan_end(data, pos + framed_len(t))
    } else {
        pos
    }
}

/// The segment is made of whole records and nothing else.
pub open spec fn clean(data: Seq<u8>) -> bool {
    scan_end(data, 0) == data.len()
}

/// The index after the records of one segment were entered in order: a later record of a
/// key displaces the earlier one.
pub open spec fn index_after(
    index: Map<Seq<char>, EntryPos>,
    file_id: u64,
    recs: Seq<Located>,
) -> Map<Seq<char>, EntryPos>
    decreases recs.len(),
{
    if recs.len() == 0 {
        index
    } else {
        index_after(index, file_id, recs.drop_last()).insert(
            recs.last().entry.key,
            locator(file_id, recs.last()),
        )
    }
}

/// Length of the record that `key` had in the index, or 0 where it had none.
pub open spec fn displaced(index: Map<Seq<char>, EntryPos>, key: Seq<char>) -> nat {
    if index.contains_key(key) {
        index[key].sz as nat
    } else {
        0
    }
}

/// Sum of the lengths of the locators displaced while the records were entered.
pub open spec fn stale_after(
    index: Map<Seq<char>, EntryPos>,
    file_id: u64,
    recs: Seq<Located>,
) -> nat
    decreases recs.len(),
{
    if recs.len() == 0 {
        0
    } else {
        stale_after(index, file_id, recs.drop_last()) + displaced(
            index_after(index, file_id, recs.drop_last()),
            recs.last().entry.key,
        )
    }
}

/// The index that recovery builds: the segments in ascending order, each scanned from its
/// start.
pub open spec fn replay(segs: Seq<SegmentView>) -> Map<Seq<char>, EntryPos>
    decreases segs.len(),
{
    if segs.len() == 0 {
        Map::empty()
    } else {
        index_after(replay(segs.drop_last()), segs.last().id, scan(segs.last().data, 0))
    }
}

/// The stale bytes that recovery counts.
pub open spec fn replay_stale(segs: Seq<SegmentView>) -> nat
    decreases segs.len(),
{
    if segs.len() == 0 {
        0
    } else {
        replay_stale(segs.drop_last()) + stale_after(
            replay(segs.drop_last()),
            segs.last().id,
            scan(segs.last().data, 0),
        )
    }
}

/// The record that a locator points at, where it points at one.
pub open spec fn entry_at(segs: Seq<SegmentView>, p: EntryPos) -> Option<EntryView> {
    if has_segment(segs, p.file_id) {
        decode(tail(segment_data(segs, p.file_id), p.pos as int))
    } else {
        None
    }
}

/// The locator gives the full byte range of one record, and that record has this key and
/// the locator's timestamp.
pub open spec fn points_at(segs: Seq<SegmentView>, key: Seq<char>, p: EntryPos) -> bool {
    &&& has_segment(segs, p.file_id)
    &&& p.pos + p.sz <= segment_data(segs, p.file_id).len()
    &&& entry_at(segs, p) matches Some(e)
    &&& e.key == key
    &&& e.timestamp == p.timestamp
    &&& p.sz == framed_len(tail(segment_data(segs, p.file_id), p.pos as int))
}

/// Every locator of the index points at a record of its key.
pub open spec fn index_valid(index: Map<Seq<char>, EntryPos>, segs: Seq<SegmentView>) -> bool {
    forall|k: Seq<char>| #[trigger] index.contains_key(k) ==> points_at(segs, k, index[k])
}

/// What a read of `key` gives: the value of the record that the index points at, and
/// nothing where the key has no entry or the record is a tombstone.
pub open spec fn lookup(
    index: Map<Seq<char>, EntryPos>,
    segs: Seq<SegmentView>,
    key: Seq<char>,
) -> Option<Seq<char>> {
    if index.contains_key(key) {
        match entry_at(segs, index[key]) {
            Some(e) => if e.value.len() > 0 {
                Some(e.value)
            } else {
                None
            },
            None => None,
        }
    } else {
        None
    }
}

/// More bytes behind a record change nothing of how it reads.
pub proof fn lemma_decode_prefix(bytes: Seq<u8>, extra: Seq<u8>)
    requires
        frames(bytes),
    ensures
        frames(bytes + extra),
        framed_len(bytes + extra) == framed_len(bytes),
        framed_key(bytes + extra) == framed_key(bytes),
        framed_value(bytes + extra) == framed_value(bytes),
        header_timestamp(bytes + extra) == header_timestamp(bytes),
        decode(bytes + extra) == decode(bytes),
        decode_value(bytes + extra) == decode_value(bytes),
{
    let b = bytes + extra;
    assert(b.subrange(0, 8) =~= bytes.subrange(0, 8));
    assert(b.subrange(8, 16) =~= bytes.subrange(8, 16));
    assert(b.subrange(16, 24) =~= bytes.subrange(16, 24));
    assert(framed_key(b) =~= framed_key(bytes));
    assert(framed_value(b) =~= framed_value(bytes));
}

/// A record appended to a clean segment is found by the scan, behind the others.
pub proof fn lemma_scan_append(data: Seq<u8>, pos: nat, e: EntryView)
    requires
        encodable(e),
        pos <= data.len(),
        scan_end(data, pos) == data.len(),
    ensures
        scan(data + encode(e), pos) == scan(data, pos).push(
            Located { entry: e, pos: data.len(), len: encoded_len(e) },
        ),
        scan_end(data + encode(e), pos) == data.len() + encoded_len(e),
    decreases data.len() - pos,
{
    let enc = encode(e);
    let all = data + enc;
    lemma_encode_frames(e);
    law_decode_encode(e);
    if pos == data.len() {
        assert(tail(all, pos as int) =~= enc);
        let next = pos + encoded_len(e);
        assert(next == all.len());
        assert(scan(all, next) =~= Seq::<Located>::empty());
        assert(scan_end(all, next) == next);
        assert(scan(data, pos) =~= Seq::<Located>::empty());
        assert(scan(all, pos) =~= scan(data, pos).push(
            Located { entry: e, pos: data.len(), len: encoded_len(e) },
        ));
    } else {
        let t = tail(data, pos as int);
        assert(decode(t) is Some);
        assert(tail(all, pos as int) =~= t + enc);
        lemma_decode_prefix(t, enc);
        let next = pos + framed_len(t);
        lemma_scan_append(data, next, e);
        assert(scan(all, pos) =~= scan(data, pos).push(
            Located { entry: e, pos: data.len(), len: encoded_len(e) },
        ));
    }
}

/// Each record that the scan finds reads back at its offset, and lies within the segment.
pub proof fn lemma_scan_reads_back(data: Seq<u8>, pos: nat, i: int)
    requires
        0 <= i < scan(data, pos).len(),
    ensures
        pos <= scan(data, pos)[i].pos,
        scan(data, pos)[i].pos + scan(data, pos)[i].len <= data.len(),
        frames(tail(data, scan(data, pos)[i].pos as int)),
        decode(tail(data, scan(data, pos)[i].pos as int)) == Some(scan(data, pos)[i].entry),
        framed_len(tail(data, scan(data, pos)[i].pos as int)) == scan(data, pos)[i].len,
    decreases data.len() - pos,
{
    let t = tail(data, pos as int);
    if i > 0 {
        lemma_scan_reads_back(data, pos + framed_len(t), i - 1);
    }
}

/// A record reads the same from any cut behind its end.
pub proof fn lemma_decode_whole(bytes: Seq<u8>, m: int)
    requires
        frames(bytes),
        framed_len(bytes) <= m <= bytes.len(),
    ensures
        frames(bytes.take(m)),
        decode(bytes.take(m)) == decode(bytes),
{
    let front = bytes.take(m);
    assert(front.subrange(0, 8) =~= bytes.subrange(0, 8));
    assert(front.subrange(8, 16) =~= bytes.subrange(8, 16));
    assert(front.subrange(16, 24) =~= bytes.subrange(16, 24));
    assert(framed_key(front) =~= framed_key(bytes));
    assert(framed_value(front) =~= framed_value(bytes));
}

/// The `i`-th record that a scan finds lies whole within the first `n` bytes.
pub open spec fn whole_before(data: Seq<u8>, pos: nat, i: int, n: nat) -> bool {
    scan(data, pos)[i].pos + scan(data, pos)[i].len <= n
}

/// Recovery after a crash: a scan of the first `n` bytes of a segment finds exactly the
/// records that lie whole before the cut, in their order: a prefix of the records that a
/// scan of the whole segment finds. What is cut off in the middle of a record is left
/// out, never surfaced.
pub proof fn lemma_scan_truncated(data: Seq<u8>, pos: nat, n: nat) -> (k: nat)
    requires
        n <= data.len(),
    ensures
        k <= scan(data, pos).len(),
        scan(data.take(n as int), pos) == scan(data, pos).take(k as int),
        forall|i: int|
            0 <= i < scan(data, pos).len() ==> (i < k <==> #[trigger] whole_before(
                data,
                pos,
                i,
                n,
            )),
    decreases data.len() - pos,
{
    let cut = data.take(n as int);
    let t = tail(data, pos as int);
    let tc = tail(cut, pos as int);
    let all = scan(data, pos);
    if pos < n && decode(tc) is Some {
        assert(t =~= tc + data.subrange(n as int, data.len() as int));
        lemma_decode_prefix(tc, data.subrange(n as int, data.len() as int));
        let next = pos + framed_len(t);
        let k = lemma_scan_truncated(data, next, n);
        assert(scan(cut, pos) =~= all.take(k + 1 as int));
        assert forall|i: int| 0 <= i < all.len() implies (i < k + 1 <==> #[trigger] whole_before(
            data,
            pos,
            i,
            n,
        )) by {
            if i > 0 {
                assert(all[i] == scan(data, next)[i - 1]);
                assert(whole_before(data, next, i - 1, n) == whole_before(data, pos, i, n));
            }
        }
        k + 1
    } else {
        assert(scan(cut, pos) =~= all.take(0));
        assert forall|i: int| 0 <= i < all.len() implies !#[trigger] whole_before(
            data,
            pos,
            i,
            n,
        ) by {
            lemma_scan_reads_back(data, pos, i);
            lemma_scan_reads_back(data, pos, 0);
            if all[0].pos + all[0].len <= n {
                assert(tc =~= t.take(n - pos));
                lemma_decode_whole(t, n - pos);
            }
            if i > 0 {
                let next = pos + framed_len(t);
                assert(all[i] == scan(data, next)[i - 1]);
                lemma_scan_reads_back(data, next, i - 1);
            }
        }
        0
    }
}

/// The segments after `bytes` were appended to the last of them.
pub open spec fn appended(segs: Seq<SegmentView>, bytes: Seq<u8>) -> Seq<SegmentView> {
    segs.drop_last().push(SegmentView { id: segs.last().id, data: segs.last().data + bytes })
}

/// The locator of a record that is appended to the last segment.
pub open spec fn end_locator(segs: Seq<SegmentView>, e: EntryView) -> EntryPos {
    EntryPos {
        file_id: segs.last().id,
        pos: segs.last().data.len() as u64,
        sz: encoded_len(e) as u64,
        timestamp: e.timestamp,
    }
}

/// The index holds what recovery would rebuild, but for keys that were removed: of those
/// recovery finds the tombstone.
pub open spec fn recoverable(index: Map<Seq<char>, EntryPos>, segs: Seq<SegmentView>) -> bool {
    &&& forall|k: Seq<char>| #[trigger]
        index.contains_key(k) ==> replay(segs).contains_key(k) && replay(segs)[k] == index[k]
    &&& forall|k: Seq<char>|
        !index.contains_key(k) && #[trigger] replay(segs).contains_key(k) ==> (entry_at(
            segs,
            replay(segs)[k],
        ) matches Some(e) && e.value.len() == 0)
}

/// Appending to the last segment leaves every segment in its place and the others as they
/// were.
pub proof fn lemma_appended_segments(segs: Seq<SegmentView>, bytes: Seq<u8>)
    requires
        ascending(segs),
        segs.len() > 0,
    ensures
        ascending(appended(segs, bytes)),
        appended(segs, bytes).len() == segs.len(),
        appended(segs, bytes).last().id == segs.last().id,
        appended(segs, bytes).drop_last() == segs.drop_last(),
        forall|id: u64| has_segment(appended(segs, bytes), id) == has_segment(segs, id),
        forall|id: u64| #[trigger]
            has_segment(segs, id) ==> segment_data(appended(segs, bytes), id) == if id
                == segs.last().id {
                segs.last().data + bytes
            } else {
                segment_data(segs, id)
            },
{
    let app = appended(segs, bytes);
    assert(app.drop_last() =~= segs.drop_last());
    assert forall|i: int, j: int| 0 <= i < j < app.len() implies app[i].id < app[j].id by {
        assert(segs[i].id < segs[j].id);
    }
    assert forall|id: u64| has_segment(app, id) == has_segment(segs, id) by {
        if has_segment(app, id) {
            let i = segment_place(app, id);
            assert(segs[i].id == id);
        }
        if has_segment(segs, id) {
            let i = segment_place(segs, id);
            assert(app[i].id == id);
        }
    }
    assert forall|id: u64| #[trigger] has_segment(segs, id) implies segment_data(app, id) == if id
        == segs.last().id {
        segs.last().data + bytes
    } else {
        segment_data(segs, id)
    } by {
        let i = segment_place(segs, id);
        lemma_segment_at(segs, i);
        assert(app[i].id == id);
        lemma_segment_at(app, i);
        lemma_segment_at(segs, segs.len() - 1);
    }
}

/// A record that could be read before the append reads the same after it.
pub proof fn lemma_append_keeps_entry(segs: Seq<SegmentView>, bytes: Seq<u8>, p: EntryPos)
    requires
        ascending(segs),
        segs.len() > 0,
        entry_at(segs, p) is Some,
    ensures
        entry_at(appended(segs, bytes), p) == entry_at(segs, p),
        has_segment(appended(segs, bytes), p.file_id),
        p.file_id != segs.last().id ==> segment_data(appended(segs, bytes), p.file_id)
            == segment_data(segs, p.file_id),
        p.file_id == segs.last().id ==> tail(
            segment_data(appended(segs, bytes), p.file_id),
            p.pos as int,
        ) == tail(segment_data(segs, p.file_id), p.pos as int) + bytes,
        framed_len(tail(segment_data(appended(segs, bytes), p.file_id), p.pos as int))
            == framed_len(tail(segment_data(segs, p.file_id), p.pos as int)),
{
    lemma_appended_segments(segs, bytes);
    if p.file_id == segs.last().id {
        let d = segs.last().data;
        let t = tail(d, p.pos as int);
        assert(segment_data(segs, p.file_id) == d);
        assert(tail(d + bytes, p.pos as int) =~= t + bytes);
        lemma_decode_prefix(t, bytes);
    }
}

/// A locator that pointed at a record before the append points at it after.
pub proof fn lemma_append_keeps_pointer(
    segs: Seq<SegmentView>,
    bytes: Seq<u8>,
    key: Seq<char>,
    p: EntryPos,
)
    requires
        ascending(segs),
        segs.len() > 0,
        points_at(segs, key, p),
    ensures
        points_at(appended(segs, bytes), key, p),
{
    lemma_append_keeps_entry(segs, bytes, p);
    lemma_appended_segments(segs, bytes);
}

/// The locator of an appended record points at it.
pub proof fn lemma_end_locator(segs: Seq<SegmentView>, e: EntryView)
    requires
        ascending(segs),
        segs.len() > 0,
        encodable(e),
        segs.last().data.len() + encoded_len(e) <= u64::MAX,
    ensures
        points_at(appended(segs, encode(e)), e.key, end_locator(segs, e)),
        entry_at(appended(segs, encode(e)), end_locator(segs, e)) == Some(e),
{
    let d = segs.last().data;
    lemma_appended_segments(segs, encode(e));
    lemma_segment_at(segs, segs.len() - 1);
    lemma_encode_frames(e);
    law_decode_encode(e);
    assert(tail(d + encode(e), d.len() as int) =~= encode(e));
}

/// Recovery finds an appended record: the index that it rebuilds has the record's
/// locator under the record's key, and is otherwise as before.
pub proof fn lemma_replay_append(segs: Seq<SegmentView>, e: EntryView)
    requires
        segs.len() > 0,
        clean(segs.last().data),
        encodable(e),
    ensures
        replay(appended(segs, encode(e))) == replay(segs).insert(e.key, end_locator(segs, e)),
        replay_stale(appended(segs, encode(e))) == replay_stale(segs) + displaced(
            replay(segs),
            e.key,
        ),
        clean(segs.last().data + encode(e)),
{
    let d = segs.last().data;
    let app = appended(segs, encode(e));
    let l = Located { entry: e, pos: d.len(), len: encoded_len(e) };
    lemma_scan_append(d, 0, e);
    lemma_encode_frames(e);
    assert(app.drop_last() =~= segs.drop_last());
    assert(scan(d, 0).push(l).drop_last() =~= scan(d, 0));
}

/// The encodings of the records, end to end.
pub open spec fn laid_out(recs: Seq<Located>) -> Seq<u8>
    decreases recs.len(),
{
    if recs.len() == 0 {
        Seq::empty()
    } else {
        laid_out(recs.drop_last()) + encode(recs.last().entry)
    }
}

/// `recs` are the records that the index leads to and that are no tombstones: each once,
/// by ascending key, with the offsets that they have when laid end to end.
pub open spec fn rewrites(
    index: Map<Seq<char>, EntryPos>,
    segs: Seq<SegmentView>,
    recs: Seq<Located>,
) -> bool {
    &&& forall|i: int|
        0 <= i < recs.len() ==> {
            let e = (#[trigger] recs[i]).entry;
            index.contains_key(e.key) && entry_at(segs, index[e.key]) == Some(e) && e.value.len()
                > 0
        }
    &&& forall|k: Seq<char>|
        index.contains_key(k) && #[trigger] lookup(index, segs, k) is Some ==> exists|i: int|
            0 <= i < recs.len() && recs[i].entry.key == k
    &&& forall|i: int, j: int|
        0 <= i < j < recs.len() ==> key_lt(
            (#[trigger] recs[i]).entry.key,
            (#[trigger] recs[j]).entry.key,
        )
    &&& scan(laid_out(recs), 0) == recs
    &&& clean(laid_out(recs))
}

/// The directory after a compaction that wrote `recs`: the compacted segment, then the
/// new, empty active segment.
pub open spec fn compacted_segments(compact_id: u64, active_id: u64, recs: Seq<Located>) -> Seq<
    SegmentView,
> {
    seq![
        SegmentView { id: compact_id, data: laid_out(recs) },
        SegmentView { id: active_id, data: Seq::empty() },
    ]
}

/// Which keys the index has after records were entered.
pub proof fn lemma_index_after_keys(
    index: Map<Seq<char>, EntryPos>,
    file_id: u64,
    recs: Seq<Located>,
)
    ensures
        forall|k: Seq<char>|
            #![trigger index_after(index, file_id, recs).contains_key(k)]
            index_after(index, file_id, recs).contains_key(k) <==> index.contains_key(k) || exists|
                i: int,
            |
                0 <= i < recs.len() && (#[trigger] recs[i]).entry.key == k,
    decreases recs.len(),
{
    if recs.len() > 0 {
        let front = recs.drop_last();
        let n = recs.len() - 1;
        lemma_index_after_keys(index, file_id, front);
        let before = index_after(index, file_id, front);
        let after = index_after(index, file_id, recs);
        assert(after == before.insert(recs[n].entry.key, locator(file_id, recs[n])));
        assert forall|k: Seq<char>| after.contains_key(k) implies index.contains_key(k) || exists|
            i: int,
        |
            0 <= i < recs.len() && (#[trigger] recs[i]).entry.key == k by {
            if k == recs[n].entry.key {
            } else if !index.contains_key(k) {
                assert(before.contains_key(k));
                let i = choose|i: int| 0 <= i < front.len() && (#[trigger] front[i]).entry.key == k;
                assert(recs[i].entry.key == k);
            }
        }
        assert forall|k: Seq<char>|
            index.contains_key(k) || (exists|i: int|
                0 <= i < recs.len() && (#[trigger] recs[i]).entry.key == k) implies after.contains_key(
            k,
        ) by {
            if index.contains_key(k) {
                assert(before.contains_key(k));
            } else {
                let i = choose|i: int| 0 <= i < recs.len() && (#[trigger] recs[i]).entry.key == k;
                if i < n {
                    assert(front[i].entry.key == k);
                    assert(before.contains_key(k));
                }
            }
        }
    }
}

/// Where no key occurs twice among the records, each key's locator is that of its
/// record.
pub proof fn lemma_index_after_distinct(
    index: Map<Seq<char>, EntryPos>,
    file_id: u64,
    recs: Seq<Located>,
    i: int,
)
    requires
        0 <= i < recs.len(),
        forall|a: int, b: int|
            0 <= a < b < recs.len() ==> (#[trigger] recs[a]).entry.key != (
            #[trigger] recs[b]).entry.key,
    ensures
        index_after(index, file_id, recs).contains_key(recs[i].entry.key),
        index_after(index, file_id, recs)[recs[i].entry.key] == locator(file_id, recs[i]),
    decreases recs.len(),
{
    if i < recs.len() - 1 {
        let front = recs.drop_last();
        assert forall|a: int, b: int| 0 <= a < b < front.len() implies (
        #[trigger] front[a]).entry.key != (#[trigger] front[b]).entry.key by {
            assert(recs[a].entry.key != recs[b].entry.key);
        }
        lemma_index_after_distinct(index, file_id, front, i);
        assert(recs[i].entry.key != recs[recs.len() - 1].entry.key);
    }
}

/// After a compaction the index is what recovery rebuilds, every locator points at its
/// record in the compacted segment, and each key reads as it read before.
pub proof fn lemma_compacted(
    index: Map<Seq<char>, EntryPos>,
    segs: Seq<SegmentView>,
    recs: Seq<Located>,
    compact_id: u64,
    active_id: u64,
)
    requires
        rewrites(index, segs, recs),
        compact_id < active_id,
        laid_out(recs).len() <= usize::MAX,
    ensures
        ascending(compacted_segments(compact_id, active_id, recs)),
        clean(compacted_segments(compact_id, active_id, recs).last().data),
        replay(compacted_segments(compact_id, active_id, recs)) == index_after(
            Map::empty(),
            compact_id,
            recs,
        ),
        index_valid(
            index_after(Map::empty(), compact_id, recs),
            compacted_segments(compact_id, active_id, recs),
        ),
        recoverable(
            index_after(Map::empty(), compact_id, recs),
            compacted_segments(compact_id, active_id, recs),
        ),
        forall|k: Seq<char>|
            lookup(
                index_after(Map::empty(), compact_id, recs),
                compacted_segments(compact_id, active_id, recs),
                k,
            ) == lookup(index, segs, k),
{
    let after = compacted_segments(compact_id, active_id, recs);
    let data = laid_out(recs);
    let written = index_after(Map::<Seq<char>, EntryPos>::empty(), compact_id, recs);
    let one = seq![SegmentView { id: compact_id, data }];
    assert(after.drop_last() =~= one);
    assert(one.drop_last() =~= Seq::<SegmentView>::empty());
    assert(scan(Seq::<u8>::empty(), 0) =~= Seq::<Located>::empty());
    assert(replay(one.drop_last()) == Map::<Seq<char>, EntryPos>::empty());
    assert(replay(one) == written);
    assert(replay(after) == written);
    lemma_segment_at(after, 0);
    lemma_index_after_keys(Map::<Seq<char>, EntryPos>::empty(), compact_id, recs);
    assert forall|a: int, b: int| 0 <= a < b < recs.len() implies (#[trigger] recs[a]).entry.key
        != (#[trigger] recs[b]).entry.key by {
        lemma_key_lt_irreflexive(recs[a].entry.key);
    }
    assert forall|i: int| 0 <= i < recs.len() implies written.contains_key(
        (#[trigger] recs[i]).entry.key,
    ) && points_at(after, recs[i].entry.key, written[recs[i].entry.key]) && entry_at(
        after,
        written[recs[i].entry.key],
    ) == Some(recs[i].entry) by {
        lemma_index_after_distinct(Map::<Seq<char>, EntryPos>::empty(), compact_id, recs, i);
        lemma_scan_reads_back(data, 0, i);
    }
    assert forall|k: Seq<char>| #[trigger] written.contains_key(k) implies points_at(
        after,
        k,
        written[k],
    ) by {
        let i = choose|i: int| 0 <= i < recs.len() && (#[trigger] recs[i]).entry.key == k;
        assert(points_at(after, recs[i].entry.key, written[recs[i].entry.key]));
    }
    assert forall|k: Seq<char>| lookup(written, after, k) == lookup(index, segs, k) by {
        if written.contains_key(k) {
            let i = choose|i: int| 0 <= i < recs.len() && (#[trigger] recs[i]).entry.key == k;
            assert(entry_at(after, written[recs[i].entry.key]) == Some(recs[i].entry));
        } else if index.contains_key(k) && lookup(index, segs, k) is Some {
            let i = choose|i: int| 0 <= i < recs.len() && recs[i].entry.key == k;
            assert(written.contains_key(recs[i].entry.key));
        }
    }
}

/// A locator that pointed at a record points at it after a segment was added behind
/// the others.
pub proof fn lemma_push_keeps_pointer(
    segs: Seq<SegmentView>,
    seg: SegmentView,
    key: Seq<char>,
    p: EntryPos,
)
    requires
        ascending(segs.push(seg)),
        entry_at(segs, p) is Some,
    ensures
        has_segment(segs.push(seg), p.file_id),
        segment_data(segs.push(seg), p.file_id) == segment_data(segs, p.file_id),
        entry_at(segs.push(seg), p) == entry_at(segs, p),
        points_at(segs, key, p) ==> points_at(segs.push(seg), key, p),
{
    let i = segment_place(segs, p.file_id);
    let more = segs.push(seg);
    assert forall|a: int, b: int| 0 <= a < b < segs.len() implies segs[a].id < segs[b].id by {
        assert(more[a].id < more[b].id);
    }
    lemma_segment_at(segs, i);
    assert(more[i].id == p.file_id);
    lemma_segment_at(more, i);
}

/// Entering records that a scan found keeps the index valid.
pub proof fn lemma_index_after_valid(
    index: Map<Seq<char>, EntryPos>,
    segs: Seq<SegmentView>,
    file_id: u64,
    n: int,
)
    requires
        index_valid(index, segs),
        has_segment(segs, file_id),
        segment_data(segs, file_id).len() <= u64::MAX,
        0 <= n <= scan(segment_data(segs, file_id), 0).len(),
    ensures
        index_valid(
            index_after(index, file_id, scan(segment_data(segs, file_id), 0).take(n)),
            segs,
        ),
    decreases n,
{
    let data = segment_data(segs, file_id);
    let recs = scan(data, 0).take(n);
    if n > 0 {
        lemma_index_after_valid(index, segs, file_id, n - 1);
        assert(recs.drop_last() =~= scan(data, 0).take(n - 1));
        lemma_scan_reads_back(data, 0, n - 1);
        let l = recs.last();
        assert(l == scan(data, 0)[n - 1]);
        assert(tail(data, l.pos as int).len() >= HEADER_LEN);
    }
}

/// The index that recovery builds is valid.
pub proof fn lemma_replay_valid(segs: Seq<SegmentView>)
    requires
        ascending(segs),
        bounded(segs),
    ensures
        index_valid(replay(segs), segs),
    decreases segs.len(),
{
    if segs.len() > 0 {
        let front = segs.drop_last();
        let last = segs.last();
        assert(front.push(last) =~= segs);
        assert forall|a: int, b: int| 0 <= a < b < front.len() implies front[a].id
            < front[b].id by {
            assert(segs[a].id < segs[b].id);
        }
        assert forall|i: int| 0 <= i < front.len() implies (#[trigger] front[i]).data.len()
            <= usize::MAX by {
            assert(segs[i].data.len() <= usize::MAX);
        }
        lemma_replay_valid(front);
        let before = replay(front);
        assert forall|k: Seq<char>| #[trigger] before.contains_key(k) implies points_at(
            segs,
            k,
            before[k],
        ) by {
            lemma_push_keeps_pointer(front, last, k, before[k]);
        }
        lemma_segment_at(segs, segs.len() - 1);
        assert(segs[segs.len() - 1].data.len() <= usize::MAX);
        let recs = scan(last.data, 0);
        assert(recs.take(recs.len() as int) =~= recs);
        lemma_index_after_valid(before, segs, last.id, recs.len() as int);
    }
}

/// A store that is reopened reads as it read: recovery finds for each key the record
/// that the index held, and for a key that was removed its tombstone.
pub proof fn lemma_recovery_reads_same(
    index: Map<Seq<char>, EntryPos>,
    segs: Seq<SegmentView>,
    key: Seq<char>,
)
    requires
        recoverable(index, segs),
    ensures
        lookup(replay(segs), segs, key) == lookup(index, segs, key),
{
}

/// A new, empty segment behind the others changes nothing of what is read or recovered.
pub proof fn lemma_new_active(index: Map<Seq<char>, EntryPos>, segs: Seq<SegmentView>, id: u64)
    requires
        ascending(segs),
        segs.len() > 0 ==> segs.last().id < id,
        index_valid(index, segs),
    ensures
        ascending(segs.push(SegmentView { id, data: Seq::empty() })),
        replay(segs.push(SegmentView { id, data: Seq::empty() })) == replay(segs),
        replay_stale(segs.push(SegmentView { id, data: Seq::empty() })) == replay_stale(segs),
        clean(Seq::<u8>::empty()),
        index_valid(index, segs.push(SegmentView { id, data: Seq::empty() })),
        forall|k: Seq<char>|
            lookup(index, segs.push(SegmentView { id, data: Seq::empty() }), k) == lookup(
                index,
                segs,
                k,
            ),
{
    let seg = SegmentView { id, data: Seq::empty() };
    let more = segs.push(seg);
    assert(more.drop_last() =~= segs);
    assert(scan(Seq::<u8>::empty(), 0) =~= Seq::<Located>::empty());
    assert forall|a: int, b: int| 0 <= a < b < more.len() implies more[a].id < more[b].id by {
        if b == segs.len() {
            if a < segs.len() - 1 {
                assert(segs[a].id < segs[segs.len() - 1].id);
            }
        } else {
            assert(segs[a].id < segs[b].id);
        }
    }
    assert forall|k: Seq<char>| #[trigger] index.contains_key(k) implies points_at(
        more,
        k,
        index[k],
    ) && entry_at(more, index[k]) == entry_at(segs, index[k]) by {
        lemma_push_keeps_pointer(segs, seg, k, index[k]);
    }
}

} // verus!
