//! How many bytes a directory holds, and how many of them are stale.
//!
//! Every record of a clean segment is either the one that the index points at for its key
//! or stale. Once a compaction has run, or from an empty directory on, the writer's count
//! of stale bytes is exact; so the directory holds the bytes of the records that the index
//! points at, and as many stale bytes as are counted, and no others.

use crate::engines::kvs::directory::{ascending, bounded, total_len, SegmentView};
use crate::engines::kvs::index::lemma_key_lt_irreflexive;
use crate::engines::kvs::log::{
    appended, clean, compacted_segments, displaced, end_locator, index_after,
    lemma_index_after_distinct, lemma_index_after_keys, lemma_scan_append, lemma_scan_reads_back,
    locator, rewrites, scan, scan_end, Located,
};
use crate::engines::kvs::record::{
    encodable, encode, encoded_len, lemma_encode_frames, EntryPos, EntryView, HEADER_LEN,
};
use crate::engines::kvs::store::DataWriter;
use vstd::prelude::*;

verus! {

/// Sum of the lengths of those among the records that `w` chooses.
pub open spec fn weigh(recs: Seq<Located>, w: spec_fn(Located) -> bool) -> nat
    decreases recs.len(),
{
    if recs.len() == 0 {
        0
    } else {
        weigh(recs.drop_last(), w) + if w(recs.last()) {
            recs.last().len
        } else {
            0
        }
    }
}

/// Sum of the lengths of those among the records of all segments that `w` chooses, each
/// with the id of its segment.
pub open spec fn weigh_all(segs: Seq<SegmentView>, w: spec_fn(u64, Located) -> bool) -> nat
    decreases segs.len(),
{
    if segs.len() == 0 {
        0
    } else {
        weigh_all(segs.drop_last(), w) + weigh(
            scan(segs.last().data, 0),
            |l: Located| w(segs.last().id, l),
        )
    }
}

/// Records chosen by `c` are those chosen by `a` and those chosen by `b`, where no
/// record is chosen by both.
pub proof fn lemma_weigh_or(
    recs: Seq<Located>,
    a: spec_fn(Located) -> bool,
    b: spec_fn(Located) -> bool,
    c: spec_fn(Located) -> bool,
)
    requires
        forall|i: int|
            0 <= i < recs.len() ==> c(#[trigger] recs[i]) == (a(recs[i]) || b(recs[i])) && !(a(
                recs[i],
            ) && b(recs[i])),
    ensures
        weigh(recs, c) == weigh(recs, a) + weigh(recs, b),
    decreases recs.len(),
{
    if recs.len() > 0 {
        let front = recs.drop_last();
        assert forall|i: int| 0 <= i < front.len() implies c(#[trigger] front[i]) == (a(front[i])
            || b(front[i])) && !(a(front[i]) && b(front[i])) by {
            assert(front[i] == recs[i]);
        }
        lemma_weigh_or(front, a, b, c);
        assert(recs.last() == recs[recs.len() - 1]);
    }
}

/// Where `w` chooses no record, the sum is nothing.
pub proof fn lemma_weigh_none(recs: Seq<Located>, w: spec_fn(Located) -> bool)
    requires
        forall|i: int| 0 <= i < recs.len() ==> !w(#[trigger] recs[i]),
    ensures
        weigh(recs, w) == 0,
    decreases recs.len(),
{
    if recs.len() > 0 {
        let front = recs.drop_last();
        assert forall|i: int| 0 <= i < front.len() implies !w(#[trigger] front[i]) by {
            assert(front[i] == recs[i]);
        }
        lemma_weigh_none(front, w);
        assert(recs.last() == recs[recs.len() - 1]);
    }
}

/// Where `w` chooses one record, the sum is that record's length.
pub proof fn lemma_weigh_one(recs: Seq<Located>, w: spec_fn(Located) -> bool, t: int)
    requires
        0 <= t < recs.len(),
        forall|i: int| 0 <= i < recs.len() ==> (w(#[trigger] recs[i]) <==> i == t),
    ensures
        weigh(recs, w) == recs[t].len,
    decreases recs.len(),
{
    let front = recs.drop_last();
    assert(recs.last() == recs[recs.len() - 1]);
    if t == recs.len() - 1 {
        assert forall|i: int| 0 <= i < front.len() implies !w(#[trigger] front[i]) by {
            assert(front[i] == recs[i]);
        }
        lemma_weigh_none(front, w);
    } else {
        assert forall|i: int| 0 <= i < front.len() implies (w(#[trigger] front[i]) <==> i
            == t) by {
            assert(front[i] == recs[i]);
        }
        lemma_weigh_one(front, w, t);
    }
}

/// The sum over records laid behind each other is the sum of the sums.
pub proof fn lemma_weigh_concat(a: Seq<Located>, b: Seq<Located>, w: spec_fn(Located) -> bool)
    ensures
        weigh(a + b, w) == weigh(a, w) + weigh(b, w),
    decreases b.len(),
{
    if b.len() == 0 {
        assert(a + b =~= a);
    } else {
        lemma_weigh_concat(a, b.drop_last(), w);
        assert((a + b).drop_last() =~= a + b.drop_last());
        assert((a + b).last() == b.last());
    }
}

/// The records of all segments chosen by `c` are those chosen by `a` and those chosen
/// by `b`, where no record is chosen by both.
pub proof fn lemma_all_or(
    segs: Seq<SegmentView>,
    a: spec_fn(u64, Located) -> bool,
    b: spec_fn(u64, Located) -> bool,
    c: spec_fn(u64, Located) -> bool,
)
    requires
        forall|i: int, t: int|
            0 <= i < segs.len() && 0 <= t < scan(segs[i].data, 0).len() ==> {
                let l = #[trigger] scan(segs[i].data, 0)[t];
                c(segs[i].id, l) == (a(segs[i].id, l) || b(segs[i].id, l)) && !(a(segs[i].id, l)
                    && b(segs[i].id, l))
            },
    ensures
        weigh_all(segs, c) == weigh_all(segs, a) + weigh_all(segs, b),
    decreases segs.len(),
{
    if segs.len() > 0 {
        let front = segs.drop_last();
        let last = segs.last();
        let n = segs.len() - 1;
        assert(last == segs[n]);
        assert forall|i: int, t: int|
            0 <= i < front.len() && 0 <= t < scan(front[i].data, 0).len() implies {
            let l = #[trigger] scan(front[i].data, 0)[t];
            c(front[i].id, l) == (a(front[i].id, l) || b(front[i].id, l)) && !(a(front[i].id, l)
                && b(front[i].id, l))
        } by {
            assert(front[i] == segs[i]);
        }
        lemma_all_or(front, a, b, c);
        let recs = scan(last.data, 0);
        assert forall|t: int| 0 <= t < recs.len() implies c(last.id, #[trigger] recs[t]) == (a(
            last.id,
            recs[t],
        ) || b(last.id, recs[t])) && !(a(last.id, recs[t]) && b(last.id, recs[t])) by {
            assert(recs[t] == scan(segs[n].data, 0)[t]);
        }
        lemma_weigh_or(
            recs,
            |l: Located| a(last.id, l),
            |l: Located| b(last.id, l),
            |l: Located| c(last.id, l),
        );
    }
}

/// Where `w` chooses no record of any segment, the sum is nothing.
pub proof fn lemma_all_none(segs: Seq<SegmentView>, w: spec_fn(u64, Located) -> bool)
    requires
        forall|i: int, t: int|
            0 <= i < segs.len() && 0 <= t < scan(segs[i].data, 0).len() ==> !w(
                segs[i].id,
                #[trigger] scan(segs[i].data, 0)[t],
            ),
    ensures
        weigh_all(segs, w) == 0,
    decreases segs.len(),
{
    if segs.len() > 0 {
        let front = segs.drop_last();
        let last = segs.last();
        let n = segs.len() - 1;
        assert(last == segs[n]);
        assert forall|i: int, t: int|
            0 <= i < front.len() && 0 <= t < scan(front[i].data, 0).len() implies !w(
            front[i].id,
            #[trigger] scan(front[i].data, 0)[t],
        ) by {
            assert(front[i] == segs[i]);
        }
        lemma_all_none(front, w);
        let recs = scan(last.data, 0);
        assert forall|t: int| 0 <= t < recs.len() implies !w(last.id, #[trigger] recs[t]) by {
            assert(recs[t] == scan(segs[n].data, 0)[t]);
        }
        lemma_weigh_none(recs, |l: Located| w(last.id, l));
    }
}

/// Where two choices agree on every record, the sums agree.
pub proof fn lemma_weigh_same(
    recs: Seq<Located>,
    a: spec_fn(Located) -> bool,
    c: spec_fn(Located) -> bool,
)
    requires
        forall|i: int| 0 <= i < recs.len() ==> c(#[trigger] recs[i]) == a(recs[i]),
    ensures
        weigh(recs, c) == weigh(recs, a),
{
    let none = |l: Located| false;
    lemma_weigh_none(recs, none);
    lemma_weigh_or(recs, a, none, c);
}

/// The index points at the record `l` of the segment `file_id`.
pub open spec fn pointed(index: Map<Seq<char>, EntryPos>, file_id: u64, l: Located) -> bool {
    index.contains_key(l.entry.key) && index[l.entry.key] == locator(file_id, l)
}

/// The bytes of the records that the index points at.
pub open spec fn live_of(index: Map<Seq<char>, EntryPos>, segs: Seq<SegmentView>) -> nat {
    weigh_all(segs, |id: u64, l: Located| pointed(index, id, l))
}

/// The bytes of the records that the index does not point at.
pub open spec fn stale_of(index: Map<Seq<char>, EntryPos>, segs: Seq<SegmentView>) -> nat {
    weigh_all(segs, |id: u64, l: Located| !pointed(index, id, l))
}

/// The bytes of the records of `key` that lie where `p` says.
pub open spec fn hits(key: Seq<char>, p: EntryPos, segs: Seq<SegmentView>) -> nat {
    weigh_all(segs, |id: u64, l: Located| l.entry.key == key && locator(id, l) == p)
}

/// Every segment is made of whole records and nothing else.
pub open spec fn all_clean(segs: Seq<SegmentView>) -> bool {
    forall|i: int| 0 <= i < segs.len() ==> clean(#[trigger] segs[i].data)
}

/// Each locator of the index is that of one record of its key, with the record's length.
pub open spec fn single(index: Map<Seq<char>, EntryPos>, segs: Seq<SegmentView>) -> bool {
    forall|k: Seq<char>| #[trigger] index.contains_key(k) ==> hits(k, index[k], segs) == index[k].sz
}

/// The writer's count of stale bytes is exact: every segment is clean, the index points
/// at one record for each key, and the records that it does not point at have together
/// as many bytes as are counted.
pub open spec fn tight(w: DataWriter) -> bool {
    &&& all_clean(w.dir@)
    &&& single(w.entries(), w.dir@)
    &&& stale_of(w.entries(), w.dir@) == w.uncompacted_bytes
}

/// The records of a clean segment have together the segment's length.
pub proof fn lemma_clean_len(data: Seq<u8>, pos: nat)
    requires
        pos <= data.len(),
        scan_end(data, pos) == data.len(),
    ensures
        weigh(scan(data, pos), |l: Located| true) == data.len() - pos,
    decreases data.len() - pos,
{
    let all = |l: Located| true;
    let recs = scan(data, pos);
    if recs.len() > 0 {
        lemma_scan_reads_back(data, pos, 0);
        let first = seq![recs[0]];
        let next = pos + recs[0].len;
        assert(recs =~= first + scan(data, next));
        lemma_clean_len(data, next);
        lemma_weigh_concat(first, scan(data, next), all);
        assert(first.drop_last() =~= Seq::<Located>::empty());
        assert(weigh(first.drop_last(), all) == 0);
    }
}

/// A directory of clean segments holds the bytes of its records and no others.
pub proof fn lemma_total(segs: Seq<SegmentView>)
    requires
        all_clean(segs),
    ensures
        total_len(segs) == weigh_all(segs, |id: u64, l: Located| true),
    decreases segs.len(),
{
    if segs.len() > 0 {
        let front = segs.drop_last();
        let last = segs.last();
        assert(last == segs[segs.len() - 1]);
        assert forall|i: int| 0 <= i < front.len() implies clean(#[trigger] front[i].data) by {
            assert(front[i] == segs[i]);
        }
        lemma_total(front);
        lemma_clean_len(last.data, 0);
        let w = |id: u64, l: Located| true;
        lemma_weigh_same(scan(last.data, 0), |l: Located| true, |l: Located| w(last.id, l));
    }
}

/// A directory of clean segments holds the records that the index points at and the
/// stale ones, and nothing else.
pub proof fn law_live_and_stale(index: Map<Seq<char>, EntryPos>, segs: Seq<SegmentView>)
    requires
        all_clean(segs),
    ensures
        total_len(segs) == live_of(index, segs) + stale_of(index, segs),
{
    lemma_total(segs);
    lemma_all_or(
        segs,
        |id: u64, l: Located| pointed(index, id, l),
        |id: u64, l: Located| !pointed(index, id, l),
        |id: u64, l: Located| true,
    );
}

/// Where the count of stale bytes is exact, the directory holds the bytes of the records
/// that the index points at, and as many stale bytes as are counted.
pub proof fn law_size(w: DataWriter)
    requires
        tight(w),
    ensures
        total_len(w.dir@) == live_of(w.entries(), w.dir@) + w.uncompacted_bytes,
{
    law_live_and_stale(w.entries(), w.dir@);
}

/// How a record appended to the last segment adds to a sum.
pub proof fn lemma_weigh_all_append(
    segs: Seq<SegmentView>,
    e: EntryView,
    w: spec_fn(u64, Located) -> bool,
)
    requires
        segs.len() > 0,
        clean(segs.last().data),
        encodable(e),
    ensures
        weigh_all(appended(segs, encode(e)), w) == weigh_all(segs, w) + if w(
            segs.last().id,
            Located { entry: e, pos: segs.last().data.len(), len: encoded_len(e) },
        ) {
            encoded_len(e)
        } else {
            0
        },
{
    let d = segs.last().data;
    let l = Located { entry: e, pos: d.len(), len: encoded_len(e) };
    let after = appended(segs, encode(e));
    lemma_scan_append(d, 0, e);
    assert(after.drop_last() =~= segs.drop_last());
    assert(scan(d, 0).push(l).drop_last() =~= scan(d, 0));
}

/// Where two choices agree on every record of every segment, the sums agree.
pub proof fn lemma_all_same(
    segs: Seq<SegmentView>,
    a: spec_fn(u64, Located) -> bool,
    c: spec_fn(u64, Located) -> bool,
)
    requires
        forall|i: int, t: int|
            0 <= i < segs.len() && 0 <= t < scan(segs[i].data, 0).len() ==> c(
                segs[i].id,
                #[trigger] scan(segs[i].data, 0)[t],
            ) == a(segs[i].id, scan(segs[i].data, 0)[t]),
    ensures
        weigh_all(segs, c) == weigh_all(segs, a),
{
    let none = |id: u64, l: Located| false;
    lemma_all_none(segs, none);
    lemma_all_or(segs, a, none, c);
}

/// No record lies where a record appended to the last segment will lie.
pub proof fn lemma_end_is_fresh(segs: Seq<SegmentView>, e: EntryView, i: int, t: int)
    requires
        ascending(segs),
        bounded(segs),
        0 <= i < segs.len(),
        0 <= t < scan(segs[i].data, 0).len(),
    ensures
        locator(segs[i].id, scan(segs[i].data, 0)[t]) != end_locator(segs, e),
        scan(segs[i].data, 0)[t].len >= HEADER_LEN,
        scan(segs[i].data, 0)[t].pos + scan(segs[i].data, 0)[t].len <= usize::MAX,
{
    let n = segs.len() - 1;
    lemma_scan_reads_back(segs[i].data, 0, t);
    assert(segs[i].data.len() <= usize::MAX);
    if i < n {
        assert(segs[i].id < segs[n].id);
    }
}

/// What a record appended and entered in the index makes of the stale bytes and of the
/// locators: the record displaced is stale now, and nothing else has changed.
proof fn lemma_tight_append(
    index: Map<Seq<char>, EntryPos>,
    after_index: Map<Seq<char>, EntryPos>,
    segs: Seq<SegmentView>,
    e: EntryView,
)
    requires
        ascending(segs),
        bounded(segs),
        segs.len() > 0,
        all_clean(segs),
        single(index, segs),
        encodable(e),
        segs.last().data.len() + encoded_len(e) <= usize::MAX,
        after_index == index.insert(e.key, end_locator(segs, e)) || after_index == index.remove(
            e.key,
        ),
    ensures
        all_clean(appended(segs, encode(e))),
        single(after_index, appended(segs, encode(e))),
        stale_of(after_index, appended(segs, encode(e))) == stale_of(index, segs) + (
        if index.contains_key(e.key) {
            index[e.key].sz as nat
        } else {
            0
        }) + (if after_index.contains_key(e.key) {
            0
        } else {
            encoded_len(e)
        }),
{
    let n = segs.len() - 1;
    let k = e.key;
    let p = end_locator(segs, e);
    let d = segs.last().data;
    let l = Located { entry: e, pos: d.len(), len: encoded_len(e) };
    let after = appended(segs, encode(e));
    assert(segs.last() == segs[n]);
    assert(p == locator(segs.last().id, l));
    lemma_scan_append(d, 0, e);
    lemma_encode_frames(e);
    assert forall|i: int| 0 <= i < after.len() implies clean(#[trigger] after[i].data) by {
        if i < n {
            assert(after[i] == segs[i]);
        }
    }
    // the stale bytes
    let stale = |id: u64, l: Located| !pointed(index, id, l);
    let stale2 = |id: u64, l: Located| !pointed(after_index, id, l);
    let hit = |id: u64, l: Located|
        l.entry.key == k && index.contains_key(k) && locator(id, l) == index[k];
    lemma_weigh_all_append(segs, e, stale2);
    assert forall|i: int, t: int|
        0 <= i < segs.len() && 0 <= t < scan(segs[i].data, 0).len() implies {
        let r = #[trigger] scan(segs[i].data, 0)[t];
        stale2(segs[i].id, r) == (stale(segs[i].id, r) || hit(segs[i].id, r)) && !(stale(
            segs[i].id,
            r,
        ) && hit(segs[i].id, r))
    } by {
        lemma_end_is_fresh(segs, e, i, t);
    }
    lemma_all_or(segs, stale, hit, stale2);
    if index.contains_key(k) {
        lemma_all_same(
            segs,
            |id: u64, l: Located| l.entry.key == k && locator(id, l) == index[k],
            hit,
        );
        assert(hits(k, index[k], segs) == index[k].sz);
    } else {
        lemma_all_none(segs, hit);
    }
    // the locators
    assert forall|k2: Seq<char>| #[trigger] after_index.contains_key(k2) implies hits(
        k2,
        after_index[k2],
        after,
    ) == after_index[k2].sz by {
        let q = after_index[k2];
        let at = |id: u64, l: Located| l.entry.key == k2 && locator(id, l) == q;
        lemma_weigh_all_append(segs, e, at);
        if k2 == k {
            assert(q == p);
            assert forall|i: int, t: int|
                0 <= i < segs.len() && 0 <= t < scan(segs[i].data, 0).len() implies !at(
                segs[i].id,
                #[trigger] scan(segs[i].data, 0)[t],
            ) by {
                lemma_end_is_fresh(segs, e, i, t);
            }
            lemma_all_none(segs, at);
        } else {
            assert(q == index[k2]);
            assert(hits(k2, index[k2], segs) == index[k2].sz);
        }
    }
}

/// A `set` keeps the count of stale bytes exact, where the record fits in its segment
/// and the count in 64 bits.
pub proof fn law_tight_set(before: DataWriter, after: DataWriter, e: EntryView)
    requires
        before.wf(),
        tight(before),
        encodable(e),
        after.written_from(before, e),
        before.dir@.last().data.len() + encoded_len(e) <= usize::MAX,
        before.uncompacted_bytes + displaced(before.entries(), e.key) <= u64::MAX,
    ensures
        tight(after),
{
    lemma_tight_append(before.entries(), after.entries(), before.dir@, e);
}

/// A `remove` keeps the count of stale bytes exact, where the tombstone fits in its
/// segment and the count in 64 bits.
pub proof fn law_tight_remove(before: DataWriter, after: DataWriter, e: EntryView)
    requires
        before.wf(),
        tight(before),
        encodable(e),
        after.erased_from(before, e),
        before.dir@.last().data.len() + encoded_len(e) <= usize::MAX,
        before.uncompacted_bytes + encoded_len(e) + displaced(before.entries(), e.key)
            <= u64::MAX,
    ensures
        tight(after),
{
    lemma_tight_append(before.entries(), after.entries(), before.dir@, e);
}

/// A compaction makes the count of stale bytes exact: the directory then holds the
/// records that the index points at and no stale byte.
pub proof fn law_tight_compacted(before: DataWriter, after: DataWriter)
    requires
        after.compacted_from(before),
        bounded(after.dir@),
    ensures
        tight(after),
        stale_of(after.entries(), after.dir@) == 0,
{
    let compact_id = (before.current_id + 1) as u64;
    let active_id = (before.current_id + 2) as u64;
    let recs = choose|recs: Seq<Located>|
        {
            &&& #[trigger] rewrites(before.entries(), before.dir@, recs)
            &&& after.dir@ == compacted_segments(compact_id, active_id, recs)
            &&& after.entries() == index_after(Map::empty(), compact_id, recs)
        };
    let segs = after.dir@;
    let written = after.entries();
    let one = segs.drop_last();
    assert(one =~= seq![segs[0]]);
    assert(one.drop_last() =~= Seq::<SegmentView>::empty());
    assert(segs.last() == segs[1]);
    assert(one.last() == segs[0]);
    assert(scan(Seq::<u8>::empty(), 0) =~= Seq::<Located>::empty());
    assert(scan(segs[0].data, 0) == recs);
    assert(segs[0].data.len() <= usize::MAX);
    assert forall|a: int, b: int| 0 <= a < b < recs.len() implies (#[trigger] recs[a]).entry.key
        != (#[trigger] recs[b]).entry.key by {
        lemma_key_lt_irreflexive(recs[a].entry.key);
    }
    assert forall|t: int| 0 <= t < recs.len() implies pointed(
        written,
        compact_id,
        #[trigger] recs[t],
    ) && recs[t].len <= usize::MAX by {
        lemma_index_after_distinct(Map::<Seq<char>, EntryPos>::empty(), compact_id, recs, t);
        lemma_scan_reads_back(segs[0].data, 0, t);
    }
    assert forall|i: int| 0 <= i < segs.len() implies clean(#[trigger] segs[i].data) by {}
    let unpointed = |id: u64, l: Located| !pointed(written, id, l);
    assert forall|i: int, t: int|
        0 <= i < segs.len() && 0 <= t < scan(segs[i].data, 0).len() implies !unpointed(
        segs[i].id,
        #[trigger] scan(segs[i].data, 0)[t],
    ) by {
        assert(i == 0);
        assert(pointed(written, compact_id, recs[t]));
    }
    lemma_all_none(segs, unpointed);
    lemma_index_after_keys(Map::<Seq<char>, EntryPos>::empty(), compact_id, recs);
    assert forall|k: Seq<char>| #[trigger] written.contains_key(k) implies hits(
        k,
        written[k],
        segs,
    ) == written[k].sz by {
        let t = choose|t: int| 0 <= t < recs.len() && (#[trigger] recs[t]).entry.key == k;
        assert(pointed(written, compact_id, recs[t]));
        let at = |id: u64, l: Located| l.entry.key == k && locator(id, l) == written[k];
        let at_compact = |l: Located| at(segs[0].id, l);
        assert forall|j: int| 0 <= j < recs.len() implies (at_compact(#[trigger] recs[j]) <==> j
            == t) by {
            if j < t {
                assert(recs[j].entry.key != recs[t].entry.key);
            } else if t < j {
                assert(recs[t].entry.key != recs[j].entry.key);
            }
        }
        lemma_weigh_one(recs, at_compact, t);
        assert(weigh_all(one.drop_last(), at) == 0);
        assert(weigh_all(one, at) == recs[t].len);
        assert(weigh(scan(segs[1].data, 0), |l: Located| at(segs[1].id, l)) == 0);
    }
}

/// On one empty segment, with an empty index and nothing counted, the count of stale
/// bytes is exact: so it is in a store opened on an empty directory.
pub proof fn law_tight_empty(w: DataWriter)
    requires
        w.entries() == Map::<Seq<char>, EntryPos>::empty(),
        w.dir@.len() == 1,
        w.dir@[0].data == Seq::<u8>::empty(),
        w.uncompacted_bytes == 0,
    ensures
        tight(w),
{
    let segs = w.dir@;
    assert(scan(Seq::<u8>::empty(), 0) =~= Seq::<Located>::empty());
    assert forall|i: int| 0 <= i < segs.len() implies clean(#[trigger] segs[i].data) by {}
    lemma_all_none(segs, |id: u64, l: Located| !pointed(w.entries(), id, l));
}

/// A mutation, with the compaction that it may run, keeps the count of stale bytes exact:
/// so after every `set` and every `remove` on a store whose count was exact the directory
/// holds the records that the index points at, the stale bytes counted, and nothing else.
pub proof fn law_tight_kept(
    before: DataWriter,
    after: DataWriter,
    e: EntryView,
    r: Result<(), crate::error::Error>,
)
    requires
        before.wf(),
        after.wf(),
        tight(before),
        encodable(e),
        after.set_from(before, e, r) || after.removed_from(before, e, r),
        before.dir@.last().data.len() + encoded_len(e) <= usize::MAX,
        before.uncompacted_bytes + encoded_len(e) + displaced(before.entries(), e.key)
            <= u64::MAX,
    ensures
        tight(after),
        total_len(after.dir@) == live_of(after.entries(), after.dir@) + after.uncompacted_bytes,
{
    if after.set_from(before, e, r) {
        let mid = choose|mid: DataWriter| #[trigger]
            mid.written_from(before, e) && after.settled_from(mid, r);
        law_tight_set(before, mid, e);
        if after.compacted_from(mid) {
            law_tight_compacted(mid, after);
        }
    } else if before.entries().contains_key(e.key) {
        let mid = choose|mid: DataWriter| #[trigger]
            mid.erased_from(before, e) && after.settled_from(mid, r);
        law_tight_remove(before, mid, e);
        if after.compacted_from(mid) {
            law_tight_compacted(mid, after);
        }
    }
    law_size(after);
}

} // verus!
