//! The course of a compaction: what holds of index and compacted segment after each
//! entry of the snapshot, and what follows once all are visited.

use crate::engines::kvs::directory::SegmentView;
use crate::engines::kvs::index::{key_lt, lemma_key_lt_asymmetric, lemma_key_lt_irreflexive, lists};
use crate::engines::kvs::log::{
    entry_at, index_after, index_valid, laid_out, lemma_scan_append, locator, lookup, points_at,
    rewrites, scan, scan_end, Located,
};
use crate::engines::kvs::record::{
    encodable, encode, encoded_len, lemma_encode_frames, EntryPos, EntryView,
};
use vstd::prelude::*;

verus! {

/// `key` is in the index, and every other key of the index is below it.
pub open spec fn greatest_key(index: Map<Seq<char>, EntryPos>, key: Seq<char>) -> bool {
    &&& index.contains_key(key)
    &&& forall|k: Seq<char>| #[trigger] index.contains_key(k) && k != key ==> key_lt(k, key)
}

/// The state of a compaction that has visited the first `i` entries of the snapshot
/// `snap` of the index `index0`: `recs` are the live records among them, `cur` is the
/// index with their new locators, without the tombstones met, and with the entries not
/// yet visited as they were.
pub open spec fn rewriting(
    snap: Seq<(Seq<char>, EntryPos)>,
    index0: Map<Seq<char>, EntryPos>,
    segs: Seq<SegmentView>,
    cur: Map<Seq<char>, EntryPos>,
    recs: Seq<Located>,
    i: int,
    compact_id: u64,
) -> bool {
    let written = index_after(Map::empty(), compact_id, recs);
    &&& 0 <= i <= snap.len()
    &&& lists(snap, index0)
    &&& index_valid(index0, segs)
    &&& forall|k: Seq<char>|
        #![trigger cur.contains_key(k)]
        cur.contains_key(k) <==> written.contains_key(k) || exists|j: int|
            i <= j < snap.len() && (#[trigger] snap[j]).0 == k
    &&& forall|k: Seq<char>| #[trigger]
        written.contains_key(k) ==> cur[k] == written[k] && exists|j: int|
            0 <= j < i && (#[trigger] snap[j]).0 == k
    &&& forall|j: int| i <= j < snap.len() ==> cur[(#[trigger] snap[j]).0] == snap[j].1
    &&& scan(laid_out(recs), 0) == recs
    &&& scan_end(laid_out(recs), 0) == laid_out(recs).len()
    &&& forall|t: int|
        0 <= t < recs.len() ==> {
            let e = (#[trigger] recs[t]).entry;
            &&& index0.contains_key(e.key)
            &&& entry_at(segs, index0[e.key]) == Some(e)
            &&& e.value.len() > 0
            &&& exists|j: int| 0 <= j < i && (#[trigger] snap[j]).0 == e.key
        }
    &&& forall|j: int|
        0 <= j < i && #[trigger] lookup(index0, segs, snap[j].0) is Some ==> exists|t: int|
            0 <= t < recs.len() && (#[trigger] recs[t]).entry.key == snap[j].0
    &&& forall|a: int, b: int|
        0 <= a < b < recs.len() ==> key_lt(
            (#[trigger] recs[a]).entry.key,
            (#[trigger] recs[b]).entry.key,
        )
}

/// No key stands twice in a snapshot.
pub proof fn lemma_lists_distinct(
    snap: Seq<(Seq<char>, EntryPos)>,
    index: Map<Seq<char>, EntryPos>,
)
    requires
        lists(snap, index),
    ensures
        forall|a: int, b: int|
            0 <= a < snap.len() && 0 <= b < snap.len() && a != b ==> (#[trigger] snap[a]).0 != (
            #[trigger] snap[b]).0,
{
    assert forall|a: int, b: int|
        0 <= a < snap.len() && 0 <= b < snap.len() && a != b implies (#[trigger] snap[a]).0 != (
    #[trigger] snap[b]).0 by {
        if a < b {
            assert(key_lt(snap[a].0, snap[b].0));
            lemma_key_lt_irreflexive(snap[a].0);
        } else {
            assert(key_lt(snap[b].0, snap[a].0));
            lemma_key_lt_irreflexive(snap[b].0);
        }
    }
}

/// Before the first entry is visited.
pub proof fn lemma_rewriting_start(
    snap: Seq<(Seq<char>, EntryPos)>,
    index0: Map<Seq<char>, EntryPos>,
    segs: Seq<SegmentView>,
    compact_id: u64,
)
    requires
        lists(snap, index0),
        index_valid(index0, segs),
    ensures
        rewriting(snap, index0, segs, index0, Seq::empty(), 0, compact_id),
{
    let recs = Seq::<Located>::empty();
    assert(laid_out(recs) =~= Seq::<u8>::empty());
    assert(scan(laid_out(recs), 0) =~= recs);
    assert forall|k: Seq<char>|
        #![trigger index0.contains_key(k)]
        index0.contains_key(k) implies exists|j: int|
        0 <= j < snap.len() && (#[trigger] snap[j]).0 == k by {
        let j = choose|j: int| 0 <= j < snap.len() && snap[j].0 == k;
        assert(snap[j].0 == k);
    }
}

/// The entry visited is a tombstone: it leaves the index, and nothing is written.
pub proof fn lemma_rewriting_drop(
    snap: Seq<(Seq<char>, EntryPos)>,
    index0: Map<Seq<char>, EntryPos>,
    segs: Seq<SegmentView>,
    cur: Map<Seq<char>, EntryPos>,
    recs: Seq<Located>,
    i: int,
    compact_id: u64,
)
    requires
        rewriting(snap, index0, segs, cur, recs, i, compact_id),
        i < snap.len(),
        lookup(index0, segs, snap[i].0) is None,
    ensures
        rewriting(snap, index0, segs, cur.remove(snap[i].0), recs, i + 1, compact_id),
{
    let written = index_after(Map::<Seq<char>, EntryPos>::empty(), compact_id, recs);
    let k0 = snap[i].0;
    let now = cur.remove(k0);
    lemma_lists_distinct(snap, index0);
    if written.contains_key(k0) {
        let j = choose|j: int| 0 <= j < i && (#[trigger] snap[j]).0 == k0;
        assert(snap[j].0 != snap[i].0);
    }
    assert forall|k: Seq<char>|
        #![trigger now.contains_key(k)]
        now.contains_key(k) <==> written.contains_key(k) || exists|j: int|
            i + 1 <= j < snap.len() && (#[trigger] snap[j]).0 == k by {
        if exists|j: int| i + 1 <= j < snap.len() && (#[trigger] snap[j]).0 == k {
            let j = choose|j: int| i + 1 <= j < snap.len() && (#[trigger] snap[j]).0 == k;
            assert(snap[j].0 == k && snap[i].0 != snap[j].0);
            assert(cur.contains_key(k));
        }
        if k != k0 && cur.contains_key(k) && !written.contains_key(k) {
            let j = choose|j: int| i <= j < snap.len() && (#[trigger] snap[j]).0 == k;
            assert(snap[j].0 == k && j != i);
        }
    }
    assert forall|k: Seq<char>| #[trigger] written.contains_key(k) implies now[k] == written[k]
        && exists|j: int| 0 <= j < i + 1 && (#[trigger] snap[j]).0 == k by {
        let j = choose|j: int| 0 <= j < i && (#[trigger] snap[j]).0 == k;
        assert(snap[j].0 == k);
    }
    assert forall|j: int| i + 1 <= j < snap.len() implies now[(#[trigger] snap[j]).0]
        == snap[j].1 by {
        assert(snap[i].0 != snap[j].0);
    }
    assert forall|t: int| 0 <= t < recs.len() implies exists|j: int|
        0 <= j < i + 1 && (#[trigger] snap[j]).0 == (#[trigger] recs[t]).entry.key by {
        let j = choose|j: int| 0 <= j < i && (#[trigger] snap[j]).0 == recs[t].entry.key;
        assert(snap[j].0 == recs[t].entry.key);
    }
    assert forall|j: int|
        0 <= j < i + 1 && #[trigger] lookup(index0, segs, snap[j].0) is Some implies exists|
        t: int,
    |
        0 <= t < recs.len() && (#[trigger] recs[t]).entry.key == snap[j].0 by {
        assert(j < i);
    }
}

/// The entry visited is live: its record is written behind the others, and the index
/// takes the new locator.
pub proof fn lemma_rewriting_keep(
    snap: Seq<(Seq<char>, EntryPos)>,
    index0: Map<Seq<char>, EntryPos>,
    segs: Seq<SegmentView>,
    cur: Map<Seq<char>, EntryPos>,
    recs: Seq<Located>,
    i: int,
    compact_id: u64,
    e: EntryView,
)
    requires
        rewriting(snap, index0, segs, cur, recs, i, compact_id),
        i < snap.len(),
        entry_at(segs, snap[i].1) == Some(e),
        e.value.len() > 0,
        encodable(e),
    ensures
        e.key == snap[i].0,
        laid_out(recs.push(Located { entry: e, pos: laid_out(recs).len(), len: encoded_len(e) }))
            == laid_out(recs) + encode(e),
        rewriting(
            snap,
            index0,
            segs,
            cur.insert(
                snap[i].0,
                locator(
                    compact_id,
                    Located { entry: e, pos: laid_out(recs).len(), len: encoded_len(e) },
                ),
            ),
            recs.push(Located { entry: e, pos: laid_out(recs).len(), len: encoded_len(e) }),
            i + 1,
            compact_id,
        ),
{
    let written = index_after(Map::<Seq<char>, EntryPos>::empty(), compact_id, recs);
    let k0 = snap[i].0;
    let l = Located { entry: e, pos: laid_out(recs).len(), len: encoded_len(e) };
    let q = locator(compact_id, l);
    let now = cur.insert(k0, q);
    let recs2 = recs.push(l);
    let written2 = index_after(Map::<Seq<char>, EntryPos>::empty(), compact_id, recs2);
    lemma_lists_distinct(snap, index0);
    assert(index0.contains_key(snap[i].0) && index0[k0] == snap[i].1);
    assert(points_at(segs, k0, snap[i].1));
    assert(recs2.drop_last() =~= recs);
    assert(written2 == written.insert(k0, q));
    lemma_scan_append(laid_out(recs), 0, e);
    lemma_encode_frames(e);
    if written.contains_key(k0) {
        let j = choose|j: int| 0 <= j < i && (#[trigger] snap[j]).0 == k0;
        assert(snap[j].0 != snap[i].0);
    }
    assert forall|k: Seq<char>|
        #![trigger now.contains_key(k)]
        now.contains_key(k) <==> written2.contains_key(k) || exists|j: int|
            i + 1 <= j < snap.len() && (#[trigger] snap[j]).0 == k by {
        if exists|j: int| i + 1 <= j < snap.len() && (#[trigger] snap[j]).0 == k {
            let j = choose|j: int| i + 1 <= j < snap.len() && (#[trigger] snap[j]).0 == k;
            assert(snap[j].0 == k);
            assert(cur.contains_key(k));
        }
        if k != k0 && cur.contains_key(k) && !written.contains_key(k) {
            let j = choose|j: int| i <= j < snap.len() && (#[trigger] snap[j]).0 == k;
            assert(snap[j].0 == k && j != i);
        }
    }
    assert forall|k: Seq<char>| #[trigger] written2.contains_key(k) implies now[k] == written2[k]
        && exists|j: int| 0 <= j < i + 1 && (#[trigger] snap[j]).0 == k by {
        if k == k0 {
            assert(snap[i].0 == k);
        } else {
            let j = choose|j: int| 0 <= j < i && (#[trigger] snap[j]).0 == k;
            assert(snap[j].0 == k);
        }
    }
    assert forall|j: int| i + 1 <= j < snap.len() implies now[(#[trigger] snap[j]).0]
        == snap[j].1 by {
        assert(snap[i].0 != snap[j].0);
    }
    assert forall|t: int| 0 <= t < recs2.len() implies {
        let en = (#[trigger] recs2[t]).entry;
        &&& index0.contains_key(en.key)
        &&& entry_at(segs, index0[en.key]) == Some(en)
        &&& en.value.len() > 0
        &&& exists|j: int| 0 <= j < i + 1 && (#[trigger] snap[j]).0 == en.key
    } by {
        if t < recs.len() {
            assert(recs2[t] == recs[t]);
            let j = choose|j: int| 0 <= j < i && (#[trigger] snap[j]).0 == recs[t].entry.key;
            assert(snap[j].0 == recs2[t].entry.key);
        } else {
            assert(snap[i].0 == recs2[t].entry.key);
        }
    }
    assert forall|j: int|
        0 <= j < i + 1 && #[trigger] lookup(index0, segs, snap[j].0) is Some implies exists|
        t: int,
    |
        0 <= t < recs2.len() && (#[trigger] recs2[t]).entry.key == snap[j].0 by {
        if j < i {
            let t = choose|t: int|
                0 <= t < recs.len() && (#[trigger] recs[t]).entry.key == snap[j].0;
            assert(recs2[t].entry.key == snap[j].0);
        } else {
            assert(recs2[recs.len() as int].entry.key == snap[j].0);
        }
    }
    assert forall|a: int, b: int| 0 <= a < b < recs2.len() implies key_lt(
        (#[trigger] recs2[a]).entry.key,
        (#[trigger] recs2[b]).entry.key,
    ) by {
        if b < recs.len() {
            assert(key_lt(recs[a].entry.key, recs[b].entry.key));
        } else {
            let j = choose|j: int| 0 <= j < i && (#[trigger] snap[j]).0 == recs[a].entry.key;
            assert(key_lt(snap[j].0, snap[i].0));
        }
    }
}

/// Once every entry is visited: the index holds the new locators and nothing else, and
/// `recs` are the live records of the old index.
pub proof fn lemma_rewriting_end(
    snap: Seq<(Seq<char>, EntryPos)>,
    index0: Map<Seq<char>, EntryPos>,
    segs: Seq<SegmentView>,
    cur: Map<Seq<char>, EntryPos>,
    recs: Seq<Located>,
    compact_id: u64,
)
    requires
        rewriting(snap, index0, segs, cur, recs, snap.len() as int, compact_id),
    ensures
        cur == index_after(Map::empty(), compact_id, recs),
        rewrites(index0, segs, recs),
        snap.len() == 0 ==> forall|k: Seq<char>| !index0.contains_key(k),
        forall|k: Seq<char>| #[trigger]
            greatest_key(index0, k) ==> snap.len() > 0 && snap.last().0 == k,
{
    let written = index_after(Map::<Seq<char>, EntryPos>::empty(), compact_id, recs);
    assert(cur =~= written);
    assert forall|k: Seq<char>|
        index0.contains_key(k) && #[trigger] lookup(index0, segs, k) is Some implies exists|
        t: int,
    |
        0 <= t < recs.len() && recs[t].entry.key == k by {
        let j = choose|j: int| 0 <= j < snap.len() && snap[j].0 == k;
        assert(lookup(index0, segs, snap[j].0) is Some);
        let t = choose|t: int| 0 <= t < recs.len() && (#[trigger] recs[t]).entry.key == snap[j].0;
        assert(recs[t].entry.key == k);
    }
    assert forall|k: Seq<char>| #[trigger] greatest_key(index0, k) implies snap.len() > 0
        && snap.last().0 == k by {
        let j = choose|j: int| 0 <= j < snap.len() && snap[j].0 == k;
        let n = snap.len() - 1;
        if j < n {
            assert(index0.contains_key(snap[n].0));
            assert(key_lt(snap[j].0, snap[n].0));
            assert(key_lt(snap[n].0, k));
            lemma_key_lt_asymmetric(snap[j].0, snap[n].0);
        }
    }
    if snap.len() == 0 {
        assert forall|k: Seq<char>| !index0.contains_key(k) by {
            if index0.contains_key(k) {
                let j = choose|j: int| 0 <= j < snap.len() && snap[j].0 == k;
            }
        }
    }
}

} // verus!
