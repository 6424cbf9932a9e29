//! The record and its encoding.
//!
//! | offset    | width        | field                    |
//! |----------:|-------------:|--------------------------|
//! | 0         | 8            | timestamp (i64, LE)      |
//! | 8         | 8            | key length (u64, LE)     |
//! | 16        | 8            | value length (u64, LE)   |
//! | 24        | key length   | key bytes (UTF-8)        |
//! | 24 + klen | value length | value bytes (UTF-8)      |

use crate::error::Error;
use vstd::bytes::*;
use vstd::prelude::*;
use vstd::slice::*;
use vstd::string::*;
use vstd::utf8::*;

verus! {

/// Width of the fixed part of a record.
pub const HEADER_LEN: usize = 24;

/// One log entry. A record whose value is empty is a tombstone.
pub struct Entry {
    pub key: String,
    pub value: String,
    pub timestamp: i64,
}

/// What an [`Entry`] holds, as mathematical values.
pub ghost struct EntryView {
    pub key: Seq<char>,
    pub value: Seq<char>,
    pub timestamp: i64,
}

impl View for Entry {
    type V = EntryView;

    open spec fn view(&self) -> EntryView {
        EntryView { key: self.key@, value: self.value@, timestamp: self.timestamp }
    }
}

/// Where a record lies: segment, offset, length, and the record's timestamp.
#[derive(Clone, Copy, Debug, PartialEq, Eq, Structural)]
pub struct EntryPos {
    pub file_id: u64,
    pub pos: u64,
    pub sz: u64,
    pub timestamp: i64,
}

/// The 24 header bytes.
pub open spec fn header_bytes(timestamp: i64, key_len: u64, value_len: u64) -> Seq<u8> {
    spec_u64_to_le_bytes(timestamp as u64) + spec_u64_to_le_bytes(key_len)
        + spec_u64_to_le_bytes(value_len)
}

/// Both text fields are short enough for their lengths to be written in 64 bits.
pub open spec fn encodable(e: EntryView) -> bool {
    &&& encode_utf8(e.key).len() <= u64::MAX
    &&& encode_utf8(e.value).len() <= u64::MAX
}

/// The bytes of a record.
pub open spec fn encode(e: EntryView) -> Seq<u8> {
    let k = encode_utf8(e.key);
    let v = encode_utf8(e.value);
    header_bytes(e.timestamp, k.len() as u64, v.len() as u64) + k + v
}

/// Number of bytes that `encode(e)` has.
pub open spec fn encoded_len(e: EntryView) -> nat {
    HEADER_LEN as nat + encode_utf8(e.key).len() + encode_utf8(e.value).len()
}

pub open spec fn header_timestamp(bytes: Seq<u8>) -> i64 {
    spec_u64_from_le_bytes(bytes.subrange(0, 8)) as i64
}

pub open spec fn header_key_len(bytes: Seq<u8>) -> nat {
    spec_u64_from_le_bytes(bytes.subrange(8, 16)) as nat
}

pub open spec fn header_value_len(bytes: Seq<u8>) -> nat {
    spec_u64_from_le_bytes(bytes.subrange(16, 24)) as nat
}

/// The bytes hold a whole header and the two fields that it announces.
pub open spec fn frames(bytes: Seq<u8>) -> bool {
    &&& bytes.len() >= HEADER_LEN
    &&& bytes.len() >= HEADER_LEN + header_key_len(bytes) + header_value_len(bytes)
}

/// Length of the record that `bytes` begin with, where `frames(bytes)`.
pub open spec fn framed_len(bytes: Seq<u8>) -> nat {
    HEADER_LEN as nat + header_key_len(bytes) + header_value_len(bytes)
}

pub open spec fn framed_key(bytes: Seq<u8>) -> Seq<u8> {
    bytes.subrange(HEADER_LEN as int, HEADER_LEN + header_key_len(bytes))
}

pub open spec fn framed_value(bytes: Seq<u8>) -> Seq<u8> {
    bytes.subrange(HEADER_LEN + header_key_len(bytes), framed_len(bytes) as int)
}

/// The record that `bytes` begin with, if they begin with one.
pub open spec fn decode(bytes: Seq<u8>) -> Option<EntryView> {
    if frames(bytes) && valid_utf8(framed_key(bytes)) && valid_utf8(framed_value(bytes)) {
        Some(
            EntryView {
                key: decode_utf8(framed_key(bytes)),
                value: decode_utf8(framed_value(bytes)),
                timestamp: header_timestamp(bytes),
            },
        )
    } else {
        None
    }
}

/// Timestamp and value of the record that `bytes` begin with; the key is skipped unread.
pub open spec fn decode_value(bytes: Seq<u8>) -> Option<(i64, Seq<char>)> {
    if frames(bytes) && valid_utf8(framed_value(bytes)) {
        Some((header_timestamp(bytes), decode_utf8(framed_value(bytes))))
    } else {
        None
    }
}

/// The bytes of `data` from `pos` on; empty where `pos` is past the end.
pub open spec fn tail(data: Seq<u8>, pos: int) -> Seq<u8> {
    if 0 <= pos <= data.len() {
        data.subrange(pos, data.len() as int)
    } else {
        Seq::empty()
    }
}

pub proof fn lemma_timestamp_roundtrip(t: i64)
    ensures
        ((t as u64) as i64) == t,
{
    assert(((t as u64) as i64) == t) by (bit_vector);
}

/// The header of `encode(e)` reads back as the lengths and timestamp of `e`.
pub proof fn lemma_encode_frames(e: EntryView)
    requires
        encodable(e),
    ensures
        encode(e).len() == encoded_len(e),
        frames(encode(e)),
        framed_len(encode(e)) == encoded_len(e),
        header_timestamp(encode(e)) == e.timestamp,
        framed_key(encode(e)) == encode_utf8(e.key),
        framed_value(encode(e)) == encode_utf8(e.value),
{
    lemma_auto_spec_u64_to_from_le_bytes();
    lemma_timestamp_roundtrip(e.timestamp);
    let k = encode_utf8(e.key);
    let v = encode_utf8(e.value);
    let b = encode(e);
    let t8 = spec_u64_to_le_bytes(e.timestamp as u64);
    let k8 = spec_u64_to_le_bytes(k.len() as u64);
    let v8 = spec_u64_to_le_bytes(v.len() as u64);
    assert(b.subrange(0, 8) =~= t8);
    assert(b.subrange(8, 16) =~= k8);
    assert(b.subrange(16, 24) =~= v8);
    assert(framed_key(b) =~= k);
    assert(framed_value(b) =~= v);
}

/// Decoding what was encoded gives the record back.
pub proof fn law_decode_encode(e: EntryView)
    requires
        encodable(e),
    ensures
        decode(encode(e)) == Some(e),
        decode_value(encode(e)) == Some((e.timestamp, e.value)),
{
    lemma_encode_frames(e);
    encode_utf8_valid_utf8(e.key);
    encode_utf8_valid_utf8(e.value);
    encode_utf8_decode_utf8(e.key);
    encode_utf8_decode_utf8(e.value);
}

/// Encoding what was decoded gives back the bytes that were read.
pub proof fn law_encode_decode(bytes: Seq<u8>)
    requires
        decode(bytes) is Some,
    ensures
        encodable(decode(bytes).unwrap()),
        encode(decode(bytes).unwrap()) == bytes.subrange(0, framed_len(bytes) as int),
{
    lemma_auto_spec_u64_to_from_le_bytes();
    let e = decode(bytes).unwrap();
    let kb = framed_key(bytes);
    let vb = framed_value(bytes);
    decode_utf8_encode_utf8(kb);
    decode_utf8_encode_utf8(vb);
    assert(encode_utf8(e.key) == kb);
    assert(encode_utf8(e.value) == vb);
    let t = spec_u64_from_le_bytes(bytes.subrange(0, 8));
    assert(((t as i64) as u64) == t) by (bit_vector);
    assert(spec_u64_to_le_bytes(e.timestamp as u64) == bytes.subrange(0, 8));
    assert(spec_u64_to_le_bytes(kb.len() as u64) == bytes.subrange(8, 16));
    assert(spec_u64_to_le_bytes(vb.len() as u64) == bytes.subrange(16, 24));
    assert(encode(e) =~= bytes.subrange(0, framed_len(bytes) as int));
}

/// `String::from_utf8` of std: the text that the bytes encode, and nothing where they are
/// not UTF-8.
#[verifier::external_body]
pub(crate) fn string_from_utf8(bytes: Vec<u8>) -> (r: Option<String>)
    ensures
        r is Some <==> valid_utf8(bytes@),
        r matches Some(s) ==> s@ == decode_utf8(bytes@),
{
    String::from_utf8(bytes).ok()
}

/// `DateTime::<Utc>::from` and `timestamp` of chrono, on the time of `SystemTime::now`
/// of std: the seconds since the epoch on this machine's clock, below zero where the
/// clock stands before it. Nothing is claimed of the number. (chrono has no date for a
/// clock that stands some 262 000 years from the epoch.)
#[verifier::external_body]
pub(crate) fn unix_now() -> i64 {
    chrono::DateTime::<chrono::Utc>::from(std::time::SystemTime::now()).timestamp()
}

impl Entry {
    /// A record stamped with the current time.
    pub fn new(key: String, value: String) -> (e: Entry)
        ensures
            e.key == key,
            e.value == value,
    {
        Entry::with_timestamp(key, value, unix_now())
    }

    /// A record with the given timestamp.
    pub fn with_timestamp(key: String, value: String, timestamp: i64) -> (e: Entry)
        ensures
            e == (Entry { key, value, timestamp }),
    {
        Entry { key, value, timestamp }
    }

    /// Whether the record marks a deletion.
    pub fn is_tombstone(&self) -> (b: bool)
        ensures
            b == (self.value@.len() == 0),
    {
        self.value.as_str().is_empty()
    }

    /// The record's bytes.
    pub fn encode(&self) -> (bytes: Vec<u8>)
        ensures
            encodable(self@),
            bytes@ == encode(self@),
            bytes@.len() == encoded_len(self@),
    {
        let kb = self.key.as_str().as_bytes();
        let vb = self.value.as_str().as_bytes();
        let mut out = u64_to_le_bytes(self.timestamp as u64);
        let mut k8 = u64_to_le_bytes(kb.len() as u64);
        let mut v8 = u64_to_le_bytes(vb.len() as u64);
        out.append(&mut k8);
        out.append(&mut v8);
        let ghost head = out@;
        out.extend_from_slice(kb);
        assert(out@ =~= head + kb@);
        let ghost head_key = out@;
        out.extend_from_slice(vb);
        assert(out@ =~= head_key + vb@);
        proof {
            lemma_encode_frames(self@);
        }
        out
    }
}

/// Timestamp, key length and value length of the record at `pos`, where `data` holds all of
/// it.
pub fn read_header(data: &[u8], pos: usize) -> (r: Option<(i64, usize, usize)>)
    ensures
        r is Some <==> frames(tail(data@, pos as int)),
        r matches Some((timestamp, key_len, value_len)) ==> {
            &&& timestamp == header_timestamp(tail(data@, pos as int))
            &&& key_len == header_key_len(tail(data@, pos as int))
            &&& value_len == header_value_len(tail(data@, pos as int))
            &&& pos + HEADER_LEN + key_len + value_len <= data@.len() <= usize::MAX
        },
{
    let len: usize = data.len();
    if pos > len || len - pos < HEADER_LEN {
        return None;
    }
    let ghost t = tail(data@, pos as int);
    assert(t.subrange(0, 8) =~= data@.subrange(pos as int, pos + 8));
    assert(t.subrange(8, 16) =~= data@.subrange(pos + 8, pos + 16));
    assert(t.subrange(16, 24) =~= data@.subrange(pos + 16, pos + 24));
    let timestamp: i64 = u64_from_le_bytes(slice_subrange(data, pos, pos + 8)) as i64;
    let key_len: u64 = u64_from_le_bytes(slice_subrange(data, pos + 8, pos + 16));
    let value_len: u64 = u64_from_le_bytes(slice_subrange(data, pos + 16, pos + 24));
    let rest: usize = len - pos - HEADER_LEN;
    if key_len > rest as u64 {
        return None;
    }
    if value_len > (rest - key_len as usize) as u64 {
        return None;
    }
    Some((timestamp, key_len as usize, value_len as usize))
}

/// Reads the record that starts at `pos`, and tells where the next one starts.
pub fn read_entry(data: &[u8], pos: usize) -> (r: Result<(Entry, usize), Error>)
    ensures
        match decode(tail(data@, pos as int)) {
            Some(e) => r matches Ok((entry, next)) && entry@ == e && next == pos + framed_len(
                tail(data@, pos as int),
            ),
            None => r matches Err(Error::CorruptLog),
        },
{
    let ghost t = tail(data@, pos as int);
    match read_header(data, pos) {
        None => Err(Error::CorruptLog),
        Some((timestamp, key_len, value_len)) => {
            let key_start: usize = pos + HEADER_LEN;
            let value_start: usize = key_start + key_len;
            let end: usize = value_start + value_len;
            let key_bytes = slice_to_vec(slice_subrange(data, key_start, value_start));
            let value_bytes = slice_to_vec(slice_subrange(data, value_start, end));
            assert(key_bytes@ =~= framed_key(t));
            assert(value_bytes@ =~= framed_value(t));
            match string_from_utf8(key_bytes) {
                None => Err(Error::CorruptLog),
                Some(key) => match string_from_utf8(value_bytes) {
                    None => Err(Error::CorruptLog),
                    Some(value) => Ok((Entry { key, value, timestamp }, end)),
                },
            }
        },
    }
}

/// Reads timestamp and value of the record that starts at `pos`. The key is skipped, not
/// read.
pub fn read_value_at(data: &[u8], pos: usize) -> (r: Result<(i64, String), Error>)
    ensures
        match decode_value(tail(data@, pos as int)) {
            Some((timestamp, value)) => r matches Ok((t, v)) && t == timestamp && v@ == value,
            None => r matches Err(Error::CorruptLog),
        },
{
    let ghost t = tail(data@, pos as int);
    match read_header(data, pos) {
        None => Err(Error::CorruptLog),
        Some((timestamp, key_len, value_len)) => {
            let value_start: usize = pos + HEADER_LEN + key_len;
            let end: usize = value_start + value_len;
            let value_bytes = slice_to_vec(slice_subrange(data, value_start, end));
            assert(value_bytes@ =~= framed_value(t));
            match string_from_utf8(value_bytes) {
                None => Err(Error::CorruptLog),
                Some(value) => Ok((timestamp, value)),
            }
        },
    }
}


/// Appends the record to the bytes of segment `file_id` and gives its locator.
pub fn append_entry(writer: &mut Vec<u8>, file_id: u64, e: &Entry) -> (p: EntryPos)
    ensures
        encodable(e@),
        final(writer)@ == old(writer)@ + encode(e@),
        final(writer)@.len() <= usize::MAX,
        p == (EntryPos {
            file_id,
            pos: old(writer)@.len() as u64,
            sz: encoded_len(e@) as u64,
            timestamp: e.timestamp,
        }),
{
    let pos: usize = writer.len();
    let bytes = e.encode();
    let ghost before = writer@;
    writer.extend_from_slice(bytes.as_slice());
    assert(writer@ =~= before + encode(e@));
    let end: usize = writer.len();
    EntryPos { file_id, pos: pos as u64, sz: (end - pos) as u64, timestamp: e.timestamp }
}

} // verus!
