//! Names of segment files: `data-<id>`, with `<id>` a 64-bit number in decimal.
//!
//! A name is read as its UTF-8 bytes. After the prefix `data-` the rest must be the
//! decimal representation of a 64-bit number: one or more digits, no zero in front of
//! another digit, and a value that fits in 64 bits. Any other name is no segment. So a
//! segment has one name, and a name is a segment's exactly where it is the name that
//! [`data_file_name`] gives for its id.

use vstd::prelude::*;
use vstd::string::StringExecFns;
use vstd::utf8::{
    encode_utf8, encode_utf8_decode_utf8, is_ascii_chars, is_ascii_chars_encode_utf8,
};

verus! {

/// The bytes of `data-`.
pub open spec fn name_prefix() -> Seq<u8> {
    seq![0x64u8, 0x61u8, 0x74u8, 0x61u8, 0x2du8]
}

/// Whether the byte is one of `0` to `9`.
pub open spec fn is_digit(b: u8) -> bool {
    0x30 <= b <= 0x39
}

/// Whether every byte is a digit.
pub open spec fn all_digits(d: Seq<u8>) -> bool {
    forall|i: int| 0 <= i < d.len() ==> is_digit(#[trigger] d[i])
}

/// The number that the digits write in decimal.
pub open spec fn digits_value(d: Seq<u8>) -> nat
    decreases d.len(),
{
    if d.len() == 0 {
        0
    } else {
        digits_value(d.drop_last()) * 10 + (d.last() - 0x30) as nat
    }
}

/// The digits write a number as it is written: there is a digit, and no zero stands in
/// front of another digit.
pub open spec fn canonical(d: Seq<u8>) -> bool {
    &&& d.len() > 0
    &&& all_digits(d)
    &&& d.len() == 1 || d[0] != 0x30
}

/// The number that the bytes write, where they are the decimal representation of a
/// number that fits in 64 bits.
pub open spec fn parse_decimal(d: Seq<u8>) -> Option<u64> {
    if canonical(d) && digits_value(d) <= u64::MAX {
        Some(digits_value(d) as u64)
    } else {
        None
    }
}

/// The id of the segment that a file of this name (as bytes) holds, if it holds one.
pub open spec fn id_of_name(name: Seq<u8>) -> Option<u64> {
    if name.len() >= 5 && name.subrange(0, 5) == name_prefix() {
        parse_decimal(name.subrange(5, name.len() as int))
    } else {
        None
    }
}

/// The ids of the names that hold a segment, in the order of the names.
pub open spec fn ids_of(names: Seq<String>) -> Seq<u64>
    decreases names.len(),
{
    if names.len() == 0 {
        Seq::empty()
    } else {
        match id_of_name(encode_utf8(names.last()@)) {
            Some(id) => ids_of(names.drop_last()).push(id),
            None => ids_of(names.drop_last()),
        }
    }
}

/// No number is below the number that a prefix of its digits writes.
pub proof fn lemma_digits_value_grows(d: Seq<u8>, n: int)
    requires
        0 <= n <= d.len(),
        all_digits(d),
    ensures
        digits_value(d.take(n)) <= digits_value(d),
    decreases d.len(),
{
    if n == d.len() {
        assert(d.take(n) =~= d);
    } else {
        assert(all_digits(d.drop_last())) by {
            assert forall|i: int| 0 <= i < d.drop_last().len() implies is_digit(
                #[trigger] d.drop_last()[i],
            ) by {
                assert(is_digit(d[i]));
            }
        }
        lemma_digits_value_grows(d.drop_last(), n);
        assert(d.drop_last().take(n) =~= d.take(n));
        assert(is_digit(d[d.len() - 1]));
    }
}

/// Reads a decimal number from the bytes from `start` on.
fn parse_digits(bytes: &[u8], start: usize) -> (r: Option<u64>)
    requires
        start <= bytes@.len(),
    ensures
        r == parse_decimal(bytes@.subrange(start as int, bytes@.len() as int)),
{
    let n: usize = bytes.len();
    let ghost d = bytes@.subrange(start as int, n as int);
    if start == n {
        return None;
    }
    if n - start > 1 && bytes[start] == 0x30 {
        assert(d[0] == bytes@[start as int]);
        return None;
    }
    let mut i: usize = start;
    let mut acc: u64 = 0;
    assert(d.take(0) =~= Seq::<u8>::empty());
    while i < n
        invariant
            start <= i <= n,
            start < n,
            n == bytes@.len(),
            d == bytes@.subrange(start as int, n as int),
            d.len() == 1 || d[0] != 0x30,
            all_digits(d.take(i - start)),
            acc == digits_value(d.take(i - start)),
        decreases n - i,
    {
        let b: u8 = bytes[i];
        assert(b == d[i - start]);
        if b < 0x30 || b > 0x39 {
            assert(!is_digit(d[i - start]));
            return None;
        }
        let digit: u64 = (b - 0x30) as u64;
        let ghost next = d.take(i - start + 1);
        proof {
            assert(next.drop_last() =~= d.take(i - start));
            assert(next.last() == b);
            assert forall|j: int| 0 <= j < next.len() implies is_digit(#[trigger] next[j]) by {
                if j < i - start {
                    assert(is_digit(d.take(i - start)[j]));
                }
            }
        }
        if acc > (u64::MAX - digit) / 10 {
            proof {
                if all_digits(d) {
                    lemma_digits_value_grows(d, i - start + 1);
                }
            }
            return None;
        }
        acc = acc * 10 + digit;
        i += 1;
    }
    assert(d.take(i - start) =~= d);
    Some(acc)
}

/// The id of the segment that a file of this name holds, if it holds one.
pub fn parse_file_id(name: &str) -> (r: Option<u64>)
    ensures
        r == id_of_name(encode_utf8(name@)),
{
    let bytes = name.as_bytes();
    let n: usize = bytes.len();
    if n < 5 {
        return None;
    }
    if bytes[0] != 0x64 || bytes[1] != 0x61 || bytes[2] != 0x74 || bytes[3] != 0x61 || bytes[4]
        != 0x2d {
        assert(bytes@.subrange(0, 5)[0] == bytes@[0]);
        assert(bytes@.subrange(0, 5)[1] == bytes@[1]);
        assert(bytes@.subrange(0, 5)[2] == bytes@[2]);
        assert(bytes@.subrange(0, 5)[3] == bytes@[3]);
        assert(bytes@.subrange(0, 5)[4] == bytes@[4]);
        return None;
    }
    assert(bytes@.subrange(0, 5) =~= name_prefix());
    parse_digits(bytes, 5)
}

/// The ids ascend strictly: none stands twice.
pub open spec fn sorted(ids: Seq<u64>) -> bool {
    forall|i: int, j: int| 0 <= i < j < ids.len() ==> ids[i] < ids[j]
}

/// An element put into a sequence joins the set of its elements.
pub proof fn lemma_insert_to_set(s: Seq<u64>, at: int, x: u64)
    requires
        0 <= at <= s.len(),
    ensures
        s.insert(at, x).to_set() == s.to_set().insert(x),
{
    let t = s.insert(at, x);
    assert forall|a: u64| t.contains(a) <==> s.contains(a) || a == x by {
        if t.contains(a) {
            let j = choose|j: int| 0 <= j < t.len() && t[j] == a;
            if j < at {
                assert(s[j] == a);
            } else if j > at {
                assert(s[j - 1] == a);
            }
        }
        if s.contains(a) {
            let j = choose|j: int| 0 <= j < s.len() && s[j] == a;
            if j < at {
                assert(t[j] == a);
            } else {
                assert(t[j + 1] == a);
            }
        }
        if a == x {
            assert(t[at] == a);
        }
    }
    assert(t.to_set() =~= s.to_set().insert(x));
}

/// The set of the ids of the segments among the files of a directory, in ascending
/// order. Names that hold no segment are passed over, and an id is listed once however
/// often its name is given.
pub fn sorted_file_id_list(names: &Vec<String>) -> (ids: Vec<u64>)
    ensures
        sorted(ids@),
        ids@.to_set() == ids_of(names@).to_set(),
{
    let mut ids: Vec<u64> = Vec::new();
    let mut i: usize = 0;
    assert(names@.take(0) =~= Seq::<String>::empty());
    while i < names.len()
        invariant
            i <= names@.len(),
            sorted(ids@),
            ids@.to_set() == ids_of(names@.take(i as int)).to_set(),
        decreases names@.len() - i,
    {
        proof {
            assert(names@.take(i + 1).drop_last() =~= names@.take(i as int));
            assert(names@.take(i + 1).last() == names@[i as int]);
        }
        match parse_file_id(names[i].as_str()) {
            None => {},
            Some(id) => {
                let mut at: usize = 0;
                while at < ids.len() && ids[at] < id
                    invariant
                        at <= ids@.len(),
                        forall|j: int| 0 <= j < at ==> ids@[j] < id,
                    decreases ids@.len() - at,
                {
                    at += 1;
                }
                let ghost before = ids@;
                let ghost parsed = ids_of(names@.take(i as int));
                proof {
                    parsed.lemma_push_to_set_commute(id);
                }
                if at < ids.len() && ids[at] == id {
                    proof {
                        assert(before.contains(id));
                        assert(before.to_set().insert(id) =~= before.to_set());
                    }
                } else {
                    ids.insert(at, id);
                    proof {
                        lemma_insert_to_set(before, at as int, id);
                        assert forall|a: int, b: int| 0 <= a < b < ids@.len() implies ids@[a]
                            < ids@[b] by {
                            if b < at {
                                assert(before[a] < before[b]);
                            } else if b == at {
                            } else if a < at {
                                if at < before.len() {
                                    if b - 1 > at {
                                        assert(before[at as int] < before[b - 1]);
                                    }
                                }
                            } else if a == at {
                                if b - 1 > at {
                                    assert(before[at as int] < before[b - 1]);
                                }
                            } else {
                                assert(before[a - 1] < before[b - 1]);
                            }
                        }
                    }
                }
            },
        }
        i += 1;
    }
    assert(names@.take(i as int) =~= names@);
    ids
}

/// The character that writes a digit.
pub open spec fn digit_char(d: nat) -> char {
    if d == 0 {
        '0'
    } else if d == 1 {
        '1'
    } else if d == 2 {
        '2'
    } else if d == 3 {
        '3'
    } else if d == 4 {
        '4'
    } else if d == 5 {
        '5'
    } else if d == 6 {
        '6'
    } else if d == 7 {
        '7'
    } else if d == 8 {
        '8'
    } else {
        '9'
    }
}

/// The number in decimal, without leading zeros.
pub open spec fn decimal(n: nat) -> Seq<char>
    decreases n,
{
    if n < 10 {
        seq![digit_char(n)]
    } else {
        decimal(n / 10).push(digit_char(n % 10))
    }
}

/// The name of the file that holds segment `file_id`.
pub open spec fn name_of(file_id: u64) -> Seq<char> {
    seq!['d', 'a', 't', 'a', '-'] + decimal(file_id as nat)
}

/// The path of the file that holds segment `file_id` in the directory `dir`: the name,
/// behind the directory and a `/` where the directory is not empty and does not end in
/// one.
pub open spec fn path_of(dir: Seq<char>, file_id: u64) -> Seq<char> {
    if encode_utf8(dir).len() == 0 {
        name_of(file_id)
    } else if encode_utf8(dir).last() == 0x2f {
        dir + name_of(file_id)
    } else {
        dir + seq!['/'] + name_of(file_id)
    }
}

fn digit_str(d: u64) -> (s: &'static str)
    requires
        d < 10,
    ensures
        s@ == seq![digit_char(d as nat)],
{
    proof {
        reveal_strlit("0");
        reveal_strlit("1");
        reveal_strlit("2");
        reveal_strlit("3");
        reveal_strlit("4");
        reveal_strlit("5");
        reveal_strlit("6");
        reveal_strlit("7");
        reveal_strlit("8");
        reveal_strlit("9");
    }
    let s = if d == 0 {
        "0"
    } else if d == 1 {
        "1"
    } else if d == 2 {
        "2"
    } else if d == 3 {
        "3"
    } else if d == 4 {
        "4"
    } else if d == 5 {
        "5"
    } else if d == 6 {
        "6"
    } else if d == 7 {
        "7"
    } else if d == 8 {
        "8"
    } else {
        "9"
    };
    assert(s@ =~= seq![digit_char(d as nat)]);
    s
}

/// Writes the number in decimal behind the text.
pub fn push_decimal(out: &mut String, n: u64)
    ensures
        final(out)@ == old(out)@ + decimal(n as nat),
    decreases n,
{
    if n >= 10 {
        push_decimal(out, n / 10);
    }
    let ghost before = out@;
    out.append(digit_str(n % 10));
    assert(out@ =~= old(out)@ + decimal(n as nat));
}

/// The name of the file that holds segment `file_id`: `data-<file_id>`.
pub fn data_file_name(file_id: u64) -> (name: String)
    ensures
        name@ == name_of(file_id),
{
    proof {
        reveal_strlit("data-");
    }
    let mut name = String::from_str("data-");
    assert(name@ =~= seq!['d', 'a', 't', 'a', '-']);
    push_decimal(&mut name, file_id);
    name
}

/// The path of the file that holds segment `file_id` in the directory `dir_path`.
pub fn data_file_path(dir_path: &str, file_id: u64) -> (path: String)
    ensures
        path@ == path_of(dir_path@, file_id),
{
    let name = data_file_name(file_id);
    let bytes = dir_path.as_bytes();
    let n: usize = bytes.len();
    if n == 0 {
        return name;
    }
    let mut path = String::from_str(dir_path);
    if bytes[n - 1] != 0x2f {
        proof {
            reveal_strlit("/");
        }
        path.append("/");
        assert(path@ =~= dir_path@ + seq!['/']);
    }
    path.append(name.as_str());
    path
}

/// The digits of a number write that number.
pub proof fn lemma_decimal_value(n: nat)
    ensures
        is_ascii_chars(decimal(n)),
        decimal(n).len() > 0,
        encode_utf8(decimal(n)).len() == decimal(n).len(),
        all_digits(encode_utf8(decimal(n))),
        digits_value(encode_utf8(decimal(n))) == n,
        n >= 1 ==> encode_utf8(decimal(n))[0] != 0x30,
        n < 10 <==> decimal(n).len() == 1,
        canonical(encode_utf8(decimal(n))),
    decreases n,
{
    let c = decimal(n);
    if n < 10 {
        is_ascii_chars_encode_utf8(c);
        let b = encode_utf8(c);
        assert(b[0] == c[0] as u8);
        assert(b.drop_last() =~= Seq::<u8>::empty());
        assert(digits_value(b.drop_last()) == 0);
    } else {
        lemma_decimal_value(n / 10);
        let front = decimal(n / 10);
        assert(c.drop_last() =~= front);
        assert forall|i: int| 0 <= i < c.len() implies '\0' <= #[trigger] c[i] <= '\u{7f}' by {
            if i < front.len() {
                assert(c[i] == front[i]);
            }
        }
        is_ascii_chars_encode_utf8(c);
        is_ascii_chars_encode_utf8(front);
        let b = encode_utf8(c);
        let fb = encode_utf8(front);
        assert(b.drop_last() =~= fb) by {
            assert forall|i: int| 0 <= i < fb.len() implies b.drop_last()[i] == fb[i] by {
                assert(b[i] == c[i] as u8);
                assert(fb[i] == front[i] as u8);
            }
        }
        assert(b.last() == c[c.len() - 1] as u8);
        assert forall|i: int| 0 <= i < b.len() implies is_digit(#[trigger] b[i]) by {
            if i < fb.len() {
                assert(b[i] == fb[i]);
                assert(is_digit(fb[i]));
            }
        }
        assert(b[0] == fb[0]);
    }
}

/// What the length of a number's digits says of the number.
pub proof fn lemma_canonical_value(d: Seq<u8>)
    requires
        canonical(d),
    ensures
        d.len() == 1 ==> digits_value(d) == d[0] - 0x30,
        d.len() > 1 ==> digits_value(d) >= 10,
        d[0] != 0x30 ==> digits_value(d) >= 1,
    decreases d.len(),
{
    let front = d.drop_last();
    assert(is_digit(d[d.len() - 1]));
    assert(is_digit(d[0]));
    if d.len() == 1 {
        assert(front =~= Seq::<u8>::empty());
        assert(digits_value(front) == 0);
    } else {
        assert forall|i: int| 0 <= i < front.len() implies is_digit(#[trigger] front[i]) by {
            assert(is_digit(d[i]));
        }
        assert(front[0] == d[0]);
        lemma_canonical_value(front);
    }
}

/// A number is written in one way: digits that write the same number are the same.
pub proof fn lemma_canonical_unique(a: Seq<u8>, b: Seq<u8>)
    requires
        canonical(a),
        canonical(b),
        digits_value(a) == digits_value(b),
    ensures
        a == b,
    decreases a.len(),
{
    lemma_canonical_value(a);
    lemma_canonical_value(b);
    assert(is_digit(a[a.len() - 1]));
    assert(is_digit(b[b.len() - 1]));
    if a.len() == 1 {
        assert(a =~= b);
    } else {
        let fa = a.drop_last();
        let fb = b.drop_last();
        assert forall|i: int| 0 <= i < fa.len() implies is_digit(#[trigger] fa[i]) by {
            assert(is_digit(a[i]));
        }
        assert forall|i: int| 0 <= i < fb.len() implies is_digit(#[trigger] fb[i]) by {
            assert(is_digit(b[i]));
        }
        assert(fa[0] == a[0] && fb[0] == b[0]);
        lemma_canonical_unique(fa, fb);
        assert(a =~= fa.push(a.last()));
        assert(b =~= fb.push(b.last()));
    }
}

/// The bytes of a segment's file name: the prefix, then the digits of the id.
pub proof fn lemma_name_bytes(file_id: u64)
    ensures
        encode_utf8(name_of(file_id)) == name_prefix() + encode_utf8(decimal(file_id as nat)),
{
    let digits = decimal(file_id as nat);
    let name = name_of(file_id);
    lemma_decimal_value(file_id as nat);
    assert forall|i: int| 0 <= i < name.len() implies '\0' <= #[trigger] name[i] <= '\u{7f}' by {
        if i >= 5 {
            assert(name[i] == digits[i - 5]);
        }
    }
    is_ascii_chars_encode_utf8(name);
    is_ascii_chars_encode_utf8(digits);
    let b = encode_utf8(name);
    let db = encode_utf8(digits);
    assert forall|i: int| 0 <= i < b.len() implies b[i] == (name_prefix() + db)[i] by {
        assert(b[i] == name[i] as u8);
        if i >= 5 {
            assert(db[i - 5] == digits[i - 5] as u8);
        }
    }
    assert(b =~= name_prefix() + db);
}

/// A segment's file name reads back as the segment's id.
pub proof fn law_name_roundtrip(file_id: u64)
    ensures
        id_of_name(encode_utf8(name_of(file_id))) == Some(file_id),
{
    let db = encode_utf8(decimal(file_id as nat));
    let b = encode_utf8(name_of(file_id));
    lemma_decimal_value(file_id as nat);
    lemma_name_bytes(file_id);
    assert(b.subrange(0, 5) =~= name_prefix());
    assert(b.subrange(5, b.len() as int) =~= db);
}

/// A segment has one name: the bytes of a name hold the segment `file_id` exactly where
/// they are the name that is written for `file_id`.
pub proof fn law_one_name(name: Seq<u8>, file_id: u64)
    ensures
        id_of_name(name) == Some(file_id) <==> name == encode_utf8(name_of(file_id)),
{
    law_name_roundtrip(file_id);
    if id_of_name(name) == Some(file_id) {
        let suffix = name.subrange(5, name.len() as int);
        let db = encode_utf8(decimal(file_id as nat));
        lemma_decimal_value(file_id as nat);
        lemma_name_bytes(file_id);
        lemma_canonical_unique(suffix, db);
        assert(name =~= name.subrange(0, 5) + suffix);
    }
}

/// The ids listed are those whose file is there: `file_id` is among the ids of the names
/// exactly where one of the names is the name that is written for `file_id`.
pub proof fn law_listed_ids(names: Seq<String>, file_id: u64)
    ensures
        ids_of(names).contains(file_id) <==> exists|i: int|
            0 <= i < names.len() && (#[trigger] names[i])@ == name_of(file_id),
    decreases names.len(),
{
    if names.len() > 0 {
        let front = names.drop_last();
        let last = names.last();
        law_listed_ids(front, file_id);
        law_one_name(encode_utf8(last@), file_id);
        encode_utf8_decode_utf8(last@);
        encode_utf8_decode_utf8(name_of(file_id));
        let before = ids_of(front);
        let held = last@ == name_of(file_id);
        assert(held <==> id_of_name(encode_utf8(last@)) == Some(file_id));
        if ids_of(names).contains(file_id) {
            let j = choose|j: int| 0 <= j < ids_of(names).len() && ids_of(names)[j] == file_id;
            if j < before.len() {
                assert(before[j] == file_id);
                let i = choose|i: int| 0 <= i < front.len() && (#[trigger] front[i])@ == name_of(
                    file_id,
                );
                assert(names[i]@ == name_of(file_id));
            } else {
                assert(names[names.len() - 1]@ == name_of(file_id));
            }
        }
        if exists|i: int| 0 <= i < names.len() && (#[trigger] names[i])@ == name_of(file_id) {
            let i = choose|i: int| 0 <= i < names.len() && (#[trigger] names[i])@ == name_of(
                file_id,
            );
            if i < front.len() {
                assert(front[i]@ == name_of(file_id));
                let j = choose|j: int| 0 <= j < before.len() && before[j] == file_id;
                assert(ids_of(names)[j] == file_id);
            } else {
                assert(ids_of(names)[before.len() as int] == file_id);
            }
        }
    }
}

} // verus!
