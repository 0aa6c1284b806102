use crate::format::{
    check_header, count_prefix, decode_file, encode_entries, encode_entry, encode_file, encode_items,
    encode_value, hash_insert, key_index, lemma_key_index, magic, parse_entries, parse_items,
    parse_value, slice_at, u32_at, DecodeError,
};
use crate::models::data::{is_nan_bits, keys_distinct, value_eq, well_formed, Value};
use vstd::bytes::{
    lemma_auto_spec_u32_to_from_le_bytes, lemma_auto_spec_u64_to_from_le_bytes,
    spec_u32_from_le_bytes, spec_u32_to_le_bytes, spec_u64_from_le_bytes, spec_u64_to_le_bytes,
};
use vstd::prelude::*;
use vstd::utf8::{
    decode_utf8, decode_utf8_encode_utf8, encode_utf8, encode_utf8_decode_utf8,
    encode_utf8_valid_utf8, valid_utf8,
};

verus! {

/// The bytes `t` stand in `s` from position `p` on.
pub open spec fn occurs_at(s: Seq<u8>, p: int, t: Seq<u8>) -> bool {
    0 <= p && p + t.len() <= s.len() && s.subrange(p, p + t.len()) == t
}

proof fn lemma_occurs_split(s: Seq<u8>, p: int, a: Seq<u8>, b: Seq<u8>)
    requires
        occurs_at(s, p, a + b),
    ensures
        occurs_at(s, p, a),
        occurs_at(s, p + a.len(), b),
{
    let w = s.subrange(p, p + (a + b).len());
    assert(s.subrange(p, p + a.len()) =~= w.subrange(0, a.len() as int));
    assert(w.subrange(0, a.len() as int) =~= a);
    assert(s.subrange(p + a.len(), p + a.len() + b.len()) =~= w.subrange(
        a.len() as int,
        w.len() as int,
    ));
    assert(w.subrange(a.len() as int, w.len() as int) =~= b);
}

proof fn lemma_occurs_first(s: Seq<u8>, p: int, t: Seq<u8>)
    requires
        occurs_at(s, p, t),
        t.len() > 0,
    ensures
        s[p] == t[0],
{
    assert(s.subrange(p, p + t.len())[0] == s[p]);
}

/// Every length and count in the tree fits the format's 32-bit fields:
/// string byte lengths, byte buffer lengths, element and entry counts, and
/// key byte lengths.
pub open spec fn counts_fit(v: Value) -> bool
    decreases v,
{
    match v {
        Value::Str(chars) => encode_utf8(chars).len() <= u32::MAX,
        Value::Bytes(b) => b.len() <= u32::MAX,
        Value::Array(items) => items.len() <= u32::MAX && forall|i: int|
            0 <= i < items.len() ==> counts_fit(#[trigger] items[i]),
        Value::Object(entries) => entries.len() <= u32::MAX && forall|i: int|
            0 <= i < entries.len() ==> encode_utf8((#[trigger] entries[i]).0).len() <= u32::MAX
                && counts_fit(entries[i].1),
        Value::Hash(entries) => entries.len() <= u32::MAX && forall|i: int|
            0 <= i < entries.len() ==> encode_utf8((#[trigger] entries[i]).0).len() <= u32::MAX
                && counts_fit(entries[i].1),
        _ => true,
    }
}

/// A stored count of `n < 2^32` reads back as `n`.
proof fn lemma_read_count(s: Seq<u8>, p: int, n: int)
    requires
        occurs_at(s, p, count_prefix(n)),
        0 <= n <= u32::MAX,
        s.len() <= usize::MAX,
    ensures
        count_prefix(n).len() == 4,
        u32_at(s, p) == (Ok::<u32, DecodeError>(n as u32), p + 4),
        (n as u32) as int == n,
{
    lemma_auto_spec_u32_to_from_le_bytes();
}

/// Every encoded value takes at least its tag byte.
proof fn lemma_encode_value_len(v: Value)
    ensures
        encode_value(v).len() >= 1,
        encode_value(v)[0] == match v {
            Value::Null => 0u8,
            Value::Int(_) => 1u8,
            Value::Bool(_) => 2u8,
            Value::Float(_) => 3u8,
            Value::Str(_) => 4u8,
            Value::Array(_) => 5u8,
            Value::Bytes(_) => 6u8,
            Value::Object(_) => 7u8,
            Value::Hash(_) => 8u8,
        },
{
}

proof fn lemma_encode_items_len(items: Seq<Value>)
    ensures
        encode_items(items).len() >= items.len(),
    decreases items.len(),
{
    if items.len() > 0 {
        lemma_encode_items_len(items.subrange(0, items.len() - 1));
        lemma_encode_value_len(items[items.len() - 1]);
    }
}

proof fn lemma_encode_entries_len(entries: Seq<(Seq<char>, Value)>)
    ensures
        encode_entries(entries).len() >= entries.len(),
    decreases entries.len(),
{
    if entries.len() > 0 {
        lemma_encode_entries_len(entries.subrange(0, entries.len() - 1));
        let e = entries[entries.len() - 1];
        lemma_encode_value_len(e.1);
        assert(encode_entry(e).len() >= encode_value(e.1).len());
    }
}

/// The encoding of a list starts with the encoding of its first element.
proof fn lemma_encode_items_front(items: Seq<Value>)
    requires
        items.len() > 0,
    ensures
        encode_items(items) == encode_value(items[0]) + encode_items(
            items.subrange(1, items.len() as int),
        ),
    decreases items.len(),
{
    let n = items.len() as int;
    if n == 1 {
        assert(items.subrange(0, 0) =~= Seq::<Value>::empty());
        assert(items.subrange(1, 1) =~= Seq::<Value>::empty());
        assert(encode_items(items) =~= encode_value(items[0]) + encode_items(items.subrange(1, n)));
    } else {
        let init = items.subrange(0, n - 1);
        lemma_encode_items_front(init);
        let rest = items.subrange(1, n);
        assert(init.subrange(1, n - 1) =~= rest.subrange(0, n - 2));
        assert(rest[n - 2] == items[n - 1]);
        assert(encode_items(items) =~= encode_value(items[0]) + encode_items(rest));
    }
}

/// The encoding of a list of entries starts with that of its first entry.
proof fn lemma_encode_entries_front(entries: Seq<(Seq<char>, Value)>)
    requires
        entries.len() > 0,
    ensures
        encode_entries(entries) == encode_entry(entries[0]) + encode_entries(
            entries.subrange(1, entries.len() as int),
        ),
    decreases entries.len(),
{
    let n = entries.len() as int;
    if n == 1 {
        assert(entries.subrange(0, 0) =~= Seq::<(Seq<char>, Value)>::empty());
        assert(entries.subrange(1, 1) =~= Seq::<(Seq<char>, Value)>::empty());
        assert(encode_entries(entries) =~= encode_entry(entries[0]) + encode_entries(
            entries.subrange(1, n),
        ));
    } else {
        let init = entries.subrange(0, n - 1);
        lemma_encode_entries_front(init);
        let rest = entries.subrange(1, n);
        assert(init.subrange(1, n - 1) =~= rest.subrange(0, n - 2));
        assert(rest[n - 2] == entries[n - 1]);
        assert(encode_entries(entries) =~= encode_entry(entries[0]) + encode_entries(rest));
    }
}

/// A well-formed value's encoding, wherever it stands in a buffer of at most
/// `u32::MAX` bytes, reads back as the value, with the cursor just past it.
proof fn lemma_parse_encoded_value(s: Seq<u8>, p: int, v: Value)
    requires
        occurs_at(s, p, encode_value(v)),
        s.len() <= usize::MAX,
        well_formed(v),
        counts_fit(v),
    ensures
        parse_value(s, p) == (Ok::<Value, DecodeError>(v), p + encode_value(v).len()),
    decreases v,
{
    let e = encode_value(v);
    lemma_encode_value_len(v);
    lemma_occurs_first(s, p, e);
    match v {
        Value::Null => {},
        Value::Int(i) => {
            lemma_occurs_split(s, p, seq![1u8], spec_u64_to_le_bytes(i as u64));
            lemma_auto_spec_u64_to_from_le_bytes();
            assert((i as u64) as i64 == i) by (bit_vector);
        },
        Value::Bool(b) => {
            assert(s.subrange(p, p + 2)[1] == s[p + 1]);
        },
        Value::Float(bits) => {
            lemma_occurs_split(s, p, seq![3u8], spec_u64_to_le_bytes(bits));
            lemma_auto_spec_u64_to_from_le_bytes();
        },
        Value::Str(chars) => {
            let u = encode_utf8(chars);
            let c = count_prefix(u.len() as int);
            lemma_occurs_split(s, p, seq![4u8] + c, u);
            lemma_occurs_split(s, p, seq![4u8], c);
            lemma_read_count(s, p + 1, u.len() as int);
            encode_utf8_valid_utf8(chars);
            encode_utf8_decode_utf8(chars);
        },
        Value::Bytes(b) => {
            let c = count_prefix(b.len() as int);
            lemma_occurs_split(s, p, seq![6u8] + c, b);
            lemma_occurs_split(s, p, seq![6u8], c);
            lemma_read_count(s, p + 1, b.len() as int);
        },
        Value::Array(items) => {
            let c = count_prefix(items.len() as int);
            let body = encode_items(items);
            lemma_occurs_split(s, p, seq![5u8] + c, body);
            lemma_occurs_split(s, p, seq![5u8], c);
            lemma_encode_items_len(items);
            lemma_read_count(s, p + 1, items.len() as int);
            lemma_parse_encoded_items(s, p + 5, items, Seq::empty());
            assert(Seq::<Value>::empty() + items =~= items);
        },
        Value::Object(entries) => {
            let c = count_prefix(entries.len() as int);
            let body = encode_entries(entries);
            lemma_occurs_split(s, p, seq![7u8] + c, body);
            lemma_occurs_split(s, p, seq![7u8], c);
            lemma_encode_entries_len(entries);
            lemma_read_count(s, p + 1, entries.len() as int);
            lemma_parse_encoded_entries(s, p + 5, entries, Seq::empty(), false);
            assert(Seq::<(Seq<char>, Value)>::empty() + entries =~= entries);
        },
        Value::Hash(entries) => {
            let c = count_prefix(entries.len() as int);
            let body = encode_entries(entries);
            lemma_occurs_split(s, p, seq![8u8] + c, body);
            lemma_occurs_split(s, p, seq![8u8], c);
            lemma_encode_entries_len(entries);
            lemma_read_count(s, p + 1, entries.len() as int);
            assert(Seq::<(Seq<char>, Value)>::empty() + entries =~= entries);
            lemma_parse_encoded_entries(s, p + 5, entries, Seq::empty(), true);
        },
    }
}

/// The encodings of a list of well-formed values read back as the list.
proof fn lemma_parse_encoded_items(s: Seq<u8>, p: int, items: Seq<Value>, acc: Seq<Value>)
    requires
        occurs_at(s, p, encode_items(items)),
        s.len() <= usize::MAX,
        forall|i: int| 0 <= i < items.len() ==> well_formed(#[trigger] items[i]),
        forall|i: int| 0 <= i < items.len() ==> counts_fit(#[trigger] items[i]),
    ensures
        parse_items(s, p, items.len() as int, acc) == (
            Ok::<Value, DecodeError>(Value::Array(acc + items)),
            p + encode_items(items).len(),
        ),
    decreases items,
{
    if items.len() == 0 {
        assert(acc + items =~= acc);
    } else {
        let rest = items.subrange(1, items.len() as int);
        lemma_encode_items_front(items);
        let first = encode_value(items[0]);
        lemma_occurs_split(s, p, first, encode_items(rest));
        lemma_parse_encoded_value(s, p, items[0]);
        lemma_encode_value_len(items[0]);
        assert forall|i: int| 0 <= i < rest.len() implies well_formed(#[trigger] rest[i]) by {
            assert(rest[i] == items[i + 1]);
        }
        assert forall|i: int| 0 <= i < rest.len() implies counts_fit(#[trigger] rest[i]) by {
            assert(rest[i] == items[i + 1]);
        }
        lemma_parse_encoded_items(s, p + first.len(), rest, acc.push(items[0]));
        assert(acc.push(items[0]) + rest =~= acc + items);
    }
}

/// The encodings of a list of entries read back as the list. For a hash map,
/// the keys must differ from each other and from those read before.
proof fn lemma_parse_encoded_entries(
    s: Seq<u8>,
    p: int,
    entries: Seq<(Seq<char>, Value)>,
    acc: Seq<(Seq<char>, Value)>,
    hash: bool,
)
    requires
        occurs_at(s, p, encode_entries(entries)),
        s.len() <= usize::MAX,
        forall|i: int| 0 <= i < entries.len() ==> well_formed(#[trigger] entries[i].1),
        forall|i: int|
            0 <= i < entries.len() ==> encode_utf8((#[trigger] entries[i]).0).len() <= u32::MAX
                && counts_fit(entries[i].1),
        hash ==> keys_distinct(acc + entries),
    ensures
        parse_entries(s, p, entries.len() as int, acc, hash) == (
            Ok::<Value, DecodeError>(
                if hash {
                    Value::Hash(acc + entries)
                } else {
                    Value::Object(acc + entries)
                },
            ),
            p + encode_entries(entries).len(),
        ),
    decreases entries,
{
    if entries.len() == 0 {
        assert(acc + entries =~= acc);
    } else {
        let rest = entries.subrange(1, entries.len() as int);
        lemma_encode_entries_front(entries);
        let (key, value) = entries[0];
        let first = encode_entry(entries[0]);
        lemma_occurs_split(s, p, first, encode_entries(rest));
        let u = encode_utf8(key);
        let c = count_prefix(u.len() as int);
        lemma_occurs_split(s, p, c + u, encode_value(value));
        lemma_occurs_split(s, p, c, u);
        lemma_read_count(s, p, u.len() as int);
        encode_utf8_valid_utf8(key);
        encode_utf8_decode_utf8(key);
        lemma_parse_encoded_value(s, p + 4 + u.len(), value);
        lemma_encode_value_len(value);
        assert forall|i: int| 0 <= i < rest.len() implies well_formed(#[trigger] rest[i].1) by {
            assert(rest[i] == entries[i + 1]);
        }
        assert forall|i: int|
            0 <= i < rest.len() implies encode_utf8((#[trigger] rest[i]).0).len() <= u32::MAX
            && counts_fit(rest[i].1) by {
            assert(rest[i] == entries[i + 1]);
        }
        let next = acc.push((key, value));
        if hash {
            lemma_key_index(acc, key);
            assert forall|i: int| 0 <= i < acc.len() implies #[trigger] acc[i].0 != key by {
                assert((acc + entries)[i] == acc[i]);
                assert((acc + entries)[acc.len() as int] == entries[0]);
            }
            assert(hash_insert(acc, key, value) == next);
        }
        assert(next + rest =~= acc + entries);
        lemma_parse_encoded_entries(s, p + first.len(), rest, next, hash);
    }
}

/// Map insertion keeps the keys distinct and the values well formed.
proof fn lemma_hash_insert(acc: Seq<(Seq<char>, Value)>, k: Seq<char>, v: Value)
    requires
        keys_distinct(acc),
        forall|i: int| 0 <= i < acc.len() ==> well_formed(#[trigger] acc[i].1),
        well_formed(v),
    ensures
        keys_distinct(hash_insert(acc, k, v)),
        forall|i: int|
            0 <= i < hash_insert(acc, k, v).len() ==> well_formed(#[trigger] hash_insert(acc, k, v)[i].1),
{
    lemma_key_index(acc, k);
}

/// The values read from any buffer at any position are well formed.
proof fn lemma_parsed_items_well_formed(s: Seq<u8>, p: int, n: int, acc: Seq<Value>)
    requires
        forall|i: int| 0 <= i < acc.len() ==> well_formed(#[trigger] acc[i]),
    ensures
        parse_items(s, p, n, acc).0 matches Ok(v) ==> well_formed(v),
    decreases s.len() - p, 1int, n,
{
    if n > 0 {
        decoded_values_are_well_formed(s, p);
        match parse_value(s, p) {
            (Ok(v), q) => if p < q <= s.len() {
                lemma_parsed_items_well_formed(s, q, n - 1, acc.push(v));
            },
            _ => {},
        }
    }
}

proof fn lemma_parsed_entries_well_formed(
    s: Seq<u8>,
    p: int,
    n: int,
    acc: Seq<(Seq<char>, Value)>,
    hash: bool,
)
    requires
        forall|i: int| 0 <= i < acc.len() ==> well_formed(#[trigger] acc[i].1),
        hash ==> keys_distinct(acc),
    ensures
        parse_entries(s, p, n, acc, hash).0 matches Ok(v) ==> well_formed(v),
    decreases s.len() - p, 1int, n,
{
    if n > 0 {
        match u32_at(s, p) {
            (Ok(klen), q) => match slice_at(s, q, klen as int) {
                (Ok(kb), q2) => if valid_utf8(kb) {
                    let key = decode_utf8(kb);
                    decoded_values_are_well_formed(s, q2);
                    match parse_value(s, q2) {
                        (Ok(v), q3) => if p < q3 <= s.len() {
                            if hash {
                                lemma_hash_insert(acc, key, v);
                            }
                            lemma_parsed_entries_well_formed(
                                s,
                                q3,
                                n - 1,
                                if hash {
                                    hash_insert(acc, key, v)
                                } else {
                                    acc.push((key, v))
                                },
                                hash,
                            );
                        },
                        _ => {},
                    }
                },
                _ => {},
            },
            _ => {},
        }
    }
}

/// Whatever the decoder reads from any buffer, at any position, is well
/// formed: a decoded hash map never holds a key twice.
pub proof fn decoded_values_are_well_formed(s: Seq<u8>, p: int)
    ensures
        parse_value(s, p).0 matches Ok(v) ==> well_formed(v),
    decreases s.len() - p, 0int, 0int,
{
    if 0 <= p < s.len() {
        let tag = s[p];
        if tag == 5 || tag == 7 || tag == 8 {
            match u32_at(s, p + 1) {
                (Ok(n), q) => if tag == 5 {
                    lemma_parsed_items_well_formed(s, q, n as int, Seq::empty());
                } else {
                    lemma_parsed_entries_well_formed(s, q, n as int, Seq::empty(), tag == 8);
                },
                _ => {},
            }
        }
    }
}

/// Reading back what was written gives the value that was written: for every
/// well-formed value whose file fits in the 32-bit length field,
/// `decode_file(encode_file(v)) == Ok(v)`.
pub proof fn decode_inverts_encode(v: Value)
    requires
        well_formed(v),
        encode_file(v).len() <= u32::MAX,
    ensures
        decode_file(encode_file(v)) == Ok::<Value, DecodeError>(v),
{
    let s = encode_file(v);
    let body = encode_value(v);
    let c = count_prefix(8 + body.len() as int);
    lemma_auto_spec_u32_to_from_le_bytes();
    assert(s.subrange(0, 3) =~= magic());
    assert(s.subrange(4, 8) =~= c);
    assert(s[3] == 1u8);
    assert(s.subrange(8, 8 + body.len() as int) =~= body);
    lemma_counts_fit_by_length(v);
    lemma_parse_encoded_value(s, 8, v);
}

/// Each element's encoding is no longer than the list's.
proof fn lemma_encode_items_part(items: Seq<Value>, i: int)
    requires
        0 <= i < items.len(),
    ensures
        encode_value(items[i]).len() <= encode_items(items).len(),
    decreases items.len(),
{
    let n = items.len() as int;
    if i < n - 1 {
        let init = items.subrange(0, n - 1);
        lemma_encode_items_part(init, i);
        assert(init[i] == items[i]);
    }
}

/// Each entry's encoding is no longer than the list's.
proof fn lemma_encode_entries_part(entries: Seq<(Seq<char>, Value)>, i: int)
    requires
        0 <= i < entries.len(),
    ensures
        encode_entry(entries[i]).len() <= encode_entries(entries).len(),
    decreases entries.len(),
{
    let n = entries.len() as int;
    if i < n - 1 {
        let init = entries.subrange(0, n - 1);
        lemma_encode_entries_part(init, i);
        assert(init[i] == entries[i]);
    }
}

/// A value whose encoding fits in `u32::MAX` bytes has all its counts and
/// lengths within 32 bits.
proof fn lemma_counts_fit_by_length(v: Value)
    requires
        encode_value(v).len() <= u32::MAX,
    ensures
        counts_fit(v),
    decreases v,
{
    match v {
        Value::Array(items) => {
            lemma_encode_items_len(items);
            assert forall|i: int| 0 <= i < items.len() implies counts_fit(#[trigger] items[i]) by {
                lemma_encode_items_part(items, i);
                lemma_counts_fit_by_length(items[i]);
            }
        },
        Value::Object(entries) => {
            lemma_encode_entries_len(entries);
            assert forall|i: int| 0 <= i < entries.len() implies encode_utf8(
                (#[trigger] entries[i]).0,
            ).len() <= u32::MAX && counts_fit(entries[i].1) by {
                lemma_encode_entries_part(entries, i);
                lemma_counts_fit_by_length(entries[i].1);
            }
        },
        Value::Hash(entries) => {
            lemma_encode_entries_len(entries);
            assert forall|i: int| 0 <= i < entries.len() implies encode_utf8(
                (#[trigger] entries[i]).0,
            ).len() <= u32::MAX && counts_fit(entries[i].1) by {
                lemma_encode_entries_part(entries, i);
                lemma_counts_fit_by_length(entries[i].1);
            }
        },
        _ => {},
    }
}

/// Decoding at a cursor reads back what was encoded there: for a well-formed
/// value whose counts and lengths fit in 32 bits, standing after any bytes
/// `before` and followed by any bytes `after` in a buffer of at most
/// `usize::MAX` bytes, `parse_value` at `before.len()` gives the value and
/// leaves the cursor just past its encoding.
pub proof fn decode_value_inverts_encode_value(before: Seq<u8>, v: Value, after: Seq<u8>)
    requires
        well_formed(v),
        counts_fit(v),
        before.len() + encode_value(v).len() + after.len() <= usize::MAX,
    ensures
        parse_value(before + encode_value(v) + after, before.len() as int) == (
            Ok::<Value, DecodeError>(v),
            before.len() + encode_value(v).len() as int,
        ),
{
    let e = encode_value(v);
    let s = before + e + after;
    assert(s.subrange(before.len() as int, before.len() + e.len() as int) =~= e);
    lemma_parse_encoded_value(s, before.len() as int, v);
}

/// Every file the encoder writes passes the header check, when its length
/// fits the 32-bit length field.
pub proof fn header_accepts_encoded(v: Value)
    requires
        encode_file(v).len() <= u32::MAX,
    ensures
        check_header(encode_file(v)) == Ok::<(), DecodeError>(()),
{
    let s = encode_file(v);
    let body = encode_value(v);
    lemma_auto_spec_u32_to_from_le_bytes();
    assert(s.subrange(0, 3) =~= magic());
    assert(s.subrange(4, 8) =~= count_prefix(8 + body.len() as int));
}

/// A written file cut short anywhere is rejected by the header check.
pub proof fn header_rejects_truncated(v: Value, k: int)
    requires
        encode_file(v).len() <= u32::MAX,
        0 <= k < encode_file(v).len(),
    ensures
        check_header(encode_file(v).subrange(0, k)) is Err,
{
    let s = encode_file(v);
    let t = s.subrange(0, k);
    let body = encode_value(v);
    lemma_auto_spec_u32_to_from_le_bytes();
    if k >= 8 {
        assert(t.subrange(4, 8) =~= count_prefix(8 + body.len() as int));
    }
}

/// A written file with any bytes appended is rejected by the header check.
pub proof fn header_rejects_padded(v: Value, extra: Seq<u8>)
    requires
        encode_file(v).len() <= u32::MAX,
        extra.len() > 0,
    ensures
        check_header(encode_file(v) + extra) == Err::<(), DecodeError>(DecodeError::SizeMismatch),
{
    let s = encode_file(v);
    let t = s + extra;
    let body = encode_value(v);
    lemma_auto_spec_u32_to_from_le_bytes();
    assert(t.subrange(0, 3) =~= magic());
    assert(t.subrange(4, 8) =~= count_prefix(8 + body.len() as int));
}

/// An object and a hash map with the same entries are written alike but for
/// the tag byte: 7 for the object, 8 for the map.
pub proof fn object_and_hash_share_layout(entries: Seq<(Seq<char>, Value)>)
    ensures
        encode_value(Value::Object(entries))[0] == 7u8,
        encode_value(Value::Hash(entries))[0] == 8u8,
        encode_value(Value::Object(entries)).drop_first() == encode_value(
            Value::Hash(entries),
        ).drop_first(),
{
    let rest = count_prefix(entries.len() as int) + encode_entries(entries);
    assert(encode_value(Value::Object(entries)) =~= seq![7u8] + rest);
    assert(encode_value(Value::Hash(entries)) =~= seq![8u8] + rest);
    assert((seq![7u8] + rest).drop_first() =~= rest);
    assert((seq![8u8] + rest).drop_first() =~= rest);
}

// ---------------------------------------------------------------------------
// The byte layout of each value, stated against vstd's little-endian words
// ---------------------------------------------------------------------------

/// Null is the single byte 0; a bool is tag 2 then 1 for true, 0 for false.
pub proof fn null_and_bool_layout(b: bool)
    ensures
        encode_value(Value::Null) == seq![0u8],
        encode_value(Value::Bool(b)) == seq![2u8, if b { 1u8 } else { 0u8 }],
{
    assert(encode_value(Value::Null) =~= seq![0u8]);
}

/// An integer is tag 1 then eight bytes that, read as a little-endian word
/// and taken as two's complement, are the integer.
pub proof fn int_layout(i: i64)
    ensures
        encode_value(Value::Int(i)).len() == 9,
        encode_value(Value::Int(i))[0] == 1u8,
        spec_u64_from_le_bytes(encode_value(Value::Int(i)).subrange(1, 9)) as i64 == i,
{
    lemma_auto_spec_u64_to_from_le_bytes();
    let e = encode_value(Value::Int(i));
    assert(e.subrange(1, 9) =~= spec_u64_to_le_bytes(i as u64));
    assert((i as u64) as i64 == i) by (bit_vector);
}

/// A float is tag 3 then eight bytes that, read as a little-endian word, are
/// its bit pattern.
pub proof fn float_layout(bits: u64)
    ensures
        encode_value(Value::Float(bits)).len() == 9,
        encode_value(Value::Float(bits))[0] == 3u8,
        spec_u64_from_le_bytes(encode_value(Value::Float(bits)).subrange(1, 9)) == bits,
{
    lemma_auto_spec_u64_to_from_le_bytes();
    let e = encode_value(Value::Float(bits));
    assert(e.subrange(1, 9) =~= spec_u64_to_le_bytes(bits));
}

/// A string is tag 4, its UTF-8 byte length as a little-endian `u32`, then
/// its UTF-8 bytes; a byte buffer is tag 6, its length, then its bytes.
pub proof fn string_and_bytes_layout(chars: Seq<char>, b: Seq<u8>)
    requires
        encode_utf8(chars).len() <= u32::MAX,
        b.len() <= u32::MAX,
    ensures
        encode_value(Value::Str(chars))[0] == 4u8,
        encode_value(Value::Str(chars)).len() == 5 + encode_utf8(chars).len(),
        spec_u32_from_le_bytes(encode_value(Value::Str(chars)).subrange(1, 5)) as int == encode_utf8(
            chars,
        ).len(),
        encode_value(Value::Str(chars)).subrange(5, 5 + encode_utf8(chars).len() as int)
            == encode_utf8(chars),
        encode_value(Value::Bytes(b))[0] == 6u8,
        encode_value(Value::Bytes(b)).len() == 5 + b.len(),
        spec_u32_from_le_bytes(encode_value(Value::Bytes(b)).subrange(1, 5)) as int == b.len(),
        encode_value(Value::Bytes(b)).subrange(5, 5 + b.len() as int) == b,
{
    lemma_auto_spec_u32_to_from_le_bytes();
    let u = encode_utf8(chars);
    let e = encode_value(Value::Str(chars));
    assert(e.subrange(1, 5) =~= count_prefix(u.len() as int));
    assert(e.subrange(5, 5 + u.len() as int) =~= u);
    let f = encode_value(Value::Bytes(b));
    assert(f.subrange(1, 5) =~= count_prefix(b.len() as int));
    assert(f.subrange(5, 5 + b.len() as int) =~= b);
}

/// An array is tag 5, its element count as a little-endian `u32`, then its
/// elements' encodings; an object is tag 7 and a hash map tag 8, each with
/// its entry count, then its entries.
pub proof fn container_layout(items: Seq<Value>, entries: Seq<(Seq<char>, Value)>)
    requires
        items.len() <= u32::MAX,
        entries.len() <= u32::MAX,
    ensures
        encode_value(Value::Array(items))[0] == 5u8,
        spec_u32_from_le_bytes(encode_value(Value::Array(items)).subrange(1, 5)) as int
            == items.len(),
        encode_value(Value::Array(items)).subrange(5, encode_value(Value::Array(items)).len() as int)
            == encode_items(items),
        encode_value(Value::Object(entries))[0] == 7u8,
        encode_value(Value::Hash(entries))[0] == 8u8,
        spec_u32_from_le_bytes(encode_value(Value::Object(entries)).subrange(1, 5)) as int
            == entries.len(),
        spec_u32_from_le_bytes(encode_value(Value::Hash(entries)).subrange(1, 5)) as int
            == entries.len(),
        encode_value(Value::Object(entries)).subrange(
            5,
            encode_value(Value::Object(entries)).len() as int,
        ) == encode_entries(entries),
        encode_value(Value::Hash(entries)).subrange(5, encode_value(Value::Hash(entries)).len() as int)
            == encode_entries(entries),
{
    lemma_auto_spec_u32_to_from_le_bytes();
    let a = encode_value(Value::Array(items));
    assert(a.subrange(1, 5) =~= count_prefix(items.len() as int));
    assert(a.subrange(5, a.len() as int) =~= encode_items(items));
    let o = encode_value(Value::Object(entries));
    assert(o.subrange(1, 5) =~= count_prefix(entries.len() as int));
    assert(o.subrange(5, o.len() as int) =~= encode_entries(entries));
    let h = encode_value(Value::Hash(entries));
    assert(h.subrange(1, 5) =~= count_prefix(entries.len() as int));
    assert(h.subrange(5, h.len() as int) =~= encode_entries(entries));
}

/// Elements are written in order, each as its own encoding, with nothing
/// between them.
pub proof fn items_layout(first: Value, rest: Seq<Value>)
    ensures
        encode_items(Seq::<Value>::empty()) == Seq::<u8>::empty(),
        encode_items(seq![first] + rest) == encode_value(first) + encode_items(rest),
{
    let items = seq![first] + rest;
    lemma_encode_items_front(items);
    assert(items.subrange(1, items.len() as int) =~= rest);
}

/// Entries are written in order: per entry the key's UTF-8 byte length as a
/// little-endian `u32`, the key's UTF-8 bytes, then the value.
pub proof fn entries_layout(key: Seq<char>, value: Value, rest: Seq<(Seq<char>, Value)>)
    requires
        encode_utf8(key).len() <= u32::MAX,
    ensures
        encode_entries(Seq::<(Seq<char>, Value)>::empty()) == Seq::<u8>::empty(),
        encode_entries(seq![(key, value)] + rest) == spec_u32_to_le_bytes(
            encode_utf8(key).len() as u32,
        ) + encode_utf8(key) + encode_value(value) + encode_entries(rest),
        spec_u32_from_le_bytes(encode_entries(seq![(key, value)] + rest).subrange(0, 4)) as int
            == encode_utf8(key).len(),
{
    lemma_auto_spec_u32_to_from_le_bytes();
    let entries = seq![(key, value)] + rest;
    lemma_encode_entries_front(entries);
    assert(entries.subrange(1, entries.len() as int) =~= rest);
    let c = spec_u32_to_le_bytes(encode_utf8(key).len() as u32);
    let e = encode_entries(entries);
    assert(e.subrange(0, 4) =~= c);
}

/// A file is `G`, `L`, `H`, version 1, the total length as a little-endian
/// `u32`, then the value's encoding.
pub proof fn file_layout(v: Value)
    requires
        encode_file(v).len() <= u32::MAX,
    ensures
        encode_file(v).len() == 8 + encode_value(v).len(),
        encode_file(v)[0] == 0x47u8,
        encode_file(v)[1] == 0x4cu8,
        encode_file(v)[2] == 0x48u8,
        encode_file(v)[3] == 1u8,
        spec_u32_from_le_bytes(encode_file(v).subrange(4, 8)) as int == encode_file(v).len(),
        encode_file(v).subrange(8, encode_file(v).len() as int) == encode_value(v),
{
    lemma_auto_spec_u32_to_from_le_bytes();
    let s = encode_file(v);
    let body = encode_value(v);
    assert(s.subrange(4, 8) =~= count_prefix(8 + body.len() as int));
    assert(s.subrange(8, s.len() as int) =~= body);
}

// ---------------------------------------------------------------------------
// What the header check accepts, and what one step of decoding reads
// ---------------------------------------------------------------------------

/// The header check accepts exactly the buffers of at least 8 bytes that
/// start with `G`, `L`, `H`, version 1, and a little-endian `u32` equal to
/// their length.
pub proof fn header_check_accepts_exactly(s: Seq<u8>)
    ensures
        check_header(s) is Ok <==> {
            &&& s.len() >= 8
            &&& s[0] == 0x47u8
            &&& s[1] == 0x4cu8
            &&& s[2] == 0x48u8
            &&& s[3] == 1u8
            &&& spec_u32_from_le_bytes(s.subrange(4, 8)) as int == s.len()
        },
{
    if s.len() >= 8 {
        let m = s.subrange(0, 3);
        assert(m[0] == s[0] && m[1] == s[1] && m[2] == s[2]);
        if s[0] == 0x47u8 && s[1] == 0x4cu8 && s[2] == 0x48u8 {
            assert(m =~= magic());
        }
    }
}

/// One step of decoding at a cursor `p` for the fixed-size values: the tag
/// byte chooses the variant, and an integer or a float is the little-endian
/// word of the next eight bytes; an unknown tag fails after the tag.
pub proof fn decode_fixed_size_values(s: Seq<u8>, p: int)
    requires
        s.len() <= usize::MAX,
    ensures
        p >= s.len() ==> parse_value(s, p) == (Err::<Value, DecodeError>(DecodeError::MissingTag), p),
        0 <= p < s.len() && s[p] == 0u8 ==> parse_value(s, p) == (Ok::<Value, DecodeError>(Value::Null), p + 1),
        0 <= p && p + 2 <= s.len() && s[p] == 2u8 ==> parse_value(s, p) == (
            Ok::<Value, DecodeError>(Value::Bool(s[p + 1] != 0u8)),
            p + 2,
        ),
        0 <= p && p + 9 <= s.len() && s[p] == 1u8 ==> parse_value(s, p) == (
            Ok::<Value, DecodeError>(Value::Int(spec_u64_from_le_bytes(s.subrange(p + 1, p + 9)) as i64)),
            p + 9,
        ),
        0 <= p && p + 9 <= s.len() && s[p] == 3u8 ==> parse_value(s, p) == (
            Ok::<Value, DecodeError>(Value::Float(spec_u64_from_le_bytes(s.subrange(p + 1, p + 9)))),
            p + 9,
        ),
        0 <= p < s.len() && s[p] > 8u8 ==> parse_value(s, p) == (
            Err::<Value, DecodeError>(DecodeError::UnknownTag(s[p])),
            p + 1,
        ),
{
}

/// One step of decoding a string or a byte buffer: a little-endian `u32`
/// length after the tag, then that many bytes, which a string must hold as
/// valid UTF-8 and whose characters it then has.
pub proof fn decode_byte_runs(s: Seq<u8>, p: int)
    requires
        s.len() <= usize::MAX,
        0 <= p,
        p + 5 <= s.len(),
        p + 5 + spec_u32_from_le_bytes(s.subrange(p + 1, p + 5)) <= s.len(),
    ensures
        ({
            let n = spec_u32_from_le_bytes(s.subrange(p + 1, p + 5)) as int;
            let run = s.subrange(p + 5, p + 5 + n);
            &&& s[p] == 6u8 ==> parse_value(s, p) == (Ok::<Value, DecodeError>(Value::Bytes(run)), p + 5 + n)
            &&& s[p] == 4u8 && valid_utf8(run) ==> parse_value(s, p) == (
                Ok::<Value, DecodeError>(Value::Str(decode_utf8(run))),
                p + 5 + n,
            ) && encode_utf8(decode_utf8(run)) == run
            &&& s[p] == 4u8 && !valid_utf8(run) ==> parse_value(s, p) == (
                Err::<Value, DecodeError>(DecodeError::InvalidUtf8String),
                p + 5 + n,
            )
        }),
{
    let n = spec_u32_from_le_bytes(s.subrange(p + 1, p + 5)) as int;
    let run = s.subrange(p + 5, p + 5 + n);
    if valid_utf8(run) {
        decode_utf8_encode_utf8(run);
    }
}

// ---------------------------------------------------------------------------
// Equality of trees
// ---------------------------------------------------------------------------

/// The tree holds no float and no hash map, at any depth.
pub open spec fn plain(v: Value) -> bool
    decreases v,
{
    match v {
        Value::Float(_) => false,
        Value::Hash(_) => false,
        Value::Array(x) => forall|i: int| 0 <= i < x.len() ==> plain(#[trigger] x[i]),
        Value::Object(x) => forall|i: int| 0 <= i < x.len() ==> plain(#[trigger] x[i].1),
        _ => true,
    }
}

/// Trees without floats and hash maps are equal exactly when they are the
/// same tree: same variants, same scalars, same keys in the same order.
pub proof fn plain_equality_is_identity(a: Value, b: Value)
    requires
        plain(a),
        plain(b),
    ensures
        value_eq(a, b) <==> a == b,
    decreases a,
{
    match a {
        Value::Array(x) => {
            if let Value::Array(y) = b {
                if value_eq(a, b) {
                    assert forall|i: int| 0 <= i < x.len() implies x[i] == y[i] by {
                        plain_equality_is_identity(x[i], y[i]);
                    }
                    assert(x =~= y);
                }
                if a == b {
                    assert forall|i: int| 0 <= i < x.len() implies value_eq(#[trigger] x[i], y[i]) by {
                        plain_equality_is_identity(x[i], y[i]);
                    }
                }
            }
        },
        Value::Object(x) => {
            if let Value::Object(y) = b {
                if value_eq(a, b) {
                    assert forall|i: int| 0 <= i < x.len() implies x[i] == y[i] by {
                        plain_equality_is_identity(x[i].1, y[i].1);
                    }
                    assert(x =~= y);
                }
                if a == b {
                    assert forall|i: int|
                        0 <= i < x.len() implies (#[trigger] x[i]).0 == y[i].0 && value_eq(
                        x[i].1,
                        y[i].1,
                    ) by {
                        plain_equality_is_identity(x[i].1, y[i].1);
                    }
                }
            }
        },
        _ => {},
    }
}

/// Equal objects have the same keys in the same order.
pub proof fn object_equality_compares_keys(x: Seq<(Seq<char>, Value)>, y: Seq<(Seq<char>, Value)>)
    ensures
        value_eq(Value::Object(x), Value::Object(y)) ==> x.len() == y.len() && forall|i: int|
            0 <= i < x.len() ==> #[trigger] x[i].0 == y[i].0,
{
}

/// Floats compare as IEEE-754 numbers: distinct non-zero patterns differ, a
/// NaN (all exponent bits set, non-zero fraction) equals nothing, every other
/// float equals itself, and zeros of either sign are equal.
pub proof fn float_equality_is_ieee(x: u64, y: u64)
    ensures
        value_eq(Value::Float(x), Value::Float(y)) && x & 0x7fff_ffff_ffff_ffffu64 != 0 ==> x == y,
        value_eq(Value::Float(x), Value::Float(y)) ==> value_eq(Value::Float(y), Value::Float(x)),
        (x >> 52u64) & 0x7ffu64 == 0x7ffu64 && x & 0xf_ffff_ffff_ffffu64 != 0 ==> !value_eq(
            Value::Float(x),
            Value::Float(y),
        ),
        !((x >> 52u64) & 0x7ffu64 == 0x7ffu64 && x & 0xf_ffff_ffff_ffffu64 != 0) ==> value_eq(
            Value::Float(x),
            Value::Float(x),
        ),
        x & 0x7fff_ffff_ffff_ffffu64 == 0 && y & 0x7fff_ffff_ffff_ffffu64 == 0 ==> value_eq(
            Value::Float(x),
            Value::Float(y),
        ),
{
    if x & 0x7fff_ffff_ffff_ffffu64 == 0 {
        assert((x >> 52u64) & 0x7ffu64 != 0x7ffu64 || x & 0xf_ffff_ffff_ffffu64 == 0) by (bit_vector)
            requires
                x & 0x7fff_ffff_ffff_ffffu64 == 0,
        ;
    }
    if y & 0x7fff_ffff_ffff_ffffu64 == 0 {
        assert((y >> 52u64) & 0x7ffu64 != 0x7ffu64 || y & 0xf_ffff_ffff_ffffu64 == 0) by (bit_vector)
            requires
                y & 0x7fff_ffff_ffff_ffffu64 == 0,
        ;
    }
}

/// A hash map equals the same entries listed in another order: two distinct
/// keys may swap places.
pub proof fn hash_equality_ignores_order(k1: Seq<char>, v1: Value, k2: Seq<char>, v2: Value)
    requires
        k1 != k2,
        value_eq(v1, v1),
        value_eq(v2, v2),
    ensures
        value_eq(
            Value::Hash(seq![(k1, v1), (k2, v2)]),
            Value::Hash(seq![(k2, v2), (k1, v1)]),
        ),
{
    let x = seq![(k1, v1), (k2, v2)];
    let y = seq![(k2, v2), (k1, v1)];
    lemma_key_index(y, k1);
    lemma_key_index(y, k2);
    assert(y[1].0 == k1);
    assert(y[0].0 == k2);
    assert(key_index(y, k1) == 1);
    assert(key_index(y, k2) == 0);
}

/// Equal hash maps have the same size, and a one-entry map equals another
/// one-entry map under the same key exactly when the values are equal.
pub proof fn hash_equality_compares_sizes_and_values(
    x: Seq<(Seq<char>, Value)>,
    y: Seq<(Seq<char>, Value)>,
    k: Seq<char>,
    v1: Value,
    v2: Value,
)
    requires
        plain(v1),
        plain(v2),
    ensures
        value_eq(Value::Hash(x), Value::Hash(y)) ==> x.len() == y.len(),
        value_eq(Value::Hash(seq![(k, v1)]), Value::Hash(seq![(k, v2)])) <==> v1 == v2,
{
    let y1 = seq![(k, v2)];
    lemma_key_index(y1, k);
    assert(y1[0].0 == k);
    assert(key_index(y1, k) == 0);
    plain_equality_is_identity(v1, v2);
    let x1 = seq![(k, v1)];
    assert(x1[0] == (k, v1));
    assert(y1[0] == (k, v2));
    if v1 == v2 {
        assert forall|i: int| 0 <= i < x1.len() implies key_index(y1, (#[trigger] x1[i]).0) >= 0
            && value_eq(x1[i].1, y1[key_index(y1, x1[i].0)].1) by {
            assert(i == 0);
        }
    }
    if value_eq(Value::Hash(x1), Value::Hash(y1)) {
        assert(key_index(y1, x1[0].0) >= 0 && value_eq(x1[0].1, y1[key_index(y1, x1[0].0)].1));
    }
}

/// The tree holds no NaN float, at any depth.
pub open spec fn nan_free(v: Value) -> bool
    decreases v,
{
    match v {
        Value::Float(x) => !is_nan_bits(x),
        Value::Array(x) => forall|i: int| 0 <= i < x.len() ==> nan_free(#[trigger] x[i]),
        Value::Object(x) => forall|i: int| 0 <= i < x.len() ==> nan_free(#[trigger] x[i].1),
        Value::Hash(x) => forall|i: int| 0 <= i < x.len() ==> nan_free(#[trigger] x[i].1),
        _ => true,
    }
}

/// Every well-formed tree without a NaN equals itself.
pub proof fn equality_is_reflexive(v: Value)
    requires
        well_formed(v),
        nan_free(v),
    ensures
        value_eq(v, v),
    decreases v,
{
    match v {
        Value::Array(x) => {
            assert forall|i: int| 0 <= i < x.len() implies value_eq(#[trigger] x[i], x[i]) by {
                equality_is_reflexive(x[i]);
            }
        },
        Value::Object(x) => {
            assert forall|i: int| 0 <= i < x.len() implies (#[trigger] x[i]).0 == x[i].0 && value_eq(
                x[i].1,
                x[i].1,
            ) by {
                equality_is_reflexive(x[i].1);
            }
        },
        Value::Hash(x) => {
            assert forall|i: int| 0 <= i < x.len() implies key_index(x, (#[trigger] x[i]).0) >= 0
                && value_eq(x[i].1, x[key_index(x, x[i].0)].1) by {
                lemma_key_index(x, x[i].0);
                let ki = key_index(x, x[i].0);
                if ki >= 0 && ki < i {
                    assert(x[ki].0 != x[i].0);
                }
                assert(ki == i);
                equality_is_reflexive(x[i].1);
            }
        },
        _ => {},
    }
}

/// Decoding a hash map inserts entry by entry as a map does: after
/// inserting `k`, looking `k` up gives `v`; every other key keeps its
/// lookup; the size grows by one exactly when `k` was absent; and distinct
/// keys stay distinct.
pub proof fn hash_insert_is_map_insertion(
    acc: Seq<(Seq<char>, Value)>,
    k: Seq<char>,
    v: Value,
    other: Seq<char>,
)
    requires
        keys_distinct(acc),
        other != k,
    ensures
        ({
            let r = hash_insert(acc, k, v);
            &&& key_index(r, k) >= 0
            &&& r[key_index(r, k)] == (k, v)
            &&& r.len() == acc.len() + if key_index(acc, k) >= 0 { 0int } else { 1int }
            &&& key_index(r, other) >= 0 <==> key_index(acc, other) >= 0
            &&& key_index(acc, other) >= 0 ==> r[key_index(r, other)] == acc[key_index(acc, other)]
            &&& keys_distinct(r)
        }),
{
    let r = hash_insert(acc, k, v);
    lemma_key_index(acc, k);
    lemma_key_index(acc, other);
    lemma_key_index(r, k);
    lemma_key_index(r, other);
    let ki = key_index(acc, k);
    let ri = key_index(r, k);
    let ko = key_index(acc, other);
    let ro = key_index(r, other);
    if ki >= 0 {
        assert(r[ki].0 == k);
        if ri >= 0 && ri < ki {
            assert(r[ri] == acc[ri]);
        }
        assert(ri == ki);
    } else {
        assert(r[acc.len() as int].0 == k);
        if ri >= 0 && ri < acc.len() {
            assert(r[ri] == acc[ri]);
        }
        assert(ri == acc.len());
    }
    if ko >= 0 {
        assert(r[ko] == acc[ko]);
        if ro >= 0 && ro < ko {
            assert(r[ro].0 == acc[ro].0);
        }
        assert(ro == ko);
    } else {
        if ro >= 0 {
            if ro < acc.len() {
                assert(r[ro].0 == acc[ro].0);
            }
            assert(false);
        }
    }
}

/// The cursor readers take exactly the bytes asked for: `n` bytes at `p`
/// when they lie inside the buffer, with the cursor moved past them;
/// otherwise a failure with the cursor left at `p`. A `u32` is its four
/// bytes read little-endian.
pub proof fn cursor_reads_take_exactly(s: Seq<u8>, p: int, n: int)
    requires
        s.len() <= usize::MAX,
        0 <= p,
        0 <= n,
    ensures
        p + n <= s.len() ==> slice_at(s, p, n) == (
            Ok::<Seq<u8>, DecodeError>(s.subrange(p, p + n)),
            p + n,
        ),
        p + n > s.len() ==> slice_at(s, p, n).0 is Err && slice_at(s, p, n).1 == p,
        p + 4 <= s.len() ==> u32_at(s, p) == (
            Ok::<u32, DecodeError>(spec_u32_from_le_bytes(s.subrange(p, p + 4))),
            p + 4,
        ),
{
}

} // verus!
