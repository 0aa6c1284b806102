use crate::models::data::Value;
use vstd::bytes::*;
use vstd::prelude::*;
use vstd::utf8::*;

verus! {

/// Why reading a GLH buffer fails. Each kind has the message that the
/// library reports for it (see [`message`]).
pub enum DecodeError {
    TooSmall,
    BadMagic,
    UnsupportedVersion,
    SizeMismatch,
    MissingTag,
    MissingBool,
    LengthOverflow,
    SliceOutOfRange,
    InvalidUtf8String,
    InvalidUtf8ObjectKey,
    InvalidUtf8HashKey,
    UnknownTag(u8),
}

/// The decimal digit `d` (`d < 10`) as a character.
pub open spec fn digit_char(d: nat) -> char {
    (d + 48) as char
}

/// The decimal notation of `n`, without leading zeros.
pub open spec fn decimal(n: nat) -> Seq<char>
    decreases n,
{
    if n < 10 {
        seq![digit_char(n)]
    } else {
        decimal(n / 10).push(digit_char(n % 10))
    }
}

/// The message reported for each kind of failure.
pub open spec fn message(e: DecodeError) -> Seq<char> {
    match e {
        DecodeError::TooSmall => "File is too small"@,
        DecodeError::BadMagic => "Invalid GLH header"@,
        DecodeError::UnsupportedVersion => "Unsupported GLH version"@,
        DecodeError::SizeMismatch => "File size does not match header"@,
        DecodeError::MissingTag => "unexpected end of data: missing tag"@,
        DecodeError::MissingBool => "unexpected eof: missing bool"@,
        DecodeError::LengthOverflow => "length overflow"@,
        DecodeError::SliceOutOfRange => "unexpected eof: slice out of range"@,
        DecodeError::InvalidUtf8String => "invalid utf8 in string"@,
        DecodeError::InvalidUtf8ObjectKey => "invalid utf8 in object key"@,
        DecodeError::InvalidUtf8HashKey => "invalid utf8 in hash key"@,
        DecodeError::UnknownTag(t) => "unknown type tag: "@ + decimal(t as nat),
    }
}

/// An executable result agrees with an expected outcome: the same value
/// (by view) on success, the message of the expected kind on failure.
pub open spec fn reports<T: View>(res: Result<T, String>, expected: Result<T::V, DecodeError>) -> bool {
    match (res, expected) {
        (Ok(x), Ok(y)) => x@ == y,
        (Err(m), Err(e)) => m@ == message(e),
        _ => false,
    }
}

// ---------------------------------------------------------------------------
// Writing
// ---------------------------------------------------------------------------

/// The three magic bytes `GLH` that open every file.
pub open spec fn magic() -> Seq<u8> {
    seq![0x47u8, 0x4cu8, 0x48u8]
}

/// A length or a count as stored: a little-endian `u32`, truncated to 32 bits.
pub open spec fn count_prefix(n: int) -> Seq<u8> {
    spec_u32_to_le_bytes(n as u32)
}

/// The encoding of one value: its tag byte, then its payload.
pub open spec fn encode_value(v: Value) -> Seq<u8>
    decreases v,
{
    match v {
        Value::Null => seq![0u8],
        Value::Int(i) => seq![1u8] + spec_u64_to_le_bytes(i as u64),
        Value::Bool(b) => seq![2u8, if b { 1u8 } else { 0u8 }],
        Value::Float(bits) => seq![3u8] + spec_u64_to_le_bytes(bits),
        Value::Str(s) => seq![4u8] + count_prefix(encode_utf8(s).len() as int) + encode_utf8(s),
        Value::Array(items) => seq![5u8] + count_prefix(items.len() as int) + encode_items(items),
        Value::Bytes(b) => seq![6u8] + count_prefix(b.len() as int) + b,
        Value::Object(entries) => seq![7u8] + count_prefix(entries.len() as int) + encode_entries(
            entries,
        ),
        Value::Hash(entries) => seq![8u8] + count_prefix(entries.len() as int) + encode_entries(
            entries,
        ),
    }
}

/// The encodings of a list of values, one after the other.
pub open spec fn encode_items(items: Seq<Value>) -> Seq<u8>
    decreases items,
{
    if items.len() == 0 {
        Seq::empty()
    } else {
        encode_items(items.subrange(0, items.len() - 1)) + encode_value(items[items.len() - 1])
    }
}

/// One entry: the key's byte length, the key's UTF-8 bytes, the value.
pub open spec fn encode_entry(entry: (Seq<char>, Value)) -> Seq<u8>
    decreases entry,
{
    let key = encode_utf8(entry.0);
    count_prefix(key.len() as int) + key + encode_value(entry.1)
}

/// The encodings of a list of entries, one after the other.
pub open spec fn encode_entries(entries: Seq<(Seq<char>, Value)>) -> Seq<u8>
    decreases entries,
{
    if entries.len() == 0 {
        Seq::empty()
    } else {
        encode_entries(entries.subrange(0, entries.len() - 1)) + encode_entry(
            entries[entries.len() - 1],
        )
    }
}

/// A whole file: magic, version 1, total length (truncated to 32 bits), value.
pub open spec fn encode_file(v: Value) -> Seq<u8> {
    let body = encode_value(v);
    magic() + seq![1u8] + count_prefix(8 + body.len() as int) + body
}

// ---------------------------------------------------------------------------
// Reading
// ---------------------------------------------------------------------------

/// The header check: length at least 8, magic, version 1, and the stored
/// total length equal to the buffer's.
pub open spec fn check_header(s: Seq<u8>) -> Result<(), DecodeError> {
    if s.len() < 8 {
        Err(DecodeError::TooSmall)
    } else if s.subrange(0, 3) != magic() {
        Err(DecodeError::BadMagic)
    } else if s[3] != 1u8 {
        Err(DecodeError::UnsupportedVersion)
    } else if spec_u32_from_le_bytes(s.subrange(4, 8)) as int != s.len() {
        Err(DecodeError::SizeMismatch)
    } else {
        Ok(())
    }
}

/// Reading `len` bytes at cursor `pos`: the outcome and the cursor after it.
/// The cursor moves only on success.
pub open spec fn slice_at(s: Seq<u8>, pos: int, len: int) -> (Result<Seq<u8>, DecodeError>, int) {
    if pos + len > usize::MAX {
        (Err(DecodeError::LengthOverflow), pos)
    } else if pos + len > s.len() {
        (Err(DecodeError::SliceOutOfRange), pos)
    } else {
        (Ok(s.subrange(pos, pos + len)), pos + len)
    }
}

/// Reading a little-endian `u32` at cursor `pos`.
pub open spec fn u32_at(s: Seq<u8>, pos: int) -> (Result<u32, DecodeError>, int) {
    let (r, q) = slice_at(s, pos, 4);
    match r {
        Ok(b) => (Ok(spec_u32_from_le_bytes(b)), q),
        Err(e) => (Err(e), q),
    }
}

/// Reading a little-endian 64-bit word at cursor `pos`.
pub open spec fn u64_at(s: Seq<u8>, pos: int) -> (Result<u64, DecodeError>, int) {
    let (r, q) = slice_at(s, pos, 8);
    match r {
        Ok(b) => (Ok(spec_u64_from_le_bytes(b)), q),
        Err(e) => (Err(e), q),
    }
}

/// Reading a little-endian `i64` (two's complement) at cursor `pos`.
pub open spec fn i64_at(s: Seq<u8>, pos: int) -> (Result<i64, DecodeError>, int) {
    match u64_at(s, pos) {
        (Ok(w), q) => (Ok(w as i64), q),
        (Err(e), q) => (Err(e), q),
    }
}

/// The index of the first entry with key `k`, or -1 if there is none.
pub open spec fn key_index(entries: Seq<(Seq<char>, Value)>, k: Seq<char>) -> int
    decreases entries.len(),
{
    if entries.len() == 0 {
        -1
    } else {
        let j = key_index(entries.drop_last(), k);
        if j >= 0 {
            j
        } else if entries.last().0 == k {
            entries.len() - 1
        } else {
            -1
        }
    }
}

/// `key_index` finds the first entry with the key, if any.
pub proof fn lemma_key_index(entries: Seq<(Seq<char>, Value)>, k: Seq<char>)
    ensures
        -1 <= key_index(entries, k) < entries.len(),
        key_index(entries, k) == -1 <==> forall|i: int|
            0 <= i < entries.len() ==> #[trigger] entries[i].0 != k,
        key_index(entries, k) >= 0 ==> entries[key_index(entries, k)].0 == k,
        forall|i: int| 0 <= i < key_index(entries, k) ==> #[trigger] entries[i].0 != k,
    decreases entries.len(),
{
    if entries.len() > 0 {
        let d = entries.drop_last();
        lemma_key_index(d, k);
        assert forall|i: int| 0 <= i < d.len() implies #[trigger] entries[i] == d[i] by {}
    }
}

/// Map insertion on a list of entries: the entry with key `k` gets value `v`
/// in place, or a new entry is appended.
pub open spec fn hash_insert(entries: Seq<(Seq<char>, Value)>, k: Seq<char>, v: Value) -> Seq<
    (Seq<char>, Value),
> {
    let j = key_index(entries, k);
    if j >= 0 {
        entries.update(j, (k, v))
    } else {
        entries.push((k, v))
    }
}

/// Reading one value at cursor `pos`: the outcome and the cursor after it
/// (after the failing step on failure).
pub open spec fn parse_value(s: Seq<u8>, pos: int) -> (Result<Value, DecodeError>, int)
    decreases s.len() - pos, 0int, 0int,
{
    if pos < 0 || pos >= s.len() {
        (Err(DecodeError::MissingTag), pos)
    } else {
        let tag = s[pos];
        let p = pos + 1;
        if tag == 0 {
            (Ok(Value::Null), p)
        } else if tag == 1 {
            match i64_at(s, p) {
                (Ok(i), q) => (Ok(Value::Int(i)), q),
                (Err(e), q) => (Err(e), q),
            }
        } else if tag == 2 {
            if p >= s.len() {
                (Err(DecodeError::MissingBool), p)
            } else {
                (Ok(Value::Bool(s[p] != 0)), p + 1)
            }
        } else if tag == 3 {
            match u64_at(s, p) {
                (Ok(w), q) => (Ok(Value::Float(w)), q),
                (Err(e), q) => (Err(e), q),
            }
        } else if tag == 4 || tag == 6 {
            match u32_at(s, p) {
                (Err(e), q) => (Err(e), q),
                (Ok(n), q) => match slice_at(s, q, n as int) {
                    (Err(e), q2) => (Err(e), q2),
                    (Ok(b), q2) => if tag == 6 {
                        (Ok(Value::Bytes(b)), q2)
                    } else if valid_utf8(b) {
                        (Ok(Value::Str(decode_utf8(b))), q2)
                    } else {
                        (Err(DecodeError::InvalidUtf8String), q2)
                    },
                },
            }
        } else if tag == 5 || tag == 7 || tag == 8 {
            match u32_at(s, p) {
                (Err(e), q) => (Err(e), q),
                (Ok(n), q) => if tag == 5 {
                    parse_items(s, q, n as int, Seq::empty())
                } else {
                    parse_entries(s, q, n as int, Seq::empty(), tag == 8)
                },
            }
        } else {
            (Err(DecodeError::UnknownTag(tag)), p)
        }
    }
}

/// Reading `n` more array elements at cursor `pos`, after those in `acc`.
pub open spec fn parse_items(s: Seq<u8>, pos: int, n: int, acc: Seq<Value>) -> (Result<Value, DecodeError>, int)
    decreases s.len() - pos, 1int, n,
{
    if n <= 0 {
        (Ok(Value::Array(acc)), pos)
    } else {
        match parse_value(s, pos) {
            (Err(e), q) => (Err(e), q),
            (Ok(v), q) => if pos < q <= s.len() {
                parse_items(s, q, n - 1, acc.push(v))
            } else {
                (Err(DecodeError::MissingTag), q)
            },
        }
    }
}

/// Reading `n` more entries of an object (`hash` false) or a hash map
/// (`hash` true) at cursor `pos`, after those in `acc`.
pub open spec fn parse_entries(
    s: Seq<u8>,
    pos: int,
    n: int,
    acc: Seq<(Seq<char>, Value)>,
    hash: bool,
) -> (Result<Value, DecodeError>, int)
    decreases s.len() - pos, 1int, n,
{
    if n <= 0 {
        (Ok(if hash { Value::Hash(acc) } else { Value::Object(acc) }), pos)
    } else {
        match u32_at(s, pos) {
            (Err(e), q) => (Err(e), q),
            (Ok(klen), q) => match slice_at(s, q, klen as int) {
                (Err(e), q2) => (Err(e), q2),
                (Ok(kb), q2) => if !valid_utf8(kb) {
                    (
                        Err(
                            if hash {
                                DecodeError::InvalidUtf8HashKey
                            } else {
                                DecodeError::InvalidUtf8ObjectKey
                            },
                        ),
                        q2,
                    )
                } else {
                    let key = decode_utf8(kb);
                    match parse_value(s, q2) {
                        (Err(e), q3) => (Err(e), q3),
                        (Ok(v), q3) => if pos < q3 <= s.len() {
                            parse_entries(
                                s,
                                q3,
                                n - 1,
                                if hash {
                                    hash_insert(acc, key, v)
                                } else {
                                    acc.push((key, v))
                                },
                                hash,
                            )
                        } else {
                            (Err(DecodeError::MissingTag), q3)
                        },
                    }
                },
            },
        }
    }
}

/// Reading a whole file: the header check, then one value after the header.
/// Bytes after that value are not looked at.
pub open spec fn decode_file(s: Seq<u8>) -> Result<Value, DecodeError> {
    match check_header(s) {
        Err(e) => Err(e),
        Ok(_) => parse_value(s, 8).0,
    }
}

} // verus!
