use crate::format::{count_prefix, encode_entries, encode_entry, encode_file, encode_items, encode_value, magic};
use crate::models::data::{
    entries_of, lemma_entries_of, lemma_values_of, value_of, values_of, Data,
};
use vstd::bytes::{lemma_auto_spec_u32_to_from_le_bytes, u32_to_le_bytes, u64_to_le_bytes};
use vstd::prelude::*;
use vstd::std_specs::convert::IntoSpec;

verus! {

/// Appends all of `src` to `out`.
fn push_all(out: &mut Vec<u8>, src: &[u8])
    ensures
        final(out)@ == old(out)@ + src@,
{
    let mut i: usize = 0;
    while i < src.len()
        invariant
            i <= src@.len(),
            out@ == old(out)@ + src@.subrange(0, i as int),
        decreases src@.len() - i,
    {
        out.push(src[i]);
        i = i + 1;
        assert(out@ =~= old(out)@ + src@.subrange(0, i as int));
    }
    assert(src@.subrange(0, src@.len() as int) =~= src@);
}

/// Appends a length or a count as a little-endian `u32`, keeping its low
/// 32 bits.
fn push_count(out: &mut Vec<u8>, n: usize)
    ensures
        final(out)@ == old(out)@ + count_prefix(n as int),
{
    let b = u32_to_le_bytes(n as u32);
    push_all(out, b.as_slice());
}

/// Appends the encoding of `data`: its tag byte, then its payload.
fn encode_value_into(data: &Data, bytes: &mut Vec<u8>)
    ensures
        final(bytes)@ == old(bytes)@ + encode_value(data@),
    decreases data,
{
    match data {
        Data::Null => {
            bytes.push(0);
            assert(bytes@ =~= old(bytes)@ + encode_value(data@));
        },
        Data::Int(value) => {
            bytes.push(1);
            let b = u64_to_le_bytes(#[verifier::truncate] (*value as u64));
            push_all(bytes, b.as_slice());
            assert(bytes@ =~= old(bytes)@ + encode_value(data@));
        },
        Data::Bool(value) => {
            bytes.push(2);
            bytes.push(if *value { 1 } else { 0 });
            assert(bytes@ =~= old(bytes)@ + encode_value(data@));
        },
        Data::Float(bits) => {
            bytes.push(3);
            let b = u64_to_le_bytes(*bits);
            push_all(bytes, b.as_slice());
            assert(bytes@ =~= old(bytes)@ + encode_value(data@));
        },
        Data::String(value) => {
            bytes.push(4);
            let s = value.as_str().as_bytes();
            push_count(bytes, s.len());
            push_all(bytes, s);
            assert(bytes@ =~= old(bytes)@ + encode_value(data@));
        },
        Data::Bytes(value) => {
            bytes.push(6);
            push_count(bytes, value.len());
            push_all(bytes, value.as_slice());
            assert(bytes@ =~= old(bytes)@ + encode_value(data@));
        },
        Data::Array(items) => {
            bytes.push(5);
            push_count(bytes, items.len());
            let ghost start = bytes@;
            let mut i: usize = 0;
            while i < items.len()
                invariant
                    i <= items@.len(),
                    *data == Data::Array(*items),
                    bytes@ == start + encode_items(values_of(items@.subrange(0, i as int))),
                decreases items@.len() - i,
            {
                let ghost prev = items@.subrange(0, i as int);
                proof {
                    assert(decreases_to!(*data => (*data)->Array_0));
                    assert(decreases_to!(*items => items@));
                    assert(decreases_to!(items@ => items@[i as int]));
                }
                encode_value_into(&items[i], bytes);
                i = i + 1;
                proof {
                    let next = items@.subrange(0, i as int);
                    assert(next.subrange(0, next.len() - 1) =~= prev);
                    let vs = values_of(next);
                    lemma_values_of(next);
                    assert(vs.subrange(0, vs.len() - 1) =~= values_of(prev));
                }
            }
            proof {
                lemma_values_of(items@);
                assert(items@.subrange(0, items@.len() as int) =~= items@);
                assert(bytes@ =~= old(bytes)@ + encode_value(data@));
            }
        },
        Data::Object(entries) | Data::Hash(entries) => {
            match data {
                Data::Object(_) => bytes.push(7),
                _ => bytes.push(8),
            }
            push_count(bytes, entries.len());
            let ghost start = bytes@;
            let mut i: usize = 0;
            while i < entries.len()
                invariant
                    i <= entries@.len(),
                    *data == Data::Object(*entries) || *data == Data::Hash(*entries),
                    bytes@ == start + encode_entries(entries_of(entries@.subrange(0, i as int))),
                decreases entries@.len() - i,
            {
                let ghost prev = entries@.subrange(0, i as int);
                let ghost mid = bytes@;
                let key = entries[i].0.as_str().as_bytes();
                push_count(bytes, key.len());
                push_all(bytes, key);
                proof {
                    if *data is Object {
                        assert(decreases_to!(*data => (*data)->Object_0));
                    } else {
                        assert(decreases_to!(*data => (*data)->Hash_0));
                    }
                    assert(decreases_to!(*entries => entries@));
                    assert(decreases_to!(entries@ => entries@[i as int]));
                    assert(decreases_to!(entries@[i as int] => entries@[i as int].1));
                }
                encode_value_into(&entries[i].1, bytes);
                i = i + 1;
                proof {
                    let next = entries@.subrange(0, i as int);
                    assert(next.subrange(0, next.len() - 1) =~= prev);
                    let es = entries_of(next);
                    lemma_entries_of(next);
                    assert(es.subrange(0, es.len() - 1) =~= entries_of(prev));
                    let e = es[es.len() - 1];
                    assert(e == (entries@[i - 1].0@, value_of(entries@[i - 1].1)));
                    assert(bytes@ =~= mid + encode_entry(e));
                }
            }
            proof {
                lemma_entries_of(entries@);
                assert(entries@.subrange(0, entries@.len() as int) =~= entries@);
                assert(bytes@ =~= old(bytes)@ + encode_value(data@));
            }
        },
    }
}

/// Encodes a value tree as a whole GLH buffer: the 8-byte header (magic
/// `GLH`, version 1, total length as a little-endian `u32`), then the value.
pub fn encode(data: Data) -> (r: Vec<u8>)
    ensures
        r@ == encode_file(data@),
{
    let mut bytes: Vec<u8> = Vec::new();
    bytes.push(0x47);
    bytes.push(0x4c);
    bytes.push(0x48);
    bytes.push(1);
    bytes.push(0);
    bytes.push(0);
    bytes.push(0);
    bytes.push(0);
    encode_value_into(&data, &mut bytes);
    let length = bytes.len() as u32;
    let b = u32_to_le_bytes(length);
    proof {
        lemma_auto_spec_u32_to_from_le_bytes();
    }
    bytes.set(4, b[0]);
    bytes.set(5, b[1]);
    bytes.set(6, b[2]);
    bytes.set(7, b[3]);
    proof {
        let body = encode_value(data@);
        assert(count_prefix(8 + body.len() as int) == b@);
        assert(bytes@ =~= magic() + seq![1u8] + count_prefix(8 + body.len() as int) + body);
    }
    bytes
}

/// Converts a value into a tree and encodes it as a whole GLH buffer.
pub fn serialize_to_bytes<T: Into<Data>>(data: T) -> (r: Vec<u8>)
    ensures
        exists|tree: Data|
            call_ensures(<T as Into<Data>>::into, (data,), tree) && r@ == #[trigger] encode_file(
                tree@,
            ),
        T::obeys_into_spec() ==> r@ == encode_file(data.into_spec()@),
{
    let tree: Data = data.into();
    let r = encode(tree);
    assert(r@ == encode_file(tree@));
    r
}

} // verus!
