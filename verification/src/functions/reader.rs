use crate::format::{
    check_header, decimal, lemma_key_index, magic, message, parse_entries, parse_items,
    parse_value, reports, key_index, DecodeError,
};
use crate::helpers::{read_f64_bits, read_i64, read_slice, read_u32};
use crate::laws::decoded_values_are_well_formed;
use crate::models::data::{
    entries_of, lemma_entries_of, lemma_values_of, values_of, well_formed, Data,
};
use vstd::bytes::u32_from_le_bytes;
use vstd::prelude::*;
use vstd::slice::{slice_subrange, slice_to_vec};
use vstd::string::StringExecFns;
use vstd::utf8::{decode_utf8, encode_utf8, encode_utf8_decode_utf8, valid_utf8};

verus! {

/// `String::from_utf8`: the bytes become a string when they are valid UTF-8,
/// and the string then holds exactly those bytes; otherwise it fails.
#[verifier::external_body]
fn string_from_utf8(bytes: Vec<u8>) -> (res: Option<String>)
    ensures
        res is Some <==> valid_utf8(bytes@),
        res matches Some(s) ==> encode_utf8(s@) == bytes@,
{
    match String::from_utf8(bytes) {
        Ok(s) => Some(s),
        Err(_) => None,
    }
}

/// A string from UTF-8 bytes, with the decoded characters.
fn utf8_to_string(bytes: &[u8]) -> (res: Option<String>)
    ensures
        res is Some <==> valid_utf8(bytes@),
        res matches Some(s) ==> s@ == decode_utf8(bytes@),
{
    let r = string_from_utf8(slice_to_vec(bytes));
    proof {
        if r is Some {
            encode_utf8_decode_utf8(r->Some_0@);
        }
    }
    r
}

/// The one-character string of the decimal digit `d`.
fn digit_str(d: u8) -> (r: &'static str)
    requires
        d < 10,
    ensures
        r@ == seq![crate::format::digit_char(d as nat)],
{
    proof {
        reveal_strlit("0");
        reveal_strlit("1");
        reveal_strlit("2");
        reveal_strlit("3");
        reveal_strlit("4");
        reveal_strlit("5");
        reveal_strlit("6");
        reveal_strlit("7");
        reveal_strlit("8");
        reveal_strlit("9");
    }
    match d {
        0 => "0",
        1 => "1",
        2 => "2",
        3 => "3",
        4 => "4",
        5 => "5",
        6 => "6",
        7 => "7",
        8 => "8",
        _ => "9",
    }
}

/// The message for an unknown type tag, with the tag in decimal.
fn unknown_tag_message(tag: u8) -> (m: String)
    ensures
        m@ == message(DecodeError::UnknownTag(tag)),
{
    let mut m = String::from_str("unknown type tag: ");
    let ghost prefix = m@;
    if tag >= 100 {
        m.append(digit_str(tag / 100));
    }
    if tag >= 10 {
        m.append(digit_str((tag / 10) % 10));
    }
    m.append(digit_str(tag % 10));
    proof {
        reveal_with_fuel(decimal, 3);
        let t = tag as nat;
        if tag >= 100 {
            assert(decimal(t) =~= seq![
                crate::format::digit_char(t / 100),
                crate::format::digit_char((t / 10) % 10),
                crate::format::digit_char(t % 10)
            ]);
        } else if tag >= 10 {
            assert(decimal(t) =~= seq![
                crate::format::digit_char(t / 10),
                crate::format::digit_char(t % 10)
            ]);
        }
        assert(m@ =~= prefix + decimal(t));
    }
    m
}

/// Checks the 8-byte header: at least 8 bytes, the magic `GLH`, version 1,
/// and a stored total length equal to the buffer's length.
pub fn verify(bytes: &[u8]) -> (res: Result<(), String>)
    ensures
        reports(res, check_header(bytes@)),
{
    if bytes.len() < 8 {
        return Err(String::from_str("File is too small"));
    }
    if bytes[0] != 0x47 || bytes[1] != 0x4c || bytes[2] != 0x48 {
        assert(bytes@.subrange(0, 3)[0] == bytes@[0]);
        assert(bytes@.subrange(0, 3)[1] == bytes@[1]);
        assert(bytes@.subrange(0, 3)[2] == bytes@[2]);
        return Err(String::from_str("Invalid GLH header"));
    }
    assert(bytes@.subrange(0, 3) =~= magic());
    if bytes[3] != 1 {
        return Err(String::from_str("Unsupported GLH version"));
    }
    let expected_size = u32_from_le_bytes(slice_subrange(bytes, 4, 8));
    if bytes.len() as u64 != expected_size as u64 {
        return Err(String::from_str("File size does not match header"));
    }
    Ok(())
}

/// Decodes one value at the cursor `*pos` and moves the cursor past it. On
/// failure the cursor stays after the step that failed, and the message says
/// why; a `Hash` keeps, for a repeated key, the first position and the last
/// value.
pub fn decode_value(bytes: &[u8], pos: &mut usize) -> (res: Result<Data, String>)
    ensures
        reports(res, parse_value(bytes@, *old(pos) as int).0),
        *final(pos) == parse_value(bytes@, *old(pos) as int).1,
        res is Ok ==> *old(pos) < *final(pos) <= bytes@.len(),
        res matches Ok(d) ==> well_formed(d@),
    decreases bytes@.len() - *old(pos),
{
    proof {
        decoded_values_are_well_formed(bytes@, *pos as int);
    }
    if *pos >= bytes.len() {
        return Err(String::from_str("unexpected end of data: missing tag"));
    }
    let tag = bytes[*pos];
    *pos = *pos + 1;
    match tag {
        0 => Ok(Data::Null),
        1 => match read_i64(bytes, pos) {
            Ok(value) => Ok(Data::Int(value)),
            Err(e) => Err(e),
        },
        2 => {
            if *pos >= bytes.len() {
                return Err(String::from_str("unexpected eof: missing bool"));
            }
            let byte = bytes[*pos];
            *pos = *pos + 1;
            Ok(Data::Bool(byte != 0))
        },
        3 => match read_f64_bits(bytes, pos) {
            Ok(bits) => Ok(Data::Float(bits)),
            Err(e) => Err(e),
        },
        4 | 6 => {
            let length = match read_u32(bytes, pos) {
                Ok(n) => n,
                Err(e) => return Err(e),
            };
            let slice = match read_slice(bytes, pos, length as usize) {
                Ok(s) => s,
                Err(e) => return Err(e),
            };
            if tag == 6 {
                return Ok(Data::Bytes(slice_to_vec(slice)));
            }
            match utf8_to_string(slice) {
                Some(string) => Ok(Data::String(string)),
                None => Err(String::from_str("invalid utf8 in string")),
            }
        },
        5 => {
            let length = match read_u32(bytes, pos) {
                Ok(n) => n,
                Err(e) => return Err(e),
            };
            let ghost start = *pos;
            let mut items: Vec<Data> = Vec::new();
            let mut i: u32 = 0;
            proof {
                lemma_values_of(items@);
            }
            while i < length
                invariant
                    i <= length,
                    *old(pos) < start <= *pos <= bytes@.len(),
                    parse_value(bytes@, *old(pos) as int) == parse_items(
                        bytes@,
                        *pos as int,
                        (length - i) as int,
                        values_of(items@),
                    ),
                decreases length - i,
            {
                match decode_value(bytes, pos) {
                    Ok(d) => {
                        let ghost before = items@;
                        items.push(d);
                        proof {
                            lemma_values_of(before);
                            lemma_values_of(items@);
                            assert(values_of(items@) =~= values_of(before).push(d@));
                        }
                        i = i + 1;
                    },
                    Err(e) => return Err(e),
                }
            }
            Ok(Data::Array(items))
        },
        7 | 8 => {
            let hash = tag == 8;
            let length = match read_u32(bytes, pos) {
                Ok(n) => n,
                Err(e) => return Err(e),
            };
            let ghost start = *pos;
            let mut entries: Vec<(String, Data)> = Vec::new();
            let mut i: u32 = 0;
            proof {
                lemma_entries_of(entries@);
            }
            while i < length
                invariant
                    i <= length,
                    hash == (tag == 8),
                    *old(pos) < start <= *pos <= bytes@.len(),
                    parse_value(bytes@, *old(pos) as int) == parse_entries(
                        bytes@,
                        *pos as int,
                        (length - i) as int,
                        entries_of(entries@),
                        hash,
                    ),
                decreases length - i,
            {
                let key_length = match read_u32(bytes, pos) {
                    Ok(n) => n,
                    Err(e) => return Err(e),
                };
                let key_slice = match read_slice(bytes, pos, key_length as usize) {
                    Ok(s) => s,
                    Err(e) => return Err(e),
                };
                let key = match utf8_to_string(key_slice) {
                    Some(k) => k,
                    None => {
                        if hash {
                            return Err(String::from_str("invalid utf8 in hash key"));
                        } else {
                            return Err(String::from_str("invalid utf8 in object key"));
                        }
                    },
                };
                let value = match decode_value(bytes, pos) {
                    Ok(d) => d,
                    Err(e) => return Err(e),
                };
                let ghost before = entries@;
                proof {
                    lemma_entries_of(before);
                }
                if hash {
                    let mut j: usize = 0;
                    let mut found = false;
                    while !found && j < entries.len()
                        invariant
                            entries@ == before,
                            j <= entries@.len(),
                            !found ==> forall|m: int| 0 <= m < j ==> #[trigger] entries@[m].0@ != key@,
                            found ==> j < entries@.len() && entries@[j as int].0@ == key@
                                && forall|m: int| 0 <= m < j ==> #[trigger] entries@[m].0@ != key@,
                        decreases entries@.len() - j + if found { 0int } else { 1int },
                    {
                        if entries[j].0 == key {
                            found = true;
                        } else {
                            j = j + 1;
                        }
                    }
                    proof {
                        let es = entries_of(before);
                        lemma_key_index(es, key@);
                        let ki = key_index(es, key@);
                        if found {
                            assert(es[j as int] == (before[j as int].0@, crate::models::data::value_of(before[j as int].1)));
                            assert(es[j as int].0 == key@);
                            if 0 <= ki < j {
                                assert(es[ki] == (before[ki].0@, crate::models::data::value_of(before[ki].1)));
                            }
                        } else {
                            assert forall|m: int| 0 <= m < es.len() implies #[trigger] es[m].0 != key@ by {
                                assert(es[m] == (before[m].0@, crate::models::data::value_of(before[m].1)));
                            }
                        }
                    }
                    let ghost kv = (key@, value@);
                    if found {
                        proof {
                            assert(key_index(entries_of(before), key@) == j);
                        }
                        entries.set(j, (key, value));
                        proof {
                            lemma_entries_of(entries@);
                            assert(entries_of(entries@) =~= entries_of(before).update(j as int, kv));
                        }
                    } else {
                        proof {
                            assert(key_index(entries_of(before), key@) == -1);
                        }
                        entries.push((key, value));
                        proof {
                            lemma_entries_of(entries@);
                            assert(entries_of(entries@) =~= entries_of(before).push(kv));
                        }
                    }
                } else {
                    let ghost kv = (key@, value@);
                    entries.push((key, value));
                    proof {
                        lemma_entries_of(entries@);
                        assert(entries_of(entries@) =~= entries_of(before).push(kv));
                    }
                }
                i = i + 1;
            }
            if hash {
                Ok(Data::Hash(entries))
            } else {
                Ok(Data::Object(entries))
            }
        },
        _ => Err(unknown_tag_message(tag)),
    }
}

/// Reads a whole buffer: checks the header, then decodes the value that
/// follows it.
pub fn decode(bytes: &[u8]) -> (res: Result<Data, String>)
    ensures
        reports(res, crate::format::decode_file(bytes@)),
        res matches Ok(d) ==> well_formed(d@),
{
    match verify(bytes) {
        Ok(()) => {},
        Err(e) => return Err(e),
    }
    let mut pos: usize = 8;
    decode_value(bytes, &mut pos)
}

} // verus!
