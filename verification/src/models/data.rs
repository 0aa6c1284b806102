use crate::format::{key_index, lemma_key_index};
use vstd::prelude::*;
use vstd::std_specs::cmp::PartialEqSpecImpl;
use vstd::slice::slice_to_vec;
use vstd::std_specs::convert::{FromSpecImpl, IntoSpec};
use vstd::string::StringExecFns;

verus! {

/// The GLH value tree.
///
/// `Float` carries the IEEE-754 bit pattern of an `f64` (what `f64::to_bits`
/// returns): the format stores floats as raw bits, so the tree does too.
///
/// `==` compares trees as values: floats by IEEE-754 equality (`0.0 == -0.0`,
/// a NaN equals nothing), hash maps as maps (same size, and each key of one
/// found in the other with an equal value), everything else part by part.
///
/// `Object` keeps its entries in order. `Hash` is a string-keyed map; its
/// entries are held as pairs, each key at most once (see [`well_formed`]).
#[derive(Debug)]
pub enum Data {
    Null,
    Bool(bool),
    Int(i64),
    Float(u64),
    String(String),
    Bytes(Vec<u8>),
    Array(Vec<Data>),
    Object(Vec<(String, Data)>),
    Hash(Vec<(String, Data)>),
}

/// The mathematical model of a [`Data`] tree: strings as their characters,
/// byte buffers and lists as sequences.
pub enum Value {
    Null,
    Bool(bool),
    Int(i64),
    Float(u64),
    Str(Seq<char>),
    Bytes(Seq<u8>),
    Array(Seq<Value>),
    Object(Seq<(Seq<char>, Value)>),
    Hash(Seq<(Seq<char>, Value)>),
}

/// The model of one tree.
pub open spec fn value_of(d: Data) -> Value
    decreases d,
{
    match d {
        Data::Null => Value::Null,
        Data::Bool(b) => Value::Bool(b),
        Data::Int(i) => Value::Int(i),
        Data::Float(bits) => Value::Float(bits),
        Data::String(s) => Value::Str(s@),
        Data::Bytes(b) => Value::Bytes(b@),
        Data::Array(items) => Value::Array(values_of(items@)),
        Data::Object(entries) => Value::Object(entries_of(entries@)),
        Data::Hash(entries) => Value::Hash(entries_of(entries@)),
    }
}

/// The models of a list of trees, element by element.
pub open spec fn values_of(s: Seq<Data>) -> Seq<Value>
    decreases s,
{
    if s.len() == 0 {
        Seq::empty()
    } else {
        values_of(s.subrange(0, s.len() - 1)).push(value_of(s[s.len() - 1]))
    }
}

/// The models of a list of keyed entries, entry by entry.
pub open spec fn entries_of(s: Seq<(String, Data)>) -> Seq<(Seq<char>, Value)>
    decreases s,
{
    if s.len() == 0 {
        Seq::empty()
    } else {
        entries_of(s.subrange(0, s.len() - 1)).push(
            (s[s.len() - 1].0@, value_of(s[s.len() - 1].1)),
        )
    }
}

/// `values_of` keeps the length and maps element by element.
pub proof fn lemma_values_of(s: Seq<Data>)
    ensures
        values_of(s).len() == s.len(),
        forall|i: int| 0 <= i < s.len() ==> #[trigger] values_of(s)[i] == value_of(s[i]),
    decreases s.len(),
{
    if s.len() > 0 {
        lemma_values_of(s.subrange(0, s.len() - 1));
    }
}

/// `entries_of` keeps the length and maps entry by entry.
pub proof fn lemma_entries_of(s: Seq<(String, Data)>)
    ensures
        entries_of(s).len() == s.len(),
        forall|i: int|
            0 <= i < s.len() ==> #[trigger] entries_of(s)[i] == (s[i].0@, value_of(s[i].1)),
    decreases s.len(),
{
    if s.len() > 0 {
        lemma_entries_of(s.subrange(0, s.len() - 1));
    }
}

impl View for Data {
    type V = Value;

    open spec fn view(&self) -> Value {
        value_of(*self)
    }
}

/// No two entries of a list share a key.
pub open spec fn keys_distinct(entries: Seq<(Seq<char>, Value)>) -> bool {
    forall|i: int, j: int|
        0 <= i < j < entries.len() ==> #[trigger] entries[i].0 != #[trigger] entries[j].0
}

/// Every `Hash` in the tree, at any depth, holds each key at most once.
pub open spec fn well_formed(v: Value) -> bool
    decreases v,
{
    match v {
        Value::Array(items) => forall|i: int| 0 <= i < items.len() ==> well_formed(#[trigger] items[i]),
        Value::Object(entries) => forall|i: int|
            0 <= i < entries.len() ==> well_formed(#[trigger] entries[i].1),
        Value::Hash(entries) => {
            &&& keys_distinct(entries)
            &&& forall|i: int| 0 <= i < entries.len() ==> well_formed(#[trigger] entries[i].1)
        },
        _ => true,
    }
}

/// The 64-bit pattern of a NaN: all exponent bits set, a non-zero fraction.
pub open spec fn is_nan_bits(x: u64) -> bool {
    (x >> 52u64) & 0x7ffu64 == 0x7ffu64 && x & 0xf_ffff_ffff_ffffu64 != 0
}

/// The 64-bit pattern of a zero of either sign.
pub open spec fn is_zero_bits(x: u64) -> bool {
    x & 0x7fff_ffff_ffff_ffffu64 == 0
}

/// IEEE-754 equality of two `f64`s given by their bit patterns.
pub open spec fn float_bits_eq(x: u64, y: u64) -> bool {
    !is_nan_bits(x) && !is_nan_bits(y) && (x == y || (is_zero_bits(x) && is_zero_bits(y)))
}

/// Equality of two trees as values: floats by IEEE-754 equality, hash maps as
/// maps (same size; each key of `a`, looked up in `b`, has an equal value),
/// all else part by part.
pub open spec fn value_eq(a: Value, b: Value) -> bool
    decreases a,
{
    match a {
        Value::Null => b is Null,
        Value::Bool(x) => b matches Value::Bool(y) && x == y,
        Value::Int(x) => b matches Value::Int(y) && x == y,
        Value::Float(x) => b matches Value::Float(y) && float_bits_eq(x, y),
        Value::Str(x) => b matches Value::Str(y) && x == y,
        Value::Bytes(x) => b matches Value::Bytes(y) && x == y,
        Value::Array(x) => b matches Value::Array(y) && x.len() == y.len() && forall|i: int|
            0 <= i < x.len() ==> value_eq(#[trigger] x[i], y[i]),
        Value::Object(x) => b matches Value::Object(y) && x.len() == y.len() && forall|i: int|
            0 <= i < x.len() ==> (#[trigger] x[i]).0 == y[i].0 && value_eq(x[i].1, y[i].1),
        Value::Hash(x) => b matches Value::Hash(y) && x.len() == y.len() && forall|i: int|
            0 <= i < x.len() ==> key_index(y, (#[trigger] x[i]).0) >= 0 && value_eq(
                x[i].1,
                y[key_index(y, x[i].0)].1,
            ),
    }
}

/// The element-wise form of the model of a list-holding tree.
proof fn lemma_values_and_entries_views(d: Data)
    ensures
        d matches Data::Array(v) ==> values_of(v@).len() == v@.len() && forall|i: int|
            0 <= i < v@.len() ==> #[trigger] values_of(v@)[i] == value_of(v@[i]),
        d matches Data::Object(e) ==> entries_of(e@).len() == e@.len() && forall|i: int|
            0 <= i < e@.len() ==> #[trigger] entries_of(e@)[i] == (e@[i].0@, value_of(e@[i].1)),
        d matches Data::Hash(e) ==> entries_of(e@).len() == e@.len() && forall|i: int|
            0 <= i < e@.len() ==> #[trigger] entries_of(e@)[i] == (e@[i].0@, value_of(e@[i].1)),
{
    match d {
        Data::Array(v) => lemma_values_of(v@),
        Data::Object(e) => lemma_entries_of(e@),
        Data::Hash(e) => lemma_entries_of(e@),
        _ => {},
    }
}

/// IEEE-754 equality of two `f64`s given by their bit patterns.
fn float_bits_equal(x: u64, y: u64) -> (r: bool)
    ensures
        r == float_bits_eq(x, y),
{
    let x_nan = (x >> 52u64) & 0x7ffu64 == 0x7ffu64 && x & 0xf_ffff_ffff_ffffu64 != 0;
    let y_nan = (y >> 52u64) & 0x7ffu64 == 0x7ffu64 && y & 0xf_ffff_ffff_ffffu64 != 0;
    let zeros = x & 0x7fff_ffff_ffff_ffffu64 == 0 && y & 0x7fff_ffff_ffff_ffffu64 == 0;
    !x_nan && !y_nan && (x == y || zeros)
}

/// Equality of two byte buffers.
fn bytes_equal(a: &[u8], b: &[u8]) -> (r: bool)
    ensures
        r == (a@ == b@),
{
    if a.len() != b.len() {
        return false;
    }
    let mut i: usize = 0;
    while i < a.len()
        invariant
            i <= a@.len(),
            a@.len() == b@.len(),
            forall|j: int| 0 <= j < i ==> a@[j] == b@[j],
        decreases a@.len() - i,
    {
        if a[i] != b[i] {
            return false;
        }
        i = i + 1;
    }
    assert(a@ =~= b@);
    true
}

impl PartialEq for Data {
    fn eq(&self, other: &Data) -> (r: bool)
        decreases self,
    {
        proof {
            lemma_values_and_entries_views(*self);
            lemma_values_and_entries_views(*other);
        }
        match self {
            Data::Null => match other {
                Data::Null => true,
                _ => false,
            },
            Data::Bool(x) => match other {
                Data::Bool(y) => *x == *y,
                _ => false,
            },
            Data::Int(x) => match other {
                Data::Int(y) => *x == *y,
                _ => false,
            },
            Data::Float(x) => match other {
                Data::Float(y) => float_bits_equal(*x, *y),
                _ => false,
            },
            Data::String(x) => match other {
                Data::String(y) => *x == *y,
                _ => false,
            },
            Data::Bytes(x) => match other {
                Data::Bytes(y) => bytes_equal(x.as_slice(), y.as_slice()),
                _ => false,
            },
            Data::Array(x) => match other {
                Data::Array(y) => {
                    if x.len() != y.len() {
                        return false;
                    }
                    let mut i: usize = 0;
                    while i < x.len()
                        invariant
                            i <= x@.len(),
                            x@.len() == y@.len(),
                            *self == Data::Array(*x),
                            *other == Data::Array(*y),
                            forall|j: int| 0 <= j < i ==> value_eq(#[trigger] x@[j]@, y@[j]@),
                        decreases x@.len() - i,
                    {
                        proof {
                            assert(decreases_to!(*self => (*self)->Array_0));
                            assert(decreases_to!(*x => x@));
                            assert(decreases_to!(x@ => x@[i as int]));
                        }
                        if !x[i].eq(&y[i]) {
                            proof {
                                lemma_values_of(x@);
                                lemma_values_of(y@);
                                assert(values_of(x@)[i as int] == x@[i as int]@);
                                assert(values_of(y@)[i as int] == y@[i as int]@);
                            }
                            return false;
                        }
                        i = i + 1;
                    }
                    proof {
                        lemma_values_of(x@);
                        lemma_values_of(y@);
                        assert forall|j: int| 0 <= j < x@.len() implies value_eq(
                            #[trigger] values_of(x@)[j],
                            values_of(y@)[j],
                        ) by {
                            assert(values_of(x@)[j] == x@[j]@);
                            assert(values_of(y@)[j] == y@[j]@);
                        }
                    }
                    true
                },
                _ => false,
            },
            Data::Object(x) => match other {
                Data::Object(y) => {
                    if x.len() != y.len() {
                        return false;
                    }
                    let mut i: usize = 0;
                    while i < x.len()
                        invariant
                            i <= x@.len(),
                            x@.len() == y@.len(),
                            *self == Data::Object(*x),
                            *other == Data::Object(*y),
                            forall|j: int|
                                0 <= j < i ==> (#[trigger] x@[j]).0@ == y@[j].0@ && value_eq(
                                    x@[j].1@,
                                    y@[j].1@,
                                ),
                        decreases x@.len() - i,
                    {
                        proof {
                            assert(decreases_to!(*self => (*self)->Object_0));
                            assert(decreases_to!(*x => x@));
                            assert(decreases_to!(x@ => x@[i as int]));
                            assert(decreases_to!(x@[i as int] => x@[i as int].1));
                        }
                        if !(x[i].0 == y[i].0) || !x[i].1.eq(&y[i].1) {
                            proof {
                                lemma_entries_of(x@);
                                lemma_entries_of(y@);
                                assert(entries_of(x@)[i as int] == (x@[i as int].0@, x@[i as int].1@));
                                assert(entries_of(y@)[i as int] == (y@[i as int].0@, y@[i as int].1@));
                            }
                            return false;
                        }
                        i = i + 1;
                    }
                    proof {
                        lemma_entries_of(x@);
                        lemma_entries_of(y@);
                        assert forall|j: int| 0 <= j < x@.len() implies (#[trigger] entries_of(x@)[j]).0
                            == entries_of(y@)[j].0 && value_eq(
                            entries_of(x@)[j].1,
                            entries_of(y@)[j].1,
                        ) by {
                            assert(entries_of(x@)[j] == (x@[j].0@, x@[j].1@));
                            assert(entries_of(y@)[j] == (y@[j].0@, y@[j].1@));
                        }
                    }
                    true
                },
                _ => false,
            },
            Data::Hash(x) => match other {
                Data::Hash(y) => {
                    if x.len() != y.len() {
                        return false;
                    }
                    let ghost ys = entries_of(y@);
                    let mut i: usize = 0;
                    while i < x.len()
                        invariant
                            i <= x@.len(),
                            x@.len() == y@.len(),
                            *self == Data::Hash(*x),
                            *other == Data::Hash(*y),
                            ys == entries_of(y@),
                            ys.len() == y@.len(),
                            forall|m: int| 0 <= m < y@.len() ==> #[trigger] ys[m] == (y@[m].0@, value_of(y@[m].1)),
                            forall|j: int|
                                0 <= j < i ==> key_index(ys, (#[trigger] x@[j]).0@) >= 0 && value_eq(
                                    x@[j].1@,
                                    ys[key_index(ys, x@[j].0@)].1,
                                ),
                        decreases x@.len() - i,
                    {
                        let mut k: usize = 0;
                        let mut found = false;
                        while !found && k < y.len()
                            invariant
                                k <= y@.len(),
                                i < x@.len(),
                                !found ==> forall|m: int| 0 <= m < k ==> #[trigger] y@[m].0@ != x@[i as int].0@,
                                found ==> k < y@.len() && y@[k as int].0@ == x@[i as int].0@
                                    && forall|m: int| 0 <= m < k ==> #[trigger] y@[m].0@ != x@[i as int].0@,
                            decreases y@.len() - k + if found { 0int } else { 1int },
                        {
                            if y[k].0 == x[i].0 {
                                found = true;
                            } else {
                                k = k + 1;
                            }
                        }
                        proof {
                            let key = x@[i as int].0@;
                            lemma_key_index(ys, key);
                            let ki = key_index(ys, key);
                            if found {
                                assert(ys[k as int].0 == key);
                                if 0 <= ki < k {
                                    assert(ys[ki].0 == y@[ki].0@);
                                }
                            } else {
                                assert forall|m: int| 0 <= m < ys.len() implies #[trigger] ys[m].0 != key by {
                                    assert(ys[m].0 == y@[m].0@);
                                }
                            }
                        }
                        if !found {
                            proof {
                                lemma_entries_of(x@);
                                lemma_entries_of(y@);
                                assert(entries_of(x@)[i as int] == (x@[i as int].0@, x@[i as int].1@));
                            }
                            return false;
                        }
                        proof {
                            assert(decreases_to!(*self => (*self)->Hash_0));
                            assert(decreases_to!(*x => x@));
                            assert(decreases_to!(x@ => x@[i as int]));
                            assert(decreases_to!(x@[i as int] => x@[i as int].1));
                        }
                        if !x[i].1.eq(&y[k].1) {
                            proof {
                                lemma_entries_of(x@);
                                lemma_entries_of(y@);
                                assert(entries_of(x@)[i as int] == (x@[i as int].0@, x@[i as int].1@));
                                assert(ys[k as int] == (y@[k as int].0@, y@[k as int].1@));
                            }
                            return false;
                        }
                        proof {
                            assert(ys[k as int] == (y@[k as int].0@, y@[k as int].1@));
                        }
                        i = i + 1;
                    }
                    proof {
                        lemma_entries_of(x@);
                        assert forall|j: int| 0 <= j < x@.len() implies key_index(
                            ys,
                            (#[trigger] entries_of(x@)[j]).0,
                        ) >= 0 && value_eq(
                            entries_of(x@)[j].1,
                            ys[key_index(ys, entries_of(x@)[j].0)].1,
                        ) by {
                            assert(entries_of(x@)[j] == (x@[j].0@, x@[j].1@));
                        }
                    }
                    true
                },
                _ => false,
            },
        }
    }
}

impl PartialEqSpecImpl for Data {
    open spec fn obeys_eq_spec() -> bool {
        true
    }

    open spec fn eq_spec(&self, other: &Data) -> bool {
        value_eq(self@, other@)
    }
}

impl Clone for Data {
    /// A deep copy: the same tree.
    fn clone(&self) -> (r: Self)
        ensures
            r@ == self@,
        decreases self,
    {
        match self {
            Data::Null => Data::Null,
            Data::Bool(b) => Data::Bool(*b),
            Data::Int(i) => Data::Int(*i),
            Data::Float(bits) => Data::Float(*bits),
            Data::String(s) => Data::String(s.clone()),
            Data::Bytes(b) => Data::Bytes(slice_to_vec(b.as_slice())),
            Data::Array(items) => {
                let mut out: Vec<Data> = Vec::new();
                let mut i: usize = 0;
                while i < items.len()
                    invariant
                        i <= items@.len(),
                        *self == Data::Array(*items),
                        values_of(out@) == values_of(items@.subrange(0, i as int)),
                    decreases items@.len() - i,
                {
                    proof {
                        assert(decreases_to!(*self => (*self)->Array_0));
                        assert(decreases_to!(*items => items@));
                        assert(decreases_to!(items@ => items@[i as int]));
                    }
                    let item = items[i].clone();
                    let ghost prev = out@;
                    out.push(item);
                    proof {
                        lemma_values_of(prev);
                        lemma_values_of(out@);
                        lemma_values_of(items@.subrange(0, i as int));
                        lemma_values_of(items@.subrange(0, i + 1));
                        let sub = items@.subrange(0, i + 1);
                        assert forall|k: int| 0 <= k < out@.len() implies #[trigger] values_of(out@)[k]
                            == values_of(sub)[k] by {
                            if k < i {
                                assert(out@[k] == prev[k]);
                                assert(sub[k] == items@.subrange(0, i as int)[k]);
                                assert(values_of(prev)[k] == values_of(items@.subrange(0, i as int))[k]);
                            }
                        }
                        assert(values_of(out@) =~= values_of(sub));
                    }
                    i = i + 1;
                }
                proof {
                    assert(items@.subrange(0, items@.len() as int) =~= items@);
                }
                Data::Array(out)
            },
            Data::Object(entries) | Data::Hash(entries) => {
                let mut out: Vec<(String, Data)> = Vec::new();
                let mut i: usize = 0;
                while i < entries.len()
                    invariant
                        i <= entries@.len(),
                        *self == Data::Object(*entries) || *self == Data::Hash(*entries),
                        entries_of(out@) == entries_of(entries@.subrange(0, i as int)),
                    decreases entries@.len() - i,
                {
                    proof {
                        if *self is Object {
                            assert(decreases_to!(*self => (*self)->Object_0));
                        } else {
                            assert(decreases_to!(*self => (*self)->Hash_0));
                        }
                        assert(decreases_to!(*entries => entries@));
                        assert(decreases_to!(entries@ => entries@[i as int]));
                        assert(decreases_to!(entries@[i as int] => entries@[i as int].1));
                    }
                    let key = entries[i].0.clone();
                    let value = entries[i].1.clone();
                    let ghost prev = out@;
                    out.push((key, value));
                    proof {
                        lemma_entries_of(prev);
                        lemma_entries_of(out@);
                        lemma_entries_of(entries@.subrange(0, i as int));
                        lemma_entries_of(entries@.subrange(0, i + 1));
                        let sub = entries@.subrange(0, i + 1);
                        assert forall|k: int| 0 <= k < out@.len() implies #[trigger] entries_of(out@)[k]
                            == entries_of(sub)[k] by {
                            if k < i {
                                assert(out@[k] == prev[k]);
                                assert(sub[k] == entries@.subrange(0, i as int)[k]);
                                assert(entries_of(prev)[k] == entries_of(entries@.subrange(0, i as int))[k]);
                            }
                        }
                        assert(entries_of(out@) =~= entries_of(sub));
                    }
                    i = i + 1;
                }
                proof {
                    assert(entries@.subrange(0, entries@.len() as int) =~= entries@);
                }
                match self {
                    Data::Object(_) => Data::Object(out),
                    _ => Data::Hash(out),
                }
            },
        }
    }
}

impl From<String> for Data {
    fn from(value: String) -> (r: Data)
        ensures
            r@ == Value::Str(value@),
    {
        Data::String(value)
    }
}

impl FromSpecImpl<String> for Data {
    open spec fn obeys_from_spec() -> bool {
        true
    }

    open spec fn from_spec(v: String) -> Data {
        Data::String(v)
    }
}

impl From<&str> for Data {
    fn from(value: &str) -> (r: Data)
        ensures
            r@ == Value::Str(value@),
    {
        Data::String(String::from_str(value))
    }
}

impl FromSpecImpl<&str> for Data {
    /// The string is copied, and no spec value can name the copy: the
    /// contract of `from` says what it holds instead.
    open spec fn obeys_from_spec() -> bool {
        false
    }

    open spec fn from_spec(v: &str) -> Data {
        arbitrary()
    }
}

impl From<bool> for Data {
    fn from(value: bool) -> (r: Data)
        ensures
            r == Data::Bool(value),
    {
        Data::Bool(value)
    }
}

impl FromSpecImpl<bool> for Data {
    open spec fn obeys_from_spec() -> bool {
        true
    }

    open spec fn from_spec(v: bool) -> Data {
        Data::Bool(v)
    }
}

impl From<i64> for Data {
    fn from(value: i64) -> (r: Data)
        ensures
            r == Data::Int(value),
    {
        Data::Int(value)
    }
}

impl FromSpecImpl<i64> for Data {
    open spec fn obeys_from_spec() -> bool {
        true
    }

    open spec fn from_spec(v: i64) -> Data {
        Data::Int(v)
    }
}

impl From<i32> for Data {
    fn from(value: i32) -> (r: Data)
        ensures
            r == Data::Int(value as i64),
    {
        Data::Int(value as i64)
    }
}

impl FromSpecImpl<i32> for Data {
    open spec fn obeys_from_spec() -> bool {
        true
    }

    open spec fn from_spec(v: i32) -> Data {
        Data::Int(v as i64)
    }
}

impl From<Vec<u8>> for Data {
    fn from(value: Vec<u8>) -> (r: Data)
        ensures
            r == Data::Bytes(value),
    {
        Data::Bytes(value)
    }
}

impl FromSpecImpl<Vec<u8>> for Data {
    open spec fn obeys_from_spec() -> bool {
        true
    }

    open spec fn from_spec(v: Vec<u8>) -> Data {
        Data::Bytes(v)
    }
}

impl<T: Into<Data>> From<Vec<T>> for Data {
    /// An array of the converted elements, in order.
    fn from(value: Vec<T>) -> (r: Data)
        ensures
            r is Array,
            r->Array_0@.len() == value@.len(),
            forall|i: int|
                0 <= i < value@.len() ==> call_ensures(
                    <T as Into<Data>>::into,
                    (value@[i],),
                    #[trigger] r->Array_0@[i],
                ),
            T::obeys_into_spec() ==> forall|i: int|
                0 <= i < value@.len() ==> #[trigger] r->Array_0@[i] == value@[i].into_spec(),
    {
        let mut value = value;
        let ghost original = value@;
        let mut items: Vec<Data> = Vec::new();
        while value.len() > 0
            invariant
                items@.len() + value@.len() == original.len(),
                value@ == original.subrange(items@.len() as int, original.len() as int),
                forall|i: int|
                    0 <= i < items@.len() ==> call_ensures(
                        <T as Into<Data>>::into,
                        (original[i],),
                        #[trigger] items@[i],
                    ),
                T::obeys_into_spec() ==> forall|i: int|
                    0 <= i < items@.len() ==> #[trigger] items@[i] == original[i].into_spec(),
            decreases value@.len(),
        {
            let item = value.remove(0);
            let d: Data = item.into();
            items.push(d);
        }
        Data::Array(items)
    }
}

impl<T: Into<Data>> FromSpecImpl<Vec<T>> for Data {
    /// The elements are converted one by one into a new vector, which no
    /// spec value can name: the contract of `from` says what it holds instead.
    open spec fn obeys_from_spec() -> bool {
        false
    }

    open spec fn from_spec(v: Vec<T>) -> Data {
        arbitrary()
    }
}

} // verus!
