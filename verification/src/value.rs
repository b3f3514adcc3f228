//! The data model the encoder traverses, and the mathematical definition of
//! its encoding. A `Value` is one typed structural event tree as the
//! reflection layer presents it: primitives, options, the four kinds of named
//! container, anonymous tuples, sequences, enum variants, and maps.
use vstd::prelude::*;

use crate::error::Error;
use crate::format::{canonical, concat_entries, le_bytes, uleb, EntryBytes};

verus! {

/// One value to encode. Named containers (unit structs, newtype wrappers,
/// tuple structs, records, and every enum variant) consume depth budget;
/// anonymous tuples, sequences and maps do not.
pub enum Value {
    Bool(bool),
    U8(u8),
    U16(u16),
    U32(u32),
    U64(u64),
    U128(u128),
    I8(i8),
    I16(i16),
    I32(i32),
    I64(i64),
    I128(i128),
    /// A floating-point value of any width; always refused.
    Float,
    /// A single code point; always refused.
    Char(char),
    /// A byte string or text string: the raw bytes, length-prefixed.
    Bytes(Vec<u8>),
    Optional(Option<Box<Value>>),
    Unit,
    /// A unit value with a type name: emits nothing, costs depth.
    UnitStruct,
    /// A named single-field wrapper: the inner encoding alone, costs depth.
    NewtypeStruct(Box<Value>),
    /// An ordered sequence of known length: length prefix, then elements.
    Sequence(Vec<Value>),
    /// A fixed-length anonymous tuple: element encodings, no prefix.
    Tuple(Vec<Value>),
    /// A named tuple: element encodings, no prefix, costs depth.
    TupleStruct(Vec<Value>),
    /// A record: field encodings in declaration order, costs depth.
    Struct(Vec<Value>),
    /// A dataless enum variant: its index, costs depth.
    UnitVariant(u32),
    /// A single-payload variant: index, then the payload, costs depth.
    NewtypeVariant(u32, Box<Value>),
    /// A tuple variant: index, then the elements, costs depth.
    TupleVariant(u32, Vec<Value>),
    /// A record variant: index, then the fields, costs depth.
    StructVariant(u32, Vec<Value>),
    /// An associative container: entries as presented, in any order.
    Mapping(Vec<(Value, Value)>),
}

/// The bytes `v` encodes to with `depth` budget remaining, or the error the
/// encoder reports. This is the reference the executable encoder is held to.
pub open spec fn spec_encode(v: Value, depth: nat) -> Result<Seq<u8>, Error>
    decreases v,
{
    match v {
        Value::Bool(b) => Ok(if b {
            seq![1u8]
        } else {
            seq![0u8]
        }),
        Value::U8(x) => Ok(seq![x]),
        Value::U16(x) => Ok(le_bytes(x as nat, 2)),
        Value::U32(x) => Ok(le_bytes(x as nat, 4)),
        Value::U64(x) => Ok(le_bytes(x as nat, 8)),
        Value::U128(x) => Ok(le_bytes(x as nat, 16)),
        Value::I8(x) => Ok(seq![x as u8]),
        Value::I16(x) => Ok(le_bytes((x as u16) as nat, 2)),
        Value::I32(x) => Ok(le_bytes((x as u32) as nat, 4)),
        Value::I64(x) => Ok(le_bytes((x as u64) as nat, 8)),
        Value::I128(x) => Ok(le_bytes((x as u128) as nat, 16)),
        Value::Float => Err(Error::NotSupported),
        Value::Char(_) => Err(Error::NotSupported),
        Value::Bytes(b) => if b@.len() > crate::MAX_SEQUENCE_LENGTH {
            Err(Error::ExceededMaxLen(b@.len() as usize))
        } else {
            Ok(uleb(b@.len()) + b@)
        },
        Value::Optional(o) => match o {
            Option::None => Ok(seq![0u8]),
            Option::Some(inner) => match spec_encode(*inner, depth) {
                Ok(s) => Ok(seq![1u8] + s),
                Err(e) => Err(e),
            },
        },
        Value::Unit => Ok(Seq::empty()),
        Value::UnitStruct => if depth == 0 {
            Err(Error::ExceededContainerDepthLimit)
        } else {
            Ok(Seq::empty())
        },
        Value::NewtypeStruct(inner) => if depth == 0 {
            Err(Error::ExceededContainerDepthLimit)
        } else {
            spec_encode(*inner, (depth - 1) as nat)
        },
        Value::Sequence(elems) => if elems@.len() > crate::MAX_SEQUENCE_LENGTH {
            Err(Error::ExceededMaxLen(elems@.len() as usize))
        } else {
            match encode_list(elems@, depth) {
                Ok(s) => Ok(uleb(elems@.len()) + s),
                Err(e) => Err(e),
            }
        },
        Value::Tuple(elems) => encode_list(elems@, depth),
        Value::TupleStruct(elems) => if depth == 0 {
            Err(Error::ExceededContainerDepthLimit)
        } else {
            encode_list(elems@, (depth - 1) as nat)
        },
        Value::Struct(fields) => if depth == 0 {
            Err(Error::ExceededContainerDepthLimit)
        } else {
            encode_list(fields@, (depth - 1) as nat)
        },
        Value::UnitVariant(i) => if depth == 0 {
            Err(Error::ExceededContainerDepthLimit)
        } else {
            Ok(uleb(i as nat))
        },
        Value::NewtypeVariant(i, inner) => if depth == 0 {
            Err(Error::ExceededContainerDepthLimit)
        } else {
            match spec_encode(*inner, (depth - 1) as nat) {
                Ok(s) => Ok(uleb(i as nat) + s),
                Err(e) => Err(e),
            }
        },
        Value::TupleVariant(i, elems) => if depth == 0 {
            Err(Error::ExceededContainerDepthLimit)
        } else {
            match encode_list(elems@, (depth - 1) as nat) {
                Ok(s) => Ok(uleb(i as nat) + s),
                Err(e) => Err(e),
            }
        },
        Value::StructVariant(i, fields) => if depth == 0 {
            Err(Error::ExceededContainerDepthLimit)
        } else {
            match encode_list(fields@, (depth - 1) as nat) {
                Ok(s) => Ok(uleb(i as nat) + s),
                Err(e) => Err(e),
            }
        },
        Value::Mapping(entries) => match encode_entries(entries@, depth) {
            Ok(encs) => {
                let canon = canonical(encs);
                if canon.len() > crate::MAX_SEQUENCE_LENGTH {
                    Err(Error::ExceededMaxLen(canon.len() as usize))
                } else {
                    Ok(uleb(canon.len()) + concat_entries(canon))
                }
            },
            Err(e) => Err(e),
        },
    }
}

/// The concatenated encodings of the elements of `s`, or the error of the
/// leftmost element that fails.
pub open spec fn encode_list(s: Seq<Value>, depth: nat) -> Result<Seq<u8>, Error>
    decreases s,
{
    if s.len() == 0 {
        Ok(Seq::empty())
    } else {
        match encode_list(s.drop_last(), depth) {
            Ok(pre) => match spec_encode(s.last(), depth) {
                Ok(b) => Ok(pre + b),
                Err(e) => Err(e),
            },
            Err(e) => Err(e),
        }
    }
}

/// Each presented map entry with both halves serialized at the current depth,
/// in presentation order, or the error of the leftmost half that fails (keys
/// before their values).
pub open spec fn encode_entries(s: Seq<(Value, Value)>, depth: nat) -> Result<
    Seq<EntryBytes>,
    Error,
>
    decreases s,
{
    if s.len() == 0 {
        Ok(Seq::empty())
    } else {
        match encode_entries(s.drop_last(), depth) {
            Ok(pre) => match spec_encode(s.last().0, depth) {
                Ok(kb) => match spec_encode(s.last().1, depth) {
                    Ok(vb) => Ok(pre + seq![(kb, vb)]),
                    Err(e) => Err(e),
                },
                Err(e) => Err(e),
            },
            Err(e) => Err(e),
        }
    }
}

/// Extending an encoded element list by one element appends that element's
/// encoding, or surfaces its error.
pub proof fn lemma_encode_list_snoc(s: Seq<Value>, d: nat, i: int)
    requires
        0 <= i < s.len(),
    ensures
        encode_list(s.take(i + 1), d) == (match encode_list(s.take(i), d) {
            Ok(pre) => match spec_encode(s[i], d) {
                Ok(b) => Ok::<Seq<u8>, Error>(pre + b),
                Err(e) => Err(e),
            },
            Err(e) => Err(e),
        }),
{
    assert(s.take(i + 1).drop_last() =~= s.take(i));
    assert(s.take(i + 1).last() == s[i]);
}

/// An element list whose first `i` elements already fail encodes to that very
/// failure.
pub proof fn lemma_encode_list_prefix_err(s: Seq<Value>, d: nat, i: int)
    requires
        0 <= i <= s.len(),
        encode_list(s.take(i), d) is Err,
    ensures
        encode_list(s, d) == encode_list(s.take(i), d),
    decreases s.len(),
{
    if i == s.len() {
        assert(s.take(i) =~= s);
    } else {
        let s1 = s.drop_last();
        assert(s1.take(i) =~= s.take(i));
        lemma_encode_list_prefix_err(s1, d, i);
    }
}

/// Extending the serialized map entries by one presented pair appends its
/// serialized halves, or surfaces the first error among them.
pub proof fn lemma_encode_entries_snoc(s: Seq<(Value, Value)>, d: nat, i: int)
    requires
        0 <= i < s.len(),
    ensures
        encode_entries(s.take(i + 1), d) == (match encode_entries(s.take(i), d) {
            Ok(pre) => match spec_encode(s[i].0, d) {
                Ok(kb) => match spec_encode(s[i].1, d) {
                    Ok(vb) => Ok::<Seq<EntryBytes>, Error>(pre + seq![(kb, vb)]),
                    Err(e) => Err(e),
                },
                Err(e) => Err(e),
            },
            Err(e) => Err(e),
        }),
{
    assert(s.take(i + 1).drop_last() =~= s.take(i));
    assert(s.take(i + 1).last() == s[i]);
}

/// A presented entry list whose first `i` pairs already fail serializes to
/// that very failure.
pub proof fn lemma_encode_entries_prefix_err(s: Seq<(Value, Value)>, d: nat, i: int)
    requires
        0 <= i <= s.len(),
        encode_entries(s.take(i), d) is Err,
    ensures
        encode_entries(s, d) == encode_entries(s.take(i), d),
    decreases s.len(),
{
    if i == s.len() {
        assert(s.take(i) =~= s);
    } else {
        let s1 = s.drop_last();
        assert(s1.take(i) =~= s.take(i));
        lemma_encode_entries_prefix_err(s1, d, i);
    }
}

} // verus!
