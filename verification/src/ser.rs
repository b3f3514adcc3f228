//! The executable encoder: the primitive writer, the structural traversal,
//! the map canonicalizer, and the public entry points. Every function is
//! proved against the format spec in `format` and `value`.
use vstd::prelude::*;

use crate::error::Error;
use crate::format::{canonical, concat_entries, le_bytes, lemma_canonical_snoc,
    lemma_concat_entries_snoc, lemma_prefix_extend, lemma_prefix_refl, lemma_prefix_trans, uleb,
    EntryBytes};
use crate::value::{encode_entries, encode_list, lemma_encode_entries_prefix_err,
    lemma_encode_entries_snoc, lemma_encode_list_prefix_err, lemma_encode_list_snoc, spec_encode,
    Value};

verus! {

/// Walks one value and appends its canonical bytes to an owned output buffer,
/// spending depth budget at each named container.
pub struct Serializer {
    pub output: Vec<u8>,
    pub max_remaining_depth: usize,
}

impl Serializer {
    /// A serializer that appends to `output` with `max_remaining_depth`
    /// budget left.
    pub fn new(output: Vec<u8>, max_remaining_depth: usize) -> (r: Serializer)
        ensures
            r.output@ == output@,
            r.max_remaining_depth == max_remaining_depth,
    {
        Serializer { output, max_remaining_depth }
    }

    /// Hands the accumulated bytes back.
    pub fn into_output(self) -> (r: Vec<u8>)
        ensures
            r@ == self.output@,
    {
        self.output
    }

    /// Appends the minimal ULEB128 form of `value`.
    pub fn output_u32_as_uleb128(&mut self, value: u32)
        ensures
            final(self).output@ == old(self).output@ + uleb(value as nat),
            final(self).max_remaining_depth == old(self).max_remaining_depth,
    {
        let mut v: u32 = value;
        while v >= 0x80
            invariant
                old(self).output@ + uleb(value as nat) == self.output@ + uleb(v as nat),
                self.max_remaining_depth == old(self).max_remaining_depth,
            decreases v,
        {
            let byte: u32 = (v % 0x80) + 0x80;
            self.output.push(byte as u8);
            proof {
                assert(uleb(v as nat) == seq![(0x80 + (v as nat % 0x80)) as u8] + uleb(
                    v as nat / 0x80,
                ));
                assert(old(self).output@ + uleb(value as nat) == self.output@ + uleb(
                    v as nat / 0x80,
                ));
            }
            v = v / 0x80;
        }
        self.output.push(v as u8);
        proof {
            assert(uleb(v as nat) == seq![v as u8]);
            assert(self.output@ == old(self).output@ + uleb(value as nat));
        }
    }

    /// Appends an enum variant discriminant.
    pub fn output_variant_index(&mut self, v: u32)
        ensures
            final(self).output@ == old(self).output@ + uleb(v as nat),
            final(self).max_remaining_depth == old(self).max_remaining_depth,
    {
        self.output_u32_as_uleb128(v)
    }

    /// Appends a sequence-length prefix, refusing any length beyond
    /// `MAX_SEQUENCE_LENGTH`.
    pub fn output_seq_len(&mut self, len: usize) -> (r: Result<(), Error>)
        ensures
            if len > crate::MAX_SEQUENCE_LENGTH {
                r == Err::<(), Error>(Error::ExceededMaxLen(len)) && *final(self) == *old(self)
            } else {
                r is Ok && final(self).output@ == old(self).output@ + uleb(len as nat) && final(self).max_remaining_depth == old(self).max_remaining_depth
            },
    {
        if len > crate::MAX_SEQUENCE_LENGTH {
            return Err(Error::ExceededMaxLen(len));
        }
        self.output_u32_as_uleb128(len as u32);
        Ok(())
    }

    /// Spends one unit of depth budget, refusing when none is left.
    pub fn enter_named_container(&mut self) -> (r: Result<(), Error>)
        ensures
            if old(self).max_remaining_depth == 0 {
                r == Err::<(), Error>(Error::ExceededContainerDepthLimit) && *final(self) == *old(self)
            } else {
                r is Ok && final(self).output@ == old(self).output@ && final(self).max_remaining_depth == old(self).max_remaining_depth - 1
            },
    {
        if self.max_remaining_depth == 0 {
            return Err(Error::ExceededContainerDepthLimit);
        }
        self.max_remaining_depth = self.max_remaining_depth - 1;
        Ok(())
    }

    /// Gives back the unit of budget taken by `enter_named_container` once
    /// the container's frame is complete.
    fn leave_named_container(&mut self)
        requires
            old(self).max_remaining_depth < usize::MAX,
        ensures
            final(self).output@ == old(self).output@,
            final(self).max_remaining_depth == old(self).max_remaining_depth + 1,
    {
        self.max_remaining_depth = self.max_remaining_depth + 1;
    }

    /// Appends the `n` little-endian low bytes of `v`.
    fn output_le_bytes(&mut self, v: u128, n: usize)
        ensures
            final(self).output@ == old(self).output@ + le_bytes(v as nat, n as nat),
            final(self).max_remaining_depth == old(self).max_remaining_depth,
    {
        let mut x: u128 = v;
        let mut i: usize = 0;
        while i < n
            invariant
                i <= n,
                old(self).output@ + le_bytes(v as nat, n as nat) == self.output@ + le_bytes(
                    x as nat,
                    (n - i) as nat,
                ),
                self.max_remaining_depth == old(self).max_remaining_depth,
            decreases n - i,
        {
            self.output.push((x % 0x100) as u8);
            proof {
                assert(le_bytes(x as nat, (n - i) as nat) == seq![(x as nat % 0x100) as u8]
                    + le_bytes(x as nat / 0x100, (n - i - 1) as nat));
            }
            x = x / 0x100;
            i = i + 1;
        }
        proof {
            assert(le_bytes(x as nat, 0) == Seq::<u8>::empty());
            assert(self.output@ == old(self).output@ + le_bytes(v as nat, n as nat));
        }
    }

    /// `false → 0x00`, `true → 0x01`.
    pub fn serialize_bool(&mut self, v: bool)
        ensures
            final(self).output@ == old(self).output@ + (if v {
                seq![1u8]
            } else {
                seq![0u8]
            }),
            final(self).max_remaining_depth == old(self).max_remaining_depth,
    {
        self.serialize_u8(if v { 1 } else { 0 });
    }

    /// One raw byte.
    pub fn serialize_u8(&mut self, v: u8)
        ensures
            final(self).output@ == old(self).output@ + seq![v],
            final(self).max_remaining_depth == old(self).max_remaining_depth,
    {
        self.output.push(v);
    }

    /// Two little-endian bytes.
    pub fn serialize_u16(&mut self, v: u16)
        ensures
            final(self).output@ == old(self).output@ + le_bytes(v as nat, 2),
            final(self).max_remaining_depth == old(self).max_remaining_depth,
    {
        self.output_le_bytes(v as u128, 2);
    }

    /// Four little-endian bytes.
    pub fn serialize_u32(&mut self, v: u32)
        ensures
            final(self).output@ == old(self).output@ + le_bytes(v as nat, 4),
            final(self).max_remaining_depth == old(self).max_remaining_depth,
    {
        self.output_le_bytes(v as u128, 4);
    }

    /// Eight little-endian bytes.
    pub fn serialize_u64(&mut self, v: u64)
        ensures
            final(self).output@ == old(self).output@ + le_bytes(v as nat, 8),
            final(self).max_remaining_depth == old(self).max_remaining_depth,
    {
        self.output_le_bytes(v as u128, 8);
    }

    /// Sixteen little-endian bytes.
    pub fn serialize_u128(&mut self, v: u128)
        ensures
            final(self).output@ == old(self).output@ + le_bytes(v as nat, 16),
            final(self).max_remaining_depth == old(self).max_remaining_depth,
    {
        self.output_le_bytes(v, 16);
    }

    /// Signed integers carry the two's-complement bytes of their width.
    pub fn serialize_i8(&mut self, v: i8)
        ensures
            final(self).output@ == old(self).output@ + seq![v as u8],
            final(self).max_remaining_depth == old(self).max_remaining_depth,
    {
        self.serialize_u8(v as u8);
    }

    pub fn serialize_i16(&mut self, v: i16)
        ensures
            final(self).output@ == old(self).output@ + le_bytes((v as u16) as nat, 2),
            final(self).max_remaining_depth == old(self).max_remaining_depth,
    {
        self.serialize_u16(v as u16);
    }

    pub fn serialize_i32(&mut self, v: i32)
        ensures
            final(self).output@ == old(self).output@ + le_bytes((v as u32) as nat, 4),
            final(self).max_remaining_depth == old(self).max_remaining_depth,
    {
        self.serialize_u32(v as u32);
    }

    pub fn serialize_i64(&mut self, v: i64)
        ensures
            final(self).output@ == old(self).output@ + le_bytes((v as u64) as nat, 8),
            final(self).max_remaining_depth == old(self).max_remaining_depth,
    {
        self.serialize_u64(v as u64);
    }

    pub fn serialize_i128(&mut self, v: i128)
        ensures
            final(self).output@ == old(self).output@ + le_bytes((v as u128) as nat, 16),
            final(self).max_remaining_depth == old(self).max_remaining_depth,
    {
        self.serialize_u128(v as u128);
    }

    /// A byte string: its length prefix, then its raw bytes unchanged.
    pub fn serialize_bytes(&mut self, v: &Vec<u8>) -> (r: Result<(), Error>)
        ensures
            if v@.len() > crate::MAX_SEQUENCE_LENGTH {
                r == Err::<(), Error>(Error::ExceededMaxLen(v@.len() as usize)) && *final(self)
                    == *old(self)
            } else {
                r is Ok && final(self).output@ == old(self).output@ + uleb(v@.len()) + v@ && final(self).max_remaining_depth == old(self).max_remaining_depth
            },
    {
        let r = self.output_seq_len(v.len());
        match r {
            Err(e) => Err(e),
            Ok(()) => {
                let ghost mid = self.output@;
                let mut i: usize = 0;
                while i < v.len()
                    invariant
                        i <= v@.len(),
                        self.output@ == mid + v@.take(i as int),
                        self.max_remaining_depth == old(self).max_remaining_depth,
                    decreases v@.len() - i,
                {
                    self.output.push(v[i]);
                    proof {
                        assert(v@.take(i + 1) == v@.take(i as int) + seq![v@[i as int]]);
                    }
                    i = i + 1;
                }
                proof {
                    assert(v@.take(v@.len() as int) == v@);
                }
                Ok(())
            },
        }
    }

    /// Encodes one value at the current depth, appending its bytes. On an
    /// error, bytes already emitted stay in the buffer.
    pub fn serialize_value(&mut self, v: &Value) -> (r: Result<(), Error>)
        ensures
            (match spec_encode(*v, old(self).max_remaining_depth as nat) {
                Ok(bytes) => r is Ok && final(self).output@ == old(self).output@ + bytes && final(self).max_remaining_depth == old(self).max_remaining_depth,
                Err(e) => r == Err::<(), Error>(e) && old(self).output@.is_prefix_of(
                    final(self).output@,
                ),
            }),
        decreases v, 0int,
    {
        let ghost d = self.max_remaining_depth as nat;
        match v {
            Value::Bool(b) => {
                self.serialize_bool(*b);
                Ok(())
            },
            Value::U8(x) => {
                self.serialize_u8(*x);
                Ok(())
            },
            Value::U16(x) => {
                self.serialize_u16(*x);
                Ok(())
            },
            Value::U32(x) => {
                self.serialize_u32(*x);
                Ok(())
            },
            Value::U64(x) => {
                self.serialize_u64(*x);
                Ok(())
            },
            Value::U128(x) => {
                self.serialize_u128(*x);
                Ok(())
            },
            Value::I8(x) => {
                self.serialize_i8(*x);
                Ok(())
            },
            Value::I16(x) => {
                self.serialize_i16(*x);
                Ok(())
            },
            Value::I32(x) => {
                self.serialize_i32(*x);
                Ok(())
            },
            Value::I64(x) => {
                self.serialize_i64(*x);
                Ok(())
            },
            Value::I128(x) => {
                self.serialize_i128(*x);
                Ok(())
            },
            Value::Float => {
                proof {
                    lemma_prefix_refl(self.output@);
                }
                Err(Error::NotSupported)
            },
            Value::Char(_) => {
                proof {
                    lemma_prefix_refl(self.output@);
                }
                Err(Error::NotSupported)
            },
            Value::Bytes(b) => {
                let r = self.serialize_bytes(b);
                proof {
                    if b@.len() <= crate::MAX_SEQUENCE_LENGTH {
                        assert((old(self).output@ + uleb(b@.len())) + b@ =~= old(self).output@ + (
                        uleb(b@.len()) + b@));
                    } else {
                        lemma_prefix_refl(self.output@);
                    }
                }
                r
            },
            Value::Optional(o) => match o {
                Option::None => {
                    self.serialize_u8(0);
                    Ok(())
                },
                Option::Some(inner) => {
                    self.serialize_u8(1);
                    let ghost mid = self.output@;
                    let r = self.serialize_value(&**inner);
                    proof {
                        match spec_encode(**inner, d) {
                            Ok(s) => {
                                assert((old(self).output@ + seq![1u8]) + s =~= old(self).output@
                                    + (seq![1u8] + s));
                            },
                            Err(_) => {
                                lemma_prefix_extend(old(self).output@, seq![1u8]);
                                lemma_prefix_trans(old(self).output@, mid, self.output@);
                            },
                        }
                    }
                    r
                },
            },
            Value::Unit => {
                proof {
                    assert(self.output@ =~= old(self).output@ + Seq::<u8>::empty());
                }
                Ok(())
            },
            Value::UnitStruct => {
                let r = self.enter_named_container();
                match r {
                    Err(e) => {
                        proof {
                            lemma_prefix_refl(self.output@);
                        }
                        Err(e)
                    },
                    Ok(()) => {
                        self.leave_named_container();
                        proof {
                            assert(self.output@ =~= old(self).output@ + Seq::<u8>::empty());
                        }
                        Ok(())
                    },
                }
            },
            Value::NewtypeStruct(inner) => {
                let r = self.enter_named_container();
                match r {
                    Err(e) => {
                        proof {
                            lemma_prefix_refl(self.output@);
                        }
                        Err(e)
                    },
                    Ok(()) => {
                        let r2 = self.serialize_value(&**inner);
                        match r2 {
                            Ok(()) => {
                                self.leave_named_container();
                                Ok(())
                            },
                            Err(e) => Err(e),
                        }
                    },
                }
            },
            Value::Sequence(elems) => {
                let r = self.output_seq_len(elems.len());
                match r {
                    Err(e) => {
                        proof {
                            lemma_prefix_refl(self.output@);
                        }
                        Err(e)
                    },
                    Ok(()) => {
                        let ghost mid = self.output@;
                        let r2 = self.serialize_elements(elems);
                        proof {
                            match encode_list(elems@, d) {
                                Ok(s) => {
                                    assert((old(self).output@ + uleb(elems@.len())) + s =~= old(self).output@ + (uleb(elems@.len()) + s));
                                },
                                Err(_) => {
                                    lemma_prefix_extend(old(self).output@, uleb(elems@.len()));
                                    lemma_prefix_trans(old(self).output@, mid, self.output@);
                                },
                            }
                        }
                        r2
                    },
                }
            },
            Value::Tuple(elems) => self.serialize_elements(elems),
            Value::TupleStruct(elems) => {
                let r = self.enter_named_container();
                match r {
                    Err(e) => {
                        proof {
                            lemma_prefix_refl(self.output@);
                        }
                        Err(e)
                    },
                    Ok(()) => {
                        let r2 = self.serialize_elements(elems);
                        match r2 {
                            Ok(()) => {
                                self.leave_named_container();
                                Ok(())
                            },
                            Err(e) => Err(e),
                        }
                    },
                }
            },
            Value::Struct(fields) => {
                let r = self.enter_named_container();
                match r {
                    Err(e) => {
                        proof {
                            lemma_prefix_refl(self.output@);
                        }
                        Err(e)
                    },
                    Ok(()) => {
                        let r2 = self.serialize_elements(fields);
                        match r2 {
                            Ok(()) => {
                                self.leave_named_container();
                                Ok(())
                            },
                            Err(e) => Err(e),
                        }
                    },
                }
            },
            Value::UnitVariant(idx) => {
                let r = self.enter_named_container();
                match r {
                    Err(e) => {
                        proof {
                            lemma_prefix_refl(self.output@);
                        }
                        Err(e)
                    },
                    Ok(()) => {
                        self.output_variant_index(*idx);
                        self.leave_named_container();
                        Ok(())
                    },
                }
            },
            Value::NewtypeVariant(idx, inner) => {
                let r = self.enter_named_container();
                match r {
                    Err(e) => {
                        proof {
                            lemma_prefix_refl(self.output@);
                        }
                        Err(e)
                    },
                    Ok(()) => {
                        self.output_variant_index(*idx);
                        let ghost mid = self.output@;
                        let r2 = self.serialize_value(&**inner);
                        proof {
                            match spec_encode(**inner, (d - 1) as nat) {
                                Ok(s) => {
                                    assert((old(self).output@ + uleb(*idx as nat)) + s =~= old(self).output@ + (uleb(*idx as nat) + s));
                                },
                                Err(_) => {
                                    lemma_prefix_extend(old(self).output@, uleb(*idx as nat));
                                    lemma_prefix_trans(old(self).output@, mid, self.output@);
                                },
                            }
                        }
                        match r2 {
                            Ok(()) => {
                                self.leave_named_container();
                                Ok(())
                            },
                            Err(e) => Err(e),
                        }
                    },
                }
            },
            Value::TupleVariant(idx, elems) => {
                let r = self.enter_named_container();
                match r {
                    Err(e) => {
                        proof {
                            lemma_prefix_refl(self.output@);
                        }
                        Err(e)
                    },
                    Ok(()) => {
                        self.output_variant_index(*idx);
                        let ghost mid = self.output@;
                        let r2 = self.serialize_elements(elems);
                        proof {
                            match encode_list(elems@, (d - 1) as nat) {
                                Ok(s) => {
                                    assert((old(self).output@ + uleb(*idx as nat)) + s =~= old(self).output@ + (uleb(*idx as nat) + s));
                                },
                                Err(_) => {
                                    lemma_prefix_extend(old(self).output@, uleb(*idx as nat));
                                    lemma_prefix_trans(old(self).output@, mid, self.output@);
                                },
                            }
                        }
                        match r2 {
                            Ok(()) => {
                                self.leave_named_container();
                                Ok(())
                            },
                            Err(e) => Err(e),
                        }
                    },
                }
            },
            Value::StructVariant(idx, fields) => {
                let r = self.enter_named_container();
                match r {
                    Err(e) => {
                        proof {
                            lemma_prefix_refl(self.output@);
                        }
                        Err(e)
                    },
                    Ok(()) => {
                        self.output_variant_index(*idx);
                        let ghost mid = self.output@;
                        let r2 = self.serialize_elements(fields);
                        proof {
                            match encode_list(fields@, (d - 1) as nat) {
                                Ok(s) => {
                                    assert((old(self).output@ + uleb(*idx as nat)) + s =~= old(self).output@ + (uleb(*idx as nat) + s));
                                },
                                Err(_) => {
                                    lemma_prefix_extend(old(self).output@, uleb(*idx as nat));
                                    lemma_prefix_trans(old(self).output@, mid, self.output@);
                                },
                            }
                        }
                        match r2 {
                            Ok(()) => {
                                self.leave_named_container();
                                Ok(())
                            },
                            Err(e) => Err(e),
                        }
                    },
                }
            },
            Value::Mapping(entries) => {
                let sub = Serializer::new(Vec::new(), self.max_remaining_depth);
                let mut ms = MapSerializer::new(sub);
                let mut i: usize = 0;
                while i < entries.len()
                    invariant
                        *v == Value::Mapping(*entries),
                        i <= entries@.len(),
                        self.output@ == old(self).output@,
                        self.max_remaining_depth == old(self).max_remaining_depth,
                        d == old(self).max_remaining_depth as nat,
                        ms.serializer.output@ == Seq::<u8>::empty(),
                        ms.serializer.max_remaining_depth == old(self).max_remaining_depth,
                        ms.next_key is None,
                        encode_entries(entries@.take(i as int), d) == Ok::<_, Error>(
                            ms.entries_view(),
                        ),
                    decreases entries@.len() - i,
                {
                    proof {
                        assert(decreases_to!(*v => v->Mapping_0));
                        assert(decreases_to!(*entries => entries@));
                        assert(decreases_to!(entries@ => entries@[i as int]));
                        assert(decreases_to!(entries@[i as int] => entries@[i as int].0));
                        assert(decreases_to!(entries@[i as int] => entries@[i as int].1));
                    }
                    let rk = ms.serialize_key(&entries[i].0);
                    proof {
                        lemma_encode_entries_snoc(entries@, d, i as int);
                    }
                    match rk {
                        Err(e) => {
                            proof {
                                lemma_encode_entries_prefix_err(entries@, d, i as int + 1);
                                lemma_prefix_refl(self.output@);
                            }
                            return Err(e);
                        },
                        Ok(()) => {},
                    }
                    let rv = ms.serialize_value(&entries[i].1);
                    match rv {
                        Err(e) => {
                            proof {
                                lemma_encode_entries_prefix_err(entries@, d, i as int + 1);
                                lemma_prefix_refl(self.output@);
                            }
                            return Err(e);
                        },
                        Ok(()) => {},
                    }
                    i = i + 1;
                }
                proof {
                    assert(entries@.take(entries@.len() as int) =~= entries@);
                }
                let re = ms.end();
                match re {
                    Err(e) => {
                        proof {
                            lemma_prefix_refl(self.output@);
                        }
                        Err(e)
                    },
                    Ok(done) => {
                        let mut done = done;
                        self.output.append(&mut done.output);
                        proof {
                            let canon = canonical(
                                match encode_entries(entries@, d) {
                                    Ok(encs) => encs,
                                    Err(_) => Seq::empty(),
                                },
                            );
                            assert(Seq::<u8>::empty() + uleb(canon.len()) + concat_entries(canon)
                                =~= uleb(canon.len()) + concat_entries(canon));
                        }
                        Ok(())
                    },
                }
            },
        }
    }

    /// Encodes each element of `elems` in order at the current depth.
    fn serialize_elements(&mut self, elems: &Vec<Value>) -> (r: Result<(), Error>)
        ensures
            (match encode_list(elems@, old(self).max_remaining_depth as nat) {
                Ok(bytes) => r is Ok && final(self).output@ == old(self).output@ + bytes && final(self).max_remaining_depth == old(self).max_remaining_depth,
                Err(e) => r == Err::<(), Error>(e) && old(self).output@.is_prefix_of(
                    final(self).output@,
                ),
            }),
        decreases elems@, 1int,
    {
        let ghost d = self.max_remaining_depth as nat;
        let ghost base = self.output@;
        proof {
            assert(elems@.take(0) =~= Seq::<Value>::empty());
            assert(base + Seq::<u8>::empty() =~= base);
        }
        let mut i: usize = 0;
        while i < elems.len()
            invariant
                i <= elems@.len(),
                self.max_remaining_depth == old(self).max_remaining_depth,
                d == old(self).max_remaining_depth as nat,
                base == old(self).output@,
                encode_list(elems@.take(i as int), d) matches Ok(pre) && self.output@ == base
                    + pre,
            decreases elems@.len() - i,
        {
            let ghost mid = self.output@;
            let r = self.serialize_value(&elems[i]);
            proof {
                lemma_encode_list_snoc(elems@, d, i as int);
            }
            match r {
                Err(e) => {
                    proof {
                        lemma_encode_list_prefix_err(elems@, d, i as int + 1);
                        if let Ok(pre) = encode_list(elems@.take(i as int), d) {
                            lemma_prefix_extend(base, pre);
                            lemma_prefix_trans(base, mid, self.output@);
                        }
                    }
                    return Err(e);
                },
                Ok(()) => {
                    proof {
                        if let Ok(pre) = encode_list(elems@.take(i as int), d) {
                            if let Ok(b) = spec_encode(elems@[i as int], d) {
                                assert((base + pre) + b =~= base + (pre + b));
                            }
                        }
                    }
                },
            }
            i = i + 1;
        }
        proof {
            assert(elems@.take(elems@.len() as int) =~= elems@);
        }
        Ok(())
    }
}

/// Encodes `value` with the default depth limit, appending the bytes to
/// `output`. On an error, bytes already produced stay appended; they are not
/// rolled back.
pub fn serialize_into(output: &mut Vec<u8>, value: &Value) -> (r: Result<(), Error>)
    ensures
        (match spec_encode(*value, crate::MAX_CONTAINER_DEPTH as nat) {
            Ok(bytes) => r is Ok && final(output)@ == old(output)@ + bytes,
            Err(e) => r == Err::<(), Error>(e) && old(output)@.is_prefix_of(final(output)@),
        }),
{
    serialize_into_with_depth(output, value, crate::MAX_CONTAINER_DEPTH)
}

/// Same as `serialize_into` with `limit` as the depth budget; a limit above
/// the default is refused.
pub fn serialize_into_with_limit(output: &mut Vec<u8>, value: &Value, limit: usize) -> (r: Result<
    (),
    Error,
>)
    ensures
        limit > crate::MAX_CONTAINER_DEPTH ==> r == Err::<(), Error>(Error::NotSupported) && final(output)@ == old(output)@,
        limit <= crate::MAX_CONTAINER_DEPTH ==> (match spec_encode(*value, limit as nat) {
            Ok(bytes) => r is Ok && final(output)@ == old(output)@ + bytes,
            Err(e) => r == Err::<(), Error>(e) && old(output)@.is_prefix_of(final(output)@),
        }),
{
    if limit > crate::MAX_CONTAINER_DEPTH {
        return Err(Error::NotSupported);
    }
    serialize_into_with_depth(output, value, limit)
}

/// Runs the serializer at the given depth budget and appends its bytes.
fn serialize_into_with_depth(output: &mut Vec<u8>, value: &Value, depth: usize) -> (r: Result<
    (),
    Error,
>)
    ensures
        (match spec_encode(*value, depth as nat) {
            Ok(bytes) => r is Ok && final(output)@ == old(output)@ + bytes,
            Err(e) => r == Err::<(), Error>(e) && old(output)@.is_prefix_of(final(output)@),
        }),
{
    let mut ser = Serializer::new(Vec::new(), depth);
    let r = ser.serialize_value(value);
    let mut bytes = ser.into_output();
    proof {
        match spec_encode(*value, depth as nat) {
            Ok(b) => {
                assert(Seq::<u8>::empty() + b =~= b);
            },
            Err(_) => {
                lemma_prefix_extend(old(output)@, bytes@);
            },
        }
    }
    output.append(&mut bytes);
    r
}

/// Encodes `value` as a fresh byte vector with the default depth limit.
pub fn to_bytes(value: &Value) -> (r: Result<Vec<u8>, Error>)
    ensures
        (match spec_encode(*value, crate::MAX_CONTAINER_DEPTH as nat) {
            Ok(bytes) => r matches Ok(out) && out@ == bytes,
            Err(e) => r == Err::<Vec<u8>, Error>(e),
        }),
{
    let mut output: Vec<u8> = Vec::new();
    let r = serialize_into(&mut output, value);
    match r {
        Ok(()) => Ok(output),
        Err(e) => Err(e),
    }
}

/// Same as `to_bytes` with `limit` as the depth budget; a limit above the
/// default is refused.
pub fn to_bytes_with_limit(value: &Value, limit: usize) -> (r: Result<Vec<u8>, Error>)
    ensures
        limit > crate::MAX_CONTAINER_DEPTH ==> r == Err::<Vec<u8>, Error>(Error::NotSupported),
        limit <= crate::MAX_CONTAINER_DEPTH ==> (match spec_encode(*value, limit as nat) {
            Ok(bytes) => r matches Ok(out) && out@ == bytes,
            Err(e) => r == Err::<Vec<u8>, Error>(e),
        }),
{
    if limit > crate::MAX_CONTAINER_DEPTH {
        return Err(Error::NotSupported);
    }
    let mut output: Vec<u8> = Vec::new();
    let r = serialize_into_with_limit(&mut output, value, limit);
    match r {
        Ok(()) => Ok(output),
        Err(e) => Err(e),
    }
}

/// The number of bytes `to_bytes` would produce for `value`, or the error it
/// would report.
pub fn serialized_size(value: &Value) -> (r: Result<usize, Error>)
    ensures
        (match spec_encode(*value, crate::MAX_CONTAINER_DEPTH as nat) {
            Ok(bytes) => r matches Ok(n) && n == bytes.len(),
            Err(e) => r == Err::<usize, Error>(e),
        }),
{
    let r = to_bytes(value);
    match r {
        Ok(out) => Ok(out.len()),
        Err(e) => Err(e),
    }
}

/// Same as `serialized_size` with `limit` as the depth budget; a limit above
/// the default is refused.
pub fn serialized_size_with_limit(value: &Value, limit: usize) -> (r: Result<usize, Error>)
    ensures
        limit > crate::MAX_CONTAINER_DEPTH ==> r == Err::<usize, Error>(Error::NotSupported),
        limit <= crate::MAX_CONTAINER_DEPTH ==> (match spec_encode(*value, limit as nat) {
            Ok(bytes) => r matches Ok(n) && n == bytes.len(),
            Err(e) => r == Err::<usize, Error>(e),
        }),
{
    let r = to_bytes_with_limit(value, limit);
    match r {
        Ok(out) => Ok(out.len()),
        Err(e) => Err(e),
    }
}

/// BCS is not a human-readable format; the reflection layer may ask.
pub fn is_human_readable() -> (r: bool)
    ensures
        !r,
{
    false
}

/// The value bytes of a pending map key, when one is pending.
pub open spec fn key_view(o: Option<Vec<u8>>) -> Seq<u8> {
    match o {
        Option::Some(v) => v@,
        Option::None => Seq::empty(),
    }
}

/// Canonicalizes one associative container: buffers each serialized key and
/// value, then emits the entries sorted by key bytes with duplicates dropped.
pub struct MapSerializer {
    pub serializer: Serializer,
    pub entries: Vec<(Vec<u8>, Vec<u8>)>,
    pub next_key: Option<Vec<u8>>,
}

impl MapSerializer {
    /// The serialized entries buffered so far, as byte sequences.
    pub open spec fn entries_view(&self) -> Seq<EntryBytes> {
        crate::canon::pairs_view(self.entries@)
    }

    /// A canonicalizer that will emit through `serializer`.
    pub fn new(serializer: Serializer) -> (r: MapSerializer)
        ensures
            r.serializer == serializer,
            r.entries_view() == Seq::<EntryBytes>::empty(),
            r.next_key is None,
    {
        let r = MapSerializer { serializer, entries: Vec::new(), next_key: None };
        proof {
            assert(r.entries_view() =~= Seq::<EntryBytes>::empty());
        }
        r
    }

    /// Serializes one key into scratch and holds it until its value arrives.
    pub fn serialize_key(&mut self, k: &Value) -> (r: Result<(), Error>)
        ensures
            final(self).serializer.output@ == old(self).serializer.output@,
            final(self).serializer.max_remaining_depth == old(self).serializer.max_remaining_depth,
            final(self).entries_view() == old(self).entries_view(),
            (match old(self).next_key {
                Option::Some(_) => r == Err::<(), Error>(Error::ExpectedMapValue) && final(self).next_key == old(self).next_key,
                Option::None => match spec_encode(
                    *k,
                    old(self).serializer.max_remaining_depth as nat,
                ) {
                    Ok(b) => r is Ok && final(self).next_key is Some && key_view(
                        final(self).next_key,
                    ) == b,
                    Err(e) => r == Err::<(), Error>(e) && final(self).next_key is None,
                },
            }),
        decreases k, 1int,
    {
        if self.next_key.is_some() {
            return Err(Error::ExpectedMapValue);
        }
        let mut sub = Serializer::new(Vec::new(), self.serializer.max_remaining_depth);
        let r = sub.serialize_value(k);
        match r {
            Ok(()) => {
                proof {
                    if let Ok(b) = spec_encode(*k, self.serializer.max_remaining_depth as nat) {
                        assert(Seq::<u8>::empty() + b =~= b);
                    }
                }
                self.next_key = Some(sub.into_output());
                Ok(())
            },
            Err(e) => Err(e),
        }
    }

    /// Serializes the value for the pending key and buffers the pair.
    pub fn serialize_value(&mut self, v: &Value) -> (r: Result<(), Error>)
        ensures
            final(self).serializer.output@ == old(self).serializer.output@,
            final(self).serializer.max_remaining_depth == old(self).serializer.max_remaining_depth,
            (match old(self).next_key {
                Option::None => r == Err::<(), Error>(Error::ExpectedMapKey) && final(self).next_key is None && final(self).entries_view() == old(self).entries_view(),
                Option::Some(kb) => final(self).next_key is None && match spec_encode(
                    *v,
                    old(self).serializer.max_remaining_depth as nat,
                ) {
                    Ok(b) => r is Ok && final(self).entries_view() == old(self).entries_view()
                        + seq![(kb@, b)],
                    Err(e) => r == Err::<(), Error>(e) && final(self).entries_view() == old(self).entries_view(),
                },
            }),
        decreases v, 1int,
    {
        let nk = self.next_key.take();
        match nk {
            Option::None => Err(Error::ExpectedMapKey),
            Option::Some(key) => {
                let mut sub = Serializer::new(Vec::new(), self.serializer.max_remaining_depth);
                let r = sub.serialize_value(v);
                match r {
                    Ok(()) => {
                        proof {
                            if let Ok(b) = spec_encode(
                                *v,
                                self.serializer.max_remaining_depth as nat,
                            ) {
                                assert(Seq::<u8>::empty() + b =~= b);
                            }
                        }
                        let ghost before = self.entries_view();
                        let ghost kv = key@;
                        self.entries.push((key, sub.into_output()));
                        proof {
                            if let Ok(b) = spec_encode(
                                *v,
                                self.serializer.max_remaining_depth as nat,
                            ) {
                                assert(self.entries_view() =~= before + seq![(kv, b)]);
                            }
                        }
                        Ok(())
                    },
                    Err(e) => Err(e),
                }
            },
        }
    }

    /// Sorts the buffered entries by key bytes, drops later duplicates, and
    /// emits the length prefix and the entries to the output.
    pub fn end(self) -> (r: Result<Serializer, Error>)
        ensures
            (match self.next_key {
                Option::Some(_) => r == Err::<Serializer, Error>(Error::ExpectedMapValue),
                Option::None => {
                    let canon = canonical(self.entries_view());
                    if canon.len() > crate::MAX_SEQUENCE_LENGTH {
                        r == Err::<Serializer, Error>(Error::ExceededMaxLen(canon.len() as usize))
                    } else {
                        r matches Ok(s2) && s2.output@ == self.serializer.output@ + uleb(
                            canon.len(),
                        ) + concat_entries(canon) && s2.max_remaining_depth
                            == self.serializer.max_remaining_depth
                    }
                },
            }),
    {
        let MapSerializer { serializer: mut out_ser, entries: mut entries, next_key } = self;
        if next_key.is_some() {
            return Err(Error::ExpectedMapValue);
        }
        let ghost presented = crate::canon::pairs_view(entries@);
        let ghost canon = canonical(presented);
        let mut sorted: Vec<(Vec<u8>, Vec<u8>)> = Vec::new();
        let ghost mut i: int = 0;
        proof {
            assert(presented.take(0) =~= Seq::<EntryBytes>::empty());
            assert(crate::canon::pairs_view(sorted@) =~= Seq::<EntryBytes>::empty());
        }
        while entries.len() > 0
            invariant
                0 <= i <= presented.len(),
                entries@.len() == presented.len() - i,
                forall|m: int|
                    0 <= m < entries@.len() ==> (
                    #[trigger] entries@[m].0@,
                    entries@[m].1@,
                    ) == presented[i + m],
                crate::canon::pairs_view(sorted@) == canonical(presented.take(i)),
            decreases entries@.len(),
        {
            let kv = entries.remove(0);
            proof {
                assert((kv.0@, kv.1@) == presented[i]);
                lemma_canonical_snoc(presented, i);
            }
            crate::canon::insert_canonical(&mut sorted, kv.0, kv.1);
            proof {
                i = i + 1;
            }
        }
        proof {
            assert(presented.take(presented.len() as int) =~= presented);
            assert(crate::canon::pairs_view(sorted@).len() == sorted@.len());
        }
        let r = out_ser.output_seq_len(sorted.len());
        match r {
            Err(e) => {
                return Err(e);
            },
            Ok(()) => {},
        }
        let ghost base = out_ser.output@;
        let ghost mut j: int = 0;
        proof {
            assert(canon.take(0) =~= Seq::<EntryBytes>::empty());
            assert(base + Seq::<u8>::empty() =~= base);
        }
        while sorted.len() > 0
            invariant
                0 <= j <= canon.len(),
                sorted@.len() == canon.len() - j,
                forall|m: int|
                    0 <= m < sorted@.len() ==> (
                    #[trigger] sorted@[m].0@,
                    sorted@[m].1@,
                    ) == canon[j + m],
                out_ser.output@ == base + concat_entries(canon.take(j)),
                out_ser.max_remaining_depth == self.serializer.max_remaining_depth,
            decreases sorted@.len(),
        {
            let mut kv = sorted.remove(0);
            proof {
                assert((kv.0@, kv.1@) == canon[j]);
                lemma_concat_entries_snoc(canon, j);
            }
            out_ser.output.append(&mut kv.0);
            out_ser.output.append(&mut kv.1);
            proof {
                assert((base + concat_entries(canon.take(j)) + canon[j].0) + canon[j].1 =~= base
                    + (concat_entries(canon.take(j)) + canon[j].0 + canon[j].1));
                j = j + 1;
            }
        }
        proof {
            assert(canon.take(canon.len() as int) =~= canon);
            assert(base + concat_entries(canon) =~= self.serializer.output@ + uleb(canon.len())
                + concat_entries(canon));
        }
        Ok(out_ser)
    }
}

} // verus!
