//! The format's global guarantees, stated over the encoding spec and proved
//! once and for all: determinism, ULEB128 minimality and round-trip, depth
//! and length enforcement, refusal of uncanonical primitives, and map
//! canonicality.
use vstd::prelude::*;

use vstd::multiset::Multiset;

use crate::error::Error;
use crate::format::{canonical, insert_entry, le_bytes, lex_less, uleb, EntryBytes};
use crate::value::{encode_entries, spec_encode, Value};

verus! {

/// Determinism: the encoding is a pure function of the value and the depth
/// budget, so equal values yield byte-identical encodings on every run.
pub proof fn lemma_encode_deterministic(v1: Value, v2: Value, depth: nat)
    requires
        v1 == v2,
    ensures
        spec_encode(v1, depth) == spec_encode(v2, depth),
{
}

/// What a ULEB128 decoder accepts: `Some(v)` exactly on a complete, minimal
/// encoding of `v`, and `None` on everything else — in particular on any
/// padded form whose last byte is `0x00`.
pub open spec fn uleb_decode(s: Seq<u8>) -> Option<nat>
    decreases s.len(),
{
    if s.len() == 0 {
        None
    } else if s[0] < 0x80 {
        if s.len() == 1 {
            Some(s[0] as nat)
        } else {
            None
        }
    } else {
        match uleb_decode(s.drop_first()) {
            Some(rest) => if rest == 0 {
                None
            } else {
                Some(((s[0] - 0x80) + 0x80 * rest) as nat)
            },
            None => None,
        }
    }
}

/// Round-trip for variable-length integers: decoding an encoding gives the
/// value back.
pub proof fn lemma_uleb_roundtrip(v: nat)
    ensures
        uleb_decode(uleb(v)) == Some(v),
    decreases v,
{
    if v < 0x80 {
    } else {
        let rest = v / 0x80;
        lemma_uleb_roundtrip(rest);
        assert(uleb(v) == seq![(0x80 + (v % 0x80)) as u8] + uleb(rest));
        assert(uleb(v).drop_first() =~= uleb(rest));
        vstd::arithmetic::div_mod::lemma_fundamental_div_mod(v as int, 0x80);
    }
}

/// Minimality: the decoder accepts only the encoder's own output, so any
/// non-minimal re-encoding of a length or variant index is rejected.
pub proof fn lemma_uleb_minimality(s: Seq<u8>, v: nat)
    requires
        uleb_decode(s) == Some(v),
    ensures
        s == uleb(v),
    decreases s.len(),
{
    if s[0] < 0x80 {
        assert(s =~= uleb(v));
    } else {
        let rest = uleb_decode(s.drop_first())->Some_0;
        lemma_uleb_minimality(s.drop_first(), rest);
        vstd::arithmetic::div_mod::lemma_fundamental_div_mod_converse(
            v as int,
            0x80,
            rest as int,
            (s[0] - 0x80) as int,
        );
        assert(v % 0x80 == s[0] - 0x80);
        assert(v / 0x80 == rest);
        assert(v >= 0x80) by {
            assert(rest >= 1);
            assert(0x80 * rest >= 0x80) by (nonlinear_arith)
                requires
                    rest >= 1,
            ;
        }
        assert(uleb(v) == seq![(0x80 + (v % 0x80)) as u8] + uleb(v / 0x80));
        assert(s =~= seq![s[0]] + s.drop_first());
    }
}

/// The value carried by `s` read as base-256 little-endian digits: what a
/// decoder of fixed-width integers computes from the bytes.
pub open spec fn le_value(s: Seq<u8>) -> nat
    decreases s.len(),
{
    if s.len() == 0 {
        0
    } else {
        (s[0] + 0x100 * le_value(s.drop_first())) as nat
    }
}

/// Round-trip for fixed-width integers: the `n` little-endian bytes of any
/// value that fits in `n` bytes read back as that value.
pub proof fn lemma_le_bytes_roundtrip(v: nat, n: nat)
    requires
        (v as int) < vstd::arithmetic::power::pow(0x100, n),
    ensures
        le_value(le_bytes(v, n)) == v,
    decreases n,
{
    reveal(vstd::arithmetic::power::pow);
    if n == 0 {
        assert(vstd::arithmetic::power::pow(0x100, 0) == 1);
    } else {
        let p = vstd::arithmetic::power::pow(0x100, (n - 1) as nat);
        assert(vstd::arithmetic::power::pow(0x100, n) == 0x100 * p);
        vstd::arithmetic::div_mod::lemma_fundamental_div_mod(v as int, 0x100);
        assert(((v / 0x100) as int) < p) by (nonlinear_arith)
            requires
                v as int == 0x100 * ((v / 0x100) as int) + (v as int) % 0x100,
                0 <= (v as int) % 0x100,
                (v as int) < 0x100 * p,
        ;
        lemma_le_bytes_roundtrip(v / 0x100, (n - 1) as nat);
        assert(le_bytes(v, n).drop_first() =~= le_bytes(v / 0x100, (n - 1) as nat));
    }
}

/// What a ULEB128 decoder reading from a longer stream accepts: the value
/// and how many bytes it consumed, or nothing on a truncated or non-minimal
/// prefix.
pub open spec fn uleb_parse(s: Seq<u8>) -> Option<(nat, nat)>
    decreases s.len(),
{
    if s.len() == 0 {
        None
    } else if s[0] < 0x80 {
        Some((s[0] as nat, 1))
    } else {
        match uleb_parse(s.drop_first()) {
            Some((rest, used)) => if rest == 0 {
                None
            } else {
                Some(((((s[0] - 0x80) + 0x80 * rest)) as nat, used + 1))
            },
            None => None,
        }
    }
}

/// ULEB128 encodings are prefix-free in a stream: whatever follows one, the
/// parser recovers exactly the value and stops exactly at its end.
pub proof fn lemma_uleb_parse_prefix(v: nat, tail: Seq<u8>)
    ensures
        uleb_parse(uleb(v) + tail) == Some((v, uleb(v).len())),
    decreases v,
{
    if v < 0x80 {
        assert((uleb(v) + tail)[0] == v as u8);
    } else {
        lemma_uleb_parse_prefix(v / 0x80, tail);
        assert(uleb(v) == seq![(0x80 + (v % 0x80)) as u8] + uleb(v / 0x80));
        assert((uleb(v) + tail).drop_first() =~= uleb(v / 0x80) + tail);
        vstd::arithmetic::div_mod::lemma_fundamental_div_mod(v as int, 0x80);
    }
}

/// What a byte-string decoder accepts: a parsed length prefix followed by
/// exactly that many raw bytes.
pub open spec fn bytes_decode(s: Seq<u8>) -> Option<Seq<u8>> {
    match uleb_parse(s) {
        Some((n, used)) => if used <= s.len() && s.len() - used == n {
            Some(s.skip(used as int))
        } else {
            None
        },
        None => None,
    }
}

/// Round-trip for byte strings and text strings: decoding an encoded byte
/// string gives the raw bytes back.
pub proof fn lemma_byte_string_roundtrip(b: Vec<u8>, depth: nat)
    requires
        b@.len() <= crate::MAX_SEQUENCE_LENGTH,
    ensures
        spec_encode(Value::Bytes(b), depth) matches Ok(s) && bytes_decode(s) == Some(b@),
{
    lemma_uleb_parse_prefix(b@.len(), b@);
    assert((uleb(b@.len()) + b@).skip(uleb(b@.len()).len() as int) =~= b@);
}

/// A linear chain of `k` named single-field wrappers around a unit value.
pub open spec fn is_wrapper_chain(v: Value, k: nat) -> bool
    decreases k,
{
    if k == 0 {
        v == Value::Unit
    } else {
        match v {
            Value::NewtypeStruct(inner) => is_wrapper_chain(*inner, (k - 1) as nat),
            _ => false,
        }
    }
}

/// Depth enforcement: a chain of `k` named wrappers encodes — to no bytes —
/// exactly when `k` is within the budget, and exhausts it otherwise.
pub proof fn lemma_depth_enforcement(v: Value, k: nat, limit: nat)
    requires
        is_wrapper_chain(v, k),
    ensures
        k <= limit ==> spec_encode(v, limit) == Ok::<Seq<u8>, Error>(Seq::empty()),
        k > limit ==> spec_encode(v, limit) == Err::<Seq<u8>, Error>(
            Error::ExceededContainerDepthLimit,
        ),
    decreases k,
{
    if k > 0 {
        match v {
            Value::NewtypeStruct(inner) => {
                if limit > 0 {
                    lemma_depth_enforcement(*inner, (k - 1) as nat, (limit - 1) as nat);
                }
            },
            _ => {},
        }
    }
}

/// Length enforcement: a sequence longer than `MAX_SEQUENCE_LENGTH` fails
/// with `ExceededMaxLen` carrying the offending length, whatever its
/// elements.
pub proof fn lemma_length_enforcement(elems: Vec<Value>, depth: nat)
    requires
        elems@.len() > crate::MAX_SEQUENCE_LENGTH,
    ensures
        spec_encode(Value::Sequence(elems), depth) == Err::<Seq<u8>, Error>(
            Error::ExceededMaxLen(elems@.len() as usize),
        ),
{
}

/// Refusal completeness: a floating-point value of any width, and a single
/// code point, always fail with `NotSupported`, at every depth.
pub proof fn lemma_refusal_completeness(c: char, depth: nat)
    ensures
        spec_encode(Value::Float, depth) == Err::<Seq<u8>, Error>(Error::NotSupported),
        spec_encode(Value::Char(c), depth) == Err::<Seq<u8>, Error>(Error::NotSupported),
{
}

/// No two serialized entries share key bytes.
pub open spec fn distinct_keys(s: Seq<EntryBytes>) -> bool {
    forall|i: int, j: int| 0 <= i < j < s.len() ==> s[i].0 != s[j].0
}

/// Adjacent entries stand in strictly ascending key order.
pub open spec fn sorted_entries(s: Seq<EntryBytes>) -> bool {
    forall|i: int| 0 <= i < s.len() - 1 ==> #[trigger] lex_less(s[i].0, s[i + 1].0)
}

/// Some entry of `s` carries key bytes `k`.
pub open spec fn key_in(s: Seq<EntryBytes>, k: Seq<u8>) -> bool {
    exists|i: int| 0 <= i < s.len() && s[i].0 == k
}

/// Strict adjacent order extends to any two positions.
proof fn lemma_sorted_pairwise(s: Seq<EntryBytes>, i: int, j: int)
    requires
        sorted_entries(s),
        0 <= i < j < s.len(),
    ensures
        lex_less(s[i].0, s[j].0),
    decreases j - i,
{
    let m = j - 1;
    assert(lex_less(s[m].0, s[m + 1].0));
    if j > i + 1 {
        lemma_sorted_pairwise(s, i, j - 1);
        crate::canon::lemma_lex_trans(s[i].0, s[j - 1].0, s[j].0);
    }
}

/// An empty sequence carries the empty multiset.
proof fn lemma_to_multiset_empty(s: Seq<EntryBytes>)
    requires
        s.len() == 0,
    ensures
        s.to_multiset() == Multiset::<EntryBytes>::empty(),
{
    broadcast use vstd::seq_lib::group_to_multiset_ensures;

    assert(s.to_multiset() =~= Multiset::<EntryBytes>::empty());
}

/// What one ordered insertion does: it keeps the list sorted; on a fresh key
/// it adds exactly the entry, on a present key it changes nothing; and the
/// head is the inserted entry or the old head.
proof fn lemma_insert_entry_props(e: EntryBytes, s: Seq<EntryBytes>)
    requires
        sorted_entries(s),
    ensures
        sorted_entries(insert_entry(e, s)),
        key_in(s, e.0) ==> insert_entry(e, s) == s,
        !key_in(s, e.0) ==> insert_entry(e, s).to_multiset() == s.to_multiset().insert(e),
        insert_entry(e, s).len() >= 1,
        insert_entry(e, s)[0] == e || (s.len() > 0 && insert_entry(e, s)[0] == s[0]),
    decreases s.len(),
{
    broadcast use vstd::seq_lib::group_to_multiset_ensures;

    if s.len() == 0 {
        assert(!key_in(s, e.0));
        assert(seq![e] =~= Seq::<EntryBytes>::empty().push(e));
        lemma_to_multiset_empty(s);
        assert(insert_entry(e, s).to_multiset() =~= s.to_multiset().insert(e));
    } else if e.0 == s[0].0 {
        assert(key_in(s, e.0));
    } else if lex_less(e.0, s[0].0) {
        let r = seq![e] + s;
        assert(!key_in(s, e.0)) by {
            if key_in(s, e.0) {
                let i = choose|i: int| 0 <= i < s.len() && s[i].0 == e.0;
                crate::canon::lemma_lex_total(e.0, s[0].0);
                if i > 0 {
                    lemma_sorted_pairwise(s, 0, i);
                    crate::canon::lemma_lex_trans(e.0, s[0].0, s[i].0);
                    crate::canon::lemma_lex_total(e.0, s[i].0);
                }
            }
        }
        assert(sorted_entries(r)) by {
            assert forall|i: int| 0 <= i < r.len() - 1 implies #[trigger] lex_less(
                r[i].0,
                r[i + 1].0,
            ) by {
                if i == 0 {
                } else {
                    let m = i - 1;
                    assert(r[i] == s[m]);
                    assert(r[i + 1] == s[m + 1]);
                    assert(lex_less(s[m].0, s[m + 1].0));
                }
            }
        }
        vstd::seq_lib::lemma_multiset_commutative(seq![e], s);
        assert(seq![e] =~= Seq::<EntryBytes>::empty().push(e));
        lemma_to_multiset_empty(Seq::<EntryBytes>::empty());
        assert(r.to_multiset() =~= s.to_multiset().insert(e));
    } else {
        crate::canon::lemma_lex_total(e.0, s[0].0);
        assert(lex_less(s[0].0, e.0));
        let s1 = s.drop_first();
        assert(sorted_entries(s1)) by {
            assert forall|i: int| 0 <= i < s1.len() - 1 implies #[trigger] lex_less(
                s1[i].0,
                s1[i + 1].0,
            ) by {
                let m = i + 1;
                assert(s1[i] == s[m]);
                assert(s1[i + 1] == s[m + 1]);
                assert(lex_less(s[m].0, s[m + 1].0));
            }
        }
        lemma_insert_entry_props(e, s1);
        let r1 = insert_entry(e, s1);
        let r = seq![s[0]] + r1;
        assert(insert_entry(e, s) == r);
        assert(key_in(s, e.0) == key_in(s1, e.0)) by {
            if key_in(s, e.0) {
                let i = choose|i: int| 0 <= i < s.len() && s[i].0 == e.0;
                assert(i > 0);
                assert(s1[i - 1].0 == e.0);
                assert(key_in(s1, e.0));
            }
            if key_in(s1, e.0) {
                let i = choose|i: int| 0 <= i < s1.len() && s1[i].0 == e.0;
                assert(s[i + 1].0 == e.0);
                assert(key_in(s, e.0));
            }
        }
        if key_in(s1, e.0) {
            assert(r1 == s1);
            assert(r =~= s);
        } else {
            vstd::seq_lib::lemma_multiset_commutative(seq![s[0]], r1);
            vstd::seq_lib::lemma_multiset_commutative(seq![s[0]], s1);
            assert(s =~= seq![s[0]] + s1);
            assert(r.to_multiset() =~= s.to_multiset().insert(e));
        }
        assert(lex_less(s[0].0, r1[0].0)) by {
            if r1[0] == e {
            } else {
                assert(r1[0] == s1[0]);
                assert(lex_less(s[0].0, s[1].0));
            }
        }
        assert(sorted_entries(r)) by {
            assert forall|i: int| 0 <= i < r.len() - 1 implies #[trigger] lex_less(
                r[i].0,
                r[i + 1].0,
            ) by {
                if i == 0 {
                    assert(r[0] == s[0]);
                    assert(r[1] == r1[0]);
                } else {
                    let m = i - 1;
                    assert(r[i] == r1[m]);
                    assert(r[i + 1] == r1[m + 1]);
                    assert(lex_less(r1[m].0, r1[m + 1].0));
                }
            }
        }
    }
}

/// The canonical-map invariant: whatever order — and whatever duplicates —
/// the caller presents, the emitted entry list is strictly ascending in the
/// lexicographic order of its encoded keys, so every key appears exactly
/// once.
pub proof fn lemma_canonical_sorted(s: Seq<EntryBytes>)
    ensures
        sorted_entries(canonical(s)),
    decreases s.len(),
{
    if s.len() > 0 {
        lemma_canonical_sorted(s.drop_last());
        lemma_insert_entry_props(s.last(), canonical(s.drop_last()));
    }
}

/// Strictly sorted entries never repeat a key.
pub proof fn lemma_sorted_distinct(s: Seq<EntryBytes>)
    requires
        sorted_entries(s),
    ensures
        distinct_keys(s),
{
    assert forall|i: int, j: int| 0 <= i < j < s.len() implies s[i].0 != s[j].0 by {
        lemma_sorted_pairwise(s, i, j);
        crate::canon::lemma_lex_total(s[i].0, s[j].0);
    }
}

/// Canonicalization sorts the presented entries and, when no key repeats,
/// keeps exactly the presented multiset of entries.
proof fn lemma_canonical_props(s: Seq<EntryBytes>)
    requires
        distinct_keys(s),
    ensures
        sorted_entries(canonical(s)),
        canonical(s).to_multiset() == s.to_multiset(),
    decreases s.len(),
{
    broadcast use vstd::seq_lib::group_to_multiset_ensures;

    if s.len() == 0 {
        lemma_to_multiset_empty(s);
        lemma_to_multiset_empty(canonical(s));
    } else {
        let s0 = s.drop_last();
        let e = s.last();
        assert(distinct_keys(s0));
        lemma_canonical_props(s0);
        let c = canonical(s0);
        assert(!key_in(c, e.0)) by {
            if key_in(c, e.0) {
                let i = choose|i: int| 0 <= i < c.len() && c[i].0 == e.0;
                assert(c.contains(c[i]));
                assert(c.to_multiset().count(c[i]) > 0);
                assert(s0.to_multiset().count(c[i]) > 0);
                assert(s0.contains(c[i]));
                let j = choose|j: int| 0 <= j < s0.len() && s0[j] == c[i];
                assert(s[j].0 == s[s.len() - 1].0);
            }
        }
        lemma_insert_entry_props(e, c);
        assert(s =~= s0.push(e));
        assert(canonical(s).to_multiset() == s.to_multiset());
    }
}

/// Two strictly key-sorted entry lists with the same multiset of entries are
/// the same list.
proof fn lemma_sorted_unique(t1: Seq<EntryBytes>, t2: Seq<EntryBytes>)
    requires
        sorted_entries(t1),
        sorted_entries(t2),
        t1.to_multiset() == t2.to_multiset(),
    ensures
        t1 == t2,
    decreases t1.len(),
{
    broadcast use vstd::seq_lib::group_to_multiset_ensures;

    assert(t1.to_multiset().len() == t1.len());
    assert(t2.to_multiset().len() == t2.len());
    assert(t1.len() == t2.len());
    if t1.len() == 0 {
        assert(t1 =~= t2);
    } else {
        assert(t1[0] == t2[0]) by {
            assert(t1.contains(t1[0]));
            assert(t2.to_multiset().count(t1[0]) > 0);
            assert(t2.contains(t1[0]));
            let j = choose|j: int| 0 <= j < t2.len() && t2[j] == t1[0];
            assert(t2.contains(t2[0]));
            assert(t1.to_multiset().count(t2[0]) > 0);
            assert(t1.contains(t2[0]));
            let i = choose|i: int| 0 <= i < t1.len() && t1[i] == t2[0];
            if i > 0 && j > 0 {
                lemma_sorted_pairwise(t1, 0, i);
                lemma_sorted_pairwise(t2, 0, j);
                crate::canon::lemma_lex_total(t1[0].0, t2[0].0);
            }
        }
        let u1 = t1.drop_first();
        let u2 = t2.drop_first();
        assert(u1 =~= t1.remove(0));
        assert(u2 =~= t2.remove(0));
        assert(u1.to_multiset() == u2.to_multiset());
        assert(sorted_entries(u1)) by {
            assert forall|i: int| 0 <= i < u1.len() - 1 implies #[trigger] lex_less(
                u1[i].0,
                u1[i + 1].0,
            ) by {
                let m = i + 1;
                assert(u1[i] == t1[m]);
                assert(u1[i + 1] == t1[m + 1]);
                assert(lex_less(t1[m].0, t1[m + 1].0));
            }
        }
        assert(sorted_entries(u2)) by {
            assert forall|i: int| 0 <= i < u2.len() - 1 implies #[trigger] lex_less(
                u2[i].0,
                u2[i + 1].0,
            ) by {
                let m = i + 1;
                assert(u2[i] == t2[m]);
                assert(u2[i + 1] == t2[m + 1]);
                assert(lex_less(t2[m].0, t2[m + 1].0));
            }
        }
        lemma_sorted_unique(u1, u2);
        assert forall|m: int| 0 <= m < t1.len() implies t1[m] == t2[m] by {
            if m > 0 {
                assert(u1[m - 1] == u2[m - 1]);
            }
        }
        assert(t1 =~= t2);
    }
}

/// Both halves of one presented pair, serialized at the current depth.
pub open spec fn entry_encoding(depth: nat) -> spec_fn((Value, Value)) -> EntryBytes {
    |p: (Value, Value)| (spec_encode(p.0, depth)->Ok_0, spec_encode(p.1, depth)->Ok_0)
}

/// Serializing a presented entry list succeeds exactly when every key and
/// value in it encodes, and then yields each pair's serialized halves in
/// presentation order.
proof fn lemma_encode_entries_map(s: Seq<(Value, Value)>, depth: nat)
    ensures
        (encode_entries(s, depth) is Ok) <==> (forall|i: int|
            0 <= i < s.len() ==> (#[trigger] spec_encode(s[i].0, depth)) is Ok && spec_encode(
                s[i].1,
                depth,
            ) is Ok),
        encode_entries(s, depth) is Ok ==> encode_entries(s, depth)->Ok_0 == s.map_values(
            entry_encoding(depth),
        ),
    decreases s.len(),
{
    if s.len() == 0 {
        assert(s.map_values(entry_encoding(depth)) =~= Seq::<EntryBytes>::empty());
    } else {
        let s0 = s.drop_last();
        lemma_encode_entries_map(s0, depth);
        assert forall|i: int| 0 <= i < s0.len() implies s0[i] == s[i] by {}
        if encode_entries(s, depth) is Ok {
            assert(s.map_values(entry_encoding(depth)) =~= s0.map_values(entry_encoding(depth))
                + seq![entry_encoding(depth)(s.last())]);
        }
        if forall|i: int|
            0 <= i < s.len() ==> (#[trigger] spec_encode(s[i].0, depth)) is Ok && spec_encode(
                s[i].1,
                depth,
            ) is Ok {
            assert(spec_encode(s[s.len() - 1].0, depth) is Ok);
            assert(spec_encode(s[s.len() - 1].1, depth) is Ok);
            assert(s.map_values(entry_encoding(depth)) =~= s0.map_values(entry_encoding(depth))
                + seq![entry_encoding(depth)(s.last())]);
        }
    }
}

/// Mapping a function over two sequences with the same multiset of elements
/// gives two sequences with the same multiset of images.
proof fn lemma_map_values_permutation<A, B>(s1: Seq<A>, s2: Seq<A>, f: spec_fn(A) -> B)
    requires
        s1.to_multiset() == s2.to_multiset(),
    ensures
        s1.map_values(f).to_multiset() == s2.map_values(f).to_multiset(),
    decreases s1.len(),
{
    broadcast use vstd::seq_lib::group_to_multiset_ensures;

    assert(s1.to_multiset().len() == s1.len());
    assert(s2.to_multiset().len() == s2.len());
    if s1.len() == 0 {
        assert(s1.map_values(f) =~= s2.map_values(f));
    } else {
        let e = s1.last();
        assert(s1.contains(e));
        assert(s2.to_multiset().count(e) > 0);
        assert(s2.contains(e));
        let j = choose|j: int| 0 <= j < s2.len() && s2[j] == e;
        let s1p = s1.drop_last();
        let s2p = s2.remove(j);
        assert(s1p =~= s1.remove(s1.len() - 1));
        assert(s1p.to_multiset() == s1.to_multiset().remove(e));
        assert(s2p.to_multiset() == s2.to_multiset().remove(e));
        lemma_map_values_permutation(s1p, s2p, f);
        assert(s1.map_values(f) =~= s1p.map_values(f).push(f(e)));
        assert(s2p.map_values(f) =~= s2.map_values(f).remove(j));
        assert(s2.map_values(f).remove(j).to_multiset() == s2.map_values(f).to_multiset().remove(
            s2.map_values(f)[j],
        ));
        assert(s2.map_values(f)[j] == f(e));
        assert(s1.map_values(f).to_multiset() == s1p.map_values(f).to_multiset().insert(f(e)));
        assert(s1.map_values(f).to_multiset() =~= s2.map_values(f).to_multiset());
    }
}

/// Map canonicality: two maps that present the same collection of entries —
/// in any order, with no two keys serializing alike — encode to identical
/// byte streams.
pub proof fn lemma_map_canonicality(m1: Vec<(Value, Value)>, m2: Vec<(Value, Value)>, depth: nat)
    requires
        m1@.to_multiset() == m2@.to_multiset(),
        encode_entries(m1@, depth) matches Ok(x1) && distinct_keys(x1),
    ensures
        spec_encode(Value::Mapping(m1), depth) == spec_encode(Value::Mapping(m2), depth),
{
    broadcast use vstd::seq_lib::group_to_multiset_ensures;

    lemma_encode_entries_map(m1@, depth);
    lemma_encode_entries_map(m2@, depth);
    assert forall|i: int|
        0 <= i < m2@.len() implies (#[trigger] spec_encode(m2@[i].0, depth)) is Ok && spec_encode(
        m2@[i].1,
        depth,
    ) is Ok by {
        assert(m2@.contains(m2@[i]));
        assert(m1@.to_multiset().count(m2@[i]) > 0);
        assert(m1@.contains(m2@[i]));
        let j = choose|j: int| 0 <= j < m1@.len() && m1@[j] == m2@[i];
        assert(spec_encode(m1@[j].0, depth) is Ok);
        assert(spec_encode(m1@[j].1, depth) is Ok);
    }
    if let Ok(x1) = encode_entries(m1@, depth) {
        if let Ok(x2) = encode_entries(m2@, depth) {
            lemma_map_values_permutation(m1@, m2@, entry_encoding(depth));
            assert(x1.to_multiset() == x2.to_multiset());
            assert(distinct_keys(x2)) by {
                assert forall|i: int, j: int| 0 <= i < j < x2.len() implies x2[i].0 != x2[j].0 by {
                    if x2[i].0 == x2[j].0 {
                        assert(x2.contains(x2[i]));
                        assert(x2.contains(x2[j]));
                        assert(x1.to_multiset().count(x2[i]) > 0);
                        assert(x1.to_multiset().count(x2[j]) > 0);
                        assert(x1.contains(x2[i]));
                        assert(x1.contains(x2[j]));
                        let a = choose|a: int| 0 <= a < x1.len() && x1[a] == x2[i];
                        let b = choose|b: int| 0 <= b < x1.len() && x1[b] == x2[j];
                        if a == b {
                            assert(x2[i] == x2[j]);
                            lemma_count_two_indexes(x2, i, j);
                            assert(x1.to_multiset().count(x2[i]) >= 2);
                            lemma_count_two_witnesses(x1, x2[i]);
                        }
                    }
                }
            }
            lemma_canonical_props(x1);
            lemma_canonical_props(x2);
            lemma_sorted_unique(canonical(x1), canonical(x2));
        }
    }
}

/// A value standing at two places of a sequence counts at least twice in its
/// multiset.
proof fn lemma_count_two_indexes(s: Seq<EntryBytes>, i: int, j: int)
    requires
        0 <= i < j < s.len(),
        s[i] == s[j],
    ensures
        s.to_multiset().count(s[i]) >= 2,
    decreases s.len(),
{
    broadcast use vstd::seq_lib::group_to_multiset_ensures;

    let s0 = s.drop_last();
    if j == s.len() - 1 {
        assert(s0.contains(s0[i]));
        assert(s0.to_multiset().count(s[i]) > 0);
        assert(s =~= s0.push(s[j]));
    } else {
        lemma_count_two_indexes(s0, i, j);
        assert(s =~= s0.push(s.last()));
    }
}

/// A value counted at least twice stands at two distinct places.
proof fn lemma_count_two_witnesses(s: Seq<EntryBytes>, x: EntryBytes)
    requires
        s.to_multiset().count(x) >= 2,
    ensures
        exists|a: int, b: int| 0 <= a < b < s.len() && s[a] == x && s[b] == x,
    decreases s.len(),
{
    broadcast use vstd::seq_lib::group_to_multiset_ensures;

    if s.len() == 0 {
        lemma_to_multiset_empty(s);
    } else {
        let s0 = s.drop_last();
        let e = s.last();
        assert(s =~= s0.push(e));
        assert(s.to_multiset() == s0.to_multiset().insert(e));
        if e == x {
            assert(s0.to_multiset().count(x) >= 1);
            assert(s0.contains(x));
            let a = choose|a: int| 0 <= a < s0.len() && s0[a] == x;
            assert(s[a] == x && s[s.len() - 1] == x && a < s.len() - 1);
        } else {
            assert(s0.to_multiset().count(x) >= 2);
            lemma_count_two_witnesses(s0, x);
            let (a, b): (int, int) = choose|a: int, b: int|
                0 <= a < b < s0.len() && s0[a] == x && s0[b] == x;
            assert(s[a] == x && s[b] == x);
        }
    }
}

} // verus!
