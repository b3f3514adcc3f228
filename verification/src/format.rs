//! The byte-level format, stated as spec functions: ULEB128, little-endian
//! integers, lexicographic order on encoded keys, and the canonical ordering
//! of map entries.
use vstd::prelude::*;

verus! {

/// Minimal ULEB128 form of `v`: seven payload bits per byte, least
/// significant first, high bit set on every byte but the last.
pub open spec fn uleb(v: nat) -> Seq<u8>
    decreases v,
{
    if v < 0x80 {
        seq![v as u8]
    } else {
        seq![(0x80 + (v % 0x80)) as u8] + uleb(v / 0x80)
    }
}

/// The `n` little-endian bytes of `v`.
pub open spec fn le_bytes(v: nat, n: nat) -> Seq<u8>
    decreases n,
{
    if n == 0 {
        Seq::empty()
    } else {
        seq![(v % 0x100) as u8] + le_bytes(v / 0x100, (n - 1) as nat)
    }
}

/// Strict lexicographic byte order; a proper prefix sorts before any of its
/// extensions. This is the order of the canonical-map invariant.
pub open spec fn lex_less(a: Seq<u8>, b: Seq<u8>) -> bool
    decreases a.len(),
{
    if b.len() == 0 {
        false
    } else if a.len() == 0 {
        true
    } else if a[0] < b[0] {
        true
    } else if a[0] > b[0] {
        false
    } else {
        lex_less(a.drop_first(), b.drop_first())
    }
}

/// A map entry after both halves have been serialized: key bytes, value bytes.
pub type EntryBytes = (Seq<u8>, Seq<u8>);

/// Place `e` into the sorted entry list `s`, keeping ascending key order. An
/// entry whose key bytes are already present is dropped: the earlier entry
/// wins, so duplicate keys canonicalize deterministically.
pub open spec fn insert_entry(e: EntryBytes, s: Seq<EntryBytes>) -> Seq<EntryBytes>
    decreases s.len(),
{
    if s.len() == 0 {
        seq![e]
    } else if e.0 == s[0].0 {
        s
    } else if lex_less(e.0, s[0].0) {
        seq![e] + s
    } else {
        seq![s[0]] + insert_entry(e, s.drop_first())
    }
}

/// Canonical form of a presented entry list: entries inserted in presentation
/// order into a key-sorted list, duplicate keys resolved in favour of the
/// earliest presentation.
pub open spec fn canonical(s: Seq<EntryBytes>) -> Seq<EntryBytes>
    decreases s.len(),
{
    if s.len() == 0 {
        Seq::empty()
    } else {
        insert_entry(s.last(), canonical(s.drop_last()))
    }
}

/// Concatenation of the entries of `s`, each as key bytes immediately
/// followed by value bytes.
pub open spec fn concat_entries(s: Seq<EntryBytes>) -> Seq<u8>
    decreases s.len(),
{
    if s.len() == 0 {
        Seq::empty()
    } else {
        concat_entries(s.drop_last()) + s.last().0 + s.last().1
    }
}

/// One more entry concatenates its key and value bytes at the end.
pub proof fn lemma_concat_entries_snoc(s: Seq<EntryBytes>, i: int)
    requires
        0 <= i < s.len(),
    ensures
        concat_entries(s.take(i + 1)) == concat_entries(s.take(i)) + s[i].0 + s[i].1,
{
    assert(s.take(i + 1).drop_last() =~= s.take(i));
    assert(s.take(i + 1).last() == s[i]);
}

/// Canonicalizing one more presented entry is one ordered insertion.
pub proof fn lemma_canonical_snoc(s: Seq<EntryBytes>, i: int)
    requires
        0 <= i < s.len(),
    ensures
        canonical(s.take(i + 1)) == insert_entry(s[i], canonical(s.take(i))),
{
    assert(s.take(i + 1).drop_last() =~= s.take(i));
    assert(s.take(i + 1).last() == s[i]);
}

/// Every sequence is a prefix of itself.
pub proof fn lemma_prefix_refl(a: Seq<u8>)
    ensures
        a.is_prefix_of(a),
{
    assert(a =~= a.subrange(0, a.len() as int));
}

/// A sequence is a prefix of itself extended by anything.
pub proof fn lemma_prefix_extend(a: Seq<u8>, b: Seq<u8>)
    ensures
        a.is_prefix_of(a + b),
{
}

/// Prefixes compose.
pub proof fn lemma_prefix_trans(a: Seq<u8>, b: Seq<u8>, c: Seq<u8>)
    requires
        a.is_prefix_of(b),
        b.is_prefix_of(c),
    ensures
        a.is_prefix_of(c),
{
    assert forall|i: int| 0 <= i < a.len() implies a[i] == c[i] by {
        assert(a[i] == b.subrange(0, a.len() as int)[i]);
        assert(b[i] == c.subrange(0, b.len() as int)[i]);
    }
}

} // verus!
