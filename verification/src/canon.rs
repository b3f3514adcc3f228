//! Executable map canonicalization: lexicographic comparison of encoded keys
//! and ordered insertion into the scratch entry list, each proved against the
//! spec order in `format`.
use vstd::prelude::*;

use crate::format::{insert_entry, lex_less, EntryBytes};

verus! {

/// The abstract entries of a scratch list: each buffer pair as its byte
/// sequences.
pub open spec fn pairs_view(s: Seq<(Vec<u8>, Vec<u8>)>) -> Seq<EntryBytes> {
    s.map(|i: int, e: (Vec<u8>, Vec<u8>)| (e.0@, e.1@))
}

/// Lexicographic byte order is asymmetric and connex: of two keys, exactly
/// one of `a < b`, `b < a`, `a == b` holds.
pub proof fn lemma_lex_total(a: Seq<u8>, b: Seq<u8>)
    ensures
        !(lex_less(a, b) && lex_less(b, a)),
        lex_less(a, b) || lex_less(b, a) || a == b,
    decreases a.len(),
{
    if a.len() == 0 && b.len() == 0 {
        assert(a =~= b);
    } else if a.len() > 0 && b.len() > 0 && a[0] == b[0] {
        lemma_lex_total(a.drop_first(), b.drop_first());
        if a.drop_first() == b.drop_first() {
            assert(a.drop_first().len() == b.drop_first().len());
            assert forall|j: int| 0 <= j < a.len() implies a[j] == b[j] by {
                if j > 0 {
                    assert(a.drop_first()[j - 1] == b.drop_first()[j - 1]);
                }
            }
            assert(a =~= b);
        }
    }
}

/// Lexicographic byte order is transitive.
pub proof fn lemma_lex_trans(a: Seq<u8>, b: Seq<u8>, c: Seq<u8>)
    requires
        lex_less(a, b),
        lex_less(b, c),
    ensures
        lex_less(a, c),
    decreases b.len(),
{
    if a.len() > 0 && b.len() > 0 && c.len() > 0 {
        if a[0] == b[0] && b[0] == c[0] {
            lemma_lex_trans(a.drop_first(), b.drop_first(), c.drop_first());
        }
    }
}

/// Comparing two sequences that agree on their first `i` places is comparing
/// what remains of each.
pub proof fn lemma_lex_skip(a: Seq<u8>, b: Seq<u8>, i: int)
    requires
        0 <= i <= a.len(),
        i <= b.len(),
        forall|j: int| 0 <= j < i ==> a[j] == b[j],
    ensures
        lex_less(a, b) == lex_less(a.skip(i), b.skip(i)),
    decreases i,
{
    if i == 0 {
        assert(a.skip(0) =~= a);
        assert(b.skip(0) =~= b);
    } else {
        let a1 = a.drop_first();
        let b1 = b.drop_first();
        assert(a[0] == b[0]);
        assert forall|j: int| 0 <= j < i - 1 implies a1[j] == b1[j] by {
            assert(a[j + 1] == b[j + 1]);
        }
        lemma_lex_skip(a1, b1, i - 1);
        assert(a1.skip(i - 1) =~= a.skip(i));
        assert(b1.skip(i - 1) =~= b.skip(i));
    }
}

/// How one ordered comparison of two encoded keys came out.
pub enum KeyOrder {
    Less,
    Equal,
    Greater,
}

/// Compares two encoded keys in lexicographic byte order.
pub fn lex_cmp(a: &Vec<u8>, b: &Vec<u8>) -> (r: KeyOrder)
    ensures
        (r is Less) == lex_less(a@, b@),
        (r is Equal) == (a@ == b@),
        (r is Greater) == lex_less(b@, a@),
{
    let alen = a.len();
    let blen = b.len();
    let min: usize = if alen < blen {
        alen
    } else {
        blen
    };
    let mut i: usize = 0;
    while i < min
        invariant
            i <= min,
            min <= a@.len(),
            min <= b@.len(),
            forall|j: int| 0 <= j < i ==> a@[j] == b@[j],
        decreases min - i,
    {
        let x = a[i];
        let y = b[i];
        if x < y {
            proof {
                lemma_lex_skip(a@, b@, i as int);
                lemma_lex_skip(b@, a@, i as int);
                assert(a@[i as int] != b@[i as int]);
            }
            return KeyOrder::Less;
        }
        if y < x {
            proof {
                lemma_lex_skip(a@, b@, i as int);
                lemma_lex_skip(b@, a@, i as int);
                assert(a@[i as int] != b@[i as int]);
            }
            return KeyOrder::Greater;
        }
        i = i + 1;
    }
    proof {
        lemma_lex_skip(a@, b@, min as int);
        lemma_lex_skip(b@, a@, min as int);
    }
    if alen == blen {
        proof {
            assert(a@ =~= b@);
        }
        KeyOrder::Equal
    } else if alen < blen {
        proof {
            assert(a@ != b@);
        }
        KeyOrder::Less
    } else {
        proof {
            assert(a@ != b@);
        }
        KeyOrder::Greater
    }
}

/// Where `insert_entry` places `e` once the first `i` keys are known to sort
/// strictly below it: on the key already present it changes nothing, on a
/// larger key at `i` it lands there, past the end it is appended.
pub proof fn lemma_insert_entry_at(e: EntryBytes, s: Seq<EntryBytes>, i: int)
    requires
        0 <= i <= s.len(),
        forall|j: int| 0 <= j < i ==> lex_less(#[trigger] s[j].0, e.0),
    ensures
        i < s.len() && s[i].0 == e.0 ==> insert_entry(e, s) == s,
        i < s.len() && lex_less(e.0, s[i].0) ==> insert_entry(e, s) == s.take(i) + seq![e] + s.skip(
            i,
        ),
        i == s.len() ==> insert_entry(e, s) == s + seq![e],
    decreases i,
{
    if i == 0 {
        if s.len() == 0 {
            assert(s + seq![e] =~= seq![e]);
        } else {
            if i < s.len() && lex_less(e.0, s[i].0) {
                lemma_lex_total(e.0, s[0].0);
                assert(s.take(0) + seq![e] + s.skip(0) =~= seq![e] + s);
            }
        }
    } else {
        lemma_lex_total(s[0].0, e.0);
        let s1 = s.drop_first();
        assert forall|j: int| 0 <= j < i - 1 implies lex_less(#[trigger] s1[j].0, e.0) by {
            assert(lex_less(s[j + 1].0, e.0));
        }
        lemma_insert_entry_at(e, s1, i - 1);
        assert(insert_entry(e, s) == seq![s[0]] + insert_entry(e, s1));
        if i < s.len() && s[i].0 == e.0 {
            assert(s1[i - 1].0 == e.0);
            assert(seq![s[0]] + s1 =~= s);
        }
        if i < s.len() && lex_less(e.0, s[i].0) {
            assert(s1[i - 1] == s[i]);
            assert(seq![s[0]] + (s1.take(i - 1) + seq![e] + s1.skip(i - 1)) =~= s.take(i) + seq![e]
                + s.skip(i));
        }
        if i == s.len() {
            assert(seq![s[0]] + (s1 + seq![e]) =~= s + seq![e]);
        }
    }
}

/// Places a freshly serialized entry into the key-sorted scratch list,
/// dropping it when its key bytes are already present.
pub fn insert_canonical(sorted: &mut Vec<(Vec<u8>, Vec<u8>)>, key: Vec<u8>, val: Vec<u8>)
    ensures
        pairs_view(final(sorted)@) == insert_entry((key@, val@), pairs_view(old(sorted)@)),
{
    let ghost e: EntryBytes = (key@, val@);
    let ghost s = pairs_view(old(sorted)@);
    let mut i: usize = 0;
    while i < sorted.len()
        invariant
            i <= sorted@.len(),
            sorted@ == old(sorted)@,
            s == pairs_view(old(sorted)@),
            e == (key@, val@),
            forall|j: int| 0 <= j < i ==> lex_less(#[trigger] s[j].0, key@),
        decreases sorted@.len() - i,
    {
        match lex_cmp(&sorted[i].0, &key) {
            KeyOrder::Equal => {
                proof {
                    lemma_insert_entry_at(e, s, i as int);
                    assert(s[i as int].0 == key@);
                }
                return ;
            },
            KeyOrder::Greater => {
                proof {
                    lemma_insert_entry_at(e, s, i as int);
                }
                sorted.insert(i, (key, val));
                proof {
                    assert(pairs_view(sorted@) =~= s.take(i as int) + seq![e] + s.skip(i as int));
                }
                return ;
            },
            KeyOrder::Less => {
                i = i + 1;
            },
        }
    }
    proof {
        lemma_insert_entry_at(e, s, s.len() as int);
    }
    sorted.push((key, val));
    proof {
        assert(pairs_view(sorted@) =~= s + seq![e]);
    }
}

} // verus!
