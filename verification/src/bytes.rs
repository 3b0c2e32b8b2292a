//! Bytewise lexicographic ordering of byte strings.
//!
//! Canonical encoding sorts map keys by the lexicographic order of their
//! encoded bytes; this module defines that order and an executable
//! three-way comparison.

use vstd::prelude::*;

verus! {

/// Copies a byte vector.
pub fn copy_bytes(b: &Vec<u8>) -> (out: Vec<u8>)
    ensures
        out@ == b@,
{
    let mut out: Vec<u8> = Vec::new();
    let mut i: usize = 0;
    while i < b.len()
        invariant
            i <= b.len(),
            out@ == b@.take(i as int),
        decreases b.len() - i,
    {
        out.push(b[i]);
        assert(b@.take(i + 1) =~= b@.take(i as int).push(b@[i as int]));
        i = i + 1;
    }
    assert(b@.take(b@.len() as int) =~= b@);
    out
}

/// Strict bytewise lexicographic order: `a` comes before `b`.
pub open spec fn lex_lt(a: Seq<u8>, b: Seq<u8>) -> bool
    decreases a.len(),
{
    if b.len() == 0 {
        false
    } else if a.len() == 0 {
        true
    } else if a[0] < b[0] {
        true
    } else if a[0] > b[0] {
        false
    } else {
        lex_lt(a.skip(1), b.skip(1))
    }
}

/// Exactly one of `a < b`, `a == b`, `b < a` holds.
pub proof fn lemma_lex_trichotomy(a: Seq<u8>, b: Seq<u8>)
    ensures
        lex_lt(a, b) || a == b || lex_lt(b, a),
        lex_lt(a, b) ==> a != b && !lex_lt(b, a),
        a == b ==> !lex_lt(a, b) && !lex_lt(b, a),
    decreases a.len(),
{
    if a.len() == 0 && b.len() == 0 {
        assert(a =~= b);
    } else if a.len() > 0 && b.len() > 0 {
        if a[0] == b[0] {
            lemma_lex_trichotomy(a.skip(1), b.skip(1));
            if a.skip(1) == b.skip(1) {
                assert(a.len() == b.len());
                assert forall|i: int| 0 <= i < a.len() implies a[i] == b[i] by {
                    if i > 0 {
                        assert(a.skip(1)[i - 1] == a[i]);
                        assert(b.skip(1)[i - 1] == b[i]);
                    }
                }
                assert(a =~= b);
            }
            if a == b {
                assert(a.skip(1) =~= b.skip(1));
            }
        } else {
            if a == b {
                assert(a[0] == b[0]);
            }
        }
    } else {
        // exactly one side is empty
        if a == b {
            assert(a.len() == b.len());
        }
    }
}

/// The order is transitive.
pub proof fn lemma_lex_trans(a: Seq<u8>, b: Seq<u8>, c: Seq<u8>)
    requires
        lex_lt(a, b),
        lex_lt(b, c),
    ensures
        lex_lt(a, c),
    decreases a.len(),
{
    if a.len() == 0 {
        // b is nonempty (lex_lt(a, b)), hence c is nonempty
    } else {
        // a nonempty; b nonempty since lex_lt(a, b); c nonempty since lex_lt(b, c)
        if a[0] == b[0] && b[0] == c[0] {
            lemma_lex_trans(a.skip(1), b.skip(1), c.skip(1));
        }
    }
}

/// Comparing two strings reduces to comparing their suffixes past a common
/// prefix.
pub proof fn lemma_lex_common_prefix(a: Seq<u8>, b: Seq<u8>, i: int)
    requires
        0 <= i <= a.len(),
        i <= b.len(),
        a.take(i) == b.take(i),
    ensures
        lex_lt(a, b) == lex_lt(a.skip(i), b.skip(i)),
    decreases i,
{
    if i > 0 {
        assert(a[0] == b[0]) by {
            assert(a.take(i)[0] == a[0]);
            assert(b.take(i)[0] == b[0]);
        }
        assert(a.len() > 0 && b.len() > 0);
        assert(a.skip(1).take(i - 1) =~= b.skip(1).take(i - 1)) by {
            assert(forall|j: int| 0 <= j < i - 1 ==>
                #[trigger] a.skip(1).take(i - 1)[j] == a.take(i)[j + 1]);
            assert(forall|j: int| 0 <= j < i - 1 ==>
                #[trigger] b.skip(1).take(i - 1)[j] == b.take(i)[j + 1]);
        }
        lemma_lex_common_prefix(a.skip(1), b.skip(1), i - 1);
        assert(a.skip(1).skip(i - 1) =~= a.skip(i));
        assert(b.skip(1).skip(i - 1) =~= b.skip(i));
    } else {
        assert(a.skip(0) =~= a);
        assert(b.skip(0) =~= b);
    }
}

/// Three-way bytewise lexicographic comparison.
///
/// Returns a negative, zero or positive value according to whether `a` is
/// before, equal to, or after `b` in the canonical key order.
pub fn lex_cmp(a: &[u8], b: &[u8]) -> (o: i8)
    ensures
        o == -1 || o == 0 || o == 1,
        (o == -1) == lex_lt(a@, b@),
        (o == 0) == (a@ == b@),
        (o == 1) == lex_lt(b@, a@),
{
    proof {
        lemma_lex_trichotomy(a@, b@);
    }
    let mut i: usize = 0;
    while i < a.len() && i < b.len()
        invariant
            0 <= i <= a.len(),
            i <= b.len(),
            a@.take(i as int) =~= b@.take(i as int),
        decreases a.len() - i,
    {
        let x = a[i];
        let y = b[i];
        proof {
            lemma_lex_common_prefix(a@, b@, i as int);
            lemma_lex_common_prefix(b@, a@, i as int);
        }
        if x < y {
            return -1;
        }
        if x > y {
            return 1;
        }
        proof {
            assert(a@.take(i + 1) =~= b@.take(i + 1)) by {
                assert(forall|j: int| 0 <= j < i + 1 ==>
                    a@.take(i + 1)[j] == a@[j] && b@.take(i + 1)[j] == b@[j]);
            }
        }
        i = i + 1;
    }
    proof {
        lemma_lex_common_prefix(a@, b@, i as int);
        lemma_lex_common_prefix(b@, a@, i as int);
    }
    if a.len() < b.len() {
        -1
    } else if a.len() > b.len() {
        1
    } else {
        proof {
            assert(a@ =~= b@) by {
                assert(forall|j: int| 0 <= j < a@.len() ==>
                    a@[j] == a@.take(i as int)[j] && b@[j] == b@.take(i as int)[j]);
            }
        }
        0
    }
}

} // verus!
