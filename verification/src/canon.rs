//! Canonical re-encoding of self-describing values.
//!
//! `canonicalize` parses a byte string, rewrites every map into strictly
//! increasing key order, rejects duplicate keys, and re-serializes with
//! minimal-length integer arguments. Signing and verifying over the
//! canonical form makes signature checks independent of the producer's
//! encoder choices.

use vstd::prelude::*;
use crate::bytes::{lex_lt, lex_cmp, lemma_lex_trichotomy, lemma_lex_trans, copy_bytes};
use crate::model::{Value, ValueModel, view_val, view_list, view_pairs, bounded, canonical,
    sorted_keys, MAX_DEPTH, lemma_view_list_index, lemma_view_pairs_index};
use crate::encode::{enc, encode};
use crate::parse::{parse_full, parse_all, parse_val, lemma_parse_val_props};
use crate::roundtrip::lemma_parse_full_enc;

verus! {

/// The input was not a well-formed value of the accepted grammar, or holds
/// a structure the canonical form rejects (duplicate map keys, excessive
/// nesting, indefinite lengths, tags, simple values).
#[derive(Clone, Copy, Debug, PartialEq, Eq, Structural)]
pub struct InvalidEncoding;

/// Inserts `p` into `s` before the first key above it; `None` when a key
/// with the same encoding is already present.
pub open spec fn insert_pair(
    p: (ValueModel, ValueModel),
    s: Seq<(ValueModel, ValueModel)>,
) -> Option<Seq<(ValueModel, ValueModel)>>
    decreases s.len(),
{
    if s.len() == 0 {
        Some(seq![p])
    } else if lex_lt(enc(p.0), enc(s[0].0)) {
        Some(seq![p] + s)
    } else if enc(p.0) == enc(s[0].0) {
        None
    } else {
        match insert_pair(p, s.skip(1)) {
            None => None,
            Some(t) => Some(seq![s[0]] + t),
        }
    }
}

/// The normal form of a value: all maps sorted, duplicate keys refused.
pub open spec fn norm(m: ValueModel) -> Option<ValueModel>
    decreases m,
{
    match m {
        ValueModel::Uint(_) => Some(m),
        ValueModel::Nint(_) => Some(m),
        ValueModel::Bytes(_) => Some(m),
        ValueModel::Text(_) => Some(m),
        ValueModel::Bool(_) => Some(m),
        ValueModel::Null => Some(m),
        ValueModel::Array(es) => match norm_list(es) {
            None => None,
            Some(t) => Some(ValueModel::Array(t)),
        },
        ValueModel::Dict(ps) => match norm_pairs(ps, Seq::empty()) {
            None => None,
            Some(t) => Some(ValueModel::Dict(t)),
        },
    }
}

pub open spec fn norm_list(es: Seq<ValueModel>) -> Option<Seq<ValueModel>>
    decreases es,
{
    if es.len() == 0 {
        Some(Seq::empty())
    } else {
        match norm(es[0]) {
            None => None,
            Some(w) => match norm_list(es.skip(1)) {
                None => None,
                Some(t) => Some(seq![w] + t),
            },
        }
    }
}

pub open spec fn norm_pairs(
    ps: Seq<(ValueModel, ValueModel)>,
    acc: Seq<(ValueModel, ValueModel)>,
) -> Option<Seq<(ValueModel, ValueModel)>>
    decreases ps,
{
    if ps.len() == 0 {
        Some(acc)
    } else {
        match norm(ps[0].0) {
            None => None,
            Some(k) => match norm(ps[0].1) {
                None => None,
                Some(v) => match insert_pair((k, v), acc) {
                    None => None,
                    Some(acc2) => norm_pairs(ps.skip(1), acc2),
                },
            },
        }
    }
}

/// The canonical byte form of a byte string, when it has one.
pub open spec fn canonical_bytes(s: Seq<u8>) -> Option<Seq<u8>> {
    match parse_full(s) {
        None => None,
        Some(v) => match norm(v) {
            None => None,
            Some(w) => Some(enc(w)),
        },
    }
}

/// A successful insertion keeps keys strictly sorted, adds exactly the new
/// pair, and every element of the result is the new pair or an old one.
pub proof fn lemma_insert_pair_props(p: (ValueModel, ValueModel), s: Seq<(ValueModel, ValueModel)>)
    requires
        sorted_keys(s),
    ensures
        match insert_pair(p, s) {
            Some(t) => {
                &&& sorted_keys(t)
                &&& t.len() == s.len() + 1
                &&& forall|j: int| 0 <= j < t.len() ==> #[trigger] t[j] == p || s.contains(t[j])
            },
            None => true,
        },
    decreases s.len(),
{
    if s.len() == 0 {
    } else if lex_lt(enc(p.0), enc(s[0].0)) {
        let t = seq![p] + s;
        assert forall|i: int, j: int| 0 <= i < j < t.len() implies
            lex_lt(enc(#[trigger] t[i].0), enc(#[trigger] t[j].0)) by {
            if i == 0 {
                if j > 1 {
                    lemma_lex_trans(enc(p.0), enc(s[0].0), enc(s[j - 1].0));
                }
            }
        }
        assert forall|j: int| 0 <= j < t.len() implies #[trigger] t[j] == p || s.contains(t[j]) by {
            if j > 0 {
                assert(t[j] == s[j - 1]);
            }
        }
    } else if enc(p.0) == enc(s[0].0) {
    } else {
        lemma_lex_trichotomy(enc(p.0), enc(s[0].0));
        assert(lex_lt(enc(s[0].0), enc(p.0)));
        let tail = s.skip(1);
        assert(sorted_keys(tail)) by {
            assert(forall|i: int| 0 <= i < tail.len() ==> #[trigger] tail[i] == s[i + 1]);
        }
        lemma_insert_pair_props(p, tail);
        match insert_pair(p, tail) {
            None => {},
            Some(t2) => {
                let t = seq![s[0]] + t2;
                assert forall|i: int, j: int| 0 <= i < j < t.len() implies
                    lex_lt(enc(#[trigger] t[i].0), enc(#[trigger] t[j].0)) by {
                    if i == 0 {
                        let q = t2[j - 1];
                        assert(q == p || tail.contains(q));
                        if q == p {
                        } else {
                            let l = choose|l: int| 0 <= l < tail.len() && tail[l] == q;
                            assert(tail[l] == s[l + 1]);
                            assert(lex_lt(enc(s[0].0), enc(s[l + 1].0)));
                        }
                    }
                }
                assert forall|j: int| 0 <= j < t.len() implies #[trigger] t[j] == p
                    || s.contains(t[j]) by {
                    if j == 0 {
                        assert(s[0] == t[j]);
                        assert(s.contains(t[j]));
                    } else {
                        let q = t2[j - 1];
                        assert(q == p || tail.contains(q));
                        if q != p {
                            let l = choose|l: int| 0 <= l < tail.len() && tail[l] == q;
                            assert(s[l + 1] == q);
                            assert(s.contains(q));
                        }
                    }
                }
            },
        }
    }
}

/// Inserting a pair whose key is above every key of `s` appends it.
pub proof fn lemma_insert_pair_all_lt(p: (ValueModel, ValueModel), s: Seq<(ValueModel, ValueModel)>)
    requires
        forall|j: int| 0 <= j < s.len() ==> lex_lt(enc(#[trigger] s[j].0), enc(p.0)),
    ensures
        insert_pair(p, s) == Some(s.push(p)),
    decreases s.len(),
{
    if s.len() == 0 {
        assert(seq![p] =~= s.push(p));
    } else {
        lemma_lex_trichotomy(enc(p.0), enc(s[0].0));
        let tail = s.skip(1);
        assert(forall|j: int| 0 <= j < tail.len() ==> #[trigger] tail[j] == s[j + 1]);
        lemma_insert_pair_all_lt(p, tail);
        assert(seq![s[0]] + tail.push(p) =~= s.push(p));
    }
}

/// Inserting at position `j`, all scanned keys below, next key above.
pub proof fn lemma_insert_pair_at(
    p: (ValueModel, ValueModel),
    s: Seq<(ValueModel, ValueModel)>,
    j: int,
)
    requires
        0 <= j <= s.len(),
        forall|l: int| 0 <= l < j ==> lex_lt(enc(#[trigger] s[l].0), enc(p.0)),
        j < s.len() ==> lex_lt(enc(p.0), enc(s[j].0)),
    ensures
        insert_pair(p, s) == Some(s.insert(j, p)),
    decreases j,
{
    if j == 0 {
        if s.len() == 0 {
            assert(seq![p] =~= s.insert(0, p));
        } else {
            assert(seq![p] + s =~= s.insert(0, p));
        }
    } else {
        lemma_lex_trichotomy(enc(p.0), enc(s[0].0));
        let tail = s.skip(1);
        assert(forall|l: int| 0 <= l < tail.len() ==> #[trigger] tail[l] == s[l + 1]);
        lemma_insert_pair_at(p, tail, j - 1);
        assert(seq![s[0]] + tail.insert(j - 1, p) =~= s.insert(j, p));
    }
}

/// A key equal in encoding to `s[j]`, all earlier keys below it: refused.
pub proof fn lemma_insert_pair_dup(
    p: (ValueModel, ValueModel),
    s: Seq<(ValueModel, ValueModel)>,
    j: int,
)
    requires
        0 <= j < s.len(),
        forall|l: int| 0 <= l < j ==> lex_lt(enc(#[trigger] s[l].0), enc(p.0)),
        enc(p.0) == enc(s[j].0),
    ensures
        insert_pair(p, s) == None::<Seq<(ValueModel, ValueModel)>>,
    decreases j,
{
    lemma_lex_trichotomy(enc(p.0), enc(s[0].0));
    if j == 0 {
    } else {
        let tail = s.skip(1);
        assert(forall|l: int| 0 <= l < tail.len() ==> #[trigger] tail[l] == s[l + 1]);
        lemma_insert_pair_dup(p, tail, j - 1);
    }
}

/// Normalization yields canonical values and preserves structural bounds.
pub proof fn lemma_norm_props(m: ValueModel, d: nat)
    requires
        bounded(m, d),
    ensures
        match norm(m) {
            Some(w) => canonical(w) && bounded(w, d),
            None => true,
        },
    decreases m,
{
    match m {
        ValueModel::Array(es) => {
            lemma_norm_list_props(es, d);
        },
        ValueModel::Dict(ps) => {
            lemma_norm_pairs_props(ps, Seq::empty(), (d - 1) as nat);
            match norm_pairs(ps, Seq::empty()) {
                None => {},
                Some(t) => {
                    assert(t.len() == ps.len());
                },
            }
        },
        _ => {},
    }
}

pub proof fn lemma_norm_list_props(es: Seq<ValueModel>, d: nat)
    requires
        d >= 1,
        forall|i: int| 0 <= i < es.len() ==> bounded(#[trigger] es[i], (d - 1) as nat),
    ensures
        match norm_list(es) {
            Some(t) => {
                &&& t.len() == es.len()
                &&& forall|i: int| 0 <= i < t.len() ==> canonical(#[trigger] t[i]) && bounded(
                    t[i],
                    (d - 1) as nat,
                )
            },
            None => true,
        },
    decreases es,
{
    if es.len() > 0 {
        lemma_norm_props(es[0], (d - 1) as nat);
        let tail = es.skip(1);
        assert(forall|i: int| 0 <= i < tail.len() ==> #[trigger] tail[i] == es[i + 1]);
        lemma_norm_list_props(tail, d);
        match norm(es[0]) {
            None => {},
            Some(w) => {
                match norm_list(tail) {
                    None => {},
                    Some(t2) => {
                        let t = seq![w] + t2;
                        assert forall|i: int| 0 <= i < t.len() implies
                            canonical(#[trigger] t[i]) && bounded(t[i], (d - 1) as nat) by {
                            if i > 0 {
                                assert(t[i] == t2[i - 1]);
                            }
                        }
                    },
                }
            },
        }
    }
}

pub proof fn lemma_norm_pairs_props(
    ps: Seq<(ValueModel, ValueModel)>,
    acc: Seq<(ValueModel, ValueModel)>,
    d: nat,
)
    requires
        forall|i: int| 0 <= i < ps.len() ==> bounded(#[trigger] ps[i].0, d),
        forall|i: int| 0 <= i < ps.len() ==> bounded(#[trigger] ps[i].1, d),
        sorted_keys(acc),
        forall|i: int| 0 <= i < acc.len() ==> canonical(#[trigger] acc[i].0) && bounded(acc[i].0, d),
        forall|i: int| 0 <= i < acc.len() ==> canonical(#[trigger] acc[i].1) && bounded(acc[i].1, d),
    ensures
        match norm_pairs(ps, acc) {
            Some(t) => {
                &&& t.len() == acc.len() + ps.len()
                &&& sorted_keys(t)
                &&& forall|i: int| 0 <= i < t.len() ==> canonical(#[trigger] t[i].0) && bounded(
                    t[i].0,
                    d,
                )
                &&& forall|i: int| 0 <= i < t.len() ==> canonical(#[trigger] t[i].1) && bounded(
                    t[i].1,
                    d,
                )
            },
            None => true,
        },
    decreases ps,
{
    if ps.len() > 0 {
        lemma_norm_props(ps[0].0, d);
        lemma_norm_props(ps[0].1, d);
        match norm(ps[0].0) {
            None => {},
            Some(k) => match norm(ps[0].1) {
                None => {},
                Some(v) => {
                    lemma_insert_pair_props((k, v), acc);
                    match insert_pair((k, v), acc) {
                        None => {},
                        Some(acc2) => {
                            assert forall|i: int| 0 <= i < acc2.len() implies
                                canonical(#[trigger] acc2[i].0) && bounded(acc2[i].0, d)
                                && canonical(acc2[i].1) && bounded(acc2[i].1, d) by {
                                assert(acc2[i] == (k, v) || acc.contains(acc2[i]));
                                if acc2[i] != (k, v) {
                                    let l = choose|l: int|
                                        0 <= l < acc.len() && acc[l] == acc2[i];
                                    assert(canonical(acc[l].0) && bounded(acc[l].0, d));
                                    assert(canonical(acc[l].1) && bounded(acc[l].1, d));
                                }
                            }
                            let tail = ps.skip(1);
                            assert(forall|i: int| 0 <= i < tail.len() ==> #[trigger] tail[i]
                                == ps[i + 1]);
                            lemma_norm_pairs_props(tail, acc2, d);
                        },
                    }
                },
            },
        }
    }
}

/// A canonical value is already in normal form.
pub proof fn lemma_norm_of_canonical(m: ValueModel)
    requires
        canonical(m),
    ensures
        norm(m) == Some(m),
    decreases m,
{
    match m {
        ValueModel::Array(es) => {
            lemma_norm_list_of_canonical(es);
        },
        ValueModel::Dict(ps) => {
            assert(Seq::<(ValueModel, ValueModel)>::empty() + ps =~= ps);
            lemma_norm_pairs_of_canonical(ps, Seq::empty());
        },
        _ => {},
    }
}

pub proof fn lemma_norm_list_of_canonical(es: Seq<ValueModel>)
    requires
        forall|i: int| 0 <= i < es.len() ==> canonical(#[trigger] es[i]),
    ensures
        norm_list(es) == Some(es),
    decreases es,
{
    if es.len() == 0 {
        assert(es =~= Seq::<ValueModel>::empty());
    } else {
        lemma_norm_of_canonical(es[0]);
        let tail = es.skip(1);
        assert(forall|i: int| 0 <= i < tail.len() ==> #[trigger] tail[i] == es[i + 1]);
        lemma_norm_list_of_canonical(tail);
        assert(seq![es[0]] + tail =~= es);
    }
}

/// Folding already-sorted, already-canonical pairs onto a sorted prefix
/// appends them in order.
pub proof fn lemma_norm_pairs_of_canonical(
    ps: Seq<(ValueModel, ValueModel)>,
    acc: Seq<(ValueModel, ValueModel)>,
)
    requires
        sorted_keys(acc + ps),
        forall|i: int| 0 <= i < ps.len() ==> canonical(#[trigger] ps[i].0),
        forall|i: int| 0 <= i < ps.len() ==> canonical(#[trigger] ps[i].1),
    ensures
        norm_pairs(ps, acc) == Some(acc + ps),
    decreases ps,
{
    if ps.len() == 0 {
        assert(acc + ps =~= acc);
    } else {
        lemma_norm_of_canonical(ps[0].0);
        lemma_norm_of_canonical(ps[0].1);
        let whole = acc + ps;
        assert forall|j: int| 0 <= j < acc.len() implies
            lex_lt(enc(#[trigger] acc[j].0), enc(ps[0].0)) by {
            assert(whole[j] == acc[j]);
            assert(whole[acc.len() as int] == ps[0]);
            assert(lex_lt(enc(whole[j].0), enc(whole[acc.len() as int].0)));
        }
        lemma_insert_pair_all_lt(ps[0], acc);
        let acc2 = acc.push(ps[0]);
        let tail = ps.skip(1);
        assert(forall|i: int| 0 <= i < tail.len() ==> #[trigger] tail[i] == ps[i + 1]);
        assert(acc2 + tail =~= acc + ps);
        lemma_norm_pairs_of_canonical(tail, acc2);
    }
}

/// The canonical byte form of the value at the front of a byte string,
/// when there is one: bytes past that value's end are ignored.
pub open spec fn canonical_prefix(s: Seq<u8>) -> Option<Seq<u8>> {
    match parse_val(s, MAX_DEPTH as nat) {
        None => None,
        Some((v, used)) => match norm(v) {
            None => None,
            Some(w) => Some(enc(w)),
        },
    }
}

/// Prefix canonicalization is idempotent: its output is one complete
/// canonical value, which canonicalizes to itself.
pub proof fn lemma_canonical_prefix_idempotent(x: Seq<u8>)
    requires
        canonical_prefix(x) is Some,
    ensures
        canonical_prefix(canonical_prefix(x)->0) == canonical_prefix(x),
{
    let v = (parse_val(x, MAX_DEPTH as nat)->0).0;
    let w = norm(v)->0;
    lemma_parse_val_props(x, MAX_DEPTH as nat);
    lemma_norm_props(v, MAX_DEPTH as nat);
    crate::roundtrip::lemma_parse_enc(w, Seq::empty(), MAX_DEPTH as nat);
    assert(enc(w) + Seq::<u8>::empty() =~= enc(w));
    lemma_norm_of_canonical(w);
}

/// Canonicalizing is idempotent: a canonical byte string canonicalizes to
/// itself.
pub proof fn lemma_canonical_bytes_idempotent(x: Seq<u8>)
    requires
        canonical_bytes(x) is Some,
    ensures
        canonical_bytes(canonical_bytes(x)->0) == canonical_bytes(x),
{
    let v = parse_full(x)->0;
    let w = norm(v)->0;
    lemma_parse_val_props(x, MAX_DEPTH as nat);
    lemma_norm_props(v, MAX_DEPTH as nat);
    lemma_parse_full_enc(w);
    lemma_norm_of_canonical(w);
}

/// Canonicalizing is deterministic over logical values: byte strings that
/// decode to values with the same normal form canonicalize identically.
pub proof fn lemma_canonical_bytes_deterministic(x: Seq<u8>, y: Seq<u8>)
    requires
        parse_full(x) is Some,
        parse_full(y) is Some,
        norm(parse_full(x)->0) == norm(parse_full(y)->0),
    ensures
        canonical_bytes(x) == canonical_bytes(y),
{
}

/// Glues normalized prefix elements onto the outcome for the rest.
pub open spec fn glue_norm_list(done: Seq<ValueModel>, r: Option<Seq<ValueModel>>) -> Option<
    Seq<ValueModel>,
> {
    match r {
        None => None,
        Some(t) => Some(done + t),
    }
}

/// Inserts a normalized pair into the sorted output; `false` when its key
/// collides with one already present.
fn insert_sorted(out: &mut Vec<(Value, Value)>, k2: Value, v2: Value) -> (ok: bool)
    ensures
        match insert_pair((k2@, v2@), view_pairs(old(out)@)) {
            Some(t) => ok && view_pairs(final(out)@) == t,
            None => !ok && final(out)@ == old(out)@,
        },
{
    let kb = encode(&k2);
    let ghost acc = view_pairs(old(out)@);
    proof {
        lemma_view_pairs_index(old(out)@);
    }
    let mut j: usize = 0;
    while j < out.len()
        invariant
            j <= out.len(),
            out@ == old(out)@,
            acc == view_pairs(out@),
            acc.len() == out@.len(),
            forall|l: int| 0 <= l < out@.len() ==> #[trigger] acc[l]
                == (view_val(out@[l].0), view_val(out@[l].1)),
            kb@ == enc(k2@),
            forall|l: int| 0 <= l < j ==> lex_lt(enc(#[trigger] acc[l].0), enc(k2@)),
        decreases out.len() - j,
    {
        let ob = encode(&out[j].0);
        assert(ob@ == enc(acc[j as int].0));
        let c = lex_cmp(kb.as_slice(), ob.as_slice());
        if c == 0 {
            proof {
                lemma_insert_pair_dup((k2@, v2@), acc, j as int);
            }
            return false;
        }
        if c < 0 {
            proof {
                lemma_insert_pair_at((k2@, v2@), acc, j as int);
                crate::model::lemma_view_pairs_insert(out@, j as int, k2, v2);
            }
            out.insert(j, (k2, v2));
            return true;
        }
        j = j + 1;
    }
    proof {
        lemma_insert_pair_at((k2@, v2@), acc, out@.len() as int);
        crate::model::lemma_view_pairs_insert(out@, out@.len() as int, k2, v2);
    }
    let n = out.len();
    out.insert(n, (k2, v2));
    true
}

/// Rebuilds `v` in normal form; `None` when a map holds duplicate keys.
pub fn normalize(v: &Value) -> (r: Option<Value>)
    ensures
        match r {
            Some(w) => norm(v@) == Some(w@),
            None => norm(v@) is None,
        },
    decreases *v,
{
    match v {
        Value::Uint(n) => Some(Value::Uint(*n)),
        Value::Nint(n) => Some(Value::Nint(*n)),
        Value::Bytes(b) => Some(Value::Bytes(copy_bytes(b))),
        Value::Text(t) => Some(Value::Text(copy_bytes(t))),
        Value::Bool(b) => Some(Value::Bool(*b)),
        Value::Null => Some(Value::Null),
        Value::Array(es) => {
            let ghost ms = view_list(es@);
            proof {
                lemma_view_list_index(es@);
            }
            let mut out: Vec<Value> = Vec::new();
            proof {
                lemma_view_list_index(out@);
                assert(view_list(out@) =~= Seq::<ValueModel>::empty());
                assert(ms.skip(0) =~= ms);
                match norm_list(ms) {
                    None => {},
                    Some(t) => {
                        assert(view_list(out@) + t =~= t);
                    },
                }
            }
            let mut i: usize = 0;
            while i < es.len()
                invariant
                    i <= es.len(),
                    *v == Value::Array(*es),
                    ms == view_list(es@),
                    ms.len() == es@.len(),
                    forall|k: int| 0 <= k < es@.len() ==> ms[k] == view_val(#[trigger] es@[k]),
                    norm_list(ms) == glue_norm_list(
                        view_list(out@),
                        norm_list(ms.skip(i as int)),
                    ),
                decreases es.len() - i,
            {
                proof {
                    assert(decreases_to!(*v => v->Array_0));
                    vstd::std_specs::vec::axiom_vec_index_decreases(*es, i as int);
                }
                let ghost rem = ms.skip(i as int);
                assert(rem[0] == ms[i as int]);
                match normalize(&es[i]) {
                    None => {
                        assert(norm_list(rem) is None);
                        assert(norm(v@) is None);
                        return None;
                    },
                    Some(w) => {
                        proof {
                            assert(rem.skip(1) =~= ms.skip(i + 1));
                            crate::model::lemma_view_list_push(out@, w);
                            let restn = norm_list(ms.skip(i + 1));
                            assert(norm_list(rem) == match restn {
                                None => None,
                                Some(t) => Some(seq![w@] + t),
                            });
                            match restn {
                                None => {},
                                Some(t) => {
                                    assert(view_list(out@) + (seq![w@] + t)
                                        =~= view_list(out@.push(w)) + t);
                                },
                            }
                        }
                        out.push(w);
                    },
                }
                i = i + 1;
            }
            proof {
                assert(ms.skip(ms.len() as int) =~= Seq::<ValueModel>::empty());
                assert(view_list(out@) + Seq::<ValueModel>::empty() =~= view_list(out@));
            }
            Some(Value::Array(out))
        },
        Value::Dict(ps) => {
            let ghost ms = view_pairs(ps@);
            proof {
                lemma_view_pairs_index(ps@);
            }
            let mut out: Vec<(Value, Value)> = Vec::new();
            proof {
                lemma_view_pairs_index(out@);
                assert(view_pairs(out@) =~= Seq::<(ValueModel, ValueModel)>::empty());
                assert(ms.skip(0) =~= ms);
            }
            let mut i: usize = 0;
            while i < ps.len()
                invariant
                    i <= ps.len(),
                    *v == Value::Dict(*ps),
                    ms == view_pairs(ps@),
                    ms.len() == ps@.len(),
                    forall|k: int| 0 <= k < ps@.len() ==> ms[k]
                        == (view_val(#[trigger] ps@[k].0), view_val(ps@[k].1)),
                    norm_pairs(ms, Seq::empty()) == norm_pairs(
                        ms.skip(i as int),
                        view_pairs(out@),
                    ),
                decreases ps.len() - i,
            {
                proof {
                    assert(decreases_to!(*v => v->Dict_0));
                    vstd::std_specs::vec::axiom_vec_index_decreases(*ps, i as int);
                    assert(decreases_to!(ps@[i as int] => ps@[i as int].0));
                    assert(decreases_to!(ps@[i as int] => ps@[i as int].1));
                }
                let ghost rem = ms.skip(i as int);
                assert(rem[0] == ms[i as int]);
                assert(rem[0].0 == view_val(ps@[i as int].0));
                assert(rem[0].1 == view_val(ps@[i as int].1));
                let k2 = match normalize(&ps[i].0) {
                    None => {
                        assert(norm_pairs(rem, view_pairs(out@)) is None);
                        assert(norm(v@) is None);
                        return None;
                    },
                    Some(w) => w,
                };
                let v2 = match normalize(&ps[i].1) {
                    None => {
                        assert(norm_pairs(rem, view_pairs(out@)) is None);
                        assert(norm(v@) is None);
                        return None;
                    },
                    Some(w) => w,
                };
                let ok = insert_sorted(&mut out, k2, v2);
                if !ok {
                    assert(norm_pairs(rem, view_pairs(out@)) is None);
                    assert(norm(v@) is None);
                    return None;
                }
                proof {
                    assert(rem.skip(1) =~= ms.skip(i + 1));
                }
                i = i + 1;
            }
            proof {
                assert(ms.skip(ms.len() as int) =~= Seq::<(ValueModel, ValueModel)>::empty());
            }
            Some(Value::Dict(out))
        },
    }
}

/// Re-encodes `bytes` into the canonical form of the value they denote.
pub fn canonicalize(bytes: &[u8]) -> (r: Result<Vec<u8>, InvalidEncoding>)
    ensures
        match r {
            Ok(out) => canonical_bytes(bytes@) == Some(out@),
            Err(_) => canonical_bytes(bytes@) is None,
        },
{
    match parse_all(bytes) {
        None => Err(InvalidEncoding),
        Some(v) => match normalize(&v) {
            None => Err(InvalidEncoding),
            Some(w) => Ok(encode(&w)),
        },
    }
}


} // verus!
