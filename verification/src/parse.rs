//! Decoding of self-describing binary values.
//!
//! The grammar accepted here is deliberately wider than the canonical form:
//! integer arguments may be non-minimal, and map keys may appear in any
//! order. Indefinite-length items, tags and simple values are rejected, as
//! is nesting deeper than `MAX_DEPTH`, so decoding always terminates and
//! never recurses unboundedly on adversarial input.

use vstd::prelude::*;
use crate::model::{Value, ValueModel, view_val, view_list, view_pairs};

verus! {

/// `256^k`, the number of values of a `k`-byte big-endian argument.
pub open spec fn from_be(s: Seq<u8>) -> nat
    decreases s.len(),
{
    if s.len() == 0 {
        0
    } else {
        from_be(s.drop_last()) * 256 + (s.last() as nat)
    }
}

pub proof fn lemma_from_be_bound(s: Seq<u8>)
    ensures
        from_be(s) < crate::encode::pow256(s.len()),
    decreases s.len(),
{
    if s.len() > 0 {
        lemma_from_be_bound(s.drop_last());
    }
}

/// The head of an item: major type, argument, bytes consumed.
pub open spec fn parse_head(s: Seq<u8>) -> Option<(u8, nat, nat)> {
    if s.len() == 0 {
        None
    } else {
        let major = s[0] / 32;
        let info = s[0] % 32;
        if info < 24 {
            Some((major, info as nat, 1))
        } else if info == 24 {
            if s.len() >= 2 {
                Some((major, from_be(s.subrange(1, 2)), 2))
            } else {
                None
            }
        } else if info == 25 {
            if s.len() >= 3 {
                Some((major, from_be(s.subrange(1, 3)), 3))
            } else {
                None
            }
        } else if info == 26 {
            if s.len() >= 5 {
                Some((major, from_be(s.subrange(1, 5)), 5))
            } else {
                None
            }
        } else if info == 27 {
            if s.len() >= 9 {
                Some((major, from_be(s.subrange(1, 9)), 9))
            } else {
                None
            }
        } else {
            // indefinite-length and reserved arguments
            None
        }
    }
}

/// One value, with the number of bytes it occupied. `d` bounds the
/// container nesting that may still be entered.
pub open spec fn parse_val(s: Seq<u8>, d: nat) -> Option<(ValueModel, nat)>
    decreases s.len(), 0nat,
{
    if d == 0 {
        None
    } else {
        match parse_head(s) {
            None => None,
            Some((major, arg, used)) => {
                if !(1 <= used <= s.len() && arg < 0x1_0000_0000_0000_0000) {
                    None
                } else if major == 0 {
                    Some((ValueModel::Uint(arg as u64), used))
                } else if major == 1 {
                    Some((ValueModel::Nint(arg as u64), used))
                } else if major == 2 {
                    if used + arg <= s.len() {
                        Some((ValueModel::Bytes(s.subrange(used as int, (used + arg) as int)),
                            used + arg))
                    } else {
                        None
                    }
                } else if major == 3 {
                    if used + arg <= s.len() {
                        Some((ValueModel::Text(s.subrange(used as int, (used + arg) as int)),
                            used + arg))
                    } else {
                        None
                    }
                } else if major == 4 {
                    match parse_list(s.skip(used as int), arg, (d - 1) as nat) {
                        None => None,
                        Some((es, used2)) => Some((ValueModel::Array(es), used + used2)),
                    }
                } else if major == 5 {
                    match parse_pairs(s.skip(used as int), arg, (d - 1) as nat) {
                        None => None,
                        Some((ps, used2)) => Some((ValueModel::Dict(ps), used + used2)),
                    }
                } else if major == 7 {
                    // only the one-byte simple values false, true and null;
                    // floats and wider simple values are outside the grammar
                    if used == 1 && arg == 20 {
                        Some((ValueModel::Bool(false), 1))
                    } else if used == 1 && arg == 21 {
                        Some((ValueModel::Bool(true), 1))
                    } else if used == 1 && arg == 22 {
                        Some((ValueModel::Null, 1))
                    } else {
                        None
                    }
                } else {
                    // tags are outside the accepted grammar
                    None
                }
            },
        }
    }
}

/// `count` consecutive values.
pub open spec fn parse_list(s: Seq<u8>, count: nat, d: nat) -> Option<(Seq<ValueModel>, nat)>
    decreases s.len(), count,
{
    if count == 0 {
        Some((Seq::empty(), 0))
    } else {
        match parse_val(s, d) {
            None => None,
            Some((v, used)) => {
                if 1 <= used <= s.len() {
                    match parse_list(s.skip(used as int), (count - 1) as nat, d) {
                        None => None,
                        Some((vs, used2)) => Some((seq![v] + vs, used + used2)),
                    }
                } else {
                    None
                }
            },
        }
    }
}

/// `count` consecutive key/value pairs.
pub open spec fn parse_pairs(s: Seq<u8>, count: nat, d: nat) -> Option<
    (Seq<(ValueModel, ValueModel)>, nat),
>
    decreases s.len(), count,
{
    if count == 0 {
        Some((Seq::empty(), 0))
    } else {
        match parse_val(s, d) {
            None => None,
            Some((k, used_k)) => {
                if 1 <= used_k <= s.len() {
                    match parse_val(s.skip(used_k as int), d) {
                        None => None,
                        Some((v, used_v)) => {
                            if 1 <= used_v <= s.len() - used_k {
                                match parse_pairs(
                                    s.skip((used_k + used_v) as int),
                                    (count - 1) as nat,
                                    d,
                                ) {
                                    None => None,
                                    Some((ps, used2)) => Some(
                                        (seq![(k, v)] + ps, used_k + used_v + used2),
                                    ),
                                }
                            } else {
                                None
                            }
                        },
                    }
                } else {
                    None
                }
            },
        }
    }
}

/// A whole byte string as one value: every byte must belong to it.
pub open spec fn parse_full(s: Seq<u8>) -> Option<ValueModel> {
    match parse_val(s, crate::model::MAX_DEPTH as nat) {
        None => None,
        Some((v, used)) => if used == s.len() {
            Some(v)
        } else {
            None
        },
    }
}

/// Parsing consumes at least one byte and at most the whole input, and the
/// result respects the depth bound and argument bounds.
pub proof fn lemma_parse_val_props(s: Seq<u8>, d: nat)
    ensures
        match parse_val(s, d) {
            Some((v, used)) => 1 <= used <= s.len() && crate::model::bounded(v, d),
            None => true,
        },
    decreases s.len(), 0nat,
{
    if d > 0 {
        match parse_head(s) {
            None => {},
            Some((major, arg, used)) => {
                if 1 <= used <= s.len() && arg < 0x1_0000_0000_0000_0000 {
                    if major == 4 {
                        lemma_parse_list_props(s.skip(used as int), arg, (d - 1) as nat);
                    } else if major == 5 {
                        lemma_parse_pairs_props(s.skip(used as int), arg, (d - 1) as nat);
                    }
                }
            },
        }
    }
}

pub proof fn lemma_parse_list_props(s: Seq<u8>, count: nat, d: nat)
    ensures
        match parse_list(s, count, d) {
            Some((vs, used)) => {
                &&& used <= s.len()
                &&& vs.len() == count
                &&& forall|i: int| 0 <= i < vs.len() ==> crate::model::bounded(#[trigger] vs[i], d)
            },
            None => true,
        },
    decreases s.len(), count,
{
    if count > 0 {
        lemma_parse_val_props(s, d);
        match parse_val(s, d) {
            None => {},
            Some((v, used)) => {
                if 1 <= used <= s.len() {
                    lemma_parse_list_props(s.skip(used as int), (count - 1) as nat, d);
                }
            },
        }
    }
}

pub proof fn lemma_parse_pairs_props(s: Seq<u8>, count: nat, d: nat)
    ensures
        match parse_pairs(s, count, d) {
            Some((ps, used)) => {
                &&& used <= s.len()
                &&& ps.len() == count
                &&& forall|i: int| 0 <= i < ps.len() ==> crate::model::bounded(
                    #[trigger] ps[i].0,
                    d,
                )
                &&& forall|i: int| 0 <= i < ps.len() ==> crate::model::bounded(
                    #[trigger] ps[i].1,
                    d,
                )
            },
            None => true,
        },
    decreases s.len(), count,
{
    if count > 0 {
        lemma_parse_val_props(s, d);
        match parse_val(s, d) {
            None => {},
            Some((k, used_k)) => {
                if 1 <= used_k <= s.len() {
                    lemma_parse_val_props(s.skip(used_k as int), d);
                    match parse_val(s.skip(used_k as int), d) {
                        None => {},
                        Some((v, used_v)) => {
                            if 1 <= used_v <= s.len() - used_k {
                                lemma_parse_pairs_props(
                                    s.skip((used_k + used_v) as int),
                                    (count - 1) as nat,
                                    d,
                                );
                            }
                        },
                    }
                }
            },
        }
    }
}

/// Copies `bytes[start..end]` into a fresh vector.
fn copy_range(bytes: &[u8], start: usize, end: usize) -> (out: Vec<u8>)
    requires
        start <= end <= bytes@.len(),
    ensures
        out@ == bytes@.subrange(start as int, end as int),
{
    let mut out: Vec<u8> = Vec::new();
    let mut i: usize = start;
    while i < end
        invariant
            start <= i <= end <= bytes@.len(),
            out@ == bytes@.subrange(start as int, i as int),
        decreases end - i,
    {
        out.push(bytes[i]);
        assert(bytes@.subrange(start as int, i + 1)
            =~= bytes@.subrange(start as int, i as int).push(bytes@[i as int]));
        i = i + 1;
    }
    out
}

/// Reads the head of the item starting at `pos`.
fn parse_head_at(bytes: &[u8], pos: usize) -> (r: Option<(u8, u64, usize)>)
    requires
        pos <= bytes@.len(),
    ensures
        match r {
            Some((major, arg, end)) => {
                &&& pos < end <= bytes@.len()
                &&& major < 8
                &&& parse_head(bytes@.skip(pos as int)) == Some(
                    (major, arg as nat, (end - pos) as nat),
                )
            },
            None => parse_head(bytes@.skip(pos as int)) is None,
        },
{
    let ghost s = bytes@.skip(pos as int);
    if pos >= bytes.len() {
        return None;
    }
    let b = bytes[pos];
    let major: u8 = b / 32;
    let info: u8 = b % 32;
    assert(s[0] == b);
    if info < 24 {
        return Some((major, info as u64, pos + 1));
    }
    let width: usize = if info == 24 {
        1
    } else if info == 25 {
        2
    } else if info == 26 {
        4
    } else if info == 27 {
        8
    } else {
        return None;
    };
    if bytes.len() - (pos + 1) < width {
        assert(s.len() < 1 + width);
        return None;
    }
    let mut arg: u64 = 0;
    let mut j: usize = 0;
    while j < width
        invariant
            j <= width,
            width <= 8,
            pos + 1 + width <= bytes@.len(),
            bytes@.len() <= usize::MAX,
            s == bytes@.skip(pos as int),
            arg as nat == from_be(s.subrange(1, 1 + j)),
            (arg as nat) < crate::encode::pow256(j as nat),
        decreases width - j,
    {
        proof {
            lemma_from_be_bound(s.subrange(1, 1 + j));
            assert(crate::encode::pow256(j as nat) <= crate::encode::pow256(7)) by {
                crate::encode::lemma_pow256_mono(j as nat, 7);
            }
            assert(crate::encode::pow256(7) == 72057594037927936) by {
                reveal_with_fuel(crate::encode::pow256, 8);
            }
        }
        let byte = bytes[pos + 1 + j];
        assert(s[1 + j] == byte);
        let next: u64 = arg * 256 + byte as u64;
        proof {
            assert(s.subrange(1, 1 + j + 1).drop_last() =~= s.subrange(1, 1 + j));
            assert(s.subrange(1, 1 + j + 1).last() == s[1 + j]);
        }
        arg = next;
        j = j + 1;
    }
    let end = pos + 1 + width;
    proof {
        assert(s.subrange(1, 1 + width) =~= s.subrange(1, (end - pos) as int));
    }
    Some((major, arg, end))
}

/// Glues a parsed prefix onto the outcome of parsing the remaining items.
pub open spec fn glue_list(ms: Seq<ValueModel>, off: nat, r: Option<(Seq<ValueModel>, nat)>) -> Option<
    (Seq<ValueModel>, nat),
> {
    match r {
        None => None,
        Some((vs, n)) => Some((ms + vs, off + n)),
    }
}

pub open spec fn glue_pairs(
    ms: Seq<(ValueModel, ValueModel)>,
    off: nat,
    r: Option<(Seq<(ValueModel, ValueModel)>, nat)>,
) -> Option<(Seq<(ValueModel, ValueModel)>, nat)> {
    match r {
        None => None,
        Some((ps, n)) => Some((ms + ps, off + n)),
    }
}

/// Parses the value starting at `pos`, returning it and the position just
/// past its final byte.
#[verifier::rlimit(60)]
pub fn parse_at(bytes: &[u8], pos: usize, d: u8) -> (r: Option<(Value, usize)>)
    requires
        pos <= bytes@.len(),
    ensures
        match r {
            Some((v, end)) => {
                &&& pos < end <= bytes@.len()
                &&& parse_val(bytes@.skip(pos as int), d as nat) == Some(
                    (v@, (end - pos) as nat),
                )
            },
            None => parse_val(bytes@.skip(pos as int), d as nat) is None,
        },
    decreases bytes@.len() - pos,
{
    let ghost s = bytes@.skip(pos as int);
    if d == 0 {
        return None;
    }
    let (major, arg, hend) = match parse_head_at(bytes, pos) {
        None => {
            return None;
        },
        Some(h) => h,
    };
    let ghost hu = (hend - pos) as nat;
    assert(1 <= hu <= s.len());
    if major == 0 {
        Some((Value::Uint(arg), hend))
    } else if major == 1 {
        Some((Value::Nint(arg), hend))
    } else if major == 2 || major == 3 {
        if arg > (bytes.len() - hend) as u64 {
            assert(hu + arg as nat > s.len());
            return None;
        }
        let n = arg as usize;
        let payload = copy_range(bytes, hend, hend + n);
        let end = hend + n;
        proof {
            assert(s.subrange(hu as int, (hu + arg as nat) as int)
                =~= bytes@.subrange(hend as int, end as int));
        }
        if major == 2 {
            Some((Value::Bytes(payload), end))
        } else {
            Some((Value::Text(payload), end))
        }
    } else if major == 4 {
        let mut elems: Vec<Value> = Vec::new();
        let mut cur: usize = hend;
        let mut i: u64 = 0;
        let ghost dm1 = (d - 1) as nat;
        while i < arg
            invariant
                pos < hend <= cur <= bytes@.len(),
                i <= arg,
                s == bytes@.skip(pos as int),
                d >= 1,
                dm1 == (d - 1) as nat,
                parse_head(s) == Some((4u8, arg as nat, (hend - pos) as nat)),
                elems@.len() == i,
                parse_list(bytes@.skip(hend as int), arg as nat, dm1) == glue_list(
                    view_list(elems@),
                    (cur - hend) as nat,
                    parse_list(bytes@.skip(cur as int), (arg - i) as nat, dm1),
                ),
            decreases arg - i,
        {
            match parse_at(bytes, cur, d - 1) {
                None => {
                    proof {
                        assert(parse_list(bytes@.skip(cur as int), (arg - i) as nat, dm1)
                            is None);
                        assert(s.skip((hend - pos) as int) =~= bytes@.skip(hend as int));
                        assert(parse_val(s, d as nat) is None);
                    }
                    return None;
                },
                Some((v, vend)) => {
                    proof {
                        let tail = bytes@.skip(cur as int);
                        assert(tail.skip((vend - cur) as int) =~= bytes@.skip(vend as int));
                        crate::model::lemma_view_list_push(elems@, v);
                        assert(view_list(elems@.push(v)) =~= view_list(elems@) + seq![v@]);
                        let rest = parse_list(bytes@.skip(vend as int), (arg - i - 1) as nat, dm1);
                        assert(parse_list(bytes@.skip(cur as int), (arg - i) as nat, dm1)
                            == glue_list(seq![v@], (vend - cur) as nat, rest));
                        match rest {
                            None => {},
                            Some((vs, n)) => {
                                assert(view_list(elems@) + (seq![v@] + vs)
                                    =~= view_list(elems@.push(v)) + vs);
                            },
                        }
                        assert(glue_list(view_list(elems@), (cur - hend) as nat, glue_list(
                            seq![v@],
                            (vend - cur) as nat,
                            rest,
                        )) == glue_list(view_list(elems@.push(v)), (vend - hend) as nat, rest));
                    }
                    elems.push(v);
                    cur = vend;
                },
            }
            i = i + 1;
        }
        proof {
            assert(parse_list(bytes@.skip(cur as int), 0, dm1) == Some(
                (Seq::<ValueModel>::empty(), 0nat),
            ));
            assert(view_list(elems@) + Seq::<ValueModel>::empty() =~= view_list(elems@));
            assert(parse_list(bytes@.skip(hend as int), arg as nat, dm1) == Some(
                (view_list(elems@), (cur - hend) as nat),
            ));
            assert(s.skip(hu as int) =~= bytes@.skip(hend as int));
        }
        Some((Value::Array(elems), cur))
    } else if major == 5 {
        let mut pairs: Vec<(Value, Value)> = Vec::new();
        let mut cur: usize = hend;
        let mut i: u64 = 0;
        let ghost dm1 = (d - 1) as nat;
        while i < arg
            invariant
                pos < hend <= cur <= bytes@.len(),
                i <= arg,
                s == bytes@.skip(pos as int),
                d >= 1,
                dm1 == (d - 1) as nat,
                parse_head(s) == Some((5u8, arg as nat, (hend - pos) as nat)),
                pairs@.len() == i,
                parse_pairs(bytes@.skip(hend as int), arg as nat, dm1) == glue_pairs(
                    view_pairs(pairs@),
                    (cur - hend) as nat,
                    parse_pairs(bytes@.skip(cur as int), (arg - i) as nat, dm1),
                ),
            decreases arg - i,
        {
            let (k, kend) = match parse_at(bytes, cur, d - 1) {
                None => {
                    proof {
                        assert(parse_pairs(bytes@.skip(cur as int), (arg - i) as nat, dm1)
                            is None);
                        assert(s.skip((hend - pos) as int) =~= bytes@.skip(hend as int));
                        assert(parse_val(s, d as nat) is None);
                    }
                    return None;
                },
                Some(p) => p,
            };
            proof {
                let tail = bytes@.skip(cur as int);
                assert(tail.skip((kend - cur) as int) =~= bytes@.skip(kend as int));
            }
            let (v, vend) = match parse_at(bytes, kend, d - 1) {
                None => {
                    proof {
                        assert(parse_pairs(bytes@.skip(cur as int), (arg - i) as nat, dm1)
                            is None);
                        assert(s.skip((hend - pos) as int) =~= bytes@.skip(hend as int));
                        assert(parse_val(s, d as nat) is None);
                    }
                    return None;
                },
                Some(p) => p,
            };
            proof {
                let tail = bytes@.skip(cur as int);
                assert(tail.skip((kend - cur) as int) =~= bytes@.skip(kend as int));
                assert(tail.skip((vend - cur) as int) =~= bytes@.skip(vend as int));
                crate::model::lemma_view_pairs_push(pairs@, k, v);
                assert(view_pairs(pairs@.push((k, v))) =~= view_pairs(pairs@) + seq![(k@, v@)]);
                let rest = parse_pairs(bytes@.skip(vend as int), (arg - i - 1) as nat, dm1);
                assert(parse_pairs(bytes@.skip(cur as int), (arg - i) as nat, dm1)
                    == glue_pairs(seq![(k@, v@)], (vend - cur) as nat, rest));
                match rest {
                    None => {},
                    Some((ps2, n)) => {
                        assert(view_pairs(pairs@) + (seq![(k@, v@)] + ps2)
                            =~= view_pairs(pairs@.push((k, v))) + ps2);
                    },
                }
                assert(glue_pairs(view_pairs(pairs@), (cur - hend) as nat, glue_pairs(
                    seq![(k@, v@)],
                    (vend - cur) as nat,
                    rest,
                )) == glue_pairs(view_pairs(pairs@.push((k, v))), (vend - hend) as nat, rest));
            }
            pairs.push((k, v));
            cur = vend;
            i = i + 1;
        }
        proof {
            assert(parse_pairs(bytes@.skip(cur as int), 0, dm1) == Some(
                (Seq::<(ValueModel, ValueModel)>::empty(), 0nat),
            ));
            assert(view_pairs(pairs@) + Seq::<(ValueModel, ValueModel)>::empty()
                =~= view_pairs(pairs@));
            assert(parse_pairs(bytes@.skip(hend as int), arg as nat, dm1) == Some(
                (view_pairs(pairs@), (cur - hend) as nat),
            ));
            assert(s.skip(hu as int) =~= bytes@.skip(hend as int));
        }
        Some((Value::Dict(pairs), cur))
    } else if major == 7 {
        if hend == pos + 1 && arg == 20 {
            Some((Value::Bool(false), hend))
        } else if hend == pos + 1 && arg == 21 {
            Some((Value::Bool(true), hend))
        } else if hend == pos + 1 && arg == 22 {
            Some((Value::Null, hend))
        } else {
            None
        }
    } else {
        None
    }
}

/// Parses a byte string that must hold exactly one value.
pub fn parse_all(bytes: &[u8]) -> (r: Option<Value>)
    ensures
        match r {
            Some(v) => parse_full(bytes@) == Some(v@),
            None => parse_full(bytes@) is None,
        },
{
    proof {
        assert(bytes@.skip(0) =~= bytes@);
    }
    match parse_at(bytes, 0, crate::model::MAX_DEPTH) {
        None => None,
        Some((v, end)) => {
            if end == bytes.len() {
                Some(v)
            } else {
                None
            }
        },
    }
}

} // verus!
