//! The executable CBOR encoder, proved to write exactly the bytes that the
//! specification function `binary::enc` names.
use vstd::prelude::*;
use crate::items::{Item, ItemModel, FloatWidth, models_of, pair_models_of};
use crate::errors::EncodeError;
use crate::binary::{
    lemma_array_clean, lemma_array_witness, lemma_encodable_array, lemma_encodable_array_inv,
    lemma_encodable_pairs, lemma_encodable_pairs_inv, lemma_pairs_clean, lemma_pairs_witness,
    clean_pair,
    be_bytes, contains_app_literal, contains_num_literal, enc, enc_list, enc_pairs, encodable,
    head_min,
};

verus! {

broadcast use vstd::std_specs::vec::group_vec_axioms, vstd::seq::group_seq_axioms;

pub proof fn lemma_enc_list_push(p: Seq<ItemModel>, x: ItemModel)
    ensures
        enc_list(p.push(x)) == enc_list(p) + enc(x),
    decreases p.len(),
{
    if p.len() == 0 {
        assert(p.push(x).drop_first() =~= p);
        assert(p.push(x)[0] == x);
        assert(enc_list(p.push(x)) =~= enc_list(p) + enc(x));
    } else {
        assert(p.push(x).drop_first() =~= p.drop_first().push(x));
        assert(p.push(x)[0] == p[0]);
        lemma_enc_list_push(p.drop_first(), x);
        assert(enc(p[0]) + (enc_list(p.drop_first()) + enc(x)) =~= (enc(p[0]) + enc_list(
            p.drop_first(),
        )) + enc(x));
    }
}

pub proof fn lemma_enc_pairs_push(p: Seq<(ItemModel, ItemModel)>, x: (ItemModel, ItemModel))
    ensures
        enc_pairs(p.push(x)) == enc_pairs(p) + enc(x.0) + enc(x.1),
    decreases p.len(),
{
    if p.len() == 0 {
        assert(p.push(x).drop_first() =~= p);
        assert(p.push(x)[0] == x);
        assert(enc_pairs(p.push(x)) =~= enc_pairs(p) + enc(x.0) + enc(x.1));
    } else {
        assert(p.push(x).drop_first() =~= p.drop_first().push(x));
        assert(p.push(x)[0] == p[0]);
        lemma_enc_pairs_push(p.drop_first(), x);
        assert(enc(p[0].0) + enc(p[0].1) + (enc_pairs(p.drop_first()) + enc(x.0) + enc(x.1)) =~= (
        enc(p[0].0) + enc(p[0].1) + enc_pairs(p.drop_first())) + enc(x.0) + enc(x.1));
    }
}

/// A tree without unresolved literals built from real vectors is encodable:
/// every length in it fits the head.
pub proof fn lemma_exec_encodable(i: Item)
    ensures
        !contains_app_literal(i.model()) && !contains_num_literal(i.model()) ==> encodable(
            i.model(),
        ),
    decreases i,
{
    match i {
        Item::Array(v) => {
            vstd::std_specs::vec::axiom_spec_len(&v);
            let m = models_of(v@);
            assert(i.model() == ItemModel::Array(m));
            if !contains_app_literal(i.model()) && !contains_num_literal(i.model()) {
                assert forall|j: int| 0 <= j < m.len() implies encodable(#[trigger] m[j]) by {
                    assert(m[j] == v@[j].model());
                    lemma_array_witness(m, j);
                    lemma_exec_encodable(v@[j]);
                }
                lemma_encodable_array(m);
                assert(encodable(i.model()));
            }
        },
        Item::Mapping(v) => {
            vstd::std_specs::vec::axiom_spec_len(&v);
            let m = pair_models_of(v@);
            assert(i.model() == ItemModel::Mapping(m));
            if !contains_app_literal(i.model()) && !contains_num_literal(i.model()) {
                assert forall|j: int| 0 <= j < m.len() implies (encodable(#[trigger] m[j].0)
                    && encodable(m[j].1)) by {
                    assert(m[j] == (v@[j].0.model(), v@[j].1.model()));
                    lemma_pairs_witness(m, j);
                    lemma_exec_encodable(v@[j].0);
                    lemma_exec_encodable(v@[j].1);
                }
                lemma_encodable_pairs(m);
                assert(encodable(i.model()));
            }
        },
        Item::Tagged(_, inner) => {
            lemma_exec_encodable(*inner);
        },
        Item::Bytes(b) => {
            vstd::std_specs::vec::axiom_spec_len(&b);
        },
        Item::Text(t) => {
            vstd::std_specs::vec::axiom_spec_len(&t);
        },
        _ => {},
    }
}

/// An unresolved literal anywhere makes the tree non-encodable.
pub proof fn lemma_blocker_not_encodable(m: ItemModel)
    ensures
        contains_app_literal(m) || contains_num_literal(m) ==> !encodable(m),
    decreases m,
{
    match m {
        ItemModel::Array(v) => {
            if contains_app_literal(m) || contains_num_literal(m) {
                if contains_app_literal(m) {
                    let j = choose|j: int|
                        0 <= j < v.len() && contains_app_literal(#[trigger] v[j]);
                    lemma_blocker_not_encodable(v[j]);
                } else {
                    let j = choose|j: int|
                        0 <= j < v.len() && contains_num_literal(#[trigger] v[j]);
                    lemma_blocker_not_encodable(v[j]);
                }
            }
        },
        ItemModel::Mapping(v) => {
            if contains_app_literal(m) {
                let j = choose|j: int|
                    0 <= j < v.len() && (contains_app_literal(#[trigger] v[j].0)
                        || contains_app_literal(v[j].1));
                lemma_blocker_not_encodable(v[j].0);
                lemma_blocker_not_encodable(v[j].1);
            } else if contains_num_literal(m) {
                let j = choose|j: int|
                    0 <= j < v.len() && (contains_num_literal(#[trigger] v[j].0)
                        || contains_num_literal(v[j].1));
                lemma_blocker_not_encodable(v[j].0);
                lemma_blocker_not_encodable(v[j].1);
            }
        },
        ItemModel::Tagged(_, inner) => {
            lemma_blocker_not_encodable(*inner);
        },
        _ => {},
    }
}

/// Appends `val` as `n` big-endian bytes.
fn w_be(val: u64, n: usize, out: &mut Vec<u8>)
    requires
        n <= 8,
    ensures
        final(out)@ == old(out)@ + be_bytes(val, n as nat),
    decreases n,
{
    if n > 0 {
        w_be(val / 256, n - 1, out);
        out.push((val % 256) as u8);
        proof {
            assert(final(out)@ =~= old(out)@ + be_bytes(val, n as nat));
        }
    } else {
        proof {
            assert(out@ =~= out@ + be_bytes(val, 0));
        }
    }
}

/// Appends the shortest head for a major type and argument.
fn w_head(major: u8, arg: u64, out: &mut Vec<u8>)
    requires
        major <= 7,
    ensures
        final(out)@ == old(out)@ + head_min(major as int, arg),
{
    if arg < 24 {
        out.push(major * 32 + arg as u8);
        proof {
            assert(final(out)@ =~= old(out)@ + head_min(major as int, arg));
        }
    } else {
        let (ai, n): (u8, usize) = if arg < 256 {
            (24, 1)
        } else if arg < 65536 {
            (25, 2)
        } else if arg < 0x1_0000_0000 {
            (26, 4)
        } else {
            (27, 8)
        };
        out.push(major * 32 + ai);
        let ghost mid = out@;
        w_be(arg, n, out);
        proof {
            assert(final(out)@ =~= old(out)@ + head_min(major as int, arg));
        }
    }
}

/// Appends the encoding of one item.
#[verifier::loop_isolation(false)]
fn enc_item(i: &Item, out: &mut Vec<u8>)
    requires
        encodable(i.model()),
    ensures
        final(out)@ == old(out)@ + enc(i.model()),
    decreases i,
{
    match i {
        Item::Unsigned(n) => {
            w_head(0, *n, out);
        },
        Item::Negative(n) => {
            w_head(1, *n, out);
        },
        Item::Bytes(b) => {
            w_head(2, b.len() as u64, out);
            let ghost mid = out@;
            append_bytes(b, out);
            proof {
                assert(final(out)@ =~= old(out)@ + enc(i.model()));
            }
        },
        Item::Text(t) => {
            w_head(3, t.len() as u64, out);
            let ghost mid = out@;
            append_bytes(t, out);
            proof {
                assert(final(out)@ =~= old(out)@ + enc(i.model()));
            }
        },
        Item::Array(v) => {
            let ghost m = models_of(v@);
            proof {
                assert(i.model() == ItemModel::Array(m));
            }
            w_head(4, v.len() as u64, out);
            let ghost base = out@;
            let mut j: usize = 0;
            while j < v.len()
                invariant
                    j <= v@.len(),
                    m == models_of(v@),
                    out@ == base + enc_list(m.take(j as int)),
                decreases v@.len() - j,
            {
                proof {
                    assert(decreases_to!(*i => i->Array_0));
                    assert(i->Array_0 == *v);
                    assert(decreases_to!(*v => v@[j as int]));
                    assert(m[j as int] == v@[j as int].model());
                    lemma_encodable_array_inv(m, j as int);
                }
                enc_item(&v[j], out);
                proof {
                    lemma_enc_list_push(m.take(j as int), m[j as int]);
                    assert(m.take(j + 1) =~= m.take(j as int).push(m[j as int]));
                    assert(base + enc_list(m.take(j as int)) + enc(m[j as int]) =~= base + (
                    enc_list(m.take(j as int)) + enc(m[j as int])));
                }
                j = j + 1;
            }
            proof {
                assert(m.take(v@.len() as int) =~= m);
                assert(base + enc_list(m) =~= old(out)@ + enc(i.model()));
            }
        },
        Item::Mapping(v) => {
            let ghost m = pair_models_of(v@);
            proof {
                assert(i.model() == ItemModel::Mapping(m));
            }
            w_head(5, v.len() as u64, out);
            let ghost base = out@;
            let mut j: usize = 0;
            while j < v.len()
                invariant
                    j <= v@.len(),
                    m == pair_models_of(v@),
                    out@ == base + enc_pairs(m.take(j as int)),
                decreases v@.len() - j,
            {
                proof {
                    assert(decreases_to!(*i => i->Mapping_0));
                    assert(i->Mapping_0 == *v);
                    assert(decreases_to!(*v => v@[j as int]));
                    assert(decreases_to!(v@[j as int] => v@[j as int].0));
                    assert(decreases_to!(v@[j as int] => v@[j as int].1));
                    assert(m[j as int] == (v@[j as int].0.model(), v@[j as int].1.model()));
                    lemma_encodable_pairs_inv(m, j as int);
                }
                enc_item(&v[j].0, out);
                enc_item(&v[j].1, out);
                proof {
                    lemma_enc_pairs_push(m.take(j as int), m[j as int]);
                    assert(m.take(j + 1) =~= m.take(j as int).push(m[j as int]));
                    assert(base + enc_pairs(m.take(j as int)) + enc(m[j as int].0) + enc(
                        m[j as int].1,
                    ) =~= base + (enc_pairs(m.take(j as int)) + enc(m[j as int].0) + enc(
                        m[j as int].1,
                    )));
                }
                j = j + 1;
            }
            proof {
                assert(m.take(v@.len() as int) =~= m);
                assert(base + enc_pairs(m) =~= old(out)@ + enc(i.model()));
            }
        },
        Item::Tagged(t, inner) => {
            w_head(6, *t, out);
            let ghost mid = out@;
            enc_item(&**inner, out);
            proof {
                assert(final(out)@ =~= old(out)@ + enc(i.model()));
            }
        },
        Item::Float(bits, w) => {
            let n: usize = match w {
                FloatWidth::Half => 2,
                FloatWidth::Single => 4,
                FloatWidth::Double => 8,
            };
            let ai: u8 = match w {
                FloatWidth::Half => 25,
                FloatWidth::Single => 26,
                FloatWidth::Double => 27,
            };
            out.push(7 * 32 + ai);
            let ghost mid = out@;
            w_be(*bits, n, out);
            proof {
                assert(final(out)@ =~= old(out)@ + enc(i.model()));
            }
        },
        Item::Simple(s) => {
            if *s < 24 {
                out.push(7 * 32 + *s);
            } else {
                out.push(0xF8);
                out.push(*s);
            }
            proof {
                assert(final(out)@ =~= old(out)@ + enc(i.model()));
            }
        },
        Item::NumLiteral(_) => {
            proof {
                assert(out@ =~= out@ + enc(i.model()));
            }
        },
        Item::AppLiteral(_, _) => {
            proof {
                assert(out@ =~= out@ + enc(i.model()));
            }
        },
    }
}

/// Appends all of `b` to `out`.
fn append_bytes(b: &Vec<u8>, out: &mut Vec<u8>)
    ensures
        final(out)@ == old(out)@ + b@,
{
    let ghost base = out@;
    let mut j: usize = 0;
    while j < b.len()
        invariant
            j <= b@.len(),
            out@ =~= base + b@.take(j as int),
        decreases b@.len() - j,
    {
        out.push(b[j]);
        proof {
            assert(base + b@.take(j as int) + seq![b@[j as int]] =~= base + b@.take(j + 1));
        }
        j = j + 1;
    }
    proof {
        assert(b@.take(b@.len() as int) =~= b@);
    }
}

/// Looks for the leftmost unresolved parser-level literal.
#[verifier::loop_isolation(false)]
fn find_blocker(i: &Item) -> (r: Option<EncodeError>)
    ensures
        r is None <==> (!contains_app_literal(i.model()) && !contains_num_literal(i.model())),
        r matches Some(e) ==> ((e == EncodeError::UnresolvedApplicationLiteral
            ==> contains_app_literal(i.model())) && (e == EncodeError::UnresolvedNumber
            ==> contains_num_literal(i.model()))),
    decreases i,
{
    match i {
        Item::AppLiteral(_, _) => Some(EncodeError::UnresolvedApplicationLiteral),
        Item::NumLiteral(_) => Some(EncodeError::UnresolvedNumber),
        Item::Tagged(_, inner) => find_blocker(&**inner),
        Item::Array(v) => {
            let ghost m = models_of(v@);
            let mut j: usize = 0;
            while j < v.len()
                invariant
                    j <= v@.len(),
                    m == models_of(v@),
                    forall|k: int|
                        0 <= k < j ==> (!contains_app_literal(#[trigger] m[k])
                            && !contains_num_literal(m[k])),
                decreases v@.len() - j,
            {
                proof {
                    assert(decreases_to!(*i => i->Array_0));
                    assert(i->Array_0 == *v);
                    assert(decreases_to!(*v => v@[j as int]));
                }
                let r = find_blocker(&v[j]);
                if r.is_some() {
                    proof {
                        assert(m[j as int] == v@[j as int].model());
                        lemma_array_witness(m, j as int);
                    }
                    return r;
                }
                proof {
                    assert(m[j as int] == v@[j as int].model());
                }
                j = j + 1;
            }
            proof {
                lemma_array_clean(m);
            }
            None
        },
        Item::Mapping(v) => {
            let ghost m = pair_models_of(v@);
            let mut j: usize = 0;
            while j < v.len()
                invariant
                    j <= v@.len(),
                    m == pair_models_of(v@),
                    forall|k: int| 0 <= k < j ==> clean_pair(#[trigger] m[k]),
                decreases v@.len() - j,
            {
                proof {
                    assert(decreases_to!(*i => i->Mapping_0));
                    assert(i->Mapping_0 == *v);
                    assert(decreases_to!(*v => v@[j as int]));
                    assert(decreases_to!(v@[j as int] => v@[j as int].0));
                    assert(decreases_to!(v@[j as int] => v@[j as int].1));
                }
                let r = find_blocker(&v[j].0);
                if r.is_some() {
                    proof {
                        assert(m[j as int] == (v@[j as int].0.model(), v@[j as int].1.model()));
                        lemma_pairs_witness(m, j as int);
                    }
                    return r;
                }
                let r = find_blocker(&v[j].1);
                if r.is_some() {
                    proof {
                        assert(m[j as int] == (v@[j as int].0.model(), v@[j as int].1.model()));
                        lemma_pairs_witness(m, j as int);
                    }
                    return r;
                }
                proof {
                    assert(m[j as int] == (v@[j as int].0.model(), v@[j as int].1.model()));
                    assert(clean_pair(m[j as int]));
                }
                j = j + 1;
            }
            proof {
                lemma_pairs_clean(m);
            }
            None
        },
        _ => None,
    }
}

/// Encodes one item tree to CBOR bytes. Fails exactly when the tree still
/// holds an unresolved application or number literal.
pub fn encode_item(i: &Item) -> (r: Result<Vec<u8>, EncodeError>)
    ensures
        match r {
            Ok(b) => encodable(i.model()) && b@ == enc(i.model()),
            Err(e) => !encodable(i.model()) && (e == EncodeError::UnresolvedApplicationLiteral
                ==> contains_app_literal(i.model())) && (e == EncodeError::UnresolvedNumber
                ==> contains_num_literal(i.model())),
        },
{
    match find_blocker(i) {
        Some(e) => {
            proof {
                lemma_blocker_not_encodable(i.model());
            }
            Err(e)
        },
        None => {
            proof {
                lemma_exec_encodable(*i);
            }
            let mut out: Vec<u8> = Vec::new();
            enc_item(i, &mut out);
            proof {
                assert(out@ =~= enc(i.model()));
            }
            Ok(out)
        },
    }
}

} // verus!
