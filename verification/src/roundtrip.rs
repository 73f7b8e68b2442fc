//! The binary round-trip law: decoding an encoded tree gives the tree back,
//! so re-encoding what was decoded preserves the value.
use vstd::prelude::*;
use crate::items::{FloatWidth, ItemModel};
use crate::errors::DecodeError;
use crate::binary::{
    be_bytes, be_val, dec, dec_chunks, dec_head, dec_item, dec_list, dec_list_indef, dec_pairs,
    dec_pairs_indef, enc, enc_list, enc_pairs, encodable, head_min, ib, lemma_be_val_bound,
    lemma_encodable_array, lemma_encodable_pairs, pow256,
};
use crate::items::{lemma_wf_array, lemma_wf_pairs};

verus! {

broadcast use vstd::seq::group_seq_axioms;

/// The additional-information value that the shortest head uses for `arg`.
pub open spec fn ai_of(arg: u64) -> u8 {
    if arg < 24 {
        arg as u8
    } else if arg < 256 {
        24
    } else if arg < 65536 {
        25
    } else if arg < 0x1_0000_0000 {
        26
    } else {
        27
    }
}

proof fn lemma_be_roundtrip(val: u64, n: nat)
    requires
        n <= 8,
        val < pow256(n),
    ensures
        be_bytes(val, n).len() == n,
        be_val(be_bytes(val, n)) == val,
    decreases n,
{
    if n > 0 {
        lemma_be_roundtrip(val / 256, (n - 1) as nat);
        assert(be_bytes(val, n).drop_last() =~= be_bytes(val / 256, (n - 1) as nat));
        assert(be_bytes(val, n).last() == (val % 256) as u8);
    }
}

proof fn lemma_pow_values()
    ensures
        pow256(1) == 0x100,
        pow256(2) == 0x10000,
        pow256(4) == 0x1_0000_0000,
        pow256(8) == 0x1_0000_0000_0000_0000,
{
    reveal_with_fuel(pow256, 9);
}

/// Reading a head written by `head_min` gives back its major type and
/// argument and consumes exactly the head.
proof fn lemma_dec_head_min(major: int, arg: u64, rest: Seq<u8>)
    requires
        0 <= major <= 7,
    ensures
        1 <= head_min(major, arg).len() <= 9,
        dec_head(head_min(major, arg) + rest) == Ok::<(u8, u8, u64, int), DecodeError>(
            (major as u8, ai_of(arg), arg, head_min(major, arg).len() as int),
        ),
{
    lemma_pow_values();
    let h = head_min(major, arg);
    let s = h + rest;
    if arg < 24 {
        assert(s[0] == ib(major, arg as int));
        assert(s[0] / 32 == major && s[0] % 32 == arg);
    } else {
        let n: nat = if arg < 256 {
            1
        } else if arg < 65536 {
            2
        } else if arg < 0x1_0000_0000 {
            4
        } else {
            8
        };
        let ai = ai_of(arg);
        lemma_be_roundtrip(arg, n);
        assert(s[0] == ib(major, ai as int));
        assert(s[0] / 32 == major && s[0] % 32 == ai);
        assert(h.len() == 1 + n);
        assert(s.subrange(1, 1 + n as int) =~= be_bytes(arg, n));
        if arg < 256 {
            assert(s[1] == be_bytes(arg, 1)[0]);
            assert(be_bytes(arg, 1) =~= seq![(arg % 256) as u8]);
        }
    }
}

/// The same for a float head written at a fixed width.
proof fn lemma_dec_head_float(ai: u8, n: nat, bits: u64, rest: Seq<u8>)
    requires
        ai == 25 && n == 2 || ai == 26 && n == 4 || ai == 27 && n == 8,
        bits < pow256(n),
    ensures
        dec_head(seq![ib(7, ai as int)] + be_bytes(bits, n) + rest) == Ok::<
            (u8, u8, u64, int),
            DecodeError,
        >((7, ai, bits, 1 + n as int)),
        (seq![ib(7, ai as int)] + be_bytes(bits, n)).len() == 1 + n as int,
{
    lemma_pow_values();
    lemma_be_roundtrip(bits, n);
    let s = seq![ib(7, ai as int)] + be_bytes(bits, n) + rest;
    assert(s[0] == ib(7, ai as int));
    assert(s[0] / 32 == 7 && s[0] % 32 == ai);
    assert(s.subrange(1, 1 + n as int) =~= be_bytes(bits, n));
}

proof fn lemma_dec_enc_uint(n: u64, rest: Seq<u8>)
    ensures
        1 <= enc(ItemModel::Unsigned(n)).len(),
        dec_item(enc(ItemModel::Unsigned(n)) + rest) == Ok::<(ItemModel, int), DecodeError>(
            (ItemModel::Unsigned(n), enc(ItemModel::Unsigned(n)).len() as int),
        ),
{
    lemma_dec_head_min(0, n, rest);
}

proof fn lemma_dec_enc_nint(n: u64, rest: Seq<u8>)
    ensures
        1 <= enc(ItemModel::Negative(n)).len(),
        dec_item(enc(ItemModel::Negative(n)) + rest) == Ok::<(ItemModel, int), DecodeError>(
            (ItemModel::Negative(n), enc(ItemModel::Negative(n)).len() as int),
        ),
{
    lemma_dec_head_min(1, n, rest);
}

proof fn lemma_dec_enc_bytes(b: Seq<u8>, rest: Seq<u8>)
    requires
        b.len() <= u64::MAX,
    ensures
        1 <= enc(ItemModel::Bytes(b)).len(),
        dec_item(enc(ItemModel::Bytes(b)) + rest) == Ok::<(ItemModel, int), DecodeError>(
            (ItemModel::Bytes(b), enc(ItemModel::Bytes(b)).len() as int),
        ),
{
    let s = enc(ItemModel::Bytes(b)) + rest;
    lemma_dec_head_min(2, b.len() as u64, b + rest);
    let h = head_min(2, b.len() as u64);
    assert(h + (b + rest) =~= s);
    assert(s.subrange(h.len() as int, (h.len() + b.len()) as int) =~= b);
}

proof fn lemma_dec_enc_text(t: Seq<u8>, rest: Seq<u8>)
    requires
        t.len() <= u64::MAX,
        crate::utf8::is_utf8(t),
    ensures
        1 <= enc(ItemModel::Text(t)).len(),
        dec_item(enc(ItemModel::Text(t)) + rest) == Ok::<(ItemModel, int), DecodeError>(
            (ItemModel::Text(t), enc(ItemModel::Text(t)).len() as int),
        ),
{
    let s = enc(ItemModel::Text(t)) + rest;
    lemma_dec_head_min(3, t.len() as u64, t + rest);
    let h = head_min(3, t.len() as u64);
    assert(h + (t + rest) =~= s);
    assert(s.subrange(h.len() as int, (h.len() + t.len()) as int) =~= t);
}

proof fn lemma_dec_enc_float(bits: u64, w: FloatWidth, rest: Seq<u8>)
    requires
        ItemModel::Float(bits, w).wf(),
    ensures
        1 <= enc(ItemModel::Float(bits, w)).len(),
        dec_item(enc(ItemModel::Float(bits, w)) + rest) == Ok::<(ItemModel, int), DecodeError>(
            (ItemModel::Float(bits, w), enc(ItemModel::Float(bits, w)).len() as int),
        ),
{
    lemma_pow_values();
    let s = enc(ItemModel::Float(bits, w)) + rest;
    match w {
        FloatWidth::Half => {
            lemma_dec_head_float(25, 2, bits, rest);
            assert(seq![ib(7, 25)] + be_bytes(bits, 2) + rest =~= s);
        },
        FloatWidth::Single => {
            lemma_dec_head_float(26, 4, bits, rest);
            assert(seq![ib(7, 26)] + be_bytes(bits, 4) + rest =~= s);
        },
        FloatWidth::Double => {
            lemma_be_val_bound(be_bytes(bits, 8));
            lemma_dec_head_float(27, 8, bits, rest);
            assert(seq![ib(7, 27)] + be_bytes(bits, 8) + rest =~= s);
        },
    }
}

proof fn lemma_dec_enc_simple(v: u8, rest: Seq<u8>)
    requires
        v <= 23 || v >= 32,
    ensures
        1 <= enc(ItemModel::Simple(v)).len(),
        dec_item(enc(ItemModel::Simple(v)) + rest) == Ok::<(ItemModel, int), DecodeError>(
            (ItemModel::Simple(v), enc(ItemModel::Simple(v)).len() as int),
        ),
{
    let s = enc(ItemModel::Simple(v)) + rest;
    if v < 24 {
        assert(s[0] == ib(7, v as int));
        assert(s[0] / 32 == 7 && s[0] % 32 == v);
    } else {
        assert(s[0] == ib(7, 24));
        assert(s[0] / 32 == 7 && s[0] % 32 == 24);
        assert(s[1] == v);
    }
}

/// Decoding an encoding of a well-formed encodable tree, whatever follows
/// it, returns exactly that tree and consumes exactly the encoding.
#[verifier::rlimit(100)]
pub proof fn lemma_dec_enc(i: ItemModel, rest: Seq<u8>)
    requires
        i.wf(),
        encodable(i),
    ensures
        1 <= enc(i).len(),
        dec_item(enc(i) + rest) == Ok::<(ItemModel, int), DecodeError>((i, enc(i).len() as int)),
    decreases i, 0int,
{
    let s = enc(i) + rest;
    match i {
        ItemModel::Unsigned(n) => {
            lemma_dec_enc_uint(n, rest);
        },
        ItemModel::Negative(n) => {
            lemma_dec_enc_nint(n, rest);
        },
        ItemModel::Bytes(b) => {
            lemma_dec_enc_bytes(b, rest);
        },
        ItemModel::Text(t) => {
            lemma_dec_enc_text(t, rest);
        },
        ItemModel::Array(v) => {
            lemma_dec_head_min(4, v.len() as u64, enc_list(v) + rest);
            let h = head_min(4, v.len() as u64);
            assert(h + (enc_list(v) + rest) =~= s);
            assert(s.skip(h.len() as int) =~= enc_list(v) + rest);
            assert(i == ItemModel::Array(v));
            assert forall|k: int| 0 <= k < v.len() implies ((#[trigger] v[k]).wf() && encodable(
                v[k],
            )) by {
                crate::items::lemma_wf_array_inv(v, k);
                crate::binary::lemma_encodable_array_inv(v, k);
            }
            lemma_dec_enc_list(v, rest);
        },
        ItemModel::Mapping(v) => {
            lemma_dec_head_min(5, v.len() as u64, enc_pairs(v) + rest);
            let h = head_min(5, v.len() as u64);
            assert(h + (enc_pairs(v) + rest) =~= s);
            assert(s.skip(h.len() as int) =~= enc_pairs(v) + rest);
            assert(i == ItemModel::Mapping(v));
            assert forall|k: int| 0 <= k < v.len() implies ((#[trigger] v[k]).0.wf() && v[k].1.wf()
                && encodable(v[k].0) && encodable(v[k].1)) by {
                crate::items::lemma_wf_pairs_inv(v, k);
                crate::binary::lemma_encodable_pairs_inv(v, k);
            }
            lemma_dec_enc_pairs(v, rest);
        },
        ItemModel::Tagged(t, inner) => {
            lemma_dec_head_min(6, t, enc(*inner) + rest);
            let h = head_min(6, t);
            assert(h + (enc(*inner) + rest) =~= s);
            assert(s.skip(h.len() as int) =~= enc(*inner) + rest);
            lemma_dec_enc(*inner, rest);
        },
        ItemModel::Float(bits, w) => {
            lemma_dec_enc_float(bits, w, rest);
        },
        ItemModel::Simple(v) => {
            lemma_dec_enc_simple(v, rest);
        },
        ItemModel::NumLiteral(_) => {},
        ItemModel::AppLiteral(_, _) => {},
    }
}

proof fn lemma_dec_enc_list(v: Seq<ItemModel>, rest: Seq<u8>)
    requires
        forall|k: int| 0 <= k < v.len() ==> (#[trigger] v[k]).wf(),
        forall|k: int| 0 <= k < v.len() ==> encodable(#[trigger] v[k]),
    ensures
        dec_list(enc_list(v) + rest, v.len()) == Ok::<(Seq<ItemModel>, int), DecodeError>(
            (v, enc_list(v).len() as int),
        ),
    decreases v, 1int,
{
    let s = enc_list(v) + rest;
    if v.len() == 0 {
        assert(s =~= rest);
        assert(Seq::<ItemModel>::empty() =~= v);
    } else {
        let first = v[0];
        let tail = v.drop_first();
        assert(enc(first) + (enc_list(tail) + rest) =~= s);
        lemma_dec_enc(first, enc_list(tail) + rest);
        assert(s.skip(enc(first).len() as int) =~= enc_list(tail) + rest);
        assert(forall|k: int| 0 <= k < tail.len() ==> (#[trigger] tail[k]).wf() && encodable(
            tail[k],
        ));
        lemma_dec_enc_list(tail, rest);
        assert(seq![first] + tail =~= v);
        assert(enc_list(v).len() == enc(first).len() + enc_list(tail).len());
    }
}

#[verifier::rlimit(100)]
proof fn lemma_dec_enc_pairs(v: Seq<(ItemModel, ItemModel)>, rest: Seq<u8>)
    requires
        forall|k: int|
            0 <= k < v.len() ==> ((#[trigger] v[k]).0.wf() && v[k].1.wf() && encodable(v[k].0)
                && encodable(v[k].1)),
    ensures
        dec_pairs(enc_pairs(v) + rest, v.len()) == Ok::<
            (Seq<(ItemModel, ItemModel)>, int),
            DecodeError,
        >((v, enc_pairs(v).len() as int)),
    decreases v, 1int,
{
    let s = enc_pairs(v) + rest;
    if v.len() == 0 {
        assert(s =~= rest);
        assert(Seq::<(ItemModel, ItemModel)>::empty() =~= v);
    } else {
        let key = v[0].0;
        let val = v[0].1;
        let tail = v.drop_first();
        let ek = enc(key);
        let ev = enc(val);
        let et = enc_pairs(tail);
        assert(enc_pairs(v) == ek + ev + et);
        assert(s =~= ek + (ev + (et + rest)));
        lemma_dec_enc(key, ev + (et + rest));
        assert(dec_item(s) == Ok::<(ItemModel, int), DecodeError>((key, ek.len() as int)));
        assert(s.skip(ek.len() as int) =~= ev + (et + rest));
        lemma_dec_enc(val, et + rest);
        assert(dec_item(s.skip(ek.len() as int)) == Ok::<(ItemModel, int), DecodeError>(
            (val, ev.len() as int),
        ));
        assert(s.skip(ek.len() as int).skip(ev.len() as int) =~= et + rest);
        assert(s.skip((ek.len() + ev.len()) as int) =~= et + rest);
        assert(forall|k: int|
            0 <= k < tail.len() ==> ((#[trigger] tail[k]).0.wf() && tail[k].1.wf() && encodable(
                tail[k].0,
            ) && encodable(tail[k].1)));
        lemma_dec_enc_pairs(tail, rest);
        assert(dec_pairs(s.skip((ek.len() + ev.len()) as int), tail.len()) == Ok::<
            (Seq<(ItemModel, ItemModel)>, int),
            DecodeError,
        >((tail, et.len() as int)));
        assert(seq![(key, val)] + tail =~= v);
        assert((ek + ev + et).len() == ek.len() + ev.len() + et.len());
    }
}

/// Bounds on what a successful head read returns.
proof fn lemma_dec_head_wf(s: Seq<u8>)
    ensures
        dec_head(s) matches Ok(p) ==> {
            &&& p.0 <= 7
            &&& p.1 <= 31
            &&& 1 <= p.3 <= s.len()
            &&& (p.1 == 25 ==> p.2 < 0x10000)
            &&& (p.1 == 26 ==> p.2 < 0x1_0000_0000)
        },
{
    lemma_pow_values();
    if s.len() > 0 {
        let ai = s[0] % 32;
        if ai == 25 && s.len() >= 3 {
            lemma_be_val_bound(s.subrange(1, 3));
        }
        if ai == 26 && s.len() >= 5 {
            lemma_be_val_bound(s.subrange(1, 5));
        }
    }
}

/// A decoded item is well-formed and encodable, and consumes at least one
/// byte of the input.
pub proof fn lemma_dec_item_wf(s: Seq<u8>)
    requires
        s.len() <= u64::MAX,
    ensures
        dec_item(s) matches Ok(p) ==> (p.0.wf() && encodable(p.0) && 1 <= p.1 <= s.len()),
    decreases s.len(), 0int, 0int,
{
    lemma_dec_head_wf(s);
    match dec_head(s) {
        Err(_) => {},
        Ok((major, ai, arg, h)) => {
            if !(1 <= h <= s.len()) {
            } else if major == 2 || major == 3 {
                if ai == 31 {
                    lemma_dec_chunks_wf(s.skip(h), major);
                } else {
                }
            } else if major == 4 {
                if ai == 31 {
                    lemma_dec_list_indef_wf(s.skip(h));
                    match dec_list_indef(s.skip(h)) {
                        Ok(p) => {
                            lemma_wf_array(p.0);
                            lemma_encodable_array(p.0);
                        },
                        Err(_) => {},
                    }
                } else {
                    lemma_dec_list_wf(s.skip(h), arg as nat);
                    match dec_list(s.skip(h), arg as nat) {
                        Ok(p) => {
                            lemma_wf_array(p.0);
                            lemma_encodable_array(p.0);
                        },
                        Err(_) => {},
                    }
                }
            } else if major == 5 {
                if ai == 31 {
                    lemma_dec_pairs_indef_wf(s.skip(h));
                    match dec_pairs_indef(s.skip(h)) {
                        Ok(p) => {
                            lemma_wf_pairs(p.0);
                            lemma_encodable_pairs(p.0);
                        },
                        Err(_) => {},
                    }
                } else {
                    lemma_dec_pairs_wf(s.skip(h), arg as nat);
                    match dec_pairs(s.skip(h), arg as nat) {
                        Ok(p) => {
                            lemma_wf_pairs(p.0);
                            lemma_encodable_pairs(p.0);
                        },
                        Err(_) => {},
                    }
                }
            } else if major == 6 {
                if ai != 31 {
                    lemma_dec_item_wf(s.skip(h));
                }
            } else {
            }
        },
    }
}

proof fn lemma_dec_list_wf(s: Seq<u8>, n: nat)
    requires
        s.len() <= u64::MAX,
        n <= u64::MAX,
    ensures
        dec_list(s, n) matches Ok(p) ==> {
            &&& forall|k: int| 0 <= k < p.0.len() ==> ((#[trigger] p.0[k]).wf() && encodable(p.0[k]))
            &&& p.0.len() == n
            &&& 0 <= p.1 <= s.len()
        },
    decreases s.len(), 1int, n,
{
    if n == 0 {
    } else {
        lemma_dec_item_wf(s);
        match dec_item(s) {
            Err(_) => {},
            Ok((item, u)) => {
                if 1 <= u <= s.len() {
                    lemma_dec_list_wf(s.skip(u), (n - 1) as nat);
                }
            },
        }
    }
}

proof fn lemma_dec_list_indef_wf(s: Seq<u8>)
    requires
        s.len() <= u64::MAX,
    ensures
        dec_list_indef(s) matches Ok(p) ==> {
            &&& forall|k: int| 0 <= k < p.0.len() ==> ((#[trigger] p.0[k]).wf() && encodable(p.0[k]))
            &&& p.0.len() <= s.len()
            &&& 1 <= p.1 <= s.len()
        },
    decreases s.len(), 1int, 0int,
{
    if s.len() == 0 || s[0] == 0xFF {
    } else {
        lemma_dec_item_wf(s);
        match dec_item(s) {
            Err(_) => {},
            Ok((item, u)) => {
                if 1 <= u <= s.len() {
                    lemma_dec_list_indef_wf(s.skip(u));
                }
            },
        }
    }
}

proof fn lemma_dec_pairs_wf(s: Seq<u8>, n: nat)
    requires
        s.len() <= u64::MAX,
        n <= u64::MAX,
    ensures
        dec_pairs(s, n) matches Ok(p) ==> {
            &&& forall|k: int|
                0 <= k < p.0.len() ==> ((#[trigger] p.0[k]).0.wf() && p.0[k].1.wf() && encodable(
                    p.0[k].0,
                ) && encodable(p.0[k].1))
            &&& p.0.len() == n
            &&& 0 <= p.1 <= s.len()
        },
    decreases s.len(), 1int, n,
{
    if n == 0 {
    } else {
        lemma_dec_item_wf(s);
        match dec_item(s) {
            Err(_) => {},
            Ok((key, u)) => {
                if 1 <= u <= s.len() {
                    lemma_dec_item_wf(s.skip(u));
                    match dec_item(s.skip(u)) {
                        Err(_) => {},
                        Ok((val, u2)) => {
                            if 1 <= u2 <= s.len() - u {
                                lemma_dec_pairs_wf(s.skip(u + u2), (n - 1) as nat);
                            }
                        },
                    }
                }
            },
        }
    }
}

proof fn lemma_dec_pairs_indef_wf(s: Seq<u8>)
    requires
        s.len() <= u64::MAX,
    ensures
        dec_pairs_indef(s) matches Ok(p) ==> {
            &&& forall|k: int|
                0 <= k < p.0.len() ==> ((#[trigger] p.0[k]).0.wf() && p.0[k].1.wf() && encodable(
                    p.0[k].0,
                ) && encodable(p.0[k].1))
            &&& p.0.len() <= s.len()
            &&& 1 <= p.1 <= s.len()
        },
    decreases s.len(), 1int, 0int,
{
    if s.len() == 0 || s[0] == 0xFF {
    } else {
        lemma_dec_item_wf(s);
        match dec_item(s) {
            Err(_) => {},
            Ok((key, u)) => {
                if 1 <= u <= s.len() {
                    lemma_dec_item_wf(s.skip(u));
                    match dec_item(s.skip(u)) {
                        Err(_) => {},
                        Ok((val, u2)) => {
                            if 1 <= u2 <= s.len() - u {
                                lemma_dec_pairs_indef_wf(s.skip(u + u2));
                            }
                        },
                    }
                }
            },
        }
    }
}

proof fn lemma_dec_chunks_wf(s: Seq<u8>, major: u8)
    ensures
        dec_chunks(s, major) matches Ok(p) ==> (p.0.len() <= s.len() && 1 <= p.1 <= s.len()),
    decreases s.len(), 1int, 0int,
{
    if s.len() == 0 || s[0] == 0xFF {
    } else {
        match dec_head(s) {
            Err(_) => {},
            Ok((m, ai, arg, h)) => {
                if m == major && ai != 31 && 1 <= h && arg <= s.len() - h {
                    lemma_dec_chunks_wf(s.skip(h + arg), major);
                }
            },
        }
    }
}

/// The binary round-trip law: a byte sequence that decodes to an item tree,
/// re-encoded, decodes to the same tree. The re-encoding may differ from the
/// input bytes (shorter heads, definite lengths), but never the value.
pub proof fn round_trip_binary(b: Seq<u8>)
    requires
        b.len() <= u64::MAX,
        dec(b) is Ok,
    ensures
        dec(b) matches Ok(i) ==> dec(enc(i)) == Ok::<ItemModel, DecodeError>(i),
{
    let i = dec(b)->Ok_0;
    lemma_dec_item_wf(b);
    lemma_dec_enc(i, Seq::empty());
    assert(enc(i) + Seq::<u8>::empty() =~= enc(i));
}

} // verus!
