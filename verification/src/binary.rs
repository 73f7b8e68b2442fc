//! Specification of the CBOR binary form (RFC 8949): what a byte sequence
//! means (`dec_item`) and which bytes an item tree is written as (`enc`).
//! The executable decoder and encoder are proved against these functions.
use vstd::prelude::*;
use crate::items::{FloatWidth, ItemModel};
use crate::errors::DecodeError;
use crate::utf8::is_utf8;

verus! {

broadcast use vstd::seq::group_seq_axioms;

/// 256^n.
pub open spec fn pow256(n: nat) -> nat
    decreases n,
{
    if n == 0 {
        1
    } else {
        256 * pow256((n - 1) as nat)
    }
}

/// Larger exponents give larger powers.
pub proof fn lemma_pow256_mono(a: nat, b: nat)
    requires
        a <= b,
    ensures
        pow256(a) <= pow256(b),
    decreases b,
{
    if a < b {
        lemma_pow256_mono(a, (b - 1) as nat);
    }
}

/// A big-endian value fits in its byte count.
pub proof fn lemma_be_val_bound(s: Seq<u8>)
    ensures
        be_val(s) < pow256(s.len()),
    decreases s.len(),
{
    if s.len() > 0 {
        lemma_be_val_bound(s.drop_last());
    }
}

/// The value `val`, big-endian, in `n` bytes (low 8*n bits).
pub open spec fn be_bytes(val: u64, n: nat) -> Seq<u8>
    decreases n,
{
    if n == 0 {
        Seq::empty()
    } else {
        be_bytes(val / 256, (n - 1) as nat).push((val % 256) as u8)
    }
}

/// The value of a big-endian byte sequence.
pub open spec fn be_val(s: Seq<u8>) -> nat
    decreases s.len(),
{
    if s.len() == 0 {
        0
    } else {
        (be_val(s.drop_last()) * 256 + s.last()) as nat
    }
}

/// An initial byte: major type in the high 3 bits, additional info below.
pub open spec fn ib(major: int, ai: int) -> u8 {
    (major * 32 + ai) as u8
}

/// The shortest head encoding a major type and its argument.
pub open spec fn head_min(major: int, arg: u64) -> Seq<u8> {
    if arg < 24 {
        seq![ib(major, arg as int)]
    } else if arg < 256 {
        seq![ib(major, 24)] + be_bytes(arg, 1)
    } else if arg < 65536 {
        seq![ib(major, 25)] + be_bytes(arg, 2)
    } else if arg < 0x1_0000_0000 {
        seq![ib(major, 26)] + be_bytes(arg, 4)
    } else {
        seq![ib(major, 27)] + be_bytes(arg, 8)
    }
}

/// The CBOR encoding of an item. Floats are written at their hinted width;
/// arrays and maps are always definite-length; integers and lengths take
/// the shortest head. Unresolved parser-level literals encode as nothing
/// (`encodable` rules them out).
pub open spec fn enc(i: ItemModel) -> Seq<u8>
    decreases i,
{
    match i {
        ItemModel::Unsigned(n) => head_min(0, n),
        ItemModel::Negative(n) => head_min(1, n),
        ItemModel::Bytes(b) => head_min(2, b.len() as u64) + b,
        ItemModel::Text(t) => head_min(3, t.len() as u64) + t,
        ItemModel::Array(v) => head_min(4, v.len() as u64) + enc_list(v),
        ItemModel::Mapping(v) => head_min(5, v.len() as u64) + enc_pairs(v),
        ItemModel::Tagged(t, inner) => head_min(6, t) + enc(*inner),
        ItemModel::Float(bits, w) => match w {
            FloatWidth::Half => seq![ib(7, 25)] + be_bytes(bits, 2),
            FloatWidth::Single => seq![ib(7, 26)] + be_bytes(bits, 4),
            FloatWidth::Double => seq![ib(7, 27)] + be_bytes(bits, 8),
        },
        ItemModel::Simple(s) => if s < 24 {
            seq![ib(7, s as int)]
        } else {
            seq![ib(7, 24), s]
        },
        ItemModel::NumLiteral(_) => Seq::empty(),
        ItemModel::AppLiteral(_, _) => Seq::empty(),
    }
}

pub open spec fn enc_list(v: Seq<ItemModel>) -> Seq<u8>
    decreases v,
{
    if v.len() == 0 {
        Seq::empty()
    } else {
        enc(v[0]) + enc_list(v.drop_first())
    }
}

pub open spec fn enc_pairs(v: Seq<(ItemModel, ItemModel)>) -> Seq<u8>
    decreases v,
{
    if v.len() == 0 {
        Seq::empty()
    } else {
        enc(v[0].0) + enc(v[0].1) + enc_pairs(v.drop_first())
    }
}

/// Whether `enc` is faithful for this tree: no unresolved parser-level
/// literals anywhere, and every length representable in a head.
pub open spec fn encodable(i: ItemModel) -> bool
    decreases i,
{
    match i {
        ItemModel::Unsigned(_) => true,
        ItemModel::Negative(_) => true,
        ItemModel::Bytes(b) => b.len() <= u64::MAX,
        ItemModel::Text(t) => t.len() <= u64::MAX,
        ItemModel::Array(v) => v.len() <= u64::MAX && forall|i: int|
            0 <= i < v.len() ==> encodable(#[trigger] v[i]),
        ItemModel::Mapping(v) => v.len() <= u64::MAX && forall|i: int|
            0 <= i < v.len() ==> (encodable(#[trigger] v[i].0) && encodable(v[i].1)),
        ItemModel::Tagged(_, inner) => encodable(*inner),
        ItemModel::Float(_, _) => true,
        ItemModel::Simple(_) => true,
        ItemModel::NumLiteral(_) => false,
        ItemModel::AppLiteral(_, _) => false,
    }
}

/// Whether the tree still holds an unresolved application literal.
pub open spec fn contains_app_literal(i: ItemModel) -> bool
    decreases i,
{
    match i {
        ItemModel::Array(v) => exists|j: int|
            0 <= j < v.len() && contains_app_literal(#[trigger] v[j]),
        ItemModel::Mapping(v) => exists|j: int|
            0 <= j < v.len() && (contains_app_literal(#[trigger] v[j].0) || contains_app_literal(
                v[j].1,
            )),
        ItemModel::Tagged(_, inner) => contains_app_literal(*inner),
        ItemModel::AppLiteral(_, _) => true,
        _ => false,
    }
}

/// Whether the tree still holds an unresolved number literal.
pub open spec fn contains_num_literal(i: ItemModel) -> bool
    decreases i,
{
    match i {
        ItemModel::Array(v) => exists|j: int|
            0 <= j < v.len() && contains_num_literal(#[trigger] v[j]),
        ItemModel::Mapping(v) => exists|j: int|
            0 <= j < v.len() && (contains_num_literal(#[trigger] v[j].0) || contains_num_literal(
                v[j].1,
            )),
        ItemModel::Tagged(_, inner) => contains_num_literal(*inner),
        ItemModel::NumLiteral(_) => true,
        _ => false,
    }
}

/// No unresolved literal anywhere in a key-value pair.
pub open spec fn clean_pair(p: (ItemModel, ItemModel)) -> bool {
    !contains_app_literal(p.0) && !contains_num_literal(p.0) && !contains_app_literal(p.1)
        && !contains_num_literal(p.1)
}

/// An unresolved literal in an element is one in the whole array, and a
/// clean array has only clean elements.
pub proof fn lemma_array_witness(m: Seq<ItemModel>, j: int)
    requires
        0 <= j < m.len(),
    ensures
        contains_app_literal(m[j]) ==> contains_app_literal(ItemModel::Array(m)),
        contains_num_literal(m[j]) ==> contains_num_literal(ItemModel::Array(m)),
{
    assert(ItemModel::Array(m)->Array_0 == m);
    if contains_app_literal(m[j]) {
        assert(exists|k: int| 0 <= k < m.len() && contains_app_literal(#[trigger] m[k]));
    }
    if contains_num_literal(m[j]) {
        assert(exists|k: int| 0 <= k < m.len() && contains_num_literal(#[trigger] m[k]));
    }
}

/// The same for one key-value pair of a map.
pub proof fn lemma_pairs_witness(m: Seq<(ItemModel, ItemModel)>, j: int)
    requires
        0 <= j < m.len(),
    ensures
        contains_app_literal(m[j].0) || contains_app_literal(m[j].1) ==> contains_app_literal(
            ItemModel::Mapping(m),
        ),
        contains_num_literal(m[j].0) || contains_num_literal(m[j].1) ==> contains_num_literal(
            ItemModel::Mapping(m),
        ),
{
    assert(ItemModel::Mapping(m)->Mapping_0 == m);
    if contains_app_literal(m[j].0) || contains_app_literal(m[j].1) {
        assert(exists|k: int|
            0 <= k < m.len() && (contains_app_literal(#[trigger] m[k].0) || contains_app_literal(
                m[k].1,
            )));
    }
    if contains_num_literal(m[j].0) || contains_num_literal(m[j].1) {
        assert(exists|k: int|
            0 <= k < m.len() && (contains_num_literal(#[trigger] m[k].0) || contains_num_literal(
                m[k].1,
            )));
    }
}

/// An array of clean elements is clean; with small enough length and
/// encodable elements it is encodable.
pub proof fn lemma_array_clean(m: Seq<ItemModel>)
    requires
        forall|k: int|
            0 <= k < m.len() ==> (!contains_app_literal(#[trigger] m[k]) && !contains_num_literal(
                m[k],
            )),
    ensures
        !contains_app_literal(ItemModel::Array(m)),
        !contains_num_literal(ItemModel::Array(m)),
{
    assert(ItemModel::Array(m)->Array_0 == m);
    if contains_app_literal(ItemModel::Array(m)) {
        let k = choose|k: int| 0 <= k < m.len() && contains_app_literal(#[trigger] m[k]);
        assert(!contains_app_literal(m[k]));
    }
    if contains_num_literal(ItemModel::Array(m)) {
        let k = choose|k: int| 0 <= k < m.len() && contains_num_literal(#[trigger] m[k]);
        assert(!contains_num_literal(m[k]));
    }
}

/// The same for the pairs of a map.
pub proof fn lemma_pairs_clean(m: Seq<(ItemModel, ItemModel)>)
    requires
        forall|k: int| 0 <= k < m.len() ==> clean_pair(#[trigger] m[k]),
    ensures
        !contains_app_literal(ItemModel::Mapping(m)),
        !contains_num_literal(ItemModel::Mapping(m)),
{
    assert(ItemModel::Mapping(m)->Mapping_0 == m);
    if contains_app_literal(ItemModel::Mapping(m)) {
        let k = choose|k: int|
            0 <= k < m.len() && (contains_app_literal(#[trigger] m[k].0) || contains_app_literal(
                m[k].1,
            ));
        assert(!contains_app_literal(m[k].0));
    }
    if contains_num_literal(ItemModel::Mapping(m)) {
        let k = choose|k: int|
            0 <= k < m.len() && (contains_num_literal(#[trigger] m[k].0) || contains_num_literal(
                m[k].1,
            ));
        assert(!contains_num_literal(m[k].0));
    }
}

/// Encodable elements of representable count make an encodable array.
pub proof fn lemma_encodable_array(m: Seq<ItemModel>)
    requires
        m.len() <= u64::MAX,
        forall|k: int| 0 <= k < m.len() ==> encodable(#[trigger] m[k]),
    ensures
        encodable(ItemModel::Array(m)),
{
    assert(ItemModel::Array(m)->Array_0 == m);
    assert forall|k: int| 0 <= k < m.len() implies encodable(#[trigger] ItemModel::Array(
        m,
    )->Array_0[k]) by {
        assert(encodable(m[k]));
    }
}

/// The same for the pairs of a map.
pub proof fn lemma_encodable_pairs(m: Seq<(ItemModel, ItemModel)>)
    requires
        m.len() <= u64::MAX,
        forall|k: int| 0 <= k < m.len() ==> (encodable(#[trigger] m[k].0) && encodable(m[k].1)),
    ensures
        encodable(ItemModel::Mapping(m)),
{
    assert(ItemModel::Mapping(m)->Mapping_0 == m);
    assert forall|k: int| 0 <= k < m.len() implies (encodable(
        #[trigger] ItemModel::Mapping(m)->Mapping_0[k].0,
    ) && encodable(ItemModel::Mapping(m)->Mapping_0[k].1)) by {
        assert(encodable(m[k].0));
        assert(encodable(m[k].1));
    }
}

/// Each element of an encodable array is encodable.
pub proof fn lemma_encodable_array_inv(m: Seq<ItemModel>, j: int)
    requires
        encodable(ItemModel::Array(m)),
        0 <= j < m.len(),
    ensures
        encodable(m[j]),
{
    assert(ItemModel::Array(m)->Array_0 == m);
    assert(encodable(ItemModel::Array(m)->Array_0[j]));
}

/// Each pair of an encodable map is encodable.
pub proof fn lemma_encodable_pairs_inv(m: Seq<(ItemModel, ItemModel)>, j: int)
    requires
        encodable(ItemModel::Mapping(m)),
        0 <= j < m.len(),
    ensures
        encodable(m[j].0),
        encodable(m[j].1),
{
    assert(ItemModel::Mapping(m)->Mapping_0 == m);
    assert(encodable(ItemModel::Mapping(m)->Mapping_0[j].0));
    assert(encodable(ItemModel::Mapping(m)->Mapping_0[j].1));
}

/// Reads one head: major type, additional info, argument, bytes consumed.
/// Additional info 31 is reported with argument 0; its legality is decided
/// by the caller per major type.
pub open spec fn dec_head(s: Seq<u8>) -> Result<(u8, u8, u64, int), DecodeError> {
    if s.len() == 0 {
        Err(DecodeError::UnexpectedEof)
    } else {
        let major = (s[0] / 32) as u8;
        let ai = (s[0] % 32) as u8;
        if ai < 24 {
            Ok((major, ai, ai as u64, 1))
        } else if ai == 24 {
            if s.len() >= 2 {
                Ok((major, ai, s[1] as u64, 2))
            } else {
                Err(DecodeError::UnexpectedEof)
            }
        } else if ai == 25 {
            if s.len() >= 3 {
                Ok((major, ai, be_val(s.subrange(1, 3)) as u64, 3))
            } else {
                Err(DecodeError::UnexpectedEof)
            }
        } else if ai == 26 {
            if s.len() >= 5 {
                Ok((major, ai, be_val(s.subrange(1, 5)) as u64, 5))
            } else {
                Err(DecodeError::UnexpectedEof)
            }
        } else if ai == 27 {
            if s.len() >= 9 {
                Ok((major, ai, be_val(s.subrange(1, 9)) as u64, 9))
            } else {
                Err(DecodeError::UnexpectedEof)
            }
        } else if ai < 31 {
            Err(DecodeError::ReservedAdditionalInfo)
        } else {
            Ok((major, 31, 0, 1))
        }
    }
}

/// Reads one item from the front of `s`: the item and the bytes consumed.
pub open spec fn dec_item(s: Seq<u8>) -> Result<(ItemModel, int), DecodeError>
    decreases s.len(), 0int, 0int,
{
    match dec_head(s) {
        Err(e) => Err(e),
        Ok((major, ai, arg, h)) => {
            if !(1 <= h <= s.len()) {
                Err(DecodeError::UnexpectedEof)
            } else if major == 0 {
                if ai == 31 {
                    Err(DecodeError::InvalidIndefinite)
                } else {
                    Ok((ItemModel::Unsigned(arg), h))
                }
            } else if major == 1 {
                if ai == 31 {
                    Err(DecodeError::InvalidIndefinite)
                } else {
                    Ok((ItemModel::Negative(arg), h))
                }
            } else if major == 2 || major == 3 {
                if ai == 31 {
                    match dec_chunks(s.skip(h), major) {
                        Err(e) => Err(e),
                        Ok((data, u)) => if major == 3 && !is_utf8(data) {
                            Err(DecodeError::InvalidUtf8)
                        } else if major == 3 {
                            Ok((ItemModel::Text(data), h + u))
                        } else {
                            Ok((ItemModel::Bytes(data), h + u))
                        },
                    }
                } else if arg <= s.len() - h {
                    let data = s.subrange(h, h + arg);
                    if major == 3 && !is_utf8(data) {
                        Err(DecodeError::InvalidUtf8)
                    } else if major == 3 {
                        Ok((ItemModel::Text(data), h + arg))
                    } else {
                        Ok((ItemModel::Bytes(data), h + arg))
                    }
                } else {
                    Err(DecodeError::UnexpectedEof)
                }
            } else if major == 4 {
                if ai == 31 {
                    match dec_list_indef(s.skip(h)) {
                        Err(e) => Err(e),
                        Ok((items, u)) => Ok((ItemModel::Array(items), h + u)),
                    }
                } else {
                    match dec_list(s.skip(h), arg as nat) {
                        Err(e) => Err(e),
                        Ok((items, u)) => Ok((ItemModel::Array(items), h + u)),
                    }
                }
            } else if major == 5 {
                if ai == 31 {
                    match dec_pairs_indef(s.skip(h)) {
                        Err(e) => Err(e),
                        Ok((pairs, u)) => Ok((ItemModel::Mapping(pairs), h + u)),
                    }
                } else {
                    match dec_pairs(s.skip(h), arg as nat) {
                        Err(e) => Err(e),
                        Ok((pairs, u)) => Ok((ItemModel::Mapping(pairs), h + u)),
                    }
                }
            } else if major == 6 {
                if ai == 31 {
                    Err(DecodeError::InvalidIndefinite)
                } else {
                    match dec_item(s.skip(h)) {
                        Err(e) => Err(e),
                        Ok((inner, u)) => Ok((ItemModel::Tagged(arg, Box::new(inner)), h + u)),
                    }
                }
            } else {
                if ai < 24 {
                    Ok((ItemModel::Simple(ai), h))
                } else if ai == 24 {
                    if arg < 32 {
                        Err(DecodeError::InvalidSimple)
                    } else {
                        Ok((ItemModel::Simple(arg as u8), h))
                    }
                } else if ai == 25 {
                    Ok((ItemModel::Float(arg, FloatWidth::Half), h))
                } else if ai == 26 {
                    Ok((ItemModel::Float(arg, FloatWidth::Single), h))
                } else if ai == 27 {
                    Ok((ItemModel::Float(arg, FloatWidth::Double), h))
                } else {
                    Err(DecodeError::UnexpectedBreak)
                }
            }
        },
    }
}

/// Reads exactly `n` items.
pub open spec fn dec_list(s: Seq<u8>, n: nat) -> Result<(Seq<ItemModel>, int), DecodeError>
    decreases s.len(), 1int, n,
{
    if n == 0 {
        Ok((Seq::empty(), 0))
    } else {
        match dec_item(s) {
            Err(e) => Err(e),
            Ok((item, u)) => if 1 <= u <= s.len() {
                match dec_list(s.skip(u), (n - 1) as nat) {
                    Err(e) => Err(e),
                    Ok((rest, u2)) => Ok((seq![item] + rest, u + u2)),
                }
            } else {
                Err(DecodeError::UnexpectedEof)
            },
        }
    }
}

/// Reads items up to a break byte.
pub open spec fn dec_list_indef(s: Seq<u8>) -> Result<(Seq<ItemModel>, int), DecodeError>
    decreases s.len(), 1int, 0int,
{
    if s.len() == 0 {
        Err(DecodeError::UnexpectedEof)
    } else if s[0] == 0xFF {
        Ok((Seq::empty(), 1))
    } else {
        match dec_item(s) {
            Err(e) => Err(e),
            Ok((item, u)) => if 1 <= u <= s.len() {
                match dec_list_indef(s.skip(u)) {
                    Err(e) => Err(e),
                    Ok((rest, u2)) => Ok((seq![item] + rest, u + u2)),
                }
            } else {
                Err(DecodeError::UnexpectedEof)
            },
        }
    }
}

/// Reads exactly `n` key-value pairs.
pub open spec fn dec_pairs(s: Seq<u8>, n: nat) -> Result<
    (Seq<(ItemModel, ItemModel)>, int),
    DecodeError,
>
    decreases s.len(), 1int, n,
{
    if n == 0 {
        Ok((Seq::empty(), 0))
    } else {
        match dec_item(s) {
            Err(e) => Err(e),
            Ok((key, u)) => if 1 <= u <= s.len() {
                match dec_item(s.skip(u)) {
                    Err(e) => Err(e),
                    Ok((val, u2)) => if 1 <= u2 <= s.len() - u {
                        match dec_pairs(s.skip(u + u2), (n - 1) as nat) {
                            Err(e) => Err(e),
                            Ok((rest, u3)) => Ok((seq![(key, val)] + rest, u + u2 + u3)),
                        }
                    } else {
                        Err(DecodeError::UnexpectedEof)
                    },
                }
            } else {
                Err(DecodeError::UnexpectedEof)
            },
        }
    }
}

/// Reads key-value pairs up to a break byte.
pub open spec fn dec_pairs_indef(s: Seq<u8>) -> Result<
    (Seq<(ItemModel, ItemModel)>, int),
    DecodeError,
>
    decreases s.len(), 1int, 0int,
{
    if s.len() == 0 {
        Err(DecodeError::UnexpectedEof)
    } else if s[0] == 0xFF {
        Ok((Seq::empty(), 1))
    } else {
        match dec_item(s) {
            Err(e) => Err(e),
            Ok((key, u)) => if 1 <= u <= s.len() {
                match dec_item(s.skip(u)) {
                    Err(e) => Err(e),
                    Ok((val, u2)) => if 1 <= u2 <= s.len() - u {
                        match dec_pairs_indef(s.skip(u + u2)) {
                            Err(e) => Err(e),
                            Ok((rest, u3)) => Ok((seq![(key, val)] + rest, u + u2 + u3)),
                        }
                    } else {
                        Err(DecodeError::UnexpectedEof)
                    },
                }
            } else {
                Err(DecodeError::UnexpectedEof)
            },
        }
    }
}

/// Reads the chunks of an indefinite-length string up to a break byte and
/// concatenates their contents.
pub open spec fn dec_chunks(s: Seq<u8>, major: u8) -> Result<(Seq<u8>, int), DecodeError>
    decreases s.len(), 1int, 0int,
{
    if s.len() == 0 {
        Err(DecodeError::UnexpectedEof)
    } else if s[0] == 0xFF {
        Ok((Seq::empty(), 1))
    } else {
        match dec_head(s) {
            Err(e) => Err(e),
            Ok((m, ai, arg, h)) => if m != major || ai == 31 {
                Err(DecodeError::InvalidChunk)
            } else if 1 <= h && arg <= s.len() - h {
                match dec_chunks(s.skip(h + arg), major) {
                    Err(e) => Err(e),
                    Ok((rest, u2)) => Ok((s.subrange(h, h + arg) + rest, h + arg + u2)),
                }
            } else {
                Err(DecodeError::UnexpectedEof)
            },
        }
    }
}

/// Decodes a whole byte sequence as exactly one item.
pub open spec fn dec(s: Seq<u8>) -> Result<ItemModel, DecodeError> {
    match dec_item(s) {
        Err(e) => Err(e),
        Ok((item, u)) => if u == s.len() {
            Ok(item)
        } else {
            Err(DecodeError::TrailingData)
        },
    }
}

} // verus!
