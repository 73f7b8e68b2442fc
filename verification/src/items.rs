//! The CBOR data model: one `Item` is one CBOR value, with enough metadata
//! (float width hints, parser-level literal forms) to round-trip both the
//! binary encoding and the diagnostic notation.
use vstd::prelude::*;

verus! {

broadcast use vstd::std_specs::vec::group_vec_axioms, vstd::seq::group_seq_axioms;

/// Width hint of a float item: the width it was written with (or should be
/// written with) in the binary encoding.
#[derive(Clone, Copy, Debug, PartialEq, Eq, Structural)]
pub enum FloatWidth {
    Half,
    Single,
    Double,
}

/// How the diagnostic-notation serializer spaces its output.
#[derive(Clone, Copy, Debug, PartialEq, Eq, Structural)]
pub enum DelimiterPolicy {
    /// One space after each `,` and `:`.
    Indented,
    /// No whitespace at all.
    DiscardAll,
}

/// One CBOR value.
///
/// Negative integers store the magnitude minus one (CBOR encodes `-1 - n`),
/// so the full range down to `-2^64` is representable. Floats store the raw
/// IEEE 754 bit pattern at the hinted width; the library never does float
/// arithmetic. Text strings hold UTF-8 bytes. `NumLiteral` and `AppLiteral`
/// are parser-level forms that must be resolved before binary encoding.
#[derive(Debug, PartialEq, Eq)]
pub enum Item {
    Unsigned(u64),
    Negative(u64),
    Bytes(Vec<u8>),
    Text(Vec<u8>),
    Array(Vec<Item>),
    Mapping(Vec<(Item, Item)>),
    Tagged(u64, Box<Item>),
    Float(u64, FloatWidth),
    Simple(u8),
    NumLiteral(Vec<u8>),
    AppLiteral(Vec<u8>, Vec<u8>),
}

/// The mathematical model of an `Item`: the same tree with sequences in
/// place of vectors. All contracts speak of this type.
pub enum ItemModel {
    Unsigned(u64),
    Negative(u64),
    Bytes(Seq<u8>),
    Text(Seq<u8>),
    Array(Seq<ItemModel>),
    Mapping(Seq<(ItemModel, ItemModel)>),
    Tagged(u64, Box<ItemModel>),
    Float(u64, FloatWidth),
    Simple(u8),
    NumLiteral(Seq<u8>),
    AppLiteral(Seq<u8>, Seq<u8>),
}

pub const SIMPLE_FALSE: u8 = 20;
pub const SIMPLE_TRUE: u8 = 21;
pub const SIMPLE_NULL: u8 = 22;
pub const SIMPLE_UNDEFINED: u8 = 23;

impl Item {
    /// The model of this item: the same tree over `Seq`.
    pub open spec fn model(self) -> ItemModel
        decreases self,
    {
        match self {
            Item::Unsigned(n) => ItemModel::Unsigned(n),
            Item::Negative(n) => ItemModel::Negative(n),
            Item::Bytes(b) => ItemModel::Bytes(b@),
            Item::Text(t) => ItemModel::Text(t@),
            Item::Array(v) => ItemModel::Array(models_of(v@)),
            Item::Mapping(v) => ItemModel::Mapping(pair_models_of(v@)),
            Item::Tagged(t, inner) => ItemModel::Tagged(t, Box::new((*inner).model())),
            Item::Float(bits, w) => ItemModel::Float(bits, w),
            Item::Simple(s) => ItemModel::Simple(s),
            Item::NumLiteral(t) => ItemModel::NumLiteral(t@),
            Item::AppLiteral(ident, payload) => ItemModel::AppLiteral(ident@, payload@),
        }
    }
}

/// Models of a sequence of items, elementwise.
pub open spec fn models_of(v: Seq<Item>) -> Seq<ItemModel>
    decreases v,
{
    Seq::new(
        v.len(),
        |i: int|
            if 0 <= i < v.len() {
                v[i].model()
            } else {
                ItemModel::Unsigned(0)
            },
    )
}

/// Models of a sequence of key-value pairs, elementwise.
pub open spec fn pair_models_of(v: Seq<(Item, Item)>) -> Seq<(ItemModel, ItemModel)>
    decreases v,
{
    Seq::new(
        v.len(),
        |i: int|
            if 0 <= i < v.len() {
                (v[i].0.model(), v[i].1.model())
            } else {
                (ItemModel::Unsigned(0), ItemModel::Unsigned(0))
            },
    )
}

impl ItemModel {
    /// Structural well-formedness: float bits fit the hinted width, simple
    /// values avoid the reserved two-byte range, text strings are UTF-8.
    pub open spec fn wf(self) -> bool
        decreases self,
    {
        match self {
            ItemModel::Unsigned(_) => true,
            ItemModel::Negative(_) => true,
            ItemModel::Bytes(_) => true,
            ItemModel::Text(t) => crate::utf8::is_utf8(t),
            ItemModel::Array(v) => forall|i: int| 0 <= i < v.len() ==> (#[trigger] v[i]).wf(),
            ItemModel::Mapping(v) => forall|i: int|
                0 <= i < v.len() ==> ((#[trigger] v[i]).0.wf() && v[i].1.wf()),
            ItemModel::Tagged(_, inner) => (*inner).wf(),
            ItemModel::Float(bits, w) => match w {
                FloatWidth::Half => bits < 0x10000,
                FloatWidth::Single => bits < 0x1_0000_0000,
                FloatWidth::Double => true,
            },
            ItemModel::Simple(s) => s <= 23 || s >= 32,
            ItemModel::NumLiteral(_) => true,
            ItemModel::AppLiteral(_, payload) => crate::utf8::is_utf8(payload),
        }
    }
}

/// Well-formed elements make a well-formed array.
pub proof fn lemma_wf_array(v: Seq<ItemModel>)
    requires
        forall|k: int| 0 <= k < v.len() ==> (#[trigger] v[k]).wf(),
    ensures
        ItemModel::Array(v).wf(),
{
    assert(ItemModel::Array(v)->Array_0 == v);
    assert forall|k: int| 0 <= k < v.len() implies (#[trigger] ItemModel::Array(
        v,
    )->Array_0[k]).wf() by {
        assert(v[k].wf());
    }
}

/// Well-formed pairs make a well-formed map.
pub proof fn lemma_wf_pairs(v: Seq<(ItemModel, ItemModel)>)
    requires
        forall|k: int| 0 <= k < v.len() ==> ((#[trigger] v[k]).0.wf() && v[k].1.wf()),
    ensures
        ItemModel::Mapping(v).wf(),
{
    assert(ItemModel::Mapping(v)->Mapping_0 == v);
    assert forall|k: int| 0 <= k < v.len() implies ((#[trigger] ItemModel::Mapping(
        v,
    )->Mapping_0[k]).0.wf() && ItemModel::Mapping(v)->Mapping_0[k].1.wf()) by {
        assert(v[k].0.wf());
        assert(v[k].1.wf());
    }
}

/// Each element of a well-formed array is well-formed.
pub proof fn lemma_wf_array_inv(v: Seq<ItemModel>, k: int)
    requires
        ItemModel::Array(v).wf(),
        0 <= k < v.len(),
    ensures
        v[k].wf(),
{
    assert(ItemModel::Array(v)->Array_0 == v);
    assert((ItemModel::Array(v)->Array_0[k]).wf());
}

/// Each pair of a well-formed map is well-formed.
pub proof fn lemma_wf_pairs_inv(v: Seq<(ItemModel, ItemModel)>, k: int)
    requires
        ItemModel::Mapping(v).wf(),
        0 <= k < v.len(),
    ensures
        v[k].0.wf(),
        v[k].1.wf(),
{
    assert(ItemModel::Mapping(v)->Mapping_0 == v);
    assert((ItemModel::Mapping(v)->Mapping_0[k].0).wf());
    assert((ItemModel::Mapping(v)->Mapping_0[k].1).wf());
}

} // verus!
