//! The four top-level operations: parse diagnostic text, decode CBOR bytes,
//! encode to CBOR bytes, serialize to diagnostic text, with the rewrite
//! passes between them.
use vstd::prelude::*;
use crate::items::{DelimiterPolicy, FloatWidth, Item, ItemModel, models_of, pair_models_of};
use crate::errors::{DecodeError, EncodeError, ParseError};
use crate::binary::{dec, enc, encodable, contains_num_literal};
use crate::text_in::p_top;
use crate::text_out::{float_free_pair, has_float, lemma_float_array, lemma_float_pairs, ser, ser_item};
use crate::rewrite::{rewrite, rewrite_item, RewriteRule};
use crate::parse_exec::parse_text;
use crate::decode::decode_bytes;
use crate::encode::encode_item;

verus! {

broadcast use vstd::std_specs::vec::group_vec_axioms, vstd::seq::group_seq_axioms;

/// Converts between float bit patterns and decimal number text. The codec
/// is supplied by the caller; nothing is assumed about it.
pub trait FloatCodec {
    /// Bits (at the returned width) for a number token, or none.
    fn parse_num(&self, text: &Vec<u8>) -> Option<(u64, FloatWidth)>;

    /// Decimal (or `Infinity`/`NaN`) text for float bits at a width.
    fn render_num(&self, bits: u64, width: FloatWidth) -> Vec<u8>;
}

/// Why text could not be converted to CBOR bytes.
#[derive(Clone, Copy, Debug, PartialEq, Eq, Structural)]
pub enum ConvertError {
    Parse(ParseError),
    Encode(EncodeError),
}

/// `b` is `a` with each number literal either unchanged or replaced by a
/// float of the codec's choosing; everything else is equal.
pub open spec fn nums_resolved(a: ItemModel, b: ItemModel) -> bool
    decreases a,
{
    match a {
        ItemModel::NumLiteral(_) => b == a || b is Float,
        ItemModel::Array(v) => b is Array && {
            let w = b->Array_0;
            w.len() == v.len() && forall|k: int|
                0 <= k < v.len() ==> nums_resolved(#[trigger] v[k], w[k])
        },
        ItemModel::Mapping(v) => b is Mapping && {
            let w = b->Mapping_0;
            w.len() == v.len() && forall|k: int|
                0 <= k < v.len() ==> (nums_resolved((#[trigger] v[k]).0, w[k].0) && nums_resolved(
                    v[k].1,
                    w[k].1,
                ))
        },
        ItemModel::Tagged(t, inner) => b is Tagged && b->Tagged_0 == t && nums_resolved(
            *inner,
            *b->Tagged_1,
        ),
        _ => b == a,
    }
}

/// `b` is `a` with each float replaced by a number literal of the codec's
/// choosing; everything else is equal.
pub open spec fn floats_rendered(a: ItemModel, b: ItemModel) -> bool
    decreases a,
{
    match a {
        ItemModel::Float(_, _) => b is NumLiteral,
        ItemModel::Array(v) => b is Array && {
            let w = b->Array_0;
            w.len() == v.len() && forall|k: int|
                0 <= k < v.len() ==> floats_rendered(#[trigger] v[k], w[k])
        },
        ItemModel::Mapping(v) => b is Mapping && {
            let w = b->Mapping_0;
            w.len() == v.len() && forall|k: int|
                0 <= k < v.len() ==> (floats_rendered((#[trigger] v[k]).0, w[k].0)
                    && floats_rendered(v[k].1, w[k].1))
        },
        ItemModel::Tagged(t, inner) => b is Tagged && b->Tagged_0 == t && floats_rendered(
            *inner,
            *b->Tagged_1,
        ),
        _ => b == a,
    }
}

/// Elementwise resolution makes a resolved array; the same for maps.
proof fn lemma_nr_array(v: Seq<ItemModel>, w: Seq<ItemModel>)
    requires
        v.len() == w.len(),
        forall|k: int| 0 <= k < v.len() ==> nums_resolved(#[trigger] v[k], w[k]),
    ensures
        nums_resolved(ItemModel::Array(v), ItemModel::Array(w)),
{
    assert(ItemModel::Array(w)->Array_0 == w);
}

proof fn lemma_nr_pairs(v: Seq<(ItemModel, ItemModel)>, w: Seq<(ItemModel, ItemModel)>)
    requires
        v.len() == w.len(),
        forall|k: int|
            0 <= k < v.len() ==> (nums_resolved((#[trigger] v[k]).0, w[k].0) && nums_resolved(
                v[k].1,
                w[k].1,
            )),
    ensures
        nums_resolved(ItemModel::Mapping(v), ItemModel::Mapping(w)),
{
    assert(ItemModel::Mapping(w)->Mapping_0 == w);
}

proof fn lemma_fr_array(v: Seq<ItemModel>, w: Seq<ItemModel>)
    requires
        v.len() == w.len(),
        forall|k: int| 0 <= k < v.len() ==> floats_rendered(#[trigger] v[k], w[k]),
    ensures
        floats_rendered(ItemModel::Array(v), ItemModel::Array(w)),
{
    assert(ItemModel::Array(w)->Array_0 == w);
}

proof fn lemma_fr_pairs(v: Seq<(ItemModel, ItemModel)>, w: Seq<(ItemModel, ItemModel)>)
    requires
        v.len() == w.len(),
        forall|k: int|
            0 <= k < v.len() ==> (floats_rendered((#[trigger] v[k]).0, w[k].0) && floats_rendered(
                v[k].1,
                w[k].1,
            )),
    ensures
        floats_rendered(ItemModel::Mapping(v), ItemModel::Mapping(w)),
{
    assert(ItemModel::Mapping(w)->Mapping_0 == w);
}

/// Resolving number literals introduces no unresolved literal: a blocker in
/// the resolved tree was already in the source tree.
pub proof fn lemma_nr_blockers(a: ItemModel, b: ItemModel)
    requires
        nums_resolved(a, b),
    ensures
        crate::binary::contains_app_literal(b) ==> crate::binary::contains_app_literal(a),
        crate::binary::contains_num_literal(b) ==> crate::binary::contains_num_literal(a),
    decreases a,
{
    match a {
        ItemModel::Array(v) => {
            let w = b->Array_0;
            if crate::binary::contains_app_literal(b) {
                let k = choose|k: int|
                    0 <= k < w.len() && crate::binary::contains_app_literal(#[trigger] w[k]);
                lemma_nr_blockers(v[k], w[k]);
                crate::binary::lemma_array_witness(v, k);
            }
            if crate::binary::contains_num_literal(b) {
                let k = choose|k: int|
                    0 <= k < w.len() && crate::binary::contains_num_literal(#[trigger] w[k]);
                lemma_nr_blockers(v[k], w[k]);
                crate::binary::lemma_array_witness(v, k);
            }
        },
        ItemModel::Mapping(v) => {
            let w = b->Mapping_0;
            if crate::binary::contains_app_literal(b) {
                let k = choose|k: int|
                    0 <= k < w.len() && (crate::binary::contains_app_literal(#[trigger] w[k].0)
                        || crate::binary::contains_app_literal(w[k].1));
                lemma_nr_blockers(v[k].0, w[k].0);
                lemma_nr_blockers(v[k].1, w[k].1);
                crate::binary::lemma_pairs_witness(v, k);
            }
            if crate::binary::contains_num_literal(b) {
                let k = choose|k: int|
                    0 <= k < w.len() && (crate::binary::contains_num_literal(#[trigger] w[k].0)
                        || crate::binary::contains_num_literal(w[k].1));
                lemma_nr_blockers(v[k].0, w[k].0);
                lemma_nr_blockers(v[k].1, w[k].1);
                crate::binary::lemma_pairs_witness(v, k);
            }
        },
        ItemModel::Tagged(_, inner) => {
            if b is Tagged {
                lemma_nr_blockers(*inner, *b->Tagged_1);
            }
        },
        _ => {},
    }
}

proof fn lemma_float_array_clean(m: Seq<ItemModel>)
    requires
        forall|k: int| 0 <= k < m.len() ==> !has_float(#[trigger] m[k]),
    ensures
        !has_float(ItemModel::Array(m)),
{
    assert(ItemModel::Array(m)->Array_0 == m);
    if has_float(ItemModel::Array(m)) {
        let k = choose|k: int| 0 <= k < m.len() && has_float(#[trigger] m[k]);
        assert(!has_float(m[k]));
    }
}

proof fn lemma_float_pairs_clean(m: Seq<(ItemModel, ItemModel)>)
    requires
        forall|k: int| 0 <= k < m.len() ==> float_free_pair(#[trigger] m[k]),
    ensures
        !has_float(ItemModel::Mapping(m)),
{
    assert(ItemModel::Mapping(m)->Mapping_0 == m);
    if has_float(ItemModel::Mapping(m)) {
        let k = choose|k: int|
            0 <= k < m.len() && (has_float(#[trigger] m[k].0) || has_float(m[k].1));
        assert(!has_float(m[k].0));
    }
}

/// Replaces every float by a number literal rendered by the codec. A tree
/// without floats comes back unchanged; in general the result stands in the
/// `floats_rendered` relation to the input.
#[verifier::loop_isolation(false)]
#[verifier::rlimit(100)]
pub fn render_floats<F: FloatCodec>(i: Item, fc: &F) -> (r: Item)
    ensures
        !has_float(r.model()),
        floats_rendered(i.model(), r.model()),
        !has_float(i.model()) ==> r.model() == i.model(),
    decreases i,
{
    let ghost gi = i;
    match i {
        Item::Float(bits, w) => Item::NumLiteral(fc.render_num(bits, w)),
        Item::Tagged(t, inner) => {
            let r2 = Item::Tagged(t, Box::new(render_floats(*inner, fc)));
            proof {
                reveal_with_fuel(crate::items::Item::model, 3);
                assert(r2.model()->Tagged_0 == t);
                assert(floats_rendered(gi.model(), r2.model()));
            }
            r2
        },
        Item::Array(v) => {
            let ghost gv = v;
            let ghost m0 = models_of(v@);
            let n_exec = v.len();
            let mut v = v;
            let mut out: Vec<Item> = Vec::new();
            let ghost n0 = v@.len();
            let mut j: usize = 0;
            proof {
                assert(v@ =~= gv@.skip(0));
            }
            while v.len() > 0
                invariant
                    j + v@.len() == n0,
                    n0 == n_exec,
                    v@ =~= gv@.skip(j as int),
                    models_of(out@).len() == j,
                    forall|k: int| 0 <= k < j ==> !has_float(#[trigger] models_of(out@)[k]),
                    forall|k: int|
                        0 <= k < j ==> floats_rendered(#[trigger] m0[k], models_of(out@)[k]),
                    !has_float(gi.model()) ==> models_of(out@) =~= m0.take(j as int),
                decreases v@.len(),
            {
                let x = v.remove(0);
                proof {
                    assert(x == gv@[j as int]);
                    assert(decreases_to!(gi => gi->Array_0));
                    assert(gi->Array_0 == gv);
                    assert(decreases_to!(gv => gv@[j as int]));
                    assert(v@ =~= gv@.skip(j + 1));
                    assert(m0[j as int] == gv@[j as int].model());
                    if has_float(m0[j as int]) {
                        lemma_float_array(m0, j as int);
                    }
                }
                let ghost out_before = models_of(out@);
                let y = render_floats(x, fc);
                out.push(y);
                proof {
                    assert(models_of(out@) =~= out_before.push(y.model()));
                    if !has_float(gi.model()) {
                        assert(models_of(out@) =~= m0.take(j + 1));
                    }
                }
                j = j + 1;
            }
            proof {
                lemma_float_array_clean(models_of(out@));
                lemma_fr_array(m0, models_of(out@));
                assert(gi.model() == ItemModel::Array(m0));
                if !has_float(gi.model()) {
                    assert(m0.take(n0 as int) =~= m0);
                }
            }
            Item::Array(out)
        },
        Item::Mapping(v) => {
            let ghost gv = v;
            let ghost m0 = pair_models_of(v@);
            let n_exec = v.len();
            let mut v = v;
            let mut out: Vec<(Item, Item)> = Vec::new();
            let ghost n0 = v@.len();
            let mut j: usize = 0;
            proof {
                assert(v@ =~= gv@.skip(0));
            }
            while v.len() > 0
                invariant
                    j + v@.len() == n0,
                    n0 == n_exec,
                    v@ =~= gv@.skip(j as int),
                    pair_models_of(out@).len() == j,
                    forall|k: int| 0 <= k < j ==> float_free_pair(#[trigger] pair_models_of(out@)[k]),
                    forall|k: int|
                        0 <= k < j ==> (floats_rendered((#[trigger] m0[k]).0, pair_models_of(
                            out@,
                        )[k].0) && floats_rendered(m0[k].1, pair_models_of(out@)[k].1)),
                    !has_float(gi.model()) ==> pair_models_of(out@) =~= m0.take(j as int),
                decreases v@.len(),
            {
                let x = v.remove(0);
                proof {
                    assert(x == gv@[j as int]);
                    assert(decreases_to!(gi => gi->Mapping_0));
                    assert(gi->Mapping_0 == gv);
                    assert(decreases_to!(gv => gv@[j as int]));
                    assert(decreases_to!(gv@[j as int] => gv@[j as int].0));
                    assert(decreases_to!(gv@[j as int] => gv@[j as int].1));
                    assert(v@ =~= gv@.skip(j + 1));
                    assert(m0[j as int] == (gv@[j as int].0.model(), gv@[j as int].1.model()));
                    if has_float(m0[j as int].0) || has_float(m0[j as int].1) {
                        lemma_float_pairs(m0, j as int);
                    }
                }
                let ghost out_before = pair_models_of(out@);
                let (xk, xv) = x;
                let yk = render_floats(xk, fc);
                let yv = render_floats(xv, fc);
                out.push((yk, yv));
                proof {
                    assert(pair_models_of(out@) =~= out_before.push((yk.model(), yv.model())));
                    assert(float_free_pair((yk.model(), yv.model())));
                    if !has_float(gi.model()) {
                        assert(pair_models_of(out@) =~= m0.take(j + 1));
                    }
                }
                j = j + 1;
            }
            proof {
                lemma_float_pairs_clean(pair_models_of(out@));
                lemma_fr_pairs(m0, pair_models_of(out@));
                assert(gi.model() == ItemModel::Mapping(m0));
                if !has_float(gi.model()) {
                    assert(m0.take(n0 as int) =~= m0);
                }
            }
            Item::Mapping(out)
        },
        other => other,
    }
}

/// Replaces every number literal by a float whose bits the codec chose, or
/// leaves it when the codec rejects it. A tree without number literals comes
/// back unchanged; in general the result stands in the `nums_resolved`
/// relation to the input.
#[verifier::loop_isolation(false)]
#[verifier::rlimit(100)]
pub fn resolve_numbers<F: FloatCodec>(i: Item, fc: &F) -> (r: Item)
    ensures
        nums_resolved(i.model(), r.model()),
        !contains_num_literal(i.model()) ==> r.model() == i.model(),
    decreases i,
{
    let ghost gi = i;
    match i {
        Item::NumLiteral(t) => {
            match fc.parse_num(&t) {
                Some((bits, w)) => Item::Float(bits, w),
                None => Item::NumLiteral(t),
            }
        },
        Item::Tagged(t, inner) => {
            let r2 = Item::Tagged(t, Box::new(resolve_numbers(*inner, fc)));
            proof {
                reveal_with_fuel(crate::items::Item::model, 3);
                assert(r2.model()->Tagged_0 == t);
                assert(nums_resolved(gi.model(), r2.model()));
            }
            r2
        },
        Item::Array(v) => {
            let ghost gv = v;
            let ghost m0 = models_of(v@);
            let n_exec = v.len();
            let mut v = v;
            let mut out: Vec<Item> = Vec::new();
            let ghost n0 = v@.len();
            let mut j: usize = 0;
            proof {
                assert(v@ =~= gv@.skip(0));
            }
            while v.len() > 0
                invariant
                    j + v@.len() == n0,
                    n0 == n_exec,
                    v@ =~= gv@.skip(j as int),
                    models_of(out@).len() == j,
                    forall|k: int|
                        0 <= k < j ==> nums_resolved(#[trigger] m0[k], models_of(out@)[k]),
                    !contains_num_literal(gi.model()) ==> models_of(out@) =~= m0.take(j as int),
                decreases v@.len(),
            {
                let x = v.remove(0);
                proof {
                    assert(x == gv@[j as int]);
                    assert(decreases_to!(gi => gi->Array_0));
                    assert(gi->Array_0 == gv);
                    assert(decreases_to!(gv => gv@[j as int]));
                    assert(v@ =~= gv@.skip(j + 1));
                    assert(m0[j as int] == gv@[j as int].model());
                    if contains_num_literal(m0[j as int]) {
                        crate::binary::lemma_array_witness(m0, j as int);
                    }
                }
                let ghost out_before = models_of(out@);
                let y = resolve_numbers(x, fc);
                out.push(y);
                proof {
                    assert(models_of(out@) =~= out_before.push(y.model()));
                    if !contains_num_literal(gi.model()) {
                        assert(models_of(out@) =~= m0.take(j + 1));
                    }
                }
                j = j + 1;
            }
            proof {
                lemma_nr_array(m0, models_of(out@));
                assert(gi.model() == ItemModel::Array(m0));
                if !contains_num_literal(gi.model()) {
                    assert(m0.take(n0 as int) =~= m0);
                }
            }
            Item::Array(out)
        },
        Item::Mapping(v) => {
            let ghost gv = v;
            let ghost m0 = pair_models_of(v@);
            let n_exec = v.len();
            let mut v = v;
            let mut out: Vec<(Item, Item)> = Vec::new();
            let ghost n0 = v@.len();
            let mut j: usize = 0;
            proof {
                assert(v@ =~= gv@.skip(0));
            }
            while v.len() > 0
                invariant
                    j + v@.len() == n0,
                    n0 == n_exec,
                    v@ =~= gv@.skip(j as int),
                    pair_models_of(out@).len() == j,
                    forall|k: int|
                        0 <= k < j ==> (nums_resolved((#[trigger] m0[k]).0, pair_models_of(
                            out@,
                        )[k].0) && nums_resolved(m0[k].1, pair_models_of(out@)[k].1)),
                    !contains_num_literal(gi.model()) ==> pair_models_of(out@) =~= m0.take(
                        j as int,
                    ),
                decreases v@.len(),
            {
                let x = v.remove(0);
                proof {
                    assert(x == gv@[j as int]);
                    assert(decreases_to!(gi => gi->Mapping_0));
                    assert(gi->Mapping_0 == gv);
                    assert(decreases_to!(gv => gv@[j as int]));
                    assert(decreases_to!(gv@[j as int] => gv@[j as int].0));
                    assert(decreases_to!(gv@[j as int] => gv@[j as int].1));
                    assert(v@ =~= gv@.skip(j + 1));
                    assert(m0[j as int] == (gv@[j as int].0.model(), gv@[j as int].1.model()));
                    if contains_num_literal(m0[j as int].0) || contains_num_literal(
                        m0[j as int].1,
                    ) {
                        crate::binary::lemma_pairs_witness(m0, j as int);
                    }
                }
                let ghost out_before = pair_models_of(out@);
                let (xk, xv) = x;
                let yk = resolve_numbers(xk, fc);
                let yv = resolve_numbers(xv, fc);
                out.push((yk, yv));
                proof {
                    assert(pair_models_of(out@) =~= out_before.push((yk.model(), yv.model())));
                    if !contains_num_literal(gi.model()) {
                        assert(pair_models_of(out@) =~= m0.take(j + 1));
                    }
                }
                j = j + 1;
            }
            proof {
                lemma_nr_pairs(m0, pair_models_of(out@));
                assert(gi.model() == ItemModel::Mapping(m0));
                if !contains_num_literal(gi.model()) {
                    assert(m0.take(n0 as int) =~= m0);
                }
            }
            Item::Mapping(out)
        },
        other => other,
    }
}

/// A top-level wrapper owning one item and the delimiter policy its
/// serialization uses.
pub struct StandaloneItem {
    pub item: Item,
    pub policy: DelimiterPolicy,
}

impl StandaloneItem {
    /// Parses diagnostic-notation text.
    pub fn parse(text: &Vec<u8>) -> (r: Result<StandaloneItem, ParseError>)
        ensures
            match r {
                Ok(s) => p_top(text@) == Ok::<ItemModel, ParseError>(s.item.model()) && s.policy
                    == DelimiterPolicy::Indented,
                Err(e) => p_top(text@) == Err::<ItemModel, ParseError>(e),
            },
    {
        match parse_text(text) {
            Ok(item) => Ok(StandaloneItem { item, policy: DelimiterPolicy::Indented }),
            Err(e) => Err(e),
        }
    }

    /// Decodes a CBOR byte sequence.
    pub fn from_cbor(bytes: &Vec<u8>) -> (r: Result<StandaloneItem, DecodeError>)
        ensures
            match r {
                Ok(s) => dec(bytes@) == Ok::<ItemModel, DecodeError>(s.item.model()) && s.policy
                    == DelimiterPolicy::Indented,
                Err(e) => dec(bytes@) == Err::<ItemModel, DecodeError>(e),
            },
    {
        match decode_bytes(bytes) {
            Ok(item) => Ok(StandaloneItem { item, policy: DelimiterPolicy::Indented }),
            Err(e) => Err(e),
        }
    }

    /// Chooses the delimiter policy for serialization.
    pub fn set_delimiters(&mut self, policy: DelimiterPolicy)
        ensures
            final(self).item == old(self).item,
            final(self).policy == policy,
    {
        self.policy = policy;
    }

    /// Encodes the item to CBOR bytes. Fails exactly when an unresolved
    /// application or number literal remains.
    pub fn to_cbor(&self) -> (r: Result<Vec<u8>, EncodeError>)
        ensures
            match r {
                Ok(b) => encodable(self.item.model()) && b@ == enc(self.item.model()),
                Err(_) => !encodable(self.item.model()),
            },
    {
        encode_item(&self.item)
    }

    /// Serializes to diagnostic-notation text under the chosen policy,
    /// rendering floats through the codec. The text is exactly the
    /// serialization of the tree with each float turned into some number
    /// literal by the codec; for a float-free tree that is the tree itself.
    pub fn serialize<F: FloatCodec>(self, fc: &F) -> (r: Vec<u8>)
        ensures
            exists|m2: ItemModel|
                #[trigger] floats_rendered(self.item.model(), m2) && r@ == ser(
                    m2,
                    self.policy == DelimiterPolicy::DiscardAll,
                ),
            !has_float(self.item.model()) ==> r@ == ser(
                self.item.model(),
                self.policy == DelimiterPolicy::DiscardAll,
            ),
    {
        let compact = match self.policy {
            DelimiterPolicy::DiscardAll => true,
            DelimiterPolicy::Indented => false,
        };
        let ghost m = self.item.model();
        let rendered = render_floats(self.item, fc);
        let mut out: Vec<u8> = Vec::new();
        ser_item(&rendered, compact, &mut out);
        proof {
            assert(floats_rendered(m, rendered.model()) && out@ == ser(
                rendered.model(),
                compact,
            ));
        }
        out
    }
}

/// The tree that `diag2cbor` encodes, before number literals go through
/// the codec: the parsed tree with recognized application literals
/// resolved, and the rest escaped as tag 999 when asked.
pub open spec fn diag_tree(m: ItemModel, to999: bool) -> ItemModel {
    let m2 = rewrite(m, RewriteRule::ResolveLiterals);
    if to999 {
        rewrite(m2, RewriteRule::EscapeTo999)
    } else {
        m2
    }
}

/// Diagnostic-notation text to CBOR bytes: parse, resolve recognized
/// application literals, optionally escape the rest as tag 999, resolve
/// number literals through the codec, encode. Succeeds on every well-formed
/// text whose rewritten tree keeps no unresolved literal; the bytes are the
/// encoding of that tree with each number literal replaced by a float the
/// codec chose.
pub fn diag2cbor<F: FloatCodec>(diagnostic: &Vec<u8>, to999: bool, fc: &F) -> (r: Result<
    Vec<u8>,
    ConvertError,
>)
    ensures
        match r {
            Ok(b) => (p_top(diagnostic@) matches Ok(m) && {
                let m3 = diag_tree(m, to999);
                &&& exists|m4: ItemModel|
                    #[trigger] nums_resolved(m3, m4) && encodable(m4) && b@ == enc(m4)
                &&& !contains_num_literal(m3) ==> encodable(m3) && b@ == enc(m3)
            }),
            Err(ConvertError::Parse(e)) => p_top(diagnostic@) == Err::<ItemModel, ParseError>(e),
            Err(ConvertError::Encode(_)) => (p_top(diagnostic@) matches Ok(m)
                && (crate::binary::contains_app_literal(diag_tree(m, to999))
                || contains_num_literal(diag_tree(m, to999)))),
        },
        p_top(diagnostic@) matches Ok(m) ==> ((!crate::binary::contains_app_literal(
            diag_tree(m, to999),
        ) && !contains_num_literal(diag_tree(m, to999))) ==> r is Ok),
{
    let item = match parse_text(diagnostic) {
        Ok(item) => item,
        Err(e) => {
            return Err(ConvertError::Parse(e));
        },
    };
    let item = rewrite_item(item, RewriteRule::ResolveLiterals);
    let item = if to999 {
        rewrite_item(item, RewriteRule::EscapeTo999)
    } else {
        item
    };
    let ghost m3 = item.model();
    let resolved = resolve_numbers(item, fc);
    proof {
        lemma_nr_blockers(m3, resolved.model());
        crate::encode::lemma_exec_encodable(resolved);
    }
    match encode_item(&resolved) {
        Ok(b) => {
            proof {
                assert(nums_resolved(m3, resolved.model()) && encodable(resolved.model()) && b@
                    == enc(resolved.model()));
            }
            Ok(b)
        },
        Err(e) => {
            proof {
                assert(crate::binary::contains_app_literal(resolved.model())
                    || contains_num_literal(resolved.model()));
            }
            Err(ConvertError::Encode(e))
        },
    }
}

/// The tree that `cbor2diag` serializes, before floats go through the
/// codec: the decoded tree with recognized tags turned back into
/// application literals when `pretty`, and tag 999 recognized when asked.
pub open spec fn diag_out_tree(m: ItemModel, pretty: bool, from999: bool) -> ItemModel {
    let m2 = if pretty {
        rewrite(m, RewriteRule::PrettifyTags)
    } else {
        m
    };
    if from999 {
        rewrite(m2, RewriteRule::From999)
    } else {
        m2
    }
}

/// CBOR bytes to diagnostic-notation text: decode, optionally recognize
/// known tags as application literals (on by default with `pretty`),
/// optionally recognize tag 999, render floats, serialize. Fails exactly
/// when decoding fails; the text is the serialization of the rewritten tree
/// with each float turned into some number literal by the codec.
pub fn cbor2diag<F: FloatCodec>(
    encoded: &Vec<u8>,
    pretty: bool,
    from999: bool,
    fc: &F,
) -> (r: Result<Vec<u8>, DecodeError>)
    ensures
        match r {
            Ok(t) => (dec(encoded@) matches Ok(m) && {
                let m3 = diag_out_tree(m, pretty, from999);
                &&& exists|m4: ItemModel|
                    #[trigger] floats_rendered(m3, m4) && t@ == ser(m4, !pretty)
                &&& !has_float(m3) ==> t@ == ser(m3, !pretty)
            }),
            Err(e) => dec(encoded@) == Err::<ItemModel, DecodeError>(e),
        },
        dec(encoded@) is Ok ==> r is Ok,
{
    let item = match decode_bytes(encoded) {
        Ok(item) => item,
        Err(e) => {
            return Err(e);
        },
    };
    let item = if pretty {
        rewrite_item(item, RewriteRule::PrettifyTags)
    } else {
        item
    };
    let item = if from999 {
        rewrite_item(item, RewriteRule::From999)
    } else {
        item
    };
    let ghost m3 = item.model();
    let rendered = render_floats(item, fc);
    let mut out: Vec<u8> = Vec::new();
    ser_item(&rendered, !pretty, &mut out);
    proof {
        assert(floats_rendered(m3, rendered.model()) && out@ == ser(rendered.model(), !pretty));
    }
    Ok(out)
}

} // verus!
