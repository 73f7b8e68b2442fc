//! The diagnostic-notation serializer: what text an item tree renders as,
//! under a compact or spaced delimiter policy, and the executable writer
//! proved to produce exactly that text.
use vstd::prelude::*;
use crate::items::{DelimiterPolicy, Item, ItemModel, models_of, pair_models_of};

verus! {

broadcast use vstd::std_specs::vec::group_vec_axioms, vstd::seq::group_seq_axioms;

/// Decimal digits of `n`, most significant first.
pub open spec fn dec_digits(n: nat) -> Seq<u8>
    decreases n,
{
    if n < 10 {
        seq![(0x30 + n) as u8]
    } else {
        dec_digits(n / 10).push((0x30 + n % 10) as u8)
    }
}

/// Lowercase hex digit for a value below 16.
pub open spec fn hex_digit(x: nat) -> u8 {
    if x < 10 {
        (0x30 + x) as u8
    } else {
        (0x57 + x) as u8
    }
}

/// Lowercase hex rendering of bytes.
pub open spec fn hex_of(b: Seq<u8>) -> Seq<u8>
    decreases b.len(),
{
    if b.len() == 0 {
        Seq::empty()
    } else {
        seq![hex_digit((b[0] / 16) as nat), hex_digit((b[0] % 16) as nat)] + hex_of(b.drop_first())
    }
}

/// One string-literal byte, escaped as needed inside quotes of kind `q`.
pub open spec fn escape_byte(x: u8, q: u8) -> Seq<u8> {
    if x == q || x == 0x5C {
        seq![0x5C, x]
    } else if x == 0x08 {
        seq![0x5C, 0x62]
    } else if x == 0x0C {
        seq![0x5C, 0x66]
    } else if x == 0x0A {
        seq![0x5C, 0x6E]
    } else if x == 0x0D {
        seq![0x5C, 0x72]
    } else if x == 0x09 {
        seq![0x5C, 0x74]
    } else if x < 0x20 {
        seq![0x5C, 0x75, 0x30, 0x30, hex_digit((x / 16) as nat), hex_digit((x % 16) as nat)]
    } else {
        seq![x]
    }
}

/// String content with the minimal required escapes.
pub open spec fn escaped(t: Seq<u8>, q: u8) -> Seq<u8>
    decreases t.len(),
{
    if t.len() == 0 {
        Seq::empty()
    } else {
        escape_byte(t[0], q) + escaped(t.drop_first(), q)
    }
}

/// The separator after a comma or colon under a policy.
pub open spec fn sep(compact: bool, punct: u8) -> Seq<u8> {
    if compact {
        seq![punct]
    } else {
        seq![punct, 0x20]
    }
}

/// The diagnostic-notation text of one item. Floats must have been turned
/// into number literals first; an unrendered float shows as nothing, and
/// `has_float` rules it out.
pub open spec fn ser(i: ItemModel, compact: bool) -> Seq<u8>
    decreases i, 0int,
{
    match i {
        ItemModel::Unsigned(n) => dec_digits(n as nat),
        ItemModel::Negative(n) => seq![0x2D] + dec_digits(n as nat + 1),
        ItemModel::Bytes(b) => seq![0x68, 0x27] + hex_of(b) + seq![0x27],
        ItemModel::Text(t) => seq![0x22] + escaped(t, 0x22) + seq![0x22],
        ItemModel::Array(v) => seq![0x5B] + ser_items(v, compact) + seq![0x5D],
        ItemModel::Mapping(v) => seq![0x7B] + ser_pairs(v, compact) + seq![0x7D],
        ItemModel::Tagged(t, inner) => dec_digits(t as nat) + seq![0x28] + ser(*inner, compact)
            + seq![0x29],
        ItemModel::Float(_, _) => Seq::empty(),
        ItemModel::Simple(s) => if s == 20 {
            seq![0x66, 0x61, 0x6C, 0x73, 0x65]
        } else if s == 21 {
            seq![0x74, 0x72, 0x75, 0x65]
        } else if s == 22 {
            seq![0x6E, 0x75, 0x6C, 0x6C]
        } else if s == 23 {
            seq![0x75, 0x6E, 0x64, 0x65, 0x66, 0x69, 0x6E, 0x65, 0x64]
        } else {
            seq![0x73, 0x69, 0x6D, 0x70, 0x6C, 0x65, 0x28] + dec_digits(s as nat) + seq![0x29]
        },
        ItemModel::NumLiteral(t) => t,
        ItemModel::AppLiteral(ident, payload) => ident + seq![0x27] + escaped(payload, 0x27)
            + seq![0x27],
    }
}

pub open spec fn ser_items(v: Seq<ItemModel>, compact: bool) -> Seq<u8>
    decreases v, 1int,
{
    if v.len() == 0 {
        Seq::empty()
    } else if v.len() == 1 {
        ser(v[0], compact)
    } else {
        ser(v[0], compact) + sep(compact, 0x2C) + ser_items(v.drop_first(), compact)
    }
}

pub open spec fn ser_pairs(v: Seq<(ItemModel, ItemModel)>, compact: bool) -> Seq<u8>
    decreases v, 1int,
{
    if v.len() == 0 {
        Seq::empty()
    } else if v.len() == 1 {
        ser(v[0].0, compact) + sep(compact, 0x3A) + ser(v[0].1, compact)
    } else {
        ser(v[0].0, compact) + sep(compact, 0x3A) + ser(v[0].1, compact) + sep(compact, 0x2C)
            + ser_pairs(v.drop_first(), compact)
    }
}

/// Whether the tree still holds a float that nothing has rendered to text.
pub open spec fn has_float(i: ItemModel) -> bool
    decreases i,
{
    match i {
        ItemModel::Array(v) => exists|j: int| 0 <= j < v.len() && has_float(#[trigger] v[j]),
        ItemModel::Mapping(v) => exists|j: int|
            0 <= j < v.len() && (has_float(#[trigger] v[j].0) || has_float(v[j].1)),
        ItemModel::Tagged(_, inner) => has_float(*inner),
        ItemModel::Float(_, _) => true,
        _ => false,
    }
}

/// No float anywhere in a pair.
pub open spec fn float_free_pair(p: (ItemModel, ItemModel)) -> bool {
    !has_float(p.0) && !has_float(p.1)
}

/// A float in an element is one in the whole container, and conversely.
pub proof fn lemma_float_array(m: Seq<ItemModel>, j: int)
    requires
        0 <= j < m.len(),
    ensures
        has_float(m[j]) ==> has_float(ItemModel::Array(m)),
{
    assert(ItemModel::Array(m)->Array_0 == m);
    if has_float(m[j]) {
        assert(exists|k: int| 0 <= k < m.len() && has_float(#[trigger] m[k]));
    }
}

pub proof fn lemma_float_pairs(m: Seq<(ItemModel, ItemModel)>, j: int)
    requires
        0 <= j < m.len(),
    ensures
        has_float(m[j].0) || has_float(m[j].1) ==> has_float(ItemModel::Mapping(m)),
{
    assert(ItemModel::Mapping(m)->Mapping_0 == m);
    if has_float(m[j].0) || has_float(m[j].1) {
        assert(exists|k: int|
            0 <= k < m.len() && (has_float(#[trigger] m[k].0) || has_float(m[k].1)));
    }
}

proof fn lemma_ser_items_push(p: Seq<ItemModel>, x: ItemModel, compact: bool)
    ensures
        ser_items(p.push(x), compact) == if p.len() == 0 {
            ser(x, compact)
        } else {
            ser_items(p, compact) + sep(compact, 0x2C) + ser(x, compact)
        },
    decreases p.len(),
{
    if p.len() == 0 {
        assert(p.push(x)[0] == x);
    } else {
        assert(p.push(x).drop_first() =~= p.drop_first().push(x));
        assert(p.push(x)[0] == p[0]);
        lemma_ser_items_push(p.drop_first(), x, compact);
        if p.len() == 1 {
            assert(ser_items(p, compact) == ser(p[0], compact));
        } else {
            assert((ser(p[0], compact) + sep(compact, 0x2C) + ser_items(p.drop_first(), compact))
                + sep(compact, 0x2C) + ser(x, compact) =~= ser(p[0], compact) + sep(compact, 0x2C)
                + (ser_items(p.drop_first(), compact) + sep(compact, 0x2C) + ser(x, compact)));
        }
    }
}

proof fn lemma_ser_pairs_push(p: Seq<(ItemModel, ItemModel)>, x: (ItemModel, ItemModel), compact: bool)
    ensures
        ser_pairs(p.push(x), compact) == if p.len() == 0 {
            ser(x.0, compact) + sep(compact, 0x3A) + ser(x.1, compact)
        } else {
            ser_pairs(p, compact) + sep(compact, 0x2C) + (ser(x.0, compact) + sep(compact, 0x3A)
                + ser(x.1, compact))
        },
    decreases p.len(),
{
    if p.len() == 0 {
        assert(p.push(x)[0] == x);
    } else {
        assert(p.push(x).drop_first() =~= p.drop_first().push(x));
        assert(p.push(x)[0] == p[0]);
        lemma_ser_pairs_push(p.drop_first(), x, compact);
        let hd = ser(p[0].0, compact) + sep(compact, 0x3A) + ser(p[0].1, compact);
        if p.len() == 1 {
            assert(ser_pairs(p, compact) == hd);
            assert(ser_pairs(p.push(x), compact) == hd + sep(compact, 0x2C) + (ser(x.0, compact)
                + sep(compact, 0x3A) + ser(x.1, compact)));
        } else {
            assert((hd + sep(compact, 0x2C) + ser_pairs(p.drop_first(), compact)) + sep(
                compact,
                0x2C,
            ) + (ser(x.0, compact) + sep(compact, 0x3A) + ser(x.1, compact)) =~= hd + sep(
                compact,
                0x2C,
            ) + (ser_pairs(p.drop_first(), compact) + sep(compact, 0x2C) + (ser(x.0, compact) + sep(
                compact,
                0x3A,
            ) + ser(x.1, compact))));
        }
    }
}

/// Appends the decimal digits of `n`.
pub(crate) fn w_digits(n: u128, out: &mut Vec<u8>)
    ensures
        final(out)@ == old(out)@ + dec_digits(n as nat),
    decreases n,
{
    if n < 10 {
        out.push(0x30 + n as u8);
        proof {
            assert(final(out)@ =~= old(out)@ + dec_digits(n as nat));
        }
    } else {
        w_digits(n / 10, out);
        out.push(0x30 + (n % 10) as u8);
        proof {
            assert(final(out)@ =~= old(out)@ + dec_digits(n as nat));
        }
    }
}

/// Appends the lowercase hex of `b` starting at `j`.
fn w_hex(b: &Vec<u8>, j: usize, out: &mut Vec<u8>)
    requires
        j <= b@.len(),
    ensures
        final(out)@ == old(out)@ + hex_of(b@.skip(j as int)),
    decreases b@.len() - j,
{
    if j == b.len() {
        proof {
            assert(out@ =~= out@ + hex_of(b@.skip(j as int)));
        }
        return ;
    }
    let x = b[j];
    let hi = x / 16;
    let lo = x % 16;
    out.push(
        if hi < 10 {
            0x30 + hi
        } else {
            0x57 + hi
        },
    );
    out.push(
        if lo < 10 {
            0x30 + lo
        } else {
            0x57 + lo
        },
    );
    proof {
        assert(b@.skip(j as int)[0] == b@[j as int]);
        assert(b@.skip(j as int).drop_first() =~= b@.skip(j + 1));
    }
    let ghost mid = out@;
    w_hex(b, j + 1, out);
    proof {
        assert(final(out)@ =~= old(out)@ + hex_of(b@.skip(j as int)));
    }
}

/// Appends the escaped content of `t` starting at `j`.
fn w_escaped(t: &Vec<u8>, j: usize, q: u8, out: &mut Vec<u8>)
    requires
        j <= t@.len(),
    ensures
        final(out)@ == old(out)@ + escaped(t@.skip(j as int), q),
    decreases t@.len() - j,
{
    if j == t.len() {
        proof {
            assert(out@ =~= out@ + escaped(t@.skip(j as int), q));
        }
        return ;
    }
    let x = t[j];
    if x == q || x == 0x5C {
        out.push(0x5C);
        out.push(x);
    } else if x == 0x08 {
        out.push(0x5C);
        out.push(0x62);
    } else if x == 0x0C {
        out.push(0x5C);
        out.push(0x66);
    } else if x == 0x0A {
        out.push(0x5C);
        out.push(0x6E);
    } else if x == 0x0D {
        out.push(0x5C);
        out.push(0x72);
    } else if x == 0x09 {
        out.push(0x5C);
        out.push(0x74);
    } else if x < 0x20 {
        out.push(0x5C);
        out.push(0x75);
        out.push(0x30);
        out.push(0x30);
        let hi = x / 16;
        let lo = x % 16;
        out.push(
            if hi < 10 {
                0x30 + hi
            } else {
                0x57 + hi
            },
        );
        out.push(
            if lo < 10 {
                0x30 + lo
            } else {
                0x57 + lo
            },
        );
    } else {
        out.push(x);
    }
    proof {
        assert(t@.skip(j as int)[0] == t@[j as int]);
        assert(t@.skip(j as int).drop_first() =~= t@.skip(j + 1));
        assert(out@ =~= old(out)@ + escape_byte(x, q));
    }
    let ghost mid = out@;
    w_escaped(t, j + 1, q, out);
    proof {
        assert(final(out)@ =~= old(out)@ + escaped(t@.skip(j as int), q));
    }
}

/// Appends the diagnostic text of one item.
#[verifier::loop_isolation(false)]
#[verifier::rlimit(100)]
pub fn ser_item(i: &Item, compact: bool, out: &mut Vec<u8>)
    requires
        !has_float(i.model()),
    ensures
        final(out)@ == old(out)@ + ser(i.model(), compact),
    decreases i,
{
    match i {
        Item::Unsigned(n) => {
            w_digits(*n as u128, out);
        },
        Item::Negative(n) => {
            out.push(0x2D);
            let ghost mid = out@;
            w_digits(*n as u128 + 1, out);
            proof {
                assert(final(out)@ =~= old(out)@ + ser(i.model(), compact));
            }
        },
        Item::Bytes(b) => {
            out.push(0x68);
            out.push(0x27);
            let ghost mid = out@;
            w_hex(b, 0, out);
            out.push(0x27);
            proof {
                assert(b@.skip(0) =~= b@);
                assert(final(out)@ =~= old(out)@ + ser(i.model(), compact));
            }
        },
        Item::Text(t) => {
            out.push(0x22);
            let ghost mid = out@;
            w_escaped(t, 0, 0x22, out);
            out.push(0x22);
            proof {
                assert(t@.skip(0) =~= t@);
                assert(final(out)@ =~= old(out)@ + ser(i.model(), compact));
            }
        },
        Item::NumLiteral(t) => {
            let ghost mid = out@;
            append_text(t, out);
            proof {
                assert(final(out)@ =~= old(out)@ + ser(i.model(), compact));
            }
        },
        Item::AppLiteral(ident, payload) => {
            let ghost mid0 = out@;
            append_text(ident, out);
            out.push(0x27);
            let ghost mid = out@;
            w_escaped(payload, 0, 0x27, out);
            out.push(0x27);
            proof {
                assert(payload@.skip(0) =~= payload@);
                assert(final(out)@ =~= old(out)@ + ser(i.model(), compact));
            }
        },
        Item::Simple(s) => {
            if *s == 20 {
                out.push(0x66);
                out.push(0x61);
                out.push(0x6C);
                out.push(0x73);
                out.push(0x65);
            } else if *s == 21 {
                out.push(0x74);
                out.push(0x72);
                out.push(0x75);
                out.push(0x65);
            } else if *s == 22 {
                out.push(0x6E);
                out.push(0x75);
                out.push(0x6C);
                out.push(0x6C);
            } else if *s == 23 {
                out.push(0x75);
                out.push(0x6E);
                out.push(0x64);
                out.push(0x65);
                out.push(0x66);
                out.push(0x69);
                out.push(0x6E);
                out.push(0x65);
                out.push(0x64);
            } else {
                out.push(0x73);
                out.push(0x69);
                out.push(0x6D);
                out.push(0x70);
                out.push(0x6C);
                out.push(0x65);
                out.push(0x28);
                w_digits(*s as u128, out);
                out.push(0x29);
            }
            proof {
                assert(final(out)@ =~= old(out)@ + ser(i.model(), compact));
            }
        },
        Item::Float(_, _) => {
            proof {
                assert(false);
            }
        },
        Item::Tagged(t, inner) => {
            w_digits(*t as u128, out);
            out.push(0x28);
            let ghost mid = out@;
            ser_item(&**inner, compact, out);
            out.push(0x29);
            proof {
                assert(final(out)@ =~= old(out)@ + ser(i.model(), compact));
            }
        },
        Item::Array(v) => {
            let ghost m = models_of(v@);
            proof {
                assert(i.model() == ItemModel::Array(m));
            }
            out.push(0x5B);
            let ghost base = out@;
            let mut j: usize = 0;
            while j < v.len()
                invariant
                    j <= v@.len(),
                    m == models_of(v@),
                    out@ == base + ser_items(m.take(j as int), compact),
                decreases v@.len() - j,
            {
                proof {
                    assert(decreases_to!(*i => i->Array_0));
                    assert(i->Array_0 == *v);
                    assert(decreases_to!(*v => v@[j as int]));
                    assert(m[j as int] == v@[j as int].model());
                    if has_float(m[j as int]) {
                        lemma_float_array(m, j as int);
                    }
                }
                if j > 0 {
                    out.push(0x2C);
                    if !compact {
                        out.push(0x20);
                    }
                }
                ser_item(&v[j], compact, out);
                proof {
                    lemma_ser_items_push(m.take(j as int), m[j as int], compact);
                    assert(m.take(j + 1) =~= m.take(j as int).push(m[j as int]));
                    if j > 0 {
                        assert(base + ser_items(m.take(j as int), compact) + sep(compact, 0x2C)
                            + ser(m[j as int], compact) =~= base + (ser_items(
                            m.take(j as int),
                            compact,
                        ) + sep(compact, 0x2C) + ser(m[j as int], compact)));
                    } else {
                        assert(m.take(0) =~= Seq::<ItemModel>::empty());
                        assert(base + ser(m[j as int], compact) =~= base + ser_items(
                            m.take(1),
                            compact,
                        ));
                    }
                }
                j = j + 1;
            }
            out.push(0x5D);
            proof {
                assert(m.take(v@.len() as int) =~= m);
                assert(final(out)@ =~= old(out)@ + ser(i.model(), compact));
            }
        },
        Item::Mapping(v) => {
            let ghost m = pair_models_of(v@);
            proof {
                assert(i.model() == ItemModel::Mapping(m));
            }
            out.push(0x7B);
            let ghost base = out@;
            let mut j: usize = 0;
            while j < v.len()
                invariant
                    j <= v@.len(),
                    m == pair_models_of(v@),
                    out@ == base + ser_pairs(m.take(j as int), compact),
                decreases v@.len() - j,
            {
                proof {
                    assert(decreases_to!(*i => i->Mapping_0));
                    assert(i->Mapping_0 == *v);
                    assert(decreases_to!(*v => v@[j as int]));
                    assert(decreases_to!(v@[j as int] => v@[j as int].0));
                    assert(decreases_to!(v@[j as int] => v@[j as int].1));
                    assert(m[j as int] == (v@[j as int].0.model(), v@[j as int].1.model()));
                    if has_float(m[j as int].0) || has_float(m[j as int].1) {
                        lemma_float_pairs(m, j as int);
                    }
                }
                if j > 0 {
                    out.push(0x2C);
                    if !compact {
                        out.push(0x20);
                    }
                }
                let ghost before = out@;
                ser_item(&v[j].0, compact, out);
                out.push(0x3A);
                if !compact {
                    out.push(0x20);
                }
                ser_item(&v[j].1, compact, out);
                proof {
                    let entry = ser(m[j as int].0, compact) + sep(compact, 0x3A) + ser(
                        m[j as int].1,
                        compact,
                    );
                    assert(out@ =~= before + entry);
                    lemma_ser_pairs_push(m.take(j as int), m[j as int], compact);
                    assert(m.take(j + 1) =~= m.take(j as int).push(m[j as int]));
                    if j > 0 {
                        assert(base + ser_pairs(m.take(j as int), compact) + sep(compact, 0x2C)
                            + entry =~= base + (ser_pairs(m.take(j as int), compact) + sep(
                            compact,
                            0x2C,
                        ) + entry));
                    } else {
                        assert(m.take(0) =~= Seq::<(ItemModel, ItemModel)>::empty());
                    }
                }
                j = j + 1;
            }
            out.push(0x7D);
            proof {
                assert(m.take(v@.len() as int) =~= m);
                assert(final(out)@ =~= old(out)@ + ser(i.model(), compact));
            }
        },
    }
}

/// Appends all of `t` to `out`.
fn append_text(t: &Vec<u8>, out: &mut Vec<u8>)
    ensures
        final(out)@ == old(out)@ + t@,
{
    let ghost base = out@;
    let mut j: usize = 0;
    while j < t.len()
        invariant
            j <= t@.len(),
            out@ =~= base + t@.take(j as int),
        decreases t@.len() - j,
    {
        out.push(t[j]);
        proof {
            assert(base + t@.take(j as int) + seq![t@[j as int]] =~= base + t@.take(j + 1));
        }
        j = j + 1;
    }
    proof {
        assert(t@.take(t@.len() as int) =~= t@);
    }
}

} // verus!
