//! The executable CBOR decoder, proved to return exactly what the
//! specification functions in `binary` say the bytes mean.
use vstd::prelude::*;
use crate::items::{Item, ItemModel, FloatWidth, models_of, pair_models_of};
use crate::errors::DecodeError;
use crate::binary::{
    be_val, dec, dec_chunks, dec_head, dec_item, dec_list, dec_list_indef, dec_pairs,
    dec_pairs_indef, lemma_be_val_bound, lemma_pow256_mono, pow256,
};
use crate::utf8::is_utf8_from;

verus! {

broadcast use vstd::std_specs::vec::group_vec_axioms, vstd::seq::group_seq_axioms;

/// Reads `n` big-endian bytes at `pos` as an unsigned value.
fn read_be(s: &Vec<u8>, pos: usize, n: usize) -> (r: u64)
    requires
        pos + n <= s@.len(),
        n <= 8,
    ensures
        r == be_val(s@.subrange(pos as int, pos + n)),
{
    proof {
        assert(pow256(8) == 0x1_0000_0000_0000_0000) by {
            reveal_with_fuel(pow256, 9);
        }
    }
    let len = s.len();
    let mut acc: u64 = 0;
    let mut i: usize = 0;
    while i < n
        invariant
            i <= n,
            n <= 8,
            pos + n <= s@.len(),
            s@.len() == len,
            pow256(8) == 0x1_0000_0000_0000_0000,
            acc == be_val(s@.subrange(pos as int, pos + i)),
            acc < pow256(i as nat),
        decreases n - i,
    {
        proof {
            lemma_pow256_mono(i as nat, 7);
            assert(pow256(7) * 256 == pow256(8));
            assert(s@.subrange(pos as int, pos + i + 1).drop_last() =~= s@.subrange(
                pos as int,
                pos + i,
            ));
            assert(s@.subrange(pos as int, pos + i + 1).last() == s@[pos + i]);
        }
        acc = acc * 256 + (s[pos + i] as u64);
        i = i + 1;
    }
    acc
}

/// Reads one head at `pos`: major type, additional info, argument, and the
/// position just past the head.
fn d_head(s: &Vec<u8>, pos: usize) -> (r: Result<(u8, u8, u64, usize), DecodeError>)
    requires
        pos <= s@.len(),
    ensures
        match r {
            Ok(h) => pos < h.3 <= s@.len() && dec_head(s@.skip(pos as int)) == Ok::<
                _,
                DecodeError,
            >((h.0, h.1, h.2, h.3 - pos)),
            Err(e) => dec_head(s@.skip(pos as int)) == Err::<(u8, u8, u64, int), DecodeError>(e),
        },
{
    let ghost t = s@.skip(pos as int);
    if pos == s.len() {
        return Err(DecodeError::UnexpectedEof);
    }
    proof {
        assert(t[0] == s@[pos as int]);
    }
    let b = s[pos];
    let major = b / 32;
    let ai = b % 32;
    if ai < 24 {
        Ok((major, ai, ai as u64, pos + 1))
    } else if ai == 24 {
        if s.len() - pos >= 2 {
            proof {
                assert(t[1] == s@[pos + 1]);
            }
            Ok((major, ai, s[pos + 1] as u64, pos + 2))
        } else {
            Err(DecodeError::UnexpectedEof)
        }
    } else if ai == 25 || ai == 26 || ai == 27 {
        let n: usize = if ai == 25 {
            2
        } else if ai == 26 {
            4
        } else {
            8
        };
        if s.len() - pos >= n + 1 {
            let arg = read_be(s, pos + 1, n);
            proof {
                assert(t.subrange(1, 1 + n) =~= s@.subrange(pos + 1, pos + 1 + n));
                lemma_be_val_bound(t.subrange(1, 1 + n));
                lemma_pow256_mono((n as nat), 8);
                assert(pow256(8) == 0x1_0000_0000_0000_0000) by {
                    reveal_with_fuel(pow256, 9);
                }
            }
            Ok((major, ai, arg, pos + 1 + n))
        } else {
            Err(DecodeError::UnexpectedEof)
        }
    } else if ai < 31 {
        Err(DecodeError::ReservedAdditionalInfo)
    } else {
        Ok((major, 31, 0, pos + 1))
    }
}

/// Copies `s[pos .. pos + n]` into a fresh vector.
fn copy_range(s: &Vec<u8>, pos: usize, n: usize) -> (r: Vec<u8>)
    requires
        pos + n <= s@.len(),
    ensures
        r@ == s@.subrange(pos as int, pos + n),
{
    let len = s.len();
    let mut out: Vec<u8> = Vec::new();
    let mut i: usize = 0;
    while i < n
        invariant
            i <= n,
            pos + n <= s@.len(),
            s@.len() == len,
            out@ =~= s@.subrange(pos as int, pos + i),
        decreases n - i,
    {
        out.push(s[pos + i]);
        proof {
            assert(out@ =~= s@.subrange(pos as int, pos + i + 1));
        }
        i = i + 1;
    }
    out
}

/// Decodes one item at `pos`; returns it with the position just past it.
#[verifier::rlimit(100)]
fn d_item(s: &Vec<u8>, pos: usize) -> (r: Result<(Item, usize), DecodeError>)
    requires
        pos <= s@.len(),
    ensures
        match r {
            Ok(p) => pos < p.1 <= s@.len() && dec_item(s@.skip(pos as int)) == Ok::<
                _,
                DecodeError,
            >((p.0.model(), p.1 - pos)),
            Err(e) => dec_item(s@.skip(pos as int)) == Err::<(ItemModel, int), DecodeError>(e),
        },
    decreases s@.len() - pos, 0int, 0int,
{
    let ghost t = s@.skip(pos as int);
    let (major, ai, arg, h) = match d_head(s, pos) {
        Ok(x) => x,
        Err(e) => {
            return Err(e);
        },
    };
    if major == 0 {
        if ai == 31 {
            Err(DecodeError::InvalidIndefinite)
        } else {
            Ok((Item::Unsigned(arg), h))
        }
    } else if major == 1 {
        if ai == 31 {
            Err(DecodeError::InvalidIndefinite)
        } else {
            Ok((Item::Negative(arg), h))
        }
    } else if major == 2 || major == 3 {
        if ai == 31 {
            proof {
                assert(t.skip(h - pos) =~= s@.skip(h as int));
            }
            let mut data: Vec<u8> = Vec::new();
            let np = match d_chunks(s, h, major, &mut data) {
                Ok(np) => np,
                Err(e) => {
                    return Err(e);
                },
            };
            if major == 3 {
                if !is_utf8_from(&data, 0) {
                    proof {
                        assert(data@.skip(0) =~= data@);
                    }
                    return Err(DecodeError::InvalidUtf8);
                }
                proof {
                    assert(data@.skip(0) =~= data@);
                }
                Ok((Item::Text(data), np))
            } else {
                Ok((Item::Bytes(data), np))
            }
        } else if arg <= (s.len() - h) as u64 {
            let n = arg as usize;
            let data = copy_range(s, h, n);
            proof {
                assert(t.subrange(h - pos, h - pos + arg) =~= s@.subrange(h as int, h + arg));
            }
            if major == 3 {
                if !is_utf8_from(&data, 0) {
                    proof {
                        assert(data@.skip(0) =~= data@);
                    }
                    return Err(DecodeError::InvalidUtf8);
                }
                proof {
                    assert(data@.skip(0) =~= data@);
                }
                Ok((Item::Text(data), h + n))
            } else {
                Ok((Item::Bytes(data), h + n))
            }
        } else {
            Err(DecodeError::UnexpectedEof)
        }
    } else if major == 4 {
        proof {
            assert(t.skip(h - pos) =~= s@.skip(h as int));
        }
        let mut items: Vec<Item> = Vec::new();
        let np = if ai == 31 {
            match d_list_indef(s, h, &mut items) {
                Ok(np) => np,
                Err(e) => {
                    return Err(e);
                },
            }
        } else {
            match d_list(s, h, arg, &mut items) {
                Ok(np) => np,
                Err(e) => {
                    return Err(e);
                },
            }
        };
        proof {
            assert(models_of(items@) =~= models_of(Seq::<Item>::empty()) + models_of(items@));
        }
        Ok((Item::Array(items), np))
    } else if major == 5 {
        proof {
            assert(t.skip(h - pos) =~= s@.skip(h as int));
        }
        let mut pairs: Vec<(Item, Item)> = Vec::new();
        let np = if ai == 31 {
            match d_pairs_indef(s, h, &mut pairs) {
                Ok(np) => np,
                Err(e) => {
                    return Err(e);
                },
            }
        } else {
            match d_pairs(s, h, arg, &mut pairs) {
                Ok(np) => np,
                Err(e) => {
                    return Err(e);
                },
            }
        };
        proof {
            assert(pair_models_of(pairs@) =~= pair_models_of(Seq::<(Item, Item)>::empty())
                + pair_models_of(pairs@));
        }
        Ok((Item::Mapping(pairs), np))
    } else if major == 6 {
        if ai == 31 {
            Err(DecodeError::InvalidIndefinite)
        } else {
            proof {
                assert(t.skip(h - pos) =~= s@.skip(h as int));
            }
            match d_item(s, h) {
                Ok((inner, np)) => Ok((Item::Tagged(arg, Box::new(inner)), np)),
                Err(e) => Err(e),
            }
        }
    } else {
        if ai < 24 {
            Ok((Item::Simple(ai), h))
        } else if ai == 24 {
            if arg < 32 {
                Err(DecodeError::InvalidSimple)
            } else {
                Ok((Item::Simple(arg as u8), h))
            }
        } else if ai == 25 {
            Ok((Item::Float(arg, FloatWidth::Half), h))
        } else if ai == 26 {
            Ok((Item::Float(arg, FloatWidth::Single), h))
        } else if ai == 27 {
            Ok((Item::Float(arg, FloatWidth::Double), h))
        } else {
            Err(DecodeError::UnexpectedBreak)
        }
    }
}

/// Decodes exactly `n` items starting at `pos`, appending them to `acc`.
fn d_list(s: &Vec<u8>, pos: usize, n: u64, acc: &mut Vec<Item>) -> (r: Result<usize, DecodeError>)
    requires
        pos <= s@.len(),
    ensures
        match r {
            Ok(np) => pos <= np <= s@.len() && (dec_list(s@.skip(pos as int), n as nat) matches Ok(
                pr,
            ) && models_of(final(acc)@) == models_of(old(acc)@) + pr.0 && np - pos == pr.1),
            Err(e) => dec_list(s@.skip(pos as int), n as nat) == Err::<
                (Seq<ItemModel>, int),
                DecodeError,
            >(e),
        },
    decreases s@.len() - pos, 1int, n,
{
    if n == 0 {
        proof {
            assert(models_of(acc@) =~= models_of(acc@) + Seq::<ItemModel>::empty());
        }
        return Ok(pos);
    }
    let (item, p1) = match d_item(s, pos) {
        Ok(x) => x,
        Err(e) => {
            return Err(e);
        },
    };
    let ghost mid_expected = models_of(acc@).push(item.model());
    acc.push(item);
    proof {
        assert(models_of(acc@) =~= mid_expected);
        assert(s@.skip(pos as int).skip(p1 - pos) =~= s@.skip(p1 as int));
    }
    let ghost before = models_of(acc@);
    match d_list(s, p1, n - 1, acc) {
        Ok(np) => {
            proof {
                let pr = dec_list(s@.skip(p1 as int), (n - 1) as nat)->Ok_0;
                assert(models_of(final(acc)@) =~= mid_expected.drop_last() + (seq![
                    item.model(),
                ] + pr.0));
            }
            Ok(np)
        },
        Err(e) => Err(e),
    }
}

/// Decodes items up to a break byte, appending them to `acc`.
fn d_list_indef(s: &Vec<u8>, pos: usize, acc: &mut Vec<Item>) -> (r: Result<usize, DecodeError>)
    requires
        pos <= s@.len(),
    ensures
        match r {
            Ok(np) => pos <= np <= s@.len() && (dec_list_indef(s@.skip(pos as int)) matches Ok(pr)
                && models_of(final(acc)@) == models_of(old(acc)@) + pr.0 && np - pos == pr.1),
            Err(e) => dec_list_indef(s@.skip(pos as int)) == Err::<
                (Seq<ItemModel>, int),
                DecodeError,
            >(e),
        },
    decreases s@.len() - pos, 1int, 0int,
{
    let ghost t = s@.skip(pos as int);
    if pos == s.len() {
        return Err(DecodeError::UnexpectedEof);
    }
    proof {
        assert(t[0] == s@[pos as int]);
    }
    if s[pos] == 0xFF {
        proof {
            assert(models_of(acc@) =~= models_of(acc@) + Seq::<ItemModel>::empty());
        }
        return Ok(pos + 1);
    }
    let (item, p1) = match d_item(s, pos) {
        Ok(x) => x,
        Err(e) => {
            return Err(e);
        },
    };
    let ghost mid_expected = models_of(acc@).push(item.model());
    acc.push(item);
    proof {
        assert(models_of(acc@) =~= mid_expected);
        assert(s@.skip(pos as int).skip(p1 - pos) =~= s@.skip(p1 as int));
    }
    match d_list_indef(s, p1, acc) {
        Ok(np) => {
            proof {
                let pr = dec_list_indef(s@.skip(p1 as int))->Ok_0;
                assert(models_of(final(acc)@) =~= mid_expected.drop_last() + (seq![
                    item.model(),
                ] + pr.0));
            }
            Ok(np)
        },
        Err(e) => Err(e),
    }
}

/// Decodes exactly `n` key-value pairs starting at `pos`.
fn d_pairs(s: &Vec<u8>, pos: usize, n: u64, acc: &mut Vec<(Item, Item)>) -> (r: Result<
    usize,
    DecodeError,
>)
    requires
        pos <= s@.len(),
    ensures
        match r {
            Ok(np) => pos <= np <= s@.len() && (dec_pairs(s@.skip(pos as int), n as nat) matches Ok(
                pr,
            ) && pair_models_of(final(acc)@) == pair_models_of(old(acc)@) + pr.0 && np - pos
                == pr.1),
            Err(e) => dec_pairs(s@.skip(pos as int), n as nat) == Err::<
                (Seq<(ItemModel, ItemModel)>, int),
                DecodeError,
            >(e),
        },
    decreases s@.len() - pos, 1int, n,
{
    if n == 0 {
        proof {
            assert(pair_models_of(acc@) =~= pair_models_of(acc@) + Seq::<
                (ItemModel, ItemModel),
            >::empty());
        }
        return Ok(pos);
    }
    let (key, p1) = match d_item(s, pos) {
        Ok(x) => x,
        Err(e) => {
            return Err(e);
        },
    };
    proof {
        assert(s@.skip(pos as int).skip(p1 - pos) =~= s@.skip(p1 as int));
    }
    let (val, p2) = match d_item(s, p1) {
        Ok(x) => x,
        Err(e) => {
            return Err(e);
        },
    };
    let ghost mid_expected = pair_models_of(acc@).push((key.model(), val.model()));
    acc.push((key, val));
    proof {
        assert(pair_models_of(acc@) =~= mid_expected);
        assert(s@.skip(pos as int).skip(p2 - pos) =~= s@.skip(p2 as int));
    }
    match d_pairs(s, p2, n - 1, acc) {
        Ok(np) => {
            proof {
                let pr = dec_pairs(s@.skip(p2 as int), (n - 1) as nat)->Ok_0;
                assert(pair_models_of(final(acc)@) =~= mid_expected.drop_last() + (seq![
                    (key.model(), val.model()),
                ] + pr.0));
            }
            Ok(np)
        },
        Err(e) => Err(e),
    }
}

/// Decodes key-value pairs up to a break byte.
fn d_pairs_indef(s: &Vec<u8>, pos: usize, acc: &mut Vec<(Item, Item)>) -> (r: Result<
    usize,
    DecodeError,
>)
    requires
        pos <= s@.len(),
    ensures
        match r {
            Ok(np) => pos <= np <= s@.len() && (dec_pairs_indef(s@.skip(pos as int)) matches Ok(pr)
                && pair_models_of(final(acc)@) == pair_models_of(old(acc)@) + pr.0 && np - pos
                == pr.1),
            Err(e) => dec_pairs_indef(s@.skip(pos as int)) == Err::<
                (Seq<(ItemModel, ItemModel)>, int),
                DecodeError,
            >(e),
        },
    decreases s@.len() - pos, 1int, 0int,
{
    let ghost t = s@.skip(pos as int);
    if pos == s.len() {
        return Err(DecodeError::UnexpectedEof);
    }
    proof {
        assert(t[0] == s@[pos as int]);
    }
    if s[pos] == 0xFF {
        proof {
            assert(pair_models_of(acc@) =~= pair_models_of(acc@) + Seq::<
                (ItemModel, ItemModel),
            >::empty());
        }
        return Ok(pos + 1);
    }
    let (key, p1) = match d_item(s, pos) {
        Ok(x) => x,
        Err(e) => {
            return Err(e);
        },
    };
    proof {
        assert(s@.skip(pos as int).skip(p1 - pos) =~= s@.skip(p1 as int));
    }
    let (val, p2) = match d_item(s, p1) {
        Ok(x) => x,
        Err(e) => {
            return Err(e);
        },
    };
    let ghost mid_expected = pair_models_of(acc@).push((key.model(), val.model()));
    acc.push((key, val));
    proof {
        assert(pair_models_of(acc@) =~= mid_expected);
        assert(s@.skip(pos as int).skip(p2 - pos) =~= s@.skip(p2 as int));
    }
    match d_pairs_indef(s, p2, acc) {
        Ok(np) => {
            proof {
                let pr = dec_pairs_indef(s@.skip(p2 as int))->Ok_0;
                assert(pair_models_of(final(acc)@) =~= mid_expected.drop_last() + (seq![
                    (key.model(), val.model()),
                ] + pr.0));
            }
            Ok(np)
        },
        Err(e) => Err(e),
    }
}

/// Decodes chunks of an indefinite-length string, appending their bytes.
fn d_chunks(s: &Vec<u8>, pos: usize, major: u8, acc: &mut Vec<u8>) -> (r: Result<
    usize,
    DecodeError,
>)
    requires
        pos <= s@.len(),
    ensures
        match r {
            Ok(np) => pos <= np <= s@.len() && (dec_chunks(s@.skip(pos as int), major) matches Ok(
                pr,
            ) && final(acc)@ == old(acc)@ + pr.0 && np - pos == pr.1),
            Err(e) => dec_chunks(s@.skip(pos as int), major) == Err::<(Seq<u8>, int), DecodeError>(
                e,
            ),
        },
    decreases s@.len() - pos, 1int, 0int,
{
    let ghost t = s@.skip(pos as int);
    if pos == s.len() {
        return Err(DecodeError::UnexpectedEof);
    }
    proof {
        assert(t[0] == s@[pos as int]);
    }
    if s[pos] == 0xFF {
        proof {
            assert(acc@ =~= acc@ + Seq::<u8>::empty());
        }
        return Ok(pos + 1);
    }
    let (m, ai, arg, h) = match d_head(s, pos) {
        Ok(x) => x,
        Err(e) => {
            return Err(e);
        },
    };
    if m != major || ai == 31 {
        return Err(DecodeError::InvalidChunk);
    }
    if arg > (s.len() - h) as u64 {
        return Err(DecodeError::UnexpectedEof);
    }
    let n = arg as usize;
    let ghost acc0 = acc@;
    let len = s.len();
    let mut i: usize = 0;
    while i < n
        invariant
            i <= n,
            h + n <= s@.len(),
            s@.len() == len,
            acc@ =~= acc0 + s@.subrange(h as int, h + i),
        decreases n - i,
    {
        acc.push(s[h + i]);
        proof {
            assert(acc@ =~= acc0 + s@.subrange(h as int, h + i + 1));
        }
        i = i + 1;
    }
    proof {
        assert(t.subrange(h - pos, h - pos + arg) =~= s@.subrange(h as int, h + arg));
        assert(s@.skip(pos as int).skip(h + arg - pos) =~= s@.skip(h + arg));
    }
    match d_chunks(s, h + n, major, acc) {
        Ok(np) => {
            proof {
                let pr = dec_chunks(s@.skip(h + arg), major)->Ok_0;
                assert(final(acc)@ =~= acc0 + (s@.subrange(h as int, h + arg) + pr.0));
            }
            Ok(np)
        },
        Err(e) => Err(e),
    }
}

/// Decodes a whole byte sequence as exactly one item. Trailing bytes after
/// the item are an error, as is truncated input.
pub fn decode_bytes(s: &Vec<u8>) -> (r: Result<Item, DecodeError>)
    ensures
        match r {
            Ok(item) => dec(s@) == Ok::<ItemModel, DecodeError>(item.model()),
            Err(e) => dec(s@) == Err::<ItemModel, DecodeError>(e),
        },
{
    proof {
        assert(s@.skip(0) =~= s@);
    }
    match d_item(s, 0) {
        Ok((item, np)) => if np == s.len() {
            Ok(item)
        } else {
            Err(DecodeError::TrailingData)
        },
        Err(e) => Err(e),
    }
}

} // verus!
