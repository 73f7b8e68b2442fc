//! The executable diagnostic-notation parser, proved to return exactly what
//! the grammar functions in `text_in` say the text means.
use vstd::prelude::*;
use crate::items::{Item, ItemModel, models_of, pair_models_of};
use crate::errors::ParseError;
use crate::text_in::{
    b64_val, digits_val, enc_cp, find_byte, hex4, hex_val, is_digit, is_ident_byte, is_letter,
    is_ws, p_b64,
    lemma_find_byte_bounds, lemma_scan_digits_bounds, lemma_scan_ident_bounds,
    lemma_skip_ws_bounds, p_bytes_segs, p_hex, p_item, p_items, p_number, p_pairs, p_qstr, p_top,
    p_word, scan_digits, scan_ident, skip_ws,
};
use crate::utf8::is_utf8_from;

verus! {

broadcast use vstd::std_specs::vec::group_vec_axioms, vstd::seq::group_seq_axioms;

fn x_find(s: &Vec<u8>, pos: usize, b: u8) -> (r: usize)
    requires
        pos <= s@.len(),
    ensures
        r == find_byte(s@, pos as int, b),
        pos <= r <= s@.len(),
    decreases s@.len() - pos,
{
    if pos == s.len() {
        pos
    } else if s[pos] == b {
        pos
    } else {
        x_find(s, pos + 1, b)
    }
}

fn x_skip_ws(s: &Vec<u8>, pos: usize) -> (r: usize)
    requires
        pos <= s@.len(),
    ensures
        r == skip_ws(s@, pos as int),
        pos <= r <= s@.len(),
    decreases s@.len() - pos,
{
    if pos == s.len() {
        pos
    } else {
        let b = s[pos];
        if b == 0x20 || b == 0x09 || b == 0x0A || b == 0x0D {
            x_skip_ws(s, pos + 1)
        } else if b == 0x2F {
            let e = x_find(s, pos + 1, 0x2F);
            if e >= s.len() {
                s.len()
            } else {
                x_skip_ws(s, e + 1)
            }
        } else if b == 0x23 {
            let e = x_find(s, pos + 1, 0x0A);
            if e >= s.len() {
                s.len()
            } else {
                x_skip_ws(s, e + 1)
            }
        } else {
            pos
        }
    }
}

pub(crate) fn x_scan_digits(s: &Vec<u8>, pos: usize) -> (r: usize)
    requires
        pos <= s@.len(),
    ensures
        r == scan_digits(s@, pos as int),
        pos <= r <= s@.len(),
    decreases s@.len() - pos,
{
    if pos == s.len() {
        pos
    } else if 0x30 <= s[pos] && s[pos] <= 0x39 {
        x_scan_digits(s, pos + 1)
    } else {
        pos
    }
}

fn x_scan_ident(s: &Vec<u8>, pos: usize) -> (r: usize)
    requires
        pos <= s@.len(),
    ensures
        r == scan_ident(s@, pos as int),
        pos <= r <= s@.len(),
    decreases s@.len() - pos,
{
    if pos == s.len() {
        pos
    } else {
        let b = s[pos];
        if 0x41 <= b && b <= 0x5A || 0x61 <= b && b <= 0x7A || 0x30 <= b && b <= 0x39 {
            x_scan_ident(s, pos + 1)
        } else {
            pos
        }
    }
}

proof fn lemma_digits_val_push(d: Seq<u8>, x: u8)
    requires
        is_digit(x),
    ensures
        digits_val(d.push(x)) == digits_val(d) * 10 + (x - 0x30),
{
    assert(d.push(x).drop_last() =~= d);
    assert(d.push(x).last() == x);
}

/// Evaluates a run of decimal digits, reporting whether its value exceeds
/// 2^64. When it does not, the value is returned exactly.
pub(crate) fn eval_digits(s: &Vec<u8>, a: usize, b: usize) -> (r: (u128, bool))
    requires
        a <= b <= s@.len(),
        forall|k: int| a <= k < b ==> is_digit(s@[k]),
    ensures
        !r.1 ==> r.0 == digits_val(s@.subrange(a as int, b as int)) && r.0
            <= 0x1_0000_0000_0000_0000,
        r.1 ==> digits_val(s@.subrange(a as int, b as int)) > 0x1_0000_0000_0000_0000,
{
    let mut cur: u128 = 0;
    let mut of: bool = false;
    let mut j: usize = a;
    proof {
        assert(s@.subrange(a as int, a as int) =~= Seq::<u8>::empty());
    }
    while j < b
        invariant
            a <= j <= b <= s@.len(),
            forall|k: int| a <= k < b ==> is_digit(s@[k]),
            !of ==> cur == digits_val(s@.subrange(a as int, j as int)) && cur
                <= 0x1_0000_0000_0000_0000,
            of ==> digits_val(s@.subrange(a as int, j as int)) > 0x1_0000_0000_0000_0000,
        decreases b - j,
    {
        let d = s[j] - 0x30;
        proof {
            assert(s@.subrange(a as int, j + 1).drop_last() =~= s@.subrange(a as int, j as int));
            lemma_digits_val_push(s@.subrange(a as int, j as int), s@[j as int]);
            assert(s@.subrange(a as int, j as int).push(s@[j as int]) =~= s@.subrange(
                a as int,
                j + 1,
            ));
        }
        if !of {
            let next = cur * 10 + (d as u128);
            if next > 0x1_0000_0000_0000_0000 {
                of = true;
            } else {
                cur = next;
            }
        }
        j = j + 1;
    }
    (cur, of)
}

fn x_hex4(s: &Vec<u8>, pos: usize) -> (r: Option<u32>)
    requires
        pos <= s@.len(),
    ensures
        match r {
            Some(v) => hex4(s@, pos as int) == Some(v as nat) && v < 0x10000,
            None => hex4(s@, pos as int) is None,
        },
{
    if s.len() - pos < 4 {
        return None;
    }
    let h0 = hex_digit_val(s[pos]);
    let h1 = hex_digit_val(s[pos + 1]);
    let h2 = hex_digit_val(s[pos + 2]);
    let h3 = hex_digit_val(s[pos + 3]);
    if h0 < 16 && h1 < 16 && h2 < 16 && h3 < 16 {
        Some((h0 as u32) * 0x1000 + (h1 as u32) * 0x100 + (h2 as u32) * 0x10 + (h3 as u32))
    } else {
        None
    }
}

fn hex_digit_val(b: u8) -> (r: u8)
    ensures
        r as nat == hex_val(b),
{
    if 0x30 <= b && b <= 0x39 {
        b - 0x30
    } else if 0x61 <= b && b <= 0x66 {
        b - 0x57
    } else if 0x41 <= b && b <= 0x46 {
        b - 0x37
    } else {
        16
    }
}

/// Appends the UTF-8 bytes of a code point.
fn push_cp(cp: u32, out: &mut Vec<u8>)
    requires
        cp < 0x110000,
    ensures
        final(out)@ == old(out)@ + enc_cp(cp as nat),
{
    if cp < 0x80 {
        out.push(cp as u8);
    } else if cp < 0x800 {
        out.push(0xC0 + (cp / 0x40) as u8);
        out.push(0x80 + (cp % 0x40) as u8);
    } else if cp < 0x10000 {
        out.push(0xE0 + (cp / 0x1000) as u8);
        out.push(0x80 + ((cp / 0x40) % 0x40) as u8);
        out.push(0x80 + (cp % 0x40) as u8);
    } else {
        out.push(0xF0 + (cp / 0x40000) as u8);
        out.push(0x80 + ((cp / 0x1000) % 0x40) as u8);
        out.push(0x80 + ((cp / 0x40) % 0x40) as u8);
        out.push(0x80 + (cp % 0x40) as u8);
    }
    proof {
        assert(final(out)@ =~= old(out)@ + enc_cp(cp as nat));
    }
}

/// Reads quoted-string content, appending the decoded bytes to `acc`.
fn x_qstr(s: &Vec<u8>, pos: usize, q: u8, acc: &mut Vec<u8>) -> (r: Result<usize, ParseError>)
    requires
        pos <= s@.len(),
    ensures
        match r {
            Ok(np) => pos < np <= s@.len() && (p_qstr(s@, pos as int, q) matches Ok(pr)
                && final(acc)@ == old(acc)@ + pr.0 && np == pr.1),
            Err(e) => p_qstr(s@, pos as int, q) == Err::<(Seq<u8>, int), ParseError>(e),
        },
    decreases s@.len() - pos,
{
    if pos == s.len() {
        return Err(ParseError::UnterminatedString);
    }
    let b = s[pos];
    if b == q {
        proof {
            assert(acc@ =~= acc@ + Seq::<u8>::empty());
        }
        return Ok(pos + 1);
    }
    if b == 0x5C {
        if pos + 1 >= s.len() {
            return Err(ParseError::UnterminatedString);
        }
        let e = s[pos + 1];
        if e == 0x22 || e == 0x27 || e == 0x5C || e == 0x2F {
            acc.push(e);
            let ghost mid = acc@;
            match x_qstr(s, pos + 2, q, acc) {
                Ok(np) => {
                    proof {
                        let pr = p_qstr(s@, pos + 2, q)->Ok_0;
                        assert(final(acc)@ =~= old(acc)@ + (seq![e] + pr.0));
                    }
                    Ok(np)
                },
                Err(err) => Err(err),
            }
        } else if e == 0x62 || e == 0x66 || e == 0x6E || e == 0x72 || e == 0x74 {
            let c: u8 = if e == 0x62 {
                0x08
            } else if e == 0x66 {
                0x0C
            } else if e == 0x6E {
                0x0A
            } else if e == 0x72 {
                0x0D
            } else {
                0x09
            };
            acc.push(c);
            match x_qstr(s, pos + 2, q, acc) {
                Ok(np) => {
                    proof {
                        let pr = p_qstr(s@, pos + 2, q)->Ok_0;
                        assert(final(acc)@ =~= old(acc)@ + (seq![c] + pr.0));
                    }
                    Ok(np)
                },
                Err(err) => Err(err),
            }
        } else if e == 0x75 {
            match x_hex4(s, pos + 2) {
                None => Err(ParseError::InvalidEscape),
                Some(cp) => {
                    if 0xD800 <= cp && cp < 0xDC00 {
                        if s.len() - pos >= 12 && s[pos + 6] == 0x5C && s[pos + 7] == 0x75 {
                            match x_hex4(s, pos + 8) {
                                None => Err(ParseError::InvalidEscape),
                                Some(lo) => {
                                    if 0xDC00 <= lo && lo < 0xE000 {
                                        let full: u32 = 0x10000 + (cp - 0xD800) * 0x400 + (lo
                                            - 0xDC00);
                                        push_cp(full, acc);
                                        match x_qstr(s, pos + 12, q, acc) {
                                            Ok(np) => {
                                                proof {
                                                    let pr = p_qstr(s@, pos + 12, q)->Ok_0;
                                                    assert(final(acc)@ =~= old(acc)@ + (enc_cp(
                                                        full as nat,
                                                    ) + pr.0));
                                                }
                                                Ok(np)
                                            },
                                            Err(err) => Err(err),
                                        }
                                    } else {
                                        Err(ParseError::InvalidEscape)
                                    }
                                },
                            }
                        } else {
                            Err(ParseError::InvalidEscape)
                        }
                    } else if 0xDC00 <= cp && cp < 0xE000 {
                        Err(ParseError::InvalidEscape)
                    } else {
                        push_cp(cp, acc);
                        match x_qstr(s, pos + 6, q, acc) {
                            Ok(np) => {
                                proof {
                                    let pr = p_qstr(s@, pos + 6, q)->Ok_0;
                                    assert(final(acc)@ =~= old(acc)@ + (enc_cp(cp as nat) + pr.0));
                                }
                                Ok(np)
                            },
                            Err(err) => Err(err),
                        }
                    }
                },
            }
        } else {
            Err(ParseError::InvalidEscape)
        }
    } else {
        acc.push(b);
        match x_qstr(s, pos + 1, q, acc) {
            Ok(np) => {
                proof {
                    let pr = p_qstr(s@, pos + 1, q)->Ok_0;
                    assert(final(acc)@ =~= old(acc)@ + (seq![b] + pr.0));
                }
                Ok(np)
            },
            Err(err) => Err(err),
        }
    }
}

/// Reads hex byte-string content, appending the bytes to `acc`.
fn x_hex(s: &Vec<u8>, pos: usize, acc: &mut Vec<u8>) -> (r: Result<usize, ParseError>)
    requires
        pos <= s@.len(),
    ensures
        match r {
            Ok(np) => pos < np <= s@.len() && (p_hex(s@, pos as int) matches Ok(pr) && final(acc)@
                == old(acc)@ + pr.0 && np == pr.1),
            Err(e) => p_hex(s@, pos as int) == Err::<(Seq<u8>, int), ParseError>(e),
        },
    decreases s@.len() - pos,
{
    if pos == s.len() {
        return Err(ParseError::UnterminatedString);
    }
    let b = s[pos];
    if b == 0x27 {
        proof {
            assert(acc@ =~= acc@ + Seq::<u8>::empty());
        }
        return Ok(pos + 1);
    }
    if b == 0x20 || b == 0x09 || b == 0x0A || b == 0x0D {
        return x_hex(s, pos + 1, acc);
    }
    let h0 = hex_digit_val(b);
    if h0 < 16 {
        if pos + 1 >= s.len() {
            return Err(ParseError::InvalidByteString);
        }
        let h1 = hex_digit_val(s[pos + 1]);
        if h1 >= 16 {
            return Err(ParseError::InvalidByteString);
        }
        let byte = h0 * 16 + h1;
        acc.push(byte);
        match x_hex(s, pos + 2, acc) {
            Ok(np) => {
                proof {
                    let pr = p_hex(s@, pos + 2)->Ok_0;
                    assert(final(acc)@ =~= old(acc)@ + (seq![byte] + pr.0));
                }
                Ok(np)
            },
            Err(err) => Err(err),
        }
    } else {
        Err(ParseError::InvalidByteString)
    }
}

/// Reads base64 byte-string content, appending the decoded bytes to `acc`.
fn x_b64(s: &Vec<u8>, pos: usize, st: u32, nbits: u8, acc: &mut Vec<u8>) -> (r: Result<
    usize,
    ParseError,
>)
    requires
        pos <= s@.len(),
        nbits == 0 && st == 0 || nbits == 2 && st < 4 || nbits == 4 && st < 16 || nbits == 6 && st
            < 64,
    ensures
        match r {
            Ok(np) => pos < np <= s@.len() && (p_b64(s@, pos as int, st as nat, nbits as nat)
                matches Ok(pr) && final(acc)@ == old(acc)@ + pr.0 && np == pr.1),
            Err(e) => p_b64(s@, pos as int, st as nat, nbits as nat) == Err::<
                (Seq<u8>, int),
                ParseError,
            >(e),
        },
    decreases s@.len() - pos,
{
    if pos == s.len() {
        return Err(ParseError::UnterminatedString);
    }
    let b = s[pos];
    if b == 0x27 {
        if nbits == 6 {
            return Err(ParseError::InvalidByteString);
        }
        proof {
            assert(acc@ =~= acc@ + Seq::<u8>::empty());
        }
        return Ok(pos + 1);
    }
    if b == 0x20 || b == 0x09 || b == 0x0A || b == 0x0D || b == 0x3D {
        return x_b64(s, pos + 1, st, nbits, acc);
    }
    let v: u32 = if 0x41 <= b && b <= 0x5A {
        (b - 0x41) as u32
    } else if 0x61 <= b && b <= 0x7A {
        (b - 0x61) as u32 + 26
    } else if 0x30 <= b && b <= 0x39 {
        (b - 0x30) as u32 + 52
    } else if b == 0x2B || b == 0x2D {
        62
    } else if b == 0x2F || b == 0x5F {
        63
    } else {
        64
    };
    if v >= 64 {
        return Err(ParseError::InvalidByteString);
    }
    let acc2 = st * 64 + v;
    if nbits == 0 {
        x_b64(s, pos + 1, acc2, 6, acc)
    } else {
        let keepbits = nbits - 2;
        let div: u32 = if keepbits == 0 {
            1
        } else if keepbits == 2 {
            4
        } else {
            16
        };
        let byte = (acc2 / div) as u8;
        let keep = acc2 % div;
        acc.push(byte);
        match x_b64(s, pos + 1, keep, keepbits, acc) {
            Ok(np) => {
                proof {
                    let pr = p_b64(s@, pos + 1, keep as nat, keepbits as nat)->Ok_0;
                    assert(final(acc)@ =~= old(acc)@ + (seq![byte] + pr.0));
                }
                Ok(np)
            },
            Err(e) => Err(e),
        }
    }
}

/// Reads a number token.
fn x_number(s: &Vec<u8>, pos: usize) -> (r: Result<(Item, usize), ParseError>)
    requires
        pos < s@.len(),
    ensures
        match r {
            Ok(p) => pos < p.1 <= s@.len() && p_number(s@, pos as int) == Ok::<
                (ItemModel, int),
                ParseError,
            >((p.0.model(), p.1 as int)),
            Err(e) => p_number(s@, pos as int) == Err::<(ItemModel, int), ParseError>(e),
        },
{
    let neg = s[pos] == 0x2D;
    if neg && s.len() - pos < 2 {
        return Err(ParseError::UnexpectedEnd);
    }
    if neg && s[pos + 1] == 0x49 {
        let e = x_scan_ident(s, pos + 1);
        if e - (pos + 1) == 8 && s[pos + 2] == 0x6E && s[pos + 3] == 0x66 && s[pos + 4] == 0x69
            && s[pos + 5] == 0x6E && s[pos + 6] == 0x69 && s[pos + 7] == 0x74 && s[pos + 8]
            == 0x79 {
            proof {
                assert(s@.subrange(pos + 1, e as int) =~= seq![
                    0x49u8,
                    0x6E,
                    0x66,
                    0x69,
                    0x6E,
                    0x69,
                    0x74,
                    0x79,
                ]);
            }
            let tok = copy_bytes(s, pos, e);
            return Ok((Item::NumLiteral(tok), e));
        } else {
            proof {
                let id = s@.subrange(pos + 1, e as int);
                let kw = seq![0x49u8, 0x6E, 0x66, 0x69, 0x6E, 0x69, 0x74, 0x79];
                if id == kw {
                    assert(id.len() == 8);
                    assert(id[1] == 0x6E && id[2] == 0x66 && id[3] == 0x69 && id[4] == 0x6E
                        && id[5] == 0x69 && id[6] == 0x74 && id[7] == 0x79);
                }
            }
            return Err(ParseError::UnexpectedToken);
        }
    }
    let d0 = if neg {
        pos + 1
    } else {
        pos
    };
    let e1 = x_scan_digits(s, d0);
    if e1 == d0 {
        return Err(ParseError::UnexpectedToken);
    }
    proof {
        lemma_scan_digits_range(s@, d0 as int);
    }
    let hasfrac = e1 < s.len() && s[e1] == 0x2E;
    let e2 = if hasfrac {
        x_scan_digits(s, e1 + 1)
    } else {
        e1
    };
    if hasfrac && e2 == e1 + 1 {
        return Err(ParseError::UnexpectedToken);
    }
    let hasexp = e2 < s.len() && (s[e2] == 0x65 || s[e2] == 0x45);
    if hasexp {
        let x0 = if e2 + 1 < s.len() && (s[e2 + 1] == 0x2B || s[e2 + 1] == 0x2D) {
            e2 + 2
        } else {
            e2 + 1
        };
        let e3 = x_scan_digits(s, x0);
        if e3 == x0 {
            return Err(ParseError::UnexpectedToken);
        }
        let tok = copy_bytes(s, pos, e3);
        Ok((Item::NumLiteral(tok), e3))
    } else if hasfrac {
        let tok = copy_bytes(s, pos, e2);
        Ok((Item::NumLiteral(tok), e2))
    } else {
        let (v, of) = eval_digits(s, d0, e1);
        if !neg {
            if of || v > u64::MAX as u128 {
                Err(ParseError::NumberOutOfRange)
            } else {
                Ok((Item::Unsigned(v as u64), e1))
            }
        } else {
            if !of && v == 0 {
                Ok((Item::Unsigned(0), e1))
            } else if of {
                Err(ParseError::NumberOutOfRange)
            } else {
                Ok((Item::Negative((v - 1) as u64), e1))
            }
        }
    }
}

/// All bytes of a scanned digit run are digits.
pub(crate) proof fn lemma_scan_digits_range(s: Seq<u8>, pos: int)
    requires
        0 <= pos <= s.len(),
    ensures
        forall|k: int| pos <= k < scan_digits(s, pos) ==> is_digit(#[trigger] s[k]),
        pos <= scan_digits(s, pos) <= s.len(),
    decreases s.len() - pos,
{
    if pos < s.len() && is_digit(s[pos]) {
        lemma_scan_digits_range(s, pos + 1);
    }
}

/// Copies `s[a .. b]` into a fresh vector.
fn copy_bytes(s: &Vec<u8>, a: usize, b: usize) -> (r: Vec<u8>)
    requires
        a <= b <= s@.len(),
    ensures
        r@ == s@.subrange(a as int, b as int),
{
    let mut out: Vec<u8> = Vec::new();
    let len = s.len();
    let mut j: usize = a;
    proof {
        assert(out@ =~= s@.subrange(a as int, a as int));
    }
    while j < b
        invariant
            a <= j <= b <= s@.len(),
            s@.len() == len,
            out@ =~= s@.subrange(a as int, j as int),
        decreases b - j,
    {
        out.push(s[j]);
        proof {
            assert(out@ =~= s@.subrange(a as int, j + 1));
        }
        j = j + 1;
    }
    out
}

/// Reads juxtaposed hex byte-string segments starting at the `h`.
fn x_segs(s: &Vec<u8>, pos: usize, acc: &mut Vec<u8>) -> (r: Result<usize, ParseError>)
    requires
        pos <= s@.len(),
    ensures
        match r {
            Ok(np) => pos < np <= s@.len() && (p_bytes_segs(s@, pos as int) matches Ok(pr)
                && final(acc)@ == old(acc)@ + pr.0 && np == pr.1),
            Err(e) => p_bytes_segs(s@, pos as int) == Err::<(Seq<u8>, int), ParseError>(e),
        },
    decreases s@.len() - pos, 0int,
{
    if !(s.len() - pos >= 2 && s[pos] == 0x68 && s[pos + 1] == 0x27) {
        return Err(ParseError::InvalidByteString);
    }
    let np = match x_hex(s, pos + 2, acc) {
        Ok(np) => np,
        Err(e) => {
            return Err(e);
        },
    };
    let p2 = x_skip_ws(s, np);
    if s.len() - p2 >= 2 && s[p2] == 0x68 && s[p2 + 1] == 0x27 {
        match x_segs(s, p2, acc) {
            Ok(np2) => {
                proof {
                    let first = p_hex(s@, pos + 2)->Ok_0;
                    let rest = p_bytes_segs(s@, p2 as int)->Ok_0;
                    assert(final(acc)@ =~= old(acc)@ + (first.0 + rest.0));
                }
                Ok(np2)
            },
            Err(e) => Err(e),
        }
    } else {
        Ok(np)
    }
}

/// Reads one item, whitespace skipped first.
#[verifier::rlimit(100)]
fn x_item(s: &Vec<u8>, pos: usize) -> (r: Result<(Item, usize), ParseError>)
    requires
        pos <= s@.len(),
    ensures
        match r {
            Ok(p) => pos < p.1 <= s@.len() && p_item(s@, pos as int) == Ok::<
                (ItemModel, int),
                ParseError,
            >((p.0.model(), p.1 as int)),
            Err(e) => p_item(s@, pos as int) == Err::<(ItemModel, int), ParseError>(e),
        },
    decreases s@.len() - pos, 2int,
{
    let p = x_skip_ws(s, pos);
    if p == s.len() {
        return Err(ParseError::UnexpectedEnd);
    }
    let b = s[p];
    if b == 0x5B {
        let mut items: Vec<Item> = Vec::new();
        match x_items(s, p + 1, &mut items) {
            Ok(np) => {
                proof {
                    assert(models_of(items@) =~= models_of(Seq::<Item>::empty()) + models_of(
                        items@,
                    ));
                }
                Ok((Item::Array(items), np))
            },
            Err(e) => Err(e),
        }
    } else if b == 0x7B {
        let mut pairs: Vec<(Item, Item)> = Vec::new();
        match x_pairs(s, p + 1, &mut pairs) {
            Ok(np) => {
                proof {
                    assert(pair_models_of(pairs@) =~= pair_models_of(Seq::<(Item, Item)>::empty())
                        + pair_models_of(pairs@));
                }
                Ok((Item::Mapping(pairs), np))
            },
            Err(e) => Err(e),
        }
    } else if b == 0x22 {
        let mut t: Vec<u8> = Vec::new();
        match x_qstr(s, p + 1, 0x22, &mut t) {
            Ok(np) => {
                if is_utf8_from(&t, 0) {
                    proof {
                        assert(t@.skip(0) =~= t@);
                    }
                    Ok((Item::Text(t), np))
                } else {
                    proof {
                        assert(t@.skip(0) =~= t@);
                    }
                    Err(ParseError::InvalidText)
                }
            },
            Err(e) => Err(e),
        }
    } else if b == 0x2D || (0x30 <= b && b <= 0x39) {
        let (item, np) = match x_number(s, p) {
            Ok(x) => x,
            Err(e) => {
                return Err(e);
            },
        };
        let is_uint = match &item {
            Item::Unsigned(_) => true,
            _ => false,
        };
        if is_uint && np < s.len() && s[np] == 0x28 {
            let tagnum = match item {
                Item::Unsigned(n) => n,
                _ => 0,
            };
            match x_item(s, np + 1) {
                Ok((inner, np2)) => {
                    let p2 = x_skip_ws(s, np2);
                    if p2 < s.len() && s[p2] == 0x29 {
                        Ok((Item::Tagged(tagnum, Box::new(inner)), p2 + 1))
                    } else {
                        Err(ParseError::UnbalancedDelimiter)
                    }
                },
                Err(e) => Err(e),
            }
        } else {
            Ok((item, np))
        }
    } else if 0x41 <= b && b <= 0x5A || 0x61 <= b && b <= 0x7A {
        x_word(s, p)
    } else {
        Err(ParseError::UnexpectedToken)
    }
}

/// Reads array elements up to the closing bracket.
fn x_items(s: &Vec<u8>, pos: usize, acc: &mut Vec<Item>) -> (r: Result<usize, ParseError>)
    requires
        pos <= s@.len(),
    ensures
        match r {
            Ok(np) => pos <= np <= s@.len() && (p_items(s@, pos as int) matches Ok(pr)
                && models_of(final(acc)@) == models_of(old(acc)@) + pr.0 && np == pr.1),
            Err(e) => p_items(s@, pos as int) == Err::<(Seq<ItemModel>, int), ParseError>(e),
        },
    decreases s@.len() - pos, 3int,
{
    let p = x_skip_ws(s, pos);
    if p == s.len() {
        return Err(ParseError::UnexpectedEnd);
    }
    if s[p] == 0x5D {
        proof {
            assert(models_of(acc@) =~= models_of(acc@) + Seq::<ItemModel>::empty());
        }
        return Ok(p + 1);
    }
    let (item, np) = match x_item(s, p) {
        Ok(x) => x,
        Err(e) => {
            return Err(e);
        },
    };
    let p2 = x_skip_ws(s, np);
    if p2 == s.len() {
        return Err(ParseError::UnexpectedEnd);
    }
    let ghost mid_expected = models_of(acc@).push(item.model());
    let c = s[p2];
    if c == 0x2C {
        acc.push(item);
        proof {
            assert(models_of(acc@) =~= mid_expected);
        }
        match x_items(s, p2 + 1, acc) {
            Ok(np2) => {
                proof {
                    let pr = p_items(s@, p2 + 1)->Ok_0;
                    assert(models_of(final(acc)@) =~= mid_expected.drop_last() + (seq![
                        item.model(),
                    ] + pr.0));
                }
                Ok(np2)
            },
            Err(e) => Err(e),
        }
    } else if c == 0x5D {
        acc.push(item);
        proof {
            assert(models_of(acc@) =~= mid_expected);
            assert(mid_expected.drop_last() + seq![item.model()] =~= mid_expected);
        }
        Ok(p2 + 1)
    } else if c == 0x7D || c == 0x29 {
        Err(ParseError::UnbalancedDelimiter)
    } else {
        Err(ParseError::UnexpectedToken)
    }
}

/// Reads map entries up to the closing brace.
#[verifier::rlimit(100)]
fn x_pairs(s: &Vec<u8>, pos: usize, acc: &mut Vec<(Item, Item)>) -> (r: Result<usize, ParseError>)
    requires
        pos <= s@.len(),
    ensures
        match r {
            Ok(np) => pos <= np <= s@.len() && (p_pairs(s@, pos as int) matches Ok(pr)
                && pair_models_of(final(acc)@) == pair_models_of(old(acc)@) + pr.0 && np == pr.1),
            Err(e) => p_pairs(s@, pos as int) == Err::<
                (Seq<(ItemModel, ItemModel)>, int),
                ParseError,
            >(e),
        },
    decreases s@.len() - pos, 3int,
{
    let p = x_skip_ws(s, pos);
    if p == s.len() {
        return Err(ParseError::UnexpectedEnd);
    }
    if s[p] == 0x7D {
        proof {
            assert(pair_models_of(acc@) =~= pair_models_of(acc@) + Seq::<
                (ItemModel, ItemModel),
            >::empty());
        }
        return Ok(p + 1);
    }
    let (key, np) = match x_item(s, p) {
        Ok(x) => x,
        Err(e) => {
            return Err(e);
        },
    };
    let p2 = x_skip_ws(s, np);
    if p2 == s.len() {
        return Err(ParseError::UnexpectedEnd);
    }
    if s[p2] != 0x3A {
        return Err(ParseError::UnexpectedToken);
    }
    let (val, np2) = match x_item(s, p2 + 1) {
        Ok(x) => x,
        Err(e) => {
            return Err(e);
        },
    };
    let p3 = x_skip_ws(s, np2);
    if p3 == s.len() {
        return Err(ParseError::UnexpectedEnd);
    }
    let ghost mid_expected = pair_models_of(acc@).push((key.model(), val.model()));
    let c = s[p3];
    if c == 0x2C {
        acc.push((key, val));
        proof {
            assert(pair_models_of(acc@) =~= mid_expected);
        }
        match x_pairs(s, p3 + 1, acc) {
            Ok(np3) => {
                proof {
                    let pr = p_pairs(s@, p3 + 1)->Ok_0;
                    assert(pair_models_of(final(acc)@) =~= mid_expected.drop_last() + (seq![
                        (key.model(), val.model()),
                    ] + pr.0));
                }
                Ok(np3)
            },
            Err(e) => Err(e),
        }
    } else if c == 0x7D {
        acc.push((key, val));
        proof {
            assert(pair_models_of(acc@) =~= mid_expected);
            assert(mid_expected.drop_last() + seq![(key.model(), val.model())] =~= mid_expected);
        }
        Ok(p3 + 1)
    } else if c == 0x5D || c == 0x29 {
        Err(ParseError::UnbalancedDelimiter)
    } else {
        Err(ParseError::UnexpectedToken)
    }
}

/// Reads a construct beginning with a letter.
#[verifier::rlimit(100)]
fn x_word(s: &Vec<u8>, pos: usize) -> (r: Result<(Item, usize), ParseError>)
    requires
        pos < s@.len(),
    ensures
        match r {
            Ok(p) => pos < p.1 <= s@.len() && p_word(s@, pos as int) == Ok::<
                (ItemModel, int),
                ParseError,
            >((p.0.model(), p.1 as int)),
            Err(e) => p_word(s@, pos as int) == Err::<(ItemModel, int), ParseError>(e),
        },
    decreases s@.len() - pos, 1int,
{
    let e = x_scan_ident(s, pos);
    if e == pos {
        return Err(ParseError::UnexpectedToken);
    }
    let ghost id = s@.subrange(pos as int, e as int);
    let n = e - pos;
    if e < s.len() && s[e] == 0x27 {
        if n == 1 && s[pos] == 0x68 {
            proof {
                assert(id =~= seq![0x68u8]);
            }
            let mut bytes: Vec<u8> = Vec::new();
            match x_segs(s, pos, &mut bytes) {
                Ok(np) => {
                    proof {
                        let pr = p_bytes_segs(s@, pos as int)->Ok_0;
                        assert(bytes@ =~= Seq::<u8>::empty() + pr.0);
                    }
                    Ok((Item::Bytes(bytes), np))
                },
                Err(err) => Err(err),
            }
        } else if n == 3 && s[pos] == 0x62 && s[pos + 1] == 0x36 && s[pos + 2] == 0x34 {
            proof {
                assert(id =~= seq![0x62u8, 0x36, 0x34]);
            }
            let mut bytes: Vec<u8> = Vec::new();
            match x_b64(s, e + 1, 0, 0, &mut bytes) {
                Ok(np) => {
                    proof {
                        let pr = p_b64(s@, e + 1, 0, 0)->Ok_0;
                        assert(bytes@ =~= Seq::<u8>::empty() + pr.0);
                    }
                    Ok((Item::Bytes(bytes), np))
                },
                Err(err) => Err(err),
            }
        } else {
            proof {
                if id == seq![0x68u8] {
                    assert(id.len() == 1 && id[0] == 0x68);
                }
                if id == seq![0x62u8, 0x36, 0x34] {
                    assert(id.len() == 3 && id[0] == 0x62 && id[1] == 0x36 && id[2] == 0x34);
                }
            }
            let mut payload: Vec<u8> = Vec::new();
            match x_qstr(s, e + 1, 0x27, &mut payload) {
                Ok(np) => {
                    if is_utf8_from(&payload, 0) {
                        proof {
                            assert(payload@.skip(0) =~= payload@);
                            let pr = p_qstr(s@, e + 1, 0x27)->Ok_0;
                            assert(payload@ =~= Seq::<u8>::empty() + pr.0);
                        }
                        let ident = copy_bytes(s, pos, e);
                        Ok((Item::AppLiteral(ident, payload), np))
                    } else {
                        proof {
                            assert(payload@.skip(0) =~= payload@);
                            let pr = p_qstr(s@, e + 1, 0x27)->Ok_0;
                            assert(payload@ =~= Seq::<u8>::empty() + pr.0);
                        }
                        Err(ParseError::InvalidText)
                    }
                },
                Err(err) => Err(err),
            }
        }
    } else if n == 4 && s[pos] == 0x74 && s[pos + 1] == 0x72 && s[pos + 2] == 0x75 && s[pos + 3]
        == 0x65 {
        proof {
            assert(id =~= seq![0x74u8, 0x72, 0x75, 0x65]);
        }
        Ok((Item::Simple(21), e))
    } else if n == 5 && s[pos] == 0x66 && s[pos + 1] == 0x61 && s[pos + 2] == 0x6C && s[pos + 3]
        == 0x73 && s[pos + 4] == 0x65 {
        proof {
            assert(id =~= seq![0x66u8, 0x61, 0x6C, 0x73, 0x65]);
            assert(id != seq![0x74u8, 0x72, 0x75, 0x65]);
        }
        Ok((Item::Simple(20), e))
    } else if n == 4 && s[pos] == 0x6E && s[pos + 1] == 0x75 && s[pos + 2] == 0x6C && s[pos + 3]
        == 0x6C {
        proof {
            assert(id =~= seq![0x6Eu8, 0x75, 0x6C, 0x6C]);
            assert(id != seq![0x74u8, 0x72, 0x75, 0x65]);
        }
        Ok((Item::Simple(22), e))
    } else if n == 9 && s[pos] == 0x75 && s[pos + 1] == 0x6E && s[pos + 2] == 0x64 && s[pos + 3]
        == 0x65 && s[pos + 4] == 0x66 && s[pos + 5] == 0x69 && s[pos + 6] == 0x6E && s[pos + 7]
        == 0x65 && s[pos + 8] == 0x64 {
        proof {
            assert(id =~= seq![0x75u8, 0x6E, 0x64, 0x65, 0x66, 0x69, 0x6E, 0x65, 0x64]);
        }
        Ok((Item::Simple(23), e))
    } else if n == 8 && s[pos] == 0x49 && s[pos + 1] == 0x6E && s[pos + 2] == 0x66 && s[pos + 3]
        == 0x69 && s[pos + 4] == 0x6E && s[pos + 5] == 0x69 && s[pos + 6] == 0x74 && s[pos + 7]
        == 0x79 {
        proof {
            assert(id =~= seq![0x49u8, 0x6E, 0x66, 0x69, 0x6E, 0x69, 0x74, 0x79]);
        }
        let tok = copy_bytes(s, pos, e);
        Ok((Item::NumLiteral(tok), e))
    } else if n == 3 && s[pos] == 0x4E && s[pos + 1] == 0x61 && s[pos + 2] == 0x4E {
        proof {
            assert(id =~= seq![0x4Eu8, 0x61, 0x4E]);
        }
        let tok = copy_bytes(s, pos, e);
        Ok((Item::NumLiteral(tok), e))
    } else if n == 6 && s[pos] == 0x73 && s[pos + 1] == 0x69 && s[pos + 2] == 0x6D && s[pos + 3]
        == 0x70 && s[pos + 4] == 0x6C && s[pos + 5] == 0x65 {
        proof {
            assert(id =~= seq![0x73u8, 0x69, 0x6D, 0x70, 0x6C, 0x65]);
        }
        if e < s.len() && s[e] == 0x28 {
            let d2 = x_scan_digits(s, e + 1);
            if d2 == e + 1 {
                return Err(ParseError::UnexpectedToken);
            }
            proof {
                lemma_scan_digits_range(s@, e + 1);
            }
            let (v, of) = eval_digits(s, e + 1, d2);
            if of || v > 255 || (24 <= v && v < 32) {
                Err(ParseError::NumberOutOfRange)
            } else if d2 < s.len() && s[d2] == 0x29 {
                Ok((Item::Simple(v as u8), d2 + 1))
            } else {
                Err(ParseError::UnbalancedDelimiter)
            }
        } else {
            Err(ParseError::UnexpectedToken)
        }
    } else {
        proof {
            lemma_kw_mismatch(id);
        }
        Err(ParseError::UnexpectedToken)
    }
}

/// Distinct keywords have distinct spellings; used to settle the final
/// branch of `x_word` against each keyword test of the grammar.
proof fn lemma_kw_mismatch(id: Seq<u8>)
    ensures
        id == seq![0x74u8, 0x72, 0x75, 0x65] ==> id.len() == 4 && id[0] == 0x74 && id[1] == 0x72
            && id[2] == 0x75 && id[3] == 0x65,
        id == seq![0x66u8, 0x61, 0x6C, 0x73, 0x65] ==> id.len() == 5 && id[0] == 0x66 && id[1]
            == 0x61 && id[2] == 0x6C && id[3] == 0x73 && id[4] == 0x65,
        id == seq![0x6Eu8, 0x75, 0x6C, 0x6C] ==> id.len() == 4 && id[0] == 0x6E && id[1] == 0x75
            && id[2] == 0x6C && id[3] == 0x6C,
        id == seq![0x75u8, 0x6E, 0x64, 0x65, 0x66, 0x69, 0x6E, 0x65, 0x64] ==> id.len() == 9
            && id[0] == 0x75 && id[1] == 0x6E && id[2] == 0x64 && id[3] == 0x65 && id[4] == 0x66
            && id[5] == 0x69 && id[6] == 0x6E && id[7] == 0x65 && id[8] == 0x64,
        id == seq![0x49u8, 0x6E, 0x66, 0x69, 0x6E, 0x69, 0x74, 0x79] ==> id.len() == 8 && id[0]
            == 0x49 && id[1] == 0x6E && id[2] == 0x66 && id[3] == 0x69 && id[4] == 0x6E && id[5]
            == 0x69 && id[6] == 0x74 && id[7] == 0x79,
        id == seq![0x4Eu8, 0x61, 0x4E] ==> id.len() == 3 && id[0] == 0x4E && id[1] == 0x61 && id[2]
            == 0x4E,
        id == seq![0x73u8, 0x69, 0x6D, 0x70, 0x6C, 0x65] ==> id.len() == 6 && id[0] == 0x73
            && id[1] == 0x69 && id[2] == 0x6D && id[3] == 0x70 && id[4] == 0x6C && id[5] == 0x65,
{
}

/// Parses a whole diagnostic text as exactly one item. Trailing non-space
/// input after the item is an error.
pub fn parse_text(s: &Vec<u8>) -> (r: Result<Item, ParseError>)
    ensures
        match r {
            Ok(item) => p_top(s@) == Ok::<ItemModel, ParseError>(item.model()),
            Err(e) => p_top(s@) == Err::<ItemModel, ParseError>(e),
        },
{
    match x_item(s, 0) {
        Ok((item, np)) => {
            let p = x_skip_ws(s, np);
            if p == s.len() {
                Ok(item)
            } else {
                Err(ParseError::TrailingText)
            }
        },
        Err(e) => Err(e),
    }
}

} // verus!
