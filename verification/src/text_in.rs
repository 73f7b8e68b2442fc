//! The diagnostic-notation parser: a recursive-descent grammar over bytes,
//! specified by the `p_*` functions and executed by mirrors proved equal
//! to them. Number literals with a fraction or exponent, and application
//! literals, come out as parser-level forms to be resolved later.
use vstd::prelude::*;
use crate::items::ItemModel;
use crate::errors::ParseError;

verus! {

broadcast use vstd::seq::group_seq_axioms;

pub open spec fn is_ws(b: u8) -> bool {
    b == 0x20 || b == 0x09 || b == 0x0A || b == 0x0D
}

pub open spec fn is_digit(b: u8) -> bool {
    0x30 <= b <= 0x39
}

pub open spec fn is_letter(b: u8) -> bool {
    0x41 <= b <= 0x5A || 0x61 <= b <= 0x7A
}

pub open spec fn is_ident_byte(b: u8) -> bool {
    is_letter(b) || is_digit(b)
}

/// Position of the first `b` at or after `pos`, or the length when none.
pub open spec fn find_byte(s: Seq<u8>, pos: int, b: u8) -> int
    decreases s.len() - pos,
{
    if pos < 0 || pos >= s.len() {
        s.len() as int
    } else if s[pos] == b {
        pos
    } else {
        find_byte(s, pos + 1, b)
    }
}

/// Position after whitespace and comments starting at `pos`.
pub open spec fn skip_ws(s: Seq<u8>, pos: int) -> int
    decreases s.len() - pos,
{
    if pos < 0 || pos >= s.len() {
        pos
    } else if is_ws(s[pos]) {
        skip_ws(s, pos + 1)
    } else if s[pos] == 0x2F {
        let e = find_byte(s, pos + 1, 0x2F);
        if e < pos + 1 || e >= s.len() {
            s.len() as int
        } else {
            skip_ws(s, e + 1)
        }
    } else if s[pos] == 0x23 {
        let e = find_byte(s, pos + 1, 0x0A);
        if e < pos + 1 || e >= s.len() {
            s.len() as int
        } else {
            skip_ws(s, e + 1)
        }
    } else {
        pos
    }
}

pub proof fn lemma_find_byte_bounds(s: Seq<u8>, pos: int, b: u8)
    requires
        0 <= pos <= s.len(),
    ensures
        pos <= find_byte(s, pos, b) <= s.len(),
    decreases s.len() - pos,
{
    if pos < s.len() && s[pos] != b {
        lemma_find_byte_bounds(s, pos + 1, b);
    }
}

pub proof fn lemma_skip_ws_bounds(s: Seq<u8>, pos: int)
    requires
        0 <= pos <= s.len(),
    ensures
        pos <= skip_ws(s, pos) <= s.len(),
    decreases s.len() - pos,
{
    if pos < s.len() {
        if is_ws(s[pos]) {
            lemma_skip_ws_bounds(s, pos + 1);
        } else if s[pos] == 0x2F {
            lemma_find_byte_bounds(s, pos + 1, 0x2F);
            let e = find_byte(s, pos + 1, 0x2F);
            if pos + 1 <= e < s.len() {
                lemma_skip_ws_bounds(s, e + 1);
            }
        } else if s[pos] == 0x23 {
            lemma_find_byte_bounds(s, pos + 1, 0x0A);
            let e = find_byte(s, pos + 1, 0x0A);
            if pos + 1 <= e < s.len() {
                lemma_skip_ws_bounds(s, e + 1);
            }
        }
    }
}

/// Position after a run of decimal digits.
pub open spec fn scan_digits(s: Seq<u8>, pos: int) -> int
    decreases s.len() - pos,
{
    if pos < 0 || pos >= s.len() {
        pos
    } else if is_digit(s[pos]) {
        scan_digits(s, pos + 1)
    } else {
        pos
    }
}

pub proof fn lemma_scan_digits_bounds(s: Seq<u8>, pos: int)
    requires
        0 <= pos <= s.len(),
    ensures
        pos <= scan_digits(s, pos) <= s.len(),
    decreases s.len() - pos,
{
    if pos < s.len() && is_digit(s[pos]) {
        lemma_scan_digits_bounds(s, pos + 1);
    }
}

/// Position after a run of identifier bytes.
pub open spec fn scan_ident(s: Seq<u8>, pos: int) -> int
    decreases s.len() - pos,
{
    if pos < 0 || pos >= s.len() {
        pos
    } else if is_ident_byte(s[pos]) {
        scan_ident(s, pos + 1)
    } else {
        pos
    }
}

pub proof fn lemma_scan_ident_bounds(s: Seq<u8>, pos: int)
    requires
        0 <= pos <= s.len(),
    ensures
        pos <= scan_ident(s, pos) <= s.len(),
    decreases s.len() - pos,
{
    if pos < s.len() && is_ident_byte(s[pos]) {
        lemma_scan_ident_bounds(s, pos + 1);
    }
}

/// The number a digit run denotes.
pub open spec fn digits_val(d: Seq<u8>) -> nat
    decreases d.len(),
{
    if d.len() == 0 {
        0
    } else {
        (digits_val(d.drop_last()) * 10 + (d.last() - 0x30)) as nat
    }
}

/// Value of one hex digit, or 16 when the byte is no hex digit.
pub open spec fn hex_val(b: u8) -> nat {
    if 0x30 <= b <= 0x39 {
        (b - 0x30) as nat
    } else if 0x61 <= b <= 0x66 {
        (b - 0x57) as nat
    } else if 0x41 <= b <= 0x46 {
        (b - 0x37) as nat
    } else {
        16
    }
}

/// UTF-8 bytes of a code point outside the surrogate range.
pub open spec fn enc_cp(cp: nat) -> Seq<u8> {
    if cp < 0x80 {
        seq![cp as u8]
    } else if cp < 0x800 {
        seq![(0xC0 + cp / 0x40) as u8, (0x80 + cp % 0x40) as u8]
    } else if cp < 0x10000 {
        seq![
            (0xE0 + cp / 0x1000) as u8,
            (0x80 + (cp / 0x40) % 0x40) as u8,
            (0x80 + cp % 0x40) as u8,
        ]
    } else {
        seq![
            (0xF0 + cp / 0x40000) as u8,
            (0x80 + (cp / 0x1000) % 0x40) as u8,
            (0x80 + (cp / 0x40) % 0x40) as u8,
            (0x80 + cp % 0x40) as u8,
        ]
    }
}

/// Value of `\uXXXX` hex quartet at `pos`, or none.
pub open spec fn hex4(s: Seq<u8>, pos: int) -> Option<nat> {
    if pos < 0 || pos + 4 > s.len() {
        None
    } else {
        let v = hex_val(s[pos]) * 0x1000 + hex_val(s[pos + 1]) * 0x100 + hex_val(s[pos + 2]) * 0x10
            + hex_val(s[pos + 3]);
        if hex_val(s[pos]) < 16 && hex_val(s[pos + 1]) < 16 && hex_val(s[pos + 2]) < 16 && hex_val(
            s[pos + 3],
        ) < 16 {
            Some(v)
        } else {
            None
        }
    }
}

/// Content of a quoted string from `pos` (just after the opening quote) to
/// the closing quote `q`: the decoded bytes and the position after it.
pub open spec fn p_qstr(s: Seq<u8>, pos: int, q: u8) -> Result<(Seq<u8>, int), ParseError>
    decreases s.len() - pos,
{
    if pos < 0 || pos >= s.len() {
        Err(ParseError::UnterminatedString)
    } else if s[pos] == q {
        Ok((Seq::empty(), pos + 1))
    } else if s[pos] == 0x5C {
        if pos + 1 >= s.len() {
            Err(ParseError::UnterminatedString)
        } else {
            let e = s[pos + 1];
            if e == 0x22 || e == 0x27 || e == 0x5C || e == 0x2F {
                match p_qstr(s, pos + 2, q) {
                    Err(err) => Err(err),
                    Ok((rest, np)) => Ok((seq![e] + rest, np)),
                }
            } else if e == 0x62 || e == 0x66 || e == 0x6E || e == 0x72 || e == 0x74 {
                let c: u8 = if e == 0x62 {
                    0x08
                } else if e == 0x66 {
                    0x0C
                } else if e == 0x6E {
                    0x0A
                } else if e == 0x72 {
                    0x0D
                } else {
                    0x09
                };
                match p_qstr(s, pos + 2, q) {
                    Err(err) => Err(err),
                    Ok((rest, np)) => Ok((seq![c] + rest, np)),
                }
            } else if e == 0x75 {
                match hex4(s, pos + 2) {
                    None => Err(ParseError::InvalidEscape),
                    Some(cp) => if 0xD800 <= cp < 0xDC00 {
                        if pos + 8 + 4 <= s.len() && s[pos + 6] == 0x5C && s[pos + 7] == 0x75 {
                            match hex4(s, pos + 8) {
                                None => Err(ParseError::InvalidEscape),
                                Some(lo) => if 0xDC00 <= lo < 0xE000 {
                                    let full = (0x10000 + (cp - 0xD800) * 0x400 + (lo
                                        - 0xDC00)) as nat;
                                    match p_qstr(s, pos + 12, q) {
                                        Err(err) => Err(err),
                                        Ok((rest, np)) => Ok((enc_cp(full) + rest, np)),
                                    }
                                } else {
                                    Err(ParseError::InvalidEscape)
                                },
                            }
                        } else {
                            Err(ParseError::InvalidEscape)
                        }
                    } else if 0xDC00 <= cp < 0xE000 {
                        Err(ParseError::InvalidEscape)
                    } else {
                        match p_qstr(s, pos + 6, q) {
                            Err(err) => Err(err),
                            Ok((rest, np)) => Ok((enc_cp(cp) + rest, np)),
                        }
                    },
                }
            } else {
                Err(ParseError::InvalidEscape)
            }
        }
    } else {
        match p_qstr(s, pos + 1, q) {
            Err(err) => Err(err),
            Ok((rest, np)) => Ok((seq![s[pos]] + rest, np)),
        }
    }
}

/// Content of one `h'...'` hex byte-string body from `pos` (just after the
/// opening quote): the bytes and the position after the closing quote.
/// Whitespace is allowed between byte pairs.
pub open spec fn p_hex(s: Seq<u8>, pos: int) -> Result<(Seq<u8>, int), ParseError>
    decreases s.len() - pos,
{
    if pos < 0 || pos >= s.len() {
        Err(ParseError::UnterminatedString)
    } else if s[pos] == 0x27 {
        Ok((Seq::empty(), pos + 1))
    } else if is_ws(s[pos]) {
        p_hex(s, pos + 1)
    } else if hex_val(s[pos]) < 16 {
        if pos + 1 >= s.len() || hex_val(s[pos + 1]) >= 16 {
            Err(ParseError::InvalidByteString)
        } else {
            match p_hex(s, pos + 2) {
                Err(err) => Err(err),
                Ok((rest, np)) => Ok((seq![(hex_val(s[pos]) * 16 + hex_val(s[pos + 1])) as u8]
                    + rest, np)),
            }
        }
    } else {
        Err(ParseError::InvalidByteString)
    }
}

/// Value of one base64 alphabet byte (standard or URL-safe alphabet), or
/// 64 when the byte is outside both.
pub open spec fn b64_val(b: u8) -> nat {
    if 0x41 <= b <= 0x5A {
        (b - 0x41) as nat
    } else if 0x61 <= b <= 0x7A {
        (b - 0x61 + 26) as nat
    } else if 0x30 <= b <= 0x39 {
        (b - 0x30 + 52) as nat
    } else if b == 0x2B || b == 0x2D {
        62
    } else if b == 0x2F || b == 0x5F {
        63
    } else {
        64
    }
}

/// Content of one `b64'...'` body from `pos` (just after the opening
/// quote): the decoded bytes and the position after the closing quote.
/// `acc` holds `nbits` bits (0, 2, 4 or 6) waiting to be completed;
/// whitespace and `=` padding are skipped; a leftover of six bits (one
/// stray character) is an error, smaller leftovers are padding bits.
pub open spec fn p_b64(s: Seq<u8>, pos: int, acc: nat, nbits: nat) -> Result<
    (Seq<u8>, int),
    ParseError,
>
    decreases s.len() - pos,
{
    if pos < 0 || pos >= s.len() {
        Err(ParseError::UnterminatedString)
    } else if s[pos] == 0x27 {
        if nbits == 6 {
            Err(ParseError::InvalidByteString)
        } else {
            Ok((Seq::empty(), pos + 1))
        }
    } else if is_ws(s[pos]) || s[pos] == 0x3D {
        p_b64(s, pos + 1, acc, nbits)
    } else {
        let v = b64_val(s[pos]);
        if v >= 64 {
            Err(ParseError::InvalidByteString)
        } else {
            let acc2 = (acc * 64 + v) as nat;
            if nbits == 0 {
                p_b64(s, pos + 1, acc2, 6)
            } else {
                let keepbits = (nbits - 2) as nat;
                let div: nat = if keepbits == 0 {
                    1
                } else if keepbits == 2 {
                    4
                } else {
                    16
                };
                let byte = (acc2 / div) as u8;
                let keep = acc2 % div;
                match p_b64(s, pos + 1, keep, keepbits) {
                    Err(e) => Err(e),
                    Ok((rest, np)) => Ok((seq![byte] + rest, np)),
                }
            }
        }
    }
}

/// One parsed item starting at `pos` (whitespace skipped first): the item
/// and the position just past it.
pub open spec fn p_item(s: Seq<u8>, pos: int) -> Result<(ItemModel, int), ParseError>
    decreases s.len() - pos, 2int,
{
    let p = skip_ws(s, pos);
    if !(pos <= p <= s.len()) {
        Err(ParseError::UnexpectedToken)
    } else if p == s.len() {
        Err(ParseError::UnexpectedEnd)
    } else {
        let b = s[p];
        if b == 0x5B {
            match p_items(s, p + 1) {
                Err(e) => Err(e),
                Ok((items, np)) => Ok((ItemModel::Array(items), np)),
            }
        } else if b == 0x7B {
            match p_pairs(s, p + 1) {
                Err(e) => Err(e),
                Ok((pairs, np)) => Ok((ItemModel::Mapping(pairs), np)),
            }
        } else if b == 0x22 {
            match p_qstr(s, p + 1, 0x22) {
                Err(e) => Err(e),
                Ok((t, np)) => if crate::utf8::is_utf8(t) {
                    Ok((ItemModel::Text(t), np))
                } else {
                    Err(ParseError::InvalidText)
                },
            }
        } else if b == 0x2D || is_digit(b) {
            match p_number(s, p) {
                Err(e) => Err(e),
                Ok((item, np)) => if item is Unsigned && np < s.len() && s[np] == 0x28 {
                    if !(p < np) {
                        Err(ParseError::UnexpectedToken)
                    } else {
                        match p_item(s, np + 1) {
                            Err(e) => Err(e),
                            Ok((inner, np2)) => {
                                let p2 = skip_ws(s, np2);
                                if !(np2 <= p2 <= s.len()) {
                                    Err(ParseError::UnexpectedToken)
                                } else if p2 < s.len() && s[p2] == 0x29 {
                                    Ok(
                                        (
                                            ItemModel::Tagged(item->Unsigned_0, Box::new(inner)),
                                            p2 + 1,
                                        ),
                                    )
                                } else {
                                    Err(ParseError::UnbalancedDelimiter)
                                }
                            },
                        }
                    }
                } else {
                    Ok((item, np))
                },
            }
        } else if is_letter(b) {
            p_word(s, p)
        } else {
            Err(ParseError::UnexpectedToken)
        }
    }
}

/// Array elements up to and including the closing bracket.
pub open spec fn p_items(s: Seq<u8>, pos: int) -> Result<(Seq<ItemModel>, int), ParseError>
    decreases s.len() - pos, 3int,
{
    let p = skip_ws(s, pos);
    if !(pos <= p <= s.len()) {
        Err(ParseError::UnexpectedToken)
    } else if p == s.len() {
        Err(ParseError::UnexpectedEnd)
    } else if s[p] == 0x5D {
        Ok((Seq::empty(), p + 1))
    } else {
        match p_item(s, p) {
            Err(e) => Err(e),
            Ok((item, np)) => {
                if !(p < np <= s.len()) {
                    Err(ParseError::UnexpectedToken)
                } else {
                    let p2 = skip_ws(s, np);
                    if !(np <= p2 <= s.len()) {
                        Err(ParseError::UnexpectedToken)
                    } else if p2 == s.len() {
                        Err(ParseError::UnexpectedEnd)
                    } else if s[p2] == 0x2C {
                        match p_items(s, p2 + 1) {
                            Err(e) => Err(e),
                            Ok((rest, np2)) => Ok((seq![item] + rest, np2)),
                        }
                    } else if s[p2] == 0x5D {
                        Ok((seq![item], p2 + 1))
                    } else if s[p2] == 0x7D || s[p2] == 0x29 {
                        Err(ParseError::UnbalancedDelimiter)
                    } else {
                        Err(ParseError::UnexpectedToken)
                    }
                }
            },
        }
    }
}

/// Map entries up to and including the closing brace.
pub open spec fn p_pairs(s: Seq<u8>, pos: int) -> Result<
    (Seq<(ItemModel, ItemModel)>, int),
    ParseError,
>
    decreases s.len() - pos, 3int,
{
    let p = skip_ws(s, pos);
    if !(pos <= p <= s.len()) {
        Err(ParseError::UnexpectedToken)
    } else if p == s.len() {
        Err(ParseError::UnexpectedEnd)
    } else if s[p] == 0x7D {
        Ok((Seq::empty(), p + 1))
    } else {
        match p_item(s, p) {
            Err(e) => Err(e),
            Ok((key, np)) => {
                if !(p < np <= s.len()) {
                    Err(ParseError::UnexpectedToken)
                } else {
                    let p2 = skip_ws(s, np);
                    if !(np <= p2 <= s.len()) {
                        Err(ParseError::UnexpectedToken)
                    } else if p2 == s.len() {
                        Err(ParseError::UnexpectedEnd)
                    } else if s[p2] != 0x3A {
                        Err(ParseError::UnexpectedToken)
                    } else {
                        match p_item(s, p2 + 1) {
                            Err(e) => Err(e),
                            Ok((val, np2)) => {
                                if !(p2 < np2 <= s.len()) {
                                    Err(ParseError::UnexpectedToken)
                                } else {
                                    let p3 = skip_ws(s, np2);
                                    if !(np2 <= p3 <= s.len()) {
                                        Err(ParseError::UnexpectedToken)
                                    } else if p3 == s.len() {
                                        Err(ParseError::UnexpectedEnd)
                                    } else if s[p3] == 0x2C {
                                        match p_pairs(s, p3 + 1) {
                                            Err(e) => Err(e),
                                            Ok((rest, np3)) => Ok((seq![(key, val)] + rest, np3)),
                                        }
                                    } else if s[p3] == 0x7D {
                                        Ok((seq![(key, val)], p3 + 1))
                                    } else if s[p3] == 0x5D || s[p3] == 0x29 {
                                        Err(ParseError::UnbalancedDelimiter)
                                    } else {
                                        Err(ParseError::UnexpectedToken)
                                    }
                                }
                            },
                        }
                    }
                }
            },
        }
    }
}

/// A number token at `pos`: an integer item, or a number literal when it
/// has a fraction, an exponent, or names an infinite or not-a-number value.
pub open spec fn p_number(s: Seq<u8>, pos: int) -> Result<(ItemModel, int), ParseError> {
    if !(0 <= pos < s.len()) {
        Err(ParseError::UnexpectedEnd)
    } else {
        let neg = s[pos] == 0x2D;
        if neg && pos + 1 >= s.len() {
            Err(ParseError::UnexpectedEnd)
        } else if neg && s[pos + 1] == 0x49 {
            let e = scan_ident(s, pos + 1);
            if s.subrange(pos + 1, e) == seq![0x49u8, 0x6E, 0x66, 0x69, 0x6E, 0x69, 0x74, 0x79] {
                Ok((ItemModel::NumLiteral(s.subrange(pos, e)), e))
            } else {
                Err(ParseError::UnexpectedToken)
            }
        } else {
            let d0 = if neg {
                pos + 1
            } else {
                pos
            };
            let e1 = scan_digits(s, d0);
            if e1 == d0 {
                Err(ParseError::UnexpectedToken)
            } else {
                let hasfrac = e1 < s.len() && s[e1] == 0x2E;
                let e2 = if hasfrac {
                    scan_digits(s, e1 + 1)
                } else {
                    e1
                };
                if hasfrac && e2 == e1 + 1 {
                    Err(ParseError::UnexpectedToken)
                } else {
                    let hasexp = e2 < s.len() && (s[e2] == 0x65 || s[e2] == 0x45);
                    if hasexp {
                        let x0 = if e2 + 1 < s.len() && (s[e2 + 1] == 0x2B || s[e2 + 1] == 0x2D) {
                            e2 + 2
                        } else {
                            e2 + 1
                        };
                        let e3 = scan_digits(s, x0);
                        if e3 == x0 {
                            Err(ParseError::UnexpectedToken)
                        } else {
                            Ok((ItemModel::NumLiteral(s.subrange(pos, e3)), e3))
                        }
                    } else if hasfrac {
                        Ok((ItemModel::NumLiteral(s.subrange(pos, e2)), e2))
                    } else {
                        let v = digits_val(s.subrange(d0, e1));
                        if !neg {
                            if v > u64::MAX {
                                Err(ParseError::NumberOutOfRange)
                            } else {
                                Ok((ItemModel::Unsigned(v as u64), e1))
                            }
                        } else {
                            if v == 0 {
                                Ok((ItemModel::Unsigned(0), e1))
                            } else if v > 0x1_0000_0000_0000_0000 {
                                Err(ParseError::NumberOutOfRange)
                            } else {
                                Ok((ItemModel::Negative((v - 1) as u64), e1))
                            }
                        }
                    }
                }
            }
        }
    }
}

/// A construct beginning with a letter at `pos`: a keyword, `simple(N)`,
/// a byte-string literal, or an application-oriented literal.
pub open spec fn p_word(s: Seq<u8>, pos: int) -> Result<(ItemModel, int), ParseError>
    decreases s.len() - pos, 1int,
{
    let e = scan_ident(s, pos);
    if !(pos < e <= s.len()) {
        Err(ParseError::UnexpectedToken)
    } else {
        let id = s.subrange(pos, e);
        if e < s.len() && s[e] == 0x27 {
            if id == seq![0x68u8] {
                match p_bytes_segs(s, pos) {
                    Err(err) => Err(err),
                    Ok((bytes, np)) => Ok((ItemModel::Bytes(bytes), np)),
                }
            } else if id == seq![0x62u8, 0x36, 0x34] {
                match p_b64(s, e + 1, 0, 0) {
                    Err(err) => Err(err),
                    Ok((bytes, np)) => Ok((ItemModel::Bytes(bytes), np)),
                }
            } else {
                match p_qstr(s, e + 1, 0x27) {
                    Err(err) => Err(err),
                    Ok((payload, np)) => if crate::utf8::is_utf8(payload) {
                        Ok((ItemModel::AppLiteral(id, payload), np))
                    } else {
                        Err(ParseError::InvalidText)
                    },
                }
            }
        } else if id == seq![0x74u8, 0x72, 0x75, 0x65] {
            Ok((ItemModel::Simple(21), e))
        } else if id == seq![0x66u8, 0x61, 0x6C, 0x73, 0x65] {
            Ok((ItemModel::Simple(20), e))
        } else if id == seq![0x6Eu8, 0x75, 0x6C, 0x6C] {
            Ok((ItemModel::Simple(22), e))
        } else if id == seq![0x75u8, 0x6E, 0x64, 0x65, 0x66, 0x69, 0x6E, 0x65, 0x64] {
            Ok((ItemModel::Simple(23), e))
        } else if id == seq![0x49u8, 0x6E, 0x66, 0x69, 0x6E, 0x69, 0x74, 0x79] || id == seq![
            0x4Eu8,
            0x61,
            0x4E,
        ] {
            Ok((ItemModel::NumLiteral(id), e))
        } else if id == seq![0x73u8, 0x69, 0x6D, 0x70, 0x6C, 0x65] {
            if e < s.len() && s[e] == 0x28 {
                let d2 = scan_digits(s, e + 1);
                if !(e + 1 < d2 <= s.len()) {
                    Err(ParseError::UnexpectedToken)
                } else {
                    let v = digits_val(s.subrange(e + 1, d2));
                    if v > 255 || (24 <= v && v < 32) {
                        Err(ParseError::NumberOutOfRange)
                    } else if d2 < s.len() && s[d2] == 0x29 {
                        Ok((ItemModel::Simple(v as u8), d2 + 1))
                    } else {
                        Err(ParseError::UnbalancedDelimiter)
                    }
                }
            } else {
                Err(ParseError::UnexpectedToken)
            }
        } else {
            Err(ParseError::UnexpectedToken)
        }
    }
}

/// One or more juxtaposed `h'...'` segments starting at `pos` (at the `h`),
/// concatenated.
pub open spec fn p_bytes_segs(s: Seq<u8>, pos: int) -> Result<(Seq<u8>, int), ParseError>
    decreases s.len() - pos, 0int,
{
    if !(0 <= pos && pos + 2 <= s.len() && s[pos] == 0x68 && s[pos + 1] == 0x27) {
        Err(ParseError::InvalidByteString)
    } else {
        match p_hex(s, pos + 2) {
            Err(err) => Err(err),
            Ok((bytes, np)) => {
                if !(pos + 2 <= np <= s.len()) {
                    Err(ParseError::InvalidByteString)
                } else {
                    let p2 = skip_ws(s, np);
                    if !(np <= p2 <= s.len()) {
                        Err(ParseError::InvalidByteString)
                    } else if p2 + 1 < s.len() && s[p2] == 0x68 && s[p2 + 1] == 0x27 {
                        match p_bytes_segs(s, p2) {
                            Err(err) => Err(err),
                            Ok((rest, np2)) => Ok((bytes + rest, np2)),
                        }
                    } else {
                        Ok((bytes, np))
                    }
                }
            },
        }
    }
}

/// A whole diagnostic text as exactly one item.
pub open spec fn p_top(s: Seq<u8>) -> Result<ItemModel, ParseError> {
    match p_item(s, 0) {
        Err(e) => Err(e),
        Ok((item, np)) => {
            let p = skip_ws(s, np);
            if p == s.len() {
                Ok(item)
            } else {
                Err(ParseError::TrailingText)
            }
        },
    }
}

} // verus!
