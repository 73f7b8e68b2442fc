//! Rewrite passes over an item tree: resolving application-oriented
//! literals into their canonical tags (date-time), escaping unresolved
//! literals as tag 999, recognizing tags back into literals, and the
//! date-time text conversions, all specified and proved exactly.
use vstd::prelude::*;
use crate::items::{Item, ItemModel, models_of, pair_models_of};
use crate::text_in::{digits_val, is_digit, is_ident_byte, is_letter, scan_digits};
use crate::text_out::dec_digits;
use crate::utf8::{is_utf8, is_utf8_from};

verus! {

broadcast use vstd::std_specs::vec::group_vec_axioms, vstd::seq::group_seq_axioms;

/// Latest epoch second that renders as a four-digit year.
pub const DT_MAX: u64 = 253402300799;

/// Largest magnitude-minus-one of a negative epoch second that renders as
/// a four-digit year (0000-03-01T00:00:00 onward).
pub const NEG_DT_MAX: u64 = 62162035199;

/// Two zero-padded decimal digits.
pub open spec fn d2(x: nat) -> Seq<u8> {
    seq![(0x30 + x / 10) as u8, (0x30 + x % 10) as u8]
}

/// Four zero-padded decimal digits.
pub open spec fn d4(x: nat) -> Seq<u8> {
    seq![
        (0x30 + x / 1000) as u8,
        (0x30 + (x / 100) % 10) as u8,
        (0x30 + (x / 10) % 10) as u8,
        (0x30 + x % 10) as u8,
    ]
}

/// The civil date of a day count since 0000-03-01: year, month, day.
pub open spec fn civil_z(z: u64) -> (nat, nat, nat) {
    let era = z / 146097;
    let doe = z % 146097;
    let a1 = doe / 1460;
    let a2 = doe / 36524;
    let a3 = doe / 146096;
    let t1 = (doe + a2) as nat;
    let t2 = (a1 + a3) as nat;
    let yoe = if t1 >= t2 {
        ((t1 - t2) / 365) as nat
    } else {
        0
    };
    let y0 = yoe + era * 400;
    let s1 = (365 * yoe + yoe / 4) as nat;
    let s2 = (yoe / 100) as nat;
    let off = if s1 >= s2 {
        (s1 - s2) as nat
    } else {
        0
    };
    let doy = if doe >= off {
        (doe - off) as nat
    } else {
        0
    };
    let mp = (5 * doy + 2) / 153;
    let dsub = (153 * mp + 2) / 5;
    let d = if doy >= dsub {
        (doy - dsub + 1) as nat
    } else {
        1
    };
    let m = if mp < 10 {
        (mp + 3) as nat
    } else {
        (mp - 9) as nat
    };
    let y = if m <= 2 {
        (y0 + 1) as nat
    } else {
        y0 as nat
    };
    (y, m, d)
}

/// RFC 3339 text for a civil date and a second of the day, always with a
/// `+00:00` offset.
pub open spec fn dt_text(ymd: (nat, nat, nat), secs: u64) -> Seq<u8> {
    d4(ymd.0) + seq![0x2D] + d2(ymd.1) + seq![0x2D] + d2(ymd.2) + seq![0x54] + d2(
        (secs / 3600) as nat,
    ) + seq![0x3A] + d2(((secs / 60) % 60) as nat) + seq![0x3A] + d2((secs % 60) as nat) + seq![
        0x2B,
        0x30,
        0x30,
        0x3A,
        0x30,
        0x30,
    ]
}

/// The RFC 3339 text of a non-negative epoch second.
pub open spec fn dt_render(n: u64) -> Seq<u8> {
    let days = n / 86400;
    let secs = n % 86400;
    dt_text(civil_z((days + 719468) as u64), secs)
}

/// The RFC 3339 text of the negative epoch second `-1 - mag`.
pub open spec fn dt_render_neg(mag: u64) -> Seq<u8> {
    let ep0 = (62167219199 - mag) as u64;
    let days0 = ep0 / 86400;
    let secs = ep0 % 86400;
    let z = if days0 >= 60 {
        (days0 - 60) as u64
    } else {
        0
    };
    dt_text(civil_z(z), secs)
}

/// The spelling `IP`.
pub open spec fn ip_ident() -> Seq<u8> {
    seq![0x49u8, 0x50]
}

/// Dotted-decimal text of a four-byte address.
pub open spec fn ip4_render(b: Seq<u8>) -> Seq<u8> {
    dec_digits(b[0] as nat) + seq![0x2E] + dec_digits(b[1] as nat) + seq![0x2E] + dec_digits(
        b[2] as nat,
    ) + seq![0x2E] + dec_digits(b[3] as nat)
}

/// The four bytes a dotted-decimal address text denotes, or none.
pub open spec fn ip4_parse(t: Seq<u8>) -> Option<Seq<u8>> {
    let e1 = scan_digits(t, 0);
    if !(0 < e1 && e1 < t.len() && t[e1] == 0x2E) {
        None
    } else {
        let e2 = scan_digits(t, e1 + 1);
        if !(e1 + 1 < e2 && e2 < t.len() && t[e2] == 0x2E) {
            None
        } else {
            let e3 = scan_digits(t, e2 + 1);
            if !(e2 + 1 < e3 && e3 < t.len() && t[e3] == 0x2E) {
                None
            } else {
                let e4 = scan_digits(t, e3 + 1);
                if !(e3 + 1 < e4 && e4 == t.len()) {
                    None
                } else {
                    let v1 = digits_val(t.subrange(0, e1));
                    let v2 = digits_val(t.subrange(e1 + 1, e2));
                    let v3 = digits_val(t.subrange(e2 + 1, e3));
                    let v4 = digits_val(t.subrange(e3 + 1, e4));
                    if v1 <= 255 && v2 <= 255 && v3 <= 255 && v4 <= 255 {
                        Some(seq![v1 as u8, v2 as u8, v3 as u8, v4 as u8])
                    } else {
                        None
                    }
                }
            }
        }
    }
}

/// Days in a month of a year.
pub open spec fn dim(y: nat, m: nat) -> nat {
    if m == 2 {
        if y % 4 == 0 && (y % 100 != 0 || y % 400 == 0) {
            29
        } else {
            28
        }
    } else if m == 4 || m == 6 || m == 9 || m == 11 {
        30
    } else {
        31
    }
}

pub open spec fn two_digit(s: Seq<u8>, pos: int) -> Option<nat> {
    if 0 <= pos && pos + 2 <= s.len() && is_digit(s[pos]) && is_digit(s[pos + 1]) {
        Some(((s[pos] - 0x30) * 10 + (s[pos + 1] - 0x30)) as nat)
    } else {
        None
    }
}

pub open spec fn four_digit(s: Seq<u8>, pos: int) -> Option<nat> {
    if 0 <= pos && pos + 4 <= s.len() && is_digit(s[pos]) && is_digit(s[pos + 1]) && is_digit(
        s[pos + 2],
    ) && is_digit(s[pos + 3]) {
        Some(
            ((s[pos] - 0x30) * 1000 + (s[pos + 1] - 0x30) * 100 + (s[pos + 2] - 0x30) * 10 + (s[pos
                + 3] - 0x30)) as nat,
        )
    } else {
        None
    }
}

/// Seconds since the epoch of days-since-epoch plus a civil date's count,
/// before 1970 negative.
pub open spec fn days_from_civil(y: nat, m: nat, d: nat) -> int {
    let yy = y + 400;
    let yp = if m <= 2 {
        (yy - 1) as nat
    } else {
        yy
    };
    let era = yp / 400;
    let yoe = (yp - era * 400) as nat;
    let mo = if m > 2 {
        (m - 3) as nat
    } else {
        (m + 9) as nat
    };
    let doy = ((153 * mo + 2) / 5 + d - 1) as nat;
    let doe = (yoe * 365 + yoe / 4 + doy) as int - (yoe / 100) as int;
    era * 146097 + doe - 719468 - 146097
}

/// The epoch second an RFC 3339 text denotes, or none when malformed.
pub open spec fn dt_parse(t: Seq<u8>) -> Option<int> {
    if t.len() != 20 && t.len() != 25 {
        None
    } else {
        let y = four_digit(t, 0);
        let mo = two_digit(t, 5);
        let d = two_digit(t, 8);
        let hh = two_digit(t, 11);
        let mi = two_digit(t, 14);
        let ss = two_digit(t, 17);
        if y is None || mo is None || d is None || hh is None || mi is None || ss is None || t[4]
            != 0x2D || t[7] != 0x2D || !(t[10] == 0x54 || t[10] == 0x74) || t[13] != 0x3A || t[16]
            != 0x3A {
            None
        } else {
            let yv = y->0;
            let mov = mo->0;
            let dv = d->0;
            let hv = hh->0;
            let miv = mi->0;
            let sv = ss->0;
            if !(1 <= mov <= 12) || !(1 <= dv && dv <= dim(yv, mov)) || hv >= 24 || miv >= 60 || sv
                >= 60 {
                None
            } else {
                let base = days_from_civil(yv, mov, dv) * 86400 + hv * 3600 + miv * 60 + sv;
                if t.len() == 20 {
                    if t[19] == 0x5A || t[19] == 0x7A {
                        Some(base)
                    } else {
                        None
                    }
                } else {
                    let oh = two_digit(t, 20);
                    let om = two_digit(t, 23);
                    if (t[19] == 0x2B || t[19] == 0x2D) && oh is Some && om is Some && t[22] == 0x3A
                        && oh->0 < 24 && om->0 < 60 {
                        let off = (oh->0 * 3600 + om->0 * 60) as int;
                        if t[19] == 0x2B {
                            Some(base - off)
                        } else {
                            Some(base + off)
                        }
                    } else {
                        None
                    }
                }
            }
        }
    }
}

/// Which rewrite a pass applies.
#[derive(Clone, Copy, Debug, PartialEq, Eq, Structural)]
pub enum RewriteRule {
    /// Recognized application literals (`DT`) become their canonical tag.
    ResolveLiterals,
    /// Any remaining application literal becomes tag 999 of its two texts.
    EscapeTo999,
    /// A well-shaped tag 999 becomes an application literal again.
    From999,
    /// A recognized tag (epoch date-time) becomes an application literal.
    PrettifyTags,
}

/// The spelling `DT`.
pub open spec fn dt_ident() -> Seq<u8> {
    seq![0x44u8, 0x54]
}

/// A valid application-literal identifier: letters and digits, starting
/// with a letter.
pub open spec fn valid_ident(id: Seq<u8>) -> bool {
    id.len() >= 1 && is_letter(id[0]) && forall|k: int|
        0 <= k < id.len() ==> is_ident_byte(#[trigger] id[k])
}

/// What one rule does at one node, when it matches.
pub open spec fn rule_at(i: ItemModel, rule: RewriteRule) -> Option<ItemModel> {
    match rule {
        RewriteRule::ResolveLiterals => match i {
            ItemModel::AppLiteral(id, payload) => if id == ip_ident() {
                match ip4_parse(payload) {
                    Some(b) => Some(ItemModel::Tagged(52, Box::new(ItemModel::Bytes(b)))),
                    None => None,
                }
            } else if id == dt_ident() {
                match dt_parse(payload) {
                    Some(ep) => if ep >= 0 {
                        if ep <= u64::MAX {
                            Some(ItemModel::Tagged(1, Box::new(ItemModel::Unsigned(ep as u64))))
                        } else {
                            None
                        }
                    } else {
                        if -ep - 1 <= u64::MAX {
                            Some(
                                ItemModel::Tagged(
                                    1,
                                    Box::new(ItemModel::Negative((-ep - 1) as u64)),
                                ),
                            )
                        } else {
                            None
                        }
                    },
                    None => None,
                }
            } else {
                None
            },
            _ => None,
        },
        RewriteRule::EscapeTo999 => match i {
            ItemModel::AppLiteral(id, payload) => Some(
                ItemModel::Tagged(
                    999,
                    Box::new(
                        ItemModel::Array(seq![ItemModel::Text(id), ItemModel::Text(payload)]),
                    ),
                ),
            ),
            _ => None,
        },
        RewriteRule::From999 => match i {
            ItemModel::Tagged(t, inner) => if t == 999 {
                match *inner {
                    ItemModel::Array(v) => if v.len() == 2 {
                        match (v[0], v[1]) {
                            (ItemModel::Text(id), ItemModel::Text(payload)) => if valid_ident(id)
                                && is_utf8(payload) {
                                Some(ItemModel::AppLiteral(id, payload))
                            } else {
                                Some(i)
                            },
                            _ => Some(i),
                        }
                    } else {
                        Some(i)
                    },
                    _ => Some(i),
                }
            } else {
                None
            },
            _ => None,
        },
        RewriteRule::PrettifyTags => match i {
            ItemModel::Tagged(t, inner) => if t == 1 {
                match *inner {
                    ItemModel::Unsigned(n) => if n <= DT_MAX {
                        Some(ItemModel::AppLiteral(dt_ident(), dt_render(n)))
                    } else {
                        None
                    },
                    ItemModel::Negative(m) => if m <= NEG_DT_MAX {
                        Some(ItemModel::AppLiteral(dt_ident(), dt_render_neg(m)))
                    } else {
                        None
                    },
                    _ => None,
                }
            } else if t == 52 {
                match *inner {
                    ItemModel::Bytes(b) => if b.len() == 4 {
                        Some(ItemModel::AppLiteral(ip_ident(), ip4_render(b)))
                    } else {
                        None
                    },
                    _ => None,
                }
            } else {
                None
            },
            _ => None,
        },
    }
}

/// A whole pre-order pass: the rule where it matches, structural recursion
/// where it does not.
pub open spec fn rewrite(i: ItemModel, rule: RewriteRule) -> ItemModel
    decreases i, 1int,
{
    match rule_at(i, rule) {
        Some(res) => res,
        None => match i {
            ItemModel::Array(v) => ItemModel::Array(rewrite_list(v, rule)),
            ItemModel::Mapping(v) => ItemModel::Mapping(rewrite_pairs(v, rule)),
            ItemModel::Tagged(t, inner) => ItemModel::Tagged(t, Box::new(rewrite(*inner, rule))),
            _ => i,
        },
    }
}

/// Where the rule matches, the pass gives the rule's result.
pub proof fn lemma_rewrite_at(i: ItemModel, rule: RewriteRule)
    requires
        rule_at(i, rule) is Some,
    ensures
        rewrite(i, rule) == rule_at(i, rule)->Some_0,
{
}

/// Where the rule does not match a leaf, the pass leaves it alone.
pub proof fn lemma_rewrite_noop(i: ItemModel, rule: RewriteRule)
    requires
        rule_at(i, rule) is None,
        !(i is Array),
        !(i is Mapping),
        !(i is Tagged),
    ensures
        rewrite(i, rule) == i,
{
}

pub open spec fn rewrite_list(v: Seq<ItemModel>, rule: RewriteRule) -> Seq<ItemModel>
    decreases v, 0int,
{
    Seq::new(
        v.len(),
        |k: int|
            if 0 <= k < v.len() {
                rewrite(v[k], rule)
            } else {
                ItemModel::Unsigned(0)
            },
    )
}

pub open spec fn rewrite_pairs(v: Seq<(ItemModel, ItemModel)>, rule: RewriteRule) -> Seq<
    (ItemModel, ItemModel),
>
    decreases v, 0int,
{
    Seq::new(
        v.len(),
        |k: int|
            if 0 <= k < v.len() {
                (rewrite(v[k].0, rule), rewrite(v[k].1, rule))
            } else {
                (ItemModel::Unsigned(0), ItemModel::Unsigned(0))
            },
    )
}

/// Renders an epoch second as RFC 3339 text.
fn dt_render_x(n: u64) -> (r: Vec<u8>)
    requires
        n <= DT_MAX,
    ensures
        r@ == dt_render(n),
{
    dt_text_x(n / 86400 + 719468, n % 86400)
}

/// Renders the negative epoch second `-1 - mag` as RFC 3339 text.
fn dt_render_neg_x(mag: u64) -> (r: Vec<u8>)
    requires
        mag <= NEG_DT_MAX,
    ensures
        r@ == dt_render_neg(mag),
{
    let ep0 = 62167219199 - mag;
    dt_text_x(ep0 / 86400 - 60, ep0 % 86400)
}

/// Renders a day count since 0000-03-01 and a second of the day.
#[verifier::rlimit(100)]
fn dt_text_x(z: u64, secs: u64) -> (r: Vec<u8>)
    requires
        z <= 3652364,
        secs < 86400,
    ensures
        r@ == dt_text(civil_z(z), secs),
{
    let era = z / 146097;
    let doe = z % 146097;
    let a1 = doe / 1460;
    let a2 = doe / 36524;
    let a3 = doe / 146096;
    let t1 = doe + a2;
    let t2 = a1 + a3;
    let yoe = if t1 >= t2 {
        (t1 - t2) / 365
    } else {
        0
    };
    let y0 = yoe + era * 400;
    let s1 = 365 * yoe + yoe / 4;
    let s2 = yoe / 100;
    let off = if s1 >= s2 {
        s1 - s2
    } else {
        0
    };
    let doy = if doe >= off {
        doe - off
    } else {
        0
    };
    let mp = (5 * doy + 2) / 153;
    let dsub = (153 * mp + 2) / 5;
    let d = if doy >= dsub {
        doy - dsub + 1
    } else {
        1
    };
    let m = if mp < 10 {
        mp + 3
    } else {
        mp - 9
    };
    let y = if m <= 2 {
        y0 + 1
    } else {
        y0
    };
    let mut out: Vec<u8> = Vec::new();
    push_d4(y, &mut out);
    out.push(0x2D);
    push_d2(m, &mut out);
    out.push(0x2D);
    push_d2(d, &mut out);
    out.push(0x54);
    push_d2(secs / 3600, &mut out);
    out.push(0x3A);
    push_d2((secs / 60) % 60, &mut out);
    out.push(0x3A);
    push_d2(secs % 60, &mut out);
    out.push(0x2B);
    out.push(0x30);
    out.push(0x30);
    out.push(0x3A);
    out.push(0x30);
    out.push(0x30);
    proof {
        assert(out@ =~= dt_text(civil_z(z), secs));
    }
    out
}

/// Dotted-decimal text of a four-byte address.
fn ip4_render_x(b: &Vec<u8>) -> (r: Vec<u8>)
    requires
        b@.len() == 4,
    ensures
        r@ == ip4_render(b@),
{
    let mut out: Vec<u8> = Vec::new();
    crate::text_out::w_digits(b[0] as u128, &mut out);
    out.push(0x2E);
    crate::text_out::w_digits(b[1] as u128, &mut out);
    out.push(0x2E);
    crate::text_out::w_digits(b[2] as u128, &mut out);
    out.push(0x2E);
    crate::text_out::w_digits(b[3] as u128, &mut out);
    proof {
        assert(out@ =~= ip4_render(b@));
    }
    out
}

/// Parses dotted-decimal address text to its four bytes.
#[verifier::rlimit(100)]
fn x_ip4_parse(t: &Vec<u8>) -> (r: Option<Vec<u8>>)
    ensures
        match r {
            Some(v) => ip4_parse(t@) == Some(v@) && v@.len() == 4,
            None => ip4_parse(t@) is None,
        },
{
    let e1 = crate::parse_exec::x_scan_digits(t, 0);
    if !(0 < e1 && e1 < t.len() && t[e1] == 0x2E) {
        return None;
    }
    let e2 = crate::parse_exec::x_scan_digits(t, e1 + 1);
    if !(e1 + 1 < e2 && e2 < t.len() && t[e2] == 0x2E) {
        return None;
    }
    let e3 = crate::parse_exec::x_scan_digits(t, e2 + 1);
    if !(e2 + 1 < e3 && e3 < t.len() && t[e3] == 0x2E) {
        return None;
    }
    let e4 = crate::parse_exec::x_scan_digits(t, e3 + 1);
    if !(e3 + 1 < e4 && e4 == t.len()) {
        return None;
    }
    proof {
        crate::parse_exec::lemma_scan_digits_range(t@, 0);
        crate::parse_exec::lemma_scan_digits_range(t@, e1 + 1);
        crate::parse_exec::lemma_scan_digits_range(t@, e2 + 1);
        crate::parse_exec::lemma_scan_digits_range(t@, e3 + 1);
    }
    let (v1, of1) = crate::parse_exec::eval_digits(t, 0, e1);
    let (v2, of2) = crate::parse_exec::eval_digits(t, e1 + 1, e2);
    let (v3, of3) = crate::parse_exec::eval_digits(t, e2 + 1, e3);
    let (v4, of4) = crate::parse_exec::eval_digits(t, e3 + 1, e4);
    if !of1 && v1 <= 255 && !of2 && v2 <= 255 && !of3 && v3 <= 255 && !of4 && v4 <= 255 {
        let mut out: Vec<u8> = Vec::new();
        out.push(v1 as u8);
        out.push(v2 as u8);
        out.push(v3 as u8);
        out.push(v4 as u8);
        proof {
            assert(out@ =~= seq![
                digits_val(t@.subrange(0, e1 as int)) as u8,
                digits_val(t@.subrange(e1 + 1, e2 as int)) as u8,
                digits_val(t@.subrange(e2 + 1, e3 as int)) as u8,
                digits_val(t@.subrange(e3 + 1, e4 as int)) as u8,
            ]);
        }
        Some(out)
    } else {
        None
    }
}

fn push_d2(x: u64, out: &mut Vec<u8>)
    requires
        x < 100,
    ensures
        final(out)@ == old(out)@ + d2(x as nat),
{
    out.push(0x30 + (x / 10) as u8);
    out.push(0x30 + (x % 10) as u8);
    proof {
        assert(final(out)@ =~= old(out)@ + d2(x as nat));
    }
}

fn push_d4(x: u64, out: &mut Vec<u8>)
    requires
        x < 10000,
    ensures
        final(out)@ == old(out)@ + d4(x as nat),
{
    out.push(0x30 + (x / 1000) as u8);
    out.push(0x30 + ((x / 100) % 10) as u8);
    out.push(0x30 + ((x / 10) % 10) as u8);
    out.push(0x30 + (x % 10) as u8);
    proof {
        assert(final(out)@ =~= old(out)@ + d4(x as nat));
    }
}

fn x_two_digit(t: &Vec<u8>, pos: usize) -> (r: Option<u64>)
    requires
        pos + 2 <= t@.len(),
    ensures
        match r {
            Some(v) => two_digit(t@, pos as int) == Some(v as nat) && v < 100,
            None => two_digit(t@, pos as int) is None,
        },
{
    let l = t.len();
    let a = t[pos];
    let b = t[pos + 1];
    if 0x30 <= a && a <= 0x39 && 0x30 <= b && b <= 0x39 {
        Some(((a - 0x30) as u64) * 10 + ((b - 0x30) as u64))
    } else {
        None
    }
}

fn x_four_digit(t: &Vec<u8>, pos: usize) -> (r: Option<u64>)
    requires
        pos + 4 <= t@.len(),
    ensures
        match r {
            Some(v) => four_digit(t@, pos as int) == Some(v as nat) && v < 10000,
            None => four_digit(t@, pos as int) is None,
        },
{
    let l = t.len();
    let a = t[pos];
    let b = t[pos + 1];
    let c = t[pos + 2];
    let d = t[pos + 3];
    if 0x30 <= a && a <= 0x39 && 0x30 <= b && b <= 0x39 && 0x30 <= c && c <= 0x39 && 0x30 <= d && d
        <= 0x39 {
        Some(
            ((a - 0x30) as u64) * 1000 + ((b - 0x30) as u64) * 100 + ((c - 0x30) as u64) * 10 + ((d
                - 0x30) as u64),
        )
    } else {
        None
    }
}

/// Parses RFC 3339 text to an epoch second.
#[verifier::rlimit(100)]
fn dt_parse_x(t: &Vec<u8>) -> (r: Option<i128>)
    ensures
        match r {
            Some(ep) => dt_parse(t@) == Some(ep as int),
            None => dt_parse(t@) is None,
        },
{
    let n = t.len();
    if n != 20 && n != 25 {
        return None;
    }
    let y = x_four_digit(t, 0);
    let mo = x_two_digit(t, 5);
    let d = x_two_digit(t, 8);
    let hh = x_two_digit(t, 11);
    let mi = x_two_digit(t, 14);
    let ss = x_two_digit(t, 17);
    if y.is_none() || mo.is_none() || d.is_none() || hh.is_none() || mi.is_none() || ss.is_none()
        || t[4] != 0x2D || t[7] != 0x2D || !(t[10] == 0x54 || t[10] == 0x74) || t[13] != 0x3A
        || t[16] != 0x3A {
        return None;
    }
    let yv = y.unwrap();
    let mov = mo.unwrap();
    let dv = d.unwrap();
    let hv = hh.unwrap();
    let miv = mi.unwrap();
    let sv = ss.unwrap();
    let dimv: u64 = if mov == 2 {
        if yv % 4 == 0 && (yv % 100 != 0 || yv % 400 == 0) {
            29
        } else {
            28
        }
    } else if mov == 4 || mov == 6 || mov == 9 || mov == 11 {
        30
    } else {
        31
    };
    if !(1 <= mov && mov <= 12) || !(1 <= dv && dv <= dimv) || hv >= 24 || miv >= 60 || sv >= 60 {
        return None;
    }
    let yy = yv + 400;
    let yp = if mov <= 2 {
        yy - 1
    } else {
        yy
    };
    let era = yp / 400;
    let yoe = yp - era * 400;
    let mox = if mov > 2 {
        mov - 3
    } else {
        mov + 9
    };
    let doy = (153 * mox + 2) / 5 + dv - 1;
    proof {
        assert(yoe / 100 <= yoe) by (nonlinear_arith)
            requires
                yoe >= 0,
        ;
        assert(yoe < 400);
        assert(era <= 26);
        assert(doy < 400);
    }
    let s1 = yoe * 365 + yoe / 4 + doy;
    let s2 = yoe / 100;
    let a = era * 146097 + s1 - s2;
    let base_i: i128 = (a as i128) * 86400 + (hv as i128) * 3600 + (miv as i128) * 60 + (sv as i128)
        - 74784816000i128;
    proof {
        let dfc = days_from_civil(yv as nat, mov as nat, dv as nat);
        assert((719468 + 146097) * 86400 == 74784816000) by (nonlinear_arith);
        assert(base_i as int == dfc * 86400 + hv * 3600 + miv * 60 + sv) by (nonlinear_arith)
            requires
                base_i as int == (a as int) * 86400 + hv * 3600 + miv * 60 + sv - 74784816000,
                dfc == a - 719468 - 146097,
        ;
    }
    if n == 20 {
        if t[19] == 0x5A || t[19] == 0x7A {
            Some(base_i)
        } else {
            None
        }
    } else {
        let oh = x_two_digit(t, 20);
        let om = x_two_digit(t, 23);
        if (t[19] == 0x2B || t[19] == 0x2D) && oh.is_some() && om.is_some() && t[22] == 0x3A
            && oh.unwrap() < 24 && om.unwrap() < 60 {
            let off: i128 = (oh.unwrap() as i128) * 3600 + (om.unwrap() as i128) * 60;
            if t[19] == 0x2B {
                Some(base_i - off)
            } else {
                Some(base_i + off)
            }
        } else {
            None
        }
    }
}

fn x_valid_ident(id: &Vec<u8>) -> (r: bool)
    ensures
        r == valid_ident(id@),
{
    if id.len() == 0 {
        return false;
    }
    let b0 = id[0];
    if !(0x41 <= b0 && b0 <= 0x5A || 0x61 <= b0 && b0 <= 0x7A) {
        return false;
    }
    let mut j: usize = 0;
    while j < id.len()
        invariant
            j <= id@.len(),
            forall|k: int| 0 <= k < j ==> is_ident_byte(#[trigger] id@[k]),
        decreases id@.len() - j,
    {
        let b = id[j];
        if !(0x41 <= b && b <= 0x5A || 0x61 <= b && b <= 0x7A || 0x30 <= b && b <= 0x39) {
            return false;
        }
        j = j + 1;
    }
    true
}

/// The tag-999 escape is complete: after it no application literal
/// remains anywhere in the tree, so the escaped tree never fails to encode
/// on that account.
#[verifier::rlimit(100)]
#[verifier::spinoff_prover]
pub proof fn lemma_escape_clears(m: ItemModel)
    ensures
        !crate::binary::contains_app_literal(rewrite(m, RewriteRule::EscapeTo999)),
    decreases m,
{
    let r = rewrite(m, RewriteRule::EscapeTo999);
    match m {
        ItemModel::AppLiteral(id, payload) => {
            let elems = seq![ItemModel::Text(id), ItemModel::Text(payload)];
            assert(r == ItemModel::Tagged(999, Box::new(ItemModel::Array(elems))));
            assert(ItemModel::Array(elems)->Array_0 == elems);
            if crate::binary::contains_app_literal(ItemModel::Array(elems)) {
                let k = choose|k: int|
                    0 <= k < elems.len() && crate::binary::contains_app_literal(
                        #[trigger] elems[k],
                    );
                assert(!crate::binary::contains_app_literal(elems[k]));
            }
        },
        ItemModel::Array(v) => {
            let w = rewrite_list(v, RewriteRule::EscapeTo999);
            assert(r == ItemModel::Array(w));
            assert(ItemModel::Array(w)->Array_0 == w);
            if crate::binary::contains_app_literal(r) {
                let k = choose|k: int|
                    0 <= k < w.len() && crate::binary::contains_app_literal(#[trigger] w[k]);
                lemma_escape_clears(v[k]);
                assert(w[k] == rewrite(v[k], RewriteRule::EscapeTo999));
            }
        },
        ItemModel::Mapping(v) => {
            let w = rewrite_pairs(v, RewriteRule::EscapeTo999);
            assert(r == ItemModel::Mapping(w));
            assert(ItemModel::Mapping(w)->Mapping_0 == w);
            if crate::binary::contains_app_literal(r) {
                let k = choose|k: int|
                    0 <= k < w.len() && (crate::binary::contains_app_literal(#[trigger] w[k].0)
                        || crate::binary::contains_app_literal(w[k].1));
                lemma_escape_clears(v[k].0);
                lemma_escape_clears(v[k].1);
                assert(w[k] == (
                    rewrite(v[k].0, RewriteRule::EscapeTo999),
                    rewrite(v[k].1, RewriteRule::EscapeTo999),
                ));
            }
        },
        ItemModel::Tagged(t, inner) => {
            lemma_escape_clears(*inner);
            assert(r == ItemModel::Tagged(t, Box::new(rewrite(*inner, RewriteRule::EscapeTo999))));
        },
        _ => {
            assert(r == m);
        },
    }
}

/// Identifier bytes are ASCII, hence well-formed UTF-8.
pub proof fn lemma_ident_utf8(id: Seq<u8>)
    requires
        forall|k: int| 0 <= k < id.len() ==> is_ident_byte(#[trigger] id[k]),
    ensures
        is_utf8(id),
    decreases id.len(),
{
    if id.len() > 0 {
        assert(is_ident_byte(id[0]));
        assert(forall|k: int| 0 <= k < id.skip(1).len() ==> is_ident_byte(#[trigger] id.skip(1)[k]));
        lemma_ident_utf8(id.skip(1));
    }
}

/// Escape fidelity: an application literal with a valid identifier,
/// escaped as tag 999, encoded to CBOR, decoded back, and recognized
/// again, is the same literal, byte for byte.
pub proof fn escape_round_trip(id: Seq<u8>, payload: Seq<u8>)
    requires
        valid_ident(id),
        is_utf8(payload),
        id.len() <= u64::MAX,
        payload.len() <= u64::MAX,
    ensures
        ({
            let esc = rewrite(ItemModel::AppLiteral(id, payload), RewriteRule::EscapeTo999);
            &&& crate::binary::dec(crate::binary::enc(esc)) == Ok::<
                ItemModel,
                crate::errors::DecodeError,
            >(esc)
            &&& rewrite(esc, RewriteRule::From999) == ItemModel::AppLiteral(id, payload)
        }),
{
    let esc = rewrite(ItemModel::AppLiteral(id, payload), RewriteRule::EscapeTo999);
    let arr = ItemModel::Array(seq![ItemModel::Text(id), ItemModel::Text(payload)]);
    assert(esc == ItemModel::Tagged(999, Box::new(arr)));
    lemma_ident_utf8(id);
    let elems = seq![ItemModel::Text(id), ItemModel::Text(payload)];
    assert(arr.wf()) by {
        assert(forall|k: int| 0 <= k < 2 ==> (#[trigger] elems[k]).wf());
        crate::items::lemma_wf_array(elems);
    }
    assert(crate::binary::encodable(arr)) by {
        assert(forall|k: int| 0 <= k < 2 ==> crate::binary::encodable(#[trigger] elems[k]));
        crate::binary::lemma_encodable_array(elems);
    }
    crate::roundtrip::lemma_dec_enc(esc, Seq::empty());
    assert(crate::binary::enc(esc) + Seq::<u8>::empty() =~= crate::binary::enc(esc));
    assert(rule_at(esc, RewriteRule::From999) == Some(ItemModel::AppLiteral(id, payload)));
}

/// The `ResolveLiterals` and `EscapeTo999` rules at one application
/// literal.
#[verifier::rlimit(100)]
fn apply_applit(id: Vec<u8>, payload: Vec<u8>, rule: RewriteRule) -> (r: Item)
    ensures
        r.model() == rewrite(ItemModel::AppLiteral(id@, payload@), rule),
{
    let ghost gm = ItemModel::AppLiteral(id@, payload@);
    proof {
        reveal_with_fuel(crate::items::Item::model, 4);
        if rule_at(gm, rule) is Some {
            lemma_rewrite_at(gm, rule);
        } else {
            lemma_rewrite_noop(gm, rule);
        }
    }
    match rule {
        RewriteRule::ResolveLiterals => resolve_applit(id, payload),
        RewriteRule::EscapeTo999 => {
            let ghost id0 = id@;
            let ghost p0 = payload@;
            let mut v: Vec<Item> = Vec::new();
            v.push(Item::Text(id));
            v.push(Item::Text(payload));
            let r2 = Item::Tagged(999, Box::new(Item::Array(v)));
            proof {
                assert(models_of(v@) =~= seq![ItemModel::Text(id0), ItemModel::Text(p0)]);
                assert(r2.model() == rewrite(gm, rule));
            }
            r2
        },
        _ => {
            let r3 = Item::AppLiteral(id, payload);
            proof {
                assert(r3.model() == rewrite(gm, rule));
            }
            r3
        },
    }
}

/// The `ResolveLiterals` rule at one application literal: `IP` becomes
/// tag 52 of the four address bytes, `DT` becomes tag 1 of the epoch
/// second; anything else, or an unparsable payload, is left alone.
#[verifier::rlimit(100)]
fn resolve_applit(id: Vec<u8>, payload: Vec<u8>) -> (r: Item)
    ensures
        r.model() == rewrite(
            ItemModel::AppLiteral(id@, payload@),
            RewriteRule::ResolveLiterals,
        ),
{
    let ghost gm = ItemModel::AppLiteral(id@, payload@);
    proof {
        reveal_with_fuel(crate::items::Item::model, 4);
        if rule_at(gm, RewriteRule::ResolveLiterals) is Some {
            lemma_rewrite_at(gm, RewriteRule::ResolveLiterals);
        } else {
            lemma_rewrite_noop(gm, RewriteRule::ResolveLiterals);
        }
    }
    if id.len() == 2 && id[0] == 0x49 && id[1] == 0x50 {
        proof {
            assert(id@ =~= ip_ident());
        }
        match x_ip4_parse(&payload) {
            Some(b) => Item::Tagged(52, Box::new(Item::Bytes(b))),
            None => Item::AppLiteral(id, payload),
        }
    } else if id.len() == 2 && id[0] == 0x44 && id[1] == 0x54 {
        proof {
            assert(id@ =~= dt_ident());
            if id@ == ip_ident() {
                assert(id@[0] == 0x49);
            }
        }
        match dt_parse_x(&payload) {
            Some(ep) => {
                if ep >= 0 {
                    if ep <= 0xFFFF_FFFF_FFFF_FFFFi128 {
                        Item::Tagged(1, Box::new(Item::Unsigned(ep as u64)))
                    } else {
                        Item::AppLiteral(id, payload)
                    }
                } else {
                    let mag: i128 = -ep - 1;
                    if mag <= 0xFFFF_FFFF_FFFF_FFFFi128 {
                        Item::Tagged(1, Box::new(Item::Negative(mag as u64)))
                    } else {
                        Item::AppLiteral(id, payload)
                    }
                }
            },
            None => Item::AppLiteral(id, payload),
        }
    } else {
        proof {
            if id@ == dt_ident() {
                assert(id@.len() == 2 && id@[0] == 0x44 && id@[1] == 0x54);
            }
            if id@ == ip_ident() {
                assert(id@.len() == 2 && id@[0] == 0x49 && id@[1] == 0x50);
            }
        }
        Item::AppLiteral(id, payload)
    }
}

/// The `From999` rule at one tag-999 node whose content is a two-element
/// array.
#[verifier::rlimit(100)]
fn apply_from999_pair(arr: Vec<Item>) -> (r: Item)
    requires
        arr@.len() == 2,
    ensures
        r.model() == rewrite(
            ItemModel::Tagged(999, Box::new(ItemModel::Array(models_of(arr@)))),
            RewriteRule::From999,
        ),
{
    let ghost m0 = models_of(arr@);
    proof {
        reveal_with_fuel(crate::items::Item::model, 4);
        let gt = ItemModel::Tagged(999, Box::new(ItemModel::Array(m0)));
        if rule_at(gt, RewriteRule::From999) is Some {
            lemma_rewrite_at(gt, RewriteRule::From999);
        }
    }
    let mut arr = arr;
    let second = arr.remove(1);
    let first = arr.remove(0);
    proof {
        assert(first.model() == m0[0]);
        assert(second.model() == m0[1]);
    }
    match (first, second) {
        (Item::Text(a), Item::Text(b)) => {
            if x_valid_ident(&a) && is_utf8_from(&b, 0) {
                proof {
                    assert(b@.skip(0) =~= b@);
                    assert(m0[0] == ItemModel::Text(a@));
                    assert(m0[1] == ItemModel::Text(b@));
                    let gt = ItemModel::Tagged(999, Box::new(ItemModel::Array(m0)));
                    assert(rule_at(gt, RewriteRule::From999) == Some(
                        ItemModel::AppLiteral(a@, b@),
                    ));
                }
                Item::AppLiteral(a, b)
            } else {
                proof {
                    assert(b@.skip(0) =~= b@);
                }
                let mut v2: Vec<Item> = Vec::new();
                v2.push(Item::Text(a));
                v2.push(Item::Text(b));
                proof {
                    assert(models_of(v2@) =~= m0);
                }
                Item::Tagged(999, Box::new(Item::Array(v2)))
            }
        },
        (f, sec) => {
            let mut v2: Vec<Item> = Vec::new();
            v2.push(f);
            v2.push(sec);
            proof {
                assert(models_of(v2@) =~= m0);
            }
            Item::Tagged(999, Box::new(Item::Array(v2)))
        },
    }
}

/// A `DT` literal for a non-negative epoch second.
fn dt_applit(n: u64) -> (r: Item)
    requires
        n <= DT_MAX,
    ensures
        r.model() == ItemModel::AppLiteral(dt_ident(), dt_render(n)),
{
    let mut idv: Vec<u8> = Vec::new();
    idv.push(0x44);
    idv.push(0x54);
    proof {
        assert(idv@ =~= dt_ident());
    }
    Item::AppLiteral(idv, dt_render_x(n))
}

/// A `DT` literal for the negative epoch second `-1 - mag`.
fn dt_applit_neg(mag: u64) -> (r: Item)
    requires
        mag <= NEG_DT_MAX,
    ensures
        r.model() == ItemModel::AppLiteral(dt_ident(), dt_render_neg(mag)),
{
    let mut idv: Vec<u8> = Vec::new();
    idv.push(0x44);
    idv.push(0x54);
    proof {
        assert(idv@ =~= dt_ident());
    }
    Item::AppLiteral(idv, dt_render_neg_x(mag))
}

/// An `IP` literal for a four-byte address.
fn ip_applit(b: &Vec<u8>) -> (r: Item)
    requires
        b@.len() == 4,
    ensures
        r.model() == ItemModel::AppLiteral(ip_ident(), ip4_render(b@)),
{
    let mut idv: Vec<u8> = Vec::new();
    idv.push(0x49);
    idv.push(0x50);
    proof {
        assert(idv@ =~= ip_ident());
    }
    Item::AppLiteral(idv, ip4_render_x(b))
}

/// The `PrettifyTags` pass at one tagged node: tag 1 of an integer within
/// the renderable range becomes a `DT` literal, tag 52 of four bytes an
/// `IP` literal; otherwise the pass descends into the content.
#[verifier::rlimit(100)]
#[verifier::spinoff_prover]
fn prettify_tagged(t: u64, inner: Item) -> (r: Item)
    ensures
        r.model() == rewrite(
            ItemModel::Tagged(t, Box::new(inner.model())),
            RewriteRule::PrettifyTags,
        ),
    decreases inner, 1int,
{
    let ghost gm = ItemModel::Tagged(t, Box::new(inner.model()));
    proof {
        reveal_with_fuel(crate::items::Item::model, 4);
        reveal_with_fuel(rewrite, 3);
        if rule_at(gm, RewriteRule::PrettifyTags) is Some {
            lemma_rewrite_at(gm, RewriteRule::PrettifyTags);
        }
    }
    if t == 1 {
        match inner {
            Item::Unsigned(n) => {
                if n <= DT_MAX {
                    dt_applit(n)
                } else {
                    proof {
                        lemma_rewrite_noop(ItemModel::Unsigned(n), RewriteRule::PrettifyTags);
                    }
                    Item::Tagged(1, Box::new(Item::Unsigned(n)))
                }
            },
            Item::Negative(m) => {
                if m <= NEG_DT_MAX {
                    dt_applit_neg(m)
                } else {
                    proof {
                        lemma_rewrite_noop(ItemModel::Negative(m), RewriteRule::PrettifyTags);
                    }
                    Item::Tagged(1, Box::new(Item::Negative(m)))
                }
            },
            other => Item::Tagged(t, Box::new(rewrite_item(other, RewriteRule::PrettifyTags))),
        }
    } else if t == 52 {
        match inner {
            Item::Bytes(b) => {
                if b.len() == 4 {
                    ip_applit(&b)
                } else {
                    proof {
                        lemma_rewrite_noop(ItemModel::Bytes(b@), RewriteRule::PrettifyTags);
                    }
                    Item::Tagged(52, Box::new(Item::Bytes(b)))
                }
            },
            other => Item::Tagged(t, Box::new(rewrite_item(other, RewriteRule::PrettifyTags))),
        }
    } else {
        Item::Tagged(t, Box::new(rewrite_item(inner, RewriteRule::PrettifyTags)))
    }
}

/// Applies one rewrite pass to a whole tree, depth-first, replacing each
/// node the rule matches.
#[verifier::loop_isolation(false)]
#[verifier::rlimit(100)]
pub fn rewrite_item(i: Item, rule: RewriteRule) -> (r: Item)
    ensures
        r.model() == rewrite(i.model(), rule),
    decreases i, 0int,
{
    let ghost gi = i;
    match i {
        Item::AppLiteral(id, payload) => apply_applit(id, payload, rule),
        Item::Tagged(t, inner) => {
            let inner_owned = *inner;
            let is999 = match rule {
                RewriteRule::From999 => t == 999,
                _ => false,
            };
            let is_prettify = match rule {
                RewriteRule::PrettifyTags => true,
                _ => false,
            };
            if is999 {
                match inner_owned {
                    Item::Array(arr) => {
                        if arr.len() == 2 {
                            apply_from999_pair(arr)
                        } else {
                            Item::Tagged(999, Box::new(Item::Array(arr)))
                        }
                    },
                    other => Item::Tagged(t, Box::new(other)),
                }
            } else if is_prettify {
                proof {
                    assert(decreases_to!(gi => gi->Tagged_1));
                }
                prettify_tagged(t, inner_owned)
            } else {
                Item::Tagged(t, Box::new(rewrite_item(inner_owned, rule)))
            }
        },
        Item::Array(v) => {
            proof {
                assert(decreases_to!(gi => gi->Array_0));
            }
            Item::Array(rewrite_elems(v, rule))
        },
        Item::Mapping(v) => {
            proof {
                assert(decreases_to!(gi => gi->Mapping_0));
            }
            Item::Mapping(rewrite_entries(v, rule))
        },
        other => other,
    }
}

/// Applies one pass to each element of an array.
#[verifier::loop_isolation(false)]
fn rewrite_elems(v: Vec<Item>, rule: RewriteRule) -> (r: Vec<Item>)
    ensures
        models_of(r@) == rewrite_list(models_of(v@), rule),
    decreases v, 1int,
{
    let ghost gv = v;
    let ghost m0 = models_of(v@);
    let n_exec = v.len();
    let mut v = v;
    let mut out: Vec<Item> = Vec::new();
    let ghost n0 = v@.len();
    let mut j: usize = 0;
    proof {
        assert(v@ =~= gv@.skip(0));
    }
    while v.len() > 0
        invariant
            j + v@.len() == n0,
            n0 == n_exec,
            v@ =~= gv@.skip(j as int),
            models_of(out@) =~= rewrite_list(m0, rule).take(j as int),
        decreases v@.len(),
    {
        let x = v.remove(0);
        proof {
            assert(x == gv@[j as int]);
            assert(decreases_to!(gv => gv@[j as int]));
            assert(v@ =~= gv@.skip(j + 1));
        }
        let y = rewrite_item(x, rule);
        out.push(y);
        proof {
            assert(m0[j as int] == gv@[j as int].model());
            assert(models_of(out@) =~= rewrite_list(m0, rule).take(j + 1));
        }
        j = j + 1;
    }
    proof {
        assert(rewrite_list(m0, rule).take(n0 as int) =~= rewrite_list(m0, rule));
    }
    out
}

/// Applies one pass to each key and value of a map.
#[verifier::loop_isolation(false)]
fn rewrite_entries(v: Vec<(Item, Item)>, rule: RewriteRule) -> (r: Vec<(Item, Item)>)
    ensures
        pair_models_of(r@) == rewrite_pairs(pair_models_of(v@), rule),
    decreases v, 1int,
{
    let ghost gv = v;
    let ghost m0 = pair_models_of(v@);
    let n_exec = v.len();
    let mut v = v;
    let mut out: Vec<(Item, Item)> = Vec::new();
    let ghost n0 = v@.len();
    let mut j: usize = 0;
    proof {
        assert(v@ =~= gv@.skip(0));
    }
    while v.len() > 0
        invariant
            j + v@.len() == n0,
            n0 == n_exec,
            v@ =~= gv@.skip(j as int),
            pair_models_of(out@) =~= rewrite_pairs(m0, rule).take(j as int),
        decreases v@.len(),
    {
        let x = v.remove(0);
        proof {
            assert(x == gv@[j as int]);
            assert(decreases_to!(gv => gv@[j as int]));
            assert(decreases_to!(gv@[j as int] => gv@[j as int].0));
            assert(decreases_to!(gv@[j as int] => gv@[j as int].1));
            assert(v@ =~= gv@.skip(j + 1));
        }
        let (xk, xv) = x;
        let yk = rewrite_item(xk, rule);
        let yv = rewrite_item(xv, rule);
        out.push((yk, yv));
        proof {
            assert(m0[j as int] == (gv@[j as int].0.model(), gv@[j as int].1.model()));
            assert(pair_models_of(out@) =~= rewrite_pairs(m0, rule).take(j + 1));
        }
        j = j + 1;
    }
    proof {
        assert(rewrite_pairs(m0, rule).take(n0 as int) =~= rewrite_pairs(m0, rule));
    }
    out
}

} // verus!
