//! UTF-8 validity: CBOR text strings must hold well-formed UTF-8
//! (RFC 8949 requires it of major type 3), and the decoder rejects
//! byte strings that fail this check when they claim to be text.
use vstd::prelude::*;

verus! {

/// Length of the UTF-8 sequence introduced by lead byte `b`, or 0 when `b`
/// cannot begin a sequence.
pub open spec fn utf8_seq_len(b: u8) -> int {
    if b < 0x80 {
        1
    } else if 0xC2 <= b && b < 0xE0 {
        2
    } else if 0xE0 <= b && b < 0xF0 {
        3
    } else if 0xF0 <= b && b < 0xF5 {
        4
    } else {
        0
    }
}

pub open spec fn is_continuation(b: u8) -> bool {
    0x80 <= b && b < 0xC0
}

/// Extra constraint on the second byte of a 3- or 4-byte sequence, ruling
/// out overlong forms, surrogates, and code points above 0x10FFFF.
pub open spec fn second_byte_ok(lead: u8, b: u8) -> bool {
    if lead == 0xE0 {
        0xA0 <= b && b < 0xC0
    } else if lead == 0xED {
        0x80 <= b && b < 0xA0
    } else if lead == 0xF0 {
        0x90 <= b && b < 0xC0
    } else if lead == 0xF4 {
        0x80 <= b && b < 0x90
    } else {
        is_continuation(b)
    }
}

/// Whole-sequence validity of `s` as UTF-8.
pub open spec fn is_utf8(s: Seq<u8>) -> bool
    decreases s.len(),
{
    if s.len() == 0 {
        true
    } else {
        let n = utf8_seq_len(s[0]);
        if n == 0 || s.len() < n {
            false
        } else if n == 1 {
            is_utf8(s.skip(1))
        } else if n == 2 {
            is_continuation(s[1]) && is_utf8(s.skip(2))
        } else if n == 3 {
            second_byte_ok(s[0], s[1]) && is_continuation(s[2]) && is_utf8(s.skip(3))
        } else {
            second_byte_ok(s[0], s[1]) && is_continuation(s[2]) && is_continuation(s[3])
                && is_utf8(s.skip(4))
        }
    }
}

/// Checks that `s` from position `pos` on is well-formed UTF-8.
pub fn is_utf8_from(s: &Vec<u8>, pos: usize) -> (r: bool)
    requires
        pos <= s@.len(),
    ensures
        r == is_utf8(s@.skip(pos as int)),
    decreases s@.len() - pos,
{
    if pos == s.len() {
        return true;
    }
    let b = s[pos];
    let n: usize = if b < 0x80 {
        1
    } else if 0xC2 <= b && b < 0xE0 {
        2
    } else if 0xE0 <= b && b < 0xF0 {
        3
    } else if 0xF0 <= b && b < 0xF5 {
        4
    } else {
        0
    };
    if n == 0 || s.len() - pos < n {
        return false;
    }
    if n >= 2 {
        let b1 = s[pos + 1];
        let ok1 = if n == 2 {
            0x80 <= b1 && b1 < 0xC0
        } else if b == 0xE0 {
            0xA0 <= b1 && b1 < 0xC0
        } else if b == 0xED {
            0x80 <= b1 && b1 < 0xA0
        } else if b == 0xF0 {
            0x90 <= b1 && b1 < 0xC0
        } else if b == 0xF4 {
            0x80 <= b1 && b1 < 0x90
        } else {
            0x80 <= b1 && b1 < 0xC0
        };
        if !ok1 {
            return false;
        }
        if n >= 3 {
            let b2 = s[pos + 2];
            if !(0x80 <= b2 && b2 < 0xC0) {
                return false;
            }
            if n == 4 {
                let b3 = s[pos + 3];
                if !(0x80 <= b3 && b3 < 0xC0) {
                    return false;
                }
            }
        }
    }
    proof {
        assert(s@.skip(pos as int).skip(n as int) =~= s@.skip(pos + n));
        assert(s@.skip(pos as int)[0] == s@[pos as int]);
    }
    is_utf8_from(s, pos + n)
}

/// Appending two well-formed UTF-8 sequences gives a well-formed sequence.
pub proof fn lemma_utf8_append(a: Seq<u8>, b: Seq<u8>)
    requires
        is_utf8(a),
        is_utf8(b),
    ensures
        is_utf8(a + b),
    decreases a.len(),
{
    if a.len() == 0 {
        assert(a + b =~= b);
    } else {
        let n = utf8_seq_len(a[0]);
        assert((a + b).len() >= n);
        lemma_utf8_append(a.skip(n), b);
        assert(a.skip(n) + b =~= (a + b).skip(n));
    }
}

} // verus!
