use cbor_diag::api::{cbor2diag, diag2cbor, ConvertError, FloatCodec, StandaloneItem};
use cbor_diag::decode::decode_bytes;
use cbor_diag::errors::{DecodeError, ParseError};
use cbor_diag::items::{DelimiterPolicy, FloatWidth, Item};

fn hexv(s: &str) -> Vec<u8> {
    let clean: String = s.chars().filter(|c| !c.is_whitespace()).collect();
    (0..clean.len())
        .step_by(2)
        .map(|i| u8::from_str_radix(&clean[i..i + 2], 16).unwrap())
        .collect()
}

fn bv(s: &str) -> Vec<u8> {
    s.as_bytes().to_vec()
}

fn half_to_f64(h: u16) -> f64 {
    let sign = if h >> 15 == 1 { -1.0f64 } else { 1.0 };
    let exp = ((h >> 10) & 0x1F) as i32;
    let frac = (h & 0x3FF) as f64;
    if exp == 0 {
        sign * frac * (2.0f64).powi(-24)
    } else if exp == 31 {
        if frac == 0.0 {
            sign * f64::INFINITY
        } else {
            f64::NAN
        }
    } else {
        sign * (1.0 + frac / 1024.0) * (2.0f64).powi(exp - 15)
    }
}

struct Fc;

impl FloatCodec for Fc {
    fn parse_num(&self, text: &Vec<u8>) -> Option<(u64, FloatWidth)> {
        let s = std::str::from_utf8(text).ok()?;
        let v: f64 = s.parse().ok()?;
        Some((v.to_bits(), FloatWidth::Double))
    }

    fn render_num(&self, bits: u64, width: FloatWidth) -> Vec<u8> {
        let v = match width {
            FloatWidth::Half => half_to_f64(bits as u16),
            FloatWidth::Single => f32::from_bits(bits as u32) as f64,
            FloatWidth::Double => f64::from_bits(bits),
        };
        if v.is_nan() {
            bv("NaN")
        } else if v.is_infinite() {
            if v > 0.0 {
                bv("Infinity")
            } else {
                bv("-Infinity")
            }
        } else if v == v.trunc() && v.abs() < 1e15 {
            format!("{:.1}", v).into_bytes()
        } else {
            format!("{}", v).into_bytes()
        }
    }
}

#[test]
fn decode_simple_map() {
    let item = decode_bytes(&hexv("a1016568656c6c6f")).unwrap();
    let expected = Item::Mapping(vec![(Item::Unsigned(1), Item::Text(bv("hello")))]);
    assert_eq!(item, expected);
}

#[test]
fn pretty_and_compact_rendering() {
    let parsed = StandaloneItem::parse(&bv("{1: \"hello\"}")).unwrap();
    let mut compact = parsed;
    compact.set_delimiters(DelimiterPolicy::DiscardAll);
    assert_eq!(compact.serialize(&Fc), bv("{1:\"hello\"}"));

    let mut pretty = StandaloneItem::parse(&bv("{1:\"hello\"}")).unwrap();
    pretty.set_delimiters(DelimiterPolicy::Indented);
    assert_eq!(pretty.serialize(&Fc), bv("{1: \"hello\"}"));
}

#[test]
fn diag_to_cbor_map() {
    let bytes = diag2cbor(&bv("{1: \"hello\"}"), false, &Fc).unwrap();
    assert_eq!(bytes, hexv("a1016568656c6c6f"));
}

#[test]
fn cbor_to_diag_map() {
    let text = cbor2diag(&hexv("a1016568656c6c6f"), true, false, &Fc).unwrap();
    assert_eq!(text, bv("{1: \"hello\"}"));
}

#[test]
fn truncated_map_fails_with_eof() {
    assert_eq!(decode_bytes(&hexv("a101")), Err(DecodeError::UnexpectedEof));
}

#[test]
fn date_time_prettified() {
    let text = cbor2diag(&hexv("c105"), true, false, &Fc).unwrap();
    assert_eq!(text, bv("DT'1970-01-01T00:00:05+00:00'"));
}

#[test]
fn date_time_not_prettified_when_compact() {
    let text = cbor2diag(&hexv("c105"), false, false, &Fc).unwrap();
    assert_eq!(text, bv("1(5)"));
}

#[test]
fn date_time_literal_round_trip() {
    let bytes = diag2cbor(&bv("DT'1970-01-01T00:00:05+00:00'"), false, &Fc).unwrap();
    assert_eq!(bytes, hexv("c105"));
    let text = cbor2diag(&bytes, true, false, &Fc).unwrap();
    assert_eq!(text, bv("DT'1970-01-01T00:00:05+00:00'"));
}

#[test]
fn date_time_modern_round_trip() {
    let bytes = diag2cbor(&bv("DT'2024-02-29T12:34:56Z'"), false, &Fc).unwrap();
    let text = cbor2diag(&bytes, true, false, &Fc).unwrap();
    assert_eq!(text, bv("DT'2024-02-29T12:34:56+00:00'"));
}

#[test]
fn unknown_literal_escapes_to_tag999_and_back() {
    let bytes = diag2cbor(&bv("[1, spam'eggs']"), true, &Fc).unwrap();
    assert_eq!(bytes, hexv("82 01 d9 03e7 82 64 7370616d 64 65676773"));
    let text = cbor2diag(&bytes, true, true, &Fc).unwrap();
    assert_eq!(text, bv("[1, spam'eggs']"));
}

#[test]
fn tag999_recognized_only_on_request() {
    let enc = hexv("d9 03e7 82 63 666f6f 63 626172");
    assert_eq!(cbor2diag(&enc, true, true, &Fc).unwrap(), bv("foo'bar'"));
    assert_eq!(
        cbor2diag(&enc, true, false, &Fc).unwrap(),
        bv("999([\"foo\", \"bar\"])")
    );
}

#[test]
fn unknown_literal_without_escape_fails_to_encode() {
    let r = diag2cbor(&bv("spam'eggs'"), false, &Fc);
    assert!(matches!(r, Err(ConvertError::Encode(_))));
}

#[test]
fn binary_round_trip_normalizes_heads() {
    // 0x1903e8 is 1000 in a two-byte head; 0x19 0x00 0x05 is a non-minimal 5.
    let item = decode_bytes(&hexv("1900 05")).unwrap();
    assert_eq!(item, Item::Unsigned(5));
    let standalone = StandaloneItem {
        item,
        policy: DelimiterPolicy::Indented,
    };
    assert_eq!(standalone.to_cbor().unwrap(), hexv("05"));
}

#[test]
fn indefinite_forms_decode() {
    assert_eq!(
        decode_bytes(&hexv("9f 01 02 ff")).unwrap(),
        Item::Array(vec![Item::Unsigned(1), Item::Unsigned(2)])
    );
    assert_eq!(
        decode_bytes(&hexv("7f 62 6869 ff")).unwrap(),
        Item::Text(bv("hi"))
    );
    assert_eq!(
        decode_bytes(&hexv("bf 01 02 ff")).unwrap(),
        Item::Mapping(vec![(Item::Unsigned(1), Item::Unsigned(2))])
    );
}

#[test]
fn reserved_additional_info_rejected() {
    assert_eq!(
        decode_bytes(&hexv("1c")),
        Err(DecodeError::ReservedAdditionalInfo)
    );
}

#[test]
fn trailing_bytes_rejected() {
    assert_eq!(decode_bytes(&hexv("01 02")), Err(DecodeError::TrailingData));
}

#[test]
fn invalid_utf8_text_rejected() {
    assert_eq!(decode_bytes(&hexv("61 ff")), Err(DecodeError::InvalidUtf8));
}

#[test]
fn floats_decode_and_render() {
    // Half-precision 1.5 is f93e00.
    assert_eq!(
        decode_bytes(&hexv("f93e00")).unwrap(),
        Item::Float(0x3e00, FloatWidth::Half)
    );
    assert_eq!(cbor2diag(&hexv("f93e00"), true, false, &Fc).unwrap(), bv("1.5"));
    // The test codec always chooses double width.
    assert_eq!(
        diag2cbor(&bv("1.5"), false, &Fc).unwrap(),
        hexv("fb 3ff8000000000000")
    );
}

#[test]
fn float_width_is_honored_on_reencode() {
    let item = decode_bytes(&hexv("f93e00")).unwrap();
    let standalone = StandaloneItem {
        item,
        policy: DelimiterPolicy::Indented,
    };
    assert_eq!(standalone.to_cbor().unwrap(), hexv("f93e00"));
}

#[test]
fn negative_and_large_integers() {
    assert_eq!(diag2cbor(&bv("-1"), false, &Fc).unwrap(), hexv("20"));
    assert_eq!(
        diag2cbor(&bv("-18446744073709551616"), false, &Fc).unwrap(),
        hexv("3b ffffffffffffffff")
    );
    assert_eq!(
        diag2cbor(&bv("18446744073709551615"), false, &Fc).unwrap(),
        hexv("1b ffffffffffffffff")
    );
    assert!(matches!(
        diag2cbor(&bv("18446744073709551616"), false, &Fc),
        Err(ConvertError::Parse(ParseError::NumberOutOfRange))
    ));
}

#[test]
fn byte_strings_and_segments() {
    assert_eq!(diag2cbor(&bv("h'00ff'"), false, &Fc).unwrap(), hexv("4200ff"));
    assert_eq!(
        diag2cbor(&bv("h'00' h'ff'"), false, &Fc).unwrap(),
        hexv("4200ff")
    );
    assert_eq!(
        cbor2diag(&hexv("4200ff"), true, false, &Fc).unwrap(),
        bv("h'00ff'")
    );
}

#[test]
fn simple_values_and_keywords() {
    assert_eq!(diag2cbor(&bv("true"), false, &Fc).unwrap(), hexv("f5"));
    assert_eq!(diag2cbor(&bv("false"), false, &Fc).unwrap(), hexv("f4"));
    assert_eq!(diag2cbor(&bv("null"), false, &Fc).unwrap(), hexv("f6"));
    assert_eq!(diag2cbor(&bv("undefined"), false, &Fc).unwrap(), hexv("f7"));
    assert_eq!(diag2cbor(&bv("simple(16)"), false, &Fc).unwrap(), hexv("f0"));
    assert_eq!(
        cbor2diag(&hexv("f0"), false, false, &Fc).unwrap(),
        bv("simple(16)")
    );
}

#[test]
fn tags_parse_and_render() {
    assert_eq!(diag2cbor(&bv("2(h'01')"), false, &Fc).unwrap(), hexv("c24101"));
    assert_eq!(
        cbor2diag(&hexv("c24101"), false, false, &Fc).unwrap(),
        bv("2(h'01')")
    );
}

#[test]
fn string_escapes_round_trip() {
    let bytes = diag2cbor(&bv("\"a\\\"b\\\\c\\nd\\u0041\""), false, &Fc).unwrap();
    let text = cbor2diag(&bytes, true, false, &Fc).unwrap();
    assert_eq!(text, bv("\"a\\\"b\\\\c\\ndA\""));
}

#[test]
fn surrogate_pair_escape() {
    let bytes = diag2cbor(&bv("\"\\uD83D\\uDE00\""), false, &Fc).unwrap();
    // U+1F600 as UTF-8 is f0 9f 98 80, a four-byte text string.
    assert_eq!(bytes, hexv("64 f09f9880"));
}

#[test]
fn parse_errors() {
    assert!(matches!(
        diag2cbor(&bv("\"abc"), false, &Fc),
        Err(ConvertError::Parse(ParseError::UnterminatedString))
    ));
    assert!(matches!(
        diag2cbor(&bv("\"\\q\""), false, &Fc),
        Err(ConvertError::Parse(ParseError::InvalidEscape))
    ));
    assert!(matches!(
        diag2cbor(&bv("[1}"), false, &Fc),
        Err(ConvertError::Parse(ParseError::UnbalancedDelimiter))
    ));
    assert!(matches!(
        diag2cbor(&bv(""), false, &Fc),
        Err(ConvertError::Parse(ParseError::UnexpectedEnd))
    ));
    assert!(matches!(
        diag2cbor(&bv("1 2"), false, &Fc),
        Err(ConvertError::Parse(ParseError::TrailingText))
    ));
    assert!(matches!(
        diag2cbor(&bv("h'0'"), false, &Fc),
        Err(ConvertError::Parse(ParseError::InvalidByteString))
    ));
}

#[test]
fn whitespace_and_comments_ignored() {
    assert_eq!(
        diag2cbor(&bv(" [ 1 , / a comment / 2 ] "), false, &Fc).unwrap(),
        hexv("820102")
    );
    assert_eq!(
        diag2cbor(&bv("[1,\n# end of line\n2]"), false, &Fc).unwrap(),
        hexv("820102")
    );
}

#[test]
fn trailing_comma_tolerated() {
    assert_eq!(diag2cbor(&bv("[1, 2, ]"), false, &Fc).unwrap(), hexv("820102"));
    assert_eq!(
        diag2cbor(&bv("{1: 2, }"), false, &Fc).unwrap(),
        hexv("a10102")
    );
}

#[test]
fn duplicate_keys_preserved_in_order() {
    assert_eq!(
        diag2cbor(&bv("{1: 2, 1: 3}"), false, &Fc).unwrap(),
        hexv("a2010201 03")
    );
}

#[test]
fn text_to_binary_to_text_value_round_trip() {
    let inputs = ["[1, [2, \"x\"], {\"k\": h'aa'}, true, null]", "{1: \"hello\"}"];
    for t in inputs {
        let bytes = diag2cbor(&bv(t), false, &Fc).unwrap();
        let item1 = decode_bytes(&bytes).unwrap();
        let text = cbor2diag(&bytes, true, false, &Fc).unwrap();
        let bytes2 = diag2cbor(&text, false, &Fc).unwrap();
        let item2 = decode_bytes(&bytes2).unwrap();
        assert_eq!(item1, item2);
    }
}

#[test]
fn infinity_and_nan_render() {
    assert_eq!(
        cbor2diag(&hexv("f97c00"), true, false, &Fc).unwrap(),
        bv("Infinity")
    );
    assert_eq!(
        cbor2diag(&hexv("f9fc00"), true, false, &Fc).unwrap(),
        bv("-Infinity")
    );
    assert_eq!(cbor2diag(&hexv("f97e00"), true, false, &Fc).unwrap(), bv("NaN"));
    assert_eq!(
        diag2cbor(&bv("Infinity"), false, &Fc).unwrap(),
        hexv("fb 7ff0000000000000")
    );
}

#[test]
fn base64_byte_strings() {
    // "AAEC" is bytes 00 01 02; URL-safe "_w" is byte ff.
    assert_eq!(
        diag2cbor(&bv("b64'AAEC'"), false, &Fc).unwrap(),
        hexv("43000102")
    );
    assert_eq!(diag2cbor(&bv("b64'_w=='"), false, &Fc).unwrap(), hexv("41ff"));
    assert_eq!(diag2cbor(&bv("b64'/w'"), false, &Fc).unwrap(), hexv("41ff"));
    assert_eq!(diag2cbor(&bv("b64''"), false, &Fc).unwrap(), hexv("40"));
    // One stray character leaves six unused bits: an error.
    assert!(matches!(
        diag2cbor(&bv("b64'A'"), false, &Fc),
        Err(ConvertError::Parse(ParseError::InvalidByteString))
    ));
}

#[test]
fn ip_literal_round_trip() {
    // IP'192.0.2.1' is tag 52 holding the four address bytes.
    let bytes = diag2cbor(&bv("IP'192.0.2.1'"), false, &Fc).unwrap();
    assert_eq!(bytes, hexv("d834 44 c0000201"));
    let text = cbor2diag(&bytes, true, false, &Fc).unwrap();
    assert_eq!(text, bv("IP'192.0.2.1'"));
}

#[test]
fn ip_literal_malformed_stays_unresolved() {
    // 256 is out of range, so the literal stays and encoding fails.
    assert!(matches!(
        diag2cbor(&bv("IP'192.0.2.256'"), false, &Fc),
        Err(ConvertError::Encode(_))
    ));
}

#[test]
fn pre_epoch_date_time_round_trip() {
    // -1 seconds is tag 1 holding NegativeInt(magnitude 1), bytes c120.
    let bytes = diag2cbor(&bv("DT'1969-12-31T23:59:59Z'"), false, &Fc).unwrap();
    assert_eq!(bytes, hexv("c120"));
    let text = cbor2diag(&bytes, true, false, &Fc).unwrap();
    assert_eq!(text, bv("DT'1969-12-31T23:59:59+00:00'"));
}

#[test]
fn literal_free_text_round_trips_through_both_forms() {
    // The success promise: a well-formed, literal-free text converts, and
    // converting its rendering back preserves the decoded value.
    let t = bv("[1, {\"k\": h'aa'}, -5, true]");
    let b1 = diag2cbor(&t, false, &Fc).unwrap();
    let t2 = cbor2diag(&b1, false, false, &Fc).unwrap();
    let b2 = diag2cbor(&t2, false, &Fc).unwrap();
    assert_eq!(decode_bytes(&b1).unwrap(), decode_bytes(&b2).unwrap());
}
