use rustorrent::bencode::decode::{
    bdict_decode, belement_decode, bint_decode, blist_decode, bstring_decode,
};
use rustorrent::bencode::{BInt, BList, BString, Bencode, DecodeErrorKind};
use rustorrent::convert::TryFrom;
use sha1::{Digest, Sha1};

fn decode_str_to_i64(s: &str) -> i64 {
    let result = bint_decode(&s.to_string().into_bytes());
    let result = result.ok().unwrap();
    assert_eq!(s.len(), result.1);
    result.0.to_i64()
}

fn test_decode_str(expected: &str, actual: &str) {
    let bstring_bytes = actual.to_string().into_bytes();
    let bstring = bstring_decode(&bstring_bytes).ok().unwrap();
    assert_eq!(bstring.1, actual.len());
    assert_eq!(expected.to_string(), bstring.0.to_string().ok().unwrap());
}

#[test]
pub fn test_decodes_int_0() {
    assert_eq!(decode_str_to_i64("i0e"), 0);
}

#[test]
pub fn test_negative_zero_not_decoded() {
    assert!(!bint_decode(&"i-0e".to_string().into_bytes()).is_ok());
}

#[test]
pub fn test_decodes_int_1() {
    assert_eq!(decode_str_to_i64("i1e"), 1);
}

#[test]
pub fn test_decodes_int_3() {
    assert_eq!(decode_str_to_i64("i3e"), 3);
}

#[test]
pub fn test_decodes_int_11() {
    assert_eq!(decode_str_to_i64("i11e"), 11);
}

#[test]
pub fn test_decodes_int_neg_1() {
    assert_eq!(decode_str_to_i64("i-1e"), -1);
}

#[test]
pub fn test_decodes_int_neg_2() {
    assert_eq!(decode_str_to_i64("i-2e"), -2);
}

#[test]
pub fn test_decodes_int_neg_3() {
    assert_eq!(decode_str_to_i64("i-3e"), -3);
}

#[test]
pub fn test_decodes_int_neg_11() {
    assert_eq!(decode_str_to_i64("i-11e"), -11);
}

#[test]
pub fn test_decodes_32bit_integer_range() {
    let step = 21481;
    let mut i = i32::min_value();
    while i <= i32::max_value() - step {
        assert_eq!(decode_str_to_i64(&format!("i{}e", i)), i as i64);
        i += step;
    }
}

#[test]
pub fn test_decodes_hello_world_string() {
    test_decode_str("Hello, world!", "13:Hello, world!");
}

#[test]
pub fn test_decodes_dict() {
    let dict = bdict_decode(&"d3:cow3:moo4:spam4:eggse".to_string().into_bytes()).unwrap().0;
    assert_eq!(
        dict.get("cow").unwrap(),
        &Bencode::BString(BString::from_str("moo"))
    );
}

#[test]
pub fn test_decodes_dict_with_dict_field() {
    let dict =
        bdict_decode(&"d3:cow3:moo4:listl4:worde4:spam4:eggse".to_string().into_bytes())
            .unwrap()
            .0;
    let list = dict.get("list").unwrap();
    match list {
        Bencode::BList(blist) => {
            assert_eq!(blist.list()[0], Bencode::BString(BString::from_str("word")))
        }
        _ => panic!("Wrong thing: {:?}", list),
    }
}

#[test]
pub fn test_decodes_dict_with_nested_list() {
    let dict = bdict_decode(&"d4:listlleee".to_string().into_bytes()).unwrap().0;
    let list = dict.get("list").unwrap();
    match list {
        Bencode::BList(blist) => match &blist.list()[0] {
            Bencode::BList(inner) => assert_eq!(0, inner.list().len()),
            _ => panic!("Wrong kind of thing!"),
        },
        _ => panic!("Wrong thing: {:?}", list),
    }
}

#[test]
pub fn test_decodes_list() {
    let list = blist_decode(&"ll1:e2:eeee".to_string().into_bytes()).unwrap();

    let mut expected_list_inner = BList::new();
    let mut expected_list_outer = BList::new();
    expected_list_inner.push(Bencode::BString(BString::from_str("e")));
    expected_list_inner.push(Bencode::BString(BString::from_str("ee")));
    expected_list_outer.push(Bencode::BList(expected_list_inner));

    assert_eq!(expected_list_outer, list.0);
    assert_eq!(11, list.1);
}

#[test]
pub fn test_decodes_dict_with_nested_list_2() {
    let dict = bdict_decode(&"d4:listll1:e2:eeee5:thing6:thing1e".to_string().into_bytes())
        .unwrap()
        .0;
    let list = dict.get("thing").unwrap();
    match list {
        Bencode::BString(bstr) => {
            assert_eq!("thing1".to_string(), bstr.to_string().ok().unwrap());
        }
        _ => panic!("Wrong thing: {:?}", list),
    }
}

#[test]
pub fn test_decodes_list_with_dict() {
    let list_result = blist_decode("ldee".as_bytes()).unwrap();
    assert_eq!(4, list_result.1);
}

#[test]
pub fn test_bint_decode_negative_cursor() {
    let result = bint_decode("i-1234e".as_bytes()).unwrap();
    assert_eq!(result.0.to_i64(), -1234);
    assert_eq!(result.1, 7);
}

#[test]
pub fn test_negative_zero_error_kind() {
    let err = bint_decode("i-0e".as_bytes()).unwrap_err();
    assert!(matches!(err.kind, DecodeErrorKind::IntNegativeZero));
}

#[test]
pub fn test_leading_zero_ints_rejected() {
    assert!(bint_decode("i00e".as_bytes()).is_err());
    assert!(bint_decode("i01e".as_bytes()).is_err());
    assert_eq!(decode_str_to_i64("i0e"), 0);
}

#[test]
pub fn test_int_overflow_rejected() {
    let err = bint_decode("i9223372036854775808e".as_bytes()).unwrap_err();
    assert!(matches!(err.kind, DecodeErrorKind::IntOverflow));
    assert_eq!(
        decode_str_to_i64("i-9223372036854775808e"),
        i64::min_value()
    );
    assert_eq!(decode_str_to_i64("i9223372036854775807e"), i64::max_value());
}

#[test]
pub fn test_unexpected_byte_error_kind() {
    let err = bint_decode("x".as_bytes()).unwrap_err();
    assert!(matches!(err.kind, DecodeErrorKind::EndOfStream));
    let err = bint_decode("xye".as_bytes()).unwrap_err();
    assert!(matches!(err.kind, DecodeErrorKind::ExpectedByte('i')));
    let err = blist_decode("xye".as_bytes()).unwrap_err();
    assert!(matches!(err.kind, DecodeErrorKind::ExpectedByte('l')));
    let err = bdict_decode("xye".as_bytes()).unwrap_err();
    assert!(matches!(err.kind, DecodeErrorKind::ExpectedByte('d')));
}

#[test]
pub fn test_invalid_string_error_kind() {
    let err = bstring_decode("abc".as_bytes()).unwrap_err();
    assert!(matches!(err.kind, DecodeErrorKind::InvalidString));
    let err = bstring_decode("12x".as_bytes()).unwrap_err();
    assert!(matches!(err.kind, DecodeErrorKind::InvalidString));
}

#[test]
pub fn test_leading_zero_length_accepted() {
    // a length prefix may carry leading zeros
    let result = bstring_decode("02:ab".as_bytes()).unwrap();
    assert_eq!(result.0.to_bytes(), b"ab".to_vec());
    assert_eq!(result.1, 5);
}

#[test]
pub fn test_string_too_short_rejected() {
    let err = bstring_decode("5:abc".as_bytes()).unwrap_err();
    assert!(matches!(err.kind, DecodeErrorKind::EndOfStream));
}

#[test]
pub fn test_duplicate_key_rejected() {
    let err = bdict_decode("d1:a1:b1:a1:ce".as_bytes()).unwrap_err();
    assert!(matches!(err.kind, DecodeErrorKind::DuplicateKey));
}

#[test]
pub fn test_unsorted_keys_rejected() {
    let err = bdict_decode("d1:b1:a1:a1:ce".as_bytes()).unwrap_err();
    assert!(matches!(err.kind, DecodeErrorKind::UnsortedKeys));
}

#[test]
pub fn test_utf8_error_kind() {
    let bstring = BString::new(&[0xff, 0xfe]);
    let err = bstring.to_string().unwrap_err();
    assert!(matches!(err.kind, DecodeErrorKind::Utf8));
}

#[test]
pub fn test_conversion_error_kind() {
    let err = BInt::convert_from(Bencode::BString(BString::from_str("no"))).unwrap_err();
    assert!(matches!(err.kind, DecodeErrorKind::ConversionError));
    let ok = BInt::convert_from(Bencode::BInt(BInt::new(7))).unwrap();
    assert_eq!(ok.to_i64(), 7);
}

#[test]
pub fn test_bencode_round_trip() {
    // decoding an encoding returns the value, and re-encoding a decoded
    // canonical document reproduces it byte for byte
    let original = "d3:cow3:moo4:listl1:ai-5ee4:spam4:eggse".as_bytes();
    let decoded = belement_decode(original).unwrap();
    assert_eq!(decoded.1, original.len());
    let encoded = decoded.0.encode();
    assert_eq!(encoded, original.to_vec());

    let redecoded = belement_decode(&encoded).unwrap();
    assert_eq!(redecoded.0, decoded.0);
    assert_eq!(redecoded.1, encoded.len());
}

#[test]
pub fn test_encode_list_round_trip() {
    let mut inner = BList::new();
    inner.push(Bencode::BString(BString::from_str("one")));
    inner.push(Bencode::BInt(BInt::new(-42)));
    let value = Bencode::BList(inner);
    let encoded = value.encode();
    assert_eq!(encoded, "l3:onei-42ee".as_bytes().to_vec());
    let decoded = belement_decode(&encoded).unwrap();
    assert_eq!(decoded.0, value);
    assert_eq!(decoded.1, encoded.len());
}

#[test]
pub fn test_canonical_dict_keys_ascend() {
    let dict = bdict_decode("d3:cow3:moo4:spam4:eggse".as_bytes()).unwrap().0;
    let entries = dict.entries();
    assert_eq!(entries.len(), 2);
    assert!(entries[0].key.to_bytes() < entries[1].key.to_bytes());
    // and the canonical encoding reproduces the input exactly
    let whole = bdict_decode("d3:cow3:moo4:spam4:eggse".as_bytes()).unwrap().0;
    let bytes = Bencode::BDict(whole).encode();
    assert_eq!(bytes, "d3:cow3:moo4:spam4:eggse".as_bytes().to_vec());
}

#[test]
pub fn test_dict_hash_is_digest_of_span() {
    let input = "d3:cow3:mooe".as_bytes();
    let dict = bdict_decode(input).unwrap().0;
    let expected: Vec<u8> = Sha1::digest(input).to_vec();
    assert_eq!(dict.hash().clone(), expected);
}
