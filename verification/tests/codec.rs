use cms::asn1::{Any, OctetString};
use cms::codec::{
    decode_choice_field, decode_exact, decode_field, decode_optional, encode_field,
    encode_optional, starts, Codec, Tagging,
};
use cms::content_info::CmsVersion;
use cms::error::Error;
use cms::opaque::Attributes;
use cms::signed_data::SignerIdentifier;

fn hex(s: &str) -> Vec<u8> {
    (0..s.len()).step_by(2).map(|i| u8::from_str_radix(&s[i..i + 2], 16).unwrap()).collect()
}

#[test]
fn natural_field_is_read_and_the_rest_left() {
    let input = hex("0201030404deadbeef");
    assert_eq!(decode_field::<CmsVersion>(Tagging::Natural, &input), Ok((CmsVersion::V3, 3)));
    assert_eq!(
        decode_field::<OctetString>(Tagging::Natural, &input[3..]),
        Ok((OctetString { bytes: hex("deadbeef") }, 6))
    );
}

#[test]
fn mandatory_field_with_another_tag_is_missing() {
    let input = hex("0404deadbeef");
    assert_eq!(decode_field::<CmsVersion>(Tagging::Natural, &input), Err(Error::MissingField));
    assert_eq!(decode_field::<CmsVersion>(Tagging::Natural, &[]), Err(Error::MissingField));
    assert_eq!(
        decode_field::<OctetString>(Tagging::Explicit(0xa0), &input),
        Err(Error::MissingField)
    );
}

#[test]
fn optional_field_with_another_tag_is_absent() {
    let input = hex("0404deadbeef");
    assert_eq!(decode_optional::<CmsVersion>(Tagging::Natural, &input), Ok((None, 0)));
    assert_eq!(decode_optional::<CmsVersion>(Tagging::Natural, &[]), Ok((None, 0)));
    assert_eq!(
        decode_optional::<OctetString>(Tagging::Natural, &input),
        Ok((Some(OctetString { bytes: hex("deadbeef") }), 6))
    );
}

#[test]
fn optional_field_that_is_there_must_be_well_formed() {
    assert_eq!(
        decode_optional::<CmsVersion>(Tagging::Natural, &hex("020109")),
        Err(Error::InvalidVersion)
    );
    assert_eq!(
        decode_optional::<CmsVersion>(Tagging::Natural, &hex("02810101")),
        Err(Error::MalformedLength)
    );
    assert_eq!(
        decode_optional::<OctetString>(Tagging::Explicit(0xa0), &hex("a003020101")),
        Err(Error::UnexpectedTag)
    );
}

#[test]
fn explicit_tagging_wraps_the_whole_element() {
    let mut out = vec![0x77];
    let value = OctetString { bytes: hex("0102") };
    assert_eq!(encode_field(Tagging::Explicit(0xa0), &value, &mut out), Ok(()));
    assert_eq!(out, hex("77a00404020102"));
    assert_eq!(
        decode_field::<OctetString>(Tagging::Explicit(0xa0), &out[1..]),
        Ok((value, 6))
    );
}

#[test]
fn implicit_tagging_replaces_the_tag() {
    let attrs = Attributes { content: hex("301806092a864886f70d010903310b06092a864886f70d010701") };
    let natural = attrs.encode().unwrap();
    let mut out = Vec::new();
    assert_eq!(encode_field(Tagging::Implicit(0xa0, 0x31), &attrs, &mut out), Ok(()));
    assert_eq!(out[0], 0xa0);
    assert_eq!(&out[1..], &natural[1..]);
    assert_eq!(
        decode_field::<Attributes>(Tagging::Implicit(0xa0, 0x31), &out),
        Ok((attrs.clone(), 28))
    );
    assert_eq!(
        decode_field::<Attributes>(Tagging::Implicit(0xa0, 0x31), &natural),
        Err(Error::MissingField)
    );
    assert_eq!(decode_exact::<Attributes>(Tagging::Natural, &natural), Ok(attrs));
}

#[test]
fn absent_optional_field_adds_nothing() {
    let mut out = vec![1, 2, 3];
    assert_eq!(encode_optional::<OctetString>(Tagging::Natural, &None, &mut out), Ok(()));
    assert_eq!(out, vec![1, 2, 3]);
    let value = Some(OctetString { bytes: vec![9] });
    assert_eq!(encode_optional(Tagging::Explicit(0xa1), &value, &mut out), Ok(()));
    assert_eq!(out, vec![1, 2, 3, 0xa1, 0x03, 0x04, 0x01, 0x09]);
}

#[test]
fn invalid_field_leaves_the_output_as_it_was() {
    let mut out = vec![1, 2, 3];
    let invalid = Any { tag: 0x1f, value: vec![] };
    assert_eq!(encode_field(Tagging::Natural, &invalid, &mut out), Err(Error::InvalidValue));
    assert_eq!(out, vec![1, 2, 3]);
    assert_eq!(
        encode_optional(Tagging::Explicit(0xa0), &Some(invalid), &mut out),
        Err(Error::InvalidValue)
    );
    assert_eq!(out, vec![1, 2, 3]);
}

#[test]
fn whole_input_must_be_one_value() {
    assert_eq!(decode_exact::<CmsVersion>(Tagging::Natural, &hex("020101")), Ok(CmsVersion::V1));
    assert_eq!(
        decode_exact::<CmsVersion>(Tagging::Natural, &hex("02010100")),
        Err(Error::TrailingData)
    );
    assert_eq!(decode_exact::<CmsVersion>(Tagging::Natural, &[]), Err(Error::MissingField));
}

#[test]
fn field_of_a_choice_with_an_unknown_tag_is_unexpected() {
    assert_eq!(
        decode_choice_field::<SignerIdentifier>(&hex("0401aa")),
        Err(Error::UnexpectedTag)
    );
    assert_eq!(decode_choice_field::<SignerIdentifier>(&[]), Err(Error::MissingField));
    assert_eq!(decode_choice_field::<Any>(&hex("1f00")), Err(Error::UnexpectedTag));
    assert_eq!(
        decode_choice_field::<Any>(&hex("0500ff")),
        Ok((Any { tag: 0x05, value: vec![] }, 2))
    );
    assert_eq!(
        decode_choice_field::<SignerIdentifier>(&hex("a0070405010203040530")),
        Ok((SignerIdentifier::SubjectKeyIdentifier(OctetString { bytes: hex("0102030405") }), 9))
    );
}

#[test]
fn starts_tells_the_leading_tag_of_a_field() {
    assert!(starts::<CmsVersion>(Tagging::Natural, 0x02));
    assert!(!starts::<CmsVersion>(Tagging::Natural, 0xa0));
    assert!(starts::<CmsVersion>(Tagging::Explicit(0xa0), 0xa0));
    assert!(!starts::<CmsVersion>(Tagging::Explicit(0xa0), 0x02));
    assert!(starts::<Attributes>(Tagging::Implicit(0xa1, 0x31), 0xa1));
    assert!(!starts::<Attributes>(Tagging::Implicit(0xa1, 0x31), 0x31));
}
