use core::cmp::Ordering;

use cms::codec::Codec;
use cms::content_info::CmsVersion;
use cms::error::Error;

#[test]
fn version_encodes_as_one_octet_integer() {
    assert_eq!(CmsVersion::V0.encode(), Ok(vec![0x02, 0x01, 0x00]));
    assert_eq!(CmsVersion::V1.encode(), Ok(vec![0x02, 0x01, 0x01]));
    assert_eq!(CmsVersion::V2.encode(), Ok(vec![0x02, 0x01, 0x02]));
    assert_eq!(CmsVersion::V3.encode(), Ok(vec![0x02, 0x01, 0x03]));
    assert_eq!(CmsVersion::V4.encode(), Ok(vec![0x02, 0x01, 0x04]));
    assert_eq!(CmsVersion::V5.encode(), Ok(vec![0x02, 0x01, 0x05]));
}

#[test]
fn version_round_trips() {
    let all = [
        CmsVersion::V0,
        CmsVersion::V1,
        CmsVersion::V2,
        CmsVersion::V3,
        CmsVersion::V4,
        CmsVersion::V5,
    ];
    for v in all {
        assert_eq!(CmsVersion::decode(&v.encode().unwrap()), Ok(v));
        assert_eq!(CmsVersion::from_number(v.number()), Some(v));
    }
    assert_eq!(CmsVersion::V3.number(), 3);
    assert_eq!(CmsVersion::from_number(6), None);
    assert_eq!(CmsVersion::from_number(255), None);
}

#[test]
fn version_out_of_range_is_refused() {
    assert_eq!(CmsVersion::decode(&[0x02, 0x01, 0x06]), Err(Error::InvalidVersion));
    assert_eq!(CmsVersion::decode(&[0x02, 0x01, 0xff]), Err(Error::InvalidVersion));
    assert_eq!(CmsVersion::decode(&[0x02, 0x02, 0x01, 0x00]), Err(Error::InvalidVersion));
}

#[test]
fn version_with_superfluous_octets_is_refused() {
    assert_eq!(CmsVersion::decode(&[0x02, 0x02, 0x00, 0x01]), Err(Error::InvalidVersion));
    assert_eq!(CmsVersion::decode(&[0x02, 0x00]), Err(Error::InvalidVersion));
}

#[test]
fn version_framing_failures() {
    assert_eq!(CmsVersion::decode(&[]), Err(Error::MissingField));
    assert_eq!(CmsVersion::decode(&[0x04, 0x01, 0x01]), Err(Error::UnexpectedTag));
    assert_eq!(CmsVersion::decode(&[0x02, 0x01, 0x01, 0x00]), Err(Error::TrailingData));
    assert_eq!(CmsVersion::decode(&[0x02]), Err(Error::MalformedLength));
    assert_eq!(CmsVersion::decode(&[0x02, 0x01]), Err(Error::MalformedLength));
    assert_eq!(CmsVersion::decode(&[0x02, 0x81, 0x01, 0x01]), Err(Error::MalformedLength));
    assert_eq!(CmsVersion::decode(&[0x02, 0x80, 0x01, 0x00, 0x00]), Err(Error::MalformedLength));
}

#[test]
fn version_value_cmp_orders_by_number() {
    assert_eq!(CmsVersion::V1.value_cmp(&CmsVersion::V3), Ok(Ordering::Less));
    assert_eq!(CmsVersion::V3.value_cmp(&CmsVersion::V1), Ok(Ordering::Greater));
    assert_eq!(CmsVersion::V4.value_cmp(&CmsVersion::V4), Ok(Ordering::Equal));
    assert_eq!(CmsVersion::V0.value_cmp(&CmsVersion::V5), Ok(Ordering::Less));
    assert!(CmsVersion::V2 < CmsVersion::V3);
}

#[test]
fn version_accepts_only_the_integer_tag() {
    assert!(CmsVersion::accepts_tag(0x02));
    assert!(!CmsVersion::accepts_tag(0x0a));
    assert!(!CmsVersion::accepts_tag(0x30));
}
