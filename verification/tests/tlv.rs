use cms::codec::open;
use cms::error::Error;
use cms::tlv::{append, encode_length, encode_tlv, split};

#[test]
fn length_field_short_form() {
    assert_eq!(encode_length(0), vec![0x00]);
    assert_eq!(encode_length(1), vec![0x01]);
    assert_eq!(encode_length(127), vec![0x7f]);
}

#[test]
fn length_field_long_form_is_minimal() {
    assert_eq!(encode_length(128), vec![0x81, 0x80]);
    assert_eq!(encode_length(255), vec![0x81, 0xff]);
    assert_eq!(encode_length(256), vec![0x82, 0x01, 0x00]);
    assert_eq!(encode_length(65535), vec![0x82, 0xff, 0xff]);
    assert_eq!(encode_length(65536), vec![0x83, 0x01, 0x00, 0x00]);
    assert_eq!(encode_length(16777216), vec![0x84, 0x01, 0x00, 0x00, 0x00]);
}

#[test]
fn element_is_tag_length_content() {
    assert_eq!(encode_tlv(0x04, &[1, 2, 3]), vec![0x04, 0x03, 1, 2, 3]);
    assert_eq!(encode_tlv(0x05, &[]), vec![0x05, 0x00]);
    let content = vec![0xabu8; 200];
    let element = encode_tlv(0x04, &content);
    assert_eq!(element.len(), 203);
    assert_eq!(&element[..3], &[0x04, 0x81, 0xc8]);
    assert_eq!(&element[3..], &content[..]);
}

#[test]
fn append_adds_at_the_end() {
    let mut out = vec![1u8, 2];
    append(&mut out, &[3, 4, 5]);
    assert_eq!(out, vec![1, 2, 3, 4, 5]);
    append(&mut out, &[]);
    assert_eq!(out, vec![1, 2, 3, 4, 5]);
}

#[test]
fn split_finds_the_content_of_the_first_element() {
    assert_eq!(split(&[0x04, 0x03, 1, 2, 3, 9, 9]), Ok((2, 5)));
    assert_eq!(split(&[0x05, 0x00]), Ok((2, 2)));
    let mut long = vec![0x04, 0x82, 0x01, 0x2c];
    long.extend(vec![0u8; 300]);
    long.push(0x77);
    assert_eq!(split(&long), Ok((4, 304)));
}

#[test]
fn split_inverts_encode_tlv() {
    for n in [0usize, 1, 127, 128, 129, 255, 256, 1000, 70000] {
        let content = vec![0x5au8; n];
        let mut element = encode_tlv(0x30, &content);
        let whole = element.len();
        element.extend([1, 2, 3]);
        let (start, end) = split(&element).unwrap();
        assert_eq!(end, whole);
        assert_eq!(&element[start..end], &content[..]);
    }
}

#[test]
fn split_refuses_indefinite_length() {
    assert_eq!(split(&[0x30, 0x80, 0x00, 0x00]), Err(Error::MalformedLength));
}

#[test]
fn split_refuses_length_with_one_octet_too_many() {
    assert_eq!(split(&[0x04, 0x81, 0x05, 1, 2, 3, 4, 5]), Err(Error::MalformedLength));
    assert_eq!(split(&[0x04, 0x81, 0x7f]), Err(Error::MalformedLength));
    let mut padded = vec![0x04, 0x82, 0x00, 0x80];
    padded.extend(vec![0u8; 128]);
    assert_eq!(split(&padded), Err(Error::MalformedLength));
    let mut padded = vec![0x04, 0x83, 0x00, 0x01, 0x00];
    padded.extend(vec![0u8; 256]);
    assert_eq!(split(&padded), Err(Error::MalformedLength));
}

#[test]
fn split_refuses_truncated_length_field() {
    assert_eq!(split(&[0x04]), Err(Error::MalformedLength));
    assert_eq!(split(&[0x04, 0x82]), Err(Error::MalformedLength));
    assert_eq!(split(&[0x04, 0x82, 0x01]), Err(Error::MalformedLength));
}

#[test]
fn split_refuses_length_beyond_the_input() {
    assert_eq!(split(&[0x04, 0x05, 1, 2]), Err(Error::MalformedLength));
    assert_eq!(split(&[0x04, 0x01]), Err(Error::MalformedLength));
    assert_eq!(split(&[0x04, 0x84, 0xff, 0xff, 0xff, 0xff, 1]), Err(Error::MalformedLength));
    assert_eq!(
        split(&[0x04, 0x88, 0xff, 0xff, 0xff, 0xff, 0xff, 0xff, 0xff, 0xff, 1]),
        Err(Error::MalformedLength)
    );
}

#[test]
fn split_refuses_more_than_eight_length_octets() {
    assert_eq!(split(&[0x04, 0x89, 1, 0, 0, 0, 0, 0, 0, 0, 0]), Err(Error::MalformedLength));
    assert_eq!(split(&[0x04, 0xff]), Err(Error::MalformedLength));
}

#[test]
fn split_refuses_multi_octet_tag() {
    assert_eq!(split(&[0x1f, 0x01, 0x00]), Err(Error::UnexpectedTag));
    assert_eq!(split(&[0xbf, 0x20, 0x00]), Err(Error::UnexpectedTag));
    assert_eq!(split(&[0x1e, 0x01, 0x00]), Ok((2, 3)));
}

#[test]
fn split_of_nothing_is_missing() {
    assert_eq!(split(&[]), Err(Error::MissingField));
}

#[test]
fn open_gives_the_start_of_the_content() {
    assert_eq!(open(&[0x02, 0x01, 0x05], 0x02), Ok(2));
    assert_eq!(open(&[0x30, 0x00], 0x30), Ok(2));
}

#[test]
fn open_names_each_failure() {
    assert_eq!(open(&[], 0x02), Err(Error::MissingField));
    assert_eq!(open(&[0x04, 0x01, 0x05], 0x02), Err(Error::UnexpectedTag));
    assert_eq!(open(&[0x02, 0x01, 0x05, 0x00], 0x02), Err(Error::TrailingData));
    assert_eq!(open(&[0x02, 0x02, 0x05], 0x02), Err(Error::MalformedLength));
    assert_eq!(open(&[0x02, 0x81, 0x01, 0x05], 0x02), Err(Error::MalformedLength));
}
