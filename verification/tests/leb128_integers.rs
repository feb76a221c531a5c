use gimli::leb::{parse_signed_leb, parse_unsigned_leb};
use gimli::Error;

#[test]
fn unsigned_integers_are_parsed() {
    assert_eq!(parse_unsigned_leb(&[0x02]), Ok((&[][..], 2)));
    assert_eq!(parse_unsigned_leb(&[0x7f, 0xaa]), Ok((&[0xaa][..], 127)));
    assert_eq!(parse_unsigned_leb(&[0x80, 0x01]), Ok((&[][..], 128)));
    assert_eq!(parse_unsigned_leb(&[0xe5, 0x8e, 0x26]), Ok((&[][..], 624485)));
    // More bytes than needed.
    assert_eq!(parse_unsigned_leb(&[0x80, 0x80, 0x00]), Ok((&[][..], 0)));
}

#[test]
fn signed_integers_are_parsed() {
    assert_eq!(parse_signed_leb(&[0x02]), Ok((&[][..], 2)));
    assert_eq!(parse_signed_leb(&[0x7e]), Ok((&[][..], -2)));
    assert_eq!(parse_signed_leb(&[0xff, 0x00, 0xaa]), Ok((&[0xaa][..], 127)));
    assert_eq!(parse_signed_leb(&[0x81, 0x7f]), Ok((&[][..], -127)));
    assert_eq!(parse_signed_leb(&[0x80, 0x01]), Ok((&[][..], 128)));
    assert_eq!(parse_signed_leb(&[0x80, 0x7f]), Ok((&[][..], -128)));
    assert_eq!(parse_signed_leb(&[0xc0, 0xbb, 0x78]), Ok((&[][..], -123456)));
}

#[test]
fn integers_at_the_ends_of_their_range_are_parsed() {
    let max = [0xff, 0xff, 0xff, 0xff, 0xff, 0xff, 0xff, 0xff, 0xff, 0x01];
    assert_eq!(parse_unsigned_leb(&max), Ok((&[][..], u64::MAX)));
    let max = [0xff, 0xff, 0xff, 0xff, 0xff, 0xff, 0xff, 0xff, 0xff, 0x00];
    assert_eq!(parse_signed_leb(&max), Ok((&[][..], i64::MAX)));
    let min = [0x80, 0x80, 0x80, 0x80, 0x80, 0x80, 0x80, 0x80, 0x80, 0x7f];
    assert_eq!(parse_signed_leb(&min), Ok((&[][..], i64::MIN)));
}

#[test]
fn integers_that_are_too_large_are_bad() {
    let buf = [0x80, 0x80, 0x80, 0x80, 0x80, 0x80, 0x80, 0x80, 0x80, 0x02];
    assert_eq!(parse_unsigned_leb(&buf), Err(Error::BadUnsignedLeb128));
    let buf = [0x80, 0x80, 0x80, 0x80, 0x80, 0x80, 0x80, 0x80, 0x80, 0x01];
    assert_eq!(parse_signed_leb(&buf), Err(Error::BadSignedLeb128));
    let buf = [0xff, 0xff, 0xff, 0xff, 0xff, 0xff, 0xff, 0xff, 0xff, 0x7e];
    assert_eq!(parse_signed_leb(&buf), Err(Error::BadSignedLeb128));
}

#[test]
fn integers_of_more_than_ten_bytes_are_bad() {
    let buf = [0x80, 0x80, 0x80, 0x80, 0x80, 0x80, 0x80, 0x80, 0x80, 0x80, 0x00];
    assert_eq!(parse_unsigned_leb(&buf), Err(Error::BadUnsignedLeb128));
    assert_eq!(parse_signed_leb(&buf), Err(Error::BadSignedLeb128));
}

#[test]
fn encoded_integers_need_all_of_their_bytes() {
    assert_eq!(parse_unsigned_leb(&[]), Err(Error::UnexpectedEof));
    assert_eq!(parse_unsigned_leb(&[0x80]), Err(Error::UnexpectedEof));
    assert_eq!(parse_unsigned_leb(&[0xff; 20]), Err(Error::UnexpectedEof));
    assert_eq!(parse_signed_leb(&[]), Err(Error::UnexpectedEof));
    assert_eq!(parse_signed_leb(&[0x80]), Err(Error::UnexpectedEof));
    assert_eq!(parse_signed_leb(&[0xff; 20]), Err(Error::UnexpectedEof));
}

#[test]
fn parsing_gives_back_what_was_written() {
    for n in [0, 1, 127, 128, 4097, 9999999, u64::MAX] {
        let mut buf = vec![];
        let len = leb128::write::unsigned(&mut buf, n).expect("should write ok");
        buf.push(0xaa);
        assert_eq!(parse_unsigned_leb(&buf), Ok((&buf[len..], n)));
    }
    for n in [0, 1, -1, 63, 64, -64, -65, 4097, -4097, i64::MAX, i64::MIN] {
        let mut buf = vec![];
        let len = leb128::write::signed(&mut buf, n).expect("should write ok");
        buf.push(0xaa);
        assert_eq!(parse_signed_leb(&buf), Ok((&buf[len..], n)));
    }
}
