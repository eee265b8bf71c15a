use xdf::errors::{ParseError, XDFError};
use xdf::raw::read_to_raw_chunks;
use xdf::Tag;

#[test]
fn empty_file() {
    let bytes: Vec<u8> = vec![];
    let res = read_to_raw_chunks(bytes.as_slice());
    let err = res.unwrap_err();
    assert!(
        matches!(err, XDFError::Parse(ParseError::NoMagicNumber)),
        "Expected NoMagicNumberError, got {:?}",
        err
    );
}

#[test]
fn no_magic_num() {
    let bytes: Vec<u8> = vec![b'X', b'D', b'A', b':'];
    let res = read_to_raw_chunks(bytes.as_slice());
    let err = res.unwrap_err();
    assert!(
        matches!(err, XDFError::Parse(ParseError::NoMagicNumber)),
        "Expected NoMagicNumberError, got {:?}",
        err
    );
}

#[test]
fn chunk_too_short() {
    // magic number, then a Samples chunk with specified length of length 20 but insufficient actual length
    let bytes: Vec<u8> = vec![b'X', b'D', b'F', b':', 4, 0, 0, 0, 20, 3, 0, 1, 2, 3];
    let res = read_to_raw_chunks(bytes.as_slice());
    let chunks = res.unwrap();
    assert_eq!(chunks.len(), 0);
}

#[test]
fn invalid_tags() {
    //tag 0 is invalid
    let bytes: Vec<u8> = vec![b'X', b'D', b'F', b':', 1, 3, 0, 0, 10];
    let res = read_to_raw_chunks(bytes.as_slice());
    let err = res.unwrap_err();
    assert!(
        matches!(err, XDFError::Parse(ParseError::InvalidTag(invalid_tag)) if invalid_tag == 0),
        "Expected InvalidTagError(0), got {:?}",
        err
    );

    //tag 7 is invalid
    let bytes: Vec<u8> = vec![b'X', b'D', b'F', b':', 1, 3, 7, 0, 10];
    let res = read_to_raw_chunks(bytes.as_slice());
    let err = res.unwrap_err();
    assert!(
        matches!(err, XDFError::Parse(ParseError::InvalidTag(invalid_tag)) if invalid_tag == 7),
        "Expected InvalidTagError(7), got {:?}",
        err
    );
}

#[test]
fn valid_single_chunk() {
    // one boundary chunk framed by hand reads back with its tag and content
    let mut bytes: Vec<u8> = vec![b'X', b'D', b'F', b':'];
    let uuid: [u8; 16] = [
        0x43, 0xA5, 0x46, 0xDC, 0xCB, 0xF5, 0x41, 0x0F, 0xB3, 0x0E, 0xD5, 0x46, 0x73, 0x83, 0xCB,
        0xE4,
    ];
    bytes.push(1); // one length byte
    bytes.push(18); // 2 tag bytes + 16 content bytes
    bytes.push(5); // boundary tag
    bytes.push(0);
    bytes.extend_from_slice(&uuid);
    let chunks = read_to_raw_chunks(&bytes).unwrap();
    assert_eq!(chunks.len(), 1);
    assert_eq!(chunks[0].tag, Tag::Boundary);
    assert_eq!(chunks[0].content, uuid.to_vec());
}
