use tilemap_decode::error::Error;
use tilemap_decode::wangid::decode_wang_id;

#[test]
fn wang_id_eight_digits() {
    match decode_wang_id("01020304") {
        Ok(w) => assert_eq!(w.0, [0, 1, 0, 2, 0, 3, 0, 4]),
        Err(_) => panic!("a valid WangId must decode"),
    }
}

#[test]
fn wang_id_hex_case_insensitive_digits() {
    match decode_wang_id("fFaA0b9C") {
        Ok(w) => assert_eq!(w.0, [15, 15, 10, 10, 0, 11, 9, 12]),
        Err(_) => panic!("a valid WangId must decode"),
    }
}

#[test]
fn wang_id_wrong_length() {
    match decode_wang_id("0102") {
        Err(Error::InvalidWangIdEncoding { read_string }) => assert_eq!(read_string, "0102"),
        _ => panic!("a 4-character WangId must be rejected"),
    }
    match decode_wang_id("010203040") {
        Err(Error::InvalidWangIdEncoding { read_string }) => assert_eq!(read_string, "010203040"),
        _ => panic!("a 9-character WangId must be rejected"),
    }
}

#[test]
fn wang_id_bad_digit() {
    match decode_wang_id("0102030g") {
        Err(Error::InvalidWangIdEncoding { read_string }) => assert_eq!(read_string, "0102030g"),
        _ => panic!("a non-hex WangId must be rejected"),
    }
}

#[test]
fn error_messages() {
    let e = Error::InvalidTileFound;
    assert_eq!(e.message(), "Invalid tile found in map being parsed");

    let e = Error::InvalidEncodingFormat { encoding: None, compression: None };
    assert_eq!(e.message(), "Deprecated combination of encoding and compression");

    let e = Error::InvalidEncodingFormat {
        encoding: Some("csv".to_string()),
        compression: Some("zlib".to_string()),
    };
    assert_eq!(
        e.message(),
        "Unknown encoding or compression format or invalid combination of both (for tile layers): csv encoding with zlib compression"
    );

    let e = Error::InvalidEncodingFormat { encoding: None, compression: Some("gzip".to_string()) };
    assert_eq!(
        e.message(),
        "Unknown encoding or compression format or invalid combination of both (for tile layers): no encoding with gzip compression"
    );

    let e = Error::UnknownPropertyType { name: "vector3".to_string() };
    assert_eq!(e.message(), "Unknown property value type 'vector3'");

    let e = Error::InvalidPropertyValue { description: "True".to_string() };
    assert_eq!(e.message(), "Invalid property value: True");

    let e = Error::InvalidWangIdEncoding { read_string: "0102".to_string() };
    assert_eq!(e.message(), "\"0102\" is not a valid WangId format");

    let e = Error::MalformedAttributes("missing width".to_string());
    assert_eq!(e.message(), "missing width");

    let e = Error::PrematureEnd("stream cut short".to_string());
    assert_eq!(e.message(), "stream cut short");

    let e = Error::PathIsNotFile;
    assert_eq!(
        e.message(),
        "The path given is invalid because it isn't contained in any folder."
    );
}

#[test]
fn error_sources() {
    assert!(!Error::InvalidTileFound.has_source());
    assert!(!Error::PathIsNotFile.has_source());
    assert!(!Error::MalformedAttributes("x".to_string()).has_source());

    let io = std::io::Error::new(std::io::ErrorKind::Other, "boom");
    let e = Error::DecompressingError(io);
    assert!(e.has_source());
    assert_eq!(e.message(), "boom");

    let io = std::io::Error::new(std::io::ErrorKind::Other, "nope");
    let e = Error::CouldNotOpenFile { path: std::path::PathBuf::from("a/b.tmx"), err: io };
    assert!(e.has_source());
    assert!(e.message().starts_with("Could not open '"));
    assert_eq!(e.message(), "Could not open 'a/b.tmx'. Error: nope");
}
