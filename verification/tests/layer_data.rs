use tilemap_decode::error::Error;
use tilemap_decode::layer::{classify, decode_base64_tiles, decode_csv_tiles, decode_layer_data,
    deprecation_notice, encode_tiles_base64, encode_tiles_csv, Compression, LayerFormat,
    PayloadSource};

fn ok_tiles(r: Result<Vec<u32>, Error>) -> Vec<u32> {
    match r {
        Ok(v) => v,
        Err(_) => panic!("expected a decoded tile sequence"),
    }
}

#[test]
fn csv_payload_two_by_two() {
    let r = decode_layer_data(
        &Some("csv".to_string()),
        &None,
        &PayloadSource::Text("1,2,3,4".to_string()),
        2,
        2,
    );
    assert_eq!(ok_tiles(r), vec![1, 2, 3, 4]);
}

#[test]
fn csv_round_trip_through_encode() {
    let tiles: Vec<u32> = vec![0, 1, 7, 42, 999, 4294967295, 10, 0];
    let text = encode_tiles_csv(&tiles);
    assert_eq!(text, "0,1,7,42,999,4294967295,10,0");
    assert_eq!(ok_tiles(decode_csv_tiles(&text)), tiles);
}

#[test]
fn csv_empty_zero_area() {
    let tiles = ok_tiles(decode_layer_data(
        &Some("csv".to_string()),
        &None,
        &PayloadSource::Text("".to_string()),
        0,
        7,
    ));
    assert!(tiles.is_empty());
    let blank = ok_tiles(decode_csv_tiles("  \n\t "));
    assert!(blank.is_empty());
}

#[test]
fn csv_tolerates_whitespace_around_tokens() {
    assert_eq!(ok_tiles(decode_csv_tiles(" 1 ,\n 2 ,\t3 ")), vec![1, 2, 3]);
}

#[test]
fn csv_bad_token_is_invalid_tile() {
    assert!(matches!(decode_csv_tiles("1,a,3"), Err(Error::InvalidTileFound)));
    assert!(matches!(decode_csv_tiles("1,2,"), Err(Error::InvalidTileFound)));
    assert!(matches!(decode_csv_tiles("4294967296"), Err(Error::InvalidTileFound)));
    assert!(matches!(decode_csv_tiles("-1"), Err(Error::InvalidTileFound)));
}

#[test]
fn csv_count_mismatch_is_invalid_tile() {
    let r = decode_layer_data(
        &Some("csv".to_string()),
        &None,
        &PayloadSource::Text("1,2,3".to_string()),
        2,
        2,
    );
    assert!(matches!(r, Err(Error::InvalidTileFound)));
}

#[test]
fn empty_payload_nonzero_area_fails() {
    let r = decode_layer_data(
        &Some("csv".to_string()),
        &None,
        &PayloadSource::Text("".to_string()),
        1,
        1,
    );
    assert!(matches!(r, Err(Error::InvalidTileFound)));
}

#[test]
fn base64_round_trip_uncompressed() {
    let tiles: Vec<u32> = vec![5, 0, 123456789, 42];
    let text = match encode_tiles_base64(&tiles, None) {
        Ok(s) => s,
        Err(_) => panic!("plain base64 encoding cannot fail"),
    };
    let r = decode_layer_data(
        &Some("base64".to_string()),
        &None,
        &PayloadSource::Text(text),
        2,
        2,
    );
    assert_eq!(ok_tiles(r), tiles);
}

#[test]
fn base64_round_trip_zlib() {
    let tiles: Vec<u32> = (0..64u32).collect();
    let text = encode_tiles_base64(&tiles, Some(Compression::Zlib)).expect("zlib encoding");
    let r = decode_layer_data(
        &Some("base64".to_string()),
        &Some("zlib".to_string()),
        &PayloadSource::Text(text),
        8,
        8,
    );
    assert_eq!(ok_tiles(r), tiles);
}

#[test]
fn base64_round_trip_gzip() {
    let tiles: Vec<u32> = (100..164u32).collect();
    let text = encode_tiles_base64(&tiles, Some(Compression::Gzip)).expect("gzip encoding");
    let r = decode_layer_data(
        &Some("base64".to_string()),
        &Some("gzip".to_string()),
        &PayloadSource::Text(text),
        8,
        8,
    );
    assert_eq!(ok_tiles(r), tiles);
}

#[test]
fn base64_round_trip_zstd() {
    let tiles: Vec<u32> = (0..256u32).map(|x| x * 3).collect();
    let text = encode_tiles_base64(&tiles, Some(Compression::Zstd)).expect("zstd encoding");
    let r = decode_layer_data(
        &Some("base64".to_string()),
        &Some("zstd".to_string()),
        &PayloadSource::Text(text),
        16,
        16,
    );
    assert_eq!(ok_tiles(r), tiles);
}

#[test]
fn malformed_base64_text() {
    assert!(matches!(
        decode_base64_tiles("!!!not base64!!!", None),
        Err(Error::Base64DecodingError(_))
    ));
}

#[test]
fn corrupt_zlib_stream() {
    // "AAAABBBB" is valid base64 but not a zlib stream.
    assert!(matches!(
        decode_base64_tiles("AAAABBBB", Some(Compression::Zlib)),
        Err(Error::DecompressingError(_))
    ));
}

#[test]
fn byte_length_not_multiple_of_four() {
    // Three raw bytes, valid base64, no compression.
    assert!(matches!(
        decode_base64_tiles("AAAA", None),
        Err(Error::InvalidTileFound)
    ));
}

#[test]
fn legacy_per_tile_path_succeeds() {
    let gids: Vec<u32> = vec![9, 8, 7, 6, 5, 4];
    let r = decode_layer_data(&None, &None, &PayloadSource::Gids(gids.clone()), 3, 2);
    assert_eq!(ok_tiles(r), gids);
}

#[test]
fn legacy_combination_reported_as_deprecated() {
    let format = classify(&None, &None).expect("legacy pair is recognized");
    assert!(matches!(format, LayerFormat::TileElements));
    match deprecation_notice(&format) {
        Some(Error::InvalidEncodingFormat { encoding, compression }) => {
            assert!(encoding.is_none());
            assert!(compression.is_none());
        },
        _ => panic!("expected the deprecated variant"),
    }
    assert!(deprecation_notice(&LayerFormat::Csv).is_none());
}

#[test]
fn csv_with_compression_always_fails() {
    for comp in ["zlib", "gzip", "zstd"] {
        let r = decode_layer_data(
            &Some("csv".to_string()),
            &Some(comp.to_string()),
            &PayloadSource::Text("1".to_string()),
            1,
            1,
        );
        match r {
            Err(Error::InvalidEncodingFormat { encoding, compression }) => {
                assert_eq!(encoding.as_deref(), Some("csv"));
                assert_eq!(compression.as_deref(), Some(comp));
            },
            _ => panic!("csv with compression must be rejected"),
        }
    }
}

#[test]
fn unknown_encoding_rejected() {
    assert!(matches!(
        classify(&Some("hex".to_string()), &None),
        Err(Error::InvalidEncodingFormat { .. })
    ));
    assert!(matches!(
        classify(&None, &Some("zlib".to_string())),
        Err(Error::InvalidEncodingFormat { .. })
    ));
    assert!(matches!(
        classify(&Some("base64".to_string()), &Some("lzma".to_string())),
        Err(Error::InvalidEncodingFormat { .. })
    ));
    assert!(matches!(
        classify(&Some("base64".to_string()), &Some("zstd".to_string())),
        Ok(LayerFormat::Base64(Some(Compression::Zstd)))
    ));
}

#[test]
fn encode_empty_tiles_is_empty_csv() {
    let tiles: Vec<u32> = Vec::new();
    assert_eq!(encode_tiles_csv(&tiles), "");
}

#[test]
fn legacy_count_mismatch_is_invalid_tile() {
    let r = decode_layer_data(&None, &None, &PayloadSource::Gids(vec![1, 2, 3]), 2, 2);
    assert!(matches!(r, Err(Error::InvalidTileFound)));
}

#[test]
fn base64_empty_zero_area() {
    let tiles: Vec<u32> = Vec::new();
    let text = encode_tiles_base64(&tiles, None).expect("plain base64 encoding");
    let r = decode_layer_data(
        &Some("base64".to_string()),
        &None,
        &PayloadSource::Text(text),
        0,
        0,
    );
    assert!(ok_tiles(r).is_empty());
}

#[test]
fn base64_largest_gid_round_trip() {
    let tiles: Vec<u32> = vec![u32::MAX, 0, 1, u32::MAX - 1];
    let text = encode_tiles_base64(&tiles, Some(Compression::Zlib)).expect("zlib encoding");
    let r = decode_base64_tiles(&text, Some(Compression::Zlib));
    assert_eq!(ok_tiles(r), tiles);
}
