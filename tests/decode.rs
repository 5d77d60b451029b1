use tmx::decode::{decode_tile_data, parse_base64_data, tiles_of};
use tmx::layer::{Codecs, Compression, Encoding, ErrorKind, Tile};

const EXPECTED: [u32; 16] = [
    1, 2684354561, 1, 2147483649, 1610612737, 3221225473, 1073741825, 3221225473, 2147483649,
    3758096385, 1073741825, 536870913, 536870913, 1073741825, 3758096385, 2147483649,
];

const CSV: &str = "
    1,2684354561,1,2147483649,
    1610612737,3221225473,1073741825,3221225473,
    2147483649,3758096385,1073741825,536870913,
    536870913,1073741825,3758096385,2147483649
    ";

const BASE64: &str = "
       AQAAAAEAAKABAAAAAQAAgAEAAGABAADAAQAAQAEAAMABAACAAQAA4AEAAEABAAAgAQAAIAEAAEABAADgAQAAgA==
      ";

const GZIP: &str = "
       H4sIAAAAAAAAE2NkYGBgZGBYwAihG4A4AYgPALEDlAaJPYDyFaDYASrWAAB8ZFU/QAAAAA==
      ";

const ZLIB: &str = "
       eJxjZGBgYGRgWMAIoRuAOAGIDwCxA5QGiT2A8hWg2AEq1gAAxKAG0Q==
      ";

const ZSTD: &str = "
       KLUv/SBAVQEAyAEAAAABAACggAEAAGABAADAAQAAQOAgQIAGADez7PLNTL5pLZD/ssIF
      ";

fn raws(tiles: &[Tile]) -> Vec<u32> {
    tiles.iter().map(|t| t.raw()).collect()
}

fn decode(data: &str, encoding: Encoding) -> Result<Vec<u32>, ErrorKind> {
    decode_tile_data(data, encoding, &Codecs::all())
        .map(|t| raws(&t))
        .map_err(|e| e.kind())
}

#[test]
fn test_csv_data() {
    assert_eq!(decode(CSV, Encoding::CSV), Ok(EXPECTED.to_vec()));
}

#[test]
fn test_base64_data() {
    assert_eq!(decode(BASE64, Encoding::Base64(None)), Ok(EXPECTED.to_vec()));
}

#[test]
fn test_gzip_data() {
    assert_eq!(decode(GZIP, Encoding::Base64(Some(Compression::GZip))), Ok(EXPECTED.to_vec()));
}

#[test]
fn test_zlib_data() {
    assert_eq!(decode(ZLIB, Encoding::Base64(Some(Compression::ZLib))), Ok(EXPECTED.to_vec()));
}

#[test]
fn test_zstd_data() {
    assert_eq!(decode(ZSTD, Encoding::Base64(Some(Compression::ZStd))), Ok(EXPECTED.to_vec()));
}

#[test]
fn csv_and_binary_encodings_agree() {
    let csv = decode(CSV, Encoding::CSV).unwrap();
    assert_eq!(decode(BASE64, Encoding::Base64(None)).unwrap(), csv);
    assert_eq!(decode(GZIP, Encoding::Base64(Some(Compression::GZip))).unwrap(), csv);
    assert_eq!(decode(ZLIB, Encoding::Base64(Some(Compression::ZLib))).unwrap(), csv);
    assert_eq!(decode(ZSTD, Encoding::Base64(Some(Compression::ZStd))).unwrap(), csv);
}

#[test]
fn decoding_twice_gives_the_same_tiles() {
    for (data, encoding) in [
        (CSV, Encoding::CSV),
        (GZIP, Encoding::Base64(Some(Compression::GZip))),
        ("1,x", Encoding::CSV),
    ] {
        assert_eq!(decode(data, encoding), decode(data, encoding));
    }
}

#[test]
fn csv_bad_token_fails_whole_block() {
    assert_eq!(decode("1,2,x,4", Encoding::CSV), Err(ErrorKind::CsvParse));
    assert_eq!(decode("1,2,3\n4,-5", Encoding::CSV), Err(ErrorKind::CsvParse));
    assert_eq!(decode("4294967296", Encoding::CSV), Err(ErrorKind::CsvParse));
}

#[test]
fn csv_blank_fields_and_signs() {
    assert_eq!(decode("", Encoding::CSV), Ok(vec![]));
    assert_eq!(decode(" \n\n , ,\n", Encoding::CSV), Ok(vec![]));
    assert_eq!(decode("+7,, 8 ,\n\t9\r\n", Encoding::CSV), Ok(vec![7, 8, 9]));
    assert_eq!(decode("4294967295,007", Encoding::CSV), Ok(vec![4294967295, 7]));
    assert_eq!(decode("+", Encoding::CSV), Err(ErrorKind::CsvParse));
    assert_eq!(decode("1 2", Encoding::CSV), Err(ErrorKind::CsvParse));
}

#[test]
fn base64_errors() {
    assert_eq!(decode("not base64!", Encoding::Base64(None)), Err(ErrorKind::Base64Decode));
    assert_eq!(decode("AQID", Encoding::Base64(None)), Err(ErrorKind::MisalignedData));
    assert_eq!(
        decode(BASE64, Encoding::Base64(Some(Compression::GZip))),
        Err(ErrorKind::CompressionDecode)
    );
    assert_eq!(
        decode(GZIP, Encoding::Base64(Some(Compression::ZLib))),
        Err(ErrorKind::CompressionDecode)
    );
    assert_eq!(
        decode(GZIP, Encoding::Base64(Some(Compression::ZStd))),
        Err(ErrorKind::CompressionDecode)
    );
}

#[test]
fn missing_decoder_is_reported() {
    let codecs = Codecs { gzip: false, zlib: true, zstd: true };
    let r = decode_tile_data(GZIP, Encoding::Base64(Some(Compression::GZip)), &codecs);
    assert_eq!(r.unwrap_err().kind(), ErrorKind::DecoderUnavailable(Compression::GZip));
    let r = decode_tile_data(ZLIB, Encoding::Base64(Some(Compression::ZLib)), &codecs);
    assert_eq!(raws(&r.unwrap()), EXPECTED.to_vec());
}

#[test]
fn little_endian_words() {
    assert_eq!(parse_base64_data(&vec![1, 0, 0, 0, 0x01, 0x02, 0x03, 0xA0]), Ok(vec![1, 0xA003_0201]));
    assert_eq!(parse_base64_data(&vec![]), Ok(vec![]));
    assert_eq!(parse_base64_data(&vec![1, 2, 3, 4, 5]), Err(5));
}

#[test]
fn tiles_keep_raw_values() {
    let t = tiles_of(&vec![5, 0xFFFF_FFFF]);
    assert_eq!(raws(&t), vec![5, 0xFFFF_FFFF]);
}
