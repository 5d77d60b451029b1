use tmx::layer::{
    default_visible, resolve_encoding, Codecs, Compression, Data, DataError, DataKind, Encoding,
    ErrorKind, RawChunk, RawData, Tile,
};

const GIDS: [u32; 16] = [
    1, 2684354561, 1, 2147483649, 1610612737, 3221225473, 1073741825, 3221225473, 2147483649,
    3758096385, 1073741825, 536870913, 536870913, 1073741825, 3758096385, 2147483649,
];

const CSV: &str = "
    1,2684354561,1,2147483649,
    1610612737,3221225473,1073741825,3221225473,
    2147483649,3758096385,1073741825,536870913,
    536870913,1073741825,3758096385,2147483649
    ";

const BASE64: &str = "
       AQAAAAEAAKABAAAAAQAAgAEAAGABAADAAQAAQAEAAMABAACAAQAA4AEAAEABAAAgAQAAIAEAAEABAADgAQAAgA==
      ";

const GZIP: &str = "H4sIAAAAAAAAE2NkYGBgZGBYwAihG4A4AYgPALEDlAaJPYDyFaDYASrWAAB8ZFU/QAAAAA==";

const ZLIB: &str = "eJxjZGBgYGRgWMAIoRuAOAGIDwCxA5QGiT2A8hWg2AEq1gAAxKAG0Q==";

const ZSTD: &str = "KLUv/SBAVQEAyAEAAAABAACggAEAAGABAADAAQAAQOAgQIAGADez7PLNTL5pLZD/ssIF";

fn s(v: &str) -> Option<String> {
    Some(v.to_string())
}

fn tiles(v: &[u32]) -> Vec<Tile> {
    v.iter().map(|&g| Tile::new(g)).collect()
}

fn raws(t: &[Tile]) -> Vec<u32> {
    t.iter().map(|t| t.raw()).collect()
}

fn block(encoding: Option<String>, compression: Option<String>) -> RawData {
    RawData { encoding, compression, chunks: None, tiles: None, payload: None }
}

fn chunk(x: u32, y: u32, tiles: Option<Vec<Tile>>, payload: Option<String>) -> RawChunk {
    RawChunk { x, y, width: 4, height: 4, tiles, payload }
}

fn flat(d: &Data) -> Vec<u32> {
    match &d.kind {
        DataKind::Tiles(t) => raws(t),
        DataKind::Chunks(_) => panic!("expected flat tiles"),
    }
}

fn kind(r: Result<Data, DataError>) -> ErrorKind {
    r.unwrap_err().kind()
}

#[test]
fn test_gid() {
    let expected = [
        (1, false, false, false),
        (1, true, false, true),
        (1, false, false, false),
        (1, true, false, false),
        (1, false, true, true),
        (1, true, true, false),
        (1, false, true, false),
        (1, true, true, false),
        (1, true, false, false),
        (1, true, true, true),
        (1, false, true, false),
        (1, false, false, true),
        (1, false, false, true),
        (1, false, true, false),
        (1, true, true, true),
        (1, true, false, false),
    ];
    for (raw, e) in GIDS.iter().zip(expected.iter()) {
        let t = Tile::new(*raw);
        assert_eq!(
            (t.gid(), t.flipped_horizontally(), t.flipped_vertically(), t.flipped_diagonally()),
            *e
        );
    }
}

#[test]
fn flags_and_id_split_the_raw_value() {
    let t = Tile::new(2684354561);
    assert_eq!(t.gid(), 1);
    assert!(t.flipped_horizontally());
    assert!(!t.flipped_vertically());
    assert!(t.flipped_diagonally());
    let t = Tile::new(0xFFFF_FFFF);
    assert_eq!(t.gid(), 0x1FFF_FFFF);
    assert_eq!(t.raw(), 0xFFFF_FFFF);
    let t = Tile::new(0x1234_5678);
    assert_eq!(t.gid(), 0x1234_5678);
    assert!(!t.flipped_horizontally() && !t.flipped_vertically() && !t.flipped_diagonally());
}

#[test]
fn compression_names() {
    assert_eq!(Compression::from_name(&"gzip".to_string()), Some(Compression::GZip));
    assert_eq!(Compression::from_name(&"zlib".to_string()), Some(Compression::ZLib));
    assert_eq!(Compression::from_name(&"zstd".to_string()), Some(Compression::ZStd));
    assert_eq!(Compression::from_name(&"GZIP".to_string()), None);
    assert_eq!(Compression::from_name(&"brotli".to_string()), None);
}

#[test]
fn resolver_rules() {
    assert!(matches!(resolve_encoding(&None, &None), Ok(None)));
    assert!(matches!(resolve_encoding(&None, &s("gzip")), Ok(None)));
    assert!(matches!(resolve_encoding(&s("csv"), &None), Ok(Some(Encoding::CSV))));
    assert!(matches!(resolve_encoding(&s("base64"), &None), Ok(Some(Encoding::Base64(None)))));
    assert!(matches!(
        resolve_encoding(&s("base64"), &s("zlib")),
        Ok(Some(Encoding::Base64(Some(Compression::ZLib))))
    ));
    match resolve_encoding(&s("xml"), &None) {
        Err(DataError::UnknownEncoding(v)) => assert_eq!(v, "xml"),
        other => panic!("unexpected {:?}", other),
    }
}

#[test]
fn resolver_rejects_bad_combinations() {
    for c in ["gzip", "zlib", "zstd", "brotli", ""] {
        match resolve_encoding(&s("csv"), &s(c)) {
            Err(DataError::InvalidCombination(v)) => assert_eq!(v, c),
            other => panic!("unexpected {:?}", other),
        }
    }
    match resolve_encoding(&s("base64"), &s("brotli")) {
        Err(DataError::UnknownCompression(v)) => assert_eq!(v, "brotli"),
        other => panic!("unexpected {:?}", other),
    }
}

#[test]
fn test_xml_data() {
    let mut raw = block(None, None);
    raw.tiles = Some(tiles(&GIDS));
    let d = Data::from_raw(&raw, &Codecs::all()).unwrap();
    assert!(d.encoding.is_none());
    assert_eq!(flat(&d), GIDS.to_vec());
}

#[test]
fn csv_flat_data() {
    let mut raw = block(s("csv"), None);
    raw.payload = s(CSV);
    let d = Data::from_raw(&raw, &Codecs::all()).unwrap();
    assert!(matches!(d.encoding, Some(Encoding::CSV)));
    assert_eq!(flat(&d), GIDS.to_vec());
}

#[test]
fn encoded_flat_data_per_compression() {
    for (compression, payload) in [(None, BASE64), (s("gzip"), GZIP), (s("zlib"), ZLIB), (s("zstd"), ZSTD)]
    {
        let mut raw = block(s("base64"), compression);
        raw.payload = s(payload);
        let d = Data::from_raw(&raw, &Codecs::all()).unwrap();
        assert_eq!(flat(&d), GIDS.to_vec());
    }
}

fn chunked(d: &Data) -> Vec<(u32, u32, u32, u32, Vec<u32>)> {
    match &d.kind {
        DataKind::Chunks(c) => c.iter().map(|c| (c.x, c.y, c.width, c.height, raws(&c.tiles))).collect(),
        DataKind::Tiles(_) => panic!("expected chunks"),
    }
}

#[test]
fn test_chunk_xml_data() {
    let mut raw = block(None, None);
    raw.chunks = Some(vec![chunk(0, 0, Some(tiles(&GIDS)), None)]);
    let d = Data::from_raw(&raw, &Codecs::all()).unwrap();
    assert_eq!(chunked(&d), vec![(0, 0, 4, 4, GIDS.to_vec())]);
}

#[test]
fn test_chunk_csv_data() {
    let mut raw = block(s("csv"), None);
    raw.chunks = Some(vec![chunk(0, 0, None, s(CSV))]);
    let d = Data::from_raw(&raw, &Codecs::all()).unwrap();
    assert_eq!(chunked(&d), vec![(0, 0, 4, 4, GIDS.to_vec())]);
}

#[test]
fn test_chunk_base64_data() {
    let mut raw = block(s("base64"), None);
    raw.chunks = Some(vec![chunk(0, 0, None, s(BASE64))]);
    let d = Data::from_raw(&raw, &Codecs::all()).unwrap();
    assert_eq!(chunked(&d), vec![(0, 0, 4, 4, GIDS.to_vec())]);
}

#[test]
fn test_chunk_gzip_data() {
    let mut raw = block(s("base64"), s("gzip"));
    raw.chunks = Some(vec![chunk(0, 0, None, s(GZIP))]);
    let d = Data::from_raw(&raw, &Codecs::all()).unwrap();
    assert_eq!(chunked(&d), vec![(0, 0, 4, 4, GIDS.to_vec())]);
}

#[test]
fn test_chunk_zlib_data() {
    let mut raw = block(s("base64"), s("zlib"));
    raw.chunks = Some(vec![chunk(0, 0, None, s(ZLIB))]);
    let d = Data::from_raw(&raw, &Codecs::all()).unwrap();
    assert_eq!(chunked(&d), vec![(0, 0, 4, 4, GIDS.to_vec())]);
}

#[test]
fn test_chunk_zstd_data() {
    let mut raw = block(s("base64"), s("zstd"));
    raw.chunks = Some(vec![chunk(0, 0, None, s(ZSTD))]);
    let d = Data::from_raw(&raw, &Codecs::all()).unwrap();
    assert_eq!(chunked(&d), vec![(0, 0, 4, 4, GIDS.to_vec())]);
}

#[test]
fn two_chunks_are_kept_apart() {
    let mut raw = block(s("csv"), None);
    raw.chunks = Some(vec![chunk(0, 0, None, s("1,2\n3,4")), chunk(16, -16i32 as u32, None, s("5,6"))]);
    let d = Data::from_raw(&raw, &Codecs::all()).unwrap();
    assert_eq!(
        chunked(&d),
        vec![(0, 0, 4, 4, vec![1, 2, 3, 4]), (16, -16i32 as u32, 4, 4, vec![5, 6])]
    );
}

#[test]
fn invalid_layouts() {
    let codecs = Codecs::all();
    assert_eq!(kind(Data::from_raw(&block(None, None), &codecs)), ErrorKind::InvalidTileData);
    let mut raw = block(None, None);
    raw.payload = s("1,2");
    assert_eq!(kind(Data::from_raw(&raw, &codecs)), ErrorKind::InvalidTileData);
    let mut raw = block(s("csv"), None);
    raw.tiles = Some(tiles(&[1]));
    assert_eq!(kind(Data::from_raw(&raw, &codecs)), ErrorKind::InvalidTileData);
    let mut raw = block(None, None);
    raw.tiles = Some(tiles(&[1]));
    raw.chunks = Some(vec![]);
    assert_eq!(kind(Data::from_raw(&raw, &codecs)), ErrorKind::InvalidTileData);
    let mut raw = block(None, None);
    raw.chunks = Some(vec![chunk(0, 0, None, None)]);
    assert_eq!(kind(Data::from_raw(&raw, &codecs)), ErrorKind::InvalidTileData);
}

#[test]
fn encoded_chunk_without_payload() {
    let mut raw = block(s("csv"), None);
    raw.chunks = Some(vec![chunk(0, 0, None, s("1")), chunk(4, 0, Some(tiles(&[1])), None)]);
    assert_eq!(kind(Data::from_raw(&raw, &Codecs::all())), ErrorKind::MissingChunkData);
}

#[test]
fn first_failing_chunk_fails_the_block() {
    let mut raw = block(s("csv"), None);
    raw.chunks = Some(vec![chunk(0, 0, None, s("1,x")), chunk(4, 0, None, None)]);
    assert_eq!(kind(Data::from_raw(&raw, &Codecs::all())), ErrorKind::CsvParse);
}

#[test]
fn block_declaration_errors() {
    let codecs = Codecs::all();
    let mut raw = block(s("csv"), s("gzip"));
    raw.payload = s("1");
    assert_eq!(kind(Data::from_raw(&raw, &codecs)), ErrorKind::InvalidCombination);
    let mut raw = block(s("base64"), s("brotli"));
    raw.payload = s(BASE64);
    assert_eq!(kind(Data::from_raw(&raw, &codecs)), ErrorKind::UnknownCompression);
    let mut raw = block(s("hex"), None);
    raw.payload = s("01");
    assert_eq!(kind(Data::from_raw(&raw, &codecs)), ErrorKind::UnknownEncoding);
    let mut raw = block(s("base64"), s("zstd"));
    raw.payload = s(ZSTD);
    let none = Codecs { gzip: true, zlib: true, zstd: false };
    assert_eq!(kind(Data::from_raw(&raw, &none)), ErrorKind::DecoderUnavailable(Compression::ZStd));
}

#[test]
fn layers_are_visible_by_default() {
    assert!(default_visible());
}
