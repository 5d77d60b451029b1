use vstd::prelude::*;

use crate::decode::{decode_tile_data, raws, tile_data_spec};

verus! {

/// The compression applied to binary tile data before it was encoded.
#[derive(Clone, Copy, Debug, PartialEq, Eq, Structural)]
pub enum Compression {
    GZip,
    ZLib,
    ZStd,
}

/// How the tile data of a data block is written: as delimited decimal numbers,
/// or as base64 text of little-endian 32-bit values, optionally compressed.
#[derive(Clone, Copy, Debug, PartialEq, Eq, Structural)]
pub enum Encoding {
    Base64(Option<Compression>),
    CSV,
}

/// The compression named by `s`, if any.
pub open spec fn compression_named(s: Seq<char>) -> Option<Compression> {
    if s == "gzip"@ {
        Some(Compression::GZip)
    } else if s == "zlib"@ {
        Some(Compression::ZLib)
    } else if s == "zstd"@ {
        Some(Compression::ZStd)
    } else {
        None
    }
}

impl Compression {
    /// The compression named `gzip`, `zlib` or `zstd`; none for any other name.
    pub fn from_name(s: &String) -> (r: Option<Compression>)
        ensures
            r == compression_named(s@),
    {
        if *s == String::from_str("gzip") {
            Some(Compression::GZip)
        } else if *s == String::from_str("zlib") {
            Some(Compression::ZLib)
        } else if *s == String::from_str("zstd") {
            Some(Compression::ZStd)
        } else {
            None
        }
    }
}

/// The set of decompressors available to the decoder.
#[derive(Clone, Copy, Debug, PartialEq, Eq, Structural)]
pub struct Codecs {
    pub gzip: bool,
    pub zlib: bool,
    pub zstd: bool,
}

impl Codecs {
    /// Whether the decompressor for `c` is available.
    pub open spec fn has(self, c: Compression) -> bool {
        match c {
            Compression::GZip => self.gzip,
            Compression::ZLib => self.zlib,
            Compression::ZStd => self.zstd,
        }
    }

    /// Every decompressor available.
    pub fn all() -> (r: Codecs)
        ensures
            forall|c: Compression| r.has(c),
    {
        Codecs { gzip: true, zlib: true, zstd: true }
    }

    /// Whether the decompressor for `c` is available.
    pub fn supports(&self, c: Compression) -> (r: bool)
        ensures
            r == self.has(c),
    {
        match c {
            Compression::GZip => self.gzip,
            Compression::ZLib => self.zlib,
            Compression::ZStd => self.zstd,
        }
    }
}

/// What went wrong while reading a data block, without the offending value.
#[derive(Clone, Copy, Debug, PartialEq, Eq, Structural)]
pub enum ErrorKind {
    UnknownEncoding,
    UnknownCompression,
    InvalidCombination,
    DecoderUnavailable(Compression),
    Base64Decode,
    CompressionDecode,
    CsvParse,
    MisalignedData,
    InvalidTileData,
    MissingChunkData,
}

/// A failure to read a data block, with the offending value where there is one.
#[derive(Debug)]
pub enum DataError {
    /// The `encoding` value is neither `csv` nor `base64`.
    UnknownEncoding(String),
    /// The `compression` value is not `gzip`, `zlib` or `zstd`.
    UnknownCompression(String),
    /// A `compression` value was given with CSV data.
    InvalidCombination(String),
    /// The compression is valid but its decompressor is not available.
    DecoderUnavailable(Compression),
    /// The payload is not valid base64.
    Base64Decode(String),
    /// The decompressor rejected the decoded bytes.
    CompressionDecode(String),
    /// A CSV field is not a decimal `u32`.
    CsvParse,
    /// The binary data does not split into 4-byte values; holds its length.
    MisalignedData(usize),
    /// The data block holds no valid combination of tiles, chunks and payload.
    InvalidTileData,
    /// An encoded chunk has no payload.
    MissingChunkData,
}

/// The kind of `e`.
pub open spec fn error_kind(e: DataError) -> ErrorKind {
    match e {
        DataError::UnknownEncoding(_) => ErrorKind::UnknownEncoding,
        DataError::UnknownCompression(_) => ErrorKind::UnknownCompression,
        DataError::InvalidCombination(_) => ErrorKind::InvalidCombination,
        DataError::DecoderUnavailable(c) => ErrorKind::DecoderUnavailable(c),
        DataError::Base64Decode(_) => ErrorKind::Base64Decode,
        DataError::CompressionDecode(_) => ErrorKind::CompressionDecode,
        DataError::CsvParse => ErrorKind::CsvParse,
        DataError::MisalignedData(_) => ErrorKind::MisalignedData,
        DataError::InvalidTileData => ErrorKind::InvalidTileData,
        DataError::MissingChunkData => ErrorKind::MissingChunkData,
    }
}

impl DataError {
    /// The kind of this error.
    pub fn kind(&self) -> (k: ErrorKind)
        ensures
            k == error_kind(*self),
    {
        match self {
            DataError::UnknownEncoding(_) => ErrorKind::UnknownEncoding,
            DataError::UnknownCompression(_) => ErrorKind::UnknownCompression,
            DataError::InvalidCombination(_) => ErrorKind::InvalidCombination,
            DataError::DecoderUnavailable(c) => ErrorKind::DecoderUnavailable(*c),
            DataError::Base64Decode(_) => ErrorKind::Base64Decode,
            DataError::CompressionDecode(_) => ErrorKind::CompressionDecode,
            DataError::CsvParse => ErrorKind::CsvParse,
            DataError::MisalignedData(_) => ErrorKind::MisalignedData,
            DataError::InvalidTileData => ErrorKind::InvalidTileData,
            DataError::MissingChunkData => ErrorKind::MissingChunkData,
        }
    }
}

/// The encoding that the `encoding` and `compression` attributes of a data
/// block declare; none when there is no `encoding` attribute.
pub open spec fn resolve_spec(encoding: Option<Seq<char>>, compression: Option<Seq<char>>) -> Result<
    Option<Encoding>,
    ErrorKind,
> {
    match encoding {
        None => Ok(None),
        Some(e) => if e == "csv"@ {
            match compression {
                None => Ok(Some(Encoding::CSV)),
                Some(_) => Err(ErrorKind::InvalidCombination),
            }
        } else if e == "base64"@ {
            match compression {
                None => Ok(Some(Encoding::Base64(None))),
                Some(c) => match compression_named(c) {
                    Some(k) => Ok(Some(Encoding::Base64(Some(k)))),
                    None => Err(ErrorKind::UnknownCompression),
                },
            }
        } else {
            Err(ErrorKind::UnknownEncoding)
        },
    }
}

/// The view of an optional string.
pub open spec fn opt_view(s: Option<String>) -> Option<Seq<char>> {
    match s {
        Some(v) => Some(v@),
        None => None,
    }
}

/// Resolves the `encoding` and `compression` attributes of a data block.
/// An error holds the attribute value that was rejected.
pub fn resolve_encoding(encoding: &Option<String>, compression: &Option<String>) -> (r: Result<
    Option<Encoding>,
    DataError,
>)
    ensures
        match r {
            Ok(e) => resolve_spec(opt_view(*encoding), opt_view(*compression)) == Ok::<
                Option<Encoding>,
                ErrorKind,
            >(e),
            Err(e) => resolve_spec(opt_view(*encoding), opt_view(*compression)) == Err::<
                Option<Encoding>,
                ErrorKind,
            >(error_kind(e)),
        },
        r matches Err(DataError::UnknownEncoding(v)) ==> Some(v@) == opt_view(*encoding),
        r matches Err(DataError::UnknownCompression(v)) ==> Some(v@) == opt_view(*compression),
        r matches Err(DataError::InvalidCombination(v)) ==> Some(v@) == opt_view(*compression),
{
    match encoding {
        None => Ok(None),
        Some(e) => {
            if *e == String::from_str("csv") {
                match compression {
                    None => Ok(Some(Encoding::CSV)),
                    Some(c) => Err(DataError::InvalidCombination(c.clone())),
                }
            } else if *e == String::from_str("base64") {
                match compression {
                    None => Ok(Some(Encoding::Base64(None))),
                    Some(c) => match Compression::from_name(c) {
                        Some(k) => Ok(Some(Encoding::Base64(Some(k)))),
                        None => Err(DataError::UnknownCompression(c.clone())),
                    },
                }
            } else {
                Err(DataError::UnknownEncoding(e.clone()))
            }
        },
    }
}

/// Bit set in a raw global id when the tile is mirrored horizontally.
pub const FLIPPED_HORIZONTALLY_FLAG: u32 = 0x8000_0000;

/// Bit set in a raw global id when the tile is mirrored vertically.
pub const FLIPPED_VERTICALLY_FLAG: u32 = 0x4000_0000;

/// Bit set in a raw global id when the tile is mirrored along its anti-diagonal.
pub const FLIPPED_DIAGONALLY_FLAG: u32 = 0x2000_0000;

/// The bits of a raw global id that hold the tile's identifier.
pub const GID_MASK: u32 = 0x1FFF_FFFF;

/// One cell of a tile layer, holding the raw 32-bit global id as stored.
#[derive(Clone, Copy, Debug, PartialEq, Eq)]
pub struct Tile {
    gid: u32,
}

impl View for Tile {
    type V = u32;

    closed spec fn view(&self) -> u32 {
        self.gid
    }
}

impl Tile {
    /// A tile whose raw global id is `raw`.
    pub fn new(raw: u32) -> (t: Tile)
        ensures
            t@ == raw,
    {
        Tile { gid: raw }
    }

    /// The raw global id, flip flags included.
    pub fn raw(&self) -> (r: u32)
        ensures
            r == self@,
    {
        self.gid
    }

    /// The global tile id, with the three flip flags cleared.
    pub fn gid(&self) -> (r: u32)
        ensures
            r == self@ & GID_MASK,
    {
        let r = self.gid & !(FLIPPED_HORIZONTALLY_FLAG | FLIPPED_VERTICALLY_FLAG
            | FLIPPED_DIAGONALLY_FLAG);
        let g = self.gid;
        assert(g & !(0x8000_0000u32 | 0x4000_0000u32 | 0x2000_0000u32) == g & 0x1FFF_FFFFu32)
            by (bit_vector);
        r
    }

    /// Whether the tile is horizontally flipped.
    pub fn flipped_horizontally(&self) -> (r: bool)
        ensures
            r == (self@ & FLIPPED_HORIZONTALLY_FLAG != 0),
    {
        self.gid & FLIPPED_HORIZONTALLY_FLAG > 0
    }

    /// Whether the tile is vertically flipped.
    pub fn flipped_vertically(&self) -> (r: bool)
        ensures
            r == (self@ & FLIPPED_VERTICALLY_FLAG != 0),
    {
        self.gid & FLIPPED_VERTICALLY_FLAG > 0
    }

    /// Whether the tile is flipped along its anti-diagonal, enabling rotation.
    pub fn flipped_diagonally(&self) -> (r: bool)
        ensures
            r == (self@ & FLIPPED_DIAGONALLY_FLAG != 0),
    {
        self.gid & FLIPPED_DIAGONALLY_FLAG > 0
    }
}

/// The identifier bits and the three flip flags of a raw global id are
/// disjoint, and together they make up the whole value.
pub proof fn tile_bits_partition(t: Tile)
    ensures
        t@ == (t@ & GID_MASK) | (t@ & FLIPPED_HORIZONTALLY_FLAG) | (t@ & FLIPPED_VERTICALLY_FLAG) | (
        t@ & FLIPPED_DIAGONALLY_FLAG),
        (t@ & GID_MASK) & (FLIPPED_HORIZONTALLY_FLAG | FLIPPED_VERTICALLY_FLAG
            | FLIPPED_DIAGONALLY_FLAG) == 0,
{
    let r = t@;
    assert(r == (r & 0x1FFF_FFFFu32) | (r & 0x8000_0000u32) | (r & 0x4000_0000u32) | (r
        & 0x2000_0000u32)) by (bit_vector);
    assert((r & 0x1FFF_FFFFu32) & (0x8000_0000u32 | 0x4000_0000u32 | 0x2000_0000u32) == 0)
        by (bit_vector);
}

/// CSV data takes no compression: `encoding="csv"` with any `compression`
/// value is an invalid combination.
pub proof fn csv_rejects_compression(compression: Seq<char>)
    ensures
        resolve_spec(Some("csv"@), Some(compression)) == Err::<Option<Encoding>, ErrorKind>(
            ErrorKind::InvalidCombination,
        ),
{
}

/// A rectangular piece of an unbounded layer.
#[derive(Debug)]
pub struct Chunk {
    /// The x coordinate of the chunk in tiles.
    pub x: u32,
    /// The y coordinate of the chunk in tiles.
    pub y: u32,
    /// The width of the chunk in tiles.
    pub width: u32,
    /// The height of the chunk in tiles.
    pub height: u32,
    pub tiles: Vec<Tile>,
}

/// The tiles of a layer: one flat list for a bounded map, or chunks for an
/// unbounded one.
#[derive(Debug)]
pub enum DataKind {
    Tiles(Vec<Tile>),
    Chunks(Vec<Chunk>),
}

/// The tile data of a layer, with the encoding it was read from.
#[derive(Debug)]
pub struct Data {
    pub encoding: Option<Encoding>,
    pub kind: DataKind,
}

/// What a chunk holds, as plain values.
pub struct ChunkView {
    pub x: u32,
    pub y: u32,
    pub width: u32,
    pub height: u32,
    pub tiles: Seq<u32>,
}

/// What the tile data of a layer holds, as plain values.
pub enum DataView {
    Tiles(Seq<u32>),
    Chunks(Seq<ChunkView>),
}

impl View for Chunk {
    type V = ChunkView;

    open spec fn view(&self) -> ChunkView {
        ChunkView {
            x: self.x,
            y: self.y,
            width: self.width,
            height: self.height,
            tiles: raws(self.tiles@),
        }
    }
}

impl View for DataKind {
    type V = DataView;

    open spec fn view(&self) -> DataView {
        match self {
            DataKind::Tiles(t) => DataView::Tiles(raws(t@)),
            DataKind::Chunks(c) => DataView::Chunks(c@.map_values(|k: Chunk| k@)),
        }
    }
}

/// A `chunk` element of a data block as the markup gives it: its coordinates,
/// and either nested tiles or a payload text.
#[derive(Debug)]
pub struct RawChunk {
    pub x: u32,
    pub y: u32,
    pub width: u32,
    pub height: u32,
    pub tiles: Option<Vec<Tile>>,
    pub payload: Option<String>,
}

/// A data block as the markup gives it: its `encoding` and `compression`
/// attributes, its `chunk` and `tile` children, and its payload text.
#[derive(Debug)]
pub struct RawData {
    pub encoding: Option<String>,
    pub compression: Option<String>,
    pub chunks: Option<Vec<RawChunk>>,
    pub tiles: Option<Vec<Tile>>,
    pub payload: Option<String>,
}

/// The tile values of one chunk of a block whose resolved encoding is `encoding`:
/// its nested tiles when there is no encoding, else its decoded payload.
pub open spec fn chunk_spec(c: RawChunk, encoding: Option<Encoding>, codecs: Codecs) -> Result<
    ChunkView,
    ErrorKind,
> {
    let tiles = match encoding {
        None => match c.tiles {
            Some(t) => Ok(raws(t@)),
            None => Err(ErrorKind::InvalidTileData),
        },
        Some(e) => match c.payload {
            Some(p) => tile_data_spec(p@, e, codecs),
            None => Err(ErrorKind::MissingChunkData),
        },
    };
    match tiles {
        Ok(t) => Ok(ChunkView { x: c.x, y: c.y, width: c.width, height: c.height, tiles: t }),
        Err(k) => Err(k),
    }
}

/// The chunks of a block, each read on its own, in order; the first failure
/// fails them all.
pub open spec fn chunks_spec(cs: Seq<RawChunk>, encoding: Option<Encoding>, codecs: Codecs) -> Result<
    Seq<ChunkView>,
    ErrorKind,
>
    decreases cs.len(),
{
    if cs.len() == 0 {
        Ok(Seq::empty())
    } else {
        match chunks_spec(cs.drop_last(), encoding, codecs) {
            Err(k) => Err(k),
            Ok(v) => match chunk_spec(cs.last(), encoding, codecs) {
                Err(k) => Err(k),
                Ok(c) => Ok(v.push(c)),
            },
        }
    }
}

/// The content of a data block once its encoding is resolved to `encoding`:
/// nested tiles, nested chunks, an encoded payload, or encoded chunks. Any other
/// combination is invalid.
pub open spec fn layout_spec(raw: RawData, encoding: Option<Encoding>, codecs: Codecs) -> Result<
    DataView,
    ErrorKind,
> {
    match (encoding, raw.chunks, raw.tiles, raw.payload) {
        (None, None, Some(t), None) => Ok(DataView::Tiles(raws(t@))),
        (Some(e), None, None, Some(p)) => match tile_data_spec(p@, e, codecs) {
            Ok(v) => Ok(DataView::Tiles(v)),
            Err(k) => Err(k),
        },
        (_, Some(cs), None, None) => match chunks_spec(cs@, encoding, codecs) {
            Ok(v) => Ok(DataView::Chunks(v)),
            Err(k) => Err(k),
        },
        _ => Err(ErrorKind::InvalidTileData),
    }
}

/// The tile data of a data block: its resolved encoding and its content.
pub open spec fn data_spec(raw: RawData, codecs: Codecs) -> Result<
    (Option<Encoding>, DataView),
    ErrorKind,
> {
    match resolve_spec(opt_view(raw.encoding), opt_view(raw.compression)) {
        Err(k) => Err(k),
        Ok(e) => match layout_spec(raw, e, codecs) {
            Ok(v) => Ok((e, v)),
            Err(k) => Err(k),
        },
    }
}

/// A copy of `v`.
fn copy_tiles(v: &Vec<Tile>) -> (r: Vec<Tile>)
    ensures
        r@ == v@,
{
    let mut out: Vec<Tile> = Vec::new();
    let mut i: usize = 0;
    while i < v.len()
        invariant
            i <= v@.len(),
            out@ == v@.take(i as int),
        decreases v@.len() - i,
    {
        out.push(v[i]);
        i = i + 1;
        assert(out@ =~= v@.take(i as int));
    }
    assert(v@.take(v@.len() as int) =~= v@);
    out
}

/// Whether `e` is a failure of the `encoding` and `compression` declarations.
pub open spec fn is_declaration_error(e: DataError) -> bool {
    ||| e is UnknownEncoding
    ||| e is UnknownCompression
    ||| e is InvalidCombination
}

/// Reads one chunk of a block whose resolved encoding is `encoding`.
fn read_chunk(c: &RawChunk, encoding: Option<Encoding>, codecs: &Codecs) -> (r: Result<
    Chunk,
    DataError,
>)
    ensures
        match r {
            Ok(k) => chunk_spec(*c, encoding, *codecs) == Ok::<ChunkView, ErrorKind>(k@),
            Err(e) => chunk_spec(*c, encoding, *codecs) == Err::<ChunkView, ErrorKind>(
                error_kind(e),
            ),
        },
        r matches Err(e) ==> !is_declaration_error(e),
{
    let tiles = match encoding {
        None => match &c.tiles {
            Some(t) => copy_tiles(t),
            None => return Err(DataError::InvalidTileData),
        },
        Some(e) => match &c.payload {
            Some(p) => match decode_tile_data(p, e, codecs) {
                Ok(t) => t,
                Err(err) => return Err(err),
            },
            None => return Err(DataError::MissingChunkData),
        },
    };
    Ok(Chunk { x: c.x, y: c.y, width: c.width, height: c.height, tiles })
}

/// Reads the chunks of a block whose resolved encoding is `encoding`, in order.
fn read_chunks(cs: &Vec<RawChunk>, encoding: Option<Encoding>, codecs: &Codecs) -> (r: Result<
    Vec<Chunk>,
    DataError,
>)
    ensures
        match r {
            Ok(v) => chunks_spec(cs@, encoding, *codecs) == Ok::<Seq<ChunkView>, ErrorKind>(
                v@.map_values(|k: Chunk| k@),
            ),
            Err(e) => chunks_spec(cs@, encoding, *codecs) == Err::<Seq<ChunkView>, ErrorKind>(
                error_kind(e),
            ),
        },
        r matches Err(e) ==> !is_declaration_error(e),
{
    let mut out: Vec<Chunk> = Vec::new();
    let mut i: usize = 0;
    assert(cs@.take(0) =~= Seq::<RawChunk>::empty());
    assert(out@.map_values(|k: Chunk| k@) =~= Seq::<ChunkView>::empty());
    while i < cs.len()
        invariant
            i <= cs@.len(),
            chunks_spec(cs@.take(i as int), encoding, *codecs) == Ok::<
                Seq<ChunkView>,
                ErrorKind,
            >(out@.map_values(|k: Chunk| k@)),
        decreases cs@.len() - i,
    {
        assert(cs@.take(i + 1).drop_last() =~= cs@.take(i as int));
        match read_chunk(&cs[i], encoding, codecs) {
            Ok(k) => {
                let ghost before = out@;
                out.push(k);
                assert(out@.map_values(|k: Chunk| k@) =~= before.map_values(|k: Chunk| k@).push(
                    k@,
                ));
            },
            Err(e) => {
                proof {
                    lemma_chunks_fail_extends(cs@, i + 1, encoding, *codecs);
                }
                return Err(e);
            },
        }
        i = i + 1;
    }
    assert(cs@.take(cs@.len() as int) =~= cs@);
    Ok(out)
}

/// A failure among the first chunks is a failure of them all.
proof fn lemma_chunks_fail_extends(cs: Seq<RawChunk>, m: int, encoding: Option<Encoding>, codecs: Codecs)
    requires
        0 <= m <= cs.len(),
        chunks_spec(cs.take(m), encoding, codecs) is Err,
    ensures
        chunks_spec(cs, encoding, codecs) == chunks_spec(cs.take(m), encoding, codecs),
    decreases cs.len(),
{
    if cs.len() == m {
        assert(cs.take(m) =~= cs);
    } else {
        assert(cs.drop_last().take(m) =~= cs.take(m));
        lemma_chunks_fail_extends(cs.drop_last(), m, encoding, codecs);
    }
}

/// Each chunk is read on its own: when the chunks of a block are read without
/// failure there is one entry per `chunk` element, in order, and each is what
/// that element alone gives, its coordinates and its own tiles.
pub proof fn chunks_read_independently(cs: Seq<RawChunk>, encoding: Option<Encoding>, codecs: Codecs)
    requires
        chunks_spec(cs, encoding, codecs) is Ok,
    ensures
        chunks_spec(cs, encoding, codecs)->Ok_0.len() == cs.len(),
        forall|i: int|
            0 <= i < cs.len() ==> chunk_spec(#[trigger] cs[i], encoding, codecs) == Ok::<
                ChunkView,
                ErrorKind,
            >(chunks_spec(cs, encoding, codecs)->Ok_0[i]),
        forall|i: int|
            0 <= i < cs.len() ==> {
                let v = #[trigger] chunks_spec(cs, encoding, codecs)->Ok_0[i];
                v.x == cs[i].x && v.y == cs[i].y && v.width == cs[i].width && v.height
                    == cs[i].height
            },
    decreases cs.len(),
{
    if cs.len() > 0 {
        chunks_read_independently(cs.drop_last(), encoding, codecs);
        let v = chunks_spec(cs, encoding, codecs)->Ok_0;
        let w = chunks_spec(cs.drop_last(), encoding, codecs)->Ok_0;
        assert forall|i: int| 0 <= i < cs.len() implies chunk_spec(#[trigger] cs[i], encoding, codecs)
            == Ok::<ChunkView, ErrorKind>(v[i]) by {
            if i < cs.len() - 1 {
                assert(cs.drop_last()[i] == cs[i]);
                assert(v[i] == w[i]);
            }
        }
    }
}

/// A block whose `chunk` elements are all read without failure becomes chunked
/// data with one chunk per element, in order, each holding that element's
/// coordinates and its own tiles.
pub proof fn chunked_block_keeps_chunks(raw: RawData, codecs: Codecs)
    requires
        raw.chunks is Some,
        raw.tiles is None,
        raw.payload is None,
        resolve_spec(opt_view(raw.encoding), opt_view(raw.compression)) is Ok,
        chunks_spec(
            raw.chunks->0@,
            resolve_spec(opt_view(raw.encoding), opt_view(raw.compression))->Ok_0,
            codecs,
        ) is Ok,
    ensures
        ({
            let e = resolve_spec(opt_view(raw.encoding), opt_view(raw.compression))->Ok_0;
            let cs = raw.chunks->0@;
            &&& data_spec(raw, codecs) is Ok
            &&& data_spec(raw, codecs)->Ok_0.0 == e
            &&& data_spec(raw, codecs)->Ok_0.1 is Chunks
            &&& data_spec(raw, codecs)->Ok_0.1->Chunks_0.len() == cs.len()
            &&& forall|i: int|
                0 <= i < cs.len() ==> chunk_spec(#[trigger] cs[i], e, codecs) == Ok::<
                    ChunkView,
                    ErrorKind,
                >(data_spec(raw, codecs)->Ok_0.1->Chunks_0[i])
        }),
{
    let e = resolve_spec(opt_view(raw.encoding), opt_view(raw.compression))->Ok_0;
    chunks_read_independently(raw.chunks->0@, e, codecs);
}

impl Data {
    /// Reads a data block: resolves its encoding, then builds flat tiles or
    /// chunks from nested elements or from decoded payload text. The first
    /// failure fails the whole block.
    pub fn from_raw(raw: &RawData, codecs: &Codecs) -> (r: Result<Data, DataError>)
        ensures
            match r {
                Ok(d) => data_spec(*raw, *codecs) == Ok::<
                    (Option<Encoding>, DataView),
                    ErrorKind,
                >((d.encoding, d.kind@)),
                Err(e) => data_spec(*raw, *codecs) == Err::<
                    (Option<Encoding>, DataView),
                    ErrorKind,
                >(error_kind(e)),
            },
            r matches Err(DataError::UnknownEncoding(v)) ==> Some(v@) == opt_view(raw.encoding),
            r matches Err(DataError::UnknownCompression(v)) ==> Some(v@) == opt_view(
                raw.compression,
            ),
            r matches Err(DataError::InvalidCombination(v)) ==> Some(v@) == opt_view(
                raw.compression,
            ),
    {
        let encoding = match resolve_encoding(&raw.encoding, &raw.compression) {
            Ok(e) => e,
            Err(e) => return Err(e),
        };
        let kind = match (encoding, &raw.chunks, &raw.tiles, &raw.payload) {
            (None, None, Some(t), None) => DataKind::Tiles(copy_tiles(t)),
            (Some(e), None, None, Some(p)) => match decode_tile_data(p, e, codecs) {
                Ok(t) => DataKind::Tiles(t),
                Err(err) => return Err(err),
            },
            (_, Some(cs), None, None) => match read_chunks(cs, encoding, codecs) {
                Ok(v) => DataKind::Chunks(v),
                Err(err) => return Err(err),
            },
            _ => return Err(DataError::InvalidTileData),
        };
        Ok(Data { encoding, kind })
    }
}

/// The default visibility of a layer: visible.
pub fn default_visible() -> (r: bool)
    ensures
        r,
{
    true
}

} // verus!
