use vstd::prelude::*;

use crate::csv::{csv_values, parse_csv};
use crate::layer::{Codecs, Compression, DataError, Encoding, ErrorKind, Tile, error_kind};
use crate::text::{chars_of, trim, trim_bounds};

verus! {

/// The bytes that the base64 text `s` encodes, if it is valid base64.
pub uninterp spec fn base64_decoded(s: Seq<char>) -> Option<Seq<u8>>;

/// The bytes held in the gzip stream `b`, if it is a valid one.
pub uninterp spec fn gzip_decoded(b: Seq<u8>) -> Option<Seq<u8>>;

/// The bytes held in the zlib stream `b`, if it is a valid one.
pub uninterp spec fn zlib_decoded(b: Seq<u8>) -> Option<Seq<u8>>;

/// The bytes held in the zstd stream `b`, if it is a valid one.
pub uninterp spec fn zstd_decoded(b: Seq<u8>) -> Option<Seq<u8>>;

/// Relies on `base64::decode` (standard alphabet): the bytes that `s` encodes, or
/// an error, as a function of `s` alone. Its length arithmetic cannot overflow
/// for the byte length of any string.
#[verifier::external_body]
fn decode_base64(s: &str) -> (r: Result<Vec<u8>, String>)
    ensures
        match r {
            Ok(b) => base64_decoded(s@) == Some(b@),
            Err(_) => base64_decoded(s@) is None,
        },
{
    base64::decode(s.as_bytes()).map_err(|e| e.to_string())
}

/// Relies on `libflate::gzip::Decoder` read to its end: the bytes of the gzip
/// stream `data`, or an error, as a function of `data` alone.
#[verifier::external_body]
fn decode_gzip(data: &Vec<u8>) -> (r: Result<Vec<u8>, String>)
    ensures
        match r {
            Ok(b) => gzip_decoded(data@) == Some(b@),
            Err(_) => gzip_decoded(data@) is None,
        },
{
    let mut decoder = match libflate::gzip::Decoder::new(data.as_slice()) {
        Ok(d) => d,
        Err(e) => return Err(e.to_string()),
    };
    let mut out = Vec::new();
    match std::io::Read::read_to_end(&mut decoder, &mut out) {
        Ok(_) => Ok(out),
        Err(e) => Err(e.to_string()),
    }
}

/// Relies on `libflate::zlib::Decoder` read to its end: the bytes of the zlib
/// stream `data`, or an error, as a function of `data` alone.
#[verifier::external_body]
fn decode_zlib(data: &Vec<u8>) -> (r: Result<Vec<u8>, String>)
    ensures
        match r {
            Ok(b) => zlib_decoded(data@) == Some(b@),
            Err(_) => zlib_decoded(data@) is None,
        },
{
    let mut decoder = match libflate::zlib::Decoder::new(data.as_slice()) {
        Ok(d) => d,
        Err(e) => return Err(e.to_string()),
    };
    let mut out = Vec::new();
    match std::io::Read::read_to_end(&mut decoder, &mut out) {
        Ok(_) => Ok(out),
        Err(e) => Err(e.to_string()),
    }
}

/// Relies on `zstd::stream::decode_all`: the bytes of the zstd stream `data`, or
/// an error, as a function of `data` alone.
#[verifier::external_body]
fn decode_zstd(data: &Vec<u8>) -> (r: Result<Vec<u8>, String>)
    ensures
        match r {
            Ok(b) => zstd_decoded(data@) == Some(b@),
            Err(_) => zstd_decoded(data@) is None,
        },
{
    zstd::stream::decode_all(data.as_slice()).map_err(|e| e.to_string())
}

/// What the decompressor for `c` makes of `b`.
pub open spec fn decompressed(c: Compression, b: Seq<u8>) -> Option<Seq<u8>> {
    match c {
        Compression::GZip => gzip_decoded(b),
        Compression::ZLib => zlib_decoded(b),
        Compression::ZStd => zstd_decoded(b),
    }
}

/// The little-endian 32-bit value of four bytes.
pub open spec fn le_u32(b0: u8, b1: u8, b2: u8, b3: u8) -> u32 {
    (b0 as int + b1 as int * 0x100 + b2 as int * 0x1_0000 + b3 as int * 0x100_0000) as u32
}

/// The little-endian 32-bit values that `b` holds, four bytes each, in order;
/// none when its length is not a multiple of four.
pub open spec fn le_words(b: Seq<u8>) -> Option<Seq<u32>> {
    if b.len() % 4 == 0 {
        Some(
            Seq::new(
                b.len() / 4,
                |i: int| le_u32(b[4 * i], b[4 * i + 1], b[4 * i + 2], b[4 * i + 3]),
            ),
        )
    } else {
        None
    }
}

/// Byte `k` (0 to 3, least significant first) of `x`.
pub open spec fn byte_of(x: u32, k: int) -> u8 {
    if k == 0 {
        (x & 0xff) as u8
    } else if k == 1 {
        ((x >> 8u32) & 0xff) as u8
    } else if k == 2 {
        ((x >> 16u32) & 0xff) as u8
    } else {
        ((x >> 24u32) & 0xff) as u8
    }
}

/// The little-endian bytes of `v`, four per value, in order.
pub open spec fn le_bytes(v: Seq<u32>) -> Seq<u8> {
    Seq::new(4 * v.len(), |i: int| byte_of(v[i / 4], i % 4))
}

proof fn lemma_le_u32_of_bytes(x: u32)
    ensures
        le_u32(byte_of(x, 0), byte_of(x, 1), byte_of(x, 2), byte_of(x, 3)) == x,
{
    let b0 = byte_of(x, 0);
    let b1 = byte_of(x, 1);
    let b2 = byte_of(x, 2);
    let b3 = byte_of(x, 3);
    assert(b0 as int + b1 as int * 0x100 + b2 as int * 0x1_0000 + b3 as int * 0x100_0000 == x)
        by (bit_vector)
        requires
            b0 == (x & 0xff) as u8,
            b1 == ((x >> 8u32) & 0xff) as u8,
            b2 == ((x >> 16u32) & 0xff) as u8,
            b3 == ((x >> 24u32) & 0xff) as u8,
    ;
}

/// Reading back the little-endian bytes of `v` gives `v`.
proof fn lemma_le_words_of_bytes(v: Seq<u32>)
    ensures
        le_words(le_bytes(v)) == Some(v),
{
    let b = le_bytes(v);
    assert(b.len() % 4 == 0);
    let w = le_words(b)->0;
    assert(w.len() == v.len());
    assert forall|i: int| 0 <= i < v.len() implies w[i] == v[i] by {
        assert((4 * i) / 4 == i && (4 * i) % 4 == 0) by (nonlinear_arith);
        assert((4 * i + 1) / 4 == i && (4 * i + 1) % 4 == 1) by (nonlinear_arith);
        assert((4 * i + 2) / 4 == i && (4 * i + 2) % 4 == 2) by (nonlinear_arith);
        assert((4 * i + 3) / 4 == i && (4 * i + 3) % 4 == 3) by (nonlinear_arith);
        assert(4 * i + 3 < 4 * v.len()) by (nonlinear_arith)
            requires
                i < v.len(),
        ;
        lemma_le_u32_of_bytes(v[i]);
    }
    assert(w =~= v);
}

/// Splits `data` into little-endian 32-bit values, four bytes each, in order.
/// Fails with the length of `data` when it is not a multiple of four.
pub fn parse_base64_data(data: &Vec<u8>) -> (r: Result<Vec<u32>, usize>)
    ensures
        match r {
            Ok(v) => le_words(data@) == Some(v@),
            Err(n) => le_words(data@) is None && n == data@.len(),
        },
{
    let n = data.len();
    if n % 4 != 0 {
        return Err(n);
    }
    let mut out: Vec<u32> = Vec::new();
    let mut i: usize = 0;
    while i < n / 4
        invariant
            n == data@.len(),
            n % 4 == 0,
            i <= n / 4,
            out@.len() == i,
            forall|j: int|
                0 <= j < i ==> #[trigger] out@[j] == le_u32(
                    data@[4 * j],
                    data@[4 * j + 1],
                    data@[4 * j + 2],
                    data@[4 * j + 3],
                ),
        decreases n / 4 - i,
    {
        let k = 4 * i;
        let v = data[k] as u32 + data[k + 1] as u32 * 0x100 + data[k + 2] as u32 * 0x1_0000
            + data[k + 3] as u32 * 0x100_0000;
        out.push(v);
        i = i + 1;
    }
    assert(out@ =~= le_words(data@)->0);
    Ok(out)
}

/// The raw values of `tiles`.
pub open spec fn raws(tiles: Seq<Tile>) -> Seq<u32> {
    tiles.map_values(|t: Tile| t@)
}

/// Tiles holding the raw values `v`, in order.
pub fn tiles_of(v: &Vec<u32>) -> (r: Vec<Tile>)
    ensures
        raws(r@) == v@,
{
    let mut out: Vec<Tile> = Vec::new();
    let mut i: usize = 0;
    while i < v.len()
        invariant
            i <= v@.len(),
            out@.len() == i,
            forall|j: int| 0 <= j < i ==> (#[trigger] out@[j])@ == v@[j],
        decreases v@.len() - i,
    {
        out.push(Tile::new(v[i]));
        i = i + 1;
    }
    assert(raws(out@) =~= v@);
    out
}

/// The bytes that the binary path yields from the base64 text `s` before they are
/// split into values: decoded, then decompressed when a compression is set.
pub open spec fn binary_bytes(s: Seq<char>, compression: Option<Compression>, codecs: Codecs) -> Result<
    Seq<u8>,
    ErrorKind,
> {
    match base64_decoded(trim(s)) {
        None => Err(ErrorKind::Base64Decode),
        Some(b) => match compression {
            None => Ok(b),
            Some(c) => if !codecs.has(c) {
                Err(ErrorKind::DecoderUnavailable(c))
            } else {
                match decompressed(c, b) {
                    Some(d) => Ok(d),
                    None => Err(ErrorKind::CompressionDecode),
                }
            },
        },
    }
}

/// The raw tile values that the payload `s` of a data block written with
/// `encoding` holds, or the kind of failure.
pub open spec fn tile_data_spec(s: Seq<char>, encoding: Encoding, codecs: Codecs) -> Result<
    Seq<u32>,
    ErrorKind,
> {
    match encoding {
        Encoding::CSV => match csv_values(s) {
            Some(v) => Ok(v),
            None => Err(ErrorKind::CsvParse),
        },
        Encoding::Base64(c) => match binary_bytes(s, c, codecs) {
            Err(k) => Err(k),
            Ok(b) => match le_words(b) {
                Some(v) => Ok(v),
                None => Err(ErrorKind::MisalignedData),
            },
        },
    }
}

/// CSV and binary data agree: when a CSV text and a base64 text (compressed or
/// not) stand for the same tile values, the first as decimal numbers and the
/// second as their little-endian bytes, both decode to those values, in order.
pub proof fn csv_and_binary_agree(
    csv: Seq<char>,
    binary: Seq<char>,
    compression: Option<Compression>,
    codecs: Codecs,
    values: Seq<u32>,
)
    requires
        csv_values(csv) == Some(values),
        binary_bytes(binary, compression, codecs) == Ok::<Seq<u8>, ErrorKind>(le_bytes(values)),
    ensures
        tile_data_spec(csv, Encoding::CSV, codecs) == Ok::<Seq<u32>, ErrorKind>(values),
        tile_data_spec(binary, Encoding::Base64(compression), codecs) == Ok::<
            Seq<u32>,
            ErrorKind,
        >(values),
{
    lemma_le_words_of_bytes(values);
}

/// Whether `r` is what decoding the payload `data` written with `encoding` gives.
pub open spec fn is_tile_data_result(
    data: Seq<char>,
    encoding: Encoding,
    codecs: Codecs,
    r: Result<Vec<Tile>, DataError>,
) -> bool {
    match r {
        Ok(t) => tile_data_spec(data, encoding, codecs) == Ok::<Seq<u32>, ErrorKind>(raws(t@)),
        Err(e) => tile_data_spec(data, encoding, codecs) == Err::<Seq<u32>, ErrorKind>(
            error_kind(e),
        ),
    }
}

/// Decoding carries no state from one call to the next: two decodes of the same
/// payload give the same tile values, or the same kind of failure.
pub proof fn decode_is_repeatable(
    data: Seq<char>,
    encoding: Encoding,
    codecs: Codecs,
    first: Result<Vec<Tile>, DataError>,
    second: Result<Vec<Tile>, DataError>,
)
    requires
        is_tile_data_result(data, encoding, codecs, first),
        is_tile_data_result(data, encoding, codecs, second),
    ensures
        first is Ok <==> second is Ok,
        first is Ok ==> raws(first->Ok_0@) == raws(second->Ok_0@),
        first is Err ==> error_kind(first->Err_0) == error_kind(second->Err_0),
{
}

/// The decompressed form of `b`, using the decompressor for `c`.
fn decompress(c: Compression, b: &Vec<u8>) -> (r: Result<Vec<u8>, String>)
    ensures
        match r {
            Ok(d) => decompressed(c, b@) == Some(d@),
            Err(_) => decompressed(c, b@) is None,
        },
{
    match c {
        Compression::GZip => decode_gzip(b),
        Compression::ZLib => decode_zlib(b),
        Compression::ZStd => decode_zstd(b),
    }
}

/// Decodes the payload text of a data block written with `encoding` into its
/// tiles, in order. The decode is all or nothing: on failure no tile is returned.
pub fn decode_tile_data(data: &str, encoding: Encoding, codecs: &Codecs) -> (r: Result<
    Vec<Tile>,
    DataError,
>)
    ensures
        is_tile_data_result(data@, encoding, *codecs, r),
{
    let chars = chars_of(data);
    match encoding {
        Encoding::CSV => match parse_csv(&chars) {
            Some(v) => Ok(tiles_of(&v)),
            None => Err(DataError::CsvParse),
        },
        Encoding::Base64(compression) => {
            let (a, b) = trim_bounds(&chars, 0, chars.len());
            assert(chars@.subrange(0, chars@.len() as int) =~= data@);
            let text = data.substring_char(a, b);
            let decoded = match decode_base64(text) {
                Ok(d) => d,
                Err(m) => return Err(DataError::Base64Decode(m)),
            };
            let bytes = match compression {
                None => decoded,
                Some(c) => {
                    if !codecs.supports(c) {
                        return Err(DataError::DecoderUnavailable(c));
                    }
                    match decompress(c, &decoded) {
                        Ok(d) => d,
                        Err(m) => return Err(DataError::CompressionDecode(m)),
                    }
                },
            };
            match parse_base64_data(&bytes) {
                Ok(v) => Ok(tiles_of(&v)),
                Err(n) => Err(DataError::MisalignedData(n)),
            }
        },
    }
}

} // verus!
