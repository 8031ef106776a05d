//! Decompression front end: format names, gzip and zlib framing, and
//! dispatch to the DEFLATE and Brotli decoders.
use std::io::Read;
use vstd::prelude::*;
use vstd::slice::slice_to_vec;
use vstd::string::StringSliceAdditionalSpecFns;

verus! {

/// Errors of the DEFLATE front end. Damage inside a compressed stream is
/// reported as `InvalidData`; the finer kinds of damage have their own
/// variants for callers that tell them apart.
#[derive(Debug, Clone, Copy, PartialEq, Eq, Structural)]
pub enum FFlateError {
    /// The input ended before a complete header or trailer.
    UnexpectedEof,
    /// A block announced a type that does not exist.
    InvalidBlockType,
    /// A literal or length code was out of range.
    InvalidLengthLiteral,
    /// A back-reference pointed outside the data.
    InvalidDistance,
    /// The gzip or zlib header is malformed, or a dictionary was given for a
    /// stream that does not take one.
    InvalidHeader,
    /// The compressed stream itself could not be decoded.
    InvalidData,
}

/// Errors of [`decompress_data`].
#[derive(Debug, Clone, Copy, PartialEq, Eq, Structural)]
pub enum CompressError {
    /// Brotli is not available.
    UnimplementedBrotli,
    /// Zstd is not available.
    UnimplementedZstd,
    /// An error of the DEFLATE front end.
    FFlate(FFlateError),
    /// A zip archive has a bad format.
    BadZipFormat,
    /// A zip archive spans several disks.
    ZipMultiDiskNotSupported,
    /// A zip entry uses an unknown compression method.
    InvalidCompressionMethod,
    /// Reading failed.
    ReadError,
    /// Writing failed.
    WriteError,
    /// Anything else.
    Other,
}

impl From<FFlateError> for CompressError {
    fn from(err: FFlateError) -> (r: CompressError)
        ensures
            r == CompressError::FFlate(err),
    {
        CompressError::FFlate(err)
    }
}

impl vstd::std_specs::convert::FromSpecImpl<FFlateError> for CompressError {
    open spec fn obeys_from_spec() -> bool {
        true
    }

    open spec fn from_spec(err: FFlateError) -> CompressError {
        CompressError::FFlate(err)
    }
}

/// Compression formats.
#[derive(Debug, Clone, Copy, PartialEq, Eq, Structural)]
pub enum CompressionFormat {
    /// No compression.
    Uncompressed,
    /// Gzip.
    Gzip,
    /// Zlib-wrapped DEFLATE.
    Deflate,
    /// DEFLATE without a wrapper.
    DeflateRaw,
    /// Brotli.
    Brotli,
    /// Zstd.
    Zstd,
}

/// The format named by `s`; unknown names mean no compression.
pub open spec fn format_named(s: Seq<char>) -> CompressionFormat {
    if s == seq!['g', 'z', 'i', 'p'] {
        CompressionFormat::Gzip
    } else if s == seq!['d', 'e', 'f', 'l', 'a', 't', 'e'] {
        CompressionFormat::Deflate
    } else if s == seq!['d', 'e', 'f', 'l', 'a', 't', 'e', '-', 'r', 'a', 'w'] {
        CompressionFormat::DeflateRaw
    } else if s == seq!['b', 'r', 'o', 't', 'l', 'i'] {
        CompressionFormat::Brotli
    } else if s == seq!['z', 's', 't', 'd'] {
        CompressionFormat::Zstd
    } else {
        CompressionFormat::Uncompressed
    }
}

/// Whether the bytes of `a` are those of the text `b`.
fn bytes_eq(a: &[u8], b: &str) -> (r: bool)
    ensures
        r == (a@ == b.spec_bytes()),
{
    let bb = b.as_bytes();
    if a.len() != bb.len() {
        return false;
    }
    let mut i: usize = 0;
    while i < a.len()
        invariant
            a@.len() == bb@.len(),
            bb@ == b.spec_bytes(),
            0 <= i <= a@.len(),
            forall|k: int| 0 <= k < i ==> a@[k] == bb@[k],
        decreases a@.len() - i,
    {
        if a[i] != bb[i] {
            return false;
        }
        i = i + 1;
    }
    proof {
        assert(a@ =~= bb@);
    }
    true
}

impl CompressionFormat {
    /// The format named by `s` (`gzip`, `deflate`, `deflate-raw`, `brotli`,
    /// `zstd`); any other name means no compression.
    pub fn from_name(s: &str) -> (r: CompressionFormat)
        ensures
            r == format_named(s@),
    {
        let b = s.as_bytes();
        proof {
            reveal_strlit("gzip");
            reveal_strlit("deflate");
            reveal_strlit("deflate-raw");
            reveal_strlit("brotli");
            reveal_strlit("zstd");
            vstd::utf8::encode_utf8_decode_utf8(s@);
            vstd::utf8::encode_utf8_decode_utf8("gzip"@);
            vstd::utf8::encode_utf8_decode_utf8("deflate"@);
            vstd::utf8::encode_utf8_decode_utf8("deflate-raw"@);
            vstd::utf8::encode_utf8_decode_utf8("brotli"@);
            vstd::utf8::encode_utf8_decode_utf8("zstd"@);
            assert("gzip"@ =~= seq!['g', 'z', 'i', 'p']);
            assert("deflate"@ =~= seq!['d', 'e', 'f', 'l', 'a', 't', 'e']);
            assert("deflate-raw"@ =~= seq!['d', 'e', 'f', 'l', 'a', 't', 'e', '-', 'r', 'a', 'w']);
            assert("brotli"@ =~= seq!['b', 'r', 'o', 't', 'l', 'i']);
            assert("zstd"@ =~= seq!['z', 's', 't', 'd']);
        }
        if bytes_eq(b, "gzip") {
            CompressionFormat::Gzip
        } else if bytes_eq(b, "deflate") {
            CompressionFormat::Deflate
        } else if bytes_eq(b, "deflate-raw") {
            CompressionFormat::DeflateRaw
        } else if bytes_eq(b, "brotli") {
            CompressionFormat::Brotli
        } else if bytes_eq(b, "zstd") {
            CompressionFormat::Zstd
        } else {
            CompressionFormat::Uncompressed
        }
    }
}

impl<'a> From<&'a str> for CompressionFormat {
    fn from(s: &'a str) -> (r: CompressionFormat)
        ensures
            r == format_named(s@),
    {
        CompressionFormat::from_name(s)
    }
}

impl<'a> vstd::std_specs::convert::FromSpecImpl<&'a str> for CompressionFormat {
    open spec fn obeys_from_spec() -> bool {
        true
    }

    open spec fn from_spec(s: &'a str) -> CompressionFormat {
        format_named(s@)
    }
}

/// What decoding `data` as one raw DEFLATE stream yields, when it decodes.
pub uninterp spec fn deflate_decoded(data: Seq<u8>) -> Option<Seq<u8>>;

/// What the Brotli decoder yields from `data` before the stream ends or
/// fails.
pub uninterp spec fn brotli_decoded(data: Seq<u8>) -> Seq<u8>;

/// Relies on flate2::read::DeflateDecoder: decodes one raw DEFLATE stream;
/// the outcome depends on the bytes alone.
#[verifier::external_body]
fn inflate_raw(data: &[u8]) -> (r: Option<Vec<u8>>)
    ensures
        match r {
            Some(v) => deflate_decoded(data@) == Some(v@),
            None => deflate_decoded(data@) is None,
        },
{
    let mut out = Vec::new();
    match flate2::read::DeflateDecoder::new(data).read_to_end(&mut out) {
        Ok(_) => Some(out),
        Err(_) => None,
    }
}

/// What decoding `data` as one gzip member yields, when it decodes and its
/// trailer checks out.
pub uninterp spec fn gzip_decoded(data: Seq<u8>) -> Option<Seq<u8>>;

/// What decoding `data` as one zlib stream yields, when it decodes and its
/// checksum checks out.
pub uninterp spec fn zlib_decoded(data: Seq<u8>) -> Option<Seq<u8>>;

/// Relies on flate2::read::GzDecoder: decodes one gzip member, checking its
/// header and its CRC and length trailer; the outcome depends on the bytes
/// alone.
#[verifier::external_body]
fn gunzip_checked(data: &[u8]) -> (r: Option<Vec<u8>>)
    ensures
        match r {
            Some(v) => gzip_decoded(data@) == Some(v@),
            None => gzip_decoded(data@) is None,
        },
{
    let mut out = Vec::new();
    match flate2::read::GzDecoder::new(data).read_to_end(&mut out) {
        Ok(_) => Some(out),
        Err(_) => None,
    }
}

/// Relies on flate2::read::ZlibDecoder: decodes one zlib stream, checking
/// its header and its Adler-32 trailer; the outcome depends on the bytes
/// alone.
#[verifier::external_body]
fn unzlib_checked(data: &[u8]) -> (r: Option<Vec<u8>>)
    ensures
        match r {
            Some(v) => zlib_decoded(data@) == Some(v@),
            None => zlib_decoded(data@) is None,
        },
{
    let mut out = Vec::new();
    match flate2::read::ZlibDecoder::new(data).read_to_end(&mut out) {
        Ok(_) => Some(out),
        Err(_) => None,
    }
}

/// Relies on brotli::Decompressor: the bytes it yields from `data` until the
/// stream ends or fails. On a failing stream the output of the failing read
/// is dropped, so the result depends on the bytes and on the read sizes,
/// which are fixed for one build.
#[verifier::external_body]
fn brotli_decode(data: &[u8]) -> (r: Vec<u8>)
    ensures
        r@ == brotli_decoded(data@),
{
    let mut out = Vec::new();
    let _ = brotli::Decompressor::new(data, 4096).read_to_end(&mut out);
    out
}

/// The size of the DEFLATE history window.
pub const WINDOW_SIZE: usize = 32768;

/// The part of a preset dictionary that a DEFLATE stream can refer to: its
/// last 32768 bytes.
pub open spec fn window_of(dict: Seq<u8>) -> Seq<u8> {
    if dict.len() > WINDOW_SIZE {
        dict.subrange(dict.len() - WINDOW_SIZE, dict.len() as int)
    } else {
        dict
    }
}

/// `data` preceded by a non-final stored block that holds `w`, so that the
/// stream starts with `w` in its history.
pub open spec fn with_window(data: Seq<u8>, w: Seq<u8>) -> Seq<u8> {
    seq![
        0u8,
        (w.len() % 256) as u8,
        (w.len() / 256) as u8,
        (255 - w.len() % 256) as u8,
        (255 - w.len() / 256) as u8,
    ] + w + data
}

/// The result of inflating raw DEFLATE `data` with an optional preset
/// dictionary.
pub open spec fn inflate_spec(data: Seq<u8>, dict: Option<Seq<u8>>) -> Result<Seq<u8>, FFlateError> {
    if data.len() == 0 {
        Ok(Seq::empty())
    } else {
        match dict {
            None => match deflate_decoded(data) {
                Some(v) => Ok(v),
                None => Err(FFlateError::InvalidData),
            },
            Some(d) => {
                let w = window_of(d);
                match deflate_decoded(with_window(data, w)) {
                    Some(v) => if v.len() >= w.len() {
                        Ok(v.subrange(w.len() as int, v.len() as int))
                    } else {
                        Err(FFlateError::InvalidData)
                    },
                    None => Err(FFlateError::InvalidData),
                }
            },
        }
    }
}

/// The view of an optional byte slice.
pub open spec fn opt_view(dict: Option<&[u8]>) -> Option<Seq<u8>> {
    match dict {
        Some(d) => Some(d@),
        None => None,
    }
}

/// The index just past the first zero byte at or after `st`.
pub open spec fn zero_end(d: Seq<u8>, st: int) -> Option<int>
    decreases d.len() - st,
{
    if st < 0 || st >= d.len() {
        None
    } else if d[st] == 0 {
        Some(st + 1)
    } else {
        zero_end(d, st + 1)
    }
}

/// Skips a zero-terminated field when `present`.
pub open spec fn skip_field(d: Seq<u8>, st: Option<int>, present: bool) -> Option<int> {
    match st {
        None => None,
        Some(x) => if present {
            zero_end(d, x)
        } else {
            Some(x)
        },
    }
}

/// Where the compressed data of a gzip member starts: after the ten fixed
/// bytes, the extra field, the name, the comment and the header checksum
/// that the flags announce; `None` for a malformed header or one that runs
/// past the end of the data.
pub open spec fn gzip_start(d: Seq<u8>) -> Option<int> {
    if d.len() < 10 || d[0] != 31 || d[1] != 139 || d[2] != 8 {
        None
    } else {
        let flg = d[3];
        let extra: Option<int> = if (flg / 4) % 2 == 1 {
            if d.len() < 12 {
                None
            } else {
                Some(10 + d[10] + 256 * d[11] + 2)
            }
        } else {
            Some(10)
        };
        let named = skip_field(d, extra, (flg / 8) % 2 == 1);
        match skip_field(d, named, (flg / 16) % 2 == 1) {
            None => None,
            Some(x) => if x + 2 * ((flg / 2) % 2) > d.len() {
                None
            } else {
                Some(x + 2 * ((flg / 2) % 2))
            },
        }
    }
}

/// Whether the first two bytes form a zlib header: method 8, a window of
/// at most 32K and a check value that makes them a multiple of 31.
pub open spec fn zlib_header_ok(d: Seq<u8>) -> bool {
    d.len() >= 2 && d[0] % 16 == 8 && d[0] / 16 <= 7 && (d[0] * 256 + d[1]) % 31 == 0
}

/// Whether a zlib header announces a preset dictionary.
pub open spec fn zlib_has_dict(d: Seq<u8>) -> bool {
    (d[1] / 32) % 2 == 1
}

pub open spec fn gunzip_spec(d: Seq<u8>, dict: Option<Seq<u8>>) -> Result<Seq<u8>, FFlateError> {
    match gzip_start(d) {
        None => Err(FFlateError::InvalidHeader),
        Some(st) => if st + 8 > d.len() {
            Err(FFlateError::UnexpectedEof)
        } else {
            inflate_spec(d.subrange(st, d.len() - 8), dict)
        },
    }
}

pub open spec fn unzlib_spec(d: Seq<u8>, dict: Option<Seq<u8>>) -> Result<Seq<u8>, FFlateError> {
    if d.len() < 2 {
        Err(FFlateError::UnexpectedEof)
    } else if !zlib_header_ok(d) || (!zlib_has_dict(d) && dict is Some) {
        Err(FFlateError::InvalidHeader)
    } else {
        let st: int = if zlib_has_dict(d) {
            6
        } else {
            2
        };
        if st + 4 > d.len() {
            Err(FFlateError::UnexpectedEof)
        } else {
            inflate_spec(d.subrange(st, d.len() - 4), dict)
        }
    }
}

pub open spec fn decompress_sync_spec(d: Seq<u8>, dict: Option<Seq<u8>>) -> Result<Seq<u8>, FFlateError> {
    if d.len() < 3 {
        Err(FFlateError::UnexpectedEof)
    } else if d[0] == 31 && d[1] == 139 && d[2] == 8 {
        gunzip_spec(d, dict)
    } else if !zlib_header_ok(d) {
        inflate_spec(d, dict)
    } else {
        unzlib_spec(d, dict)
    }
}

/// The view of a decoding result.
pub open spec fn result_view(r: Result<Vec<u8>, FFlateError>) -> Result<Seq<u8>, FFlateError> {
    match r {
        Ok(v) => Ok(v@),
        Err(e) => Err(e),
    }
}

/// Inflates raw DEFLATE data; a preset dictionary is placed in the history
/// ahead of the stream and its bytes are dropped from the output.
fn inflate_with(data: &[u8], dict: Option<&[u8]>) -> (r: Result<Vec<u8>, FFlateError>)
    ensures
        result_view(r) == inflate_spec(data@, opt_view(dict)),
{
    if data.len() == 0 {
        return Ok(Vec::new());
    }
    match dict {
        None => match inflate_raw(data) {
            Some(v) => Ok(v),
            None => Err(FFlateError::InvalidData),
        },
        Some(d) => {
            let w: &[u8] = if d.len() > WINDOW_SIZE {
                &d[d.len() - WINDOW_SIZE..d.len()]
            } else {
                d
            };
            let wl = w.len();
            let mut framed: Vec<u8> = Vec::new();
            framed.push(0);
            framed.push((wl % 256) as u8);
            framed.push((wl / 256) as u8);
            framed.push((255 - wl % 256) as u8);
            framed.push((255 - wl / 256) as u8);
            framed.extend_from_slice(w);
            framed.extend_from_slice(data);
            proof {
                assert(framed@ =~= with_window(data@, w@));
            }
            match inflate_raw(framed.as_slice()) {
                Some(v) => {
                    if v.len() >= wl {
                        let out = slice_to_vec(&v.as_slice()[wl..v.len()]);
                        Ok(out)
                    } else {
                        Err(FFlateError::InvalidData)
                    }
                },
                None => Err(FFlateError::InvalidData),
            }
        },
    }
}

/// Skips to just past the first zero byte at or after `st`.
fn skip_zero_field(d: &[u8], st: usize) -> (r: Option<usize>)
    ensures
        match r {
            Some(x) => zero_end(d@, st as int) == Some(x as int),
            None => zero_end(d@, st as int) is None,
        },
{
    let mut i = st;
    while i < d.len() && d[i] != 0
        invariant
            st <= i,
            zero_end(d@, st as int) == zero_end(d@, i as int),
        decreases d@.len() - i,
    {
        i = i + 1;
    }
    if i < d.len() {
        Some(i + 1)
    } else {
        None
    }
}

/// Where the compressed data of a gzip member starts.
fn gzs(d: &[u8]) -> (r: Option<usize>)
    ensures
        match r {
            Some(x) => gzip_start(d@) == Some(x as int),
            None => gzip_start(d@) is None,
        },
{
    if d.len() < 10 || d[0] != 31 || d[1] != 139 || d[2] != 8 {
        return None;
    }
    let flg = d[3];
    let mut st: usize = 10;
    if (flg / 4) % 2 == 1 {
        if d.len() < 12 {
            return None;
        }
        st = st + d[10] as usize + 256 * (d[11] as usize) + 2;
    }
    if (flg / 8) % 2 == 1 {
        match skip_zero_field(d, st) {
            Some(x) => st = x,
            None => return None,
        }
    }
    if (flg / 16) % 2 == 1 {
        match skip_zero_field(d, st) {
            Some(x) => st = x,
            None => return None,
        }
    }
    let hcrc: usize = 2 * ((flg / 2) % 2) as usize;
    if st > d.len() || d.len() - st < hcrc {
        return None;
    }
    Some(st + hcrc)
}

/// Expands gzip data.
pub fn gunzip_sync(data: &[u8], dict: Option<&[u8]>) -> (r: Result<Vec<u8>, FFlateError>)
    ensures
        result_view(r) == gunzip_spec(data@, opt_view(dict)),
{
    match gzs(data) {
        None => Err(FFlateError::InvalidHeader),
        Some(st) => {
            if data.len() - st < 8 {
                return Err(FFlateError::UnexpectedEof);
            }
            inflate_with(&data[st..data.len() - 8], dict)
        },
    }
}

/// Expands DEFLATE data with no wrapper.
pub fn inflate_sync(data: &[u8], dict: Option<&[u8]>) -> (r: Result<Vec<u8>, FFlateError>)
    ensures
        result_view(r) == inflate_spec(data@, opt_view(dict)),
{
    inflate_with(data, dict)
}

/// Expands zlib data.
pub fn unzlib_sync(data: &[u8], dict: Option<&[u8]>) -> (r: Result<Vec<u8>, FFlateError>)
    ensures
        result_view(r) == unzlib_spec(data@, opt_view(dict)),
{
    if data.len() < 2 {
        return Err(FFlateError::UnexpectedEof);
    }
    let d0 = data[0] as u32;
    let d1 = data[1] as u32;
    if d0 % 16 != 8 || d0 / 16 > 7 || (d0 * 256 + d1) % 31 != 0 {
        return Err(FFlateError::InvalidHeader);
    }
    let has_dict = (d1 / 32) % 2 == 1;
    if !has_dict && dict.is_some() {
        return Err(FFlateError::InvalidHeader);
    }
    let st: usize = if has_dict {
        6
    } else {
        2
    };
    if data.len() < st + 4 {
        return Err(FFlateError::UnexpectedEof);
    }
    inflate_with(&data[st..data.len() - 4], dict)
}

/// Expands gzip, zlib or raw DEFLATE data, telling them apart by the first
/// bytes: the gzip magic number, else a valid zlib header, else raw.
pub fn decompress_sync(data: &[u8], dict: Option<&[u8]>) -> (r: Result<Vec<u8>, FFlateError>)
    ensures
        result_view(r) == decompress_sync_spec(data@, opt_view(dict)),
{
    if data.len() < 3 {
        return Err(FFlateError::UnexpectedEof);
    }
    let d0 = data[0] as u32;
    let d1 = data[1] as u32;
    if d0 == 31 && d1 == 139 && data[2] == 8 {
        gunzip_sync(data, dict)
    } else if d0 % 16 != 8 || d0 / 16 > 7 || (d0 * 256 + d1) % 31 != 0 {
        inflate_sync(data, dict)
    } else {
        unzlib_sync(data, dict)
    }
}

/// A decoder's outcome, with failure reported as a read error.
pub open spec fn or_read_error(d: Option<Seq<u8>>) -> Result<Seq<u8>, CompressError> {
    match d {
        Some(v) => Ok(v),
        None => Err(CompressError::ReadError),
    }
}

/// The result of [`decompress_data`].
pub open spec fn decompress_data_spec(input: Seq<u8>, format: CompressionFormat) -> Result<
    Seq<u8>,
    CompressError,
> {
    match format {
        CompressionFormat::Uncompressed => Ok(input),
        CompressionFormat::Gzip => or_read_error(gzip_decoded(input)),
        CompressionFormat::Deflate => or_read_error(zlib_decoded(input)),
        CompressionFormat::DeflateRaw => or_read_error(deflate_decoded(input)),
        CompressionFormat::Brotli => Ok(brotli_decoded(input)),
        CompressionFormat::Zstd => Err(CompressError::UnimplementedZstd),
    }
}

fn or_read_error_exec(d: Option<Vec<u8>>) -> (r: Result<Vec<u8>, CompressError>)
    ensures
        match r {
            Ok(v) => d matches Some(w) && v@ == w@,
            Err(e) => d is None && e == CompressError::ReadError,
        },
{
    match d {
        Some(v) => Ok(v),
        None => Err(CompressError::ReadError),
    }
}

/// Decompresses `input` in the given format: gzip, zlib (`Deflate`) and
/// raw DEFLATE each by their own decoder, which rejects a wrong header or a
/// bad trailer; Brotli is decoded; Zstd is not available.
pub fn decompress_data(input: &[u8], format: CompressionFormat) -> (r: Result<Vec<u8>, CompressError>)
    ensures
        match r {
            Ok(v) => decompress_data_spec(input@, format) == Ok::<Seq<u8>, CompressError>(v@),
            Err(e) => decompress_data_spec(input@, format) == Err::<Seq<u8>, CompressError>(e),
        },
{
    match format {
        CompressionFormat::Uncompressed => Ok(slice_to_vec(input)),
        CompressionFormat::Gzip => or_read_error_exec(gunzip_checked(input)),
        CompressionFormat::Deflate => or_read_error_exec(unzlib_checked(input)),
        CompressionFormat::DeflateRaw => or_read_error_exec(inflate_raw(input)),
        CompressionFormat::Brotli => Ok(brotli_decode(input)),
        CompressionFormat::Zstd => Err(CompressError::UnimplementedZstd),
    }
}

} // verus!
