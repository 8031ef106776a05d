use gistools::compression::{decompress_data, decompress_sync, gunzip_sync, unzlib_sync};
use gistools::{CompressError, CompressionFormat, FFlateError};

#[test]
fn dictionary() {
    let dict: Vec<u8> = [97, 98, 99, 100].to_vec();
    let compressed: Vec<u8> = [
        120, 187, 3, 216, 1, 139, 203, 72, 205, 201, 201, 7, 19, 10, 229, 249, 69, 57, 41, 0, 55,
        19, 6, 113,
    ]
    .to_vec();
    let expected: Vec<u8> =
        [104, 101, 108, 108, 111, 104, 101, 108, 108, 111, 32, 119, 111, 114, 108, 100].to_vec();

    let decompressed = decompress_sync(&compressed, Some(&dict)).unwrap();

    assert_eq!(decompressed, expected);
}

#[test]
fn simple_gzip() {
    let compressed_gzip: Vec<u8> = [
        31, 139, 8, 8, 230, 176, 184, 103, 0, 3, 101, 120, 112, 101, 99, 116, 101, 100, 46, 116,
        120, 116, 0, 11, 201, 200, 44, 86, 0, 162, 68, 133, 146, 212, 226, 18, 133, 252, 52, 133,
        204, 188, 130, 210, 18, 133, 148, 196, 146, 68, 46, 174, 16, 168, 108, 110, 126, 81, 42,
        88, 72, 143, 139, 203, 208, 200, 216, 196, 216, 204, 212, 156, 11, 0, 162, 255, 102, 10,
        59, 0, 0, 0,
    ]
    .to_vec();
    let expected = [
        84, 104, 105, 115, 32, 105, 115, 32, 97, 32, 116, 101, 115, 116, 32, 111, 102, 32, 105,
        110, 112, 117, 116, 32, 100, 97, 116, 97, 10, 10, 84, 104, 105, 115, 32, 105, 115, 32, 109,
        111, 114, 101, 32, 100, 97, 116, 97, 46, 10, 10, 49, 50, 51, 52, 51, 54, 53, 55, 10,
    ]
    .to_vec();

    let decompressed = decompress_sync(&compressed_gzip, None).unwrap();

    assert_eq!(decompressed, expected);
}

#[test]
fn simple_deflate() {
    let compressed_gzip: Vec<u8> = [
        120, 156, 11, 201, 200, 44, 86, 0, 162, 68, 133, 146, 212, 226, 18, 133, 252, 52, 133,
        204, 188, 130, 210, 18, 133, 148, 196, 146, 68, 46, 174, 16, 168, 108, 110, 126, 81, 42,
        88, 72, 143, 139, 203, 208, 200, 216, 196, 216, 204, 212, 156, 11, 0, 80, 157, 18, 21,
    ]
    .to_vec();
    let expected = [
        84, 104, 105, 115, 32, 105, 115, 32, 97, 32, 116, 101, 115, 116, 32, 111, 102, 32, 105,
        110, 112, 117, 116, 32, 100, 97, 116, 97, 10, 10, 84, 104, 105, 115, 32, 105, 115, 32, 109,
        111, 114, 101, 32, 100, 97, 116, 97, 46, 10, 10, 49, 50, 51, 52, 51, 54, 53, 55, 10,
    ]
    .to_vec();

    let decompressed = decompress_sync(&compressed_gzip, None).unwrap();

    assert_eq!(decompressed, expected);
}

#[test]
fn simple_deflate_raw() {
    let compressed_gzip: Vec<u8> = [
        11, 201, 200, 44, 86, 0, 162, 68, 133, 146, 212, 226, 18, 133, 252, 52, 133, 204, 188,
        130, 210, 18, 133, 148, 196, 146, 68, 46, 174, 16, 168, 108, 110, 126, 81, 42, 88, 72, 143,
        139, 203, 208, 200, 216, 196, 216, 204, 212, 156, 11, 0, 80, 157, 18,
    ]
    .to_vec();
    let expected = [
        84, 104, 105, 115, 32, 105, 115, 32, 97, 32, 116, 101, 115, 116, 32, 111, 102, 32, 105,
        110, 112, 117, 116, 32, 100, 97, 116, 97, 10, 10, 84, 104, 105, 115, 32, 105, 115, 32, 109,
        111, 114, 101, 32, 100, 97, 116, 97, 46, 10, 10, 49, 50, 51, 52, 51, 54, 53, 55, 10,
    ]
    .to_vec();

    let decompressed = decompress_sync(&compressed_gzip, None).unwrap();

    assert_eq!(decompressed, expected);
}

#[test]
fn test_compression_format() {
    let compression_format = CompressionFormat::from("gzip");
    assert_eq!(compression_format, CompressionFormat::Gzip);

    let compression_format = CompressionFormat::from("deflate");
    assert_eq!(compression_format, CompressionFormat::Deflate);

    let compression_format = CompressionFormat::from("deflate-raw");
    assert_eq!(compression_format, CompressionFormat::DeflateRaw);

    let compression_format = CompressionFormat::from("brotli");
    assert_eq!(compression_format, CompressionFormat::Brotli);

    let compression_format = CompressionFormat::from("zstd");
    assert_eq!(compression_format, CompressionFormat::Zstd);

    let compression_format = CompressionFormat::from("none");
    assert_eq!(compression_format, CompressionFormat::Uncompressed);
}

#[test]
fn test_compressor_err_from_fflate() {
    let err: CompressError = FFlateError::InvalidBlockType.into();
    assert_eq!(err, CompressError::FFlate(FFlateError::InvalidBlockType));
}

#[test]
fn decompress_data_formats() {
    let stored_raw: Vec<u8> = vec![1, 3, 0, 252, 255, 97, 98, 99];
    assert_eq!(decompress_data(&stored_raw, CompressionFormat::DeflateRaw), Ok(vec![97, 98, 99]));
    assert_eq!(decompress_data(&stored_raw, CompressionFormat::Uncompressed), Ok(stored_raw.clone()));
    assert_eq!(decompress_data(&stored_raw, CompressionFormat::Zstd), Err(CompressError::UnimplementedZstd));
    let brotli_a: Vec<u8> = vec![0, 0, 16, 97, 3];
    assert_eq!(decompress_data(&brotli_a, CompressionFormat::Brotli), Ok(vec![97]));
}

#[test]
fn header_errors() {
    assert_eq!(decompress_sync(&[1, 2], None), Err(FFlateError::UnexpectedEof));
    assert_eq!(gunzip_sync(&[31, 139, 7, 0, 0, 0, 0, 0, 0, 0, 0, 0], None), Err(FFlateError::InvalidHeader));
    assert_eq!(gunzip_sync(&[31, 139, 8, 0, 0, 0, 0, 0, 0, 0, 1, 2], None), Err(FFlateError::UnexpectedEof));
    assert_eq!(unzlib_sync(&[120, 157, 0, 0, 0, 0], None), Err(FFlateError::InvalidHeader));
    let dict: Vec<u8> = vec![1];
    assert_eq!(unzlib_sync(&[120, 156, 3, 0, 0, 0, 0, 1], Some(&dict)), Err(FFlateError::InvalidHeader));
    assert_eq!(decompress_sync(&[7, 7, 7], None), Err(FFlateError::InvalidData));
}

#[test]
fn decompress_data_by_format() {
    let gz: Vec<u8> = vec![
        31, 139, 8, 0, 0, 0, 0, 0, 2, 3, 75, 76, 74, 6, 0, 194, 65, 36, 53, 3, 0, 0, 0,
    ];
    let zlib: Vec<u8> = vec![120, 156, 75, 76, 74, 6, 0, 2, 77, 1, 39];
    let raw: Vec<u8> = vec![75, 76, 74, 6, 0];
    assert_eq!(decompress_data(&gz, CompressionFormat::Gzip), Ok(b"abc".to_vec()));
    assert_eq!(decompress_data(&zlib, CompressionFormat::Deflate), Ok(b"abc".to_vec()));
    assert_eq!(decompress_data(&raw, CompressionFormat::DeflateRaw), Ok(b"abc".to_vec()));
    assert_eq!(decompress_data(&zlib, CompressionFormat::Gzip), Err(CompressError::ReadError));
    assert_eq!(decompress_data(&gz, CompressionFormat::Deflate), Err(CompressError::ReadError));
    let mut bad_crc = gz.clone();
    bad_crc[15] ^= 1;
    assert_eq!(decompress_data(&bad_crc, CompressionFormat::Gzip), Err(CompressError::ReadError));
    let mut bad_adler = zlib.clone();
    bad_adler[10] ^= 1;
    assert_eq!(decompress_data(&bad_adler, CompressionFormat::Deflate), Err(CompressError::ReadError));
}
