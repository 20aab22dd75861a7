use yacrd::file::{choose_compression, get_compression, CompressionFormat};

const GZIP_FILE: &[u8] = &[0o037, 0o213, 0o0, 0o0, 0o0];
const BZIP_FILE: &[u8] = &[0o102, 0o132, 0o0, 0o0, 0o0];
const LZMA_FILE: &[u8] = &[0o375, 0o067, 0o172, 0o130, 0o132];

#[test]
fn compression_from_file() {
    assert_eq!(get_compression(GZIP_FILE), CompressionFormat::Gzip);
    assert_eq!(get_compression(BZIP_FILE), CompressionFormat::Bzip);
    assert_eq!(get_compression(LZMA_FILE), CompressionFormat::Lzma);
}

#[test]
fn compression_from_input_or_cli() {
    assert_eq!(
        choose_compression(CompressionFormat::Gzip, false, "_"),
        CompressionFormat::Gzip
    );
    assert_eq!(
        choose_compression(CompressionFormat::Bzip, false, "_"),
        CompressionFormat::Bzip
    );
    assert_eq!(
        choose_compression(CompressionFormat::Lzma, false, "_"),
        CompressionFormat::Lzma
    );
    assert_eq!(
        choose_compression(CompressionFormat::No, true, "gzip"),
        CompressionFormat::Gzip
    );
    assert_eq!(
        choose_compression(CompressionFormat::No, true, "bzip2"),
        CompressionFormat::Bzip
    );
    assert_eq!(
        choose_compression(CompressionFormat::No, true, "lzma"),
        CompressionFormat::Lzma
    );
}

#[test]
fn compression_unknown_value() {
    assert_eq!(
        choose_compression(CompressionFormat::Gzip, true, "zip"),
        CompressionFormat::No
    );
    assert_eq!(get_compression(&[0u8, 0, 0, 0, 0]), CompressionFormat::No);
}
