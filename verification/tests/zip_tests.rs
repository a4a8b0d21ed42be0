use zipclean::encoding::FallbackPolicy;
use zipclean::encoding::NameEncoding;
use zipclean::encoding::ZipError;
use zipclean::encoding::parse_encoding;
use zipclean::zip::ZipFileReader;

fn cdfh(name: &[u8], size: u32, flags: [u8; 2], extra: &[u8], comment: &[u8]) -> Vec<u8> {
    let mut rec = Vec::new();
    rec.extend_from_slice(&[0x50, 0x4b, 0x01, 0x02]);
    rec.extend_from_slice(&[0, 0, 0, 0]);
    rec.extend_from_slice(&flags);
    rec.extend_from_slice(&[0u8; 14]);
    rec.extend_from_slice(&size.to_le_bytes());
    rec.extend_from_slice(&(name.len() as u16).to_le_bytes());
    rec.extend_from_slice(&(extra.len() as u16).to_le_bytes());
    rec.extend_from_slice(&(comment.len() as u16).to_le_bytes());
    rec.extend_from_slice(&[0u8; 12]);
    rec.extend_from_slice(name);
    rec.extend_from_slice(extra);
    rec.extend_from_slice(comment);
    rec
}

fn eocd(count: u16, cd_size: u32, cd_start: u32, comment: &[u8]) -> Vec<u8> {
    let mut rec = Vec::new();
    rec.extend_from_slice(&[0x50, 0x4b, 0x05, 0x06]);
    rec.extend_from_slice(&[0, 0, 0, 0]);
    rec.extend_from_slice(&count.to_le_bytes());
    rec.extend_from_slice(&count.to_le_bytes());
    rec.extend_from_slice(&cd_size.to_le_bytes());
    rec.extend_from_slice(&cd_start.to_le_bytes());
    rec.extend_from_slice(&(comment.len() as u16).to_le_bytes());
    rec.extend_from_slice(comment);
    rec
}

fn archive(prefix: &[u8], records: &[Vec<u8>], comment: &[u8]) -> Vec<u8> {
    let mut data = prefix.to_vec();
    let cd_start = data.len() as u32;
    let mut cd_size = 0u32;
    for rec in records {
        data.extend_from_slice(rec);
        cd_size += rec.len() as u32;
    }
    data.extend_from_slice(&eocd(records.len() as u16, cd_size, cd_start, comment));
    data
}

#[test]
fn round_trip_two_entries() {
    let records = vec![
        cdfh(b"hello.txt", 5, [0, 0], b"", b""),
        cdfh(b"dir/file.bin", 1234, [0, 0], b"", b""),
    ];
    let data = archive(b"JUNKDATA", &records, b"");
    let eocd_offset = data.len() - 22;
    let mut reader = ZipFileReader::new(data, "utf8", FallbackPolicy::Strict).unwrap();
    assert!(reader.seek_end_of_central_directory_record().is_ok());
    assert_eq!(reader.pos, eocd_offset);
    let headers = reader.read_central_directory_file_header().unwrap();
    assert_eq!(headers.len(), 2);
    assert_eq!(headers[0].file_name, "hello.txt");
    assert_eq!(headers[0].uncompressed_size, 5);
    assert_eq!(headers[0].general_purpose_bit_flag, [0, 0]);
    assert_eq!(headers[1].file_name, "dir/file.bin");
    assert_eq!(headers[1].uncompressed_size, 1234);
}

#[test]
fn comment_lengths_zero_one_and_max() {
    for comment in [&b""[..], &b"x"[..], &vec![0u8; 65535][..]] {
        let records = vec![cdfh(b"a.txt", 1, [0, 0], b"", b"")];
        let data = archive(b"", &records, comment);
        let eocd_offset = data.len() - 22 - comment.len();
        let mut reader =
            ZipFileReader::new(data, "utf8", FallbackPolicy::Strict).unwrap();
        assert!(reader.seek_end_of_central_directory_record().is_ok());
        assert_eq!(reader.pos, eocd_offset);
        let headers = reader.read_central_directory_file_header().unwrap();
        assert_eq!(headers.len(), 1);
        assert_eq!(headers[0].file_name, "a.txt");
    }
}

#[test]
fn comment_with_embedded_signature() {
    // A comment that itself contains the EOCD signature bytes, followed by
    // fields that do not reconcile with the end of the file: the locator
    // must skip the false positive and report the structurally correct
    // record below it.
    let mut comment = vec![0u8; 64];
    comment[10] = 0x50;
    comment[11] = 0x4b;
    comment[12] = 0x05;
    comment[13] = 0x06;
    let records = vec![cdfh(b"a.txt", 1, [0, 0], b"", b"")];
    let data = archive(b"", &records, &comment);
    let eocd_offset = data.len() - 22 - comment.len();
    let mut reader = ZipFileReader::new(data, "utf8", FallbackPolicy::Strict).unwrap();
    assert!(reader.seek_end_of_central_directory_record().is_ok());
    assert_eq!(reader.pos, eocd_offset);
    let headers = reader.read_central_directory_file_header().unwrap();
    assert_eq!(headers.len(), 1);
}

#[test]
fn utf8_flag_overrides_configured_encoding() {
    // Name bytes are the UTF-8 encoding of two kanji; with the flag bit
    // set they must decode to that exact string under either policy.
    let name = "\u{65E5}\u{672C}.txt";
    for policy in ["utf8", "cp932"] {
        let records = vec![cdfh(name.as_bytes(), 9, [0x20, 0], b"", b"")];
        let data = archive(b"", &records, b"");
        let mut reader =
            ZipFileReader::new(data, policy, FallbackPolicy::Strict).unwrap();
        reader.seek_end_of_central_directory_record().unwrap();
        let headers = reader.read_central_directory_file_header().unwrap();
        assert_eq!(headers[0].file_name, name);
        assert_eq!(headers[0].general_purpose_bit_flag, [0x20, 0]);
    }
}

#[test]
fn shift_jis_fallback_and_strict_failure() {
    // Shift-JIS katakana "te su to"; the bytes are not valid UTF-8.
    let name_bytes: [u8; 6] = [0x83, 0x65, 0x83, 0x58, 0x83, 0x67];
    let expected = "\u{30C6}\u{30B9}\u{30C8}";

    let records = vec![cdfh(&name_bytes, 3, [0, 0], b"", b"")];
    let data = archive(b"", &records, b"");
    let mut reader =
        ZipFileReader::new(data.clone(), "cp932", FallbackPolicy::Strict).unwrap();
    reader.seek_end_of_central_directory_record().unwrap();
    let headers = reader.read_central_directory_file_header().unwrap();
    assert_eq!(headers[0].file_name, expected);

    let mut strict = ZipFileReader::new(data.clone(), "utf8", FallbackPolicy::Strict).unwrap();
    strict.seek_end_of_central_directory_record().unwrap();
    assert_eq!(
        strict.read_central_directory_file_header(),
        Err(ZipError::EncodingError)
    );

    let mut legacy =
        ZipFileReader::new(data, "utf8", FallbackPolicy::LegacyFallback).unwrap();
    legacy.seek_end_of_central_directory_record().unwrap();
    let headers = legacy.read_central_directory_file_header().unwrap();
    assert_eq!(headers[0].file_name, expected);
}

#[test]
fn truncated_file_fails_locator() {
    let data = vec![0xAA; 100];
    let mut reader = ZipFileReader::new(data, "utf8", FallbackPolicy::Strict).unwrap();
    assert_eq!(
        reader.seek_end_of_central_directory_record(),
        Err(ZipError::MalformedArchive)
    );

    let tiny = vec![0x50, 0x4b, 0x05, 0x06];
    let mut reader = ZipFileReader::new(tiny, "utf8", FallbackPolicy::Strict).unwrap();
    assert_eq!(
        reader.seek_end_of_central_directory_record(),
        Err(ZipError::MalformedArchive)
    );
}

#[test]
fn count_fidelity_with_trailing_fields() {
    // Non-empty extra and per-entry comment fields must be skipped so that
    // exactly the declared number of entries comes back.
    let records = vec![
        cdfh(b"one", 10, [0, 0], b"extra", b"comment"),
        cdfh(b"two", 20, [0, 0], b"ee", b""),
        cdfh(b"three", 30, [0, 0], b"", b"ccc"),
    ];
    let data = archive(b"", &records, b"");
    let mut reader = ZipFileReader::new(data, "utf8", FallbackPolicy::Strict).unwrap();
    reader.seek_end_of_central_directory_record().unwrap();
    let headers = reader.read_central_directory_file_header().unwrap();
    assert_eq!(headers.len(), 3);
    assert_eq!(headers[0].file_name, "one");
    assert_eq!(headers[1].file_name, "two");
    assert_eq!(headers[2].file_name, "three");
    assert_eq!(headers[2].uncompressed_size, 30);
}

#[test]
fn bad_entry_signature_is_malformed() {
    let mut rec = cdfh(b"a", 1, [0, 0], b"", b"");
    rec[2] = 0x03;
    let data = archive(b"", &[rec].to_vec(), b"");
    let mut reader = ZipFileReader::new(data, "utf8", FallbackPolicy::Strict).unwrap();
    reader.seek_end_of_central_directory_record().unwrap();
    assert_eq!(
        reader.read_central_directory_file_header(),
        Err(ZipError::MalformedArchive)
    );
}

#[test]
fn overlong_count_is_malformed() {
    // The EOCD record declares one more entry than the directory holds.
    let records = vec![cdfh(b"a", 1, [0, 0], b"", b"")];
    let mut data = records[0].clone();
    let cd_size = data.len() as u32;
    data.extend_from_slice(&eocd(2, cd_size, 0, b""));
    let mut reader = ZipFileReader::new(data, "utf8", FallbackPolicy::Strict).unwrap();
    reader.seek_end_of_central_directory_record().unwrap();
    assert_eq!(
        reader.read_central_directory_file_header(),
        Err(ZipError::MalformedArchive)
    );
}

#[test]
fn unsupported_encoding_is_rejected_at_setup() {
    assert_eq!(
        ZipFileReader::new(Vec::new(), "latin1", FallbackPolicy::Strict).err(),
        Some(ZipError::ConfigurationError)
    );
    assert_eq!(parse_encoding("utf8"), Ok(NameEncoding::Utf8));
    assert_eq!(parse_encoding("cp932"), Ok(NameEncoding::Cp932));
    assert_eq!(parse_encoding("UTF8"), Err(ZipError::ConfigurationError));
    assert_eq!(parse_encoding(""), Err(ZipError::ConfigurationError));
}
