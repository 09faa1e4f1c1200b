use std::io::Write;

use sms_classifier::archive::extract_member;
use sms_classifier::error::PipelineError;

fn zip_with(name: &str, body: &str) -> Vec<u8> {
    let mut w = zip::ZipWriter::new(std::io::Cursor::new(Vec::new()));
    w.start_file(name, zip::write::FileOptions::default()).unwrap();
    w.write_all(body.as_bytes()).unwrap();
    w.finish().unwrap().into_inner()
}

#[test]
fn member_text_is_extracted() {
    let bytes = zip_with("SMSSpamCollection", "ham\thello\nspam\twin now\n");
    let text = extract_member(bytes, "SMSSpamCollection").unwrap_or_else(|e| panic!("{:?}", e));
    assert_eq!(text, "ham\thello\nspam\twin now\n");
}

#[test]
fn missing_member_is_archive_error() {
    let bytes = zip_with("other", "ham\thello");
    assert!(matches!(extract_member(bytes, "SMSSpamCollection"), Err(PipelineError::Archive)));
}

#[test]
fn corrupt_archive_is_archive_error() {
    let bytes = b"not a zip archive at all".to_vec();
    assert!(matches!(extract_member(bytes, "SMSSpamCollection"), Err(PipelineError::Archive)));
}

/// An unencrypted member whose extra field announces AES encryption.
fn zip_with_aes_field(name: &str, body: &str) -> Vec<u8> {
    let mut w = zip::ZipWriter::new(std::io::Cursor::new(Vec::new()));
    let options = zip::write::FileOptions::default().compression_method(zip::CompressionMethod::Stored);
    w.start_file_with_extra_data(name, options).unwrap();
    w.write_all(&0xbeefu16.to_le_bytes()).unwrap();
    w.write_all(&7u16.to_le_bytes()).unwrap();
    w.write_all(&1u16.to_le_bytes()).unwrap();
    w.write_all(&0x4541u16.to_le_bytes()).unwrap();
    w.write_all(&[1u8]).unwrap();
    w.write_all(&0u16.to_le_bytes()).unwrap();
    w.end_extra_data().unwrap();
    w.write_all(body.as_bytes()).unwrap();
    let mut bytes = w.finish().unwrap().into_inner();
    // The writer refuses the AES header id, so a placeholder id is patched
    // into both the local and the central header.
    let mut patched = 0;
    for i in 0..bytes.len() - 3 {
        if bytes[i..i + 4] == [0xef, 0xbe, 0x07, 0x00] {
            bytes[i] = 0x01;
            bytes[i + 1] = 0x99;
            patched += 1;
        }
    }
    assert_eq!(patched, 2);
    bytes
}

#[test]
fn aes_field_without_encryption_is_archive_error() {
    let bytes = zip_with_aes_field("SMSSpamCollection", "ham\thello");
    assert!(matches!(extract_member(bytes, "SMSSpamCollection"), Err(PipelineError::Archive)));
}
