use std::io::Write;

use portfolio_forecast::error::{ErrorKind, LoadError};
use portfolio_forecast::text::decimal_text;
use portfolio_forecast::format::{binary, ends_with, load_bytes, starts_with};
use portfolio_forecast::load_from_bytes;

fn zip_with(entries: &[(&str, &[u8])]) -> Vec<u8> {
    let mut w = zip::ZipWriter::new(std::io::Cursor::new(Vec::new()));
    let opts = zip::write::SimpleFileOptions::default()
        .compression_method(zip::CompressionMethod::Deflated);
    for (name, data) in entries {
        w.start_file(*name, opts).unwrap();
        w.write_all(data).unwrap();
    }
    w.finish().unwrap().into_inner()
}

fn framed(payload: &[u8]) -> Vec<u8> {
    let mut v = b"PPPBV1".to_vec();
    v.extend_from_slice(payload);
    v
}

#[test]
fn binary_payload_is_returned() {
    let data = framed(&[1, 2, 3, 0xff]);
    assert_eq!(load_bytes(&data).unwrap(), vec![1, 2, 3, 0xff]);
    assert_eq!(load_from_bytes(&data).unwrap(), vec![1, 2, 3, 0xff]);
}

#[test]
fn binary_signature_alone_gives_empty_payload() {
    assert_eq!(load_bytes(b"PPPBV1").unwrap(), Vec::<u8>::new());
}

#[test]
fn binary_load_rejects_bad_signature() {
    assert_eq!(binary::load(b"PPPBV2xx").unwrap_err().kind(), ErrorKind::InvalidSignature);
    assert_eq!(binary::load(b"PPP").unwrap_err().kind(), ErrorKind::InvalidSignature);
}

#[test]
fn encrypted_file_is_refused() {
    let r = load_bytes(b"PORTFOLIO\x00\x01\x02");
    assert_eq!(r.unwrap_err().kind(), ErrorKind::Encrypted);
}

#[test]
fn unknown_format_is_refused() {
    assert_eq!(load_bytes(b"hello world").unwrap_err().kind(), ErrorKind::UnknownFormat);
    assert_eq!(load_bytes(b"").unwrap_err().kind(), ErrorKind::UnknownFormat);
    assert_eq!(load_bytes(b"PPPBV").unwrap_err().kind(), ErrorKind::UnknownFormat);
    assert_eq!(load_bytes(b"PORTFOLI").unwrap_err().kind(), ErrorKind::UnknownFormat);
}

#[test]
fn zip_portfolio_entry_is_read() {
    let inner = framed(b"protobuf bytes");
    let data = zip_with(&[("readme.txt", b"x"), ("data.portfolio", &inner)]);
    assert_eq!(load_bytes(&data).unwrap(), b"protobuf bytes".to_vec());
}

#[test]
fn zip_first_portfolio_entry_wins() {
    let a = framed(b"first");
    let b = framed(b"second");
    let data = zip_with(&[("a.portfolio", &a), ("b.portfolio", &b)]);
    assert_eq!(load_bytes(&data).unwrap(), b"first".to_vec());
}

#[test]
fn zip_without_portfolio_entry_is_refused() {
    let data = zip_with(&[("data.xml", b"<client/>")]);
    assert_eq!(load_bytes(&data).unwrap_err().kind(), ErrorKind::NoPortfolioEntry);
}

#[test]
fn zip_entry_with_bad_signature_is_refused() {
    let data = zip_with(&[("data.portfolio", b"XXXXXXpayload")]);
    assert_eq!(load_bytes(&data).unwrap_err().kind(), ErrorKind::InvalidSignature);
}

#[test]
fn broken_zip_is_refused() {
    let data = b"PK\x03\x04 this is not really an archive".to_vec();
    assert_eq!(load_bytes(&data).unwrap_err().kind(), ErrorKind::ZipOpen);
}

#[test]
fn law_binary_frame_roundtrip_on_values() {
    for payload in [vec![], vec![0u8], b"PK\x03\x04".to_vec(), b"PORTFOLIO".to_vec()] {
        assert_eq!(load_bytes(&framed(&payload)).unwrap(), payload);
    }
}

#[test]
fn starts_and_ends_with() {
    assert!(starts_with(b"PPPBV1abc", b"PPPBV1"));
    assert!(!starts_with(b"PPP", b"PPPBV1"));
    assert!(ends_with(b"data.portfolio", b".portfolio"));
    assert!(!ends_with(b"data.portfolio.bak", b".portfolio"));
}

#[test]
fn error_messages_for_the_user() {
    assert_eq!(
        load_from_bytes(b"PORTFOLIO\x00").unwrap_err().message(),
        "Encrypted portfolio files are not supported. Please export as unencrypted from Portfolio Performance."
    );
    assert_eq!(
        load_bytes(b"hello").unwrap_err().message(),
        "Unknown file format (not a valid .portfolio file)"
    );
    assert_eq!(
        binary::load(b"PPPBV2").unwrap_err().message(),
        "Invalid binary signature (expected PPPBV1)"
    );
    let data = zip_with(&[("data.xml", b"<client/>")]);
    assert_eq!(
        load_bytes(&data).unwrap_err().message(),
        "No .portfolio entry found inside ZIP archive"
    );
    let broken = b"PK\x03\x04 this is not really an archive".to_vec();
    assert!(load_bytes(&broken).unwrap_err().message().starts_with("Failed to open ZIP: "));
}

#[test]
fn zip_entry_message_names_the_index() {
    let e = LoadError::ZipEntry(42, zip::result::ZipError::FileNotFound);
    let m = e.message();
    assert!(m.starts_with("Failed to read ZIP entry 42: "));
    assert_eq!(m, format!("Failed to read ZIP entry 42: {}", zip::result::ZipError::FileNotFound));
}

#[test]
fn decimal_text_of_numbers() {
    assert_eq!(decimal_text(0), "0");
    assert_eq!(decimal_text(7), "7");
    assert_eq!(decimal_text(10), "10");
    assert_eq!(decimal_text(1234), "1234");
    assert_eq!(decimal_text(usize::MAX), usize::MAX.to_string());
}
