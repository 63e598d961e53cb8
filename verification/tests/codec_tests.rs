use rustfs::chunk_id::{chunk_id_for, suffixed_name, u64_to_decimal};
use rustfs::chunkserver::{parse_chunk_id, parse_decimal};
use rustfs::errors::FsError;

#[test]
fn decimal_rendering() {
    assert_eq!(u64_to_decimal(0), "0");
    assert_eq!(u64_to_decimal(7), "7");
    assert_eq!(u64_to_decimal(10), "10");
    assert_eq!(u64_to_decimal(409), "409");
    assert_eq!(u64_to_decimal(u64::MAX), "18446744073709551615");
}

#[test]
fn chunk_id_formatting() {
    assert_eq!(chunk_id_for("f.txt", 0), "f.txt_chunk_0");
    assert_eq!(chunk_id_for("f.txt", 12), "f.txt_chunk_12");
    assert_eq!(chunk_id_for("", 3), "_chunk_3");
}

#[test]
fn suffixed_name_formatting() {
    assert_eq!(suffixed_name("f.txt", 1), "f.txt-1");
    assert_eq!(suffixed_name("f.txt", 25), "f.txt-25");
}

#[test]
fn decimal_parsing() {
    assert_eq!(parse_decimal("0"), Ok(0));
    assert_eq!(parse_decimal("409"), Ok(409));
    assert_eq!(parse_decimal("007"), Ok(7));
    assert_eq!(parse_decimal("18446744073709551615"), Ok(u64::MAX));
    assert_eq!(parse_decimal(""), Err(FsError::InvalidArgument));
    assert_eq!(parse_decimal("4x1"), Err(FsError::InvalidArgument));
    assert_eq!(parse_decimal("18446744073709551616"), Err(FsError::InvalidArgument));
}

#[test]
fn chunk_id_parsing_roundtrip() {
    assert_eq!(parse_chunk_id("f.txt_chunk_12"), Ok((String::from("f.txt"), 12)));
    assert_eq!(parse_chunk_id("f_chunk_0"), Ok((String::from("f"), 0)));
    assert_eq!(parse_chunk_id(&chunk_id_for("data.bin", 409)), Ok((String::from("data.bin"), 409)));
}

#[test]
fn chunk_id_parsing_rejects_malformed_names() {
    assert_eq!(parse_chunk_id("plainname"), Err(FsError::InvalidArgument));
    assert_eq!(parse_chunk_id("f.txt_chunk_"), Err(FsError::InvalidArgument));
    assert_eq!(parse_chunk_id("f.txt_chunk_x1"), Err(FsError::InvalidArgument));
    assert_eq!(parse_chunk_id(""), Err(FsError::InvalidArgument));
}

#[test]
fn error_descriptions() {
    assert_eq!(FsError::NotFound.describe(), "not found");
    assert_eq!(FsError::InvalidArgument.describe(), "invalid argument");
    assert_eq!(FsError::Unauthenticated.describe(), "unauthenticated");
    assert_eq!(FsError::Internal.describe(), "internal error");
    assert_eq!(FsError::Unavailable.describe(), "unavailable");
}
