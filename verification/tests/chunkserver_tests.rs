use rustfs::chunkserver::{
    chunk_file_path, sanitize_address, upload_finish, upload_step, ChunkService, UploadAction,
    UploadFrame,
};
use rustfs::config::{ChunkServerConfig, CommonConfig};
use rustfs::errors::FsError;

fn common(use_authentication: bool) -> CommonConfig {
    CommonConfig {
        master_addrs: vec![String::from("127.0.0.1:50051")],
        heartbeat_interval: 5,
        shadow_master_ping_interval: 5,
        chunk_size: 4,
        max_allowed_chunks: 100,
        replication_factor: 2,
        log_level: String::from("info"),
        log_output: String::from("stdout"),
        otp_valid_duration: 300,
        use_authentication,
    }
}

fn server(use_authentication: bool) -> ChunkService {
    ChunkService::new(
        "127.0.0.1:50010",
        "127.0.0.1_50010",
        ChunkServerConfig { data_path: String::from("data"), log_path: String::from("logs") },
        common(use_authentication),
    )
}

#[test]
fn address_sanitizing() {
    assert_eq!(sanitize_address("127.0.0.1:50010"), "127.0.0.1_50010");
    assert_eq!(sanitize_address("host"), "host");
    assert_eq!(sanitize_address(""), "");
}

#[test]
fn blob_path_layout() {
    assert_eq!(
        chunk_file_path("127.0.0.1_50010", "data", "f.txt_chunk_0"),
        "127.0.0.1_50010/data/f.txt_chunk_0"
    );
}

#[test]
fn held_set_add_remove() {
    let mut s = server(false);
    s.add_chunk(String::from("f_chunk_0"));
    s.add_chunk(String::from("f_chunk_1"));
    s.add_chunk(String::from("f_chunk_0"));
    assert_eq!(s.heartbeat_chunks(), vec![String::from("f_chunk_0"), String::from("f_chunk_1")]);
    assert!(s.remove_chunk(&String::from("f_chunk_0")));
    assert!(!s.remove_chunk(&String::from("f_chunk_0")));
    assert_eq!(s.heartbeat_chunks(), vec![String::from("f_chunk_1")]);
}

#[test]
fn otp_gate() {
    // With authentication off, any OTP passes.
    let off = server(false);
    assert_eq!(off.validate_otp(&String::from("anything"), 10), Ok(()));
    // With it on, an unknown OTP is rejected; a minted one passes until
    // its expiry and not afterwards.
    let mut on = server(true);
    assert_eq!(on.validate_otp(&String::from("unknown"), 10), Err(FsError::Unauthenticated));
    on.register_otp(String::from("otp-1"), 400);
    assert_eq!(on.validate_otp(&String::from("otp-1"), 399), Ok(()));
    assert_eq!(on.validate_otp(&String::from("otp-1"), 400), Err(FsError::Unauthenticated));
}

#[test]
fn otp_sweep_drops_expired() {
    let mut s = server(true);
    s.register_otp(String::from("old"), 100);
    s.register_otp(String::from("fresh"), 500);
    s.sweep_expired_otps(250);
    assert_eq!(s.validate_otp(&String::from("old"), 50), Err(FsError::Unauthenticated));
    assert_eq!(s.validate_otp(&String::from("fresh"), 250), Ok(()));
    assert_eq!(s.otp_store.len(), 1);
}

#[test]
fn upload_protocol_happy_path() {
    let r = upload_step(
        false,
        UploadFrame::Info { file_name: String::from("f.txt"), chunk_index: 2 },
    );
    let (receiving, action) = r.unwrap();
    assert!(receiving);
    match action {
        UploadAction::CreateBlob { chunk_name } => assert_eq!(chunk_name, "f.txt_chunk_2"),
        _ => panic!("the descriptor must open a blob"),
    }
    let (receiving, action) = upload_step(true, UploadFrame::Payload { data: vec![1, 2, 3] })
        .unwrap();
    assert!(receiving);
    match action {
        UploadAction::AppendBlob { data } => assert_eq!(data, vec![1, 2, 3]),
        _ => panic!("a payload must append"),
    }
}

#[test]
fn upload_protocol_rejects_empty_stream() {
    // A stream that ends without ever carrying a descriptor is rejected;
    // one that carried a descriptor finishes cleanly.
    assert!(matches!(upload_finish(false), Err(FsError::InvalidArgument)));
    assert!(upload_finish(true).is_ok());
}

#[test]
fn upload_protocol_rejects_bad_frames() {
    assert!(matches!(
        upload_step(false, UploadFrame::Payload { data: vec![1] }),
        Err(FsError::InvalidArgument)
    ));
    assert!(matches!(upload_step(false, UploadFrame::Empty), Err(FsError::InvalidArgument)));
    assert!(matches!(upload_step(true, UploadFrame::Empty), Err(FsError::InvalidArgument)));
}
