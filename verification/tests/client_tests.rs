use rustfs::client::{
    concat_chunks, get_all_server_addresses, get_primary_server_addresses,
    get_randomized_server_addresses, split_into_chunks, upload_pieces,
};
use rustfs::errors::FsError;
use rustfs::types::ChunkInfo;

fn info(id: &str, addrs: &[&str]) -> ChunkInfo {
    ChunkInfo {
        chunk_id: String::from(id),
        server_addresses: addrs.iter().map(|a| String::from(*a)).collect(),
        version: 0,
    }
}

#[test]
fn split_makes_chunk_sized_pieces() {
    let data: Vec<u8> = b"HELLOWORLD".to_vec();
    let pieces = split_into_chunks(&data, 4);
    assert_eq!(pieces.len(), 3);
    assert_eq!(pieces[0], b"HELL".to_vec());
    assert_eq!(pieces[1], b"OWOR".to_vec());
    assert_eq!(pieces[2], b"LD".to_vec());
}

#[test]
fn split_of_empty_input_is_empty() {
    let pieces = split_into_chunks(&Vec::new(), 4);
    assert!(pieces.is_empty());
    assert!(concat_chunks(&pieces).is_empty());
}

#[test]
fn read_after_write_roundtrip() {
    // Upload HELLOWORLD with chunk size 4, read the chunks back in order:
    // the concatenation is the original bytes.
    let data: Vec<u8> = b"HELLOWORLD".to_vec();
    let pieces = split_into_chunks(&data, 4);
    assert_eq!(concat_chunks(&pieces), data);
    // The same holds when the size divides evenly, and for size 1.
    let data2: Vec<u8> = b"12345678".to_vec();
    assert_eq!(concat_chunks(&split_into_chunks(&data2, 4)), data2);
    assert_eq!(concat_chunks(&split_into_chunks(&data2, 1)), data2);
    assert_eq!(concat_chunks(&split_into_chunks(&data2, 100)), data2);
}

#[test]
fn upload_pieces_checks_placement_length() {
    let data: Vec<u8> = b"HELLOWORLD".to_vec();
    let ok = upload_pieces(&data, 4, 3).unwrap();
    assert_eq!(ok.len(), 3);
    assert_eq!(upload_pieces(&data, 4, 2), Err(FsError::InvalidArgument));
}

#[test]
fn primary_addresses_take_the_first_replica() {
    let list = vec![info("f_chunk_0", &["a:1", "b:2"]), info("f_chunk_1", &["b:2", "c:3"])];
    let primaries = get_primary_server_addresses(&list).unwrap();
    assert_eq!(primaries, vec![String::from("a:1"), String::from("b:2")]);
    let empty: Vec<ChunkInfo> = Vec::new();
    assert_eq!(get_primary_server_addresses(&empty), Err(FsError::NotFound));
    let orphan = vec![info("f_chunk_0", &[])];
    assert_eq!(get_primary_server_addresses(&orphan), Err(FsError::NotFound));
}

#[test]
fn all_addresses_keep_every_replica() {
    let list = vec![info("f_chunk_0", &["a:1", "b:2"]), info("f_chunk_1", &["c:3"])];
    let all = get_all_server_addresses(&list).unwrap();
    assert_eq!(all.len(), 2);
    assert_eq!(all[0], vec![String::from("a:1"), String::from("b:2")]);
    assert_eq!(all[1], vec![String::from("c:3")]);
    let empty: Vec<ChunkInfo> = Vec::new();
    assert_eq!(get_all_server_addresses(&empty), Err(FsError::NotFound));
}

#[test]
fn randomized_addresses_pick_existing_replicas() {
    // With one replica per chunk the random pick is forced, so a broken
    // sampler (one returning an out-of-range index) would panic here.
    let list = vec![info("f_chunk_0", &["a:1"]), info("f_chunk_1", &["b:2"])];
    let picks = get_randomized_server_addresses(&list).unwrap();
    assert_eq!(picks, vec![String::from("a:1"), String::from("b:2")]);
    // With several replicas, every pick is one of the chunk's own.
    let list = vec![info("f_chunk_0", &["a:1", "b:2", "c:3"])];
    for _ in 0..16 {
        let picks = get_randomized_server_addresses(&list).unwrap();
        assert!(list[0].server_addresses.contains(&picks[0]));
    }
    let orphan = vec![info("f_chunk_0", &[])];
    assert_eq!(get_randomized_server_addresses(&orphan), Err(FsError::NotFound));
}
