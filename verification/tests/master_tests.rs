use rustfs::config::{CommonConfig, MasterConfig};
use rustfs::errors::FsError;
use rustfs::master::{check_credentials, otp_expiry, Credential, MasterService};

fn common(chunk_size: u64, replication_factor: usize, max_allowed_chunks: usize) -> CommonConfig {
    CommonConfig {
        master_addrs: vec![String::from("127.0.0.1:50051")],
        heartbeat_interval: 5,
        shadow_master_ping_interval: 5,
        chunk_size,
        max_allowed_chunks,
        replication_factor,
        log_level: String::from("info"),
        log_output: String::from("stdout"),
        otp_valid_duration: 300,
        use_authentication: false,
    }
}

fn master_cfg() -> MasterConfig {
    MasterConfig {
        log_path: String::from("logs"),
        cron_interval: 5,
        heartbeat_failure_threshold: 3,
        authentication_file_path: String::from("credentials.toml"),
    }
}

fn fresh_master(chunk_size: u64, rf: usize, max: usize) -> MasterService {
    MasterService::new(
        "127.0.0.1:50051",
        master_cfg(),
        common(chunk_size, rf, max),
        true,
        "127.0.0.1:50051",
    )
}

#[test]
fn placement_two_servers_three_chunks() {
    // chunk_size 4, replication factor 2, two empty chunkservers: a
    // 9-byte file becomes three chunks, each replicated on both.
    let mut m = fresh_master(4, 2, 100);
    m.register_chunk_server(String::from("a:1"));
    m.register_chunk_server(String::from("b:2"));
    let (name, list) = m
        .assign_chunks(&String::from("f.txt"), 9)
        .expect("assignment must succeed with two available servers");
    assert_eq!(name, "f.txt");
    assert_eq!(list.len(), 3);
    for (i, info) in list.iter().enumerate() {
        assert_eq!(info.chunk_id, format!("f.txt_chunk_{}", i));
        assert_eq!(info.version, 0);
        let mut addrs: Vec<String> = info.server_addresses.clone();
        addrs.sort();
        assert_eq!(addrs, vec![String::from("a:1"), String::from("b:2")]);
    }
}

#[test]
fn placement_name_collision_gets_suffix() {
    let mut m = fresh_master(4, 2, 100);
    m.register_chunk_server(String::from("a:1"));
    m.register_chunk_server(String::from("b:2"));
    let (first, _) = m.assign_chunks(&String::from("f.txt"), 9).unwrap();
    assert_eq!(first, "f.txt");
    let (second, list) = m.assign_chunks(&String::from("f.txt"), 9).unwrap();
    assert_eq!(second, "f.txt-1");
    assert_eq!(list[0].chunk_id, "f.txt-1_chunk_0");
    let (third, _) = m.assign_chunks(&String::from("f.txt"), 9).unwrap();
    assert_eq!(third, "f.txt-2");
}

#[test]
fn placement_no_servers_is_internal_error() {
    let mut m = fresh_master(4, 2, 100);
    assert_eq!(m.assign_chunks(&String::from("f.txt"), 9).err(), Some(FsError::Internal));
}

#[test]
fn placement_full_servers_is_internal_error() {
    // One server whose load is already at the cap: nothing is available.
    let mut m = fresh_master(4, 1, 1);
    m.register_chunk_server(String::from("a:1"));
    let _ = m.assign_chunks(&String::from("x"), 1).unwrap();
    assert_eq!(m.assign_chunks(&String::from("y"), 1).err(), Some(FsError::Internal));
}

#[test]
fn placement_fewer_servers_than_replication_factor() {
    // Replication factor 3 but only one server: each chunk gets one copy.
    let mut m = fresh_master(4, 3, 100);
    m.register_chunk_server(String::from("a:1"));
    let (_, list) = m.assign_chunks(&String::from("f"), 4).unwrap();
    assert_eq!(list.len(), 1);
    assert_eq!(list[0].server_addresses, vec![String::from("a:1")]);
}

#[test]
fn placement_prefers_least_loaded_servers() {
    // One chunk already sits on the first server; the next file's single
    // chunk with replication factor 2 goes to the two idle servers.
    let mut m = fresh_master(4, 1, 100);
    m.register_chunk_server(String::from("a:1"));
    m.register_chunk_server(String::from("b:2"));
    m.register_chunk_server(String::from("c:3"));
    let (_, first) = m.assign_chunks(&String::from("warm"), 1).unwrap();
    assert_eq!(first[0].server_addresses.len(), 1);
    let loaded = first[0].server_addresses[0].clone();
    m.common_config.replication_factor = 2;
    let (_, second) = m.assign_chunks(&String::from("cold"), 1).unwrap();
    assert_eq!(second[0].server_addresses.len(), 2);
    assert!(!second[0].server_addresses.contains(&loaded));
}

#[test]
fn chunk_count_rounds_up() {
    let mut m = fresh_master(4, 1, 100);
    m.register_chunk_server(String::from("a:1"));
    let (_, list) = m.assign_chunks(&String::from("f"), 8).unwrap();
    assert_eq!(list.len(), 2);
    let (_, list) = m.assign_chunks(&String::from("g"), 1).unwrap();
    assert_eq!(list.len(), 1);
    let (_, list) = m.assign_chunks(&String::from("h"), 0).unwrap();
    assert_eq!(list.len(), 0);
}

#[test]
fn get_file_chunks_not_found() {
    let m = fresh_master(4, 2, 100);
    assert_eq!(m.get_file_chunks(&String::from("nope")).err(), Some(FsError::NotFound));
}

#[test]
fn get_file_chunks_returns_assignment() {
    let mut m = fresh_master(4, 2, 100);
    m.register_chunk_server(String::from("a:1"));
    let (name, list) = m.assign_chunks(&String::from("f"), 7).unwrap();
    let got = m.get_file_chunks(&name).unwrap();
    assert_eq!(got.len(), list.len());
    assert_eq!(got[0].chunk_id, "f_chunk_0");
    assert_eq!(got[1].chunk_id, "f_chunk_1");
}

#[test]
fn delete_file_removes_everything() {
    let mut m = fresh_master(4, 2, 100);
    m.register_chunk_server(String::from("a:1"));
    m.register_chunk_server(String::from("b:2"));
    let (name, _) = m.assign_chunks(&String::from("f.txt"), 9).unwrap();
    assert!(m.delete_file(&name));
    assert_eq!(m.get_file_chunks(&name).err(), Some(FsError::NotFound));
    // No load entry keeps any of the file's chunks.
    for entry in &m.chunk_servers {
        assert!(entry.chunks.iter().all(|c| !c.chunk_id.starts_with("f.txt_chunk_")));
    }
    // The chunk table keeps no record either.
    assert!(m.chunk_map.iter().all(|e| !e.key.starts_with("f.txt_chunk_")));
}

#[test]
fn delete_missing_file_reports_failure() {
    let mut m = fresh_master(4, 2, 100);
    assert!(!m.delete_file(&String::from("ghost")));
}

#[test]
fn heartbeat_is_idempotent_on_load() {
    let mut m = fresh_master(4, 2, 100);
    m.register_chunk_server(String::from("a:1"));
    m.register_chunk_server(String::from("b:2"));
    let (_, list) = m.assign_chunks(&String::from("f"), 4).unwrap();
    let reported = vec![list[0].chunk_id.clone(), String::from("unknown_chunk_9")];
    m.heartbeat(String::from("a:1"), reported.clone(), 100);
    let after_first: Vec<(String, Vec<String>)> = m
        .chunk_servers
        .iter()
        .map(|e| (e.key.clone(), e.chunks.iter().map(|c| c.chunk_id.clone()).collect()))
        .collect();
    m.heartbeat(String::from("a:1"), reported, 100);
    let after_second: Vec<(String, Vec<String>)> = m
        .chunk_servers
        .iter()
        .map(|e| (e.key.clone(), e.chunks.iter().map(|c| c.chunk_id.clone()).collect()))
        .collect();
    assert_eq!(after_first, after_second);
}

#[test]
fn heartbeat_skips_unknown_chunks() {
    let mut m = fresh_master(4, 2, 100);
    m.register_chunk_server(String::from("a:1"));
    m.heartbeat(String::from("a:1"), vec![String::from("nobody_chunk_0")], 7);
    assert_eq!(m.chunk_servers[0].chunks.len(), 0);
    assert_eq!(m.last_heartbeat_time[0].key, "a:1");
    assert_eq!(m.last_heartbeat_time[0].time, 7);
}

#[test]
fn reregistration_resets_load() {
    let mut m = fresh_master(4, 1, 100);
    m.register_chunk_server(String::from("a:1"));
    let _ = m.assign_chunks(&String::from("f"), 4).unwrap();
    assert_eq!(m.chunk_servers[0].chunks.len(), 1);
    m.register_chunk_server(String::from("a:1"));
    assert_eq!(m.chunk_servers.len(), 1);
    assert_eq!(m.chunk_servers[0].chunks.len(), 0);
}

#[test]
fn re_replication_after_failure() {
    // Replication factor 2, three servers; the chunk lives on a and b.
    // b goes silent: the checker orders one transfer from a to c, the
    // record becomes {a, c} and its version rises by one.
    let mut m = fresh_master(4, 2, 100);
    m.register_chunk_server(String::from("a:1"));
    m.register_chunk_server(String::from("b:2"));
    m.register_chunk_server(String::from("c:3"));
    let (_, list) = m.assign_chunks(&String::from("f"), 4).unwrap();
    let id = list[0].chunk_id.clone();
    let mut placed: Vec<String> = list[0].server_addresses.clone();
    placed.sort();
    assert_eq!(placed, vec![String::from("a:1"), String::from("b:2")]);
    // a and c stay fresh; b last spoke at time 0.
    m.heartbeat(String::from("a:1"), vec![id.clone()], 100);
    m.heartbeat(String::from("b:2"), vec![id.clone()], 0);
    m.heartbeat(String::from("c:3"), vec![], 100);
    // window = threshold 3 x interval 5 = 15; at time 100, b is dead.
    let cmds = m.heartbeat_check_step(100);
    assert_eq!(cmds.len(), 1);
    assert_eq!(cmds[0].source, "a:1");
    assert_eq!(cmds[0].chunk_id, id);
    assert_eq!(cmds[0].target, "c:3");
    let entry = m.chunk_map.iter().find(|e| e.key == id).unwrap();
    let mut addrs = entry.info.server_addresses.clone();
    addrs.sort();
    assert_eq!(addrs, vec![String::from("a:1"), String::from("c:3")]);
    assert_eq!(entry.info.version, 1);
    // b's liveness entry is gone; a's and c's remain.
    assert!(m.last_heartbeat_time.iter().all(|e| e.key != "b:2"));
    assert_eq!(m.last_heartbeat_time.len(), 2);
    // b's load entry is gone; the live servers keep theirs.
    assert!(m.chunk_servers.iter().all(|e| e.key != "b:2"));
    assert!(m.chunk_servers.iter().any(|e| e.key == "a:1"));
    assert!(m.chunk_servers.iter().any(|e| e.key == "c:3"));
}

#[test]
fn checker_skips_chunk_without_survivors() {
    let mut m = fresh_master(4, 1, 100);
    m.register_chunk_server(String::from("a:1"));
    m.register_chunk_server(String::from("b:2"));
    let (_, list) = m.assign_chunks(&String::from("f"), 4).unwrap();
    let id = list[0].chunk_id.clone();
    let holder = list[0].server_addresses[0].clone();
    let other = if holder == "a:1" { "b:2" } else { "a:1" };
    m.heartbeat(holder.clone(), vec![id.clone()], 0);
    m.heartbeat(String::from(other), vec![], 100);
    // The only replica's server died: data loss, nothing to transfer.
    let cmds = m.heartbeat_check_step(100);
    assert!(cmds.is_empty());
    let entry = m.chunk_map.iter().find(|e| e.key == id).unwrap();
    assert_eq!(entry.info.version, 0);
}

#[test]
fn metadata_propagation_to_shadow() {
    let mut leader = fresh_master(4, 2, 100);
    leader.register_chunk_server(String::from("a:1"));
    leader.register_chunk_server(String::from("b:2"));
    let _ = leader.assign_chunks(&String::from("f"), 9).unwrap();
    let snapshot = leader.collect_metadata();
    let mut shadow = MasterService::new(
        "127.0.0.1:50052",
        master_cfg(),
        common(4, 2, 100),
        false,
        "127.0.0.1:50051",
    );
    shadow.update_metadata(snapshot);
    let l: Vec<(String, Vec<String>)> = leader
        .file_chunks
        .iter()
        .map(|e| (e.key.clone(), e.chunks.iter().map(|c| c.chunk_id.clone()).collect()))
        .collect();
    let s: Vec<(String, Vec<String>)> = shadow
        .file_chunks
        .iter()
        .map(|e| (e.key.clone(), e.chunks.iter().map(|c| c.chunk_id.clone()).collect()))
        .collect();
    assert_eq!(l, s);
}

#[test]
fn ping_master_registers_shadow_only_on_leader() {
    let mut leader = fresh_master(4, 2, 100);
    assert!(leader.ping_master(String::from("127.0.0.1:50052")));
    assert!(leader.ping_master(String::from("127.0.0.1:50052")));
    assert_eq!(leader.shadow_masters, vec![String::from("127.0.0.1:50052")]);
    let mut shadow = MasterService::new(
        "127.0.0.1:50052",
        master_cfg(),
        common(4, 2, 100),
        false,
        "127.0.0.1:50051",
    );
    assert!(!shadow.ping_master(String::from("127.0.0.1:50053")));
    assert!(shadow.shadow_masters.is_empty());
}

#[test]
fn shadow_takes_over_when_leader_unreachable() {
    let mut shadow = MasterService::new(
        "127.0.0.1:50052",
        master_cfg(),
        common(4, 2, 100),
        false,
        "127.0.0.1:50051",
    );
    assert!(!shadow.is_leader());
    assert!(!shadow.shadow_ping_step(true));
    assert!(!shadow.is_leader());
    assert!(shadow.shadow_ping_step(false));
    assert!(shadow.is_leader());
    // A node that already leads never flips again.
    assert!(!shadow.shadow_ping_step(false));
    assert!(shadow.is_leader());
}

#[test]
fn credentials_and_otp_expiry() {
    let creds = vec![Credential {
        username: String::from("alice"),
        password: String::from("letmein-123"),
    }];
    assert!(check_credentials(&creds, &String::from("alice"), &String::from("letmein-123")));
    assert!(!check_credentials(&creds, &String::from("alice"), &String::from("wrong")));
    assert!(!check_credentials(&creds, &String::from("bob"), &String::from("letmein-123")));
    assert_eq!(otp_expiry(100, 300), Some(400));
    assert_eq!(otp_expiry(u64::MAX, 1), None);
}
