use rustfs::leader::{determine_leader, PingOutcome};

fn addrs(list: &[&str]) -> Vec<String> {
    list.iter().map(|a| String::from(*a)).collect()
}

#[test]
fn first_answering_leader_wins() {
    let me = String::from("m3");
    let masters = addrs(&["m1", "m2", "m3"]);
    let outcomes = vec![PingOutcome::Follower, PingOutcome::Leader, PingOutcome::Leader];
    assert_eq!(determine_leader(&me, &masters, &outcomes), Some(1));
}

#[test]
fn own_address_is_skipped() {
    let me = String::from("m1");
    let masters = addrs(&["m1", "m2"]);
    // Even if the scan would see this node's own row first, it never
    // elects itself through a ping.
    let outcomes = vec![PingOutcome::Leader, PingOutcome::Leader];
    assert_eq!(determine_leader(&me, &masters, &outcomes), Some(1));
}

#[test]
fn no_leader_found_means_this_node_leads() {
    let me = String::from("m1");
    let masters = addrs(&["m1", "m2", "m3"]);
    let outcomes = vec![PingOutcome::Follower, PingOutcome::Unreachable, PingOutcome::Follower];
    assert_eq!(determine_leader(&me, &masters, &outcomes), None);
}
