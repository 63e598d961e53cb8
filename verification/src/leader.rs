//! Leader discovery at startup: the decision over the answers the other
//! configured masters gave to this node's pings.  The process dials and
//! pings; the choice of leader is made here.

use vstd::prelude::*;

verus! {

/// What one configured master answered to a ping: nothing (unreachable or
/// erring), that it is not the leader, or that it is.
#[derive(Clone, Copy, PartialEq, Eq, Structural, Debug)]
pub enum PingOutcome {
    Unreachable,
    Follower,
    Leader,
}

/// Picks the current leader from the ping answers, walking the configured
/// addresses in order and skipping this node's own: the first that
/// answered `Leader` wins; if none did, there is no leader and the caller
/// itself must lead.
pub fn determine_leader(
    self_addr: &String,
    master_addrs: &Vec<String>,
    outcomes: &Vec<PingOutcome>,
) -> (r: Option<usize>)
    requires
        master_addrs@.len() == outcomes@.len(),
    ensures
        match r {
            Some(i) => i < master_addrs@.len() && master_addrs.deep_view()[i as int] != self_addr@
                && outcomes@[i as int] == PingOutcome::Leader && (forall|j: int|
                0 <= j < i ==> master_addrs.deep_view()[j] == self_addr@ || outcomes@[j]
                    != PingOutcome::Leader),
            None => forall|j: int|
                0 <= j < master_addrs@.len() ==> master_addrs.deep_view()[j] == self_addr@
                    || outcomes@[j] != PingOutcome::Leader,
        },
{
    let n = master_addrs.len();
    let mut i: usize = 0;
    while i < n
        invariant
            n == master_addrs@.len(),
            n == outcomes@.len(),
            i <= n,
            forall|j: int|
                0 <= j < i ==> master_addrs.deep_view()[j] == self_addr@ || outcomes@[j]
                    != PingOutcome::Leader,
        decreases n - i,
    {
        if !(master_addrs[i] == *self_addr) {
            if outcomes[i] == PingOutcome::Leader {
                return Some(i);
            }
        }
        i = i + 1;
    }
    None
}

} // verus!
