//! The metadata coordinator: file-to-chunk placement, chunkserver liveness,
//! and the shadow-master bookkeeping, as one sequential state machine.
//!
//! Every request handler of the master process and its failure-detection
//! task boils down to a call of one of the methods here; the surrounding
//! process only moves bytes and timestamps in and out.

use crate::chunk_id::spec_chunk_id;
use crate::config::{CommonConfig, MasterConfig};
use crate::errors::FsError;
use crate::keyed::{
    has_key, key_index, keys_unique, lemma_key_index, lemma_remove_key, lemma_upsert, remove_key,
    upsert, val_of,
};
use crate::types::{
    find_chunk_list, find_chunk_map, find_heartbeat, ChunkInfo, ChunkInfoView, ChunkListEntry,
    ChunkMapEntry, HeartbeatEntry, Metadata,
};
use vstd::prelude::*;
use vstd::string::StringExecFns;

verus! {

/// No two addresses repeat in a shadow-master list.
pub open spec fn strings_unique(s: Seq<Seq<char>>) -> bool {
    forall|i: int, j: int| 0 <= i < j < s.len() ==> s[i] != s[j]
}

/// A set-like insertion into an address list.
pub open spec fn insert_string(s: Seq<Seq<char>>, x: Seq<char>) -> Seq<Seq<char>> {
    if s.contains(x) {
        s
    } else {
        s.push(x)
    }
}

/// Every chunk listed under a file carries the canonical id of its file and
/// index.
pub open spec fn files_well_named(fc: Seq<(Seq<char>, Seq<ChunkInfoView>)>) -> bool {
    forall|i: int, j: int|
        0 <= i < fc.len() && 0 <= j < fc[i].1.len() ==> (#[trigger] fc[i].1[j]).chunk_id
            == spec_chunk_id(fc[i].0, j)
}

/// Every chunk listed under a file is registered in the chunk table under
/// its id, with the identical record (so in particular the same version).
pub open spec fn files_registered(
    fc: Seq<(Seq<char>, Seq<ChunkInfoView>)>,
    cm: Seq<(Seq<char>, ChunkInfoView)>,
) -> bool {
    forall|i: int, j: int|
        0 <= i < fc.len() && 0 <= j < fc[i].1.len() ==> has_key(
            cm,
            (#[trigger] fc[i].1[j]).chunk_id,
        ) && val_of(cm, fc[i].1[j].chunk_id) == fc[i].1[j]
}

/// Every chunk-table entry is keyed by its record's own id.
pub open spec fn cmap_keyed(cm: Seq<(Seq<char>, ChunkInfoView)>) -> bool {
    forall|i: int| 0 <= i < cm.len() ==> (#[trigger] cm[i]).0 == cm[i].1.chunk_id
}

/// `c` is listed under some file of the file table.
pub open spec fn covered_by(c: ChunkInfoView, fc: Seq<(Seq<char>, Seq<ChunkInfoView>)>) -> bool {
    exists|g: int, j: int| 0 <= g < fc.len() && 0 <= j < fc[g].1.len() && #[trigger] fc[g].1[j] == c
}

/// Every chunk-table record is listed under some file.
pub open spec fn cmap_covered(
    cm: Seq<(Seq<char>, ChunkInfoView)>,
    fc: Seq<(Seq<char>, Seq<ChunkInfoView>)>,
) -> bool {
    forall|i: int| 0 <= i < cm.len() ==> covered_by((#[trigger] cm[i]).1, fc)
}

/// Every chunk a load entry lists is registered in the chunk table with the
/// identical record.
pub open spec fn loads_registered(
    cs: Seq<(Seq<char>, Seq<ChunkInfoView>)>,
    cm: Seq<(Seq<char>, ChunkInfoView)>,
) -> bool {
    forall|i: int, j: int|
        0 <= i < cs.len() && 0 <= j < cs[i].1.len() ==> has_key(
            cm,
            (#[trigger] cs[i].1[j]).chunk_id,
        ) && val_of(cm, cs[i].1[j].chunk_id) == cs[i].1[j]
}

/// No chunk id repeats anywhere in the file table.
pub open spec fn file_ids_unique(fc: Seq<(Seq<char>, Seq<ChunkInfoView>)>) -> bool {
    forall|g1: int, j1: int, g2: int, j2: int|
        0 <= g1 < fc.len() && 0 <= j1 < fc[g1].1.len() && 0 <= g2 < fc.len() && 0 <= j2
            < fc[g2].1.len() && (g1 != g2 || j1 != j2) ==> (#[trigger] fc[g1].1[j1]).chunk_id != (
        #[trigger] fc[g2].1[j2]).chunk_id
}

/// Mutual consistency of the three metadata tables.
pub open spec fn tables_consistent(
    fc: Seq<(Seq<char>, Seq<ChunkInfoView>)>,
    cs: Seq<(Seq<char>, Seq<ChunkInfoView>)>,
    cm: Seq<(Seq<char>, ChunkInfoView)>,
) -> bool {
    &&& files_well_named(fc)
    &&& file_ids_unique(fc)
    &&& files_registered(fc, cm)
    &&& cmap_keyed(cm)
    &&& cmap_covered(cm, fc)
    &&& loads_registered(cs, cm)
}

/// The master's whole in-memory state, as plain tables; a process wraps
/// the state in whatever lock or guard its runtime asks for.
#[derive(Debug)]
pub struct MasterService {
    /// File name to its chunks, in chunk-index order.
    pub file_chunks: Vec<ChunkListEntry>,
    /// Chunkserver address to the chunks it is believed to hold.
    pub chunk_servers: Vec<ChunkListEntry>,
    /// Chunkserver address to the unix time of its last heartbeat.
    pub last_heartbeat_time: Vec<HeartbeatEntry>,
    /// Chunk id to the authoritative record.
    pub chunk_map: Vec<ChunkMapEntry>,
    /// Addresses that have pinged this node while it was leader.
    pub shadow_masters: Vec<String>,
    /// The address this node currently believes to be leader.
    pub current_master: String,
    /// Whether this node is the leader.
    pub is_leader_flag: bool,
    /// This node's own address.
    pub addr: String,
    pub config: MasterConfig,
    pub common_config: CommonConfig,
}

impl MasterService {
    /// Structural well-formedness: no table holds two entries for one key.
    pub open spec fn wf(self) -> bool {
        &&& keys_unique(self.file_chunks.deep_view())
        &&& keys_unique(self.chunk_servers.deep_view())
        &&& keys_unique(self.last_heartbeat_time.deep_view())
        &&& keys_unique(self.chunk_map.deep_view())
        &&& strings_unique(self.shadow_masters.deep_view())
    }

    /// Full consistency: well-formed and the tables agree with one another.
    pub open spec fn consistent(self) -> bool {
        &&& self.wf()
        &&& tables_consistent(
            self.file_chunks.deep_view(),
            self.chunk_servers.deep_view(),
            self.chunk_map.deep_view(),
        )
    }

    /// A fresh master with empty tables.
    pub fn new(
        addr: &str,
        config: MasterConfig,
        common_config: CommonConfig,
        is_leader: bool,
        current_master: &str,
    ) -> (r: MasterService)
        ensures
            r.consistent(),
            r.file_chunks.deep_view() == Seq::<(Seq<char>, Seq<ChunkInfoView>)>::empty(),
            r.chunk_servers.deep_view() == Seq::<(Seq<char>, Seq<ChunkInfoView>)>::empty(),
            r.last_heartbeat_time.deep_view() == Seq::<(Seq<char>, u64)>::empty(),
            r.chunk_map.deep_view() == Seq::<(Seq<char>, ChunkInfoView)>::empty(),
            r.shadow_masters.deep_view() == Seq::<Seq<char>>::empty(),
            r.addr@ == addr@,
            r.current_master@ == current_master@,
            r.is_leader_flag == is_leader,
            r.config == config,
            r.common_config == common_config,
    {
        let r = MasterService {
            file_chunks: Vec::new(),
            chunk_servers: Vec::new(),
            last_heartbeat_time: Vec::new(),
            chunk_map: Vec::new(),
            shadow_masters: Vec::new(),
            current_master: String::from_str(current_master),
            is_leader_flag: is_leader,
            addr: String::from_str(addr),
            config,
            common_config,
        };
        proof {
            assert(r.file_chunks.deep_view() =~= Seq::<(Seq<char>, Seq<ChunkInfoView>)>::empty());
            assert(r.chunk_servers.deep_view() =~= Seq::<(Seq<char>, Seq<ChunkInfoView>)>::empty());
            assert(r.last_heartbeat_time.deep_view() =~= Seq::<(Seq<char>, u64)>::empty());
            assert(r.chunk_map.deep_view() =~= Seq::<(Seq<char>, ChunkInfoView)>::empty());
            assert(r.shadow_masters.deep_view() =~= Seq::<Seq<char>>::empty());
        }
        r
    }

    /// Whether this node is the leader.
    pub fn is_leader(&self) -> (r: bool)
        ensures
            r == self.is_leader_flag,
    {
        self.is_leader_flag
    }

    /// Registers a chunkserver: its load entry is created empty, or reset to
    /// empty when the server re-registers.  Registering twice is the same as
    /// registering once.
    pub fn register_chunk_server(&mut self, address: String)
        requires
            old(self).wf(),
        ensures
            final(self).wf(),
            final(self).chunk_servers.deep_view() == upsert(
                old(self).chunk_servers.deep_view(),
                address@,
                Seq::<ChunkInfoView>::empty(),
            ),
            final(self).file_chunks == old(self).file_chunks,
            final(self).last_heartbeat_time == old(self).last_heartbeat_time,
            final(self).chunk_map == old(self).chunk_map,
            final(self).shadow_masters == old(self).shadow_masters,
            final(self).current_master == old(self).current_master,
            final(self).is_leader_flag == old(self).is_leader_flag,
            final(self).addr == old(self).addr,
            final(self).config == old(self).config,
            final(self).common_config == old(self).common_config,
    {
        let ghost pre = self.chunk_servers.deep_view();
        match find_chunk_list(&self.chunk_servers, &address) {
            Some(i) => {
                proof {
                    lemma_key_index(pre, address@);
                    assert(key_index(pre, address@) == i);
                }
                let mut e = self.chunk_servers.remove(i);
                e.chunks = Vec::new();
                self.chunk_servers.insert(i, e);
                proof {
                    assert(e.chunks.deep_view() =~= Seq::<ChunkInfoView>::empty());
                    assert(self.chunk_servers.deep_view() =~= upsert(
                        pre,
                        address@,
                        Seq::<ChunkInfoView>::empty(),
                    ));
                    lemma_upsert(pre, address@, Seq::<ChunkInfoView>::empty());
                }
            },
            None => {
                let e = ChunkListEntry { key: address, chunks: Vec::new() };
                self.chunk_servers.push(e);
                proof {
                    assert(e.chunks.deep_view() =~= Seq::<ChunkInfoView>::empty());
                    assert(self.chunk_servers.deep_view() =~= upsert(
                        pre,
                        e.key@,
                        Seq::<ChunkInfoView>::empty(),
                    ));
                    lemma_upsert(pre, e.key@, Seq::<ChunkInfoView>::empty());
                }
            },
        }
    }

    /// Looks a file up and returns its chunks in index order, or `NotFound`.
    pub fn get_file_chunks(&self, file_name: &String) -> (r: Result<&Vec<ChunkInfo>, FsError>)
        requires
            self.wf(),
        ensures
            match r {
                Ok(chunks) => has_key(self.file_chunks.deep_view(), file_name@)
                    && chunks.deep_view() == val_of(self.file_chunks.deep_view(), file_name@),
                Err(e) => e == FsError::NotFound && !has_key(
                    self.file_chunks.deep_view(),
                    file_name@,
                ),
            },
    {
        match find_chunk_list(&self.file_chunks, file_name) {
            Some(i) => {
                proof {
                    lemma_key_index(self.file_chunks.deep_view(), file_name@);
                    assert(key_index(self.file_chunks.deep_view(), file_name@) == i);
                }
                Ok(&self.file_chunks[i].chunks)
            },
            None => Err(FsError::NotFound),
        }
    }

    /// Handles a shadow's ping.  A leader records the sender as a shadow
    /// master; the reply says whether this node is the leader.
    pub fn ping_master(&mut self, sender_address: String) -> (r: bool)
        requires
            old(self).wf(),
        ensures
            final(self).wf(),
            r == old(self).is_leader_flag,
            old(self).is_leader_flag ==> final(self).shadow_masters.deep_view() == insert_string(
                old(self).shadow_masters.deep_view(),
                sender_address@,
            ),
            !old(self).is_leader_flag ==> final(self).shadow_masters
                == old(self).shadow_masters,
            final(self).file_chunks == old(self).file_chunks,
            final(self).chunk_servers == old(self).chunk_servers,
            final(self).last_heartbeat_time == old(self).last_heartbeat_time,
            final(self).chunk_map == old(self).chunk_map,
            final(self).current_master == old(self).current_master,
            final(self).is_leader_flag == old(self).is_leader_flag,
            final(self).addr == old(self).addr,
            final(self).config == old(self).config,
            final(self).common_config == old(self).common_config,
    {
        if self.is_leader_flag {
            let ghost pre = self.shadow_masters.deep_view();
            let present = crate::types::contains_string(&self.shadow_masters, &sender_address);
            if !present {
                self.shadow_masters.push(sender_address);
                proof {
                    assert(self.shadow_masters.deep_view() =~= pre.push(sender_address@));
                    assert forall|i: int, j: int|
                        0 <= i < j < self.shadow_masters.deep_view().len() implies self
                        .shadow_masters
                        .deep_view()[i] != self.shadow_masters.deep_view()[j] by {
                        if j == pre.len() {
                            assert(!pre.contains(sender_address@));
                            assert(pre[i] != sender_address@);
                        }
                    }
                }
            }
        }
        self.is_leader_flag
    }

    /// Replaces the three metadata tables wholesale with what the leader
    /// sent.  Applying the same update twice is the same as applying it
    /// once, since the result depends on the update alone.
    pub fn update_metadata(&mut self, metadata: Metadata)
        requires
            old(self).wf(),
            keys_unique(metadata.file_chunks.deep_view()),
            keys_unique(metadata.chunk_servers.deep_view()),
            keys_unique(metadata.chunk_map.deep_view()),
        ensures
            final(self).wf(),
            final(self).file_chunks.deep_view() == metadata.file_chunks.deep_view(),
            final(self).chunk_servers.deep_view() == metadata.chunk_servers.deep_view(),
            final(self).chunk_map.deep_view() == metadata.chunk_map.deep_view(),
            final(self).last_heartbeat_time == old(self).last_heartbeat_time,
            final(self).shadow_masters == old(self).shadow_masters,
            final(self).current_master == old(self).current_master,
            final(self).is_leader_flag == old(self).is_leader_flag,
            final(self).addr == old(self).addr,
            final(self).config == old(self).config,
            final(self).common_config == old(self).common_config,
    {
        let Metadata { file_chunks, chunk_servers, chunk_map } = metadata;
        self.file_chunks = file_chunks;
        self.chunk_servers = chunk_servers;
        self.chunk_map = chunk_map;
    }

    /// Snapshots the three metadata tables for propagation to the shadows.
    pub fn collect_metadata(&self) -> (r: Metadata)
        ensures
            r.file_chunks.deep_view() == self.file_chunks.deep_view(),
            r.chunk_servers.deep_view() == self.chunk_servers.deep_view(),
            r.chunk_map.deep_view() == self.chunk_map.deep_view(),
    {
        let r = Metadata {
            file_chunks: self.file_chunks.clone(),
            chunk_servers: self.chunk_servers.clone(),
            chunk_map: self.chunk_map.clone(),
        };
        proof {
            assert(r.file_chunks.deep_view() =~= self.file_chunks.deep_view());
            assert(r.chunk_servers.deep_view() =~= self.chunk_servers.deep_view());
            assert(r.chunk_map.deep_view() =~= self.chunk_map.deep_view());
        }
        r
    }
}

/// The load list a heartbeat reconstructs: each reported chunk id resolved
/// against the chunk table, in report order; ids the table does not know
/// are skipped, never rejected.
pub open spec fn spec_resolve(
    reported: Seq<Seq<char>>,
    cm: Seq<(Seq<char>, ChunkInfoView)>,
) -> Seq<ChunkInfoView>
    decreases reported.len(),
{
    if reported.len() == 0 {
        Seq::empty()
    } else {
        let rest = spec_resolve(reported.drop_last(), cm);
        if has_key(cm, reported.last()) {
            rest.push(val_of(cm, reported.last()))
        } else {
            rest
        }
    }
}

/// Binds `key` to `chunks` in a chunk-list table.
pub(crate) fn set_chunk_list(entries: &mut Vec<ChunkListEntry>, key: &String, chunks: Vec<ChunkInfo>)
    requires
        keys_unique(old(entries).deep_view()),
    ensures
        keys_unique(final(entries).deep_view()),
        final(entries).deep_view() == upsert(old(entries).deep_view(), key@, chunks.deep_view()),
{
    let ghost pre = entries.deep_view();
    match find_chunk_list(entries, key) {
        Some(i) => {
            proof {
                lemma_key_index(pre, key@);
                assert(key_index(pre, key@) == i);
            }
            let mut e = entries.remove(i);
            e.chunks = chunks;
            entries.insert(i, e);
            proof {
                assert(entries.deep_view() =~= upsert(pre, key@, chunks.deep_view()));
                lemma_upsert(pre, key@, chunks.deep_view());
            }
        },
        None => {
            let e = ChunkListEntry { key: key.clone(), chunks };
            entries.push(e);
            proof {
                assert(entries.deep_view() =~= upsert(pre, key@, e.chunks.deep_view()));
                lemma_upsert(pre, key@, e.chunks.deep_view());
            }
        },
    }
}

/// Binds `key` to the timestamp `time` in the liveness table.
pub(crate) fn set_heartbeat(entries: &mut Vec<HeartbeatEntry>, key: &String, time: u64)
    requires
        keys_unique(old(entries).deep_view()),
    ensures
        keys_unique(final(entries).deep_view()),
        final(entries).deep_view() == upsert(old(entries).deep_view(), key@, time),
{
    let ghost pre = entries.deep_view();
    match find_heartbeat(entries, key) {
        Some(i) => {
            proof {
                lemma_key_index(pre, key@);
                assert(key_index(pre, key@) == i);
            }
            let mut e = entries.remove(i);
            e.time = time;
            entries.insert(i, e);
            proof {
                assert(entries.deep_view() =~= upsert(pre, key@, time));
                lemma_upsert(pre, key@, time);
            }
        },
        None => {
            let e = HeartbeatEntry { key: key.clone(), time };
            entries.push(e);
            proof {
                assert(entries.deep_view() =~= upsert(pre, key@, time));
                lemma_upsert(pre, key@, time);
            }
        },
    }
}

impl MasterService {
    /// Handles one heartbeat: stamps the sender's liveness time and rebuilds
    /// its load entry from the reported chunk ids, resolving each against
    /// the chunk table and skipping unknown ids.
    pub fn heartbeat(&mut self, chunkserver_address: String, chunks: Vec<String>, now: u64)
        requires
            old(self).wf(),
        ensures
            final(self).wf(),
            final(self).last_heartbeat_time.deep_view() == upsert(
                old(self).last_heartbeat_time.deep_view(),
                chunkserver_address@,
                now,
            ),
            final(self).chunk_servers.deep_view() == upsert(
                old(self).chunk_servers.deep_view(),
                chunkserver_address@,
                spec_resolve(chunks.deep_view(), old(self).chunk_map.deep_view()),
            ),
            final(self).file_chunks == old(self).file_chunks,
            final(self).chunk_map == old(self).chunk_map,
            final(self).shadow_masters == old(self).shadow_masters,
            final(self).current_master == old(self).current_master,
            final(self).is_leader_flag == old(self).is_leader_flag,
            final(self).addr == old(self).addr,
            final(self).config == old(self).config,
            final(self).common_config == old(self).common_config,
    {
        let ghost cmv = self.chunk_map.deep_view();
        let mut resolved: Vec<ChunkInfo> = Vec::new();
        let n = chunks.len();
        let mut i: usize = 0;
        proof {
            assert(chunks.deep_view().subrange(0, 0) =~= Seq::<Seq<char>>::empty());
            assert(resolved.deep_view() =~= spec_resolve(chunks.deep_view().subrange(0, 0), cmv));
        }
        while i < n
            invariant
                n == chunks@.len(),
                i <= n,
                self == old(self),
                cmv == self.chunk_map.deep_view(),
                keys_unique(cmv),
                resolved.deep_view() == spec_resolve(
                    chunks.deep_view().subrange(0, i as int),
                    cmv,
                ),
            decreases n - i,
        {
            let ghost prefix = chunks.deep_view().subrange(0, i as int);
            let ghost prefix1 = chunks.deep_view().subrange(0, i as int + 1);
            proof {
                assert(prefix1.drop_last() =~= prefix);
                assert(prefix1.last() == chunks.deep_view()[i as int]);
            }
            match find_chunk_map(&self.chunk_map, &chunks[i]) {
                Some(idx) => {
                    proof {
                        lemma_key_index(cmv, chunks.deep_view()[i as int]);
                        assert(key_index(cmv, chunks.deep_view()[i as int]) == idx);
                    }
                    resolved.push(self.chunk_map[idx].info.clone());
                    proof {
                        assert(resolved.deep_view() =~= spec_resolve(prefix1, cmv));
                    }
                },
                None => {
                    proof {
                        assert(resolved.deep_view() =~= spec_resolve(prefix1, cmv));
                    }
                },
            }
            i = i + 1;
        }
        proof {
            assert(chunks.deep_view().subrange(0, n as int) =~= chunks.deep_view());
        }
        set_heartbeat(&mut self.last_heartbeat_time, &chunkserver_address, now);
        set_chunk_list(&mut self.chunk_servers, &chunkserver_address, resolved);
    }
}

/// The ids of the chunks in one file's list, in index order.
pub open spec fn chunk_ids_of(list: Seq<ChunkInfoView>) -> Seq<Seq<char>> {
    list.map_values(|c: ChunkInfoView| c.chunk_id)
}

/// A load list without the chunks named in `ids`, order otherwise kept.
pub open spec fn strip_chunks(load: Seq<ChunkInfoView>, ids: Seq<Seq<char>>) -> Seq<ChunkInfoView>
    decreases load.len(),
{
    if load.len() == 0 {
        Seq::empty()
    } else {
        let rest = strip_chunks(load.drop_last(), ids);
        if ids.contains(load.last().chunk_id) {
            rest
        } else {
            rest.push(load.last())
        }
    }
}

/// The load table with the chunks named in `ids` removed from every entry.
pub open spec fn strip_loads(
    cs: Seq<(Seq<char>, Seq<ChunkInfoView>)>,
    ids: Seq<Seq<char>>,
) -> Seq<(Seq<char>, Seq<ChunkInfoView>)>
    decreases cs.len(),
{
    if cs.len() == 0 {
        Seq::empty()
    } else {
        strip_loads(cs.drop_last(), ids).push((cs.last().0, strip_chunks(cs.last().1, ids)))
    }
}

/// The chunk table without the entries keyed by `ids`.
pub open spec fn strip_cmap(
    cm: Seq<(Seq<char>, ChunkInfoView)>,
    ids: Seq<Seq<char>>,
) -> Seq<(Seq<char>, ChunkInfoView)>
    decreases cm.len(),
{
    if cm.len() == 0 {
        Seq::empty()
    } else {
        let rest = strip_cmap(cm.drop_last(), ids);
        if ids.contains(cm.last().0) {
            rest
        } else {
            rest.push(cm.last())
        }
    }
}

/// What survives `strip_chunks`: exactly the records of `load` whose id is
/// not in `ids`, kept in order.
pub proof fn lemma_strip_chunks(load: Seq<ChunkInfoView>, ids: Seq<Seq<char>>)
    ensures
        forall|i: int|
            0 <= i < strip_chunks(load, ids).len() ==> load.contains(
                #[trigger] strip_chunks(load, ids)[i],
            ) && !ids.contains(strip_chunks(load, ids)[i].chunk_id),
    decreases load.len(),
{
    if load.len() > 0 {
        lemma_strip_chunks(load.drop_last(), ids);
        let rest = strip_chunks(load.drop_last(), ids);
        let whole = strip_chunks(load, ids);
        assert forall|i: int| 0 <= i < whole.len() implies load.contains(#[trigger] whole[i])
            && !ids.contains(whole[i].chunk_id) by {
            if i < rest.len() {
                assert(whole[i] == rest[i]);
                let j = choose|j: int| 0 <= j < load.drop_last().len() && load.drop_last()[j]
                    == rest[i];
                assert(load[j] == rest[i]);
            } else {
                assert(whole[i] == load.last());
                assert(load[load.len() - 1] == load.last());
            }
        }
    }
}

/// `strip_loads` keeps every key in place and strips each entry's list.
pub proof fn lemma_strip_loads(cs: Seq<(Seq<char>, Seq<ChunkInfoView>)>, ids: Seq<Seq<char>>)
    ensures
        strip_loads(cs, ids).len() == cs.len(),
        forall|i: int|
            0 <= i < cs.len() ==> #[trigger] strip_loads(cs, ids)[i] == (
                cs[i].0,
                strip_chunks(cs[i].1, ids),
            ),
    decreases cs.len(),
{
    if cs.len() > 0 {
        lemma_strip_loads(cs.drop_last(), ids);
        assert forall|i: int| 0 <= i < cs.len() implies #[trigger] strip_loads(cs, ids)[i] == (
            cs[i].0,
            strip_chunks(cs[i].1, ids),
        ) by {
            if i < cs.len() - 1 {
                assert(cs.drop_last()[i] == cs[i]);
                assert(strip_loads(cs, ids)[i] == strip_loads(cs.drop_last(), ids)[i]);
            }
        }
    }
}

/// What survives `strip_cmap`: exactly the entries of `cm` whose key is not
/// in `ids`; uniqueness and lookups are preserved.
pub proof fn lemma_strip_cmap(cm: Seq<(Seq<char>, ChunkInfoView)>, ids: Seq<Seq<char>>)
    requires
        keys_unique(cm),
    ensures
        keys_unique(strip_cmap(cm, ids)),
        forall|i: int|
            0 <= i < strip_cmap(cm, ids).len() ==> cm.contains(#[trigger] strip_cmap(cm, ids)[i])
                && !ids.contains(strip_cmap(cm, ids)[i].0),
        forall|k: Seq<char>|
            #[trigger] has_key(strip_cmap(cm, ids), k) <==> has_key(cm, k) && !ids.contains(k),
        forall|k: Seq<char>|
            has_key(cm, k) && !ids.contains(k) ==> #[trigger] val_of(strip_cmap(cm, ids), k)
                == val_of(cm, k),
    decreases cm.len(),
{
    if cm.len() > 0 {
        assert(keys_unique(cm.drop_last()));
        lemma_strip_cmap(cm.drop_last(), ids);
        let rest = strip_cmap(cm.drop_last(), ids);
        let whole = strip_cmap(cm, ids);
        assert forall|i: int| 0 <= i < whole.len() implies cm.contains(#[trigger] whole[i])
            && !ids.contains(whole[i].0) by {
            if i < rest.len() {
                assert(whole[i] == rest[i]);
                let j = choose|j: int| 0 <= j < cm.drop_last().len() && cm.drop_last()[j]
                    == rest[i];
                assert(cm[j] == rest[i]);
            } else {
                assert(whole[i] == cm.last());
                assert(cm[cm.len() - 1] == cm.last());
            }
        }
        assert forall|a: int, b: int| 0 <= a < b < whole.len() implies whole[a].0
            != whole[b].0 by {
            let pa = whole[a];
            let pb = whole[b];
            assert(cm.contains(pa) && cm.contains(pb));
            let ia = choose|x: int| 0 <= x < cm.len() && cm[x] == pa;
            let ib = choose|x: int| 0 <= x < cm.len() && cm[x] == pb;
            if pa.0 == pb.0 {
                if ia != ib {
                    assert(cm[ia].0 != cm[ib].0);
                } else {
                    assert(pa == pb);
                    if b == whole.len() - 1 && whole == rest.push(cm.last()) {
                        assert(rest[a] == pa);
                        assert(rest.contains(pa));
                        let ja = choose|x: int| 0 <= x < cm.drop_last().len()
                            && cm.drop_last()[x] == pa;
                        assert(cm[ja] == pa && ja < cm.len() - 1);
                        assert(cm[cm.len() - 1] == pb);
                        assert(cm[ja].0 != cm[cm.len() - 1].0);
                    } else {
                        assert(rest[a] == pa && rest[b] == pb);
                        assert(rest[a].0 != rest[b].0);
                    }
                }
            }
        }
        assert forall|k: Seq<char>| #[trigger] has_key(whole, k) implies has_key(cm, k)
            && !ids.contains(k) by {
            let i = key_index(whole, k);
            assert(0 <= i < whole.len() && whole[i].0 == k);
            assert(cm.contains(whole[i]));
            let j = choose|x: int| 0 <= x < cm.len() && cm[x] == whole[i];
            assert(cm[j].0 == k);
        }
        assert forall|k: Seq<char>| has_key(cm, k) && !ids.contains(k) implies #[trigger] has_key(
            whole,
            k,
        ) && val_of(whole, k) == val_of(cm, k) by {
            lemma_key_index(cm, k);
            let j = key_index(cm, k);
            if j == cm.len() - 1 {
                assert(!ids.contains(cm.last().0));
                assert(whole == rest.push(cm.last()));
                assert(whole[whole.len() - 1] == cm.last());
                assert(has_key(whole, k));
                lemma_key_index(whole, k);
                assert(val_of(whole, k) == cm.last().1);
                assert(val_of(cm, k) == cm.last().1);
            } else {
                assert(cm.drop_last()[j] == cm[j]);
                assert(has_key(cm.drop_last(), k));
                lemma_key_index(cm.drop_last(), k);
                assert(val_of(cm.drop_last(), k) == cm[j].1);
                assert(has_key(rest, k) && val_of(rest, k) == cm[j].1);
                lemma_key_index(rest, k);
                let x = key_index(rest, k);
                if whole == rest {
                    assert(val_of(whole, k) == cm[j].1);
                } else {
                    assert(whole == rest.push(cm.last()));
                    assert(whole[x] == rest[x]);
                    assert(has_key(whole, k));
                    lemma_key_index(whole, k);
                    let y = key_index(whole, k);
                    if y == whole.len() - 1 {
                        assert(cm.last().0 == k);
                        assert(cm[j].0 == k);
                        assert(false);
                    }
                    assert(whole[y] == rest[y]);
                    assert(rest[y].0 == k);
                    assert(y == x);
                    assert(val_of(whole, k) == cm[j].1);
                }
                assert(val_of(cm, k) == cm[j].1);
            }
        }
        assert forall|k: Seq<char>| has_key(cm, k) && !ids.contains(k) implies #[trigger] val_of(
            whole,
            k,
        ) == val_of(cm, k) by {
            assert(has_key(whole, k));
        }
    }
}

impl MasterService {
    /// Deletes a file's metadata: the file table entry goes, every load
    /// entry loses the file's chunks, and the chunk table loses their
    /// records.  Returns whether the file existed; a missing file is
    /// reported, not raised.
    pub fn delete_file(&mut self, file_name: &String) -> (r: bool)
        requires
            old(self).wf(),
        ensures
            final(self).wf(),
            r == has_key(old(self).file_chunks.deep_view(), file_name@),
            r ==> {
                let ids = chunk_ids_of(val_of(old(self).file_chunks.deep_view(), file_name@));
                &&& final(self).file_chunks.deep_view() == remove_key(
                    old(self).file_chunks.deep_view(),
                    file_name@,
                )
                &&& final(self).chunk_servers.deep_view() == strip_loads(
                    old(self).chunk_servers.deep_view(),
                    ids,
                )
                &&& final(self).chunk_map.deep_view() == strip_cmap(
                    old(self).chunk_map.deep_view(),
                    ids,
                )
            },
            !r ==> final(self).file_chunks == old(self).file_chunks && final(self).chunk_servers
                == old(self).chunk_servers && final(self).chunk_map == old(self).chunk_map,
            final(self).last_heartbeat_time == old(self).last_heartbeat_time,
            final(self).shadow_masters == old(self).shadow_masters,
            final(self).current_master == old(self).current_master,
            final(self).is_leader_flag == old(self).is_leader_flag,
            final(self).addr == old(self).addr,
            final(self).config == old(self).config,
            final(self).common_config == old(self).common_config,
    {
        let ghost fcv = self.file_chunks.deep_view();
        let ghost csv = self.chunk_servers.deep_view();
        let ghost cmv = self.chunk_map.deep_view();
        match find_chunk_list(&self.file_chunks, file_name) {
            None => false,
            Some(i) => {
                proof {
                    lemma_key_index(fcv, file_name@);
                    assert(key_index(fcv, file_name@) == i);
                    lemma_remove_key(fcv, file_name@);
                }
                let entry = self.file_chunks.remove(i);
                proof {
                    assert(self.file_chunks.deep_view() =~= remove_key(fcv, file_name@));
                    assert(entry.chunks.deep_view() == val_of(fcv, file_name@));
                }
                let ghost idsv = chunk_ids_of(entry.chunks.deep_view());
                let mut ids: Vec<String> = Vec::new();
                let nch = entry.chunks.len();
                let mut k: usize = 0;
                proof {
                    assert(ids.deep_view() =~= idsv.subrange(0, 0));
                }
                while k < nch
                    invariant
                        nch == entry.chunks@.len(),
                        k <= nch,
                        idsv == chunk_ids_of(entry.chunks.deep_view()),
                        ids.deep_view() == idsv.subrange(0, k as int),
                    decreases nch - k,
                {
                    let ghost pre = ids.deep_view();
                    let c = entry.chunks[k].chunk_id.clone();
                    proof {
                        assert(c@ == entry.chunks.deep_view()[k as int].chunk_id);
                    }
                    ids.push(c);
                    proof {
                        assert(ids.deep_view() =~= pre.push(c@));
                        assert(idsv[k as int] == entry.chunks.deep_view()[k as int].chunk_id);
                        assert(ids.deep_view() =~= idsv.subrange(0, k as int + 1));
                    }
                    k = k + 1;
                }
                proof {
                    assert(ids.deep_view() =~= idsv);
                }
                // Strip the file's chunks from every load entry.
                let mut new_cs: Vec<ChunkListEntry> = Vec::new();
                let ncs = self.chunk_servers.len();
                let mut ci: usize = 0;
                proof {
                    assert(new_cs.deep_view() =~= strip_loads(csv.subrange(0, 0), idsv));
                }
                while ci < ncs
                    invariant
                        ncs == self.chunk_servers@.len(),
                        ci <= ncs,
                        csv == self.chunk_servers.deep_view(),
                        idsv == ids.deep_view(),
                        new_cs.deep_view() == strip_loads(csv.subrange(0, ci as int), idsv),
                    decreases ncs - ci,
                {
                    let mut kept: Vec<ChunkInfo> = Vec::new();
                    let ghost loadv = self.chunk_servers.deep_view()[ci as int].1;
                    let nl = self.chunk_servers[ci].chunks.len();
                    let mut j: usize = 0;
                    proof {
                        assert(kept.deep_view() =~= strip_chunks(loadv.subrange(0, 0), idsv));
                    }
                    while j < nl
                        invariant
                            ci < ncs,
                            ncs == self.chunk_servers@.len(),
                            nl == self.chunk_servers@[ci as int].chunks@.len(),
                            j <= nl,
                            csv == self.chunk_servers.deep_view(),
                            loadv == self.chunk_servers.deep_view()[ci as int].1,
                            idsv == ids.deep_view(),
                            kept.deep_view() == strip_chunks(loadv.subrange(0, j as int), idsv),
                        decreases nl - j,
                    {
                        let ghost p1 = loadv.subrange(0, j as int + 1);
                        proof {
                            assert(p1.drop_last() =~= loadv.subrange(0, j as int));
                            assert(p1.last() == loadv[j as int]);
                        }
                        if !crate::types::contains_string(
                            &ids,
                            &self.chunk_servers[ci].chunks[j].chunk_id,
                        ) {
                            kept.push(self.chunk_servers[ci].chunks[j].clone());
                        }
                        proof {
                            assert(kept.deep_view() =~= strip_chunks(p1, idsv));
                        }
                        j = j + 1;
                    }
                    proof {
                        assert(loadv.subrange(0, nl as int) =~= loadv);
                    }
                    let e = ChunkListEntry {
                        key: self.chunk_servers[ci].key.clone(),
                        chunks: kept,
                    };
                    new_cs.push(e);
                    proof {
                        assert(csv.subrange(0, ci as int + 1).drop_last() =~= csv.subrange(
                            0,
                            ci as int,
                        ));
                        assert(csv.subrange(0, ci as int + 1).last() == csv[ci as int]);
                        assert(new_cs.deep_view() =~= strip_loads(
                            csv.subrange(0, ci as int + 1),
                            idsv,
                        ));
                    }
                    ci = ci + 1;
                }
                proof {
                    assert(csv.subrange(0, ncs as int) =~= csv);
                }
                self.chunk_servers = new_cs;
                // Drop the file's records from the chunk table.
                let mut new_cm: Vec<ChunkMapEntry> = Vec::new();
                let ncm = self.chunk_map.len();
                let mut mi: usize = 0;
                proof {
                    assert(new_cm.deep_view() =~= strip_cmap(cmv.subrange(0, 0), idsv));
                }
                while mi < ncm
                    invariant
                        ncm == self.chunk_map@.len(),
                        mi <= ncm,
                        cmv == self.chunk_map.deep_view(),
                        idsv == ids.deep_view(),
                        new_cm.deep_view() == strip_cmap(cmv.subrange(0, mi as int), idsv),
                    decreases ncm - mi,
                {
                    let ghost p1 = cmv.subrange(0, mi as int + 1);
                    proof {
                        assert(p1.drop_last() =~= cmv.subrange(0, mi as int));
                        assert(p1.last() == cmv[mi as int]);
                    }
                    if !crate::types::contains_string(&ids, &self.chunk_map[mi].key) {
                        let e = self.chunk_map[mi].clone();
                        new_cm.push(e);
                    }
                    proof {
                        assert(new_cm.deep_view() =~= strip_cmap(p1, idsv));
                    }
                    mi = mi + 1;
                }
                proof {
                    assert(cmv.subrange(0, ncm as int) =~= cmv);
                }
                self.chunk_map = new_cm;
                proof {
                    lemma_strip_loads(csv, idsv);
                    assert forall|a: int, b: int|
                        0 <= a < b < self.chunk_servers.deep_view().len() implies self
                        .chunk_servers
                        .deep_view()[a].0 != self.chunk_servers.deep_view()[b].0 by {
                        assert(csv[a].0 != csv[b].0);
                    }
                    lemma_strip_cmap(cmv, idsv);
                }
                true
            },
        }
    }
}

/// The name under which an upload is recorded: the requested name when it
/// is free, else `name-k` for the smallest counter k (from 1) that is free.
pub fn resolve_file_name(entries: &Vec<ChunkListEntry>, file_name: &String) -> (r: String)
    requires
        keys_unique(entries.deep_view()),
        entries@.len() + 2 <= usize::MAX,
    ensures
        !has_key(entries.deep_view(), r@),
        !has_key(entries.deep_view(), file_name@) ==> r@ == file_name@,
        has_key(entries.deep_view(), file_name@) ==> exists|k: int|
            1 <= k && r@ == crate::chunk_id::spec_suffixed_name(file_name@, k) && (forall|k2: int|
                1 <= k2 < k ==> has_key(
                    entries.deep_view(),
                    crate::chunk_id::spec_suffixed_name(file_name@, k2),
                )),
{
    if find_chunk_list(entries, file_name).is_none() {
        return file_name.clone();
    }
    let n = entries.len();
    let mut k: usize = 1;
    while k <= n + 1
        invariant
            n == entries@.len(),
            n + 2 <= usize::MAX,
            1 <= k <= n + 2,
            keys_unique(entries.deep_view()),
            has_key(entries.deep_view(), file_name@),
            forall|k2: int|
                1 <= k2 < k ==> has_key(
                    entries.deep_view(),
                    crate::chunk_id::spec_suffixed_name(file_name@, k2),
                ),
        decreases n + 2 - k,
    {
        let cand = crate::chunk_id::suffixed_name(file_name.as_str(), k as u64);
        if find_chunk_list(entries, &cand).is_none() {
            proof {
                assert(cand@ == crate::chunk_id::spec_suffixed_name(file_name@, k as int));
            }
            return cand;
        }
        k = k + 1;
    }
    // Unreachable: among n + 1 distinct suffixed names at most n can be
    // keys of an n-entry table.
    proof {
        let ev = entries.deep_view();
        let fv = file_name@;
        let g = |j: int| key_index(ev, crate::chunk_id::spec_suffixed_name(fv, j));
        let x = vstd::set_lib::set_int_range(1, n as int + 2);
        vstd::set_lib::lemma_int_range(1, n as int + 2);
        assert(vstd::relations::injective_on(g, x)) by {
            assert forall|a: int, b: int|
                x.contains(a) && x.contains(b) && #[trigger] g(a) == #[trigger] g(b) implies a
                == b by {
                let na = crate::chunk_id::spec_suffixed_name(fv, a);
                let nb = crate::chunk_id::spec_suffixed_name(fv, b);
                assert(has_key(ev, na) && has_key(ev, nb));
                lemma_key_index(ev, na);
                lemma_key_index(ev, nb);
                assert(ev[g(a)].0 == na && ev[g(b)].0 == nb);
                assert(na == nb);
                crate::chunk_id::lemma_suffixed_name_injective(fv, a, b);
            }
        }
        let y = x.map(g);
        vstd::set_lib::lemma_map_size(x, y, g);
        let range = vstd::set_lib::set_int_range(0, n as int);
        vstd::set_lib::lemma_int_range(0, n as int);
        assert forall|v: int| y.contains(v) implies range.contains(v) by {
            let a = choose|a: int| x.contains(a) && g(a) == v;
            let na = crate::chunk_id::spec_suffixed_name(fv, a);
            lemma_key_index(ev, na);
        }
        assert(y.subset_of(range));
        vstd::set_lib::lemma_len_subset(y, range);
        assert(false);
    }
    file_name.clone()
}

/// How many chunks a file of `file_size` bytes occupies: the ceiling of
/// `file_size / chunk_size`, zero for an empty file.
pub open spec fn spec_num_chunks(file_size: int, chunk_size: int) -> int {
    if file_size == 0 {
        0
    } else {
        (file_size - 1) / chunk_size + 1
    }
}

/// The chunk count is the rounded-up quotient, in its usual closed form.
pub proof fn lemma_num_chunks_is_ceil(file_size: int, chunk_size: int)
    requires
        file_size >= 0,
        chunk_size >= 1,
    ensures
        spec_num_chunks(file_size, chunk_size) == (file_size + chunk_size - 1) / chunk_size,
{
    if file_size == 0 {
        vstd::arithmetic::div_mod::lemma_basic_div(chunk_size - 1, chunk_size);
    } else {
        vstd::arithmetic::div_mod::lemma_fundamental_div_mod(file_size - 1, chunk_size);
        let q = (file_size - 1) / chunk_size;
        let r = (file_size - 1) % chunk_size;
        vstd::arithmetic::div_mod::lemma_mod_pos_bound(file_size - 1, chunk_size);
        assert(file_size + chunk_size - 1 == (q + 1) * chunk_size + r) by (nonlinear_arith)
            requires
                file_size - 1 == chunk_size * q + r,
        ;
        vstd::arithmetic::div_mod::lemma_fundamental_div_mod_converse(
            file_size + chunk_size - 1,
            chunk_size,
            q + 1,
            r,
        );
    }
}

/// The chunks of `list` that place a replica on `addr`, in list order.
pub open spec fn assigned_to(addr: Seq<char>, list: Seq<ChunkInfoView>) -> Seq<ChunkInfoView>
    decreases list.len(),
{
    if list.len() == 0 {
        Seq::empty()
    } else {
        let rest = assigned_to(addr, list.drop_last());
        if list.last().server_addresses.contains(addr) {
            rest.push(list.last())
        } else {
            rest
        }
    }
}

/// The chunk table extended with the records of `list`, each keyed by its
/// own id, in list order.
pub open spec fn insert_chunks(
    cm: Seq<(Seq<char>, ChunkInfoView)>,
    list: Seq<ChunkInfoView>,
) -> Seq<(Seq<char>, ChunkInfoView)>
    decreases list.len(),
{
    if list.len() == 0 {
        cm
    } else {
        upsert(insert_chunks(cm, list.drop_last()), list.last().chunk_id, list.last())
    }
}

/// How many load entries are below the assignment cap.
pub open spec fn avail_count(cs: Seq<(Seq<char>, Seq<ChunkInfoView>)>, max: int) -> int
    decreases cs.len(),
{
    if cs.len() == 0 {
        0int
    } else {
        avail_count(cs.drop_last(), max) + if cs.last().1.len() < max {
            1int
        } else {
            0int
        }
    }
}

/// Least-loaded placement: for every chunk of `list`, each server chosen
/// for it carried no more load at selection time (its table load plus the
/// chunks of `list` already assigned to it) than any below-cap server that
/// was passed over for that chunk.
pub open spec fn placement_min_loaded(
    csv: Seq<(Seq<char>, Seq<ChunkInfoView>)>,
    list: Seq<ChunkInfoView>,
    max: int,
) -> bool {
    forall|i: int, a: int, t: int|
        #![trigger list[i].server_addresses[a], csv[t]]
        0 <= i < list.len() && 0 <= a < list[i].server_addresses.len() && 0 <= t < csv.len()
            && csv[t].1.len() < max && !list[i].server_addresses.contains(csv[t].0) ==> val_of(
            csv,
            list[i].server_addresses[a],
        ).len() + assigned_to(list[i].server_addresses[a], list.subrange(0, i)).len()
            <= csv[t].1.len() + assigned_to(csv[t].0, list.subrange(0, i)).len()
}

/// A chunk lands on at most as many servers as there are chunks assigned.
pub proof fn lemma_assigned_to_len_le(addr: Seq<char>, list: Seq<ChunkInfoView>)
    ensures
        assigned_to(addr, list).len() <= list.len(),
    decreases list.len(),
{
    if list.len() > 0 {
        lemma_assigned_to_len_le(addr, list.drop_last());
    }
}

/// The set of load-table rows below the assignment cap has exactly
/// `avail_count` elements.
proof fn lemma_avail_count_card(cs: Seq<(Seq<char>, Seq<ChunkInfoView>)>, max: int)
    ensures
        Set::new(|s: int| 0 <= s < cs.len() && cs[s].1.len() < max).finite(),
        Set::new(|s: int| 0 <= s < cs.len() && cs[s].1.len() < max).len() == avail_count(cs, max),
    decreases cs.len(),
{
    broadcast use vstd::set::group_set_axioms;

    let q = Set::new(|s: int| 0 <= s < cs.len() && cs[s].1.len() < max);
    if cs.len() == 0 {
        assert(q =~= Set::<int>::empty());
    } else {
        lemma_avail_count_card(cs.drop_last(), max);
        let qr = Set::new(
            |s: int| 0 <= s < cs.drop_last().len() && cs.drop_last()[s].1.len() < max,
        );
        if cs.last().1.len() < max {
            assert(q =~= qr.insert(cs.len() - 1));
            assert(!qr.contains(cs.len() - 1));
        } else {
            assert(q =~= qr);
        }
    }
}

/// A duplicate-free list of qualifying rows that is as long as the count
/// of qualifying rows covers every qualifying row.
proof fn lemma_avail_cover(cs: Seq<(Seq<char>, Seq<ChunkInfoView>)>, max: int, rows: Seq<int>)
    requires
        rows.no_duplicates(),
        forall|t: int|
            0 <= t < rows.len() ==> 0 <= #[trigger] rows[t] < cs.len() && cs[rows[t]].1.len()
                < max,
        rows.len() == avail_count(cs, max),
    ensures
        forall|s: int| 0 <= s < cs.len() && cs[s].1.len() < max ==> rows.contains(s),
{
    broadcast use vstd::set::group_set_axioms;

    let q = Set::new(|s: int| 0 <= s < cs.len() && cs[s].1.len() < max);
    lemma_avail_count_card(cs, max);
    rows.unique_seq_to_set();
    let r = rows.to_set();
    assert(r.len() == rows.len());
    assert forall|v: int| r.contains(v) implies q.contains(v) by {
        let t = choose|t: int| 0 <= t < rows.len() && rows[t] == v;
    }
    assert forall|s: int| 0 <= s < cs.len() && cs[s].1.len() < max implies rows.contains(s) by {
        if !rows.contains(s) {
            assert(q.contains(s));
            assert(!r.contains(s)) by {
                if r.contains(s) {
                    let t = choose|t: int| 0 <= t < rows.len() && rows[t] == s;
                }
            }
            assert(r.subset_of(q.remove(s)));
            vstd::set_lib::lemma_len_subset(r, q.remove(s));
            assert(q.remove(s).len() == q.len() - 1);
            assert(false);
        }
    }
}

/// How many load entries are below the cap and do not already hold the
/// chunk: the candidates of one repair.
pub open spec fn candidate_count(
    cs: Seq<(Seq<char>, Seq<ChunkInfoView>)>,
    max: int,
    id: Seq<char>,
) -> int
    decreases cs.len(),
{
    if cs.len() == 0 {
        0int
    } else {
        candidate_count(cs.drop_last(), max, id) + if cs.last().1.len() < max && !holds_chunk(
            cs.last().1,
            id,
        ) {
            1int
        } else {
            0int
        }
    }
}

/// The set of candidate rows has exactly `candidate_count` elements.
proof fn lemma_candidate_count_card(cs: Seq<(Seq<char>, Seq<ChunkInfoView>)>, max: int, id: Seq<char>)
    ensures
        Set::new(
            |s: int| 0 <= s < cs.len() && cs[s].1.len() < max && !holds_chunk(cs[s].1, id),
        ).finite(),
        Set::new(
            |s: int| 0 <= s < cs.len() && cs[s].1.len() < max && !holds_chunk(cs[s].1, id),
        ).len() == candidate_count(cs, max, id),
    decreases cs.len(),
{
    broadcast use vstd::set::group_set_axioms;

    let q = Set::new(|s: int| 0 <= s < cs.len() && cs[s].1.len() < max && !holds_chunk(cs[s].1, id));
    if cs.len() == 0 {
        assert(q =~= Set::<int>::empty());
    } else {
        lemma_candidate_count_card(cs.drop_last(), max, id);
        let qr = Set::new(
            |s: int|
                0 <= s < cs.drop_last().len() && cs.drop_last()[s].1.len() < max && !holds_chunk(
                    cs.drop_last()[s].1,
                    id,
                ),
        );
        if cs.last().1.len() < max && !holds_chunk(cs.last().1, id) {
            assert(q =~= qr.insert(cs.len() - 1));
            assert(!qr.contains(cs.len() - 1));
        } else {
            assert(q =~= qr);
        }
    }
}

/// A duplicate-free list of candidate rows that is as long as the count of
/// candidate rows covers every candidate row.
proof fn lemma_candidate_cover(
    cs: Seq<(Seq<char>, Seq<ChunkInfoView>)>,
    max: int,
    id: Seq<char>,
    rows: Seq<int>,
)
    requires
        rows.no_duplicates(),
        forall|t: int|
            0 <= t < rows.len() ==> 0 <= #[trigger] rows[t] < cs.len() && cs[rows[t]].1.len() < max
                && !holds_chunk(cs[rows[t]].1, id),
        rows.len() == candidate_count(cs, max, id),
    ensures
        forall|s: int|
            0 <= s < cs.len() && cs[s].1.len() < max && !holds_chunk(cs[s].1, id) ==> rows.contains(
                s,
            ),
{
    broadcast use vstd::set::group_set_axioms;

    let q = Set::new(|s: int| 0 <= s < cs.len() && cs[s].1.len() < max && !holds_chunk(cs[s].1, id));
    lemma_candidate_count_card(cs, max, id);
    rows.unique_seq_to_set();
    let r = rows.to_set();
    assert(r.len() == rows.len());
    assert forall|v: int| r.contains(v) implies q.contains(v) by {
        let t = choose|t: int| 0 <= t < rows.len() && rows[t] == v;
    }
    assert forall|s: int|
        0 <= s < cs.len() && cs[s].1.len() < max && !holds_chunk(cs[s].1, id) implies rows.contains(
        s,
    ) by {
        if !rows.contains(s) {
            assert(q.contains(s));
            assert(!r.contains(s)) by {
                if r.contains(s) {
                    let t = choose|t: int| 0 <= t < rows.len() && rows[t] == s;
                }
            }
            assert(r.subset_of(q.remove(s)));
            vstd::set_lib::lemma_len_subset(r, q.remove(s));
            assert(q.remove(s).len() == q.len() - 1);
            assert(false);
        }
    }
}

/// Least-loaded repair targets: each chosen target's load-table row is no
/// longer than that of any below-cap non-holder that was passed over.
pub open spec fn targets_min_loaded(
    csv: Seq<(Seq<char>, Seq<ChunkInfoView>)>,
    cmds: Seq<TransferCmd>,
    id: Seq<char>,
    max: int,
) -> bool {
    forall|x: int, t: int|
        #![trigger cmds[x], csv[t]]
        0 <= x < cmds.len() && 0 <= t < csv.len() && csv[t].1.len() < max && !holds_chunk(
            csv[t].1,
            id,
        ) && !cmds.map_values(|cmd: TransferCmd| cmd.target@).contains(csv[t].0) ==> val_of(
            csv,
            cmds[x].target@,
        ).len() <= csv[t].1.len()
}

/// Appends one chunk record to the load entry keyed `key`.
pub(crate) fn append_chunk(entries: &mut Vec<ChunkListEntry>, key: &String, info: ChunkInfo)
    requires
        keys_unique(old(entries).deep_view()),
        has_key(old(entries).deep_view(), key@),
    ensures
        keys_unique(final(entries).deep_view()),
        final(entries).deep_view() == upsert(
            old(entries).deep_view(),
            key@,
            val_of(old(entries).deep_view(), key@).push(info@),
        ),
{
    let ghost pre = entries.deep_view();
    match find_chunk_list(entries, key) {
        Some(i) => {
            proof {
                lemma_key_index(pre, key@);
                assert(key_index(pre, key@) == i);
            }
            let mut e = entries.remove(i);
            e.chunks.push(info);
            entries.insert(i, e);
            proof {
                assert(e.chunks.deep_view() =~= val_of(pre, key@).push(info@));
                assert(entries.deep_view() =~= upsert(
                    pre,
                    key@,
                    val_of(pre, key@).push(info@),
                ));
                lemma_upsert(pre, key@, val_of(pre, key@).push(info@));
            }
        },
        None => {
            proof {
                assert(false);
            }
        },
    }
}

/// Binds the record's own id to the record in the chunk table.
pub(crate) fn set_chunk_map(entries: &mut Vec<ChunkMapEntry>, info: ChunkInfo)
    requires
        keys_unique(old(entries).deep_view()),
    ensures
        keys_unique(final(entries).deep_view()),
        final(entries).deep_view() == upsert(old(entries).deep_view(), info@.chunk_id, info@),
{
    let ghost pre = entries.deep_view();
    let key = info.chunk_id.clone();
    match find_chunk_map(entries, &key) {
        Some(i) => {
            proof {
                lemma_key_index(pre, key@);
                assert(key_index(pre, key@) == i);
            }
            let mut e = entries.remove(i);
            e.info = info;
            entries.insert(i, e);
            proof {
                assert(entries.deep_view() =~= upsert(pre, e.info@.chunk_id, e.info@));
                lemma_upsert(pre, e.info@.chunk_id, e.info@);
            }
        },
        None => {
            let e = ChunkMapEntry { key, info };
            entries.push(e);
            proof {
                assert(entries.deep_view() =~= upsert(pre, e.info@.chunk_id, e.info@));
                lemma_upsert(pre, e.info@.chunk_id, e.info@);
            }
        },
    }
}

impl MasterService {
    /// Plans the placement of a new file: resolves a name collision with
    /// the first free suffixed name, splits the size into
    /// ceiling(size / chunk_size) chunks, places each chunk on the
    /// least-loaded available chunkservers (those below the assignment
    /// cap when the call started), and records everything in the three
    /// tables.  Fails with `Internal` iff no chunkserver is available.
    pub fn assign_chunks(&mut self, file_name: &String, file_size: u64) -> (r: Result<
        (String, Vec<ChunkInfo>),
        FsError,
    >)
        requires
            old(self).wf(),
            old(self).common_config.chunk_size >= 1,
            file_size <= u64::MAX - old(self).common_config.chunk_size + 1,
            old(self).file_chunks@.len() + 2 <= usize::MAX,
            forall|i: int|
                0 <= i < old(self).chunk_servers.deep_view().len() ==> (#[trigger] old(
                    self,
                ).chunk_servers.deep_view()[i]).1.len() + spec_num_chunks(
                    file_size as int,
                    old(self).common_config.chunk_size as int,
                ) <= usize::MAX,
        ensures
            final(self).wf(),
            final(self).last_heartbeat_time == old(self).last_heartbeat_time,
            final(self).shadow_masters == old(self).shadow_masters,
            final(self).current_master == old(self).current_master,
            final(self).is_leader_flag == old(self).is_leader_flag,
            final(self).addr == old(self).addr,
            final(self).config == old(self).config,
            final(self).common_config == old(self).common_config,
            match r {
                Err(e) => {
                    &&& e == FsError::Internal
                    &&& *final(self) == *old(self)
                    &&& avail_count(
                        old(self).chunk_servers.deep_view(),
                        old(self).common_config.max_allowed_chunks as int,
                    ) == 0
                },
                Ok(pair) => {
                    let name = pair.0@;
                    let list = pair.1.deep_view();
                    let fcv = old(self).file_chunks.deep_view();
                    let csv = old(self).chunk_servers.deep_view();
                    let cmv = old(self).chunk_map.deep_view();
                    let max = old(self).common_config.max_allowed_chunks as int;
                    let rf = old(self).common_config.replication_factor as int;
                    &&& avail_count(csv, max) > 0
                    &&& !has_key(fcv, name)
                    &&& (!has_key(fcv, file_name@) ==> name == file_name@)
                    &&& (has_key(fcv, file_name@) ==> exists|k: int|
                        1 <= k && name == crate::chunk_id::spec_suffixed_name(file_name@, k) && (
                        forall|k2: int|
                            1 <= k2 < k ==> has_key(
                                fcv,
                                crate::chunk_id::spec_suffixed_name(file_name@, k2),
                            )))
                    &&& list.len() == spec_num_chunks(
                        file_size as int,
                        old(self).common_config.chunk_size as int,
                    )
                    &&& (forall|i: int|
                        0 <= i < list.len() ==> {
                            let c = #[trigger] list[i];
                            &&& c.chunk_id == spec_chunk_id(name, i)
                            &&& c.version == 0
                            &&& c.server_addresses.len() == vstd::math::min(
                                rf,
                                avail_count(csv, max),
                            )
                            &&& strings_unique(c.server_addresses)
                            &&& (forall|a: int|
                                0 <= a < c.server_addresses.len() ==> has_key(
                                    csv,
                                    #[trigger] c.server_addresses[a],
                                ) && val_of(csv, c.server_addresses[a]).len() < max)
                        })
                    &&& placement_min_loaded(csv, list, max)
                    &&& final(self).file_chunks.deep_view() == fcv.push((name, list))
                    &&& final(self).chunk_map.deep_view() == insert_chunks(cmv, list)
                    &&& final(self).chunk_servers.deep_view().len() == csv.len()
                    &&& (forall|i: int|
                        0 <= i < csv.len() ==> #[trigger] final(self).chunk_servers.deep_view()[i]
                            == (csv[i].0, csv[i].1 + assigned_to(csv[i].0, list)))
                },
            },
    {
        let ghost fcv = self.file_chunks.deep_view();
        let ghost csv = self.chunk_servers.deep_view();
        let ghost cmv = self.chunk_map.deep_view();
        let max = self.common_config.max_allowed_chunks;
        let rf = self.common_config.replication_factor;
        // The pool of available chunkservers, in table order, with the
        // loads they have now.
        let mut avail: Vec<crate::placement::AvailServer> = Vec::new();
        // `srcs` maps each pool member to its row in the load table.
        let mut srcs: Vec<usize> = Vec::new();
        let ncs = self.chunk_servers.len();
        let mut ci: usize = 0;
        proof {
            assert(csv.subrange(0, 0) =~= Seq::<(Seq<char>, Seq<ChunkInfoView>)>::empty());
        }
        while ci < ncs
            invariant
                ncs == self.chunk_servers@.len(),
                ci <= ncs,
                csv == self.chunk_servers.deep_view(),
                keys_unique(csv),
                srcs@.len() == avail@.len(),
                avail@.len() == avail_count(csv.subrange(0, ci as int), max as int),
                forall|t: int|
                    #![trigger srcs@[t]]
                    0 <= t < avail@.len() ==> (srcs@[t] as int) < ci && avail@[t].addr@
                        == csv[srcs@[t] as int].0 && avail@[t].load == csv[srcs@[t] as int].1.len()
                        && csv[srcs@[t] as int].1.len() < max,
                forall|t1: int, t2: int|
                    0 <= t1 < t2 < avail@.len() ==> (#[trigger] srcs@[t1]) < (
                    #[trigger] srcs@[t2]),
            decreases ncs - ci,
        {
            let ghost p1 = csv.subrange(0, ci as int + 1);
            proof {
                assert(p1.drop_last() =~= csv.subrange(0, ci as int));
                assert(p1.last() == csv[ci as int]);
            }
            if self.chunk_servers[ci].chunks.len() < max {
                let ghost pre = avail@;
                let ghost presrcs = srcs@;
                let a = crate::placement::AvailServer {
                    addr: self.chunk_servers[ci].key.clone(),
                    load: self.chunk_servers[ci].chunks.len(),
                };
                avail.push(a);
                srcs.push(ci);
                proof {
                    assert(avail@[avail@.len() - 1].addr@ == csv[ci as int].0);
                    assert forall|t: int|
                        #![trigger srcs@[t]]
                        0 <= t < avail@.len() implies (srcs@[t] as int) < ci + 1 && avail@[t].addr@
                        == csv[srcs@[t] as int].0 && avail@[t].load == csv[srcs@[t] as int].1.len()
                        && csv[srcs@[t] as int].1.len() < max by {
                        if t < avail@.len() - 1 {
                            assert(srcs@[t] == presrcs[t]);
                            assert(avail@[t] == pre[t]);
                            assert((presrcs[t] as int) < ci && pre[t].addr@
                                == csv[presrcs[t] as int].0 && pre[t].load
                                == csv[presrcs[t] as int].1.len()
                                && csv[presrcs[t] as int].1.len() < max);
                        } else {
                            assert(srcs@[t] == ci);
                        }
                    }
                    assert forall|t1: int, t2: int|
                        0 <= t1 < t2 < avail@.len() implies (#[trigger] srcs@[t1]) < (
                    #[trigger] srcs@[t2]) by {
                        if t2 == avail@.len() - 1 {
                            assert((presrcs[t1] as int) < ci);
                        }
                    }
                }
            }
            ci = ci + 1;
        }
        proof {
            assert(csv.subrange(0, ncs as int) =~= csv);
        }
        if avail.len() == 0 {
            return Err(FsError::Internal);
        }
        let ghost avail0 = avail@;
        let ghost srcs0 = srcs@;
        let ghost rows = Seq::new(srcs0.len() as nat, |t: int| srcs0[t] as int);
        // `cover` points each below-cap row at its pool member.
        let ghost cover = Seq::new(
            csv.len() as nat,
            |fs: int| choose|t: int| 0 <= t < rows.len() && rows[t] == fs,
        );
        proof {
            assert forall|t1: int, t2: int| 0 <= t1 < t2 < rows.len() implies #[trigger] rows[t1]
                != #[trigger] rows[t2] by {
                assert(srcs0[t1] < srcs0[t2]);
            }
            assert(rows.no_duplicates());
            assert forall|t: int| 0 <= t < rows.len() implies 0 <= #[trigger] rows[t] < csv.len()
                && csv[rows[t]].1.len() < max by {
                assert((srcs0[t] as int) < csv.len() && csv[srcs0[t] as int].1.len() < max);
            }
            lemma_avail_cover(csv, max as int, rows);
            assert forall|fs: int| 0 <= fs < csv.len() && csv[fs].1.len() < max implies 0
                <= #[trigger] cover[fs] < avail0.len() && avail0[cover[fs]].addr@ == csv[fs].0
                && (srcs0[cover[fs]] as int) == fs by {
                assert(rows.contains(fs));
                let t = cover[fs];
                assert(0 <= t < rows.len() && rows[t] == fs);
                assert(avail0[t].addr@ == csv[srcs0[t] as int].0);
            }
            assert forall|t1: int, t2: int|
                0 <= t1 < t2 < avail0.len() implies (#[trigger] avail0[t1]).addr@ != (
            #[trigger] avail0[t2]).addr@ by {
                assert(srcs0[t1] < srcs0[t2]);
                assert(avail0[t1].addr@ == csv[srcs0[t1] as int].0);
                assert(avail0[t2].addr@ == csv[srcs0[t2] as int].0);
                assert(csv[srcs0[t1] as int].0 != csv[srcs0[t2] as int].0);
            }
        }
        let name = resolve_file_name(&self.file_chunks, file_name);
        let num_chunks: u64 = if file_size == 0 {
            0
        } else {
            (file_size - 1) / self.common_config.chunk_size + 1
        };
        proof {
            assert(num_chunks as int == spec_num_chunks(
                file_size as int,
                self.common_config.chunk_size as int,
            ));
        }
        let mut list: Vec<ChunkInfo> = Vec::new();
        let mut cidx: u64 = 0;
        proof {
            assert(list.deep_view() =~= Seq::<ChunkInfoView>::empty());
            assert(self.chunk_map.deep_view() == insert_chunks(cmv, list.deep_view()));
            assert forall|i: int| 0 <= i < csv.len() implies #[trigger] self
                .chunk_servers
                .deep_view()[i] == (csv[i].0, csv[i].1 + assigned_to(csv[i].0, list.deep_view()))
                by {
                assert(csv[i].1 + assigned_to(csv[i].0, list.deep_view()) =~= csv[i].1);
            }
        }
        while cidx < num_chunks
            invariant
                cidx <= num_chunks,
                rf == self.common_config.replication_factor,
                max == self.common_config.max_allowed_chunks,
                self.file_chunks.deep_view() == fcv,
                self.file_chunks@.len() + 2 <= usize::MAX,
                self.last_heartbeat_time == old(self).last_heartbeat_time,
                self.shadow_masters == old(self).shadow_masters,
                self.current_master == old(self).current_master,
                self.is_leader_flag == old(self).is_leader_flag,
                self.addr == old(self).addr,
                self.config == old(self).config,
                self.common_config == old(self).common_config,
                keys_unique(fcv),
                keys_unique(csv),
                keys_unique(self.chunk_map.deep_view()),
                strings_unique(self.shadow_masters.deep_view()),
                keys_unique(self.last_heartbeat_time.deep_view()),
                list.deep_view().len() == cidx,
                cidx <= num_chunks,
                num_chunks as int == spec_num_chunks(
                    file_size as int,
                    self.common_config.chunk_size as int,
                ),
                avail@.len() == avail0.len(),
                avail0.len() <= usize::MAX,
                srcs0.len() == avail0.len(),
                cover.len() == csv.len(),
                forall|t: int|
                    #![trigger srcs0[t]]
                    0 <= t < avail0.len() ==> (srcs0[t] as int) < csv.len() && avail0[t].addr@
                        == csv[srcs0[t] as int].0 && avail0[t].load == csv[srcs0[t] as int].1.len()
                        && csv[srcs0[t] as int].1.len() < max,
                forall|fs: int|
                    #![trigger cover[fs]]
                    0 <= fs < csv.len() && csv[fs].1.len() < max ==> 0 <= cover[fs] < avail0.len()
                        && avail0[cover[fs]].addr@ == csv[fs].0,
                forall|i: int|
                    0 <= i < csv.len() ==> (#[trigger] csv[i]).1.len() + num_chunks
                        <= usize::MAX,
                forall|t: int|
                    #![trigger avail@[t]]
                    0 <= t < avail0.len() ==> avail@[t].addr == avail0[t].addr && avail@[t].load
                        == avail0[t].load + assigned_to(
                        avail0[t].addr@,
                        list.deep_view(),
                    ).len(),
                avail0.len() == avail_count(csv, max as int),
                avail0.len() > 0,
                forall|t1: int, t2: int|
                    0 <= t1 < t2 < avail0.len() ==> (#[trigger] avail0[t1]).addr@ != (
                    #[trigger] avail0[t2]).addr@,
                placement_min_loaded(csv, list.deep_view(), max as int),
                forall|i: int|
                    0 <= i < list.deep_view().len() ==> {
                        let c = #[trigger] list.deep_view()[i];
                        &&& c.chunk_id == spec_chunk_id(name@, i)
                        &&& c.version == 0
                        &&& c.server_addresses.len() == vstd::math::min(
                            rf as int,
                            avail0.len() as int,
                        )
                        &&& strings_unique(c.server_addresses)
                        &&& (forall|a: int|
                            0 <= a < c.server_addresses.len() ==> has_key(
                                csv,
                                #[trigger] c.server_addresses[a],
                            ) && val_of(csv, c.server_addresses[a]).len() < max)
                    },
                self.chunk_map.deep_view() == insert_chunks(cmv, list.deep_view()),
                self.chunk_servers.deep_view().len() == csv.len(),
                forall|i: int|
                    0 <= i < csv.len() ==> #[trigger] self.chunk_servers.deep_view()[i] == (
                    csv[i].0,
                    csv[i].1 + assigned_to(csv[i].0, list.deep_view()),
                    ),
            decreases num_chunks - cidx,
        {
            let ghost prefix = list.deep_view();
            let ghost availpre = avail@;
            let sel = crate::placement::select_servers(&avail, rf);
            let mut addrs: Vec<String> = Vec::new();
            let nsel = sel.len();
            let mut y: usize = 0;
            while y < nsel
                invariant
                    nsel == sel@.len(),
                    y <= nsel,
                    avail@.len() == avail0.len(),
                    forall|t: int| 0 <= t < avail0.len() ==> (#[trigger] avail@[t]).addr
                        == avail0[t].addr,
                    forall|i: int| 0 <= i < sel@.len() ==> (sel@[i] as int) < avail0.len(),
                    addrs@.len() == y,
                    forall|i: int|
                        0 <= i < y ==> (#[trigger] addrs.deep_view()[i])
                            == avail0[sel@[i] as int].addr@,
                decreases nsel - y,
            {
                let ghost preaddrs = addrs.deep_view();
                let a = avail[sel[y]].addr.clone();
                addrs.push(a);
                proof {
                    assert(addrs.deep_view() =~= preaddrs.push(a@));
                    assert(addrs.deep_view()[y as int] == avail0[sel@[y as int] as int].addr@);
                }
                y = y + 1;
            }
            let id = crate::chunk_id::chunk_id_for(name.as_str(), cidx);
            let info = ChunkInfo { chunk_id: id, server_addresses: addrs, version: 0 };
            proof {
                // The addresses are pairwise distinct.
                assert forall|a: int, b: int|
                    0 <= a < b < info.server_addresses.deep_view().len() implies info
                    .server_addresses
                    .deep_view()[a] != info.server_addresses.deep_view()[b] by {
                    let ia = sel@[a] as int;
                    let ib = sel@[b] as int;
                    assert(sel@[a] != sel@[b]);
                    if ia < ib {
                        assert(avail0[ia].addr@ != avail0[ib].addr@);
                    } else {
                        assert(avail0[ib].addr@ != avail0[ia].addr@);
                    }
                }
            }
            let ghost base = self.chunk_servers.deep_view();
            let mut x: usize = 0;
            while x < nsel
                invariant
                    nsel == sel@.len(),
                    x <= nsel,
                    sel@.no_duplicates(),
                    avail@.len() == avail0.len(),
                    forall|t: int| 0 <= t < avail0.len() ==> (#[trigger] avail@[t]).addr
                        == avail0[t].addr,
                    forall|i: int| 0 <= i < sel@.len() ==> (sel@[i] as int) < avail0.len(),
                    srcs0.len() == avail0.len(),
                    cidx < num_chunks,
                    num_chunks as int == spec_num_chunks(
                        file_size as int,
                        self.common_config.chunk_size as int,
                    ),
                    prefix.len() == cidx,
                    forall|t: int|
                        #![trigger srcs0[t]]
                        0 <= t < avail0.len() ==> (srcs0[t] as int) < csv.len() && avail0[t].addr@
                            == csv[srcs0[t] as int].0 && avail0[t].load
                            == csv[srcs0[t] as int].1.len() && csv[srcs0[t] as int].1.len() < max,
                    forall|i: int|
                        0 <= i < csv.len() ==> (#[trigger] csv[i]).1.len() + num_chunks
                            <= usize::MAX,
                    forall|t: int|
                        #![trigger avail@[t]]
                        0 <= t < avail0.len() ==> avail@[t].addr == avail0[t].addr
                            && avail@[t].load == avail0[t].load + assigned_to(
                            avail0[t].addr@,
                            prefix,
                        ).len() + (if (exists|yy: int| 0 <= yy < x && sel@[yy] == t) {
                            1int
                        } else {
                            0int
                        }),
                    forall|t1: int, t2: int|
                        0 <= t1 < t2 < avail0.len() ==> (#[trigger] avail0[t1]).addr@ != (
                        #[trigger] avail0[t2]).addr@,
                    keys_unique(csv),
                    base.len() == csv.len(),
                    forall|i: int| 0 <= i < csv.len() ==> (#[trigger] base[i]).0 == csv[i].0,
                    self.file_chunks.deep_view() == fcv,
                    self.file_chunks@.len() + 2 <= usize::MAX,
                    self.chunk_map.deep_view() == insert_chunks(cmv, prefix),
                    keys_unique(self.chunk_map.deep_view()),
                    keys_unique(self.last_heartbeat_time.deep_view()),
                    strings_unique(self.shadow_masters.deep_view()),
                    self.last_heartbeat_time == old(self).last_heartbeat_time,
                    self.shadow_masters == old(self).shadow_masters,
                    self.current_master == old(self).current_master,
                    self.is_leader_flag == old(self).is_leader_flag,
                    self.addr == old(self).addr,
                    self.config == old(self).config,
                    self.common_config == old(self).common_config,
                    self.chunk_servers.deep_view().len() == csv.len(),
                    forall|i: int|
                        0 <= i < csv.len() ==> {
                            let cur = #[trigger] self.chunk_servers.deep_view()[i];
                            &&& cur.0 == csv[i].0
                            &&& cur.1 == if (exists|yy: int|
                                0 <= yy < x && avail0[sel@[yy] as int].addr@ == csv[i].0) {
                                base[i].1.push(info@)
                            } else {
                                base[i].1
                            }
                        },
                decreases nsel - x,
            {
                let idx = sel[x];
                let ghost curv = self.chunk_servers.deep_view();
                let ghost akey = avail0[sel@[x as int] as int].addr@;
                proof {
                    let s = srcs0[sel@[x as int] as int] as int;
                    assert(avail0[sel@[x as int] as int].addr@ == csv[s].0);
                    assert(curv[s].0 == akey);
                    assert(has_key(curv, akey));
                }
                append_chunk(&mut self.chunk_servers, &avail[idx].addr, info.clone());
                proof {
                    lemma_upsert(curv, akey, val_of(curv, akey).push(info@));
                    lemma_key_index(curv, akey);
                    let istar = key_index(curv, akey);
                    assert forall|a: int, b: int| 0 <= a < b < curv.len() implies curv[a].0
                        != curv[b].0 by {
                        assert(csv[a].0 != csv[b].0);
                    }
                    assert forall|i: int| 0 <= i < csv.len() implies {
                        let cur = #[trigger] self.chunk_servers.deep_view()[i];
                        &&& cur.0 == csv[i].0
                        &&& cur.1 == if (exists|yy: int|
                            0 <= yy < x + 1 && avail0[sel@[yy] as int].addr@ == csv[i].0) {
                            base[i].1.push(info@)
                        } else {
                            base[i].1
                        }
                    } by {
                        let cur = self.chunk_servers.deep_view()[i];
                        if i == istar {
                            // not yet touched in this round: the selected
                            // indices are distinct and their addresses too
                            assert(!(exists|yy: int|
                                0 <= yy < x && avail0[sel@[yy] as int].addr@ == csv[i].0)) by {
                                if exists|yy: int|
                                    0 <= yy < x && avail0[sel@[yy] as int].addr@ == csv[i].0 {
                                    let yy = choose|yy: int|
                                        0 <= yy < x && avail0[sel@[yy] as int].addr@ == csv[i].0;
                                    assert(sel@[yy] != sel@[x as int]);
                                    let ja = sel@[yy] as int;
                                    let jb = sel@[x as int] as int;
                                    if ja < jb {
                                        assert(avail0[ja].addr@ != avail0[jb].addr@);
                                    } else {
                                        assert(avail0[jb].addr@ != avail0[ja].addr@);
                                    }
                                    assert(csv[i].0 == akey);
                                    assert(false);
                                }
                            }
                            assert(curv[i].1 == base[i].1);
                            assert(val_of(curv, akey) == curv[istar].1);
                            assert(cur == (akey, val_of(curv, akey).push(info@)));
                            assert(exists|yy: int|
                                0 <= yy < x + 1 && avail0[sel@[yy] as int].addr@ == csv[i].0);
                        } else {
                            assert(cur == curv[i]);
                            assert(csv[i].0 != akey) by {
                                assert(curv[istar].0 == akey);
                                if i < istar {
                                    assert(curv[i].0 != curv[istar].0);
                                } else {
                                    assert(curv[istar].0 != curv[i].0);
                                }
                            }
                            assert((exists|yy: int|
                                0 <= yy < x + 1 && avail0[sel@[yy] as int].addr@ == csv[i].0)
                                == (exists|yy: int|
                                0 <= yy < x && avail0[sel@[yy] as int].addr@ == csv[i].0)) by {
                                if exists|yy: int|
                                    0 <= yy < x + 1 && avail0[sel@[yy] as int].addr@ == csv[i].0 {
                                    let yy = choose|yy: int|
                                        0 <= yy < x + 1 && avail0[sel@[yy] as int].addr@
                                            == csv[i].0;
                                    assert(yy != x as int);
                                }
                            }
                        }
                    }
                }
                let ghost preavail = avail@;
                proof {
                    lemma_assigned_to_len_le(avail0[idx as int].addr@, prefix);
                    assert(!(exists|yy: int| 0 <= yy < x && sel@[yy] == idx as int)) by {
                        if exists|yy: int| 0 <= yy < x && sel@[yy] == idx as int {
                            let yy = choose|yy: int| 0 <= yy < x && sel@[yy] == idx as int;
                            assert(sel@[yy] != sel@[x as int]);
                        }
                    }
                    assert(avail@[idx as int].load < usize::MAX);
                }
                let mut av = avail.remove(idx);
                av.load = if av.load < usize::MAX {
                    av.load + 1
                } else {
                    av.load
                };
                avail.insert(idx, av);
                proof {
                    assert(avail@ =~= preavail.update(
                        idx as int,
                        crate::placement::AvailServer {
                            addr: preavail[idx as int].addr,
                            load: (preavail[idx as int].load + 1) as usize,
                        },
                    ));
                    assert forall|t: int|
                        #![trigger avail@[t]]
                        0 <= t < avail0.len() implies avail@[t].addr == avail0[t].addr
                        && avail@[t].load == avail0[t].load + assigned_to(
                        avail0[t].addr@,
                        prefix,
                    ).len() + (if (exists|yy: int| 0 <= yy < x + 1 && sel@[yy] == t) {
                        1int
                    } else {
                        0int
                    }) by {
                        if t == idx as int {
                            assert(preavail[t].addr == avail0[t].addr);
                            assert(exists|yy: int| 0 <= yy < x + 1 && sel@[yy] == t);
                        } else {
                            assert(avail@[t] == preavail[t]);
                            assert((exists|yy: int| 0 <= yy < x + 1 && sel@[yy] == t) == (
                            exists|yy: int| 0 <= yy < x && sel@[yy] == t)) by {
                                if exists|yy: int| 0 <= yy < x + 1 && sel@[yy] == t {
                                    let yy = choose|yy: int| 0 <= yy < x + 1 && sel@[yy] == t;
                                    assert(yy != x as int);
                                }
                            }
                        }
                    }
                }
                x = x + 1;
            }
            set_chunk_map(&mut self.chunk_map, info.clone());
            list.push(info);
            proof {
                let listv = list.deep_view();
                assert(listv =~= prefix.push(info@));
                assert(listv.drop_last() =~= prefix);
                // The chunk table gained exactly this chunk's record.
                lemma_upsert(insert_chunks(cmv, prefix), info@.chunk_id, info@);
                assert(insert_chunks(cmv, listv) == upsert(
                    insert_chunks(cmv, prefix),
                    info@.chunk_id,
                    info@,
                ));
                // Each load entry gained the chunk iff it hosts a replica.
                assert forall|i: int| 0 <= i < csv.len() implies #[trigger] self
                    .chunk_servers
                    .deep_view()[i] == (csv[i].0, csv[i].1 + assigned_to(csv[i].0, listv)) by {
                    let cur = self.chunk_servers.deep_view()[i];
                    assert(listv.drop_last() =~= prefix);
                    assert(listv.last() == info@);
                    let hosted = info@.server_addresses.contains(csv[i].0);
                    let chosen_here = exists|yy: int|
                        0 <= yy < nsel && avail0[sel@[yy] as int].addr@ == csv[i].0;
                    assert(hosted == chosen_here) by {
                        if hosted {
                            let a = choose|a: int|
                                0 <= a < info@.server_addresses.len()
                                    && info@.server_addresses[a] == csv[i].0;
                            assert(info@.server_addresses[a] == avail0[sel@[a] as int].addr@);
                        }
                        if chosen_here {
                            let yy = choose|yy: int|
                                0 <= yy < nsel && avail0[sel@[yy] as int].addr@ == csv[i].0;
                            assert(info@.server_addresses[yy] == csv[i].0);
                        }
                    }
                    if hosted {
                        assert(assigned_to(csv[i].0, listv) == assigned_to(
                            csv[i].0,
                            prefix,
                        ).push(info@));
                        assert(cur.1 == base[i].1.push(info@));
                        assert(base[i].1 == csv[i].1 + assigned_to(csv[i].0, prefix));
                        assert((csv[i].1 + assigned_to(csv[i].0, prefix)).push(info@) =~= csv[i].1
                            + assigned_to(csv[i].0, prefix).push(info@));
                    } else {
                        assert(assigned_to(csv[i].0, listv) == assigned_to(csv[i].0, prefix));
                        assert(cur.1 == base[i].1);
                    }
                }
                // The properties of the new chunk record.
                assert forall|i: int| 0 <= i < listv.len() implies {
                    let c = #[trigger] listv[i];
                    &&& c.chunk_id == spec_chunk_id(name@, i)
                    &&& c.version == 0
                    &&& c.server_addresses.len() == vstd::math::min(rf as int, avail0.len() as int)
                    &&& strings_unique(c.server_addresses)
                    &&& (forall|a: int|
                        0 <= a < c.server_addresses.len() ==> has_key(
                            csv,
                            #[trigger] c.server_addresses[a],
                        ) && val_of(csv, c.server_addresses[a]).len() < max)
                } by {
                    if i < prefix.len() {
                        assert(listv[i] == prefix[i]);
                    } else {
                        assert(listv[i] == info@);
                        assert forall|a: int| 0 <= a < info@.server_addresses.len() implies has_key(
                            csv,
                            #[trigger] info@.server_addresses[a],
                        ) && val_of(csv, info@.server_addresses[a]).len() < max by {
                            assert(info@.server_addresses[a] == avail0[sel@[a] as int].addr@);
                            let s = srcs0[sel@[a] as int] as int;
                            assert(avail0[sel@[a] as int].addr@ == csv[s].0);
                            assert(csv[s].1.len() < max);
                            assert(has_key(csv, csv[s].0));
                            lemma_key_index(csv, csv[s].0);
                            assert(key_index(csv, csv[s].0) == s);
                        }
                    }
                }
            }
            proof {
                let listv = list.deep_view();
                // Pool loads now count the new chunk too.
                assert forall|t: int|
                    #![trigger avail@[t]]
                    0 <= t < avail0.len() implies avail@[t].addr == avail0[t].addr
                    && avail@[t].load == avail0[t].load + assigned_to(
                    avail0[t].addr@,
                    listv,
                ).len() by {
                    let hosted_t = info@.server_addresses.contains(avail0[t].addr@);
                    let chosen_t = exists|yy: int| 0 <= yy < nsel && sel@[yy] == t;
                    assert(hosted_t == chosen_t) by {
                        if hosted_t {
                            let a = choose|a: int|
                                0 <= a < info@.server_addresses.len()
                                    && info@.server_addresses[a] == avail0[t].addr@;
                            assert(info@.server_addresses[a] == avail0[sel@[a] as int].addr@);
                            let ja = sel@[a] as int;
                            if ja != t {
                                if ja < t {
                                    assert(avail0[ja].addr@ != avail0[t].addr@);
                                } else {
                                    assert(avail0[t].addr@ != avail0[ja].addr@);
                                }
                                assert(false);
                            }
                            assert(sel@[a] == t);
                        }
                        if chosen_t {
                            let yy = choose|yy: int| 0 <= yy < nsel && sel@[yy] == t;
                            assert(info@.server_addresses[yy] == avail0[t].addr@);
                        }
                    }
                    assert(listv.drop_last() =~= prefix);
                    assert(listv.last() == info@);
                    if hosted_t {
                        assert(assigned_to(avail0[t].addr@, listv) == assigned_to(
                            avail0[t].addr@,
                            prefix,
                        ).push(info@));
                    } else {
                        assert(assigned_to(avail0[t].addr@, listv) == assigned_to(
                            avail0[t].addr@,
                            prefix,
                        ));
                    }
                }
                // Least-load placement for the new chunk; the earlier
                // chunks' claims are untouched.
                assert(placement_min_loaded(csv, list.deep_view(), max as int)) by {
                    assert forall|i: int, a: int, t: int|
                    #![trigger list.deep_view()[i].server_addresses[a], csv[t]]
                    0 <= i < list.deep_view().len() && 0 <= a
                        < list.deep_view()[i].server_addresses.len() && 0 <= t < csv.len()
                        && csv[t].1.len() < max && !list.deep_view()[i].server_addresses.contains(
                        csv[t].0,
                    ) implies val_of(csv, list.deep_view()[i].server_addresses[a]).len()
                    + assigned_to(
                    list.deep_view()[i].server_addresses[a],
                    list.deep_view().subrange(0, i),
                ).len() <= csv[t].1.len() + assigned_to(
                    csv[t].0,
                    list.deep_view().subrange(0, i),
                ).len() by {
                    assert(list.deep_view() == listv);
                    assert(placement_min_loaded(csv, prefix, max as int));
                    if i < prefix.len() {
                        assert(listv[i] == prefix[i]);
                        assert(listv.subrange(0, i) =~= prefix.subrange(0, i));
                        assert(prefix[i].server_addresses[a] == listv[i].server_addresses[a]);
                        let tt = cover[t];
                    } else {
                        assert(listv[i] == info@);
                        assert(listv.subrange(0, i) =~= prefix);
                        let s_idx = sel@[a] as int;
                        assert(info@.server_addresses[a] == avail0[s_idx].addr@);
                        let tt = cover[t];
                        assert(0 <= tt < avail0.len() && avail0[tt].addr@ == csv[t].0);
                        assert((tt as usize) as int == tt);
                        assert(!sel@.contains(tt as usize)) by {
                            if sel@.contains(tt as usize) {
                                let yy = choose|yy: int|
                                    0 <= yy < sel@.len() && sel@[yy] == tt as usize;
                                assert(info@.server_addresses[yy] == avail0[sel@[yy]
                                    as int].addr@);
                                assert(sel@[yy] as int == tt);
                                assert(avail0[sel@[yy] as int].addr@ == avail0[tt].addr@);
                                assert(info@.server_addresses[yy] == csv[t].0);
                                assert(info@.server_addresses.contains(csv[t].0));
                                assert(false);
                            }
                        }
                        assert(availpre[sel@[a] as int].load <= availpre[tt].load);
                        assert(availpre[s_idx].addr == avail0[s_idx].addr
                            && availpre[s_idx].load == avail0[s_idx].load + assigned_to(
                            avail0[s_idx].addr@,
                            prefix,
                        ).len());
                        assert(availpre[tt].load == avail0[tt].load + assigned_to(
                            avail0[tt].addr@,
                            prefix,
                        ).len());
                        let rs = srcs0[s_idx] as int;
                        assert(avail0[s_idx].addr@ == csv[rs].0 && avail0[s_idx].load
                            == csv[rs].1.len());
                        assert(has_key(csv, avail0[s_idx].addr@)) by {
                            assert(csv[rs].0 == avail0[s_idx].addr@);
                        }
                        lemma_key_index(csv, avail0[s_idx].addr@);
                        assert(key_index(csv, avail0[s_idx].addr@) == rs);
                        assert(val_of(csv, avail0[s_idx].addr@).len() == csv[rs].1.len());
                        let rt = srcs0[tt] as int;
                        assert(csv[rt].0 == csv[t].0);
                        if rt != t {
                            if rt < t {
                                assert(csv[rt].0 != csv[t].0);
                            } else {
                                assert(csv[t].0 != csv[rt].0);
                            }
                            assert(false);
                        }
                        assert(avail0[tt].load == csv[t].1.len());
                    }
                }
                }
            }
            cidx = cidx + 1;
        }
        // Record the file itself.
        let list2 = list.clone();
        proof {
            assert(list2.deep_view() =~= list.deep_view());
        }
        let entry = ChunkListEntry { key: name.clone(), chunks: list2 };
        self.file_chunks.push(entry);
        proof {
            assert(self.file_chunks.deep_view() =~= fcv.push((name@, list.deep_view())));
            assert(placement_min_loaded(csv, list.deep_view(), max as int));
            assert forall|a: int, b: int|
                0 <= a < b < self.file_chunks.deep_view().len() implies self
                .file_chunks
                .deep_view()[a].0 != self.file_chunks.deep_view()[b].0 by {
                if b == fcv.len() {
                    assert(self.file_chunks.deep_view()[a].0 == fcv[a].0);
                    if fcv[a].0 == name@ {
                        assert(has_key(fcv, name@));
                    }
                }
            }
        }
        Ok((name, list))
    }
}

/// What `insert_chunks` builds: a still-unique table whose entries are the
/// old ones, except where a record of `list` took a key over; every key of
/// `list` is present, the last record with a given id winning.
#[verifier::rlimit(30)]
pub proof fn lemma_insert_chunks(cm: Seq<(Seq<char>, ChunkInfoView)>, list: Seq<ChunkInfoView>)
    requires
        keys_unique(cm),
    ensures
        keys_unique(insert_chunks(cm, list)),
        forall|k: Seq<char>|
            #[trigger] has_key(insert_chunks(cm, list), k) <==> (has_key(cm, k) || exists|i: int|
                0 <= i < list.len() && (#[trigger] list[i]).chunk_id == k),
        forall|k: Seq<char>|
            has_key(cm, k) && !(exists|i: int|
                0 <= i < list.len() && (#[trigger] list[i]).chunk_id == k) ==> #[trigger] val_of(
                insert_chunks(cm, list),
                k,
            ) == val_of(cm, k),
        forall|i: int|
            0 <= i < list.len() && (forall|j: int|
                i < j < list.len() ==> (#[trigger] list[j]).chunk_id != list[i].chunk_id)
                ==> val_of(insert_chunks(cm, list), (#[trigger] list[i]).chunk_id) == list[i],
        forall|x: int|
            0 <= x < insert_chunks(cm, list).len() ==> cm.contains(
                #[trigger] insert_chunks(cm, list)[x],
            ) || exists|i: int|
                0 <= i < list.len() && insert_chunks(cm, list)[x] == (
                (#[trigger] list[i]).chunk_id,
                list[i],
                ),
    decreases list.len(),
{
    if list.len() > 0 {
        lemma_insert_chunks(cm, list.drop_last());
        let rest = insert_chunks(cm, list.drop_last());
        let whole = insert_chunks(cm, list);
        let lastc = list.last();
        lemma_upsert(rest, lastc.chunk_id, lastc);
        assert(whole == upsert(rest, lastc.chunk_id, lastc));
        // membership
        assert forall|k: Seq<char>| #[trigger] has_key(whole, k) implies (has_key(cm, k)
            || exists|i: int| 0 <= i < list.len() && (#[trigger] list[i]).chunk_id == k) by {
            if k == lastc.chunk_id {
                assert(list[list.len() - 1].chunk_id == k);
            } else {
                assert(has_key(rest, k));
                if !has_key(cm, k) {
                    let i = choose|i: int|
                        0 <= i < list.drop_last().len() && (#[trigger] list.drop_last()[i]).chunk_id
                            == k;
                    assert(list[i].chunk_id == k);
                }
            }
        }
        assert forall|k: Seq<char>|
            (has_key(cm, k) || exists|i: int|
                0 <= i < list.len() && (#[trigger] list[i]).chunk_id == k) implies #[trigger] has_key(
            whole,
            k,
        ) by {
            if k == lastc.chunk_id {
            } else {
                if has_key(cm, k) {
                    assert(has_key(rest, k));
                } else {
                    let i = choose|i: int|
                        0 <= i < list.len() && (#[trigger] list[i]).chunk_id == k;
                    assert(i < list.len() - 1);
                    assert(list.drop_last()[i].chunk_id == k);
                    assert(has_key(rest, k));
                }
            }
        }
        // preserved lookups
        assert forall|k: Seq<char>|
            has_key(cm, k) && !(exists|i: int|
                0 <= i < list.len() && (#[trigger] list[i]).chunk_id == k) implies #[trigger] val_of(
            whole,
            k,
        ) == val_of(cm, k) by {
            assert(!(list[list.len() - 1].chunk_id == k));
            assert(k != lastc.chunk_id);
            assert(!(exists|i: int|
                0 <= i < list.drop_last().len() && (#[trigger] list.drop_last()[i]).chunk_id
                    == k)) by {
                if exists|i: int|
                    0 <= i < list.drop_last().len() && (#[trigger] list.drop_last()[i]).chunk_id
                        == k {
                    let i = choose|i: int|
                        0 <= i < list.drop_last().len() && (#[trigger] list.drop_last()[i]).chunk_id
                            == k;
                    assert(list[i].chunk_id == k);
                }
            }
            assert(val_of(rest, k) == val_of(cm, k));
            assert(has_key(rest, k));
            assert(val_of(whole, k) == val_of(rest, k));
        }
        // last-occurrence lookups
        assert forall|i: int|
            0 <= i < list.len() && (forall|j: int|
                i < j < list.len() ==> (#[trigger] list[j]).chunk_id != list[i].chunk_id) implies val_of(
            whole,
            (#[trigger] list[i]).chunk_id,
        ) == list[i] by {
            if i == list.len() - 1 {
                assert(val_of(whole, lastc.chunk_id) == lastc);
            } else {
                assert(list.drop_last()[i] == list[i]);
                assert forall|j: int|
                    i < j < list.drop_last().len() implies (
                #[trigger] list.drop_last()[j]).chunk_id != list.drop_last()[i].chunk_id by {
                    assert(list.drop_last()[j] == list[j]);
                }
                assert(val_of(rest, list[i].chunk_id) == list[i]);
                assert(list[i].chunk_id != lastc.chunk_id) by {
                    assert(list[list.len() - 1].chunk_id != list[i].chunk_id);
                }
                assert(has_key(rest, list[i].chunk_id)) by {
                    assert(list.drop_last()[i].chunk_id == list[i].chunk_id);
                }
                assert(val_of(whole, list[i].chunk_id) == val_of(rest, list[i].chunk_id));
            }
        }
        // entries come from the old table or from the list
        assert forall|x: int| 0 <= x < whole.len() implies cm.contains(#[trigger] whole[x])
            || exists|i: int|
            0 <= i < list.len() && whole[x] == ((#[trigger] list[i]).chunk_id, list[i]) by {
            if has_key(rest, lastc.chunk_id) {
                let w = key_index(rest, lastc.chunk_id);
                if x == w {
                    assert(whole[x] == (lastc.chunk_id, lastc));
                    assert(whole[x] == ((list[list.len() - 1]).chunk_id, list[list.len() - 1]));
                } else {
                    assert(whole[x] == rest[x]);
                    if !cm.contains(rest[x]) {
                        let i = choose|i: int|
                            0 <= i < list.drop_last().len() && rest[x] == (
                            (#[trigger] list.drop_last()[i]).chunk_id,
                            list.drop_last()[i],
                            );
                        assert(whole[x] == (list[i].chunk_id, list[i]));
                    }
                }
            } else {
                if x == rest.len() {
                    assert(whole[x] == (lastc.chunk_id, lastc));
                    assert(whole[x] == ((list[list.len() - 1]).chunk_id, list[list.len() - 1]));
                } else {
                    assert(whole[x] == rest[x]);
                    if !cm.contains(rest[x]) {
                        let i = choose|i: int|
                            0 <= i < list.drop_last().len() && rest[x] == (
                            (#[trigger] list.drop_last()[i]).chunk_id,
                            list.drop_last()[i],
                            );
                        assert(whole[x] == (list[i].chunk_id, list[i]));
                    }
                }
            }
        }
    }
}

/// Recording a fresh file keeps the three tables consistent: the new list
/// is named canonically under a name no other file has, so its ids collide
/// with nothing, and every table points at the new records consistently.
pub proof fn lemma_assign_preserves_consistency(
    fc: Seq<(Seq<char>, Seq<ChunkInfoView>)>,
    cs: Seq<(Seq<char>, Seq<ChunkInfoView>)>,
    cm: Seq<(Seq<char>, ChunkInfoView)>,
    cs2: Seq<(Seq<char>, Seq<ChunkInfoView>)>,
    name: Seq<char>,
    list: Seq<ChunkInfoView>,
)
    requires
        keys_unique(fc),
        keys_unique(cm),
        tables_consistent(fc, cs, cm),
        !has_key(fc, name),
        forall|i: int|
            0 <= i < list.len() ==> (#[trigger] list[i]).chunk_id == spec_chunk_id(name, i),
        cs2.len() == cs.len(),
        forall|i: int|
            0 <= i < cs.len() ==> #[trigger] cs2[i] == (
                cs[i].0,
                cs[i].1 + assigned_to(cs[i].0, list),
            ),
    ensures
        tables_consistent(fc.push((name, list)), cs2, insert_chunks(cm, list)),
{
    let fc2 = fc.push((name, list));
    let cm2 = insert_chunks(cm, list);
    lemma_insert_chunks(cm, list);
    // No id of the new list occurs anywhere in the old tables.
    assert forall|g: int, j: int|
        0 <= g < fc.len() && 0 <= j < fc[g].1.len() implies forall|i: int|
        0 <= i < list.len() ==> (#[trigger] fc[g].1[j]).chunk_id != (
    #[trigger] list[i]).chunk_id by {
        assert forall|i: int| 0 <= i < list.len() implies fc[g].1[j].chunk_id != (
        #[trigger] list[i]).chunk_id by {
            if fc[g].1[j].chunk_id == list[i].chunk_id {
                assert(fc[g].1[j].chunk_id == spec_chunk_id(fc[g].0, j));
                crate::chunk_id::lemma_chunk_id_injective(fc[g].0, j, name, i);
                assert(fc[g].0 == name);
                assert(has_key(fc, name));
                assert(false);
            }
        }
    }
    // The list's own ids are pairwise distinct.
    assert forall|i1: int, i2: int|
        0 <= i1 < list.len() && 0 <= i2 < list.len() && i1 != i2 implies (
    #[trigger] list[i1]).chunk_id != (#[trigger] list[i2]).chunk_id by {
        if list[i1].chunk_id == list[i2].chunk_id {
            crate::chunk_id::lemma_chunk_id_injective(name, i1, name, i2);
        }
    }
    assert(files_well_named(fc2)) by {
        assert forall|i: int, j: int|
            0 <= i < fc2.len() && 0 <= j < fc2[i].1.len() implies (
        #[trigger] fc2[i].1[j]).chunk_id == spec_chunk_id(fc2[i].0, j) by {
            if i < fc.len() {
                assert(fc2[i] == fc[i]);
            } else {
                assert(fc2[i] == (name, list));
            }
        }
    }
    assert(file_ids_unique(fc2)) by {
        assert forall|g1: int, j1: int, g2: int, j2: int|
            0 <= g1 < fc2.len() && 0 <= j1 < fc2[g1].1.len() && 0 <= g2 < fc2.len() && 0 <= j2
                < fc2[g2].1.len() && (g1 != g2 || j1 != j2) implies (
        #[trigger] fc2[g1].1[j1]).chunk_id != (#[trigger] fc2[g2].1[j2]).chunk_id by {
            if g1 < fc.len() && g2 < fc.len() {
                assert(fc2[g1] == fc[g1] && fc2[g2] == fc[g2]);
            } else if g1 < fc.len() {
                assert(fc2[g1] == fc[g1] && fc2[g2] == (name, list));
            } else if g2 < fc.len() {
                assert(fc2[g2] == fc[g2] && fc2[g1] == (name, list));
            } else {
                assert(fc2[g1] == (name, list) && fc2[g2] == (name, list));
            }
        }
    }
    assert(files_registered(fc2, cm2)) by {
        assert forall|i: int, j: int|
            0 <= i < fc2.len() && 0 <= j < fc2[i].1.len() implies has_key(
            cm2,
            (#[trigger] fc2[i].1[j]).chunk_id,
        ) && val_of(cm2, fc2[i].1[j].chunk_id) == fc2[i].1[j] by {
            if i < fc.len() {
                assert(fc2[i] == fc[i]);
                let c = fc[i].1[j];
                assert(has_key(cm, c.chunk_id) && val_of(cm, c.chunk_id) == c);
                assert(!(exists|x: int|
                    0 <= x < list.len() && (#[trigger] list[x]).chunk_id == c.chunk_id)) by {
                    if exists|x: int|
                        0 <= x < list.len() && (#[trigger] list[x]).chunk_id == c.chunk_id {
                        let x = choose|x: int|
                            0 <= x < list.len() && (#[trigger] list[x]).chunk_id == c.chunk_id;
                        assert(fc[i].1[j].chunk_id != list[x].chunk_id);
                    }
                }
                assert(val_of(cm2, c.chunk_id) == val_of(cm, c.chunk_id));
            } else {
                assert(fc2[i] == (name, list));
                let c = list[j];
                assert forall|x: int| j < x < list.len() implies (#[trigger] list[x]).chunk_id
                    != list[j].chunk_id by {}
                assert(val_of(cm2, c.chunk_id) == c);
                assert(list[j].chunk_id == c.chunk_id);
                assert(has_key(cm2, c.chunk_id));
            }
        }
    }
    assert(cmap_keyed(cm2)) by {
        assert forall|x: int| 0 <= x < cm2.len() implies (#[trigger] cm2[x]).0
            == cm2[x].1.chunk_id by {
            if cm.contains(cm2[x]) {
                let w = choose|w: int| 0 <= w < cm.len() && cm[w] == cm2[x];
                assert(cm[w].0 == cm[w].1.chunk_id);
            } else {
                let i = choose|i: int|
                    0 <= i < list.len() && cm2[x] == ((#[trigger] list[i]).chunk_id, list[i]);
            }
        }
    }
    assert(cmap_covered(cm2, fc2)) by {
        assert forall|x: int| 0 <= x < cm2.len() implies covered_by(
            (#[trigger] cm2[x]).1,
            fc2,
        ) by {
            if cm.contains(cm2[x]) {
                let w = choose|w: int| 0 <= w < cm.len() && cm[w] == cm2[x];
                assert(covered_by(cm[w].1, fc));
                let (g, j) = choose|g: int, j: int|
                    0 <= g < fc.len() && 0 <= j < fc[g].1.len() && #[trigger] fc[g].1[j]
                        == cm[w].1;
                assert(fc2[g] == fc[g]);
                assert(fc2[g].1[j] == cm2[x].1);
            } else {
                let i = choose|i: int|
                    0 <= i < list.len() && cm2[x] == ((#[trigger] list[i]).chunk_id, list[i]);
                assert(fc2[fc.len() as int] == (name, list));
                assert(fc2[fc.len() as int].1[i] == cm2[x].1);
            }
        }
    }
    assert(loads_registered(cs2, cm2)) by {
        assert forall|i: int, j: int|
            0 <= i < cs2.len() && 0 <= j < cs2[i].1.len() implies has_key(
            cm2,
            (#[trigger] cs2[i].1[j]).chunk_id,
        ) && val_of(cm2, cs2[i].1[j].chunk_id) == cs2[i].1[j] by {
            let old_len = cs[i].1.len() as int;
            if j < old_len {
                let c = cs[i].1[j];
                assert(cs2[i].1[j] == c);
                assert(has_key(cm, c.chunk_id) && val_of(cm, c.chunk_id) == c);
                // the old record belongs to an old file, so its id is not
                // one of the new list's
                lemma_key_index(cm, c.chunk_id);
                let w = key_index(cm, c.chunk_id);
                assert(cm[w].1 == c);
                assert(covered_by(cm[w].1, fc));
                let (g, jj) = choose|g: int, jj: int|
                    0 <= g < fc.len() && 0 <= jj < fc[g].1.len() && #[trigger] fc[g].1[jj]
                        == cm[w].1;
                assert(!(exists|x: int|
                    0 <= x < list.len() && (#[trigger] list[x]).chunk_id == c.chunk_id)) by {
                    if exists|x: int|
                        0 <= x < list.len() && (#[trigger] list[x]).chunk_id == c.chunk_id {
                        let x = choose|x: int|
                            0 <= x < list.len() && (#[trigger] list[x]).chunk_id == c.chunk_id;
                        assert(fc[g].1[jj].chunk_id != list[x].chunk_id);
                    }
                }
                assert(val_of(cm2, c.chunk_id) == val_of(cm, c.chunk_id));
            } else {
                let assigned = assigned_to(cs[i].0, list);
                assert(cs2[i].1[j] == assigned[j - old_len]);
                lemma_assigned_to_elements(cs[i].0, list);
                let x = choose|x: int|
                    0 <= x < list.len() && #[trigger] list[x] == assigned[j - old_len];
                let c = list[x];
                assert forall|y: int| x < y < list.len() implies (#[trigger] list[y]).chunk_id
                    != list[x].chunk_id by {}
                assert(val_of(cm2, c.chunk_id) == c);
                assert(has_key(cm2, c.chunk_id));
            }
        }
    }
}

/// Recording a fresh file never touches an existing chunk record: in a
/// consistent state the new ids collide with nothing, so every version
/// the chunk table knew stays exactly as it was.
pub proof fn lemma_assign_preserves_versions(
    fc: Seq<(Seq<char>, Seq<ChunkInfoView>)>,
    cs: Seq<(Seq<char>, Seq<ChunkInfoView>)>,
    cm: Seq<(Seq<char>, ChunkInfoView)>,
    name: Seq<char>,
    list: Seq<ChunkInfoView>,
)
    requires
        keys_unique(fc),
        keys_unique(cm),
        tables_consistent(fc, cs, cm),
        !has_key(fc, name),
        forall|i: int|
            0 <= i < list.len() ==> (#[trigger] list[i]).chunk_id == spec_chunk_id(name, i),
    ensures
        forall|k: Seq<char>|
            #[trigger] has_key(cm, k) ==> has_key(insert_chunks(cm, list), k) && val_of(
                insert_chunks(cm, list),
                k,
            ) == val_of(cm, k),
{
    lemma_insert_chunks(cm, list);
    assert forall|k: Seq<char>| #[trigger] has_key(cm, k) implies has_key(
        insert_chunks(cm, list),
        k,
    ) && val_of(insert_chunks(cm, list), k) == val_of(cm, k) by {
        assert(!(exists|i: int| 0 <= i < list.len() && (#[trigger] list[i]).chunk_id == k)) by {
            if exists|i: int| 0 <= i < list.len() && (#[trigger] list[i]).chunk_id == k {
                let i = choose|i: int|
                    0 <= i < list.len() && (#[trigger] list[i]).chunk_id == k;
                lemma_key_index(cm, k);
                let w = key_index(cm, k);
                assert(cm[w].0 == cm[w].1.chunk_id);
                assert(covered_by(cm[w].1, fc));
                let (g, j) = choose|g: int, j: int|
                    0 <= g < fc.len() && 0 <= j < fc[g].1.len() && #[trigger] fc[g].1[j]
                        == cm[w].1;
                assert(fc[g].1[j].chunk_id == spec_chunk_id(fc[g].0, j));
                assert(spec_chunk_id(fc[g].0, j) == spec_chunk_id(name, i));
                crate::chunk_id::lemma_chunk_id_injective(fc[g].0, j, name, i);
                assert(has_key(fc, name));
                assert(false);
            }
        }
    }
}

/// Every record `assigned_to` keeps comes from the list it filtered.
pub proof fn lemma_assigned_to_elements(addr: Seq<char>, list: Seq<ChunkInfoView>)
    ensures
        forall|x: int|
            0 <= x < assigned_to(addr, list).len() ==> exists|i: int|
                0 <= i < list.len() && #[trigger] list[i] == #[trigger] assigned_to(
                    addr,
                    list,
                )[x],
    decreases list.len(),
{
    if list.len() > 0 {
        lemma_assigned_to_elements(addr, list.drop_last());
        let rest = assigned_to(addr, list.drop_last());
        let whole = assigned_to(addr, list);
        assert forall|x: int| 0 <= x < whole.len() implies exists|i: int|
            0 <= i < list.len() && #[trigger] list[i] == #[trigger] whole[x] by {
            if x < rest.len() {
                assert(whole[x] == rest[x]);
                let i = choose|i: int|
                    0 <= i < list.drop_last().len() && #[trigger] list.drop_last()[i] == rest[x];
                assert(list[i] == whole[x]);
            } else {
                assert(whole[x] == list.last());
                assert(list[list.len() - 1] == whole[x]);
            }
        }
    }
}

/// Deleting a file keeps the three tables consistent: the stripped tables
/// lose exactly the file's chunks.
#[verifier::rlimit(40)]
pub proof fn lemma_delete_preserves_consistency(
    fc: Seq<(Seq<char>, Seq<ChunkInfoView>)>,
    cs: Seq<(Seq<char>, Seq<ChunkInfoView>)>,
    cm: Seq<(Seq<char>, ChunkInfoView)>,
    f: Seq<char>,
)
    requires
        keys_unique(fc),
        keys_unique(cs),
        keys_unique(cm),
        tables_consistent(fc, cs, cm),
        has_key(fc, f),
    ensures
        tables_consistent(
            remove_key(fc, f),
            strip_loads(cs, chunk_ids_of(val_of(fc, f))),
            strip_cmap(cm, chunk_ids_of(val_of(fc, f))),
        ),
{
    let ids = chunk_ids_of(val_of(fc, f));
    let k = key_index(fc, f);
    lemma_key_index(fc, f);
    assert(val_of(fc, f) == fc[k].1);
    let fc2 = remove_key(fc, f);
    let cs2 = strip_loads(cs, ids);
    let cm2 = strip_cmap(cm, ids);
    lemma_remove_key(fc, f);
    lemma_strip_loads(cs, ids);
    lemma_strip_cmap(cm, ids);
    // Entries of the shrunk file table are entries of the old one.
    assert forall|i: int| 0 <= i < fc2.len() implies #[trigger] fc2[i] == fc[if i < k {
        i
    } else {
        i + 1
    }] by {}
    assert(files_well_named(fc2)) by {
        assert forall|i: int, j: int|
            0 <= i < fc2.len() && 0 <= j < fc2[i].1.len() implies (#[trigger] fc2[i].1[j]).chunk_id
            == spec_chunk_id(fc2[i].0, j) by {
            let o = if i < k {
                i
            } else {
                i + 1
            };
            assert(fc2[i] == fc[o]);
        }
    }
    assert(file_ids_unique(fc2)) by {
        assert forall|g1: int, j1: int, g2: int, j2: int|
            0 <= g1 < fc2.len() && 0 <= j1 < fc2[g1].1.len() && 0 <= g2 < fc2.len() && 0 <= j2
                < fc2[g2].1.len() && (g1 != g2 || j1 != j2) implies (
        #[trigger] fc2[g1].1[j1]).chunk_id != (#[trigger] fc2[g2].1[j2]).chunk_id by {
            let o1 = if g1 < k {
                g1
            } else {
                g1 + 1
            };
            let o2 = if g2 < k {
                g2
            } else {
                g2 + 1
            };
            assert(fc2[g1] == fc[o1] && fc2[g2] == fc[o2]);
            assert(fc[o1].1[j1].chunk_id != fc[o2].1[j2].chunk_id);
        }
    }
    // A surviving file's chunk id is never one of the deleted ids.
    assert forall|i: int, j: int|
        0 <= i < fc2.len() && 0 <= j < fc2[i].1.len() implies !ids.contains(
        (#[trigger] fc2[i].1[j]).chunk_id,
    ) by {
        let o = if i < k {
            i
        } else {
            i + 1
        };
        assert(fc2[i] == fc[o]);
        assert(o != k);
        if ids.contains(fc[o].1[j].chunk_id) {
            let j2 = choose|j2: int| 0 <= j2 < ids.len() && ids[j2] == fc[o].1[j].chunk_id;
            assert(ids[j2] == fc[k].1[j2].chunk_id);
            assert(fc[o].1[j].chunk_id != fc[k].1[j2].chunk_id);
        }
    }
    assert(files_registered(fc2, cm2)) by {
        assert forall|i: int, j: int|
            0 <= i < fc2.len() && 0 <= j < fc2[i].1.len() implies has_key(
            cm2,
            (#[trigger] fc2[i].1[j]).chunk_id,
        ) && val_of(cm2, fc2[i].1[j].chunk_id) == fc2[i].1[j] by {
            let o = if i < k {
                i
            } else {
                i + 1
            };
            assert(fc2[i] == fc[o]);
            let c = fc[o].1[j];
            assert(has_key(cm, c.chunk_id) && val_of(cm, c.chunk_id) == c);
            assert(!ids.contains(c.chunk_id));
            assert(has_key(cm2, c.chunk_id));
            assert(val_of(cm2, c.chunk_id) == val_of(cm, c.chunk_id));
        }
    }
    assert(cmap_keyed(cm2)) by {
        assert forall|i: int| 0 <= i < cm2.len() implies (#[trigger] cm2[i]).0
            == cm2[i].1.chunk_id by {
            assert(cm.contains(cm2[i]));
            let x = choose|x: int| 0 <= x < cm.len() && cm[x] == cm2[i];
            assert(cm[x].0 == cm[x].1.chunk_id);
        }
    }
    assert(cmap_covered(cm2, fc2)) by {
        assert forall|i: int| 0 <= i < cm2.len() implies covered_by(
            (#[trigger] cm2[i]).1,
            fc2,
        ) by {
            assert(cm.contains(cm2[i]) && !ids.contains(cm2[i].0));
            let x = choose|x: int| 0 <= x < cm.len() && cm[x] == cm2[i];
            assert(cm[x].0 == cm[x].1.chunk_id);
            assert(covered_by(cm[x].1, fc));
            let (g, j) = choose|g: int, j: int|
                0 <= g < fc.len() && 0 <= j < fc[g].1.len() && #[trigger] fc[g].1[j] == cm[x].1;
            if g == k {
                assert(ids[j] == fc[k].1[j].chunk_id);
                assert(ids[j] == cm2[i].0);
                assert(ids.contains(cm2[i].0));
                assert(false);
            }
            let g2 = if g < k {
                g
            } else {
                g - 1
            };
            assert(fc2[g2] == fc[g]);
            assert(0 <= g2 < fc2.len() && 0 <= j < fc2[g2].1.len() && fc2[g2].1[j] == cm2[i].1);
            assert(covered_by(cm2[i].1, fc2));
        }
    }
    assert(loads_registered(cs2, cm2)) by {
        assert forall|i: int, j: int|
            0 <= i < cs2.len() && 0 <= j < cs2[i].1.len() implies has_key(
            cm2,
            (#[trigger] cs2[i].1[j]).chunk_id,
        ) && val_of(cm2, cs2[i].1[j].chunk_id) == cs2[i].1[j] by {
            assert(cs2[i] == (cs[i].0, strip_chunks(cs[i].1, ids)));
            lemma_strip_chunks(cs[i].1, ids);
            let c = cs2[i].1[j];
            assert(cs[i].1.contains(c) && !ids.contains(c.chunk_id));
            let j0 = choose|j0: int| 0 <= j0 < cs[i].1.len() && cs[i].1[j0] == c;
            assert(has_key(cm, c.chunk_id) && val_of(cm, c.chunk_id) == c);
            assert(has_key(cm2, c.chunk_id));
            assert(val_of(cm2, c.chunk_id) == val_of(cm, c.chunk_id));
        }
    }
}

/// What a successful delete purges (assuming consistent tables): the file
/// is gone from the file table, and neither the chunk table nor any load
/// entry keeps a chunk named under the file's prefix.  The prefix claim
/// asks that no other file's ids start with this file's prefix; a file
/// named like another file's chunk prefix (say `a` beside `a_chunk_1x`)
/// would break it.
pub proof fn lemma_delete_purges(
    fc: Seq<(Seq<char>, Seq<ChunkInfoView>)>,
    cs: Seq<(Seq<char>, Seq<ChunkInfoView>)>,
    cm: Seq<(Seq<char>, ChunkInfoView)>,
    f: Seq<char>,
)
    requires
        keys_unique(fc),
        keys_unique(cs),
        keys_unique(cm),
        tables_consistent(fc, cs, cm),
        has_key(fc, f),
        forall|g: int, j: int|
            0 <= g < fc.len() && fc[g].0 != f && 0 <= j < fc[g].1.len() ==> !crate::chunk_id::is_prefix(
                crate::chunk_id::spec_chunk_prefix(f),
                (#[trigger] fc[g].1[j]).chunk_id,
            ),
    ensures
        !has_key(remove_key(fc, f), f),
        forall|j: int|
            0 <= j < chunk_ids_of(val_of(fc, f)).len() ==> crate::chunk_id::is_prefix(
                crate::chunk_id::spec_chunk_prefix(f),
                #[trigger] chunk_ids_of(val_of(fc, f))[j],
            ),
        forall|i: int|
            0 <= i < strip_cmap(cm, chunk_ids_of(val_of(fc, f))).len()
                ==> !crate::chunk_id::is_prefix(
                crate::chunk_id::spec_chunk_prefix(f),
                (#[trigger] strip_cmap(cm, chunk_ids_of(val_of(fc, f)))[i]).0,
            ),
        forall|i: int, j: int|
            0 <= i < strip_loads(cs, chunk_ids_of(val_of(fc, f))).len() && 0 <= j < strip_loads(
                cs,
                chunk_ids_of(val_of(fc, f)),
            )[i].1.len() ==> !crate::chunk_id::is_prefix(
                crate::chunk_id::spec_chunk_prefix(f),
                (#[trigger] strip_loads(cs, chunk_ids_of(val_of(fc, f)))[i].1[j]).chunk_id,
            ),
{
    let ids = chunk_ids_of(val_of(fc, f));
    let k = key_index(fc, f);
    lemma_key_index(fc, f);
    lemma_remove_key(fc, f);
    lemma_strip_loads(cs, ids);
    lemma_strip_cmap(cm, ids);
    assert(val_of(fc, f) == fc[k].1);
    assert forall|j: int| 0 <= j < ids.len() implies crate::chunk_id::is_prefix(
        crate::chunk_id::spec_chunk_prefix(f),
        #[trigger] ids[j],
    ) by {
        assert(ids[j] == fc[k].1[j].chunk_id);
        assert(fc[k].1[j].chunk_id == spec_chunk_id(fc[k].0, j));
        crate::chunk_id::lemma_chunk_id_has_prefix(f, j);
    }
    let cs2 = strip_loads(cs, ids);
    let cm2 = strip_cmap(cm, ids);
    // Any chunk record known to the old chunk table and not among the
    // deleted ids is a chunk of a surviving file, whose id is prefix-free.
    assert forall|x: int|
        0 <= x < cm.len() && !ids.contains((#[trigger] cm[x]).0) implies !crate::chunk_id::is_prefix(
        crate::chunk_id::spec_chunk_prefix(f),
        cm[x].0,
    ) by {
        assert(cm[x].0 == cm[x].1.chunk_id);
        assert(covered_by(cm[x].1, fc));
        let (g, j) = choose|g: int, j: int|
            0 <= g < fc.len() && 0 <= j < fc[g].1.len() && #[trigger] fc[g].1[j] == cm[x].1;
        if fc[g].0 == f {
            assert(g == k) by {
                if g != k {
                    assert(fc[g].0 != fc[k].0);
                }
            }
            assert(ids[j] == fc[k].1[j].chunk_id);
            assert(ids.contains(cm[x].0));
            assert(false);
        } else {
            assert(!crate::chunk_id::is_prefix(
                crate::chunk_id::spec_chunk_prefix(f),
                fc[g].1[j].chunk_id,
            ));
        }
    }
    assert forall|i: int| 0 <= i < cm2.len() implies !crate::chunk_id::is_prefix(
        crate::chunk_id::spec_chunk_prefix(f),
        (#[trigger] cm2[i]).0,
    ) by {
        assert(cm.contains(cm2[i]) && !ids.contains(cm2[i].0));
        let x = choose|x: int| 0 <= x < cm.len() && cm[x] == cm2[i];
    }
    assert forall|i: int, j: int|
        0 <= i < cs2.len() && 0 <= j < cs2[i].1.len() implies !crate::chunk_id::is_prefix(
        crate::chunk_id::spec_chunk_prefix(f),
        (#[trigger] cs2[i].1[j]).chunk_id,
    ) by {
        assert(cs2[i] == (cs[i].0, strip_chunks(cs[i].1, ids)));
        lemma_strip_chunks(cs[i].1, ids);
        let c = cs2[i].1[j];
        assert(cs[i].1.contains(c) && !ids.contains(c.chunk_id));
        let j0 = choose|j0: int| 0 <= j0 < cs[i].1.len() && cs[i].1[j0] == c;
        assert(has_key(cm, c.chunk_id) && val_of(cm, c.chunk_id) == c);
        lemma_key_index(cm, c.chunk_id);
        let x = key_index(cm, c.chunk_id);
        assert(cm[x].0 == c.chunk_id);
        assert(!ids.contains(cm[x].0));
    }
}

/// One replica-transfer order: copy `chunk_id` from `source` to `target`.
#[derive(Debug)]
pub struct TransferCmd {
    pub source: String,
    pub chunk_id: String,
    pub target: String,
}

/// The address list without `bad`, order kept.
pub open spec fn remove_addr(addrs: Seq<Seq<char>>, bad: Seq<char>) -> Seq<Seq<char>>
    decreases addrs.len(),
{
    if addrs.len() == 0 {
        Seq::empty()
    } else {
        let rest = remove_addr(addrs.drop_last(), bad);
        if addrs.last() == bad {
            rest
        } else {
            rest.push(addrs.last())
        }
    }
}

/// Whether a load list carries a record named `id`.
pub open spec fn holds_chunk(load: Seq<ChunkInfoView>, id: Seq<char>) -> bool {
    exists|j: int| 0 <= j < load.len() && (#[trigger] load[j]).chunk_id == id
}

/// `list` with every record named `id` replaced by `c`, order kept.
pub open spec fn replace_in_list(
    list: Seq<ChunkInfoView>,
    id: Seq<char>,
    c: ChunkInfoView,
) -> Seq<ChunkInfoView>
    decreases list.len(),
{
    if list.len() == 0 {
        Seq::empty()
    } else {
        let rest = replace_in_list(list.drop_last(), id, c);
        if list.last().chunk_id == id {
            rest.push(c)
        } else {
            rest.push(list.last())
        }
    }
}

/// The file table with every record named `id` replaced by `c`.
pub open spec fn replace_in_files(
    fc: Seq<(Seq<char>, Seq<ChunkInfoView>)>,
    id: Seq<char>,
    c: ChunkInfoView,
) -> Seq<(Seq<char>, Seq<ChunkInfoView>)>
    decreases fc.len(),
{
    if fc.len() == 0 {
        Seq::empty()
    } else {
        replace_in_files(fc.drop_last(), id, c).push(
            (fc.last().0, replace_in_list(fc.last().1, id, c)),
        )
    }
}

/// The load table after a repair of `id`: every copy of the record is
/// replaced by `c`, and each entry whose key is in `targets` gains `c`.
pub open spec fn repair_loads(
    cs: Seq<(Seq<char>, Seq<ChunkInfoView>)>,
    id: Seq<char>,
    c: ChunkInfoView,
    targets: Seq<Seq<char>>,
) -> Seq<(Seq<char>, Seq<ChunkInfoView>)>
    decreases cs.len(),
{
    if cs.len() == 0 {
        Seq::empty()
    } else {
        let base = replace_in_list(cs.last().1, id, c);
        let newlist = if targets.contains(cs.last().0) {
            base.push(c)
        } else {
            base
        };
        repair_loads(cs.drop_last(), id, c, targets).push((cs.last().0, newlist))
    }
}

/// What `replace_in_list` builds, pointwise.
pub proof fn lemma_replace_in_list(list: Seq<ChunkInfoView>, id: Seq<char>, c: ChunkInfoView)
    ensures
        replace_in_list(list, id, c).len() == list.len(),
        forall|j: int|
            0 <= j < list.len() ==> #[trigger] replace_in_list(list, id, c)[j] == (if list[j].chunk_id
                == id {
                c
            } else {
                list[j]
            }),
    decreases list.len(),
{
    if list.len() > 0 {
        lemma_replace_in_list(list.drop_last(), id, c);
        assert forall|j: int| 0 <= j < list.len() implies #[trigger] replace_in_list(
            list,
            id,
            c,
        )[j] == (if list[j].chunk_id == id {
            c
        } else {
            list[j]
        }) by {
            if j < list.len() - 1 {
                assert(list.drop_last()[j] == list[j]);
                assert(replace_in_list(list, id, c)[j] == replace_in_list(
                    list.drop_last(),
                    id,
                    c,
                )[j]);
            }
        }
    }
}

/// Repairing one chunk keeps the three tables consistent: every copy of
/// the record, in the file table, the chunk table and the load table, is
/// rewritten to the same repaired record, whose id does not change, and
/// the chosen targets gain exactly that record.
#[verifier::rlimit(40)]
pub proof fn lemma_repair_preserves_consistency(
    fc: Seq<(Seq<char>, Seq<ChunkInfoView>)>,
    cs: Seq<(Seq<char>, Seq<ChunkInfoView>)>,
    cm: Seq<(Seq<char>, ChunkInfoView)>,
    id: Seq<char>,
    c: ChunkInfoView,
    targets: Seq<Seq<char>>,
)
    requires
        keys_unique(fc),
        keys_unique(cm),
        tables_consistent(fc, cs, cm),
        has_key(cm, id),
        c.chunk_id == id,
    ensures
        tables_consistent(
            replace_in_files(fc, id, c),
            repair_loads(cs, id, c, targets),
            upsert(cm, id, c),
        ),
{
    let fc2 = replace_in_files(fc, id, c);
    let cs2 = repair_loads(cs, id, c, targets);
    let cm2 = upsert(cm, id, c);
    lemma_upsert(cm, id, c);
    lemma_key_index(cm, id);
    lemma_replace_in_files_keys(fc, id, c);
    lemma_repair_loads_keys(cs, id, c, targets);
    // Pointwise shape of the new file table.
    assert forall|g: int| 0 <= g < fc.len() implies #[trigger] fc2[g] == (
        fc[g].0,
        replace_in_list(fc[g].1, id, c),
    ) by {
        lemma_replace_in_files_shape(fc, id, c, g);
    }
    assert(files_well_named(fc2)) by {
        assert forall|i: int, j: int|
            0 <= i < fc2.len() && 0 <= j < fc2[i].1.len() implies (
        #[trigger] fc2[i].1[j]).chunk_id == spec_chunk_id(fc2[i].0, j) by {
            lemma_replace_in_list(fc[i].1, id, c);
            assert(fc2[i].1[j] == (if fc[i].1[j].chunk_id == id {
                c
            } else {
                fc[i].1[j]
            }));
        }
    }
    assert(file_ids_unique(fc2)) by {
        assert forall|g1: int, j1: int, g2: int, j2: int|
            0 <= g1 < fc2.len() && 0 <= j1 < fc2[g1].1.len() && 0 <= g2 < fc2.len() && 0 <= j2
                < fc2[g2].1.len() && (g1 != g2 || j1 != j2) implies (
        #[trigger] fc2[g1].1[j1]).chunk_id != (#[trigger] fc2[g2].1[j2]).chunk_id by {
            lemma_replace_in_list(fc[g1].1, id, c);
            lemma_replace_in_list(fc[g2].1, id, c);
            assert(fc2[g1].1[j1].chunk_id == fc[g1].1[j1].chunk_id);
            assert(fc2[g2].1[j2].chunk_id == fc[g2].1[j2].chunk_id);
        }
    }
    assert(files_registered(fc2, cm2)) by {
        assert forall|i: int, j: int|
            0 <= i < fc2.len() && 0 <= j < fc2[i].1.len() implies has_key(
            cm2,
            (#[trigger] fc2[i].1[j]).chunk_id,
        ) && val_of(cm2, fc2[i].1[j].chunk_id) == fc2[i].1[j] by {
            lemma_replace_in_list(fc[i].1, id, c);
            let old_rec = fc[i].1[j];
            assert(has_key(cm, old_rec.chunk_id) && val_of(cm, old_rec.chunk_id) == old_rec);
            if old_rec.chunk_id == id {
                assert(fc2[i].1[j] == c);
                assert(val_of(cm2, id) == c);
            } else {
                assert(fc2[i].1[j] == old_rec);
                assert(val_of(cm2, old_rec.chunk_id) == val_of(cm, old_rec.chunk_id));
            }
        }
    }
    assert(cmap_keyed(cm2)) by {
        assert forall|x: int| 0 <= x < cm2.len() implies (#[trigger] cm2[x]).0
            == cm2[x].1.chunk_id by {
            let w = key_index(cm, id);
            if x == w {
                assert(cm2[x] == (id, c));
            } else {
                assert(cm2[x] == cm[x]);
            }
        }
    }
    assert(cmap_covered(cm2, fc2)) by {
        assert forall|x: int| 0 <= x < cm2.len() implies covered_by(
            (#[trigger] cm2[x]).1,
            fc2,
        ) by {
            let w = key_index(cm, id);
            if x == w {
                // The old record under `id` is listed under some file;
                // that very position now holds the repaired record.
                assert(covered_by(cm[w].1, fc));
                let (g, j) = choose|g: int, j: int|
                    0 <= g < fc.len() && 0 <= j < fc[g].1.len() && #[trigger] fc[g].1[j]
                        == cm[w].1;
                assert(cm[w].0 == cm[w].1.chunk_id);
                assert(fc[g].1[j].chunk_id == id);
                lemma_replace_in_list(fc[g].1, id, c);
                assert(fc2[g].1[j] == c);
                assert(cm2[x].1 == c);
                assert(covered_by(cm2[x].1, fc2));
            } else {
                assert(cm2[x] == cm[x]);
                assert(covered_by(cm[x].1, fc));
                let (g, j) = choose|g: int, j: int|
                    0 <= g < fc.len() && 0 <= j < fc[g].1.len() && #[trigger] fc[g].1[j]
                        == cm[x].1;
                assert(cm[x].0 == cm[x].1.chunk_id);
                assert(fc[g].1[j].chunk_id == cm[x].0);
                assert(cm[x].0 != id) by {
                    if cm[x].0 == id {
                        assert(cm[x].0 != cm[w].0);
                    }
                }
                lemma_replace_in_list(fc[g].1, id, c);
                assert(fc2[g].1[j] == fc[g].1[j]);
                assert(covered_by(cm2[x].1, fc2));
            }
        }
    }
    assert(loads_registered(cs2, cm2)) by {
        assert forall|i: int, j: int|
            0 <= i < cs2.len() && 0 <= j < cs2[i].1.len() implies has_key(
            cm2,
            (#[trigger] cs2[i].1[j]).chunk_id,
        ) && val_of(cm2, cs2[i].1[j].chunk_id) == cs2[i].1[j] by {
            lemma_repair_loads_shape(cs, id, c, targets, i);
            let base = replace_in_list(cs[i].1, id, c);
            lemma_replace_in_list(cs[i].1, id, c);
            if j < base.len() {
                assert(cs2[i].1[j] == base[j]);
                let old_rec = cs[i].1[j];
                assert(has_key(cm, old_rec.chunk_id) && val_of(cm, old_rec.chunk_id)
                    == old_rec);
                if old_rec.chunk_id == id {
                    assert(cs2[i].1[j] == c);
                    assert(val_of(cm2, id) == c);
                } else {
                    assert(cs2[i].1[j] == old_rec);
                    assert(val_of(cm2, old_rec.chunk_id) == val_of(cm, old_rec.chunk_id));
                }
            } else {
                assert(cs2[i].1[j] == c);
                assert(val_of(cm2, id) == c);
            }
        }
    }
}

/// Pointwise shape of `replace_in_files` at one row.
proof fn lemma_replace_in_files_shape(
    fc: Seq<(Seq<char>, Seq<ChunkInfoView>)>,
    id: Seq<char>,
    c: ChunkInfoView,
    g: int,
)
    requires
        0 <= g < fc.len(),
    ensures
        replace_in_files(fc, id, c)[g] == (fc[g].0, replace_in_list(fc[g].1, id, c)),
    decreases fc.len(),
{
    if g < fc.len() - 1 {
        lemma_replace_in_files_shape(fc.drop_last(), id, c, g);
        lemma_replace_in_files_keys(fc.drop_last(), id, c);
        assert(fc.drop_last()[g] == fc[g]);
        assert(replace_in_files(fc, id, c)[g] == replace_in_files(fc.drop_last(), id, c)[g]);
    } else {
        lemma_replace_in_files_keys(fc.drop_last(), id, c);
        assert(fc.last() == fc[g]);
        assert(replace_in_files(fc, id, c)[g] == (fc.last().0, replace_in_list(
            fc.last().1,
            id,
            c,
        )));
    }
}

/// Pointwise shape of `repair_loads` at one row.
proof fn lemma_repair_loads_shape(
    cs: Seq<(Seq<char>, Seq<ChunkInfoView>)>,
    id: Seq<char>,
    c: ChunkInfoView,
    targets: Seq<Seq<char>>,
    i: int,
)
    requires
        0 <= i < cs.len(),
    ensures
        repair_loads(cs, id, c, targets)[i] == (
            cs[i].0,
            if targets.contains(cs[i].0) {
                replace_in_list(cs[i].1, id, c).push(c)
            } else {
                replace_in_list(cs[i].1, id, c)
            },
        ),
    decreases cs.len(),
{
    if i < cs.len() - 1 {
        lemma_repair_loads_shape(cs.drop_last(), id, c, targets, i);
        lemma_repair_loads_keys(cs.drop_last(), id, c, targets);
        assert(cs.drop_last()[i] == cs[i]);
        assert(repair_loads(cs, id, c, targets)[i] == repair_loads(
            cs.drop_last(),
            id,
            c,
            targets,
        )[i]);
    } else {
        lemma_repair_loads_keys(cs.drop_last(), id, c, targets);
        assert(cs.last() == cs[i]);
        assert(repair_loads(cs, id, c, targets)[i] == (
            cs.last().0,
            if targets.contains(cs.last().0) {
                replace_in_list(cs.last().1, id, c).push(c)
            } else {
                replace_in_list(cs.last().1, id, c)
            },
        ));
    }
}

/// Whether a load list carries a record named `id`.
pub(crate) fn holds_chunk_exec(chunks: &Vec<ChunkInfo>, id: &String) -> (r: bool)
    ensures
        r == holds_chunk(chunks.deep_view(), id@),
{
    let n = chunks.len();
    let mut i: usize = 0;
    while i < n
        invariant
            n == chunks@.len(),
            i <= n,
            forall|j: int| 0 <= j < i ==> (#[trigger] chunks.deep_view()[j]).chunk_id != id@,
        decreases n - i,
    {
        if chunks[i].chunk_id == *id {
            proof {
                assert(chunks.deep_view()[i as int].chunk_id == id@);
            }
            return true;
        }
        i = i + 1;
    }
    proof {
        if holds_chunk(chunks.deep_view(), id@) {
            let j = choose|j: int|
                0 <= j < chunks.deep_view().len() && (#[trigger] chunks.deep_view()[j]).chunk_id
                    == id@;
        }
    }
    false
}

impl MasterService {
    /// Repairs one chunk that lived on the failed server: finds the
    /// surviving replicas in the chunk table, picks the least-loaded
    /// chunkservers that are below the cap and do not already hold the
    /// chunk, orders one transfer per pick from the first survivor, and
    /// rewrites all three tables with the repaired record: survivors plus
    /// picks, version exactly one higher.  The number of orders is exactly
    /// the smaller of the missing replica count and the candidate count,
    /// so nothing changes only when the chunk is unknown, no replica
    /// survives, the replication target is already met, no candidate
    /// exists, or the version counter is at its maximum.
    pub fn repair_chunk(&mut self, chunk_id: &String, failed: &String) -> (r: Vec<TransferCmd>)
        requires
            old(self).wf(),
        ensures
            final(self).wf(),
            final(self).last_heartbeat_time == old(self).last_heartbeat_time,
            final(self).shadow_masters == old(self).shadow_masters,
            final(self).current_master == old(self).current_master,
            final(self).is_leader_flag == old(self).is_leader_flag,
            final(self).addr == old(self).addr,
            final(self).config == old(self).config,
            final(self).common_config == old(self).common_config,
            ({
                let cmv = old(self).chunk_map.deep_view();
                let csv = old(self).chunk_servers.deep_view();
                let fcv = old(self).file_chunks.deep_view();
                let max = old(self).common_config.max_allowed_chunks as int;
                let rf = old(self).common_config.replication_factor as int;
                if !has_key(cmv, chunk_id@) {
                    r@.len() == 0 && *final(self) == *old(self)
                } else {
                    let info0 = val_of(cmv, chunk_id@);
                    let sources = remove_addr(info0.server_addresses, failed@);
                    if sources.len() == 0 || rf <= sources.len() || info0.version == u64::MAX {
                        r@.len() == 0 && *final(self) == *old(self)
                    } else {
                        let targets = r@.map_values(|cmd: TransferCmd| cmd.target@);
                        let c = ChunkInfoView {
                            chunk_id: chunk_id@,
                            server_addresses: sources + targets,
                            version: (info0.version + 1) as u64,
                        };
                        &&& r@.len() == vstd::math::min(
                            rf - sources.len(),
                            candidate_count(csv, max, chunk_id@),
                        )
                        &&& targets_min_loaded(csv, r@, chunk_id@, max)
                        &&& (forall|x: int|
                            0 <= x < r@.len() ==> {
                                let cmd = #[trigger] r@[x];
                                &&& cmd.chunk_id@ == chunk_id@
                                &&& cmd.source@ == sources[0]
                                &&& has_key(csv, cmd.target@)
                                &&& val_of(csv, cmd.target@).len() < max
                                &&& !holds_chunk(val_of(csv, cmd.target@), chunk_id@)
                            })
                        &&& (forall|x: int, y: int|
                            0 <= x < y < r@.len() ==> (#[trigger] r@[x]).target@ != (
                            #[trigger] r@[y]).target@)
                        &&& (r@.len() == 0 ==> *final(self) == *old(self))
                        &&& (r@.len() > 0 ==> {
                            &&& final(self).chunk_map.deep_view() == upsert(cmv, chunk_id@, c)
                            &&& final(self).file_chunks.deep_view() == replace_in_files(
                                fcv,
                                chunk_id@,
                                c,
                            )
                            &&& final(self).chunk_servers.deep_view() == repair_loads(
                                csv,
                                chunk_id@,
                                c,
                                targets,
                            )
                        })
                    }
                }
            }),
    {
        let ghost cmv = self.chunk_map.deep_view();
        let ghost csv = self.chunk_servers.deep_view();
        let ghost fcv = self.file_chunks.deep_view();
        let max = self.common_config.max_allowed_chunks;
        let rf = self.common_config.replication_factor;
        let idx = match find_chunk_map(&self.chunk_map, chunk_id) {
            None => {
                return Vec::new();
            },
            Some(i) => i,
        };
        proof {
            lemma_key_index(cmv, chunk_id@);
            assert(key_index(cmv, chunk_id@) == idx);
        }
        let info0 = self.chunk_map[idx].info.clone();
        proof {
            assert(info0@ == val_of(cmv, chunk_id@));
        }
        let ghost sourcesv = remove_addr(info0@.server_addresses, failed@);
        let mut sources: Vec<String> = Vec::new();
        let nsrc = info0.server_addresses.len();
        let mut si: usize = 0;
        proof {
            assert(info0@.server_addresses.subrange(0, 0) =~= Seq::<Seq<char>>::empty());
            assert(sources.deep_view() =~= remove_addr(
                info0@.server_addresses.subrange(0, 0),
                failed@,
            ));
        }
        while si < nsrc
            invariant
                nsrc == info0.server_addresses@.len(),
                si <= nsrc,
                sources.deep_view() == remove_addr(
                    info0@.server_addresses.subrange(0, si as int),
                    failed@,
                ),
            decreases nsrc - si,
        {
            let ghost p1 = info0@.server_addresses.subrange(0, si as int + 1);
            proof {
                assert(p1.drop_last() =~= info0@.server_addresses.subrange(0, si as int));
                assert(p1.last() == info0@.server_addresses[si as int]);
            }
            if !(info0.server_addresses[si] == *failed) {
                let ghost pres = sources.deep_view();
                let a = info0.server_addresses[si].clone();
                sources.push(a);
                proof {
                    assert(sources.deep_view() =~= pres.push(a@));
                }
            }
            proof {
                assert(sources.deep_view() =~= remove_addr(p1, failed@));
            }
            si = si + 1;
        }
        proof {
            assert(info0@.server_addresses.subrange(0, nsrc as int) =~= info0@.server_addresses);
            assert(sources.deep_view() == sourcesv);
        }
        if sources.len() == 0 {
            return Vec::new();
        }
        if rf <= sources.len() {
            return Vec::new();
        }
        if info0.version == u64::MAX {
            return Vec::new();
        }
        let needed = rf - sources.len();
        // Candidates: below the cap and not already holding the chunk.
        // `srcs` maps each candidate to its row in the load table.
        let mut cand: Vec<crate::placement::AvailServer> = Vec::new();
        let mut srcs: Vec<usize> = Vec::new();
        let ncs = self.chunk_servers.len();
        let mut ci: usize = 0;
        proof {
            assert(csv.subrange(0, 0) =~= Seq::<(Seq<char>, Seq<ChunkInfoView>)>::empty());
        }
        while ci < ncs
            invariant
                ncs == self.chunk_servers@.len(),
                ci <= ncs,
                csv == self.chunk_servers.deep_view(),
                keys_unique(csv),
                srcs@.len() == cand@.len(),
                cand@.len() == candidate_count(csv.subrange(0, ci as int), max as int, chunk_id@),
                forall|t: int|
                    #![trigger srcs@[t]]
                    0 <= t < cand@.len() ==> (srcs@[t] as int) < ci && cand@[t].addr@
                        == csv[srcs@[t] as int].0 && cand@[t].load == csv[srcs@[t] as int].1.len()
                        && csv[srcs@[t] as int].1.len() < max && !holds_chunk(
                        csv[srcs@[t] as int].1,
                        chunk_id@,
                    ),
                forall|t1: int, t2: int|
                    0 <= t1 < t2 < cand@.len() ==> (#[trigger] srcs@[t1]) < (#[trigger] srcs@[t2]),
                forall|t1: int, t2: int|
                    0 <= t1 < t2 < cand@.len() ==> (#[trigger] cand@[t1]).addr@ != (
                    #[trigger] cand@[t2]).addr@,
            decreases ncs - ci,
        {
            let ghost p1full = csv.subrange(0, ci as int + 1);
            proof {
                assert(p1full.drop_last() =~= csv.subrange(0, ci as int));
                assert(p1full.last() == csv[ci as int]);
            }
            if self.chunk_servers[ci].chunks.len() < max && !holds_chunk_exec(
                &self.chunk_servers[ci].chunks,
                chunk_id,
            ) {
                let ghost pre = cand@;
                let ghost presrcs = srcs@;
                let a = crate::placement::AvailServer {
                    addr: self.chunk_servers[ci].key.clone(),
                    load: self.chunk_servers[ci].chunks.len(),
                };
                cand.push(a);
                srcs.push(ci);
                proof {
                    assert(cand@[cand@.len() - 1].addr@ == csv[ci as int].0);
                    assert(cand@[cand@.len() - 1].load == csv[ci as int].1.len());
                    assert(csv[ci as int].1.len() < max);
                    assert(!holds_chunk(csv[ci as int].1, chunk_id@));
                    assert forall|t: int|
                        #![trigger srcs@[t]]
                        0 <= t < cand@.len() implies (srcs@[t] as int) < ci + 1 && cand@[t].addr@
                        == csv[srcs@[t] as int].0 && cand@[t].load == csv[srcs@[t] as int].1.len()
                        && csv[srcs@[t] as int].1.len() < max && !holds_chunk(
                        csv[srcs@[t] as int].1,
                        chunk_id@,
                    ) by {
                        if t < cand@.len() - 1 {
                            assert(srcs@[t] == presrcs[t]);
                            assert(cand@[t] == pre[t]);
                            assert((presrcs[t] as int) < ci && pre[t].addr@
                                == csv[presrcs[t] as int].0 && pre[t].load
                                == csv[presrcs[t] as int].1.len()
                                && csv[presrcs[t] as int].1.len() < max && !holds_chunk(
                                csv[presrcs[t] as int].1,
                                chunk_id@,
                            ));
                        } else {
                            assert(srcs@[t] == ci);
                        }
                    }
                    assert forall|t1: int, t2: int|
                        0 <= t1 < t2 < cand@.len() implies (#[trigger] srcs@[t1]) < (
                    #[trigger] srcs@[t2]) by {
                        if t2 == cand@.len() - 1 {
                            assert((presrcs[t1] as int) < ci);
                        }
                    }
                    assert forall|t1: int, t2: int|
                        0 <= t1 < t2 < cand@.len() implies (#[trigger] cand@[t1]).addr@ != (
                    #[trigger] cand@[t2]).addr@ by {
                        if t2 == cand@.len() - 1 {
                            assert((presrcs[t1] as int) < ci && pre[t1].addr@
                                == csv[presrcs[t1] as int].0);
                            assert(csv[presrcs[t1] as int].0 != csv[ci as int].0);
                        }
                    }
                }
            }
            proof {
                assert(cand@.len() == candidate_count(p1full, max as int, chunk_id@));
            }
            ci = ci + 1;
        }
        proof {
            assert(csv.subrange(0, ncs as int) =~= csv);
        }
        let ghost srcs0c = srcs@;
        let ghost rows = Seq::new(srcs0c.len() as nat, |t: int| srcs0c[t] as int);
        // `cover` points each candidate row at its pool member.
        let ghost cover = Seq::new(
            csv.len() as nat,
            |fs: int| choose|t: int| 0 <= t < rows.len() && rows[t] == fs,
        );
        proof {
            assert forall|t1: int, t2: int| 0 <= t1 < t2 < rows.len() implies #[trigger] rows[t1]
                != #[trigger] rows[t2] by {
                assert(srcs0c[t1] < srcs0c[t2]);
            }
            assert(rows.no_duplicates());
            assert forall|t: int| 0 <= t < rows.len() implies 0 <= #[trigger] rows[t] < csv.len()
                && csv[rows[t]].1.len() < max && !holds_chunk(csv[rows[t]].1, chunk_id@) by {
                assert((srcs0c[t] as int) < csv.len() && csv[srcs0c[t] as int].1.len() < max
                    && !holds_chunk(csv[srcs0c[t] as int].1, chunk_id@));
            }
            lemma_candidate_cover(csv, max as int, chunk_id@, rows);
            assert forall|fs: int|
                0 <= fs < csv.len() && csv[fs].1.len() < max && !holds_chunk(
                    csv[fs].1,
                    chunk_id@,
                ) implies 0 <= #[trigger] cover[fs] < cand@.len() && cand@[cover[fs]].addr@
                == csv[fs].0 by {
                assert(rows.contains(fs));
                let t = cover[fs];
                assert(0 <= t < rows.len() && rows[t] == fs);
                assert(cand@[t].addr@ == csv[srcs0c[t] as int].0);
            }
        }
        let sel = crate::placement::select_servers(&cand, needed);
        if sel.len() == 0 {
            proof {
                assert(vstd::math::min(needed as int, cand@.len() as int) == 0);
                assert(needed >= 1);
                assert(cand@.len() == 0);
                assert(candidate_count(csv, max as int, chunk_id@) == 0);
                assert(vstd::math::min(
                    rf as int - sourcesv.len() as int,
                    candidate_count(csv, max as int, chunk_id@),
                ) == 0);
            }
            return Vec::new();
        }
        // The transfer orders and the target list.
        let mut cmds: Vec<TransferCmd> = Vec::new();
        let mut targets: Vec<String> = Vec::new();
        let nsel = sel.len();
        let mut x: usize = 0;
        while x < nsel
            invariant
                nsel == sel@.len(),
                nsel <= needed,
                x <= nsel,
                sel@.no_duplicates(),
                sources@.len() > 0,
                forall|i: int| 0 <= i < sel@.len() ==> (sel@[i] as int) < cand@.len(),
                srcs@.len() == cand@.len(),
                srcs0c == srcs@,
                cover.len() == csv.len(),
                forall|t: int|
                    #![trigger srcs@[t]]
                    0 <= t < cand@.len() ==> (srcs@[t] as int) < csv.len() && cand@[t].addr@
                        == csv[srcs@[t] as int].0 && cand@[t].load == csv[srcs@[t] as int].1.len()
                        && csv[srcs@[t] as int].1.len() < max && !holds_chunk(
                        csv[srcs@[t] as int].1,
                        chunk_id@,
                    ),
                forall|fs: int|
                    #![trigger cover[fs]]
                    0 <= fs < csv.len() && csv[fs].1.len() < max && !holds_chunk(
                        csv[fs].1,
                        chunk_id@,
                    ) ==> 0 <= cover[fs] < cand@.len() && cand@[cover[fs]].addr@ == csv[fs].0,
                forall|t1: int, t2: int|
                    0 <= t1 < t2 < cand@.len() ==> (#[trigger] cand@[t1]).addr@ != (
                    #[trigger] cand@[t2]).addr@,
                keys_unique(csv),
                cmds@.len() == x,
                targets@.len() == x,
                forall|i: int| 0 <= i < x ==> (#[trigger] targets.deep_view()[i])
                    == cand@[sel@[i] as int].addr@,
                forall|i: int|
                    0 <= i < x ==> {
                        let cmd = #[trigger] cmds@[i];
                        &&& cmd.chunk_id@ == chunk_id@
                        &&& cmd.source@ == sources.deep_view()[0]
                        &&& cmd.target@ == cand@[sel@[i] as int].addr@
                    },
            decreases nsel - x,
        {
            let ghost precmds = cmds@;
            let ghost pretargets = targets.deep_view();
            let t = cand[sel[x]].addr.clone();
            let cmd = TransferCmd {
                source: sources[0].clone(),
                chunk_id: chunk_id.clone(),
                target: t.clone(),
            };
            cmds.push(cmd);
            targets.push(t);
            proof {
                assert(targets.deep_view() =~= pretargets.push(
                    cand@[sel@[x as int] as int].addr@,
                ));
            }
            x = x + 1;
        }
        let ghost targetsv = targets.deep_view();
        // The repaired record: survivors plus targets, version bumped.
        let mut newaddrs: Vec<String> = sources;
        let ghost nsources = newaddrs.deep_view();
        let mut x2: usize = 0;
        while x2 < nsel
            invariant
                nsel == sel@.len(),
                x2 <= nsel,
                targetsv.len() == nsel,
                forall|i: int| 0 <= i < nsel ==> (sel@[i] as int) < cand@.len(),
                forall|i: int| 0 <= i < nsel ==> (#[trigger] targetsv[i])
                    == cand@[sel@[i] as int].addr@,
                newaddrs.deep_view() == nsources + targetsv.subrange(0, x2 as int),
            decreases nsel - x2,
        {
            let ghost pre = newaddrs.deep_view();
            let a = cand[sel[x2]].addr.clone();
            newaddrs.push(a);
            proof {
                assert(newaddrs.deep_view() =~= pre.push(a@));
                assert(targetsv.subrange(0, x2 as int + 1).drop_last() =~= targetsv.subrange(
                    0,
                    x2 as int,
                ));
                assert(newaddrs.deep_view() =~= nsources + targetsv.subrange(0, x2 as int + 1));
            }
            x2 = x2 + 1;
        }
        proof {
            assert(targetsv.subrange(0, nsel as int) =~= targetsv);
            assert(newaddrs.deep_view() == nsources + targetsv);
        }
        let newinfo = ChunkInfo {
            chunk_id: chunk_id.clone(),
            server_addresses: newaddrs,
            version: info0.version + 1,
        };
        let ghost c = newinfo@;
        // Rewrite the load table.
        let mut new_cs: Vec<ChunkListEntry> = Vec::new();
        let mut ci2: usize = 0;
        proof {
            assert(new_cs.deep_view() =~= repair_loads(
                csv.subrange(0, 0),
                chunk_id@,
                c,
                targetsv,
            ));
        }
        while ci2 < ncs
            invariant
                ncs == self.chunk_servers@.len(),
                ci2 <= ncs,
                csv == self.chunk_servers.deep_view(),
                targetsv == targets.deep_view(),
                c == newinfo@,
                new_cs.deep_view() == repair_loads(
                    csv.subrange(0, ci2 as int),
                    chunk_id@,
                    c,
                    targetsv,
                ),
            decreases ncs - ci2,
        {
            let ghost loadv = csv[ci2 as int].1;
            let mut chunks2: Vec<ChunkInfo> = Vec::new();
            let nl = self.chunk_servers[ci2].chunks.len();
            let mut j: usize = 0;
            proof {
                assert(chunks2.deep_view() =~= replace_in_list(
                    loadv.subrange(0, 0),
                    chunk_id@,
                    c,
                ));
            }
            while j < nl
                invariant
                    ci2 < ncs,
                    ncs == self.chunk_servers@.len(),
                    nl == self.chunk_servers@[ci2 as int].chunks@.len(),
                    j <= nl,
                    csv == self.chunk_servers.deep_view(),
                    loadv == csv[ci2 as int].1,
                    c == newinfo@,
                    chunks2.deep_view() == replace_in_list(
                        loadv.subrange(0, j as int),
                        chunk_id@,
                        c,
                    ),
                decreases nl - j,
            {
                let ghost p1 = loadv.subrange(0, j as int + 1);
                proof {
                    assert(p1.drop_last() =~= loadv.subrange(0, j as int));
                    assert(p1.last() == loadv[j as int]);
                }
                if self.chunk_servers[ci2].chunks[j].chunk_id == *chunk_id {
                    chunks2.push(newinfo.clone());
                } else {
                    chunks2.push(self.chunk_servers[ci2].chunks[j].clone());
                }
                proof {
                    assert(chunks2.deep_view() =~= replace_in_list(p1, chunk_id@, c));
                }
                j = j + 1;
            }
            proof {
                assert(loadv.subrange(0, nl as int) =~= loadv);
            }
            let ghost basev = chunks2.deep_view();
            let is_target = crate::types::contains_string(&targets, &self.chunk_servers[ci2].key);
            if is_target {
                chunks2.push(newinfo.clone());
                proof {
                    assert(chunks2.deep_view() =~= basev.push(c));
                }
            }
            let e = ChunkListEntry { key: self.chunk_servers[ci2].key.clone(), chunks: chunks2 };
            new_cs.push(e);
            proof {
                assert(csv.subrange(0, ci2 as int + 1).drop_last() =~= csv.subrange(
                    0,
                    ci2 as int,
                ));
                assert(csv.subrange(0, ci2 as int + 1).last() == csv[ci2 as int]);
                assert(new_cs.deep_view() =~= repair_loads(
                    csv.subrange(0, ci2 as int + 1),
                    chunk_id@,
                    c,
                    targetsv,
                ));
            }
            ci2 = ci2 + 1;
        }
        proof {
            assert(csv.subrange(0, ncs as int) =~= csv);
        }
        self.chunk_servers = new_cs;
        // Rewrite the file table.
        let mut new_fc: Vec<ChunkListEntry> = Vec::new();
        let nfc = self.file_chunks.len();
        let mut fi: usize = 0;
        proof {
            assert(new_fc.deep_view() =~= replace_in_files(fcv.subrange(0, 0), chunk_id@, c));
        }
        while fi < nfc
            invariant
                nfc == self.file_chunks@.len(),
                fi <= nfc,
                fcv == self.file_chunks.deep_view(),
                c == newinfo@,
                new_fc.deep_view() == replace_in_files(fcv.subrange(0, fi as int), chunk_id@, c),
            decreases nfc - fi,
        {
            let ghost listv = fcv[fi as int].1;
            let mut chunks2: Vec<ChunkInfo> = Vec::new();
            let nl = self.file_chunks[fi].chunks.len();
            let mut j: usize = 0;
            proof {
                assert(chunks2.deep_view() =~= replace_in_list(
                    listv.subrange(0, 0),
                    chunk_id@,
                    c,
                ));
            }
            while j < nl
                invariant
                    fi < nfc,
                    nfc == self.file_chunks@.len(),
                    nl == self.file_chunks@[fi as int].chunks@.len(),
                    j <= nl,
                    fcv == self.file_chunks.deep_view(),
                    listv == fcv[fi as int].1,
                    c == newinfo@,
                    chunks2.deep_view() == replace_in_list(
                        listv.subrange(0, j as int),
                        chunk_id@,
                        c,
                    ),
                decreases nl - j,
            {
                let ghost p1 = listv.subrange(0, j as int + 1);
                proof {
                    assert(p1.drop_last() =~= listv.subrange(0, j as int));
                    assert(p1.last() == listv[j as int]);
                }
                if self.file_chunks[fi].chunks[j].chunk_id == *chunk_id {
                    chunks2.push(newinfo.clone());
                } else {
                    chunks2.push(self.file_chunks[fi].chunks[j].clone());
                }
                proof {
                    assert(chunks2.deep_view() =~= replace_in_list(p1, chunk_id@, c));
                }
                j = j + 1;
            }
            proof {
                assert(listv.subrange(0, nl as int) =~= listv);
            }
            let e = ChunkListEntry { key: self.file_chunks[fi].key.clone(), chunks: chunks2 };
            new_fc.push(e);
            proof {
                assert(fcv.subrange(0, fi as int + 1).drop_last() =~= fcv.subrange(0, fi as int));
                assert(fcv.subrange(0, fi as int + 1).last() == fcv[fi as int]);
                assert(new_fc.deep_view() =~= replace_in_files(
                    fcv.subrange(0, fi as int + 1),
                    chunk_id@,
                    c,
                ));
            }
            fi = fi + 1;
        }
        proof {
            assert(fcv.subrange(0, nfc as int) =~= fcv);
        }
        self.file_chunks = new_fc;
        // Rewrite the chunk table.
        set_chunk_map(&mut self.chunk_map, newinfo.clone());
        proof {
            // Keys are unchanged, so uniqueness carries over.
            lemma_repair_loads_keys(csv, chunk_id@, c, targetsv);
            lemma_replace_in_files_keys(fcv, chunk_id@, c);
            assert forall|a: int, b: int|
                0 <= a < b < self.chunk_servers.deep_view().len() implies self
                .chunk_servers
                .deep_view()[a].0 != self.chunk_servers.deep_view()[b].0 by {
                assert(csv[a].0 != csv[b].0);
            }
            assert forall|a: int, b: int|
                0 <= a < b < self.file_chunks.deep_view().len() implies self
                .file_chunks
                .deep_view()[a].0 != self.file_chunks.deep_view()[b].0 by {
                assert(fcv[a].0 != fcv[b].0);
            }
            assert(targetsv == cmds@.map_values(|cmd: TransferCmd| cmd.target@)) by {
                assert(targetsv =~= cmds@.map_values(|cmd: TransferCmd| cmd.target@));
            }
            assert forall|x: int, y: int| 0 <= x < y < cmds@.len() implies (
            #[trigger] cmds@[x]).target@ != (#[trigger] cmds@[y]).target@ by {
                let ia = sel@[x] as int;
                let ib = sel@[y] as int;
                assert(sel@[x] != sel@[y]);
                if ia < ib {
                    assert(cand@[ia].addr@ != cand@[ib].addr@);
                } else {
                    assert(cand@[ib].addr@ != cand@[ia].addr@);
                }
            }
            assert forall|x: int| 0 <= x < cmds@.len() implies {
                let cmd = #[trigger] cmds@[x];
                &&& cmd.chunk_id@ == chunk_id@
                &&& cmd.source@ == sourcesv[0]
                &&& has_key(csv, cmd.target@)
                &&& val_of(csv, cmd.target@).len() < max
                &&& !holds_chunk(val_of(csv, cmd.target@), chunk_id@)
            } by {
                let s = srcs@[sel@[x] as int] as int;
                assert(cand@[sel@[x] as int].addr@ == csv[s].0);
                assert(has_key(csv, csv[s].0));
                lemma_key_index(csv, csv[s].0);
                assert(key_index(csv, csv[s].0) == s);
            }
            // The command count is exactly the smaller of what is needed
            // and what is available.
            assert(cand@.len() == candidate_count(csv, max as int, chunk_id@));
            assert(cmds@.len() == vstd::math::min(
                rf as int - sourcesv.len() as int,
                candidate_count(csv, max as int, chunk_id@),
            ));
            // Every pick carries no more load than any passed-over
            // candidate.
            assert(targets_min_loaded(csv, cmds@, chunk_id@, max as int)) by {
                assert forall|x: int, t: int|
                    #![trigger cmds@[x], csv[t]]
                    0 <= x < cmds@.len() && 0 <= t < csv.len() && csv[t].1.len() < (max as int)
                        && !holds_chunk(csv[t].1, chunk_id@) && !cmds@.map_values(
                        |cmd: TransferCmd| cmd.target@,
                    ).contains(csv[t].0) implies val_of(csv, cmds@[x].target@).len()
                    <= csv[t].1.len() by {
                    let si = sel@[x] as int;
                    assert(cmds@[x].target@ == cand@[si].addr@);
                    let rs = srcs0c[si] as int;
                    assert(cand@[si].addr@ == csv[rs].0);
                    assert(cand@[si].load == csv[rs].1.len());
                    assert(has_key(csv, csv[rs].0));
                    lemma_key_index(csv, csv[rs].0);
                    assert(key_index(csv, csv[rs].0) == rs);
                    assert(val_of(csv, cmds@[x].target@).len() == cand@[si].load);
                    let tt = cover[t];
                    assert(0 <= tt < cand@.len() && cand@[tt].addr@ == csv[t].0);
                    assert((tt as usize) as int == tt);
                    assert(!sel@.contains(tt as usize)) by {
                        if sel@.contains(tt as usize) {
                            let yy = choose|yy: int|
                                0 <= yy < sel@.len() && sel@[yy] == tt as usize;
                            assert(targetsv[yy] == cand@[sel@[yy] as int].addr@);
                            assert(sel@[yy] as int == tt);
                            assert(cand@[sel@[yy] as int].addr@ == cand@[tt].addr@);
                            assert(targetsv[yy] == csv[t].0);
                            assert(cmds@.map_values(|cmd: TransferCmd| cmd.target@)[yy]
                                == csv[t].0);
                            assert(cmds@.map_values(|cmd: TransferCmd| cmd.target@).contains(
                                csv[t].0,
                            ));
                            assert(false);
                        }
                    }
                    assert(cand@[sel@[x] as int].load <= cand@[tt].load);
                    assert(cand@[tt].load == csv[srcs0c[tt] as int].1.len());
                    let rt = srcs0c[tt] as int;
                    assert(csv[rt].0 == csv[t].0);
                    if rt != t {
                        if rt < t {
                            assert(csv[rt].0 != csv[t].0);
                        } else {
                            assert(csv[t].0 != csv[rt].0);
                        }
                        assert(false);
                    }
                }
            }
        }
        cmds
    }
}

/// An address different from the removed one survives `remove_addr`.
pub proof fn lemma_remove_addr_membership(addrs: Seq<Seq<char>>, bad: Seq<char>, x: Seq<char>)
    requires
        addrs.contains(x),
        x != bad,
    ensures
        remove_addr(addrs, bad).contains(x),
    decreases addrs.len(),
{
    if addrs.len() > 0 {
        let rest = remove_addr(addrs.drop_last(), bad);
        let whole = remove_addr(addrs, bad);
        if addrs.last() == x {
            assert(whole == rest.push(x));
            assert(whole[whole.len() - 1] == x);
        } else {
            let w = choose|w: int| 0 <= w < addrs.len() && addrs[w] == x;
            assert(addrs.drop_last()[w] == x);
            assert(addrs.drop_last().contains(x));
            lemma_remove_addr_membership(addrs.drop_last(), bad, x);
            let v = choose|v: int| 0 <= v < rest.len() && rest[v] == x;
            if addrs.last() == bad {
                assert(whole == rest);
            } else {
                assert(whole == rest.push(addrs.last()));
                assert(whole[v] == x);
            }
        }
    }
}

/// The failure detector names each dead address once.
pub proof fn lemma_spec_failed_distinct(lh: Seq<(Seq<char>, u64)>, now: u64, window: u64)
    requires
        keys_unique(lh),
    ensures
        forall|i: int|
            0 <= i < spec_failed(lh, now, window).len() ==> exists|si: int|
                0 <= si < lh.len() && lh[si].0 == #[trigger] spec_failed(lh, now, window)[i],
        forall|i: int, j: int|
            0 <= i < j < spec_failed(lh, now, window).len() ==> #[trigger] spec_failed(
                lh,
                now,
                window,
            )[i] != #[trigger] spec_failed(lh, now, window)[j],
    decreases lh.len(),
{
    if lh.len() > 0 {
        assert(keys_unique(lh.drop_last()));
        lemma_spec_failed_distinct(lh.drop_last(), now, window);
        let rest = spec_failed(lh.drop_last(), now, window);
        let whole = spec_failed(lh, now, window);
        assert forall|i: int| 0 <= i < whole.len() implies exists|si: int|
            0 <= si < lh.len() && lh[si].0 == #[trigger] whole[i] by {
            if i < rest.len() {
                assert(whole[i] == rest[i]);
                let si = choose|si: int|
                    0 <= si < lh.drop_last().len() && lh.drop_last()[si].0 == rest[i];
                assert(lh[si].0 == whole[i]);
            } else {
                assert(whole[i] == lh.last().0);
                assert(lh[lh.len() - 1].0 == whole[i]);
            }
        }
        assert forall|i: int, j: int| 0 <= i < j < whole.len() implies #[trigger] whole[i]
            != #[trigger] whole[j] by {
            if j == whole.len() - 1 && whole.len() > rest.len() {
                assert(whole[i] == rest[i]);
                let si = choose|si: int|
                    0 <= si < lh.drop_last().len() && lh.drop_last()[si].0 == rest[i];
                assert(lh[si].0 == whole[i]);
                assert(lh[si].0 != lh[lh.len() - 1].0);
            } else {
                assert(whole[i] == rest[i] && whole[j] == rest[j]);
            }
        }
    }
}

/// A qualifying row makes the candidate count positive.
proof fn lemma_candidate_count_pos(
    cs: Seq<(Seq<char>, Seq<ChunkInfoView>)>,
    max: int,
    id: Seq<char>,
    w: int,
)
    requires
        0 <= w < cs.len(),
        cs[w].1.len() < max,
        !holds_chunk(cs[w].1, id),
    ensures
        candidate_count(cs, max, id) >= 1,
{
    broadcast use vstd::set::group_set_axioms;

    lemma_candidate_count_card(cs, max, id);
    let q = Set::new(|s: int| 0 <= s < cs.len() && cs[s].1.len() < max && !holds_chunk(cs[s].1, id));
    assert(q.contains(w));
    assert(q.remove(w).len() == q.len() - 1);
}

/// Live load entries survive: every key of the old table outside the dead
/// set is still a key.
pub open spec fn live_keys_kept(
    cs0: Seq<(Seq<char>, Seq<ChunkInfoView>)>,
    cs1: Seq<(Seq<char>, Seq<ChunkInfoView>)>,
    bad: Seq<Seq<char>>,
) -> bool {
    forall|a: Seq<char>| #[trigger] has_key(cs0, a) && !bad.contains(a) ==> has_key(cs1, a)
}

/// How a detector round may have grown a live row so far: the entry is
/// still present, has gained at most one record per ordered transfer, and
/// holds no chunk it did not hold at the start unless a transfer for that
/// chunk was ordered.
pub open spec fn live_row_growth(
    csv0: Seq<(Seq<char>, Seq<ChunkInfoView>)>,
    cs1: Seq<(Seq<char>, Seq<ChunkInfoView>)>,
    bad: Seq<Seq<char>>,
    cmds: Seq<TransferCmd>,
) -> bool {
    forall|t: int|
        #![trigger csv0[t]]
        0 <= t < csv0.len() && !bad.contains(csv0[t].0) ==> has_key(cs1, csv0[t].0) && val_of(
            cs1,
            csv0[t].0,
        ).len() <= csv0[t].1.len() + cmds.len() && (forall|id: Seq<char>|
            #[trigger] holds_chunk(val_of(cs1, csv0[t].0), id) ==> holds_chunk(csv0[t].1, id) || (
            exists|x: int| 0 <= x < cmds.len() && (#[trigger] cmds[x]).chunk_id@ == id))
}

/// How the chunk table may have changed so far: keys only grow, and a
/// record differs from its old self only if a transfer for it was ordered.
pub open spec fn records_traced(
    cmv0: Seq<(Seq<char>, ChunkInfoView)>,
    cm1: Seq<(Seq<char>, ChunkInfoView)>,
    cmds: Seq<TransferCmd>,
) -> bool {
    forall|k: Seq<char>|
        #[trigger] has_key(cmv0, k) ==> has_key(cm1, k) && (val_of(cm1, k) == val_of(cmv0, k) || (
        exists|x: int| 0 <= x < cmds.len() && (#[trigger] cmds[x]).chunk_id@ == k))
}

/// The load table has an entry under `key` that holds a record named `id`.
pub open spec fn row_has(
    cs1: Seq<(Seq<char>, Seq<ChunkInfoView>)>,
    key: Seq<char>,
    id: Seq<char>,
) -> bool {
    has_key(cs1, key) && holds_chunk(val_of(cs1, key), id)
}

/// Dead servers that are still waiting their turn keep (at least) their
/// old chunks in the table, so every lost chunk will be looked at.
pub open spec fn dead_rows_pending(
    csv0: Seq<(Seq<char>, Seq<ChunkInfoView>)>,
    cs1: Seq<(Seq<char>, Seq<ChunkInfoView>)>,
    pending: Seq<Seq<char>>,
) -> bool {
    forall|si: int, cj: int|
        #![trigger csv0[si].1[cj]]
        0 <= si < csv0.len() && pending.contains(csv0[si].0) && 0 <= cj < csv0[si].1.len()
            ==> row_has(cs1, csv0[si].0, csv0[si].1[cj].chunk_id)
}

/// Every chunk listed in a dead server's old row appears, by id, in the
/// first `upto` records of the captured entry.
pub open spec fn row_ids_captured(
    csv0: Seq<(Seq<char>, Seq<ChunkInfoView>)>,
    deadkey: Seq<char>,
    captured: Seq<ChunkInfoView>,
) -> bool {
    forall|si: int, cj2: int|
        #![trigger csv0[si].1[cj2]]
        0 <= si < csv0.len() && csv0[si].0 == deadkey && 0 <= cj2 < csv0[si].1.len()
            ==> holds_chunk(captured, csv0[si].1[cj2].chunk_id)
}

/// Removing one dead row disturbs neither the live rows' growth bound nor
/// the still-pending dead rows.
proof fn lemma_growth_pending_after_remove(
    csv0: Seq<(Seq<char>, Seq<ChunkInfoView>)>,
    cs1: Seq<(Seq<char>, Seq<ChunkInfoView>)>,
    bad: Seq<Seq<char>>,
    badkey: Seq<char>,
    pending1: Seq<Seq<char>>,
    cmds: Seq<TransferCmd>,
)
    requires
        keys_unique(cs1),
        bad.contains(badkey),
        live_row_growth(csv0, cs1, bad, cmds),
        dead_rows_pending(csv0, cs1, pending1),
        !pending1.contains(badkey),
    ensures
        live_row_growth(csv0, remove_key(cs1, badkey), bad, cmds),
        dead_rows_pending(csv0, remove_key(cs1, badkey), pending1),
{
    lemma_remove_key(cs1, badkey);
    let cs2 = remove_key(cs1, badkey);
    assert forall|t: int|
        0 <= t < csv0.len() && !bad.contains((#[trigger] csv0[t]).0) implies has_key(
        cs2,
        csv0[t].0,
    ) && val_of(cs2, csv0[t].0).len() <= csv0[t].1.len() + cmds.len() && (forall|id: Seq<char>|
        #[trigger] holds_chunk(val_of(cs2, csv0[t].0), id) ==> holds_chunk(csv0[t].1, id) || (
        exists|x: int| 0 <= x < cmds.len() && (#[trigger] cmds[x]).chunk_id@ == id)) by {
        assert(csv0[t].0 != badkey);
        assert(has_key(cs1, csv0[t].0));
        assert(val_of(cs2, csv0[t].0) == val_of(cs1, csv0[t].0));
    }
    assert forall|si: int, cj: int|
        #![trigger csv0[si].1[cj]]
        0 <= si < csv0.len() && pending1.contains(csv0[si].0) && 0 <= cj
            < csv0[si].1.len() implies row_has(cs2, csv0[si].0, csv0[si].1[cj].chunk_id) by {
        assert(csv0[si].0 != badkey);
        assert(row_has(cs1, csv0[si].0, csv0[si].1[cj].chunk_id));
        assert(val_of(cs2, csv0[si].0) == val_of(cs1, csv0[si].0));
        assert(row_has(cs2, csv0[si].0, csv0[si].1[cj].chunk_id));
    }
}

/// One applied repair keeps the live rows' growth bound (the repaired
/// chunk's transfer is on the command list) and the pending dead rows'
/// chunks.
#[verifier::rlimit(40)]
proof fn lemma_growth_pending_after_repair(
    csv0: Seq<(Seq<char>, Seq<ChunkInfoView>)>,
    cs_mid: Seq<(Seq<char>, Seq<ChunkInfoView>)>,
    bad: Seq<Seq<char>>,
    pending1: Seq<Seq<char>>,
    precmds: Seq<TransferCmd>,
    cmds2: Seq<TransferCmd>,
    id: Seq<char>,
    c: ChunkInfoView,
    targets: Seq<Seq<char>>,
)
    requires
        keys_unique(cs_mid),
        live_row_growth(csv0, cs_mid, bad, precmds),
        dead_rows_pending(csv0, cs_mid, pending1),
        c.chunk_id == id,
        precmds.len() < cmds2.len(),
        forall|x: int| 0 <= x < precmds.len() ==> #[trigger] cmds2[x] == precmds[x],
        cmds2[precmds.len() as int].chunk_id@ == id,
    ensures
        live_row_growth(csv0, repair_loads(cs_mid, id, c, targets), bad, cmds2),
        dead_rows_pending(csv0, repair_loads(cs_mid, id, c, targets), pending1),
{
    let cs2 = repair_loads(cs_mid, id, c, targets);
    lemma_repair_loads_keys(cs_mid, id, c, targets);
    assert forall|t: int|
        0 <= t < csv0.len() && !bad.contains((#[trigger] csv0[t]).0) implies has_key(
        cs2,
        csv0[t].0,
    ) && val_of(cs2, csv0[t].0).len() <= csv0[t].1.len() + cmds2.len() && (forall|z: Seq<char>|
        #[trigger] holds_chunk(val_of(cs2, csv0[t].0), z) ==> holds_chunk(csv0[t].1, z) || (
        exists|x: int| 0 <= x < cmds2.len() && (#[trigger] cmds2[x]).chunk_id@ == z)) by {
        assert(has_key(cs_mid, csv0[t].0));
        lemma_key_index(cs_mid, csv0[t].0);
        let w = key_index(cs_mid, csv0[t].0);
        assert(cs2[w].0 == cs_mid[w].0);
        assert(has_key(cs2, csv0[t].0));
        lemma_key_index(cs2, csv0[t].0);
        assert forall|a: int, b: int| 0 <= a < b < cs2.len() implies cs2[a].0 != cs2[b].0 by {
            assert(cs2[a].0 == cs_mid[a].0 && cs2[b].0 == cs_mid[b].0);
        }
        assert(key_index(cs2, csv0[t].0) == w);
        lemma_repair_loads_shape(cs_mid, id, c, targets, w);
        lemma_replace_in_list(cs_mid[w].1, id, c);
        let base = replace_in_list(cs_mid[w].1, id, c);
        let valmid = val_of(cs_mid, csv0[t].0);
        assert(valmid == cs_mid[w].1);
        assert(valmid.len() <= csv0[t].1.len() + precmds.len());
        let valnew = val_of(cs2, csv0[t].0);
        assert(valnew == cs2[w].1);
        assert forall|z: Seq<char>| #[trigger] holds_chunk(valnew, z) implies holds_chunk(
            csv0[t].1,
            z,
        ) || (exists|x: int| 0 <= x < cmds2.len() && (#[trigger] cmds2[x]).chunk_id@ == z) by {
            let j = choose|j: int| 0 <= j < valnew.len() && (#[trigger] valnew[j]).chunk_id == z;
            if j < base.len() {
                assert(valnew[j] == base[j]);
                assert(base[j].chunk_id == cs_mid[w].1[j].chunk_id);
                assert(holds_chunk(valmid, z));
                if !holds_chunk(csv0[t].1, z) {
                    let x = choose|x: int|
                        0 <= x < precmds.len() && (#[trigger] precmds[x]).chunk_id@ == z;
                    assert(cmds2[x].chunk_id@ == z);
                }
            } else {
                assert(valnew[j] == c);
                assert(z == id);
            }
        }
    }
    assert forall|si: int, cj: int|
        #![trigger csv0[si].1[cj]]
        0 <= si < csv0.len() && pending1.contains(csv0[si].0) && 0 <= cj
            < csv0[si].1.len() implies row_has(cs2, csv0[si].0, csv0[si].1[cj].chunk_id) by {
        assert(row_has(cs_mid, csv0[si].0, csv0[si].1[cj].chunk_id));
        assert(has_key(cs_mid, csv0[si].0) && holds_chunk(
            val_of(cs_mid, csv0[si].0),
            csv0[si].1[cj].chunk_id,
        ));
        lemma_key_index(cs_mid, csv0[si].0);
        let w = key_index(cs_mid, csv0[si].0);
        assert(cs2[w].0 == cs_mid[w].0);
        assert(has_key(cs2, csv0[si].0));
        lemma_key_index(cs2, csv0[si].0);
        assert forall|a: int, b: int| 0 <= a < b < cs2.len() implies cs2[a].0 != cs2[b].0 by {
            assert(cs2[a].0 == cs_mid[a].0 && cs2[b].0 == cs_mid[b].0);
        }
        assert(key_index(cs2, csv0[si].0) == w);
        lemma_repair_loads_shape(cs_mid, id, c, targets, w);
        lemma_replace_in_list(cs_mid[w].1, id, c);
        let zz = csv0[si].1[cj].chunk_id;
        let jj = choose|jj: int|
            0 <= jj < cs_mid[w].1.len() && (#[trigger] cs_mid[w].1[jj]).chunk_id == zz;
        let base = replace_in_list(cs_mid[w].1, id, c);
        assert(base[jj].chunk_id == zz);
        assert(val_of(cs2, csv0[si].0)[jj].chunk_id == zz);
        assert(holds_chunk(val_of(cs2, csv0[si].0), zz));
        assert(row_has(cs2, csv0[si].0, zz));
    }
}

/// One applied repair keeps the chunk-table trace: the repaired record's
/// change is covered by its transfer on the command list.
proof fn lemma_traced_after_upsert(
    cmv0: Seq<(Seq<char>, ChunkInfoView)>,
    cm_before: Seq<(Seq<char>, ChunkInfoView)>,
    precmds: Seq<TransferCmd>,
    cmds2: Seq<TransferCmd>,
    id: Seq<char>,
    c: ChunkInfoView,
)
    requires
        keys_unique(cm_before),
        records_traced(cmv0, cm_before, precmds),
        precmds.len() < cmds2.len(),
        forall|x: int| 0 <= x < precmds.len() ==> #[trigger] cmds2[x] == precmds[x],
        cmds2[precmds.len() as int].chunk_id@ == id,
    ensures
        records_traced(cmv0, upsert(cm_before, id, c), cmds2),
{
    lemma_upsert(cm_before, id, c);
    let cm2 = upsert(cm_before, id, c);
    assert forall|k: Seq<char>| #[trigger] has_key(cmv0, k) implies has_key(cm2, k) && (val_of(
        cm2,
        k,
    ) == val_of(cmv0, k) || (exists|x: int|
        0 <= x < cmds2.len() && (#[trigger] cmds2[x]).chunk_id@ == k)) by {
        assert(has_key(cm_before, k));
        if k == id {
            assert(cmds2[precmds.len() as int].chunk_id@ == k);
        } else {
            assert(val_of(cm2, k) == val_of(cm_before, k));
            if val_of(cm_before, k) != val_of(cmv0, k) {
                let x = choose|x: int|
                    0 <= x < precmds.len() && (#[trigger] precmds[x]).chunk_id@ == k;
                assert(cmds2[x].chunk_id@ == k);
            }
        }
    }
}

/// The duty one lost chunk puts on a detector round: if the old chunk
/// table knows the chunk, its version has room, some replica lies outside
/// the dead set, the replication target is unmet without the dead holder,
/// and some live server could still take a copy even after all of this
/// round's transfers, then the round must have ordered a transfer of it.
pub open spec fn repair_obliged(
    csv0: Seq<(Seq<char>, Seq<ChunkInfoView>)>,
    cmv0: Seq<(Seq<char>, ChunkInfoView)>,
    bad: Seq<Seq<char>>,
    deadkey: Seq<char>,
    id: Seq<char>,
    rf: int,
    max: int,
    cmds: Seq<TransferCmd>,
) -> bool {
    (has_key(cmv0, id) && val_of(cmv0, id).version < u64::MAX && (exists|k: int|
        0 <= k < val_of(cmv0, id).server_addresses.len() && !bad.contains(
            #[trigger] val_of(cmv0, id).server_addresses[k],
        )) && rf > remove_addr(val_of(cmv0, id).server_addresses, deadkey).len() && (exists|t: int|
        0 <= t < csv0.len() && !bad.contains((#[trigger] csv0[t]).0) && csv0[t].1.len()
            + cmds.len() < max && !holds_chunk(csv0[t].1, id))) ==> (exists|x: int|
        0 <= x < cmds.len() && (#[trigger] cmds[x]).chunk_id@ == id)
}

/// Every chunk of every dead row carries its duty.
pub open spec fn repairs_ordered(
    csv0: Seq<(Seq<char>, Seq<ChunkInfoView>)>,
    cmv0: Seq<(Seq<char>, ChunkInfoView)>,
    bad: Seq<Seq<char>>,
    rf: int,
    max: int,
    cmds: Seq<TransferCmd>,
) -> bool {
    forall|si: int, cj: int|
        #![trigger csv0[si].1[cj]]
        0 <= si < csv0.len() && bad.contains(csv0[si].0) && 0 <= cj < csv0[si].1.len()
            ==> repair_obliged(
            csv0,
            cmv0,
            bad,
            csv0[si].0,
            csv0[si].1[cj].chunk_id,
            rf,
            max,
            cmds,
        )
}

/// Like `repairs_ordered`, but only for the dead rows in `done`.
pub open spec fn repairs_ordered_done(
    csv0: Seq<(Seq<char>, Seq<ChunkInfoView>)>,
    cmv0: Seq<(Seq<char>, ChunkInfoView)>,
    bad: Seq<Seq<char>>,
    done: Seq<Seq<char>>,
    rf: int,
    max: int,
    cmds: Seq<TransferCmd>,
) -> bool {
    forall|si: int, cj: int|
        #![trigger csv0[si].1[cj]]
        0 <= si < csv0.len() && done.contains(csv0[si].0) && 0 <= cj < csv0[si].1.len()
            ==> repair_obliged(
            csv0,
            cmv0,
            bad,
            csv0[si].0,
            csv0[si].1[cj].chunk_id,
            rf,
            max,
            cmds,
        )
}

/// A duty once met stays met when more transfers are appended.
proof fn lemma_obliged_extend(
    csv0: Seq<(Seq<char>, Seq<ChunkInfoView>)>,
    cmv0: Seq<(Seq<char>, ChunkInfoView)>,
    bad: Seq<Seq<char>>,
    deadkey: Seq<char>,
    id: Seq<char>,
    rf: int,
    max: int,
    cmds1: Seq<TransferCmd>,
    cmds2: Seq<TransferCmd>,
)
    requires
        repair_obliged(csv0, cmv0, bad, deadkey, id, rf, max, cmds1),
        cmds1.len() <= cmds2.len(),
        forall|x: int| 0 <= x < cmds1.len() ==> #[trigger] cmds2[x] == cmds1[x],
    ensures
        repair_obliged(csv0, cmv0, bad, deadkey, id, rf, max, cmds2),
{
    if (has_key(cmv0, id) && val_of(cmv0, id).version < u64::MAX && (exists|k: int|
        0 <= k < val_of(cmv0, id).server_addresses.len() && !bad.contains(
            #[trigger] val_of(cmv0, id).server_addresses[k],
        )) && rf > remove_addr(val_of(cmv0, id).server_addresses, deadkey).len() && (exists|t: int|
        0 <= t < csv0.len() && !bad.contains((#[trigger] csv0[t]).0) && csv0[t].1.len()
            + cmds2.len() < max && !holds_chunk(csv0[t].1, id))) {
        let t = choose|t: int|
            0 <= t < csv0.len() && !bad.contains((#[trigger] csv0[t]).0) && csv0[t].1.len()
                + cmds2.len() < max && !holds_chunk(csv0[t].1, id);
        assert(csv0[t].1.len() + cmds1.len() < max);
        assert(exists|t2: int|
            0 <= t2 < csv0.len() && !bad.contains((#[trigger] csv0[t2]).0) && csv0[t2].1.len()
                + cmds1.len() < max && !holds_chunk(csv0[t2].1, id));
        let x = choose|x: int| 0 <= x < cmds1.len() && (#[trigger] cmds1[x]).chunk_id@ == id;
        assert(cmds2[x].chunk_id@ == id);
    }
}

/// Version monotonicity: every chunk the old table knows is still known,
/// at the same or a higher version.
pub open spec fn versions_monotone(
    cm0: Seq<(Seq<char>, ChunkInfoView)>,
    cm1: Seq<(Seq<char>, ChunkInfoView)>,
) -> bool {
    forall|k: Seq<char>|
        #[trigger] has_key(cm0, k) ==> has_key(cm1, k) && val_of(cm1, k).version >= val_of(
            cm0,
            k,
        ).version
}

/// The addresses whose last heartbeat lies further back than the failure
/// window, in table order.
pub open spec fn spec_failed(lh: Seq<(Seq<char>, u64)>, now: u64, window: u64) -> Seq<Seq<char>>
    decreases lh.len(),
{
    if lh.len() == 0 {
        Seq::empty()
    } else {
        let rest = spec_failed(lh.drop_last(), now, window);
        if now - lh.last().1 > window {
            rest.push(lh.last().0)
        } else {
            rest
        }
    }
}

/// The liveness table without the entries keyed by `bad`.
pub open spec fn remove_lh_keys(
    lh: Seq<(Seq<char>, u64)>,
    bad: Seq<Seq<char>>,
) -> Seq<(Seq<char>, u64)>
    decreases lh.len(),
{
    if lh.len() == 0 {
        Seq::empty()
    } else {
        let rest = remove_lh_keys(lh.drop_last(), bad);
        if bad.contains(lh.last().0) {
            rest
        } else {
            rest.push(lh.last())
        }
    }
}

/// Removes and returns the load entry keyed `key`.
pub(crate) fn take_chunk_list(entries: &mut Vec<ChunkListEntry>, key: &String) -> (r: Option<
    ChunkListEntry,
>)
    requires
        keys_unique(old(entries).deep_view()),
    ensures
        keys_unique(final(entries).deep_view()),
        final(entries).deep_view() == remove_key(old(entries).deep_view(), key@),
        match r {
            Some(e) => has_key(old(entries).deep_view(), key@) && e.deep_view() == (
                key@,
                val_of(old(entries).deep_view(), key@),
            ),
            None => !has_key(old(entries).deep_view(), key@) && *final(entries) == *old(entries),
        },
{
    let ghost pre = entries.deep_view();
    match find_chunk_list(entries, key) {
        Some(i) => {
            proof {
                lemma_key_index(pre, key@);
                assert(key_index(pre, key@) == i);
                lemma_remove_key(pre, key@);
            }
            let e = entries.remove(i);
            proof {
                assert(entries.deep_view() =~= remove_key(pre, key@));
            }
            Some(e)
        },
        None => None,
    }
}

/// Removes the liveness entries of the given addresses.
pub(crate) fn prune_heartbeats(entries: &mut Vec<HeartbeatEntry>, bad: &Vec<String>)
    requires
        keys_unique(old(entries).deep_view()),
    ensures
        keys_unique(final(entries).deep_view()),
        final(entries).deep_view() == remove_lh_keys(old(entries).deep_view(), bad.deep_view()),
{
    let ghost pre = entries.deep_view();
    let ghost badv = bad.deep_view();
    let mut kept: Vec<HeartbeatEntry> = Vec::new();
    let n = entries.len();
    let mut i: usize = 0;
    proof {
        assert(kept.deep_view() =~= remove_lh_keys(pre.subrange(0, 0), badv));
    }
    while i < n
        invariant
            n == entries@.len(),
            i <= n,
            pre == entries.deep_view(),
            badv == bad.deep_view(),
            kept.deep_view() == remove_lh_keys(pre.subrange(0, i as int), badv),
        decreases n - i,
    {
        let ghost p1 = pre.subrange(0, i as int + 1);
        proof {
            assert(p1.drop_last() =~= pre.subrange(0, i as int));
            assert(p1.last() == pre[i as int]);
        }
        if !crate::types::contains_string(bad, &entries[i].key) {
            kept.push(entries[i].clone());
        }
        proof {
            assert(kept.deep_view() =~= remove_lh_keys(p1, badv));
        }
        i = i + 1;
    }
    proof {
        assert(pre.subrange(0, n as int) =~= pre);
    }
    *entries = kept;
    proof {
        lemma_remove_lh_keys(pre, badv);
    }
}

/// What survives `remove_lh_keys`: entries of the old table only, so
/// uniqueness carries over.
pub proof fn lemma_remove_lh_keys(lh: Seq<(Seq<char>, u64)>, bad: Seq<Seq<char>>)
    requires
        keys_unique(lh),
    ensures
        keys_unique(remove_lh_keys(lh, bad)),
        forall|i: int|
            0 <= i < remove_lh_keys(lh, bad).len() ==> lh.contains(
                #[trigger] remove_lh_keys(lh, bad)[i],
            ) && !bad.contains(remove_lh_keys(lh, bad)[i].0),
    decreases lh.len(),
{
    if lh.len() > 0 {
        assert(keys_unique(lh.drop_last()));
        lemma_remove_lh_keys(lh.drop_last(), bad);
        let rest = remove_lh_keys(lh.drop_last(), bad);
        let whole = remove_lh_keys(lh, bad);
        assert forall|i: int| 0 <= i < whole.len() implies lh.contains(#[trigger] whole[i])
            && !bad.contains(whole[i].0) by {
            if i < rest.len() {
                assert(whole[i] == rest[i]);
                let j = choose|j: int| 0 <= j < lh.drop_last().len() && lh.drop_last()[j]
                    == rest[i];
                assert(lh[j] == rest[i]);
            } else {
                assert(whole[i] == lh.last());
                assert(lh[lh.len() - 1] == lh.last());
            }
        }
        assert forall|a: int, b: int| 0 <= a < b < whole.len() implies whole[a].0
            != whole[b].0 by {
            let pa = whole[a];
            let pb = whole[b];
            assert(lh.contains(pa) && lh.contains(pb));
            let ia = choose|x: int| 0 <= x < lh.len() && lh[x] == pa;
            let ib = choose|x: int| 0 <= x < lh.len() && lh[x] == pb;
            if pa.0 == pb.0 {
                if ia != ib {
                    assert(lh[ia].0 != lh[ib].0);
                } else {
                    assert(pa == pb);
                    if b == whole.len() - 1 && whole == rest.push(lh.last()) {
                        assert(rest[a] == pa);
                        assert(rest.contains(pa));
                        let ja = choose|x: int| 0 <= x < lh.drop_last().len() && lh.drop_last()[x]
                            == pa;
                        assert(lh[ja] == pa && ja < lh.len() - 1);
                        assert(lh[ja].0 != lh[lh.len() - 1].0);
                    } else {
                        assert(rest[a] == pa && rest[b] == pb);
                        assert(rest[a].0 != rest[b].0);
                    }
                }
            }
        }
    }
}

impl MasterService {
    /// The addresses the failure detector declares dead at `now`: those
    /// whose last heartbeat lies further back than
    /// `heartbeat_failure_threshold` heartbeat intervals.
    pub fn failed_servers(&self, now: u64) -> (r: Vec<String>)
        requires
            self.config.heartbeat_failure_threshold * self.common_config.heartbeat_interval
                <= u64::MAX,
        ensures
            r.deep_view() == spec_failed(
                self.last_heartbeat_time.deep_view(),
                now,
                (self.config.heartbeat_failure_threshold
                    * self.common_config.heartbeat_interval) as u64,
            ),
    {
        let threshold = self.config.heartbeat_failure_threshold;
        let interval = self.common_config.heartbeat_interval;
        let ghost window = (threshold * interval) as u64;
        let ghost lhv = self.last_heartbeat_time.deep_view();
        let mut r: Vec<String> = Vec::new();
        let n = self.last_heartbeat_time.len();
        let mut i: usize = 0;
        proof {
            assert(r.deep_view() =~= spec_failed(lhv.subrange(0, 0), now, window));
        }
        while i < n
            invariant
                n == self.last_heartbeat_time@.len(),
                i <= n,
                threshold * interval <= u64::MAX,
                window == (threshold * interval) as u64,
                lhv == self.last_heartbeat_time.deep_view(),
                r.deep_view() == spec_failed(lhv.subrange(0, i as int), now, window),
            decreases n - i,
        {
            let ghost p1 = lhv.subrange(0, i as int + 1);
            proof {
                assert(p1.drop_last() =~= lhv.subrange(0, i as int));
                assert(p1.last() == lhv[i as int]);
            }
            let t = self.last_heartbeat_time[i].time;
            if !crate::is_alive(t, now, threshold, interval) {
                let ghost prer = r.deep_view();
                let a = self.last_heartbeat_time[i].key.clone();
                r.push(a);
                proof {
                    assert(r.deep_view() =~= prer.push(a@));
                }
            }
            proof {
                assert(r.deep_view() =~= spec_failed(p1, now, window));
            }
            i = i + 1;
        }
        proof {
            assert(lhv.subrange(0, n as int) =~= lhv);
        }
        r
    }

    /// One round of the failure detector: finds the dead chunkservers,
    /// drops their load entries, plans a repair for every chunk they held,
    /// and forgets their liveness stamps.  Returns the transfer orders the
    /// process must carry out.  Live servers' load entries survive the
    /// round, no chunk's version ever decreases, and every lost chunk
    /// whose record allows a repair (a replica outside the dead set, an
    /// unmet replication target, version headroom) gets a transfer order
    /// whenever some live server below the cap could take it even after
    /// all of this round's transfers.
    #[verifier::rlimit(80)]
    pub fn heartbeat_check_step(&mut self, now: u64) -> (r: Vec<TransferCmd>)
        requires
            old(self).wf(),
            old(self).config.heartbeat_failure_threshold
                * old(self).common_config.heartbeat_interval <= u64::MAX,
        ensures
            final(self).wf(),
            final(self).shadow_masters == old(self).shadow_masters,
            final(self).current_master == old(self).current_master,
            final(self).is_leader_flag == old(self).is_leader_flag,
            final(self).addr == old(self).addr,
            final(self).config == old(self).config,
            final(self).common_config == old(self).common_config,
            final(self).last_heartbeat_time.deep_view() == remove_lh_keys(
                old(self).last_heartbeat_time.deep_view(),
                spec_failed(
                    old(self).last_heartbeat_time.deep_view(),
                    now,
                    (old(self).config.heartbeat_failure_threshold
                        * old(self).common_config.heartbeat_interval) as u64,
                ),
            ),
            forall|a: Seq<char>|
                spec_failed(
                    old(self).last_heartbeat_time.deep_view(),
                    now,
                    (old(self).config.heartbeat_failure_threshold
                        * old(self).common_config.heartbeat_interval) as u64,
                ).contains(a) ==> !has_key(final(self).chunk_servers.deep_view(), a),
            live_keys_kept(
                old(self).chunk_servers.deep_view(),
                final(self).chunk_servers.deep_view(),
                spec_failed(
                    old(self).last_heartbeat_time.deep_view(),
                    now,
                    (old(self).config.heartbeat_failure_threshold
                        * old(self).common_config.heartbeat_interval) as u64,
                ),
            ),
            versions_monotone(
                old(self).chunk_map.deep_view(),
                final(self).chunk_map.deep_view(),
            ),
            repairs_ordered(
                old(self).chunk_servers.deep_view(),
                old(self).chunk_map.deep_view(),
                spec_failed(
                    old(self).last_heartbeat_time.deep_view(),
                    now,
                    (old(self).config.heartbeat_failure_threshold
                        * old(self).common_config.heartbeat_interval) as u64,
                ),
                old(self).common_config.replication_factor as int,
                old(self).common_config.max_allowed_chunks as int,
                r@,
            ),
    {
        let ghost lhv = self.last_heartbeat_time.deep_view();
        let ghost cmv0 = self.chunk_map.deep_view();
        let ghost csv0 = self.chunk_servers.deep_view();
        let ghost rf0 = self.common_config.replication_factor as int;
        let ghost max0 = self.common_config.max_allowed_chunks as int;
        let window = self.config.heartbeat_failure_threshold
            * self.common_config.heartbeat_interval;
        let failed = self.failed_servers(now);
        let ghost failedv = failed.deep_view();
        let mut cmds: Vec<TransferCmd> = Vec::new();
        let nf = failed.len();
        let mut fi: usize = 0;
        proof {
            lemma_spec_failed_distinct(lhv, now, window);
            assert forall|t: int| 0 <= t < csv0.len() && !failedv.contains(
                (#[trigger] csv0[t]).0,
            ) implies has_key(csv0, csv0[t].0) && val_of(csv0, csv0[t].0).len() <= csv0[t].1.len()
                + cmds@.len() && (forall|id: Seq<char>|
                #[trigger] holds_chunk(val_of(csv0, csv0[t].0), id) ==> holds_chunk(
                    csv0[t].1,
                    id,
                ) || (exists|x: int|
                    0 <= x < cmds@.len() && (#[trigger] cmds@[x]).chunk_id@ == id)) by {
                assert(has_key(csv0, csv0[t].0));
                lemma_key_index(csv0, csv0[t].0);
                assert(key_index(csv0, csv0[t].0) == t);
            }
            assert(live_row_growth(csv0, csv0, failedv, cmds@));
            assert forall|k: Seq<char>| #[trigger] has_key(cmv0, k) implies has_key(cmv0, k) && (
            val_of(cmv0, k) == val_of(cmv0, k) || (exists|x: int|
                0 <= x < cmds@.len() && (#[trigger] cmds@[x]).chunk_id@ == k)) by {}
            assert(records_traced(cmv0, cmv0, cmds@));
            assert forall|si: int, cj: int|
                #![trigger csv0[si].1[cj]]
                0 <= si < csv0.len() && failedv.subrange(fi as int, nf as int).contains(
                    csv0[si].0,
                ) && 0 <= cj < csv0[si].1.len() implies row_has(
                csv0,
                csv0[si].0,
                csv0[si].1[cj].chunk_id,
            ) by {
                assert(has_key(csv0, csv0[si].0));
                lemma_key_index(csv0, csv0[si].0);
                assert(key_index(csv0, csv0[si].0) == si);
                assert(val_of(csv0, csv0[si].0)[cj].chunk_id == csv0[si].1[cj].chunk_id);
                assert(holds_chunk(val_of(csv0, csv0[si].0), csv0[si].1[cj].chunk_id));
                assert(row_has(csv0, csv0[si].0, csv0[si].1[cj].chunk_id));
            }
            assert(dead_rows_pending(csv0, csv0, failedv.subrange(fi as int, nf as int)));
            assert(failedv.subrange(0, fi as int).len() == 0);
            assert(repairs_ordered_done(
                csv0,
                cmv0,
                failedv,
                failedv.subrange(0, fi as int),
                rf0,
                max0,
                cmds@,
            ));
        }
        while fi < nf
            invariant
                nf == failed@.len(),
                failedv == failed.deep_view(),
                fi <= nf,
                self.wf(),
                keys_unique(csv0),
                rf0 == self.common_config.replication_factor as int,
                max0 == self.common_config.max_allowed_chunks as int,
                self.last_heartbeat_time == old(self).last_heartbeat_time,
                self.shadow_masters == old(self).shadow_masters,
                self.current_master == old(self).current_master,
                self.is_leader_flag == old(self).is_leader_flag,
                self.addr == old(self).addr,
                self.config == old(self).config,
                self.common_config == old(self).common_config,
                forall|i: int, j: int| 0 <= i < j < failedv.len() ==> #[trigger] failedv[i]
                    != #[trigger] failedv[j],
                forall|j: int|
                    0 <= j < fi ==> !has_key(
                        self.chunk_servers.deep_view(),
                        #[trigger] failedv[j],
                    ),
                versions_monotone(cmv0, self.chunk_map.deep_view()),
                live_row_growth(csv0, self.chunk_servers.deep_view(), failedv, cmds@),
                records_traced(cmv0, self.chunk_map.deep_view(), cmds@),
                dead_rows_pending(
                    csv0,
                    self.chunk_servers.deep_view(),
                    failedv.subrange(fi as int, nf as int),
                ),
                repairs_ordered_done(
                    csv0,
                    cmv0,
                    failedv,
                    failedv.subrange(0, fi as int),
                    rf0,
                    max0,
                    cmds@,
                ),
            decreases nf - fi,
        {
            let ghost cs_before = self.chunk_servers.deep_view();
            let ghost pending1 = failedv.subrange(fi as int + 1, nf as int);
            let taken = take_chunk_list(&mut self.chunk_servers, &failed[fi]);
            proof {
                lemma_remove_key(cs_before, failedv[fi as int]);
                assert(failedv.contains(failedv[fi as int]));
                assert(!pending1.contains(failedv[fi as int])) by {
                    if pending1.contains(failedv[fi as int]) {
                        let w = choose|w: int|
                            0 <= w < pending1.len() && pending1[w] == failedv[fi as int];
                        assert(failedv[fi as int + 1 + w] == failedv[fi as int]);
                    }
                }
                // Pending rows are pending now too, just further down.
                assert(dead_rows_pending(csv0, cs_before, pending1)) by {
                    assert forall|si: int, cj: int|
                        #![trigger csv0[si].1[cj]]
                        0 <= si < csv0.len() && pending1.contains(csv0[si].0) && 0 <= cj
                            < csv0[si].1.len() implies row_has(
                        cs_before,
                        csv0[si].0,
                        csv0[si].1[cj].chunk_id,
                    ) by {
                        let rec = csv0[si].1[cj];
                        let w = choose|w: int|
                            0 <= w < pending1.len() && pending1[w] == csv0[si].0;
                        assert(failedv[fi as int + 1 + w] == csv0[si].0);
                        assert(failedv.subrange(fi as int, nf as int)[1 + w] == csv0[si].0);
                        assert(failedv.subrange(fi as int, nf as int).contains(csv0[si].0));
                        assert(row_has(cs_before, csv0[si].0, csv0[si].1[cj].chunk_id));
                    }
                }
                lemma_growth_pending_after_remove(
                    csv0,
                    cs_before,
                    failedv,
                    failedv[fi as int],
                    pending1,
                    cmds@,
                );
            }
            match taken {
                None => {
                    proof {
                        // No entry: the old table has no record under this
                        // address either, so there is nothing owed for it.
                        assert forall|si: int, cj: int|
                            #![trigger csv0[si].1[cj]]
                            0 <= si < csv0.len() && failedv.subrange(0, fi as int + 1).contains(
                                csv0[si].0,
                            ) && 0 <= cj < csv0[si].1.len() implies repair_obliged(
                            csv0,
                            cmv0,
                            failedv,
                            csv0[si].0,
                            csv0[si].1[cj].chunk_id,
                            rf0,
                            max0,
                            cmds@,
                        ) by {
                            let w = choose|w: int|
                                0 <= w < fi as int + 1 && #[trigger] failedv.subrange(
                                    0,
                                    fi as int + 1,
                                )[w] == csv0[si].0;
                            let rec = csv0[si].1[cj];
                            if w < fi as int {
                                assert(failedv.subrange(0, fi as int)[w] == csv0[si].0);
                                assert(failedv.subrange(0, fi as int).contains(csv0[si].0));
                            } else {
                                assert(csv0[si].0 == failedv[fi as int]);
                                assert(failedv.subrange(fi as int, nf as int)[0] == csv0[si].0);
                                assert(failedv.subrange(fi as int, nf as int).contains(
                                    csv0[si].0,
                                ));
                                assert(row_has(cs_before, csv0[si].0, csv0[si].1[cj].chunk_id));
                                assert(has_key(cs_before, csv0[si].0));
                                assert(false);
                            }
                        }
                    }
                },
                Some(entry) => {
                    let ghost captured = entry.chunks.deep_view();
                    proof {
                        assert(failedv.subrange(fi as int, nf as int)[0] == failedv[fi as int]);
                        assert(failedv.subrange(fi as int, nf as int).contains(
                            failedv[fi as int],
                        ));
                        assert(captured == val_of(cs_before, failedv[fi as int]));
                        assert(row_ids_captured(csv0, failedv[fi as int], captured)) by {
                            assert forall|si: int, cj2: int|
                                #![trigger csv0[si].1[cj2]]
                                0 <= si < csv0.len() && csv0[si].0 == failedv[fi as int] && 0
                                    <= cj2 < csv0[si].1.len() implies holds_chunk(
                                captured,
                                csv0[si].1[cj2].chunk_id,
                            ) by {
                                let rec = csv0[si].1[cj2];
                                assert(failedv.subrange(fi as int, nf as int).contains(
                                    csv0[si].0,
                                ));
                                assert(row_has(cs_before, csv0[si].0, csv0[si].1[cj2].chunk_id));
                                assert(holds_chunk(
                                    val_of(cs_before, csv0[si].0),
                                    csv0[si].1[cj2].chunk_id,
                                ));
                            }
                        }
                    }
                    let nch = entry.chunks.len();
                    let mut cj: usize = 0;
                    while cj < nch
                        invariant
                            nch == entry.chunks@.len(),
                            captured == entry.chunks.deep_view(),
                            captured.len() == nch,
                            cj <= nch,
                            self.wf(),
                            keys_unique(csv0),
                            failedv == failed.deep_view(),
                            fi < nf,
                            nf == failed@.len(),
                            rf0 == self.common_config.replication_factor as int,
                            max0 == self.common_config.max_allowed_chunks as int,
                            pending1 == failedv.subrange(fi as int + 1, nf as int),
                            self.last_heartbeat_time == old(self).last_heartbeat_time,
                            self.shadow_masters == old(self).shadow_masters,
                            self.current_master == old(self).current_master,
                            self.is_leader_flag == old(self).is_leader_flag,
                            self.addr == old(self).addr,
                            self.config == old(self).config,
                            self.common_config == old(self).common_config,
                            forall|i: int, j: int| 0 <= i < j < failedv.len() ==> #[trigger] failedv[i]
                                != #[trigger] failedv[j],
                            forall|j: int|
                                0 <= j <= fi ==> !has_key(
                                    self.chunk_servers.deep_view(),
                                    #[trigger] failedv[j],
                                ),
                            versions_monotone(cmv0, self.chunk_map.deep_view()),
                            live_row_growth(csv0, self.chunk_servers.deep_view(), failedv, cmds@),
                            records_traced(cmv0, self.chunk_map.deep_view(), cmds@),
                            dead_rows_pending(csv0, self.chunk_servers.deep_view(), pending1),
                            repairs_ordered_done(
                                csv0,
                                cmv0,
                                failedv,
                                failedv.subrange(0, fi as int),
                                rf0,
                                max0,
                                cmds@,
                            ),
                            row_ids_captured(csv0, failedv[fi as int], captured),
                            forall|si: int, cj2: int|
                                #![trigger csv0[si].1[cj2]]
                                0 <= si < csv0.len() && csv0[si].0 == failedv[fi as int] && 0
                                    <= cj2 < csv0[si].1.len() && (exists|ck: int|
                                    0 <= ck < cj && (#[trigger] captured[ck]).chunk_id
                                        == csv0[si].1[cj2].chunk_id) ==> repair_obliged(
                                    csv0,
                                    cmv0,
                                    failedv,
                                    csv0[si].0,
                                    csv0[si].1[cj2].chunk_id,
                                    rf0,
                                    max0,
                                    cmds@,
                                ),
                        decreases nch - cj,
                    {
                        let ghost cm_before = self.chunk_map.deep_view();
                        let ghost cs_mid = self.chunk_servers.deep_view();
                        let ghost rfi = self.common_config.replication_factor as int;
                        let ghost precmds = cmds@;
                        let mut sub = self.repair_chunk(&entry.chunks[cj].chunk_id, &failed[fi]);
                        let ghost subv = sub@;
                        cmds.append(&mut sub);
                        proof {
                            let id = entry.chunks@[cj as int].chunk_id@;
                            assert(cmds@ == precmds + subv);
                            assert(cmds@.len() == precmds.len() + subv.len());
                            assert forall|x: int| 0 <= x < precmds.len() implies #[trigger] cmds@[x]
                                == precmds[x] by {}
                            let mut untouched = true;
                            if has_key(cm_before, id) {
                                let info0 = val_of(cm_before, id);
                                let sources = remove_addr(
                                    info0.server_addresses,
                                    failedv[fi as int],
                                );
                                if !(sources.len() == 0 || rfi <= sources.len() || info0.version
                                    == u64::MAX) && subv.len() > 0 {
                                    untouched = false;
                                    let targets = subv.map_values(|cmd: TransferCmd| cmd.target@);
                                    let c = ChunkInfoView {
                                        chunk_id: id,
                                        server_addresses: sources + targets,
                                        version: (info0.version + 1) as u64,
                                    };
                                    assert(self.chunk_map.deep_view() == upsert(cm_before, id, c));
                                    lemma_upsert(cm_before, id, c);
                                    lemma_key_index(cm_before, id);
                                    assert(versions_monotone(
                                        cmv0,
                                        self.chunk_map.deep_view(),
                                    )) by {
                                        assert forall|k: Seq<char>| #[trigger] has_key(
                                            cmv0,
                                            k,
                                        ) implies has_key(self.chunk_map.deep_view(), k)
                                            && val_of(self.chunk_map.deep_view(), k).version
                                            >= val_of(cmv0, k).version by {
                                            let vprev = val_of(cm_before, k);
                                            assert(has_key(cm_before, k) && vprev.version
                                                >= val_of(cmv0, k).version);
                                            if k == id {
                                                assert(val_of(self.chunk_map.deep_view(), k)
                                                    == c);
                                            } else {
                                                assert(val_of(self.chunk_map.deep_view(), k)
                                                    == vprev);
                                            }
                                        }
                                    }
                                    assert(subv[0].chunk_id@ == id);
                                    assert(cmds@[precmds.len() as int] == subv[0]);
                                    lemma_traced_after_upsert(
                                        cmv0,
                                        cm_before,
                                        precmds,
                                        cmds@,
                                        id,
                                        c,
                                    );
                                    lemma_repair_loads_keys(cs_mid, id, c, targets);
                                    assert forall|j: int| 0 <= j <= fi implies !has_key(
                                        self.chunk_servers.deep_view(),
                                        #[trigger] failedv[j],
                                    ) by {
                                        if has_key(self.chunk_servers.deep_view(), failedv[j]) {
                                            let w = key_index(
                                                self.chunk_servers.deep_view(),
                                                failedv[j],
                                            );
                                            assert(self.chunk_servers.deep_view()[w].0
                                                == cs_mid[w].0);
                                            assert(has_key(cs_mid, failedv[j]));
                                        }
                                    }
                                    assert(keys_unique(cs_mid));
                                    assert(subv[0].chunk_id@ == id);
                                    assert(cmds@[precmds.len() as int] == subv[0]);
                                    lemma_growth_pending_after_repair(
                                        csv0,
                                        cs_mid,
                                        failedv,
                                        pending1,
                                        precmds,
                                        cmds@,
                                        id,
                                        c,
                                        targets,
                                    );
                                }
                            }
                            if untouched {
                                assert(self.chunk_map.deep_view() == cm_before);
                                assert(self.chunk_servers.deep_view() == cs_mid);
                                assert(subv.len() == 0);
                                assert(cmds@ =~= precmds);
                                assert(cmds@ == precmds);
                            }
                            // Earlier duties carry over to the longer
                            // command list.
                            assert forall|si: int, cj2: int|
                                #![trigger csv0[si].1[cj2]]
                                0 <= si < csv0.len() && failedv.subrange(0, fi as int).contains(
                                    csv0[si].0,
                                ) && 0 <= cj2 < csv0[si].1.len() implies repair_obliged(
                                csv0,
                                cmv0,
                                failedv,
                                csv0[si].0,
                                csv0[si].1[cj2].chunk_id,
                                rf0,
                                max0,
                                cmds@,
                            ) by {
                                lemma_obliged_extend(
                                    csv0,
                                    cmv0,
                                    failedv,
                                    csv0[si].0,
                                    csv0[si].1[cj2].chunk_id,
                                    rf0,
                                    max0,
                                    precmds,
                                    cmds@,
                                );
                            }
                            assert(repairs_ordered_done(
                                csv0,
                                cmv0,
                                failedv,
                                failedv.subrange(0, fi as int),
                                rf0,
                                max0,
                                cmds@,
                            ));
                            // Duties for this dead server's chunks seen so
                            // far, including the one just attempted.
                            assert forall|si: int, cj2: int|
                                #![trigger csv0[si].1[cj2]]
                                0 <= si < csv0.len() && csv0[si].0 == failedv[fi as int] && 0
                                    <= cj2 < csv0[si].1.len() && (exists|ck: int|
                                    0 <= ck < cj + 1 && (#[trigger] captured[ck]).chunk_id
                                        == csv0[si].1[cj2].chunk_id) implies repair_obliged(
                                csv0,
                                cmv0,
                                failedv,
                                csv0[si].0,
                                csv0[si].1[cj2].chunk_id,
                                rf0,
                                max0,
                                cmds@,
                            ) by {
                                let zz = csv0[si].1[cj2].chunk_id;
                                let ck = choose|ck: int|
                                    0 <= ck < cj + 1 && (#[trigger] captured[ck]).chunk_id == zz;
                                if ck < cj {
                                    lemma_obliged_extend(
                                        csv0,
                                        cmv0,
                                        failedv,
                                        csv0[si].0,
                                        zz,
                                        rf0,
                                        max0,
                                        precmds,
                                        cmds@,
                                    );
                                } else {
                                    assert(zz == id);
                                    if (has_key(cmv0, zz) && val_of(cmv0, zz).version < u64::MAX
                                        && (exists|k: int|
                                        0 <= k < val_of(cmv0, zz).server_addresses.len()
                                            && !failedv.contains(
                                            #[trigger] val_of(cmv0, zz).server_addresses[k],
                                        )) && rf0 > remove_addr(
                                        val_of(cmv0, zz).server_addresses,
                                        csv0[si].0,
                                    ).len() && (exists|t: int|
                                        0 <= t < csv0.len() && !failedv.contains(
                                            (#[trigger] csv0[t]).0,
                                        ) && csv0[t].1.len() + cmds@.len() < max0 && !holds_chunk(
                                            csv0[t].1,
                                            zz,
                                        ))) {
                                        if subv.len() > 0 {
                                            assert(subv[0].chunk_id@ == id);
                                            assert(cmds@[precmds.len() as int] == subv[0]);
                                            assert(exists|x: int|
                                                0 <= x < cmds@.len() && (
                                                #[trigger] cmds@[x]).chunk_id@ == zz);
                                        } else {
                                            assert(has_key(cm_before, zz));
                                            if val_of(cm_before, zz) != val_of(cmv0, zz) {
                                                let x = choose|x: int|
                                                    0 <= x < precmds.len() && (
                                                    #[trigger] precmds[x]).chunk_id@ == zz;
                                                assert(cmds@[x].chunk_id@ == zz);
                                            } else {
                                                let rec = val_of(cm_before, zz);
                                                let sources = remove_addr(
                                                    rec.server_addresses,
                                                    failedv[fi as int],
                                                );
                                                let k = choose|k: int|
                                                    0 <= k < val_of(
                                                        cmv0,
                                                        zz,
                                                    ).server_addresses.len() && !failedv.contains(
                                                        #[trigger] val_of(
                                                            cmv0,
                                                            zz,
                                                        ).server_addresses[k],
                                                    );
                                                let surv = rec.server_addresses[k];
                                                assert(rec.server_addresses.contains(surv));
                                                assert(surv != failedv[fi as int]);
                                                lemma_remove_addr_membership(
                                                    rec.server_addresses,
                                                    failedv[fi as int],
                                                    surv,
                                                );
                                                let sw = choose|sw: int|
                                                    0 <= sw < sources.len() && sources[sw]
                                                        == surv;
                                                assert(sources.len() > 0);
                                                assert(rf0 > sources.len());
                                                assert(rec.version < u64::MAX);
                                                // The repair saw a positive
                                                // candidate pool, so its
                                                // command count cannot be 0.
                                                assert(subv.len() == vstd::math::min(
                                                    rf0 - sources.len() as int,
                                                    candidate_count(cs_mid, max0, zz),
                                                ));
                                                let t = choose|t: int|
                                                    0 <= t < csv0.len() && !failedv.contains(
                                                        (#[trigger] csv0[t]).0,
                                                    ) && csv0[t].1.len() + cmds@.len() < max0
                                                        && !holds_chunk(csv0[t].1, zz);
                                                assert(has_key(cs_mid, csv0[t].0));
                                                let valm = val_of(cs_mid, csv0[t].0);
                                                assert(valm.len() <= csv0[t].1.len()
                                                    + precmds.len());
                                                assert(valm.len() < max0);
                                                if holds_chunk(valm, zz) {
                                                    assert(holds_chunk(csv0[t].1, zz) || (
                                                    exists|x: int|
                                                        0 <= x < precmds.len() && (
                                                        #[trigger] precmds[x]).chunk_id@ == zz));
                                                    let x = choose|x: int|
                                                        0 <= x < precmds.len() && (
                                                        #[trigger] precmds[x]).chunk_id@ == zz;
                                                    assert(cmds@[x].chunk_id@ == zz);
                                                } else {
                                                    lemma_key_index(cs_mid, csv0[t].0);
                                                    let w = key_index(cs_mid, csv0[t].0);
                                                    assert(cs_mid[w].1 == valm);
                                                    lemma_candidate_count_pos(
                                                        cs_mid,
                                                        max0,
                                                        zz,
                                                        w,
                                                    );
                                                    assert(false);
                                                }
                                            }
                                        }
                                    }
                                }
                            }
                        }
                        cj = cj + 1;
                    }
                    proof {
                        // Every chunk of this dead server's old row was
                        // seen, so its duty is settled; fold it into the
                        // processed set.
                        assert forall|si: int, cj2: int|
                            #![trigger csv0[si].1[cj2]]
                            0 <= si < csv0.len() && failedv.subrange(0, fi as int + 1).contains(
                                csv0[si].0,
                            ) && 0 <= cj2 < csv0[si].1.len() implies repair_obliged(
                            csv0,
                            cmv0,
                            failedv,
                            csv0[si].0,
                            csv0[si].1[cj2].chunk_id,
                            rf0,
                            max0,
                            cmds@,
                        ) by {
                            let w = choose|w: int|
                                0 <= w < fi as int + 1 && #[trigger] failedv.subrange(
                                    0,
                                    fi as int + 1,
                                )[w] == csv0[si].0;
                            if w < fi as int {
                                assert(failedv.subrange(0, fi as int)[w] == csv0[si].0);
                                assert(failedv.subrange(0, fi as int).contains(csv0[si].0));
                            } else {
                                assert(csv0[si].0 == failedv[fi as int]);
                                assert(holds_chunk(captured, csv0[si].1[cj2].chunk_id));
                                let ck = choose|ck: int|
                                    0 <= ck < captured.len() && (#[trigger] captured[ck]).chunk_id
                                        == csv0[si].1[cj2].chunk_id;
                                assert(exists|ck2: int|
                                    0 <= ck2 < cj as int && (#[trigger] captured[ck2]).chunk_id
                                        == csv0[si].1[cj2].chunk_id);
                            }
                        }
                    }
                },
            }
            fi = fi + 1;
        }
        proof {
            assert(failedv.subrange(0, nf as int) =~= failedv);
            assert(repairs_ordered(csv0, cmv0, failedv, rf0, max0, cmds@)) by {
                assert forall|si: int, cj: int|
                    #![trigger csv0[si].1[cj]]
                    0 <= si < csv0.len() && failedv.contains(csv0[si].0) && 0 <= cj
                        < csv0[si].1.len() implies repair_obliged(
                    csv0,
                    cmv0,
                    failedv,
                    csv0[si].0,
                    csv0[si].1[cj].chunk_id,
                    rf0,
                    max0,
                    cmds@,
                ) by {
                    assert(failedv.subrange(0, nf as int).contains(csv0[si].0));
                }
            }
            assert(live_keys_kept(csv0, self.chunk_servers.deep_view(), failedv)) by {
                assert forall|a: Seq<char>| #[trigger] has_key(csv0, a) && !failedv.contains(
                    a,
                ) implies has_key(self.chunk_servers.deep_view(), a) by {
                    lemma_key_index(csv0, a);
                    let w = key_index(csv0, a);
                    assert(csv0[w].0 == a);
                    assert(has_key(self.chunk_servers.deep_view(), csv0[w].0));
                }
            }
        }
        prune_heartbeats(&mut self.last_heartbeat_time, &failed);
        cmds
    }
}

/// `repair_loads` keeps every key in place.
pub proof fn lemma_repair_loads_keys(
    cs: Seq<(Seq<char>, Seq<ChunkInfoView>)>,
    id: Seq<char>,
    c: ChunkInfoView,
    targets: Seq<Seq<char>>,
)
    ensures
        repair_loads(cs, id, c, targets).len() == cs.len(),
        forall|i: int|
            0 <= i < cs.len() ==> (#[trigger] repair_loads(cs, id, c, targets)[i]).0 == cs[i].0,
    decreases cs.len(),
{
    if cs.len() > 0 {
        lemma_repair_loads_keys(cs.drop_last(), id, c, targets);
        assert forall|i: int| 0 <= i < cs.len() implies (
        #[trigger] repair_loads(cs, id, c, targets)[i]).0 == cs[i].0 by {
            if i < cs.len() - 1 {
                assert(cs.drop_last()[i] == cs[i]);
                assert(repair_loads(cs, id, c, targets)[i] == repair_loads(
                    cs.drop_last(),
                    id,
                    c,
                    targets,
                )[i]);
            }
        }
    }
}

/// `replace_in_files` keeps every key in place.
pub proof fn lemma_replace_in_files_keys(
    fc: Seq<(Seq<char>, Seq<ChunkInfoView>)>,
    id: Seq<char>,
    c: ChunkInfoView,
)
    ensures
        replace_in_files(fc, id, c).len() == fc.len(),
        forall|i: int|
            0 <= i < fc.len() ==> (#[trigger] replace_in_files(fc, id, c)[i]).0 == fc[i].0,
    decreases fc.len(),
{
    if fc.len() > 0 {
        lemma_replace_in_files_keys(fc.drop_last(), id, c);
        assert forall|i: int| 0 <= i < fc.len() implies (
        #[trigger] replace_in_files(fc, id, c)[i]).0 == fc[i].0 by {
            if i < fc.len() - 1 {
                assert(fc.drop_last()[i] == fc[i]);
                assert(replace_in_files(fc, id, c)[i] == replace_in_files(
                    fc.drop_last(),
                    id,
                    c,
                )[i]);
            }
        }
    }
}

/// Every record a heartbeat resolves is the chunk table's own record for
/// its id.
pub proof fn lemma_resolve_registered(
    reported: Seq<Seq<char>>,
    cm: Seq<(Seq<char>, ChunkInfoView)>,
)
    requires
        cmap_keyed(cm),
    ensures
        forall|j: int|
            0 <= j < spec_resolve(reported, cm).len() ==> {
                let c = #[trigger] spec_resolve(reported, cm)[j];
                has_key(cm, c.chunk_id) && val_of(cm, c.chunk_id) == c
            },
    decreases reported.len(),
{
    if reported.len() > 0 {
        lemma_resolve_registered(reported.drop_last(), cm);
        let rest = spec_resolve(reported.drop_last(), cm);
        let whole = spec_resolve(reported, cm);
        assert forall|j: int| 0 <= j < whole.len() implies {
            let c = #[trigger] whole[j];
            has_key(cm, c.chunk_id) && val_of(cm, c.chunk_id) == c
        } by {
            if has_key(cm, reported.last()) {
                lemma_key_index(cm, reported.last());
                let idx = key_index(cm, reported.last());
                assert(cm[idx].0 == cm[idx].1.chunk_id);
                assert(whole == rest.push(val_of(cm, reported.last())));
                if j < rest.len() {
                    assert(whole[j] == rest[j]);
                } else {
                    assert(whole[j] == val_of(cm, reported.last()));
                    assert(whole[j].chunk_id == reported.last());
                }
            } else {
                assert(whole == rest);
                assert(whole[j] == rest[j]);
            }
        }
    }
}

/// One heartbeat leaves the three metadata tables consistent: the rebuilt
/// load entry lists only records the chunk table itself holds.
pub proof fn lemma_heartbeat_preserves_consistency(
    fc: Seq<(Seq<char>, Seq<ChunkInfoView>)>,
    cs: Seq<(Seq<char>, Seq<ChunkInfoView>)>,
    cm: Seq<(Seq<char>, ChunkInfoView)>,
    addr: Seq<char>,
    reported: Seq<Seq<char>>,
)
    requires
        keys_unique(cs),
        tables_consistent(fc, cs, cm),
    ensures
        tables_consistent(fc, upsert(cs, addr, spec_resolve(reported, cm)), cm),
{
    let v = spec_resolve(reported, cm);
    let r = upsert(cs, addr, v);
    lemma_resolve_registered(reported, cm);
    assert forall|i: int, j: int| 0 <= i < r.len() && 0 <= j < r[i].1.len() implies has_key(
        cm,
        (#[trigger] r[i].1[j]).chunk_id,
    ) && val_of(cm, r[i].1[j].chunk_id) == r[i].1[j] by {
        if has_key(cs, addr) {
            let k = key_index(cs, addr);
            if i == k {
                assert(r[i].1 == v);
            } else {
                assert(r[i] == cs[i]);
            }
        } else {
            if i < cs.len() {
                assert(r[i] == cs[i]);
            } else {
                assert(r[i].1 == v);
            }
        }
    }
}

/// Heartbeat idempotence: two identical heartbeats in a row leave the load
/// table exactly as the first one left it (the liveness stamp aside).
pub proof fn lemma_heartbeat_idempotent(
    cs: Seq<(Seq<char>, Seq<ChunkInfoView>)>,
    cm: Seq<(Seq<char>, ChunkInfoView)>,
    addr: Seq<char>,
    reported: Seq<Seq<char>>,
)
    requires
        keys_unique(cs),
    ensures
        upsert(
            upsert(cs, addr, spec_resolve(reported, cm)),
            addr,
            spec_resolve(reported, cm),
        ) == upsert(cs, addr, spec_resolve(reported, cm)),
{
    crate::keyed::lemma_upsert_idempotent(cs, addr, spec_resolve(reported, cm));
}

/// One line of the credentials file: a user name and its password.
#[derive(Debug)]
pub struct Credential {
    pub username: String,
    pub password: String,
}

/// Whether a login matches some configured credential.
pub fn check_credentials(creds: &Vec<Credential>, username: &String, password: &String) -> (r:
    bool)
    ensures
        r == exists|i: int|
            0 <= i < creds@.len() && (#[trigger] creds@[i]).username@ == username@
                && creds@[i].password@ == password@,
{
    let n = creds.len();
    let mut i: usize = 0;
    while i < n
        invariant
            n == creds@.len(),
            i <= n,
            forall|j: int|
                0 <= j < i ==> !((#[trigger] creds@[j]).username@ == username@
                    && creds@[j].password@ == password@),
        decreases n - i,
    {
        if creds[i].username == *username && creds[i].password == *password {
            proof {
                assert(creds@[i as int].username@ == username@);
            }
            return true;
        }
        i = i + 1;
    }
    proof {
        if exists|j: int|
            0 <= j < creds@.len() && (#[trigger] creds@[j]).username@ == username@
                && creds@[j].password@ == password@ {
            let j = choose|j: int|
                0 <= j < creds@.len() && (#[trigger] creds@[j]).username@ == username@
                    && creds@[j].password@ == password@;
        }
    }
    false
}

/// The expiry of an OTP minted at `now`: `now` plus the configured
/// lifetime, or nothing when that would overflow the clock.
pub fn otp_expiry(now: u64, otp_valid_duration: u64) -> (r: Option<u64>)
    ensures
        match r {
            Some(v) => v == now + otp_valid_duration,
            None => now + otp_valid_duration > u64::MAX,
        },
{
    if now <= u64::MAX - otp_valid_duration {
        Some(now + otp_valid_duration)
    } else {
        None
    }
}

impl MasterService {
    /// One tick of a shadow master's leader-ping loop, given whether the
    /// current leader answered.  A node that is not the leader and cannot
    /// reach it takes over; the return says whether it just did, so the
    /// process can start the failure detector and stop pinging.  This is
    /// the failover rule: one shadow's flag flips exactly when its leader
    /// stops answering.
    pub fn shadow_ping_step(&mut self, leader_reachable: bool) -> (r: bool)
        requires
            old(self).wf(),
        ensures
            final(self).wf(),
            r == (!old(self).is_leader_flag && !leader_reachable),
            final(self).is_leader_flag == (old(self).is_leader_flag || !leader_reachable),
            final(self).file_chunks == old(self).file_chunks,
            final(self).chunk_servers == old(self).chunk_servers,
            final(self).last_heartbeat_time == old(self).last_heartbeat_time,
            final(self).chunk_map == old(self).chunk_map,
            final(self).shadow_masters == old(self).shadow_masters,
            final(self).current_master == old(self).current_master,
            final(self).addr == old(self).addr,
            final(self).config == old(self).config,
            final(self).common_config == old(self).common_config,
    {
        if self.is_leader_flag {
            false
        } else if !leader_reachable {
            self.is_leader_flag = true;
            true
        } else {
            false
        }
    }
}

/// A snapshot collected from a consistent leader, applied on a shadow,
/// leaves the shadow consistent, with the leader's very tables.
pub proof fn lemma_propagation_preserves_consistency(leader: MasterService, shadow: MasterService)
    requires
        leader.consistent(),
        shadow.file_chunks.deep_view() == leader.file_chunks.deep_view(),
        shadow.chunk_servers.deep_view() == leader.chunk_servers.deep_view(),
        shadow.chunk_map.deep_view() == leader.chunk_map.deep_view(),
        keys_unique(shadow.last_heartbeat_time.deep_view()),
        strings_unique(shadow.shadow_masters.deep_view()),
    ensures
        shadow.consistent(),
{
}

} // verus!
