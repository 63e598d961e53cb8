//! Chunk metadata records and the entry types of the master's tables.

use crate::keyed::{has_key, keys_unique};
use vstd::prelude::*;

verus! {

/// Mathematical image of a [`ChunkInfo`]: the id as a character sequence,
/// the replica addresses in order, and the version counter.
pub ghost struct ChunkInfoView {
    pub chunk_id: Seq<char>,
    pub server_addresses: Seq<Seq<char>>,
    pub version: u64,
}

/// One chunk's placement record: its canonical id, the addresses of the
/// chunkservers holding a replica (at most `replication_factor` of them),
/// and a version that never decreases and rises by one on each repair.
#[derive(Debug)]
pub struct ChunkInfo {
    pub chunk_id: String,
    pub server_addresses: Vec<String>,
    pub version: u64,
}

impl View for ChunkInfo {
    type V = ChunkInfoView;

    open spec fn view(&self) -> ChunkInfoView {
        ChunkInfoView {
            chunk_id: self.chunk_id@,
            server_addresses: self.server_addresses.deep_view(),
            version: self.version,
        }
    }
}

impl DeepView for ChunkInfo {
    type V = ChunkInfoView;

    open spec fn deep_view(&self) -> ChunkInfoView {
        self.view()
    }
}

impl Clone for ChunkInfo {
    fn clone(&self) -> (res: Self)
        ensures
            res@ == self@,
    {
        let res = ChunkInfo {
            chunk_id: self.chunk_id.clone(),
            server_addresses: self.server_addresses.clone(),
            version: self.version,
        };
        proof {
            assert(res.server_addresses.deep_view() =~= self.server_addresses.deep_view());
        }
        res
    }
}

/// An entry of a name-to-chunk-list table: the file table (name to its
/// chunks in index order) and the load table (chunkserver address to the
/// chunks it holds) share this shape.
#[derive(Debug)]
pub struct ChunkListEntry {
    pub key: String,
    pub chunks: Vec<ChunkInfo>,
}

impl DeepView for ChunkListEntry {
    type V = (Seq<char>, Seq<ChunkInfoView>);

    open spec fn deep_view(&self) -> (Seq<char>, Seq<ChunkInfoView>) {
        (self.key@, self.chunks.deep_view())
    }
}

impl Clone for ChunkListEntry {
    fn clone(&self) -> (res: Self)
        ensures
            res.deep_view() == self.deep_view(),
    {
        let res = ChunkListEntry { key: self.key.clone(), chunks: self.chunks.clone() };
        proof {
            assert(res.chunks.deep_view() =~= self.chunks.deep_view());
        }
        res
    }
}

/// An entry of the chunk-id-to-record table; the key repeats the record's
/// own `chunk_id`.
#[derive(Debug)]
pub struct ChunkMapEntry {
    pub key: String,
    pub info: ChunkInfo,
}

impl DeepView for ChunkMapEntry {
    type V = (Seq<char>, ChunkInfoView);

    open spec fn deep_view(&self) -> (Seq<char>, ChunkInfoView) {
        (self.key@, self.info@)
    }
}

impl Clone for ChunkMapEntry {
    fn clone(&self) -> (res: Self)
        ensures
            res.deep_view() == self.deep_view(),
    {
        ChunkMapEntry { key: self.key.clone(), info: self.info.clone() }
    }
}

/// An entry of the liveness table: a chunkserver address and the unix time
/// of its last heartbeat.
#[derive(Debug)]
pub struct HeartbeatEntry {
    pub key: String,
    pub time: u64,
}

impl DeepView for HeartbeatEntry {
    type V = (Seq<char>, u64);

    open spec fn deep_view(&self) -> (Seq<char>, u64) {
        (self.key@, self.time)
    }
}

impl Clone for HeartbeatEntry {
    fn clone(&self) -> (res: Self)
        ensures
            res.deep_view() == self.deep_view(),
    {
        HeartbeatEntry { key: self.key.clone(), time: self.time }
    }
}

/// The three tables a leader pushes to its shadow masters on every
/// metadata mutation.
#[derive(Debug)]
pub struct Metadata {
    pub file_chunks: Vec<ChunkListEntry>,
    pub chunk_servers: Vec<ChunkListEntry>,
    pub chunk_map: Vec<ChunkMapEntry>,
}

impl Clone for Metadata {
    fn clone(&self) -> (res: Self)
        ensures
            res.file_chunks.deep_view() == self.file_chunks.deep_view(),
            res.chunk_servers.deep_view() == self.chunk_servers.deep_view(),
            res.chunk_map.deep_view() == self.chunk_map.deep_view(),
    {
        let res = Metadata {
            file_chunks: self.file_chunks.clone(),
            chunk_servers: self.chunk_servers.clone(),
            chunk_map: self.chunk_map.clone(),
        };
        proof {
            assert(res.file_chunks.deep_view() =~= self.file_chunks.deep_view());
            assert(res.chunk_servers.deep_view() =~= self.chunk_servers.deep_view());
            assert(res.chunk_map.deep_view() =~= self.chunk_map.deep_view());
        }
        res
    }
}

/// Finds the entry keyed `key` in a chunk-list table.
pub fn find_chunk_list(entries: &Vec<ChunkListEntry>, key: &String) -> (r: Option<usize>)
    ensures
        match r {
            Some(i) => i < entries@.len() && entries.deep_view()[i as int].0 == key@ && has_key(
                entries.deep_view(),
                key@,
            ),
            None => !has_key(entries.deep_view(), key@),
        },
{
    let n = entries.len();
    let mut i: usize = 0;
    while i < n
        invariant
            n == entries@.len(),
            i <= n,
            forall|j: int| 0 <= j < i ==> entries.deep_view()[j].0 != key@,
        decreases n - i,
    {
        if entries[i].key == *key {
            return Some(i);
        }
        i = i + 1;
    }
    None
}

/// Finds the entry keyed `key` in the chunk-id table.
pub fn find_chunk_map(entries: &Vec<ChunkMapEntry>, key: &String) -> (r: Option<usize>)
    ensures
        match r {
            Some(i) => i < entries@.len() && entries.deep_view()[i as int].0 == key@ && has_key(
                entries.deep_view(),
                key@,
            ),
            None => !has_key(entries.deep_view(), key@),
        },
{
    let n = entries.len();
    let mut i: usize = 0;
    while i < n
        invariant
            n == entries@.len(),
            i <= n,
            forall|j: int| 0 <= j < i ==> entries.deep_view()[j].0 != key@,
        decreases n - i,
    {
        if entries[i].key == *key {
            return Some(i);
        }
        i = i + 1;
    }
    None
}

/// Finds the entry keyed `key` in the liveness table.
pub fn find_heartbeat(entries: &Vec<HeartbeatEntry>, key: &String) -> (r: Option<usize>)
    ensures
        match r {
            Some(i) => i < entries@.len() && entries.deep_view()[i as int].0 == key@ && has_key(
                entries.deep_view(),
                key@,
            ),
            None => !has_key(entries.deep_view(), key@),
        },
{
    let n = entries.len();
    let mut i: usize = 0;
    while i < n
        invariant
            n == entries@.len(),
            i <= n,
            forall|j: int| 0 <= j < i ==> entries.deep_view()[j].0 != key@,
        decreases n - i,
    {
        if entries[i].key == *key {
            return Some(i);
        }
        i = i + 1;
    }
    None
}

/// Whether no two entries of a chunk-list table share a key.
pub fn chunk_list_keys_unique(entries: &Vec<ChunkListEntry>) -> (r: bool)
    ensures
        r == keys_unique(entries.deep_view()),
{
    let n = entries.len();
    let mut i: usize = 1;
    while i < n
        invariant
            n == entries@.len(),
            1 <= i,
            forall|a: int, b: int|
                0 <= a < b < i && b < n ==> entries.deep_view()[a].0 != entries.deep_view()[b].0,
        decreases n - i,
    {
        let mut j: usize = 0;
        while j < i
            invariant
                i < n,
                n == entries@.len(),
                j <= i,
                forall|a: int| 0 <= a < j ==> entries.deep_view()[a].0 != entries.deep_view()[i
                    as int].0,
        decreases i - j,
        {
            if entries[j].key == entries[i].key {
                proof {
                    assert(entries.deep_view()[j as int].0 == entries.deep_view()[i as int].0);
                }
                return false;
            }
            j = j + 1;
        }
        i = i + 1;
    }
    true
}

/// Whether no two entries of the chunk-id table share a key.
pub fn chunk_map_keys_unique(entries: &Vec<ChunkMapEntry>) -> (r: bool)
    ensures
        r == keys_unique(entries.deep_view()),
{
    let n = entries.len();
    let mut i: usize = 1;
    while i < n
        invariant
            n == entries@.len(),
            1 <= i,
            forall|a: int, b: int|
                0 <= a < b < i && b < n ==> entries.deep_view()[a].0 != entries.deep_view()[b].0,
        decreases n - i,
    {
        let mut j: usize = 0;
        while j < i
            invariant
                i < n,
                n == entries@.len(),
                j <= i,
                forall|a: int| 0 <= a < j ==> entries.deep_view()[a].0 != entries.deep_view()[i
                    as int].0,
        decreases i - j,
        {
            if entries[j].key == entries[i].key {
                proof {
                    assert(entries.deep_view()[j as int].0 == entries.deep_view()[i as int].0);
                }
                return false;
            }
            j = j + 1;
        }
        i = i + 1;
    }
    true
}

impl Metadata {
    /// Whether every table of the snapshot has distinct keys, as applying
    /// it on a shadow demands.
    pub fn check_wf(&self) -> (r: bool)
        ensures
            r == (keys_unique(self.file_chunks.deep_view()) && keys_unique(
                self.chunk_servers.deep_view(),
            ) && keys_unique(self.chunk_map.deep_view())),
    {
        chunk_list_keys_unique(&self.file_chunks) && chunk_list_keys_unique(&self.chunk_servers)
            && chunk_map_keys_unique(&self.chunk_map)
    }
}

/// Membership of `x` in a list of addresses.
pub fn contains_string(v: &Vec<String>, x: &String) -> (r: bool)
    ensures
        r == v.deep_view().contains(x@),
{
    let n = v.len();
    let mut i: usize = 0;
    while i < n
        invariant
            n == v@.len(),
            i <= n,
            forall|j: int| 0 <= j < i ==> v.deep_view()[j] != x@,
        decreases n - i,
    {
        if v[i] == *x {
            proof {
                assert(v.deep_view()[i as int] == x@);
            }
            return true;
        }
        i = i + 1;
    }
    proof {
        if v.deep_view().contains(x@) {
            let j = choose|j: int| 0 <= j < v.deep_view().len() && v.deep_view()[j] == x@;
            assert(v.deep_view()[j] != x@);
        }
    }
    false
}

} // verus!
