//! Client-side logic: splitting a file into chunk-sized pieces, choosing
//! which replica to talk to, and reassembling what was read.  The process
//! around it moves the bytes over the wire; every decision is made here.

use crate::errors::FsError;
use crate::types::ChunkInfo;
use vstd::prelude::*;

verus! {

/// The chunk-sized slices of a byte string, in order: every slice holds
/// `chunk_size` bytes except the last, which holds the remainder.
pub open spec fn spec_chunks_of(data: Seq<u8>, chunk_size: int) -> Seq<Seq<u8>>
    decreases data.len(),
{
    if chunk_size < 1 {
        Seq::empty()
    } else if data.len() == 0 {
        Seq::empty()
    } else if data.len() <= chunk_size {
        seq![data]
    } else {
        seq![data.subrange(0, chunk_size)] + spec_chunks_of(
            data.subrange(chunk_size, data.len() as int),
            chunk_size,
        )
    }
}

/// The bytes of the chunks, joined in chunk order.
pub open spec fn spec_concat(chunks: Seq<Seq<u8>>) -> Seq<u8>
    decreases chunks.len(),
{
    if chunks.len() == 0 {
        Seq::empty()
    } else {
        chunks[0] + spec_concat(chunks.drop_first())
    }
}

/// Joining one more chunk at the end appends its bytes.
pub proof fn lemma_concat_push(chunks: Seq<Seq<u8>>, x: Seq<u8>)
    ensures
        spec_concat(chunks.push(x)) == spec_concat(chunks) + x,
    decreases chunks.len(),
{
    if chunks.len() == 0 {
        assert(chunks.push(x).drop_first() =~= Seq::<Seq<u8>>::empty());
        assert(chunks.push(x)[0] == x);
        assert(spec_concat(Seq::<Seq<u8>>::empty()) == Seq::<u8>::empty());
        assert(spec_concat(chunks.push(x)) == x + Seq::<u8>::empty());
        assert(x + Seq::<u8>::empty() =~= x);
        assert(spec_concat(chunks) == Seq::<u8>::empty());
        assert(Seq::<u8>::empty() + x =~= x);
    } else {
        assert(chunks.push(x).drop_first() =~= chunks.drop_first().push(x));
        lemma_concat_push(chunks.drop_first(), x);
        assert(spec_concat(chunks.push(x)) == chunks[0] + (spec_concat(chunks.drop_first()) + x));
        assert(chunks[0] + (spec_concat(chunks.drop_first()) + x) =~= (chunks[0] + spec_concat(
            chunks.drop_first(),
        )) + x);
    }
}

/// Read-after-write at the byte level: splitting a byte string into chunks
/// and concatenating the chunks in order gives back the original bytes,
/// whichever replica each chunk was later read from.
pub proof fn lemma_split_concat_roundtrip(data: Seq<u8>, chunk_size: int)
    requires
        chunk_size >= 1,
    ensures
        spec_concat(spec_chunks_of(data, chunk_size)) == data,
    decreases data.len(),
{
    if data.len() == 0 {
        assert(spec_concat(spec_chunks_of(data, chunk_size)) =~= data);
    } else if data.len() <= chunk_size {
        assert(spec_chunks_of(data, chunk_size) == seq![data]);
        assert(seq![data].drop_first() =~= Seq::<Seq<u8>>::empty());
        assert(spec_concat(Seq::<Seq<u8>>::empty()) == Seq::<u8>::empty());
        assert(spec_concat(seq![data]) == data + Seq::<u8>::empty());
        assert(data + Seq::<u8>::empty() =~= data);
    } else {
        let head = data.subrange(0, chunk_size);
        let tail = data.subrange(chunk_size, data.len() as int);
        lemma_split_concat_roundtrip(tail, chunk_size);
        let whole = spec_chunks_of(data, chunk_size);
        assert(whole == seq![head] + spec_chunks_of(tail, chunk_size));
        assert(whole.drop_first() =~= spec_chunks_of(tail, chunk_size));
        assert(whole[0] == head);
        assert(spec_concat(whole) == head + spec_concat(spec_chunks_of(tail, chunk_size)));
        assert(head + tail =~= data);
    }
}

/// Splits a byte string into chunk-sized pieces, in order.
pub fn split_into_chunks(data: &Vec<u8>, chunk_size: u64) -> (r: Vec<Vec<u8>>)
    requires
        1 <= chunk_size <= usize::MAX,
    ensures
        r.deep_view() == spec_chunks_of(data@, chunk_size as int),
{
    let cs = chunk_size as usize;
    let n = data.len();
    let mut r: Vec<Vec<u8>> = Vec::new();
    let mut pos: usize = 0;
    proof {
        assert(data@.subrange(0, n as int) =~= data@);
        assert(r.deep_view() + spec_chunks_of(data@.subrange(pos as int, n as int), cs as int)
            =~= spec_chunks_of(data@, cs as int));
    }
    while pos < n
        invariant
            n == data@.len(),
            pos <= n,
            cs == chunk_size,
            1 <= cs,
            spec_chunks_of(data@, cs as int) == r.deep_view() + spec_chunks_of(
                data@.subrange(pos as int, n as int),
                cs as int,
            ),
        decreases n - pos,
    {
        let end: usize = if n - pos > cs {
            pos + cs
        } else {
            n
        };
        let mut piece: Vec<u8> = Vec::new();
        let mut j: usize = pos;
        proof {
            assert(piece@ =~= data@.subrange(pos as int, j as int));
        }
        while j < end
            invariant
                pos <= j <= end <= n,
                n == data@.len(),
                piece@ == data@.subrange(pos as int, j as int),
            decreases end - j,
        {
            piece.push(data[j]);
            proof {
                assert(piece@ =~= data@.subrange(pos as int, j as int + 1));
            }
            j = j + 1;
        }
        let ghost suffix = data@.subrange(pos as int, n as int);
        let ghost pre = r.deep_view();
        let ghost piecev = piece.deep_view();
        r.push(piece);
        proof {
            assert(piecev =~= data@.subrange(pos as int, end as int));
            assert(r.deep_view() =~= pre.push(piecev));
            if suffix.len() <= cs {
                assert(end == n);
                assert(piecev =~= suffix);
                assert(spec_chunks_of(suffix, cs as int) == seq![suffix]);
                assert(data@.subrange(end as int, n as int).len() == 0);
                assert(spec_chunks_of(data@.subrange(end as int, n as int), cs as int)
                    =~= Seq::<Seq<u8>>::empty());
                assert(pre.push(piecev) + spec_chunks_of(
                    data@.subrange(end as int, n as int),
                    cs as int,
                ) =~= pre + seq![suffix]);
                assert(pre + spec_chunks_of(suffix, cs as int) =~= pre + seq![suffix]);
            } else {
                assert(end == pos + cs);
                assert(piecev =~= suffix.subrange(0, cs as int));
                assert(data@.subrange(end as int, n as int) =~= suffix.subrange(
                    cs as int,
                    suffix.len() as int,
                ));
                assert(spec_chunks_of(suffix, cs as int) == seq![suffix.subrange(0, cs as int)]
                    + spec_chunks_of(suffix.subrange(cs as int, suffix.len() as int), cs as int));
                assert(pre.push(piecev) + spec_chunks_of(
                    data@.subrange(end as int, n as int),
                    cs as int,
                ) =~= pre + spec_chunks_of(suffix, cs as int));
            }
            assert(spec_chunks_of(data@, cs as int) == r.deep_view() + spec_chunks_of(
                data@.subrange(end as int, n as int),
                cs as int,
            ));
        }
        pos = end;
    }
    proof {
        assert(data@.subrange(pos as int, n as int).len() == 0);
        assert(spec_chunks_of(data@.subrange(pos as int, n as int), cs as int)
            =~= Seq::<Seq<u8>>::empty());
        assert(r.deep_view() + spec_chunks_of(data@.subrange(pos as int, n as int), cs as int)
            =~= r.deep_view());
    }
    r
}

/// Joins the chunk payloads read back, in chunk order.
pub fn concat_chunks(chunks: &Vec<Vec<u8>>) -> (r: Vec<u8>)
    ensures
        r@ == spec_concat(chunks.deep_view()),
{
    let mut r: Vec<u8> = Vec::new();
    let n = chunks.len();
    let mut i: usize = 0;
    proof {
        assert(chunks.deep_view().subrange(0, 0) =~= Seq::<Seq<u8>>::empty());
        assert(r@ =~= spec_concat(chunks.deep_view().subrange(0, 0)));
    }
    while i < n
        invariant
            n == chunks@.len(),
            i <= n,
            r@ == spec_concat(chunks.deep_view().subrange(0, i as int)),
        decreases n - i,
    {
        let m = chunks[i].len();
        let mut j: usize = 0;
        let ghost pre = r@;
        while j < m
            invariant
                i < n,
                n == chunks@.len(),
                m == chunks@[i as int]@.len(),
                j <= m,
                r@ == pre + chunks.deep_view()[i as int].subrange(0, j as int),
            decreases m - j,
        {
            r.push(chunks[i][j]);
            proof {
                assert(r@ =~= pre + chunks.deep_view()[i as int].subrange(0, j as int + 1));
            }
            j = j + 1;
        }
        proof {
            assert(chunks.deep_view()[i as int].subrange(0, m as int) =~= chunks.deep_view()[i
                as int]);
            assert(chunks.deep_view().subrange(0, i as int + 1).drop_last()
                =~= chunks.deep_view().subrange(0, i as int));
            assert(chunks.deep_view().subrange(0, i as int + 1) =~= chunks.deep_view().subrange(
                0,
                i as int,
            ).push(chunks.deep_view()[i as int]));
            lemma_concat_push(chunks.deep_view().subrange(0, i as int), chunks.deep_view()[i
                as int]);
        }
        i = i + 1;
    }
    proof {
        assert(chunks.deep_view().subrange(0, n as int) =~= chunks.deep_view());
    }
    r
}

/// The first replica address of each chunk that has one, in chunk order.
pub open spec fn spec_primaries(list: Seq<crate::types::ChunkInfoView>) -> Seq<Seq<char>>
    decreases list.len(),
{
    if list.len() == 0 {
        Seq::empty()
    } else {
        let rest = spec_primaries(list.drop_last());
        if list.last().server_addresses.len() > 0 {
            rest.push(list.last().server_addresses[0])
        } else {
            rest
        }
    }
}

/// One write-side address per chunk: the first replica of each chunk that
/// has any, or `NotFound` when that leaves nothing.
pub fn get_primary_server_addresses(chunk_info_list: &Vec<ChunkInfo>) -> (r: Result<
    Vec<String>,
    FsError,
>)
    ensures
        match r {
            Ok(v) => v.deep_view() == spec_primaries(chunk_info_list.deep_view())
                && v@.len() > 0,
            Err(e) => e == FsError::NotFound && spec_primaries(
                chunk_info_list.deep_view(),
            ).len() == 0,
        },
{
    let ghost lv = chunk_info_list.deep_view();
    let mut v: Vec<String> = Vec::new();
    let n = chunk_info_list.len();
    let mut i: usize = 0;
    proof {
        assert(v.deep_view() =~= spec_primaries(lv.subrange(0, 0)));
    }
    while i < n
        invariant
            n == chunk_info_list@.len(),
            i <= n,
            lv == chunk_info_list.deep_view(),
            v.deep_view() == spec_primaries(lv.subrange(0, i as int)),
        decreases n - i,
    {
        let ghost p1 = lv.subrange(0, i as int + 1);
        proof {
            assert(p1.drop_last() =~= lv.subrange(0, i as int));
            assert(p1.last() == lv[i as int]);
        }
        if chunk_info_list[i].server_addresses.len() > 0 {
            let ghost pre = v.deep_view();
            let a = chunk_info_list[i].server_addresses[0].clone();
            v.push(a);
            proof {
                assert(v.deep_view() =~= pre.push(a@));
            }
        }
        proof {
            assert(v.deep_view() =~= spec_primaries(p1));
        }
        i = i + 1;
    }
    proof {
        assert(lv.subrange(0, n as int) =~= lv);
    }
    if v.len() == 0 {
        Err(FsError::NotFound)
    } else {
        Ok(v)
    }
}

/// All replica addresses, one list per chunk, in chunk order; `NotFound`
/// when the file has no chunks.
pub fn get_all_server_addresses(chunk_info_list: &Vec<ChunkInfo>) -> (r: Result<
    Vec<Vec<String>>,
    FsError,
>)
    ensures
        match r {
            Ok(v) => chunk_info_list@.len() > 0 && v.deep_view().len()
                == chunk_info_list.deep_view().len() && (forall|i: int|
                0 <= i < v.deep_view().len() ==> #[trigger] v.deep_view()[i]
                    == chunk_info_list.deep_view()[i].server_addresses),
            Err(e) => e == FsError::NotFound && chunk_info_list@.len() == 0,
        },
{
    let ghost lv = chunk_info_list.deep_view();
    let mut v: Vec<Vec<String>> = Vec::new();
    let n = chunk_info_list.len();
    let mut i: usize = 0;
    while i < n
        invariant
            n == chunk_info_list@.len(),
            i <= n,
            lv == chunk_info_list.deep_view(),
            v@.len() == i,
            forall|j: int|
                0 <= j < i ==> #[trigger] v.deep_view()[j] == lv[j].server_addresses,
        decreases n - i,
    {
        let ghost pre = v.deep_view();
        let a = chunk_info_list[i].server_addresses.clone();
        v.push(a);
        proof {
            assert(a.deep_view() =~= lv[i as int].server_addresses);
            assert(v.deep_view() =~= pre.push(a.deep_view()));
        }
        i = i + 1;
    }
    if v.len() == 0 {
        Err(FsError::NotFound)
    } else {
        Ok(v)
    }
}

/// Relies on rand's thread-local generator through `Rng::gen_range` over
/// `0..n`: the sample lies in the range; which value comes back is the
/// generator's business, so nothing more is claimed.
#[verifier::external_body]
fn random_index(n: usize) -> (r: usize)
    requires
        n > 0,
    ensures
        r < n,
{
    rand::Rng::gen_range(&mut rand::thread_rng(), 0..n)
}

/// One read-side address per chunk, drawn at random from the chunk's
/// replicas for load balancing; `NotFound` when the file has no chunks or
/// some chunk has no replica.
pub fn get_randomized_server_addresses(chunk_info_list: &Vec<ChunkInfo>) -> (r: Result<
    Vec<String>,
    FsError,
>)
    ensures
        match r {
            Ok(v) => {
                &&& chunk_info_list@.len() > 0
                &&& v@.len() == chunk_info_list@.len()
                &&& (forall|i: int|
                    0 <= i < v@.len() ==> chunk_info_list.deep_view()[i].server_addresses.contains(
                        #[trigger] v.deep_view()[i],
                    ))
            },
            Err(e) => e == FsError::NotFound && (chunk_info_list@.len() == 0 || exists|i: int|
                0 <= i < chunk_info_list@.len()
                    && (#[trigger] chunk_info_list.deep_view()[i]).server_addresses.len() == 0),
        },
{
    let ghost lv = chunk_info_list.deep_view();
    let mut v: Vec<String> = Vec::new();
    let n = chunk_info_list.len();
    let mut i: usize = 0;
    while i < n
        invariant
            n == chunk_info_list@.len(),
            i <= n,
            lv == chunk_info_list.deep_view(),
            v@.len() == i,
            forall|j: int|
                0 <= j < i ==> lv[j].server_addresses.contains(#[trigger] v.deep_view()[j]),
        decreases n - i,
    {
        let m = chunk_info_list[i].server_addresses.len();
        if m == 0 {
            proof {
                assert(lv[i as int].server_addresses.len() == 0);
            }
            return Err(FsError::NotFound);
        }
        let k = random_index(m);
        let ghost pre = v.deep_view();
        let a = chunk_info_list[i].server_addresses[k].clone();
        v.push(a);
        proof {
            assert(v.deep_view() =~= pre.push(a@));
            assert(lv[i as int].server_addresses[k as int] == a@);
        }
        i = i + 1;
    }
    if v.len() == 0 {
        Err(FsError::NotFound)
    } else {
        Ok(v)
    }
}

/// Prepares an upload: splits the bytes into chunk-sized pieces and checks
/// that the count matches the placement the master returned; a mismatch is
/// an `InvalidArgument`, as the upload cannot proceed.
pub fn upload_pieces(data: &Vec<u8>, chunk_size: u64, placement_len: usize) -> (r: Result<
    Vec<Vec<u8>>,
    FsError,
>)
    requires
        1 <= chunk_size <= usize::MAX,
    ensures
        match r {
            Ok(v) => v.deep_view() == spec_chunks_of(data@, chunk_size as int) && v@.len()
                == placement_len,
            Err(e) => e == FsError::InvalidArgument && spec_chunks_of(
                data@,
                chunk_size as int,
            ).len() != placement_len,
        },
{
    let pieces = split_into_chunks(data, chunk_size);
    if pieces.len() != placement_len {
        return Err(FsError::InvalidArgument);
    }
    Ok(pieces)
}

} // verus!
