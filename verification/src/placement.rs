//! Replica placement: picking the least-loaded chunkservers from a pool of
//! candidates, as the master does on writes and on re-replication.

use vstd::prelude::*;
use vstd::seq_lib::*;
use vstd::set_lib::*;

verus! {

/// A placement candidate: a chunkserver address and its load (the number
/// of chunks it holds) at the moment the pool was built.
#[derive(Debug)]
pub struct AvailServer {
    pub addr: String,
    pub load: usize,
}

/// Membership of `x` in a list of indices.
fn contains_usize(v: &Vec<usize>, x: usize) -> (r: bool)
    ensures
        r == v@.contains(x),
{
    let n = v.len();
    let mut i: usize = 0;
    while i < n
        invariant
            n == v@.len(),
            i <= n,
            forall|j: int| 0 <= j < i ==> v@[j] != x,
        decreases n - i,
    {
        if v[i] == x {
            return true;
        }
        i = i + 1;
    }
    proof {
        if v@.contains(x) {
            let j = choose|j: int| 0 <= j < v@.len() && v@[j] == x;
            assert(v@[j] != x);
        }
    }
    false
}

/// A duplicate-free list of indices below `n` that is shorter than `n`
/// misses some index.
pub proof fn lemma_missing_index(s: Seq<usize>, n: int)
    requires
        s.no_duplicates(),
        forall|i: int| 0 <= i < s.len() ==> (s[i] as int) < n,
        s.len() < n,
        n <= usize::MAX,
    ensures
        exists|t: usize| (t as int) < n && !(#[trigger] s.contains(t)),
{
    if !(exists|t: usize| (t as int) < n && !(#[trigger] s.contains(t))) {
        let f = |u: usize| u as int;
        let si = s.map_values(f);
        assert(vstd::relations::injective(f)) by {
            assert forall|a: usize, b: usize| #[trigger] f(a) == #[trigger] f(b) implies a
                == b by {}
        }
        s.lemma_no_duplicates_injective(f);
        si.unique_seq_to_set();
        let x = si.to_set();
        assert(x.len() == s.len());
        let range = set_int_range(0, n);
        lemma_int_range(0, n);
        assert forall|v: int| range.contains(v) implies x.contains(v) by {
            let t = v as usize;
            assert(t as int == v);
            assert((t as int) < n);
            assert(s.contains(t));
            let i = choose|i: int| 0 <= i < s.len() && s[i] == t;
            assert(si[i] == v);
            assert(si.contains(v));
        }
        lemma_len_subset(range, x);
        assert(n <= x.len());
        assert(false);
    }
}

/// Picks `count` distinct candidates of least load (fewer when the pool is
/// smaller), returning their indices into the pool.  Every pick's load is
/// at most the load of every candidate passed over.
pub fn select_servers(avail: &Vec<AvailServer>, count: usize) -> (r: Vec<usize>)
    ensures
        r@.len() == vstd::math::min(count as int, avail@.len() as int),
        r@.no_duplicates(),
        forall|i: int| 0 <= i < r@.len() ==> (r@[i] as int) < avail@.len(),
        forall|i: int, t: int|
            #![trigger r@[i], avail@[t]]
            0 <= i < r@.len() && 0 <= t < avail@.len() && !r@.contains(t as usize)
                ==> avail@[r@[i] as int].load <= avail@[t].load,
{
    let n = avail.len();
    let m = if count < n {
        count
    } else {
        n
    };
    let mut sel: Vec<usize> = Vec::new();
    while sel.len() < m
        invariant
            n == avail@.len(),
            m <= n,
            m == vstd::math::min(count as int, n as int),
            sel@.len() <= m,
            sel@.no_duplicates(),
            forall|i: int| 0 <= i < sel@.len() ==> (sel@[i] as int) < n,
            forall|i: int, t: int|
                #![trigger sel@[i], avail@[t]]
                0 <= i < sel@.len() && 0 <= t < n && !sel@.contains(t as usize)
                    ==> avail@[sel@[i] as int].load <= avail@[t].load,
        decreases m - sel@.len(),
    {
        let mut best: usize = 0;
        let mut have: bool = false;
        let mut j: usize = 0;
        while j < n
            invariant
                n == avail@.len(),
                j <= n,
                have == (exists|t: usize| (t as int) < j && !(#[trigger] sel@.contains(t))),
                have ==> (best as int) < j && !sel@.contains(best) && (forall|t: usize|
                    (t as int) < j && !(#[trigger] sel@.contains(t)) ==> avail@[best as int].load
                        <= avail@[t as int].load),
            decreases n - j,
        {
            if !contains_usize(&sel, j) {
                if !have {
                    best = j;
                    have = true;
                } else if avail[j].load < avail[best].load {
                    best = j;
                }
                proof {
                    assert(!sel@.contains(j));
                }
            }
            j = j + 1;
        }
        proof {
            lemma_missing_index(sel@, n as int);
        }
        assert(have);
        let ghost presel = sel@;
        sel.push(best);
        proof {
            assert(sel@ =~= presel.push(best));
            assert forall|i: int, t: int|
                #![trigger sel@[i], avail@[t]]
                0 <= i < sel@.len() && 0 <= t < n && !sel@.contains(t as usize) implies avail@[sel@[i] as int].load
                <= avail@[t].load by {
                if presel.contains(t as usize) {
                    let w = choose|w: int| 0 <= w < presel.len() && presel[w] == t as usize;
                    assert(sel@[w] == t as usize);
                    assert(sel@.contains(t as usize));
                }
                assert(!presel.contains(t as usize));
                if i < presel.len() {
                    assert(sel@[i] == presel[i]);
                } else {
                    assert(sel@[i] == best);
                }
            }
        }
    }
    sel
}

} // verus!
