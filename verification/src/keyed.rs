//! Specification-level association maps: sequences of (key, value) pairs with
//! distinct keys, the shape of every metadata table the master keeps.

use vstd::prelude::*;

verus! {

/// True when `m` holds an entry with key `k`.
pub open spec fn has_key<V>(m: Seq<(Seq<char>, V)>, k: Seq<char>) -> bool {
    exists|i: int| 0 <= i < m.len() && m[i].0 == k
}

/// The index of the entry with key `k`; unique under `keys_unique`.
pub open spec fn key_index<V>(m: Seq<(Seq<char>, V)>, k: Seq<char>) -> int {
    choose|i: int| 0 <= i < m.len() && m[i].0 == k
}

/// The value stored under key `k`.
pub open spec fn val_of<V>(m: Seq<(Seq<char>, V)>, k: Seq<char>) -> V {
    m[key_index(m, k)].1
}

/// No two entries share a key.
pub open spec fn keys_unique<V>(m: Seq<(Seq<char>, V)>) -> bool {
    forall|i: int, j: int| 0 <= i < j < m.len() ==> m[i].0 != m[j].0
}

/// `m` with key `k` bound to `v`: replaced in place when present, appended
/// when absent.
pub open spec fn upsert<V>(m: Seq<(Seq<char>, V)>, k: Seq<char>, v: V) -> Seq<(Seq<char>, V)> {
    if has_key(m, k) {
        m.update(key_index(m, k), (k, v))
    } else {
        m.push((k, v))
    }
}

/// `m` without the entry keyed `k` (unchanged when absent).
pub open spec fn remove_key<V>(m: Seq<(Seq<char>, V)>, k: Seq<char>) -> Seq<(Seq<char>, V)> {
    if has_key(m, k) {
        m.remove(key_index(m, k))
    } else {
        m
    }
}

pub proof fn lemma_key_index<V>(m: Seq<(Seq<char>, V)>, k: Seq<char>)
    requires
        has_key(m, k),
    ensures
        0 <= key_index(m, k) < m.len(),
        m[key_index(m, k)].0 == k,
        keys_unique(m) ==> forall|j: int|
            0 <= j < m.len() && j != key_index(m, k) ==> m[j].0 != k,
{
    let i = key_index(m, k);
    assert(0 <= i < m.len() && m[i].0 == k);
}

pub proof fn lemma_upsert<V>(m: Seq<(Seq<char>, V)>, k: Seq<char>, v: V)
    requires
        keys_unique(m),
    ensures
        keys_unique(upsert(m, k, v)),
        has_key(upsert(m, k, v), k),
        val_of(upsert(m, k, v), k) == v,
        forall|k2: Seq<char>|
            k2 != k ==> #[trigger] has_key(upsert(m, k, v), k2) == has_key(m, k2),
        forall|k2: Seq<char>|
            k2 != k && has_key(m, k2) ==> #[trigger] val_of(upsert(m, k, v), k2) == val_of(m, k2),
{
    let r = upsert(m, k, v);
    if has_key(m, k) {
        lemma_key_index(m, k);
        let i = key_index(m, k);
        assert(r[i].0 == k);
        assert(has_key(r, k));
        lemma_key_index(r, k);
        assert forall|k2: Seq<char>| k2 != k implies #[trigger] has_key(r, k2) == has_key(
            m,
            k2,
        ) by {
            if has_key(m, k2) {
                let j = key_index(m, k2);
                assert(0 <= j < m.len() && m[j].0 == k2);
                assert(j != i);
                assert(r[j].0 == k2);
            }
            if has_key(r, k2) {
                let j = key_index(r, k2);
                assert(0 <= j < r.len() && r[j].0 == k2);
                assert(j != i);
                assert(m[j].0 == k2);
            }
        }
        assert forall|k2: Seq<char>| k2 != k && has_key(m, k2) implies #[trigger] val_of(r, k2)
            == val_of(m, k2) by {
            let j = key_index(m, k2);
            assert(0 <= j < m.len() && m[j].0 == k2);
            assert(j != i);
            assert(r[j].0 == k2);
            assert(has_key(r, k2));
            lemma_key_index(r, k2);
            assert(key_index(r, k2) == j);
        }
    } else {
        let i = m.len() as int;
        assert(r[i].0 == k);
        assert(has_key(r, k));
        assert forall|a: int, b: int| 0 <= a < b < r.len() implies r[a].0 != r[b].0 by {
            if b < i {
                assert(r[a].0 == m[a].0 && r[b].0 == m[b].0);
            } else {
                assert(b == i);
                assert(r[a].0 == m[a].0);
                assert(!(exists|j: int| 0 <= j < m.len() && m[j].0 == k));
                assert(m[a].0 != k);
            }
        }
        lemma_key_index(r, k);
        assert forall|k2: Seq<char>| k2 != k implies #[trigger] has_key(r, k2) == has_key(
            m,
            k2,
        ) by {
            if has_key(m, k2) {
                let j = key_index(m, k2);
                assert(r[j].0 == k2);
            }
            if has_key(r, k2) {
                let j = key_index(r, k2);
                assert(j != i);
                assert(m[j].0 == k2);
            }
        }
        assert forall|k2: Seq<char>| k2 != k && has_key(m, k2) implies #[trigger] val_of(r, k2)
            == val_of(m, k2) by {
            let j = key_index(m, k2);
            assert(r[j].0 == k2);
            assert(has_key(r, k2));
            lemma_key_index(r, k2);
            assert(key_index(r, k2) == j);
        }
    }
}

/// Writing the same value under the same key twice is the same as writing
/// it once.
pub proof fn lemma_upsert_idempotent<V>(m: Seq<(Seq<char>, V)>, k: Seq<char>, v: V)
    requires
        keys_unique(m),
    ensures
        upsert(upsert(m, k, v), k, v) == upsert(m, k, v),
{
    let r = upsert(m, k, v);
    lemma_upsert(m, k, v);
    lemma_key_index(r, k);
    let i = key_index(r, k);
    assert(r[i].1 == val_of(r, k));
    assert(r[i] == (k, v));
    assert(upsert(r, k, v) =~= r);
}

pub proof fn lemma_remove_key<V>(m: Seq<(Seq<char>, V)>, k: Seq<char>)
    requires
        keys_unique(m),
    ensures
        keys_unique(remove_key(m, k)),
        !has_key(remove_key(m, k), k),
        forall|k2: Seq<char>|
            k2 != k ==> #[trigger] has_key(remove_key(m, k), k2) == has_key(m, k2),
        forall|k2: Seq<char>|
            k2 != k && has_key(m, k2) ==> #[trigger] val_of(remove_key(m, k), k2) == val_of(
                m,
                k2,
            ),
{
    if has_key(m, k) {
        lemma_key_index(m, k);
        let i = key_index(m, k);
        let r = m.remove(i);
        assert forall|a: int, b: int| 0 <= a < b < r.len() implies r[a].0 != r[b].0 by {
            let a0 = if a < i {
                a
            } else {
                a + 1
            };
            let b0 = if b < i {
                b
            } else {
                b + 1
            };
            assert(r[a] == m[a0] && r[b] == m[b0]);
        }
        assert forall|k2: Seq<char>| !(k2 == k) implies #[trigger] has_key(r, k2) == has_key(
            m,
            k2,
        ) by {
            if has_key(m, k2) {
                let j = key_index(m, k2);
                assert(j != i);
                let j2 = if j < i {
                    j
                } else {
                    j - 1
                };
                assert(r[j2] == m[j]);
            }
            if has_key(r, k2) {
                let j = key_index(r, k2);
                let j0 = if j < i {
                    j
                } else {
                    j + 1
                };
                assert(r[j] == m[j0]);
            }
        }
        if has_key(r, k) {
            let j = key_index(r, k);
            let j0 = if j < i {
                j
            } else {
                j + 1
            };
            assert(r[j] == m[j0]);
            assert(m[j0].0 == k);
            assert(false);
        }
        assert forall|k2: Seq<char>| k2 != k && has_key(m, k2) implies #[trigger] val_of(r, k2)
            == val_of(m, k2) by {
            let j = key_index(m, k2);
            assert(0 <= j < m.len() && m[j].0 == k2);
            assert(j != i);
            let j2 = if j < i {
                j
            } else {
                j - 1
            };
            assert(r[j2] == m[j]);
            assert(has_key(r, k2));
            lemma_key_index(r, k2);
            let j3 = key_index(r, k2);
            let j4 = if j3 < i {
                j3
            } else {
                j3 + 1
            };
            assert(r[j3] == m[j4]);
            assert(m[j4].0 == k2);
            assert(j4 == j);
        }
    }
}

} // verus!
