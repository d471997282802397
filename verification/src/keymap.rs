//! Association-list reasoning used throughout the catalog.
//!
//! The catalog's maps (the CA registry, the authority index, the quirks
//! index) are stored as vectors of key/value pairs with pairwise distinct
//! keys. The spec functions here give those vectors their map reading, and
//! the lemmas relate the reading to the vector edits the executable code
//! performs. The sorted-sequence functions model the ordered sets the
//! catalog keeps (AAGUID allow-lists, the reconciliation key union).

use vstd::prelude::*;

verus! {

/// True when `m`, read as an association list, has an entry with key `k`.
pub open spec fn al_contains<K, V>(m: Seq<(K, V)>, k: K) -> bool {
    exists|i: int| 0 <= i < m.len() && m[i].0 == k
}

/// The value stored under the first entry with key `k`.
pub open spec fn al_get<K, V>(m: Seq<(K, V)>, k: K) -> V
    recommends
        al_contains(m, k),
    decreases m.len(),
{
    if m.len() == 0 {
        arbitrary()
    } else if m[0].0 == k {
        m[0].1
    } else {
        al_get(m.drop_first(), k)
    }
}

/// `m` with the first entry under `k` replaced by `(k, v)`; when `k` is
/// absent, the new entry is appended instead.
pub open spec fn al_update<K, V>(m: Seq<(K, V)>, k: K, v: V) -> Seq<(K, V)>
    decreases m.len(),
{
    if m.len() == 0 {
        seq![(k, v)]
    } else if m[0].0 == k {
        seq![(k, v)] + m.drop_first()
    } else {
        seq![m[0]] + al_update(m.drop_first(), k, v)
    }
}

/// No two entries of `m` share a key.
pub open spec fn al_unique_keys<K, V>(m: Seq<(K, V)>) -> bool {
    forall|i: int, j: int| 0 <= i < j < m.len() ==> m[i].0 != m[j].0
}

/// Each entry of a duplicate-free list is the one `al_get` finds.
pub proof fn lemma_al_get_at<K, V>(m: Seq<(K, V)>, j: int)
    requires
        al_unique_keys(m),
        0 <= j < m.len(),
    ensures
        al_contains(m, m[j].0),
        al_get(m, m[j].0) == m[j].1,
    decreases m.len(),
{
    if j > 0 {
        assert(al_unique_keys(m.drop_first()));
        lemma_al_get_at(m.drop_first(), j - 1);
        assert(m.drop_first()[j - 1] == m[j]);
    }
}

/// A key found at no entry is absent.
pub proof fn lemma_al_absent<K, V>(m: Seq<(K, V)>, k: K)
    requires
        forall|i: int| 0 <= i < m.len() ==> m[i].0 != k,
    ensures
        !al_contains(m, k),
{
}

/// On a duplicate-free list, updating the key at position `j` is a
/// point-wise update of that position.
pub proof fn lemma_al_update_at<K, V>(m: Seq<(K, V)>, j: int, v: V)
    requires
        al_unique_keys(m),
        0 <= j < m.len(),
    ensures
        al_update(m, m[j].0, v) =~= m.update(j, (m[j].0, v)),
    decreases m.len(),
{
    if j == 0 {
    } else {
        assert(m[0].0 != m[j].0);
        assert(al_unique_keys(m.drop_first()));
        lemma_al_update_at(m.drop_first(), j - 1, v);
        assert(m.drop_first()[j - 1] == m[j]);
        assert(al_update(m, m[j].0, v) =~= seq![m[0]] + m.drop_first().update(
            j - 1,
            (m[j].0, v),
        ));
    }
}

/// Updating an absent key appends the entry.
pub proof fn lemma_al_update_absent<K, V>(m: Seq<(K, V)>, k: K, v: V)
    requires
        !al_contains(m, k),
    ensures
        al_update(m, k, v) =~= m.push((k, v)),
    decreases m.len(),
{
    if m.len() > 0 {
        assert(m[0].0 != k);
        assert(!al_contains(m.drop_first(), k)) by {
            assert(forall|i: int|
                0 <= i < m.drop_first().len() ==> m.drop_first()[i] == m[i + 1]);
        }
        lemma_al_update_absent(m.drop_first(), k, v);
        assert(al_update(m, k, v) =~= seq![m[0]] + m.drop_first().push((k, v)));
    }
}

/// An update keeps keys pairwise distinct, keeps every key that was
/// present, adds `k`, and stores `v` under `k`.
pub proof fn lemma_al_update_props<K, V>(m: Seq<(K, V)>, k: K, v: V)
    requires
        al_unique_keys(m),
    ensures
        al_unique_keys(al_update(m, k, v)),
        al_contains(al_update(m, k, v), k),
        al_get(al_update(m, k, v), k) == v,
        forall|k2: K|
            al_contains(al_update(m, k, v), k2) <==> (al_contains(m, k2) || k2 == k),
        forall|k2: K|
            al_contains(m, k2) && k2 != k ==> al_get(al_update(m, k, v), k2) == al_get(m, k2),
    decreases m.len(),
{
    if m.len() == 0 {
        lemma_al_get_at(al_update(m, k, v), 0);
    } else if m[0].0 == k {
        assert(al_update(m, k, v) =~= seq![(k, v)] + m.drop_first());
        let r = al_update(m, k, v);
        assert(forall|i: int| 0 < i < r.len() ==> r[i] == m[i]);
        assert(al_unique_keys(r));
        lemma_al_get_at(r, 0);
        assert forall|k2: K| al_contains(r, k2) implies (al_contains(m, k2) || k2 == k) by {
            let i = choose|i: int| 0 <= i < r.len() && r[i].0 == k2;
            if i > 0 {
                assert(m[i].0 == k2);
            }
        }
        assert forall|k2: K| al_contains(m, k2) implies al_contains(r, k2) by {
            let i = choose|i: int| 0 <= i < m.len() && m[i].0 == k2;
            if i == 0 {
                assert(r[0].0 == k2);
            } else {
                assert(r[i].0 == k2);
            }
        }
        assert forall|k2: K| al_contains(m, k2) && k2 != k implies al_get(r, k2) == al_get(
            m,
            k2,
        ) by {
            let i = choose|i: int| 0 <= i < m.len() && m[i].0 == k2;
            assert(i > 0);
            lemma_al_get_at(m, i);
            lemma_al_get_at(r, i);
        }
    } else {
        assert(al_unique_keys(m.drop_first()));
        lemma_al_update_props(m.drop_first(), k, v);
        let r = al_update(m, k, v);
        let rt = al_update(m.drop_first(), k, v);
        assert(r =~= seq![m[0]] + rt);
        assert(forall|i: int| 0 <= i < rt.len() ==> r[i + 1] == rt[i]);
        // the head key is absent from the updated tail
        assert(!al_contains(m.drop_first(), m[0].0)) by {
            assert(forall|i: int|
                0 <= i < m.drop_first().len() ==> m.drop_first()[i] == m[i + 1]);
        }
        assert(al_unique_keys(r)) by {
            assert forall|i: int, j: int| 0 <= i < j < r.len() implies r[i].0 != r[j].0 by {
                if i == 0 {
                    assert(r[j] == rt[j - 1]);
                    assert(al_contains(rt, rt[j - 1].0)) by {
                        assert(0 <= j - 1 < rt.len() && rt[j - 1].0 == rt[j - 1].0);
                    }
                } else {
                    assert(r[i] == rt[i - 1] && r[j] == rt[j - 1]);
                }
            }
        }
        assert(al_contains(r, k)) by {
            let i = choose|i: int| 0 <= i < rt.len() && rt[i].0 == k;
            assert(r[i + 1].0 == k);
        }
        assert(r.drop_first() =~= rt);
        assert(al_get(r, k) == al_get(rt, k));
        assert forall|k2: K| al_contains(r, k2) implies (al_contains(m, k2) || k2 == k) by {
            let i = choose|i: int| 0 <= i < r.len() && r[i].0 == k2;
            if i == 0 {
                assert(m[0].0 == k2);
            } else {
                assert(rt[i - 1].0 == k2);
                assert(al_contains(rt, k2));
                if al_contains(m.drop_first(), k2) {
                    let j = choose|j: int|
                        0 <= j < m.drop_first().len() && m.drop_first()[j].0 == k2;
                    assert(m[j + 1].0 == k2);
                }
            }
        }
        assert forall|k2: K| (al_contains(m, k2) || k2 == k) implies al_contains(r, k2) by {
            if k2 == k {
            } else {
                let i = choose|i: int| 0 <= i < m.len() && m[i].0 == k2;
                if i == 0 {
                    assert(r[0].0 == k2);
                } else {
                    assert(m.drop_first()[i - 1].0 == k2);
                    assert(al_contains(m.drop_first(), k2));
                    assert(al_contains(rt, k2));
                    let j = choose|j: int| 0 <= j < rt.len() && rt[j].0 == k2;
                    assert(r[j + 1].0 == k2);
                }
            }
        }
        assert forall|k2: K| al_contains(m, k2) && k2 != k implies al_get(r, k2) == al_get(
            m,
            k2,
        ) by {
            let i = choose|i: int| 0 <= i < m.len() && m[i].0 == k2;
            if i == 0 {
                assert(al_get(r, k2) == m[0].1);
                assert(al_get(m, k2) == m[0].1);
            } else {
                assert(m.drop_first()[i - 1].0 == k2);
                assert(al_contains(m.drop_first(), k2));
                assert(r.drop_first() =~= rt);
                assert(al_get(r, k2) == al_get(rt, k2));
                assert(al_get(m, k2) == al_get(m.drop_first(), k2));
            }
        }
    }
}

/// Strictly ascending: the canonical vector form of a finite set.
pub open spec fn sorted_unique(s: Seq<u128>) -> bool {
    forall|i: int, j: int| 0 <= i < j < s.len() ==> s[i] < s[j]
}

/// `s` with `x` placed at its sorted position; `s` unchanged when `x` is
/// already present.
pub open spec fn seq_insert_sorted(s: Seq<u128>, x: u128) -> Seq<u128>
    decreases s.len(),
{
    if s.len() == 0 {
        seq![x]
    } else if x < s[0] {
        seq![x] + s
    } else if x == s[0] {
        s
    } else {
        seq![s[0]] + seq_insert_sorted(s.drop_first(), x)
    }
}

/// Sorted insertion keeps the sequence strictly ascending and adds exactly
/// the element `x` to its members.
pub proof fn lemma_seq_insert_sorted_props(s: Seq<u128>, x: u128)
    requires
        sorted_unique(s),
    ensures
        sorted_unique(seq_insert_sorted(s, x)),
        seq_insert_sorted(s, x).contains(x),
        forall|y: u128| seq_insert_sorted(s, x).contains(y) <==> (s.contains(y) || y == x),
        s.len() <= seq_insert_sorted(s, x).len() <= s.len() + 1,
    decreases s.len(),
{
    let r = seq_insert_sorted(s, x);
    if s.len() == 0 {
        assert forall|y: u128| r.contains(y) implies (s.contains(y) || y == x) by {
            let i = choose|i: int| 0 <= i < r.len() && r[i] == y;
        }
        assert(r.contains(x)) by {
            assert(r[0] == x);
        }
    } else if x < s[0] {
        assert(r =~= seq![x] + s);
        assert(r.contains(x)) by {
            assert(r[0] == x);
        }
        assert forall|i: int, j: int| 0 <= i < j < r.len() implies r[i] < r[j] by {
            if i == 0 {
                if j > 1 {
                    assert(s[0] < s[j - 1]);
                }
            }
        }
        assert forall|y: u128| r.contains(y) implies (s.contains(y) || y == x) by {
            let i = choose|i: int| 0 <= i < r.len() && r[i] == y;
            if i > 0 {
                assert(s[i - 1] == y);
            }
        }
        assert forall|y: u128| (s.contains(y) || y == x) implies r.contains(y) by {
            if y == x {
                assert(r[0] == y);
            } else {
                let i = choose|i: int| 0 <= i < s.len() && s[i] == y;
                assert(r[i + 1] == y);
            }
        }
    } else if x == s[0] {
        assert(r.contains(x)) by {
            assert(r[0] == x);
        }
    } else {
        assert(sorted_unique(s.drop_first()));
        lemma_seq_insert_sorted_props(s.drop_first(), x);
        let rt = seq_insert_sorted(s.drop_first(), x);
        assert(r =~= seq![s[0]] + rt);
        assert(r.contains(x)) by {
            let p = choose|p: int| 0 <= p < rt.len() && rt[p] == x;
            assert(r[p + 1] == x);
        }
        assert(forall|i: int| 0 <= i < rt.len() ==> r[i + 1] == rt[i]);
        assert forall|i: int, j: int| 0 <= i < j < r.len() implies r[i] < r[j] by {
            if i == 0 {
                assert(rt.contains(rt[j - 1])) by {
                    assert(0 <= j - 1 < rt.len());
                }
                if s.drop_first().contains(rt[j - 1]) {
                    let p = choose|p: int|
                        0 <= p < s.drop_first().len() && s.drop_first()[p] == rt[j - 1];
                    assert(s[p + 1] == rt[j - 1]);
                    assert(s[0] < s[p + 1]);
                } else {
                    assert(rt[j - 1] == x);
                }
            } else {
                assert(rt[i - 1] < rt[j - 1]);
            }
        }
        assert forall|y: u128| r.contains(y) implies (s.contains(y) || y == x) by {
            let i = choose|i: int| 0 <= i < r.len() && r[i] == y;
            if i == 0 {
                assert(s[0] == y);
            } else {
                assert(rt.contains(rt[i - 1]));
                if s.drop_first().contains(y) {
                    let p = choose|p: int|
                        0 <= p < s.drop_first().len() && s.drop_first()[p] == y;
                    assert(s[p + 1] == y);
                }
            }
        }
        assert forall|y: u128| (s.contains(y) || y == x) implies r.contains(y) by {
            if s.contains(y) {
                let i = choose|i: int| 0 <= i < s.len() && s[i] == y;
                if i == 0 {
                    assert(r[0] == y);
                } else {
                    assert(s.drop_first()[i - 1] == y);
                    assert(s.drop_first().contains(y));
                    assert(rt.contains(y));
                    let p = choose|p: int| 0 <= p < rt.len() && rt[p] == y;
                    assert(r[p + 1] == y);
                }
            } else {
                let p = choose|p: int| 0 <= p < rt.len() && rt[p] == x;
                assert(r[p + 1] == x);
            }
        }
    }
}

/// Where the executable search stops determines the shape of the sorted
/// insertion: a match leaves the sequence unchanged, otherwise the element
/// lands at the stopping index.
pub proof fn lemma_seq_insert_sorted_at(s: Seq<u128>, x: u128, i: int)
    requires
        sorted_unique(s),
        0 <= i <= s.len(),
        forall|j: int| 0 <= j < i ==> s[j] < x,
        i < s.len() ==> s[i] >= x,
    ensures
        i < s.len() && s[i] == x ==> seq_insert_sorted(s, x) == s,
        !(i < s.len() && s[i] == x) ==> seq_insert_sorted(s, x) =~= s.insert(i, x),
    decreases i,
{
    if i == 0 {
        if s.len() == 0 {
            assert(seq_insert_sorted(s, x) =~= s.insert(0, x));
        } else if x < s[0] {
            assert(seq_insert_sorted(s, x) =~= s.insert(0, x));
        }
    } else {
        assert(s[0] < x);
        assert(sorted_unique(s.drop_first()));
        lemma_seq_insert_sorted_at(s.drop_first(), x, i - 1);
        if i < s.len() && s[i] == x {
            assert(s.drop_first()[i - 1] == x);
            assert(seq_insert_sorted(s, x) =~= seq![s[0]] + s.drop_first());
            assert(seq_insert_sorted(s, x) =~= s);
        } else {
            assert(seq_insert_sorted(s, x) =~= seq![s[0]] + s.drop_first().insert(i - 1, x));
            assert(seq_insert_sorted(s, x) =~= s.insert(i, x));
        }
    }
}

/// Insert `x` into the strictly ascending vector `v`, keeping it ascending;
/// a duplicate leaves `v` unchanged.
pub fn insert_sorted(v: &mut Vec<u128>, x: u128)
    requires
        sorted_unique(old(v)@),
    ensures
        final(v)@ == seq_insert_sorted(old(v)@, x),
        sorted_unique(final(v)@),
{
    let mut i: usize = 0;
    while i < v.len() && v[i] < x
        invariant
            sorted_unique(v@),
            v@ == old(v)@,
            0 <= i <= v@.len(),
            forall|j: int| 0 <= j < i ==> v@[j] < x,
        decreases v@.len() - i,
    {
        i = i + 1;
    }
    proof {
        lemma_seq_insert_sorted_at(v@, x, i as int);
        lemma_seq_insert_sorted_props(v@, x);
    }
    if i < v.len() && v[i] == x {
    } else {
        v.insert(i, x);
    }
}

/// Byte-wise equality of two keys.
pub fn key_eq(a: &Vec<u8>, b: &Vec<u8>) -> (r: bool)
    ensures
        r <==> a@ == b@,
{
    if a.len() != b.len() {
        proof {
            if a@ == b@ {
                assert(a@.len() == b@.len());
            }
        }
        return false;
    }
    let mut i: usize = 0;
    while i < a.len()
        invariant
            0 <= i <= a@.len(),
            a@.len() == b@.len(),
            forall|j: int| 0 <= j < i ==> a@[j] == b@[j],
        decreases a@.len() - i,
    {
        if a[i] != b[i] {
            proof {
                if a@ == b@ {
                    assert(a@[i as int] == b@[i as int]);
                }
            }
            return false;
        }
        i = i + 1;
    }
    proof {
        assert(a@ =~= b@);
    }
    true
}

/// Copy a byte slice into an owned vector.
pub fn slice_to_vec(data: &[u8]) -> (r: Vec<u8>)
    ensures
        r@ == data@,
{
    let mut r: Vec<u8> = Vec::new();
    let mut i: usize = 0;
    while i < data.len()
        invariant
            0 <= i <= data@.len(),
            r@ == data@.take(i as int),
        decreases data@.len() - i,
    {
        r.push(data[i]);
        proof {
            assert(r@ =~= data@.take(i + 1));
        }
        i = i + 1;
    }
    proof {
        assert(data@.take(data@.len() as int) =~= data@);
    }
    r
}

} // verus!
