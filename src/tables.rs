//! Byte tables keyed by section name: keys unique, in order of first insertion.

use vstd::prelude::*;

verus! {

/// The entries of a table, as pairs of byte sequences.
pub open spec fn entries_view(s: Seq<(Vec<u8>, Vec<u8>)>) -> Seq<(Seq<u8>, Seq<u8>)> {
    s.map_values(|e: (Vec<u8>, Vec<u8>)| (e.0@, e.1@))
}

/// The position of the first entry with key `k`, or -1.
pub open spec fn key_index(s: Seq<(Seq<u8>, Seq<u8>)>, k: Seq<u8>) -> int
    decreases s.len(),
{
    if s.len() == 0 {
        -1
    } else {
        let i = key_index(s.drop_last(), k);
        if i >= 0 {
            i
        } else if s.last().0 == k {
            s.len() - 1
        } else {
            -1
        }
    }
}

/// `s` with the value under `k` replaced by `v`, or with `(k, v)` appended.
pub open spec fn upsert(s: Seq<(Seq<u8>, Seq<u8>)>, k: Seq<u8>, v: Seq<u8>) -> Seq<(Seq<u8>, Seq<u8>)> {
    let i = key_index(s, k);
    if i >= 0 {
        s.update(i, (k, v))
    } else {
        s.push((k, v))
    }
}

/// No key occurs twice.
pub open spec fn keys_unique(s: Seq<(Seq<u8>, Seq<u8>)>) -> bool {
    forall|i: int, j: int| 0 <= i < j < s.len() ==> s[i].0 != s[j].0
}

pub proof fn lemma_key_index_range(s: Seq<(Seq<u8>, Seq<u8>)>, k: Seq<u8>)
    ensures
        -1 <= key_index(s, k) < s.len(),
        key_index(s, k) >= 0 ==> s[key_index(s, k)].0 == k,
        key_index(s, k) < 0 ==> forall|i: int| 0 <= i < s.len() ==> s[i].0 != k,
    decreases s.len(),
{
    if s.len() > 0 {
        lemma_key_index_range(s.drop_last(), k);
        if key_index(s, k) < 0 {
            assert forall|i: int| 0 <= i < s.len() implies s[i].0 != k by {
                if i < s.len() - 1 {
                    assert(s.drop_last()[i] == s[i]);
                }
            }
        }
    }
}

proof fn lemma_key_index_prefix(s: Seq<(Seq<u8>, Seq<u8>)>, k: Seq<u8>, m: int)
    requires
        0 <= m <= s.len(),
        key_index(s.take(m), k) >= 0,
    ensures
        key_index(s, k) == key_index(s.take(m), k),
    decreases s.len(),
{
    if m < s.len() {
        assert(s.drop_last().take(m) =~= s.take(m));
        lemma_key_index_prefix(s.drop_last(), k, m);
    } else {
        assert(s.take(m) =~= s);
    }
}

pub proof fn lemma_upsert_unique(s: Seq<(Seq<u8>, Seq<u8>)>, k: Seq<u8>, v: Seq<u8>)
    requires
        keys_unique(s),
    ensures
        keys_unique(upsert(s, k, v)),
        forall|i: int| 0 <= i < upsert(s, k, v).len() ==> #[trigger] upsert(s, k, v)[i].0 == k
            || (i < s.len() && upsert(s, k, v)[i].0 == s[i].0),
{
    lemma_key_index_range(s, k);
    let t = upsert(s, k, v);
    if key_index(s, k) < 0 {
        assert(t.drop_last() =~= s);
    }
}

/// Whether two byte strings are equal.
pub fn bytes_eq(a: &[u8], b: &[u8]) -> (r: bool)
    ensures
        r == (a@ == b@),
{
    if a.len() != b.len() {
        return false;
    }
    let mut i: usize = 0;
    while i < a.len()
        invariant
            a@.len() == b@.len(),
            i <= a@.len(),
            a@.take(i as int) == b@.take(i as int),
        decreases a.len() - i,
    {
        if a[i] != b[i] {
            return false;
        }
        assert(a@.take(i + 1) =~= a@.take(i as int).push(a@[i as int]));
        assert(b@.take(i + 1) =~= b@.take(i as int).push(b@[i as int]));
        i = i + 1;
    }
    assert(a@ =~= a@.take(i as int));
    assert(b@ =~= b@.take(i as int));
    true
}

/// Whether `s` begins with `p`.
pub fn starts_with_bytes(s: &[u8], p: &[u8]) -> (r: bool)
    ensures
        r == (p@.len() <= s@.len() && s@.take(p@.len() as int) == p@),
{
    if p.len() > s.len() {
        return false;
    }
    let mut i: usize = 0;
    while i < p.len()
        invariant
            p@.len() <= s@.len(),
            i <= p@.len(),
            s@.take(i as int) == p@.take(i as int),
        decreases p.len() - i,
    {
        if s[i] != p[i] {
            assert(s@.take(p@.len() as int)[i as int] != p@[i as int]);
            return false;
        }
        assert(s@.take(i + 1) =~= s@.take(i as int).push(s@[i as int]));
        assert(p@.take(i + 1) =~= p@.take(i as int).push(p@[i as int]));
        i = i + 1;
    }
    assert(p@ =~= p@.take(i as int));
    true
}

/// The position of the entry with key `k`.
pub fn find_entry(entries: &Vec<(Vec<u8>, Vec<u8>)>, k: &[u8]) -> (r: Option<usize>)
    ensures
        match r {
            Some(i) => key_index(entries_view(entries@), k@) == i as int,
            None => key_index(entries_view(entries@), k@) == -1,
        },
{
    let ghost s = entries_view(entries@);
    let mut j: usize = 0;
    while j < entries.len()
        invariant
            s == entries_view(entries@),
            j <= entries@.len(),
            key_index(s.take(j as int), k@) == -1,
        decreases entries.len() - j,
    {
        assert(s.take(j + 1).drop_last() =~= s.take(j as int));
        if bytes_eq(entries[j].0.as_slice(), k) {
            assert(key_index(s.take(j + 1), k@) == j);
            proof {
                lemma_key_index_prefix(s, k@, j + 1);
            }
            return Some(j);
        }
        j = j + 1;
    }
    assert(s.take(j as int) =~= s);
    None
}

/// Stores `v` under `k`, replacing an earlier value.
pub fn upsert_entry(entries: &mut Vec<(Vec<u8>, Vec<u8>)>, k: Vec<u8>, v: Vec<u8>)
    ensures
        entries_view(final(entries)@) == upsert(entries_view(old(entries)@), k@, v@),
{
    match find_entry(entries, k.as_slice()) {
        Some(i) => {
            proof {
                lemma_key_index_range(entries_view(old(entries)@), k@);
            }
            entries.remove(i);
            entries.insert(i, (k, v));
            assert(entries_view(entries@) =~= upsert(entries_view(old(entries)@), k@, v@));
        },
        None => {
            entries.push((k, v));
            assert(entries_view(entries@) =~= upsert(entries_view(old(entries)@), k@, v@));
        },
    }
}

} // verus!
