//! Searching, slicing and comparing byte sequences.
use vstd::prelude::*;
use crate::text::{has_key, key_pos, keys_unique, upsert};

verus! {

/// The first position at or after `from` that holds `b`.
pub open spec fn find_byte(d: Seq<u8>, from: int, b: u8) -> Option<int>
    decreases d.len() - from,
{
    if from < 0 || from >= d.len() {
        None
    } else if d[from] == b {
        Some(from)
    } else {
        find_byte(d, from + 1, b)
    }
}

/// A found position lies in range and holds `b`, and nothing before it from `from` on does.
pub proof fn lemma_find_byte(d: Seq<u8>, from: int, b: u8)
    requires
        0 <= from,
    ensures
        find_byte(d, from, b) matches Some(i) ==> from <= i < d.len() && d[i] == b && forall|
            j: int,
        |
            from <= j < i ==> d[j] != b,
        find_byte(d, from, b) is None ==> forall|j: int| from <= j < d.len() ==> d[j] != b,
    decreases d.len() - from,
{
    if from < d.len() && d[from] != b {
        lemma_find_byte(d, from + 1, b);
    }
}

pub fn find_byte_from(d: &[u8], from: usize, b: u8) -> (r: Option<usize>)
    ensures
        r matches Some(i) ==> find_byte(d@, from as int, b) == Some(i as int) && i < d@.len() && i < usize::MAX,
        r is None ==> find_byte(d@, from as int, b) is None,
{
    let mut i = from;
    while i < d.len()
        invariant
            from <= i,
            find_byte(d@, from as int, b) == find_byte(d@, i as int, b),
        decreases d@.len() - i,
    {
        if d[i] == b {
            return Some(i);
        }
        i = i + 1;
    }
    None
}

/// `a` and `b` hold the same bytes.
pub fn bytes_eq(a: &[u8], b: &[u8]) -> (r: bool)
    ensures
        r == (a@ == b@),
{
    if a.len() != b.len() {
        return false;
    }
    let mut i: usize = 0;
    while i < a.len()
        invariant
            a@.len() == b@.len(),
            i <= a@.len(),
            forall|j: int| 0 <= j < i ==> a@[j] == b@[j],
        decreases a@.len() - i,
    {
        if a[i] != b[i] {
            return false;
        }
        i = i + 1;
    }
    assert(a@ =~= b@);
    true
}

/// A copy of `d[lo..hi]`.
pub fn sub_vec(d: &[u8], lo: usize, hi: usize) -> (r: Vec<u8>)
    requires
        lo <= hi <= d@.len(),
    ensures
        r@ == d@.subrange(lo as int, hi as int),
{
    let mut r: Vec<u8> = Vec::new();
    let mut i = lo;
    while i < hi
        invariant
            lo <= i <= hi <= d@.len(),
            r@ == d@.subrange(lo as int, i as int),
        decreases hi - i,
    {
        r.push(d[i]);
        i = i + 1;
        assert(r@ =~= d@.subrange(lo as int, i as int));
    }
    r
}

/// The byte lists of a list of byte-list pairs.
pub open spec fn byte_pairs_view(h: Seq<(Vec<u8>, Vec<u8>)>) -> Seq<(Seq<u8>, Seq<u8>)> {
    h.map_values(|p: (Vec<u8>, Vec<u8>)| (p.0@, p.1@))
}

/// Stores `value` under `name`, as `upsert` says.
pub fn upsert_bytes(h: &mut Vec<(Vec<u8>, Vec<u8>)>, name: Vec<u8>, value: Vec<u8>)
    requires
        keys_unique(byte_pairs_view(old(h)@)),
    ensures
        byte_pairs_view(final(h)@) == upsert(byte_pairs_view(old(h)@), name@, value@),
{
    let ghost s = byte_pairs_view(h@);
    let n = h.len();
    let mut i: usize = 0;
    while i < n
        invariant
            n == h@.len(),
            s == byte_pairs_view(h@),
            s == byte_pairs_view(old(h)@),
            keys_unique(s),
            i <= n,
            forall|j: int| 0 <= j < i ==> s[j].0 != name@,
        decreases n - i,
    {
        if bytes_eq(h[i].0.as_slice(), name.as_slice()) {
            assert(s[i as int].0 == name@);
            assert(has_key(s, name@));
            let ghost p = key_pos(s, name@);
            assert(s[p].0 == name@);
            assert(p == i);
            let ghost old_h = h@;
            h.set(i, (name, value));
            assert(h@ == old_h.update(i as int, (name, value)));
            assert(byte_pairs_view(h@) =~= upsert(s, name@, value@));
            return;
        }
        i = i + 1;
    }
    assert(!has_key(s, name@)) by {
        if has_key(s, name@) {
            let p = key_pos(s, name@);
            assert(s[p].0 == name@);
        }
    }
    h.push((name, value));
    assert(byte_pairs_view(h@) =~= upsert(s, name@, value@));
}

} // verus!
