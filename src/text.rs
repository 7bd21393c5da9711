//! Plain text helpers shared by the request and response models: decimal
//! numerals, UTF-8 decoding, and key/value lists where the last write of a key wins.
use vstd::prelude::*;
use vstd::utf8::*;

verus! {

/// The ASCII digit for `d`, for `d < 10`.
pub open spec fn digit_char(d: nat) -> char {
    seq!['0', '1', '2', '3', '4', '5', '6', '7', '8', '9'][d as int]
}

/// The decimal numeral of `n`, without sign or leading zeros.
pub open spec fn decimal(n: nat) -> Seq<char>
    decreases n,
{
    if n < 10 {
        seq![digit_char(n)]
    } else {
        decimal(n / 10).push(digit_char(n % 10))
    }
}

/// Relies on `u64::to_string` (through `Display`): integers print as their
/// decimal numeral.
#[verifier::external_body]
pub(crate) fn decimal_string(n: u64) -> (r: String)
    ensures
        r@ == decimal(n as nat),
{
    n.to_string()
}

/// Relies on `String::from_utf8`: it succeeds exactly on valid UTF-8, and the
/// string then holds the decoded characters.
#[verifier::external_body]
pub(crate) fn utf8_string(b: Vec<u8>) -> (r: Option<String>)
    ensures
        r.is_some() <==> valid_utf8(b@),
        r matches Some(s) ==> s@ == decode_utf8(b@),
{
    String::from_utf8(b).ok()
}

/// No key occurs twice.
pub open spec fn keys_unique<K, V>(s: Seq<(K, V)>) -> bool {
    forall|i: int, j: int|
        0 <= i < s.len() && 0 <= j < s.len() && #[trigger] s[i].0 == #[trigger] s[j].0 ==> i == j
}

/// Whether `k` is a key of `s`.
pub open spec fn has_key<K, V>(s: Seq<(K, V)>, k: K) -> bool {
    exists|i: int| 0 <= i < s.len() && #[trigger] s[i].0 == k
}

/// The position of `k` in `s`, when it is a key.
pub open spec fn key_pos<K, V>(s: Seq<(K, V)>, k: K) -> int {
    choose|i: int| 0 <= i < s.len() && #[trigger] s[i].0 == k
}

/// The value stored under `k`, when it is a key.
pub open spec fn lookup<K, V>(s: Seq<(K, V)>, k: K) -> Option<V> {
    if has_key(s, k) {
        Some(s[key_pos(s, k)].1)
    } else {
        None
    }
}

/// Stores `v` under `k`: an existing entry keeps its place and takes the new
/// value, a new key goes at the end.
pub open spec fn upsert<K, V>(s: Seq<(K, V)>, k: K, v: V) -> Seq<(K, V)> {
    if has_key(s, k) {
        s.update(key_pos(s, k), (k, v))
    } else {
        s.push((k, v))
    }
}

/// Storing keeps the keys unique, and afterwards `k` maps to `v` while every
/// other key keeps its value.
pub proof fn lemma_upsert<K, V>(s: Seq<(K, V)>, k: K, v: V)
    requires
        keys_unique(s),
    ensures
        keys_unique(upsert(s, k, v)),
        lookup(upsert(s, k, v), k) == Some(v),
        forall|k2: K| k2 != k ==> #[trigger] lookup(upsert(s, k, v), k2) == lookup(s, k2),
{
    let t = upsert(s, k, v);
    if has_key(s, k) {
        let p = key_pos(s, k);
        assert(t[p].0 == k);
    } else {
        assert(t[s.len() as int].0 == k);
    }
    assert forall|k2: K| k2 != k implies #[trigger] lookup(t, k2) == lookup(s, k2) by {
        if has_key(s, k2) {
            let q = key_pos(s, k2);
            assert(t[q].0 == k2);
        }
        if has_key(t, k2) {
            let q = key_pos(t, k2);
            assert(s[q].0 == k2);
        }
    }
}

} // verus!

verus! {

/// The characters of a list of string pairs.
pub open spec fn pairs_view(h: Seq<(String, String)>) -> Seq<(Seq<char>, Seq<char>)> {
    h.map_values(|p: (String, String)| (p.0@, p.1@))
}

/// Stores `value` under `name` in a list of string pairs, as `upsert` says.
pub fn upsert_pair(h: &mut Vec<(String, String)>, name: String, value: String)
    requires
        keys_unique(pairs_view(old(h)@)),
    ensures
        pairs_view(final(h)@) == upsert(pairs_view(old(h)@), name@, value@),
{
    let ghost s = pairs_view(h@);
    let n = h.len();
    let mut i: usize = 0;
    while i < n
        invariant
            n == h@.len(),
            s == pairs_view(h@),
            s == pairs_view(old(h)@),
            keys_unique(s),
            i <= n,
            forall|j: int| 0 <= j < i ==> s[j].0 != name@,
        decreases n - i,
    {
        if h[i].0 == name {
            assert(s[i as int].0 == name@);
            assert(has_key(s, name@));
            let ghost p = key_pos(s, name@);
            assert(s[p].0 == name@);
            assert(p == i);
            let ghost old_h = h@;
            h.set(i, (name, value));
            assert(h@ == old_h.update(i as int, (name, value)));
            assert(pairs_view(h@) =~= upsert(s, name@, value@));
            return;
        }
        i = i + 1;
    }
    assert(!has_key(s, name@)) by {
        if has_key(s, name@) {
            let p = key_pos(s, name@);
            assert(s[p].0 == name@);
        }
    }
    h.push((name, value));
    assert(pairs_view(h@) =~= upsert(s, name@, value@));
}

} // verus!

verus! {

/// The value of a string of ASCII digits.
pub open spec fn digits_value(s: Seq<u8>) -> nat
    decreases s.len(),
{
    if s.len() == 0 {
        0
    } else {
        digits_value(s.drop_last()) * 10 + (s.last() - 48) as nat
    }
}

/// Every byte is an ASCII digit.
pub open spec fn all_digits(s: Seq<u8>) -> bool {
    forall|i: int| 0 <= i < s.len() ==> 48 <= #[trigger] s[i] <= 57
}

/// The digits of an unsigned numeral: a leading `+` is allowed.
pub open spec fn numeral_digits(v: Seq<u8>) -> Seq<u8> {
    if v.len() > 0 && v[0] == 43 {
        v.subrange(1, v.len() as int)
    } else {
        v
    }
}

/// An unsigned numeral read as the standard library reads one: an optional
/// `+`, then one or more ASCII digits, with a value of at most `limit`.
pub open spec fn parse_numeral(v: Seq<u8>, limit: nat) -> Option<nat> {
    let ds = numeral_digits(v);
    if ds.len() > 0 && all_digits(ds) && digits_value(ds) <= limit {
        Some(digits_value(ds))
    } else {
        None
    }
}

/// A string of digits is worth at least any of its prefixes.
pub proof fn lemma_digits_prefix(s: Seq<u8>, k: int)
    requires
        0 <= k <= s.len(),
        all_digits(s),
    ensures
        digits_value(s.subrange(0, k)) <= digits_value(s),
    decreases s.len(),
{
    if k < s.len() {
        assert(all_digits(s.drop_last()));
        assert(s.drop_last().subrange(0, k) =~= s.subrange(0, k));
        lemma_digits_prefix(s.drop_last(), k);
    } else {
        assert(s.subrange(0, k) =~= s);
    }
}

/// Reads an unsigned numeral of at most `limit`, as `parse_numeral` says.
pub fn parse_decimal(v: &[u8], limit: u64) -> (r: Option<u64>)
    ensures
        r matches Some(n) ==> parse_numeral(v@, limit as nat) == Some(n as nat),
        r is None ==> parse_numeral(v@, limit as nat) is None,
{
    let start: usize = if v.len() > 0 && v[0] == 43 { 1 } else { 0 };
    let ghost ds = numeral_digits(v@);
    assert(ds =~= v@.subrange(start as int, v@.len() as int));
    if start >= v.len() {
        return None;
    }
    let mut acc: u64 = 0;
    let mut i: usize = start;
    while i < v.len()
        invariant
            start <= i <= v@.len(),
            ds == v@.subrange(start as int, v@.len() as int),
            ds == numeral_digits(v@),
            all_digits(ds.subrange(0, i - start)),
            acc as nat == digits_value(ds.subrange(0, i - start)),
            acc <= limit,
        decreases v@.len() - i,
    {
        let b = v[i];
        if b < 48 || b > 57 {
            assert(ds[i - start] == b);
            assert(!all_digits(ds));
            return None;
        }
        let ghost pre = ds.subrange(0, i - start);
        let ghost next = ds.subrange(0, i - start + 1);
        assert(next.drop_last() =~= pre);
        assert(next.last() == b);
        assert(all_digits(next));
        assert(digits_value(next) == acc * 10 + (b - 48));
        let m = acc.checked_mul(10);
        let n = match m {
            Some(m) => m.checked_add((b - 48) as u64),
            None => None,
        };
        match n {
            Some(n) if n <= limit => {
                acc = n;
            },
            _ => {
                assert(digits_value(next) > limit);
                proof {
                    if all_digits(ds) {
                        lemma_digits_prefix(ds, i - start + 1);
                    }
                }
                return None;
            },
        }
        i = i + 1;
    }
    assert(ds.subrange(0, ds.len() as int) =~= ds);
    Some(acc)
}

} // verus!
