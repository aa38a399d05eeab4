//! The order in which provider keys are listed.
//!
//! Keys are strings, and they are listed in the order of `Ord` on `str`: the
//! lexicographic order of their UTF-8 bytes.

use vstd::prelude::*;
use vstd::utf8::*;

verus! {

/// `a` and `b` agree on their first `i` bytes, and `a` is the smaller one at
/// position `i`: either `a` ends there while `b` goes on, or the byte of `a`
/// at `i` is below that of `b`.
pub open spec fn bytes_lt_at(a: Seq<u8>, b: Seq<u8>, i: int) -> bool {
    &&& 0 <= i <= a.len()
    &&& i <= b.len()
    &&& forall|j: int| 0 <= j < i ==> a[j] == b[j]
    &&& ((i == a.len() && i < b.len()) || (i < a.len() && i < b.len() && a[i] < b[i]))
}

/// Strict lexicographic order on byte sequences.
pub open spec fn bytes_lt(a: Seq<u8>, b: Seq<u8>) -> bool {
    exists|i: int| bytes_lt_at(a, b, i)
}

/// Key `a` comes strictly before key `b`: the UTF-8 encoding of `a` is
/// lexicographically smaller than that of `b`, as `Ord` on `str` compares them.
pub open spec fn key_lt(a: Seq<char>, b: Seq<char>) -> bool {
    bytes_lt(encode_utf8(a), encode_utf8(b))
}

/// Every key of `s` comes strictly before every later one (so none occurs twice).
pub open spec fn strictly_sorted(s: Seq<Seq<char>>) -> bool {
    forall|i: int, j: int| 0 <= i < j < s.len() ==> key_lt(s[i], s[j])
}

/// The character sequences of a list of strings.
pub open spec fn key_views(v: Seq<String>) -> Seq<Seq<char>> {
    v.map_values(|s: String| s@)
}

/// The set of keys that a list of strings holds.
pub open spec fn key_set(v: Seq<String>) -> Set<Seq<char>> {
    key_views(v).to_set()
}

/// `s` lists the keys of `keys`, each once, in key order.
pub open spec fn is_sorted_listing(s: Seq<Seq<char>>, keys: Set<Seq<char>>) -> bool {
    &&& strictly_sorted(s)
    &&& s.to_set() == keys
}

/// The outcome of comparing two keys.
#[derive(Clone, Copy, Debug, PartialEq, Eq)]
pub enum KeyOrder {
    Before,
    Same,
    After,
}

/// No key comes before itself.
pub proof fn lemma_key_lt_irreflexive(a: Seq<char>)
    ensures
        !key_lt(a, a),
{
}

/// The key order is transitive.
pub proof fn lemma_key_lt_transitive(a: Seq<char>, b: Seq<char>, c: Seq<char>)
    requires
        key_lt(a, b),
        key_lt(b, c),
    ensures
        key_lt(a, c),
{
    let x = encode_utf8(a);
    let y = encode_utf8(b);
    let z = encode_utf8(c);
    let i = choose|i: int| bytes_lt_at(x, y, i);
    let k = choose|k: int| bytes_lt_at(y, z, k);
    let m = if i < k { i } else { k };
    assert(bytes_lt_at(x, z, m));
}

/// Two keys are never each before the other.
pub proof fn lemma_key_lt_asymmetric(a: Seq<char>, b: Seq<char>)
    requires
        key_lt(a, b),
    ensures
        !key_lt(b, a),
{
    if key_lt(b, a) {
        lemma_key_lt_transitive(a, b, a);
    }
}

/// Compares two keys in key order.
pub fn compare_keys(a: &str, b: &str) -> (r: KeyOrder)
    ensures
        r == KeyOrder::Before <==> key_lt(a@, b@),
        r == KeyOrder::Same <==> a@ == b@,
        r == KeyOrder::After <==> key_lt(b@, a@),
{
    let ab = a.as_bytes();
    let bb = b.as_bytes();
    proof {
        lemma_key_lt_irreflexive(a@);
        lemma_key_lt_irreflexive(b@);
    }
    let n: usize = if ab.len() < bb.len() {
        ab.len()
    } else {
        bb.len()
    };
    let mut i: usize = 0;
    while i < n
        invariant
            ab@ == encode_utf8(a@),
            bb@ == encode_utf8(b@),
            n <= ab@.len(),
            n <= bb@.len(),
            n == ab@.len() || n == bb@.len(),
            i <= n,
            forall|j: int| 0 <= j < i ==> ab@[j] == bb@[j],
        decreases n - i,
    {
        if ab[i] < bb[i] {
            assert(bytes_lt_at(ab@, bb@, i as int));
            proof {
                lemma_key_lt_asymmetric(a@, b@);
            }
            return KeyOrder::Before;
        }
        if bb[i] < ab[i] {
            assert(bytes_lt_at(bb@, ab@, i as int));
            proof {
                lemma_key_lt_asymmetric(b@, a@);
            }
            return KeyOrder::After;
        }
        i = i + 1;
    }
    if ab.len() < bb.len() {
        assert(bytes_lt_at(ab@, bb@, i as int));
        proof {
            lemma_key_lt_asymmetric(a@, b@);
        }
        KeyOrder::Before
    } else if bb.len() < ab.len() {
        assert(bytes_lt_at(bb@, ab@, i as int));
        proof {
            lemma_key_lt_asymmetric(b@, a@);
        }
        KeyOrder::After
    } else {
        assert(ab@ =~= bb@);
        proof {
            encode_utf8_decode_utf8(a@);
            encode_utf8_decode_utf8(b@);
        }
        KeyOrder::Same
    }
}

/// Inserts `key` into the sorted key list `list`, unless it is there already.
pub fn insert_key_sorted(list: &mut Vec<String>, key: &str)
    requires
        strictly_sorted(key_views(old(list)@)),
    ensures
        strictly_sorted(key_views(final(list)@)),
        key_set(final(list)@) == key_set(old(list)@).insert(key@),
{
    let n = list.len();
    let mut p: usize = 0;
    loop
        invariant
            n == list.len(),
            list@ == old(list)@,
            strictly_sorted(key_views(list@)),
            p <= n,
            forall|i: int| 0 <= i < p ==> key_lt(#[trigger] list@[i]@, key@),
        ensures
            n == list.len(),
            list@ == old(list)@,
            p <= n,
            forall|i: int| 0 <= i < p ==> key_lt(#[trigger] list@[i]@, key@),
            p < n ==> key_lt(key@, list@[p as int]@),
        decreases n - p,
    {
        if p == n {
            break;
        }
        match compare_keys(list[p].as_str(), key) {
            KeyOrder::Before => {
                p = p + 1;
            },
            KeyOrder::Same => {
                assert(key_views(list@)[p as int] == key@);
                assert(key_set(list@).insert(key@) =~= key_set(list@));
                return;
            },
            KeyOrder::After => {
                break;
            },
        }
    }
    let ghost before = key_views(list@);
    list.insert(p, key.to_owned());
    let ghost after = key_views(list@);
    assert(after =~= before.insert(p as int, key@));
    assert forall|i: int, j: int| 0 <= i < j < after.len() implies key_lt(after[i], after[j]) by {
        if j < p {
        } else if j == p {
        } else if i < p {
            if j > p + 1 {
                lemma_key_lt_transitive(key@, before[p as int], after[j]);
            }
            lemma_key_lt_transitive(after[i], key@, after[j]);
        } else if i == p {
            if j > p + 1 {
                lemma_key_lt_transitive(key@, before[p as int], after[j]);
            }
        } else {
        }
    }
    assert forall|k: Seq<char>| #[trigger] after.contains(k) <==> before.contains(k) || k == key@ by {
        if after.contains(k) {
            let i = choose|i: int| 0 <= i < after.len() && after[i] == k;
            if i < p {
                assert(before[i] == k);
            } else if i > p {
                assert(before[i - 1] == k);
            }
        }
        if before.contains(k) {
            let i = choose|i: int| 0 <= i < before.len() && before[i] == k;
            if i < p {
                assert(after[i] == k);
            } else {
                assert(after[i + 1] == k);
            }
        }
        if k == key@ {
            assert(after[p as int] == k);
        }
    }
    assert(after.to_set() =~= before.to_set().insert(key@));
}

/// Adds the keys of `keys` to the sorted key list `list`, each once.
pub fn extend_keys_sorted(list: &mut Vec<String>, keys: &Vec<String>)
    requires
        strictly_sorted(key_views(old(list)@)),
    ensures
        strictly_sorted(key_views(final(list)@)),
        key_set(final(list)@) == key_set(old(list)@).union(key_set(keys@)),
{
    let n = keys.len();
    let mut i: usize = 0;
    while i < n
        invariant
            n == keys.len(),
            i <= n,
            strictly_sorted(key_views(list@)),
            key_set(list@) == key_set(old(list)@).union(key_set(keys@.subrange(0, i as int))),
        decreases n - i,
    {
        insert_key_sorted(list, keys[i].as_str());
        assert(key_views(keys@.subrange(0, i + 1)) =~= key_views(keys@.subrange(0, i as int)).push(
            keys@[i as int]@,
        ));
        proof {
            key_views(keys@.subrange(0, i as int)).lemma_push_to_set_commute(keys@[i as int]@);
        }
        assert(key_set(list@) =~= key_set(old(list)@).union(key_set(keys@.subrange(0, i + 1))));
        i = i + 1;
    }
    assert(keys@.subrange(0, n as int) =~= keys@);
}

/// The keys of `keys`, each once, in key order.
pub fn sorted_unique_keys(keys: &Vec<String>) -> (r: Vec<String>)
    ensures
        is_sorted_listing(key_views(r@), key_set(keys@)),
{
    let mut r: Vec<String> = Vec::new();
    assert(key_set(r@) =~= Set::<Seq<char>>::empty());
    extend_keys_sorted(&mut r, keys);
    assert(key_set(r@) =~= key_set(keys@));
    r
}

/// Whether `key` is among the keys of `list`.
pub fn contains_key(list: &Vec<String>, key: &String) -> (b: bool)
    ensures
        b == key_set(list@).contains(key@),
{
    let n = list.len();
    let mut i: usize = 0;
    while i < n
        invariant
            n == list.len(),
            i <= n,
            forall|j: int| 0 <= j < i ==> list@[j]@ != key@,
        decreases n - i,
    {
        if list[i] == *key {
            assert(key_views(list@)[i as int] == key@);
            return true;
        }
        i = i + 1;
    }
    assert(!key_views(list@).contains(key@));
    false
}

/// A set of keys has one sorted listing only: two lists that are both sorted
/// listings of the same set are the same list.
pub proof fn lemma_sorted_listing_unique(s1: Seq<Seq<char>>, s2: Seq<Seq<char>>, keys: Set<Seq<char>>)
    requires
        is_sorted_listing(s1, keys),
        is_sorted_listing(s2, keys),
    ensures
        s1 == s2,
    decreases s1.len(),
{
    if s1.len() == 0 {
        if s2.len() > 0 {
            assert(s2.to_set().contains(s2[0]));
            assert(s1.to_set().contains(s2[0]));
        }
        assert(s1 =~= s2);
    } else if s2.len() == 0 {
        assert(s1.to_set().contains(s1[0]));
        assert(s2.to_set().contains(s1[0]));
    } else {
        assert(s2.to_set().contains(s1[0]));
        assert(s1.to_set().contains(s2[0]));
        let j = choose|j: int| 0 <= j < s2.len() && s2[j] == s1[0];
        let k = choose|k: int| 0 <= k < s1.len() && s1[k] == s2[0];
        if j > 0 && k > 0 {
            lemma_key_lt_asymmetric(s2[0], s1[0]);
        }
        if j == 0 {
        } else {
            lemma_key_lt_irreflexive(s2[0]);
        }
        assert(s1[0] == s2[0]);
        let x = s1[0];
        let t1 = s1.drop_first();
        let t2 = s2.drop_first();
        assert forall|y: Seq<char>| #[trigger] t1.contains(y) <==> keys.remove(x).contains(y) by {
            if t1.contains(y) {
                let i = choose|i: int| 0 <= i < t1.len() && t1[i] == y;
                assert(s1[i + 1] == y);
                lemma_key_lt_irreflexive(x);
            }
            if keys.remove(x).contains(y) {
                assert(s1.to_set().contains(y));
                let i = choose|i: int| 0 <= i < s1.len() && s1[i] == y;
                assert(t1[i - 1] == y);
            }
        }
        assert forall|y: Seq<char>| #[trigger] t2.contains(y) <==> keys.remove(x).contains(y) by {
            if t2.contains(y) {
                let i = choose|i: int| 0 <= i < t2.len() && t2[i] == y;
                assert(s2[i + 1] == y);
                lemma_key_lt_irreflexive(x);
            }
            if keys.remove(x).contains(y) {
                assert(s2.to_set().contains(y));
                let i = choose|i: int| 0 <= i < s2.len() && s2[i] == y;
                assert(t2[i - 1] == y);
            }
        }
        assert(t1.to_set() =~= keys.remove(x));
        assert(t2.to_set() =~= keys.remove(x));
        lemma_sorted_listing_unique(t1, t2, keys.remove(x));
        assert(s1.len() == t1.len() + 1 && s2.len() == t2.len() + 1);
        assert forall|i: int| 0 <= i < s1.len() implies s1[i] == s2[i] by {
            if i > 0 {
                assert(s1[i] == t1[i - 1]);
                assert(s2[i] == t2[i - 1]);
            }
        }
        assert(s1 =~= s2);
    }
}

} // verus!
