//! Byte-string basics shared across the crate: tracks, genre tags and host
//! settings are all identified by their bytes.

use vstd::prelude::*;

verus! {

/// The byte sequences behind a vector of byte strings.
pub open spec fn views(q: Seq<Vec<u8>>) -> Seq<Seq<u8>> {
    q.map_values(|t: Vec<u8>| t@)
}

/// The position of the first occurrence of `b` in `s`, if any.
pub open spec fn first_index(s: Seq<u8>, b: u8) -> Option<int> {
    if exists|i: int| 0 <= i < s.len() && s[i] == b {
        Some(
            choose|i: int|
                0 <= i < s.len() && s[i] == b && (forall|j: int| 0 <= j < i ==> s[j] != b),
        )
    } else {
        None
    }
}

/// A position holding `b` with nothing but other bytes before it is the
/// first occurrence.
pub proof fn lemma_first_index_at(s: Seq<u8>, b: u8, i: int)
    requires
        0 <= i < s.len(),
        s[i] == b,
        forall|j: int| 0 <= j < i ==> s[j] != b,
    ensures
        first_index(s, b) == Some(i),
{
    assert(exists|k: int| 0 <= k < s.len() && s[k] == b);
    let c = choose|k: int|
        0 <= k < s.len() && s[k] == b && (forall|j: int| 0 <= j < k ==> s[j] != b);
    if c < i {
        assert(s[c] != b);
    }
    if c > i {
        assert(s[i] != b);
    }
    assert(c == i);
}

/// A sequence with no occurrence of `b` has no first occurrence.
pub proof fn lemma_first_index_none(s: Seq<u8>, b: u8)
    requires
        forall|j: int| 0 <= j < s.len() ==> s[j] != b,
    ensures
        first_index(s, b) is None,
{
}

/// Whether two byte strings are the same bytes.
pub fn bytes_eq(a: &Vec<u8>, b: &Vec<u8>) -> (r: bool)
    ensures
        r == (a@ == b@),
{
    if a.len() != b.len() {
        assert(a@ != b@);
        return false;
    }
    let mut i: usize = 0;
    while i < a.len()
        invariant
            0 <= i <= a.len(),
            a@.len() == b@.len(),
            forall|j: int| 0 <= j < i ==> a@[j] == b@[j],
        decreases a.len() - i,
    {
        if a[i] != b[i] {
            assert(a@[i as int] != b@[i as int]);
            return false;
        }
        i += 1;
    }
    assert(a@ =~= b@);
    true
}

/// A fresh copy of a byte string.
pub fn copy_bytes(v: &Vec<u8>) -> (r: Vec<u8>)
    ensures
        r@ == v@,
{
    let mut copy: Vec<u8> = Vec::new();
    let mut i: usize = 0;
    while i < v.len()
        invariant
            0 <= i <= v.len(),
            copy@ == v@.take(i as int),
        decreases v.len() - i,
    {
        copy.push(v[i]);
        assert(copy@ =~= v@.take((i + 1) as int));
        i += 1;
    }
    assert(copy@ =~= v@);
    copy
}

/// A fresh copy of the bytes from position `a` (inclusive) to `b`
/// (exclusive).
pub fn copy_range(v: &Vec<u8>, a: usize, b: usize) -> (r: Vec<u8>)
    requires
        a <= b <= v@.len(),
    ensures
        r@ == v@.subrange(a as int, b as int),
{
    let mut copy: Vec<u8> = Vec::new();
    let mut i: usize = a;
    while i < b
        invariant
            a <= i <= b <= v@.len(),
            copy@ == v@.subrange(a as int, i as int),
        decreases b - i,
    {
        copy.push(v[i]);
        assert(copy@ =~= v@.subrange(a as int, (i + 1) as int));
        i += 1;
    }
    copy
}

/// The first occurrence, if any, characterized.
pub proof fn lemma_first_index_props(s: Seq<u8>, b: u8)
    ensures
        match first_index(s, b) {
            Some(i) => {
                &&& 0 <= i < s.len()
                &&& s[i] == b
                &&& forall|j: int| 0 <= j < i ==> s[j] != b
            },
            None => forall|j: int| 0 <= j < s.len() ==> s[j] != b,
        },
{
    if exists|i: int| 0 <= i < s.len() && s[i] == b {
        let c = choose|i: int|
            0 <= i < s.len() && s[i] == b && (forall|j: int| 0 <= j < i ==> s[j] != b);
        let w = choose|i: int| 0 <= i < s.len() && s[i] == b;
        lemma_exists_first(s, b, w);
    }
}

/// If `b` occurs at all, some first occurrence exists.
proof fn lemma_exists_first(s: Seq<u8>, b: u8, w: int)
    requires
        0 <= w < s.len(),
        s[w] == b,
    ensures
        exists|i: int| 0 <= i < s.len() && s[i] == b && (forall|j: int| 0 <= j < i ==> s[j] != b),
    decreases w,
{
    if forall|j: int| 0 <= j < w ==> s[j] != b {
        assert(0 <= w < s.len() && s[w] == b && (forall|j: int| 0 <= j < w ==> s[j] != b));
    } else {
        let w2 = choose|j: int| 0 <= j < w && s[j] == b;
        lemma_exists_first(s, b, w2);
    }
}

/// Finds the first occurrence of `b` in `v` at or after position `from`.
pub fn find_byte_from(v: &Vec<u8>, b: u8, from: usize) -> (r: Option<usize>)
    requires
        from <= v@.len(),
    ensures
        match r {
            Some(i) => {
                &&& from <= i < v@.len()
                &&& first_index(v@.skip(from as int), b) == Some(i - from)
            },
            None => first_index(v@.skip(from as int), b) is None,
        },
{
    let ghost tail = v@.skip(from as int);
    let mut i: usize = from;
    while i < v.len()
        invariant
            from <= i <= v@.len(),
            tail == v@.skip(from as int),
            forall|j: int| 0 <= j < i - from ==> tail[j] != b,
        decreases v.len() - i,
    {
        assert(tail[i - from] == v@[i as int]);
        if v[i] == b {
            proof {
                lemma_first_index_at(tail, b, i - from);
            }
            return Some(i);
        }
        i += 1;
    }
    proof {
        lemma_first_index_none(tail, b);
    }
    None
}

} // verus!
