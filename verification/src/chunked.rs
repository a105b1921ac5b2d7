//! A chunked read-only map of track paths to analysis vectors.
//!
//! The inspection pages serve the analyzed library in fixed-size pages, so
//! the map is built once: entries are sorted by key and cut into chunks of
//! the requested size, every chunk full except possibly the last.  Lookups
//! first find the chunk holding a key, then the entry.

use vstd::prelude::*;

verus! {

use crate::bytes::bytes_eq;
use crate::genre::copy_weights;
use crate::paths::lemma_lex_lt_transfer;
use crate::paths::lemma_lex_total;
use crate::paths::lex_le_bytes;
use crate::paths::lex_lt;

/// The entries' keys and values, as byte and number sequences.
pub open spec fn pair_views(s: Seq<(Vec<u8>, Vec<i64>)>) -> Seq<(Seq<u8>, Seq<i64>)> {
    s.map_values(|e: (Vec<u8>, Vec<i64>)| (e.0@, e.1@))
}

/// Whether the entries' keys are strictly ascending.
pub open spec fn keys_sorted(s: Seq<(Seq<u8>, Seq<i64>)>) -> bool {
    forall|p: int, q: int| 0 <= p < q < s.len() ==> lex_lt((#[trigger] s[p]).0, (#[trigger] s[q]).0)
}

/// Whether some entry of the chunk holds the key.
pub open spec fn chunk_has_key(c: Seq<(Seq<u8>, Seq<i64>)>, k: Seq<u8>) -> bool {
    exists|j: int| 0 <= j < c.len() && (#[trigger] c[j]).0 == k
}

/// Key-sorted entries cut into fixed-size pages.
pub struct ChunkedReadOnlyHashMap {
    chunks: Vec<Vec<(Vec<u8>, Vec<i64>)>>,
    total_len: usize,
}

/// Adds one entry with a fresh key to a key-sorted run of entries.
fn insert_entry(sorted: &mut Vec<(Vec<u8>, Vec<i64>)>, key: Vec<u8>, value: Vec<i64>)
    requires
        keys_sorted(pair_views(old(sorted)@)),
        forall|i: int| 0 <= i < old(sorted)@.len() ==> (#[trigger] pair_views(old(sorted)@)[i]).0
            != key@,
    ensures
        keys_sorted(pair_views(final(sorted)@)),
        final(sorted)@.len() == old(sorted)@.len() + 1,
        forall|e: (Seq<u8>, Seq<i64>)| #[trigger] pair_views(final(sorted)@).contains(e) <==>
            pair_views(old(sorted)@).contains(e) || e == (key@, value@),
{
    let ghost before = pair_views(sorted@);
    let mut p: usize = 0;
    while p < sorted.len() && lex_le_bytes(&sorted[p].0, &key)
        invariant
            0 <= p <= sorted@.len(),
            before == pair_views(sorted@),
            forall|i: int| 0 <= i < before.len() ==> (#[trigger] before[i]).0 != key@,
            forall|q: int| 0 <= q < p ==> lex_lt((#[trigger] before[q]).0, key@),
        decreases sorted.len() - p,
    {
        assert(before[p as int].0 == sorted@[p as int].0@);
        assert(before[p as int].0 != key@);
        p += 1;
    }
    proof {
        if p < before.len() {
            assert(before[p as int].0 == sorted@[p as int].0@);
            lemma_lex_total(before[p as int].0, key@);
            assert(lex_lt(key@, before[p as int].0));
        }
    }
    sorted.insert(p, (key, value));
    proof {
        let after = pair_views(sorted@);
        assert(after =~= before.take(p as int) + seq![(key@, value@)] + before.skip(p as int));
        assert forall|pp: int, qq: int| 0 <= pp < qq < after.len() implies lex_lt(
            (#[trigger] after[pp]).0,
            (#[trigger] after[qq]).0,
        ) by {
            if pp < p && qq < p {
                assert(after[pp] == before[pp] && after[qq] == before[qq]);
            } else if pp < p && qq == p {
                assert(after[pp] == before[pp] && after[qq].0 == key@);
            } else if pp == p && qq > p {
                assert(after[pp].0 == key@ && after[qq] == before[qq - 1]);
                if qq > p + 1 {
                    lemma_lex_lt_transfer(key@, before[p as int].0, before[qq - 1].0);
                }
            } else if pp < p && qq > p {
                assert(after[pp] == before[pp] && after[qq] == before[qq - 1]);
            } else {
                assert(after[pp] == before[pp - 1] && after[qq] == before[qq - 1]);
            }
        }
        assert forall|e: (Seq<u8>, Seq<i64>)| #[trigger] after.contains(e) <==> before.contains(e)
            || e == (key@, value@) by {
            if after.contains(e) {
                let k = choose|k: int| 0 <= k < after.len() && after[k] == e;
                if k < p {
                    assert(before[k] == e);
                } else if k > p {
                    assert(before[k - 1] == e);
                }
            }
            if before.contains(e) {
                let k = choose|k: int| 0 <= k < before.len() && before[k] == e;
                if k < p {
                    assert(after[k] == e);
                } else {
                    assert(after[k + 1] == e);
                }
            }
            if e == (key@, value@) {
                assert(after[p as int] == e);
            }
        }
    }
}

impl ChunkedReadOnlyHashMap {
    /// The pages' entries, as byte and number sequences.
    pub closed spec fn chunk_seq(self) -> Seq<Seq<(Seq<u8>, Seq<i64>)>> {
        self.chunks@.map_values(|c: Vec<(Vec<u8>, Vec<i64>)>| pair_views(c@))
    }

    /// All entries, in key order.
    pub open spec fn entries(self) -> Seq<(Seq<u8>, Seq<i64>)> {
        self.chunk_seq().flatten()
    }

    /// The number of entries recorded at construction.
    pub closed spec fn total_spec(self) -> int {
        self.total_len as int
    }

    /// Builds the map: the entries, which must carry distinct keys, are
    /// sorted by key and cut into chunks of `chunk_size`, every chunk full
    /// except possibly the last.
    pub fn new(base: Vec<(Vec<u8>, Vec<i64>)>, chunk_size: usize) -> (r: ChunkedReadOnlyHashMap)
        requires
            chunk_size > 0,
            forall|i: int, j: int| 0 <= i < j < base@.len() ==> (#[trigger] base@[i]).0@ != (
            #[trigger] base@[j]).0@,
        ensures
            keys_sorted(r.entries()),
            r.entries().len() == base@.len(),
            r.total_spec() == base@.len(),
            forall|e: (Seq<u8>, Seq<i64>)| #[trigger] r.entries().contains(e) <==> pair_views(
                base@,
            ).contains(e),
            forall|c: int| 0 <= c < r.chunk_seq().len() ==> 0 < (
            #[trigger] r.chunk_seq()[c]).len() <= chunk_size,
            forall|c: int| 0 <= c < r.chunk_seq().len() - 1 ==> (#[trigger] r.chunk_seq()[c]).len()
                == chunk_size,
    {
        broadcast use vstd::seq::Seq::lemma_flatten_push;

        let ghost orig = pair_views(base@);
        let total = base.len();
        let mut base = base;
        let mut sorted: Vec<(Vec<u8>, Vec<i64>)> = Vec::new();
        proof {
            assert(pair_views(base@) =~= orig);
            assert(orig.skip(base@.len() as int) =~= Seq::<(Seq<u8>, Seq<i64>)>::empty());
        }
        while base.len() > 0
            invariant
                base@.len() <= orig.len() == total,
                pair_views(base@) =~= orig.take(base@.len() as int),
                forall|i: int, j: int| 0 <= i < j < orig.len() ==> (#[trigger] orig[i]).0 != (
                #[trigger] orig[j]).0,
                keys_sorted(pair_views(sorted@)),
                sorted@.len() + base@.len() == total,
                forall|e: (Seq<u8>, Seq<i64>)| #[trigger] pair_views(sorted@).contains(e) <==>
                    orig.skip(base@.len() as int).contains(e),
            decreases base.len(),
        {
            let ghost k = base@.len() as int;
            let ghost prior = base@;
            let e = match base.pop() {
                Some(e) => e,
                None => {
                    proof {
                        assert(false);
                    }
                    (Vec::new(), Vec::new())
                },
            };
            proof {
                assert(pair_views(base@) =~= orig.take(k - 1));
                assert(e == prior[k - 1]);
                assert(pair_views(prior)[k - 1] == (prior[k - 1].0@, prior[k - 1].1@));
                assert(pair_views(prior) == orig.take(k));
                assert(orig.take(k)[k - 1] == orig[k - 1]);
                assert((e.0@, e.1@) == orig[k - 1]);
                assert forall|i: int| 0 <= i < sorted@.len() implies (#[trigger] pair_views(
                    sorted@,
                )[i]).0 != e.0@ by {
                    assert(pair_views(sorted@).contains(pair_views(sorted@)[i]));
                    let j = choose|j: int|
                        0 <= j < orig.skip(k).len() && orig.skip(k)[j] == pair_views(sorted@)[i];
                    assert(orig[j + k] == pair_views(sorted@)[i]);
                    assert(orig[k - 1].0 != orig[j + k].0);
                }
            }
            let ghost before = pair_views(sorted@);
            insert_entry(&mut sorted, e.0, e.1);
            proof {
                let shorter = orig.skip(k);
                let longer = orig.skip(k - 1);
                assert forall|x: (Seq<u8>, Seq<i64>)| #[trigger] pair_views(sorted@).contains(x)
                    <==> longer.contains(x) by {
                    assert(pair_views(sorted@).contains(x) <==> before.contains(x) || x == orig[k
                        - 1]);
                    if longer.contains(x) {
                        let j = choose|j: int| 0 <= j < longer.len() && longer[j] == x;
                        if j > 0 {
                            assert(shorter[j - 1] == x);
                        } else {
                            assert(x == orig[k - 1]);
                        }
                    }
                    if shorter.contains(x) {
                        let j = choose|j: int| 0 <= j < shorter.len() && shorter[j] == x;
                        assert(longer[j + 1] == x);
                    }
                    if x == orig[k - 1] {
                        assert(longer[0] == x);
                    }
                }
            }
        }
        proof {
            assert(orig.skip(0) =~= orig);
        }
        let ghost all = pair_views(sorted@);
        let mut chunks: Vec<Vec<(Vec<u8>, Vec<i64>)>> = Vec::new();
        let mut rest = sorted;
        proof {
            assert(chunks@.map_values(|c: Vec<(Vec<u8>, Vec<i64>)>| pair_views(c@)) =~= Seq::<
                Seq<(Seq<u8>, Seq<i64>)>,
            >::empty());
            assert(Seq::<Seq<(Seq<u8>, Seq<i64>)>>::empty().flatten() =~= Seq::<
                (Seq<u8>, Seq<i64>),
            >::empty());
        }
        while rest.len() > chunk_size
            invariant
                chunk_size > 0,
                all == chunks@.map_values(|c: Vec<(Vec<u8>, Vec<i64>)>| pair_views(c@)).flatten()
                    + pair_views(rest@),
                forall|c: int| 0 <= c < chunks@.len() ==> (#[trigger] chunks@[c])@.len()
                    == chunk_size,
            decreases rest.len(),
        {
            let ghost css = chunks@.map_values(|c: Vec<(Vec<u8>, Vec<i64>)>| pair_views(c@));
            let ghost whole = pair_views(rest@);
            let tail = rest.split_off(chunk_size);
            proof {
                assert(pair_views(rest@) =~= whole.take(chunk_size as int));
                assert(pair_views(tail@) =~= whole.skip(chunk_size as int));
            }
            let ghost head = pair_views(rest@);
            chunks.push(rest);
            proof {
                assert(chunks@.map_values(|c: Vec<(Vec<u8>, Vec<i64>)>| pair_views(c@)) =~= css.push(
                    head,
                ));
                css.lemma_flatten_push(head);
                assert(css.flatten() + head + whole.skip(chunk_size as int) =~= css.flatten()
                    + whole);
            }
            rest = tail;
        }
        if rest.len() > 0 {
            let ghost css = chunks@.map_values(|c: Vec<(Vec<u8>, Vec<i64>)>| pair_views(c@));
            let ghost head = pair_views(rest@);
            let ghost nchunks = css.len();
            chunks.push(rest);
            proof {
                assert(chunks@.map_values(|c: Vec<(Vec<u8>, Vec<i64>)>| pair_views(c@)) =~= css.push(
                    head,
                ));
                css.lemma_flatten_push(head);
                assert(css.flatten() + head =~= all);
                assert forall|c: int| 0 <= c < css.push(head).len() - 1 implies (#[trigger] css.push(
                    head,
                )[c]).len() == chunk_size by {
                    assert(css.push(head)[c] == css[c]);
                }
            }
        } else {
            proof {
                let css = chunks@.map_values(|c: Vec<(Vec<u8>, Vec<i64>)>| pair_views(c@));
                assert(pair_views(rest@) =~= Seq::<(Seq<u8>, Seq<i64>)>::empty());
                assert(css.flatten() + pair_views(rest@) =~= css.flatten());
            }
        }
        let r = ChunkedReadOnlyHashMap { chunks, total_len: total };
        proof {
            assert(r.entries() =~= all);
        }
        r
    }

    /// How many pages the map holds.
    pub fn num_chunks(&self) -> (r: usize)
        ensures
            r == self.chunk_seq().len(),
    {
        self.chunks.len()
    }

    /// How many entries the map was built from.
    pub fn total_len(&self) -> (r: usize)
        ensures
            r == self.total_spec(),
    {
        self.total_len
    }

    /// The index of the first chunk holding the key, if any chunk does.
    pub fn get_chunk_index(&self, key: &Vec<u8>) -> (r: Option<usize>)
        ensures
            match r {
                Some(i) => {
                    &&& 0 <= i < self.chunk_seq().len()
                    &&& chunk_has_key(self.chunk_seq()[i as int], key@)
                    &&& forall|c: int| 0 <= c < i ==> !chunk_has_key(
                        #[trigger] self.chunk_seq()[c],
                        key@,
                    )
                },
                None => forall|c: int| 0 <= c < self.chunk_seq().len() ==> !chunk_has_key(
                    #[trigger] self.chunk_seq()[c],
                    key@,
                ),
            },
    {
        let mut i: usize = 0;
        while i < self.chunks.len()
            invariant
                0 <= i <= self.chunks@.len(),
                forall|c: int| 0 <= c < i ==> !chunk_has_key(#[trigger] self.chunk_seq()[c], key@),
            decreases self.chunks.len() - i,
        {
            assert(self.chunk_seq()[i as int] == pair_views(self.chunks@[i as int]@));
            match entry_index(&self.chunks[i], key) {
                Some(_) => {
                    return Some(i);
                },
                None => {},
            }
            i += 1;
        }
        None
    }

    /// The value stored under the key, if any, copied out.
    pub fn get(&self, key: Vec<u8>) -> (r: Option<Vec<i64>>)
        ensures
            match r {
                Some(v) => exists|c: int, j: int|
                    0 <= c < self.chunk_seq().len() && 0 <= j < self.chunk_seq()[c].len() && (
                    #[trigger] self.chunk_seq()[c][j]) == (key@, v@),
                None => forall|c: int| 0 <= c < self.chunk_seq().len() ==> !chunk_has_key(
                    #[trigger] self.chunk_seq()[c],
                    key@,
                ),
            },
    {
        match self.get_chunk_index(&key) {
            None => None,
            Some(i) => {
                assert(self.chunk_seq()[i as int] == pair_views(self.chunks@[i as int]@));
                match entry_index(&self.chunks[i], &key) {
                    Some(j) => {
                        let v = copy_weights(&self.chunks[i][j].1);
                        proof {
                            assert(self.chunk_seq()[i as int][j as int] == (key@, v@));
                        }
                        Some(v)
                    },
                    None => {
                        proof {
                            let j = choose|j: int|
                                0 <= j < self.chunk_seq()[i as int].len() && (
                                #[trigger] self.chunk_seq()[i as int][j]).0 == key@;
                            assert(false);
                        }
                        None
                    },
                }
            },
        }
    }

    /// The chunk at the index, if it exists.
    pub fn get_chunk_at_index(&self, idx: usize) -> (r: Option<&Vec<(Vec<u8>, Vec<i64>)>>)
        ensures
            match r {
                Some(c) => 0 <= idx < self.chunk_seq().len() && pair_views(c@)
                    == self.chunk_seq()[idx as int],
                None => idx >= self.chunk_seq().len(),
            },
    {
        if idx < self.chunks.len() {
            Some(&self.chunks[idx])
        } else {
            None
        }
    }
}

/// The position of the first entry holding the key in one chunk.
fn entry_index(chunk: &Vec<(Vec<u8>, Vec<i64>)>, key: &Vec<u8>) -> (r: Option<usize>)
    ensures
        match r {
            Some(j) => 0 <= j < pair_views(chunk@).len() && pair_views(chunk@)[j as int].0 == key@,
            None => !chunk_has_key(pair_views(chunk@), key@),
        },
{
    let mut j: usize = 0;
    while j < chunk.len()
        invariant
            0 <= j <= chunk@.len(),
            forall|q: int| 0 <= q < j ==> (#[trigger] pair_views(chunk@)[q]).0 != key@,
        decreases chunk.len() - j,
    {
        assert(pair_views(chunk@)[j as int].0 == chunk@[j as int].0@);
        if bytes_eq(&chunk[j].0, key) {
            return Some(j);
        }
        j += 1;
    }
    proof {
        if chunk_has_key(pair_views(chunk@), key@) {
            let q = choose|q: int|
                0 <= q < pair_views(chunk@).len() && (#[trigger] pair_views(chunk@)[q]).0 == key@;
            assert(false);
        }
    }
    None
}

} // verus!
