//! The genre-weight metric.
//!
//! A weight table maps a genre name to a fixed-dimension vector of
//! fixed-point weights (scaled integers, bounded by [`WEIGHT_LIMIT`]).  A
//! track's own weight vector is the element-wise mean of the vectors of its
//! comma-separated genre tags; tags absent from the table are silently
//! dropped, and a track whose tags resolve to nothing collapses to the zero
//! vector, so untagged tracks still rank (maximally distant from anything
//! with real tags).  The same table shape also carries per-track weights
//! keyed by track path.

use vstd::prelude::*;

verus! {

use crate::bytes::bytes_eq;
use crate::bytes::copy_range;
use crate::bytes::find_byte_from;
use crate::bytes::lemma_first_index_props;
use crate::bytes::views;

/// Every weight is a fixed-point value in `-WEIGHT_LIMIT ..= WEIGHT_LIMIT`.
pub const WEIGHT_LIMIT: i64 = 1_000_000;

/// Why a weight-table entry was rejected: the configuration is malformed.
#[derive(Clone, Copy, Debug, PartialEq, Eq, Structural)]
pub enum WeightError {
    /// The vector's length is not the table's dimension.
    WrongDimension,
    /// A weight lies outside `-WEIGHT_LIMIT ..= WEIGHT_LIMIT`.
    OutOfRange,
    /// The key is already present.
    DuplicateKey,
}

/// Whether `w` is a well-formed weight vector of dimension `dim`.
pub open spec fn entry_wf(w: Seq<i64>, dim: int) -> bool {
    &&& w.len() == dim
    &&& forall|j: int| 0 <= j < w.len() ==> -WEIGHT_LIMIT <= #[trigger] w[j] <= WEIGHT_LIMIT
}

/// Whether a table is well-formed: every vector has the table's dimension
/// and bounded weights, and keys are distinct.
pub open spec fn table_wf(t: Seq<(Seq<u8>, Seq<i64>)>, dim: int) -> bool {
    &&& forall|i: int| 0 <= i < t.len() ==> entry_wf((#[trigger] t[i]).1, dim)
    &&& forall|i: int, j: int| 0 <= i < j < t.len() ==> (#[trigger] t[i]).0 != (#[trigger] t[j]).0
}

/// The value stored under `k`, if any.
pub open spec fn lookup(t: Seq<(Seq<u8>, Seq<i64>)>, k: Seq<u8>) -> Option<Seq<i64>>
    decreases t.len(),
{
    if t.len() == 0 {
        None
    } else if t[0].0 == k {
        Some(t[0].1)
    } else {
        lookup(t.drop_first(), k)
    }
}

/// A found value sits at some entry; a miss means no entry has the key.
pub proof fn lemma_lookup_props(t: Seq<(Seq<u8>, Seq<i64>)>, k: Seq<u8>)
    ensures
        match lookup(t, k) {
            Some(w) => exists|i: int| 0 <= i < t.len() && (#[trigger] t[i]).0 == k && t[i].1 == w,
            None => forall|i: int| 0 <= i < t.len() ==> (#[trigger] t[i]).0 != k,
        },
    decreases t.len(),
{
    if t.len() > 0 && t[0].0 != k {
        lemma_lookup_props(t.drop_first(), k);
        match lookup(t.drop_first(), k) {
            Some(w) => {
                let i = choose|i: int|
                    0 <= i < t.drop_first().len() && (#[trigger] t.drop_first()[i]).0 == k
                        && t.drop_first()[i].1 == w;
                assert(t[i + 1].0 == k && t[i + 1].1 == w);
            },
            None => {
                assert forall|i: int| 0 <= i < t.len() implies (#[trigger] t[i]).0 != k by {
                    if i > 0 {
                        assert(t.drop_first()[i - 1].0 != k);
                    }
                }
            },
        }
    }
}

/// If the first matching entry is at `i`, the lookup finds its value.
pub proof fn lemma_lookup_at(t: Seq<(Seq<u8>, Seq<i64>)>, k: Seq<u8>, i: int)
    requires
        0 <= i < t.len(),
        t[i].0 == k,
        forall|j: int| 0 <= j < i ==> (#[trigger] t[j]).0 != k,
    ensures
        lookup(t, k) == Some(t[i].1),
    decreases i,
{
    if i > 0 {
        assert forall|j: int| 0 <= j < i - 1 implies (#[trigger] t.drop_first()[j]).0 != k by {
            assert(t[j + 1].0 != k);
        }
        lemma_lookup_at(t.drop_first(), k, i - 1);
    }
}

/// A table of genre (or track) weight vectors, all of one dimension.
pub struct WeightTable {
    entries: Vec<(Vec<u8>, Vec<i64>)>,
    dim: usize,
}

impl WeightTable {
    /// The table's entries, as key and vector bytes.
    pub closed spec fn table(self) -> Seq<(Seq<u8>, Seq<i64>)> {
        self.entries@.map_values(|e: (Vec<u8>, Vec<i64>)| (e.0@, e.1@))
    }

    /// The dimension every vector in the table has.
    pub closed spec fn dim_spec(self) -> int {
        self.dim as int
    }

    /// The table invariant every operation preserves.
    pub open spec fn wf(self) -> bool {
        table_wf(self.table(), self.dim_spec())
    }

    /// An empty table of the given dimension.
    pub fn new(dim: usize) -> (r: WeightTable)
        ensures
            r.wf(),
            r.table().len() == 0,
            r.dim_spec() == dim,
    {
        let r = WeightTable { entries: Vec::new(), dim };
        proof {
            assert(r.table() =~= Seq::<(Seq<u8>, Seq<i64>)>::empty());
        }
        r
    }

    /// The table's dimension.
    pub fn dimension(&self) -> (r: usize)
        ensures
            r == self.dim_spec(),
    {
        self.dim
    }

    /// How many keys the table holds.
    pub fn len(&self) -> (r: usize)
        ensures
            r == self.table().len(),
    {
        self.entries.len()
    }

    /// Adds one entry.  The vector must have the table's dimension and
    /// bounded weights, and the key must be new; a malformed entry is a
    /// configuration error and leaves the table unchanged.
    pub fn insert(&mut self, key: Vec<u8>, weights: Vec<i64>) -> (r: Result<(), WeightError>)
        requires
            old(self).wf(),
        ensures
            final(self).wf(),
            final(self).dim_spec() == old(self).dim_spec(),
            match r {
                Ok(()) => {
                    &&& entry_wf(weights@, old(self).dim_spec())
                    &&& lookup(old(self).table(), key@) is None
                    &&& final(self).table() == old(self).table().push((key@, weights@))
                },
                Err(e) => {
                    &&& *final(self) == *old(self)
                    &&& (e == WeightError::WrongDimension <==> weights@.len() != old(
                        self,
                    ).dim_spec())
                    &&& (e == WeightError::OutOfRange <==> weights@.len() == old(self).dim_spec()
                        && !entry_wf(weights@, old(self).dim_spec()))
                    &&& (e == WeightError::DuplicateKey <==> entry_wf(weights@, old(self).dim_spec())
                        && lookup(old(self).table(), key@) is Some)
                },
            },
    {
        if weights.len() != self.dim {
            return Err(WeightError::WrongDimension);
        }
        let mut j: usize = 0;
        while j < weights.len()
            invariant
                0 <= j <= weights@.len(),
                *self == *old(self),
                self.wf(),
                weights@.len() == self.dim_spec(),
                forall|jj: int| 0 <= jj < j ==> -WEIGHT_LIMIT <= #[trigger] weights@[jj]
                    <= WEIGHT_LIMIT,
            decreases weights.len() - j,
        {
            if weights[j] < -WEIGHT_LIMIT || weights[j] > WEIGHT_LIMIT {
                proof {
                    assert(!(-WEIGHT_LIMIT <= weights@[j as int] <= WEIGHT_LIMIT));
                    assert(!entry_wf(weights@, self.dim_spec()));
                }
                return Err(WeightError::OutOfRange);
            }
            j += 1;
        }
        assert(entry_wf(weights@, self.dim_spec()));
        if self.contains_key(&key) {
            return Err(WeightError::DuplicateKey);
        }
        proof {
            lemma_lookup_props(self.table(), key@);
        }
        let ghost before = self.table();
        self.entries.push((key, weights));
        proof {
            assert(self.table() =~= before.push((key@, weights@)));
        }
        Ok(())
    }

    /// Whether the table holds the key.
    pub fn contains_key(&self, key: &Vec<u8>) -> (r: bool)
        ensures
            r == (lookup(self.table(), key@) is Some),
    {
        match self.get(key) {
            Some(_) => true,
            None => false,
        }
    }

    /// The vector stored under the key, if any.
    pub fn get(&self, key: &Vec<u8>) -> (r: Option<&Vec<i64>>)
        ensures
            match r {
                Some(w) => lookup(self.table(), key@) == Some(w@),
                None => lookup(self.table(), key@) is None,
            },
    {
        let mut i: usize = 0;
        while i < self.entries.len()
            invariant
                0 <= i <= self.entries@.len(),
                forall|j: int| 0 <= j < i ==> (#[trigger] self.table()[j]).0 != key@,
            decreases self.entries.len() - i,
        {
            assert(self.table()[i as int].0 == self.entries@[i as int].0@);
            if bytes_eq(&self.entries[i].0, key) {
                proof {
                    lemma_lookup_at(self.table(), key@, i as int);
                }
                return Some(&self.entries[i].1);
            }
            i += 1;
        }
        proof {
            lemma_lookup_props(self.table(), key@);
            if lookup(self.table(), key@) is Some {
                let w = choose|i2: int|
                    0 <= i2 < self.table().len() && (#[trigger] self.table()[i2]).0 == key@;
                assert(false);
            }
        }
        None
    }
}

/// The zero vector of the given dimension.
pub open spec fn zero_weights_spec(dim: int) -> Seq<i64> {
    Seq::new(dim as nat, |j: int| 0i64)
}

/// A fresh zero vector.
pub fn zero_weights(dim: usize) -> (r: Vec<i64>)
    ensures
        r@ == zero_weights_spec(dim as int),
{
    let mut out: Vec<i64> = Vec::new();
    let mut j: usize = 0;
    while j < dim
        invariant
            0 <= j <= dim,
            out@.len() == j,
            forall|jj: int| 0 <= jj < j ==> out@[jj] == 0i64,
        decreases dim - j,
    {
        out.push(0i64);
        j += 1;
    }
    assert(out@ =~= zero_weights_spec(dim as int));
    out
}

/// A comma-separated string's tags, in order.  An empty string is one empty
/// tag; empty segments between commas are kept (and never resolve).
pub open spec fn split_tags_spec(s: Seq<u8>) -> Seq<Seq<u8>>
    decreases s.len(),
{
    if s.len() == 0 {
        seq![Seq::<u8>::empty()]
    } else if s[0] == 44u8 {
        seq![Seq::<u8>::empty()] + split_tags_spec(s.skip(1))
    } else {
        let rest = split_tags_spec(s.skip(1));
        seq![seq![s[0]] + rest[0]] + rest.skip(1)
    }
}

/// Splitting always yields at least one tag.
pub proof fn lemma_split_nonempty(s: Seq<u8>)
    ensures
        split_tags_spec(s).len() >= 1,
    decreases s.len(),
{
    if s.len() > 0 {
        lemma_split_nonempty(s.skip(1));
    }
}

/// A string without a comma is a single tag.
pub proof fn lemma_split_no_comma(s: Seq<u8>)
    requires
        forall|j: int| 0 <= j < s.len() ==> s[j] != 44u8,
    ensures
        split_tags_spec(s) == seq![s],
    decreases s.len(),
{
    if s.len() == 0 {
        assert(s =~= Seq::<u8>::empty());
        assert(split_tags_spec(s) =~= seq![s]);
    } else {
        assert forall|j: int| 0 <= j < s.skip(1).len() implies s.skip(1)[j] != 44u8 by {
            assert(s.skip(1)[j] == s[j + 1]);
        }
        lemma_split_no_comma(s.skip(1));
        let rest = split_tags_spec(s.skip(1));
        assert(s[0] != 44u8);
        assert(split_tags_spec(s) == seq![seq![s[0]] + rest[0]] + rest.skip(1));
        assert(rest[0] == s.skip(1));
        assert(seq![s[0]] + s.skip(1) =~= s);
        assert(rest.skip(1) =~= Seq::<Seq<u8>>::empty());
        assert(split_tags_spec(s) =~= seq![s]);
    }
}

/// Splitting at the first comma: the prefix is the first tag, the rest
/// splits on its own.
pub proof fn lemma_split_at_comma(s: Seq<u8>, i: int)
    requires
        0 <= i < s.len(),
        s[i] == 44u8,
        forall|j: int| 0 <= j < i ==> s[j] != 44u8,
    ensures
        split_tags_spec(s) == seq![s.take(i)] + split_tags_spec(s.skip(i + 1)),
    decreases i,
{
    if i == 0 {
        assert(s.take(0) =~= Seq::<u8>::empty());
        assert(split_tags_spec(s) =~= seq![s.take(0)] + split_tags_spec(s.skip(1)));
    } else {
        let tail = s.skip(1);
        assert(tail[i - 1] == s[i as int]);
        assert forall|j: int| 0 <= j < i - 1 implies tail[j] != 44u8 by {
            assert(tail[j] == s[j + 1]);
        }
        lemma_split_at_comma(tail, i - 1);
        let rest = split_tags_spec(tail);
        assert(rest[0] == tail.take(i - 1));
        assert(seq![s[0]] + tail.take(i - 1) =~= s.take(i));
        assert(rest.skip(1) =~= split_tags_spec(tail.skip(i as int)));
        assert(tail.skip(i as int) =~= s.skip(i + 1));
        assert(split_tags_spec(s) =~= seq![s.take(i)] + split_tags_spec(s.skip(i + 1)));
    }
}

/// Splits a genre string on commas.
pub fn split_tags(genres: &Vec<u8>) -> (r: Vec<Vec<u8>>)
    ensures
        views(r@) == split_tags_spec(genres@),
{
    let mut out: Vec<Vec<u8>> = Vec::new();
    let mut start: usize = 0;
    proof {
        assert(views(out@) =~= Seq::<Seq<u8>>::empty());
        assert(genres@.skip(0) =~= genres@);
        assert(split_tags_spec(genres@) =~= views(out@) + split_tags_spec(genres@.skip(0)));
    }
    loop
        invariant
            0 <= start <= genres@.len(),
            split_tags_spec(genres@) =~= views(out@) + split_tags_spec(
                genres@.skip(start as int),
            ),
        decreases genres@.len() - start,
    {
        let ghost tail = genres@.skip(start as int);
        match find_byte_from(genres, 44u8, start) {
            Some(i) => {
                assert(i < genres.len());
                proof {
                    lemma_first_index_props(tail, 44u8);
                    lemma_split_at_comma(tail, i - start);
                    assert(tail.take(i - start) =~= genres@.subrange(start as int, i as int));
                    assert(tail.skip(i - start + 1) =~= genres@.skip(i + 1));
                }
                let seg = copy_range(genres, start, i);
                let ghost before = views(out@);
                out.push(seg);
                proof {
                    assert(views(out@) =~= before.push(seg@));
                    assert(views(out@) + split_tags_spec(genres@.skip(i + 1)) =~= before + (seq![
                        seg@,
                    ] + split_tags_spec(genres@.skip(i + 1))));
                }
                start = i + 1;
            },
            None => {
                proof {
                    lemma_first_index_props(tail, 44u8);
                    lemma_split_no_comma(tail);
                }
                let seg = copy_range(genres, start, genres.len());
                let ghost before = views(out@);
                out.push(seg);
                proof {
                    assert(seg@ =~= tail);
                    assert(views(out@) =~= before.push(seg@));
                    assert(before + seq![tail] =~= before.push(seg@));
                    assert(views(out@) =~= split_tags_spec(genres@));
                }
                return out;
            },
        }
    }
}

/// The weight vectors that a list of tags resolves to, in order, with
/// unresolved tags dropped.
pub open spec fn resolved(t: Seq<(Seq<u8>, Seq<i64>)>, tags: Seq<Seq<u8>>) -> Seq<Seq<i64>>
    decreases tags.len(),
{
    if tags.len() == 0 {
        Seq::empty()
    } else {
        let rest = resolved(t, tags.drop_first());
        match lookup(t, tags.first()) {
            Some(w) => seq![w] + rest,
            None => rest,
        }
    }
}

/// Resolving one more tag at the end appends its vector, if it has one.
pub proof fn lemma_resolved_push(t: Seq<(Seq<u8>, Seq<i64>)>, tags: Seq<Seq<u8>>, x: Seq<u8>)
    ensures
        resolved(t, tags.push(x)) == match lookup(t, x) {
            Some(w) => resolved(t, tags).push(w),
            None => resolved(t, tags),
        },
    decreases tags.len(),
{
    let p = tags.push(x);
    if tags.len() == 0 {
        assert(p.first() == x);
        assert(p.drop_first() =~= Seq::<Seq<u8>>::empty());
        assert(resolved(t, Seq::<Seq<u8>>::empty()) =~= Seq::<Seq<i64>>::empty());
        assert(resolved(t, tags) =~= Seq::<Seq<i64>>::empty());
        match lookup(t, x) {
            Some(w) => {
                assert(resolved(t, p) =~= resolved(t, tags).push(w));
            },
            None => {
                assert(resolved(t, p) =~= resolved(t, tags));
            },
        }
    } else {
        assert(p.first() == tags.first());
        assert(p.drop_first() =~= tags.drop_first().push(x));
        lemma_resolved_push(t, tags.drop_first(), x);
        match lookup(t, x) {
            Some(w) => {
                match lookup(t, tags.first()) {
                    Some(w0) => {
                        assert(seq![w0] + resolved(t, tags.drop_first()).push(w) =~= (seq![w0]
                            + resolved(t, tags.drop_first())).push(w));
                    },
                    None => {},
                }
            },
            None => {},
        }
    }
}

/// Every resolved vector is a well-formed entry of the table.
pub proof fn lemma_resolved_wf(t: Seq<(Seq<u8>, Seq<i64>)>, dim: int, tags: Seq<Seq<u8>>)
    requires
        table_wf(t, dim),
    ensures
        forall|i: int| 0 <= i < resolved(t, tags).len() ==> entry_wf(
            #[trigger] resolved(t, tags)[i],
            dim,
        ),
    decreases tags.len(),
{
    if tags.len() == 0 {
        assert(resolved(t, tags).len() == 0);
    } else {
        lemma_resolved_wf(t, dim, tags.drop_first());
        let rest = resolved(t, tags.drop_first());
        match lookup(t, tags.first()) {
            Some(w) => {
                lemma_lookup_props(t, tags.first());
                assert(resolved(t, tags) == seq![w] + rest);
                let e = choose|e: int|
                    0 <= e < t.len() && (#[trigger] t[e]).0 == tags.first() && t[e].1 == w;
                assert(entry_wf(t[e].1, dim));
                assert forall|i: int| 0 <= i < resolved(t, tags).len() implies entry_wf(
                    #[trigger] resolved(t, tags)[i],
                    dim,
                ) by {
                    if i > 0 {
                        assert(resolved(t, tags)[i] == rest[i - 1]);
                    } else {
                        assert(resolved(t, tags)[0] == w);
                    }
                }
            },
            None => {
                assert(resolved(t, tags) == rest);
                assert forall|i: int| 0 <= i < resolved(t, tags).len() implies entry_wf(
                    #[trigger] resolved(t, tags)[i],
                    dim,
                ) by {
                    assert(resolved(t, tags)[i] == rest[i]);
                }
            },
        }
    }
}

/// The sum of the resolved vectors' components at position `j`.
pub open spec fn sum_at(vs: Seq<Seq<i64>>, j: int) -> int
    decreases vs.len(),
{
    if vs.len() == 0 {
        0
    } else {
        vs.first()[j] + sum_at(vs.drop_first(), j)
    }
}

/// Appending a vector adds its component to the sum.
pub proof fn lemma_sum_at_push(vs: Seq<Seq<i64>>, v: Seq<i64>, j: int)
    ensures
        sum_at(vs.push(v), j) == sum_at(vs, j) + v[j],
    decreases vs.len(),
{
    let p = vs.push(v);
    if vs.len() == 0 {
        assert(p.first() == v);
        assert(p.drop_first() =~= Seq::<Seq<i64>>::empty());
        assert(sum_at(Seq::<Seq<i64>>::empty(), j) == 0);
        assert(sum_at(p, j) == v[j] + sum_at(p.drop_first(), j));
    } else {
        assert(p.first() == vs.first());
        assert(p.drop_first() =~= vs.drop_first().push(v));
        lemma_sum_at_push(vs.drop_first(), v, j);
    }
}

/// A sum of bounded components is bounded by the count times the limit.
pub proof fn lemma_sum_at_bound(vs: Seq<Seq<i64>>, dim: int, j: int)
    requires
        forall|i: int| 0 <= i < vs.len() ==> entry_wf(#[trigger] vs[i], dim),
        0 <= j < dim,
    ensures
        -(vs.len() * WEIGHT_LIMIT) <= sum_at(vs, j) <= vs.len() * WEIGHT_LIMIT,
    decreases vs.len(),
{
    if vs.len() > 0 {
        assert forall|i: int| 0 <= i < vs.drop_first().len() implies entry_wf(
            #[trigger] vs.drop_first()[i],
            dim,
        ) by {
            assert(vs.drop_first()[i] == vs[i + 1]);
        }
        lemma_sum_at_bound(vs.drop_first(), dim, j);
        assert(entry_wf(vs[0], dim));
    }
}

/// Division truncated toward zero, for a positive divisor.
pub open spec fn trunc_div(x: int, d: int) -> int {
    if x >= 0 {
        x / d
    } else {
        -((-x) / d)
    }
}

/// The mean of the resolved vectors' components at position `j`, truncated
/// toward zero.
pub open spec fn mean_at(vs: Seq<Seq<i64>>, j: int) -> i64 {
    trunc_div(sum_at(vs, j), vs.len() as int) as i64
}

/// What a genre string collapses to: the zero vector for an empty string or
/// when no tag resolves, otherwise the element-wise truncated mean of the
/// resolved vectors.
pub open spec fn collapsed(t: Seq<(Seq<u8>, Seq<i64>)>, dim: int, genres: Seq<u8>) -> Seq<i64> {
    if genres.len() == 0 {
        zero_weights_spec(dim)
    } else {
        let vs = resolved(t, split_tags_spec(genres));
        if vs.len() == 0 {
            zero_weights_spec(dim)
        } else {
            Seq::new(dim as nat, |j: int| mean_at(vs, j))
        }
    }
}

/// Prepending an element inserts it into the multiset view.
pub proof fn lemma_prepend_multiset<A>(x: A, s: Seq<A>)
    ensures
        (seq![x] + s).to_multiset() == s.to_multiset().insert(x),
{
    broadcast use vstd::seq_lib::group_to_multiset_ensures;

    vstd::seq_lib::lemma_multiset_commutative(seq![x], s);
    assert(s + seq![x] =~= s.push(x));
    assert((seq![x] + s).to_multiset() =~= s.to_multiset().insert(x));
}

/// Dropping the tag at `k` drops exactly its resolved vector (if any) from
/// the resolved multiset.
proof fn lemma_resolved_remove(t: Seq<(Seq<u8>, Seq<i64>)>, tags: Seq<Seq<u8>>, k: int)
    requires
        0 <= k < tags.len(),
    ensures
        match lookup(t, tags[k]) {
            Some(w) => resolved(t, tags).to_multiset() == resolved(
                t,
                tags.remove(k),
            ).to_multiset().insert(w),
            None => resolved(t, tags).to_multiset() == resolved(t, tags.remove(k)).to_multiset(),
        },
    decreases k,
{
    broadcast use vstd::seq_lib::group_to_multiset_ensures;

    if k == 0 {
        assert(tags.remove(0) =~= tags.drop_first());
        match lookup(t, tags[0]) {
            Some(w) => {
                assert(resolved(t, tags) == seq![w] + resolved(t, tags.drop_first()));
                lemma_prepend_multiset(w, resolved(t, tags.drop_first()));
            },
            None => {},
        }
    } else {
        let rest = tags.drop_first();
        lemma_resolved_remove(t, rest, k - 1);
        assert(rest[k - 1] == tags[k]);
        assert(tags.remove(k).drop_first() =~= rest.remove(k - 1));
        assert(tags.remove(k)[0] == tags[0]);
        assert(tags.remove(k).len() > 0);
        match lookup(t, tags[0]) {
            Some(w0) => {
                assert(resolved(t, tags) == seq![w0] + resolved(t, rest));
                assert(resolved(t, tags.remove(k)) == seq![w0] + resolved(t, rest.remove(k - 1)));
                lemma_prepend_multiset(w0, resolved(t, rest));
                lemma_prepend_multiset(w0, resolved(t, rest.remove(k - 1)));
                match lookup(t, tags[k]) {
                    Some(wk) => {
                        assert(resolved(t, tags).to_multiset() =~= resolved(
                            t,
                            tags.remove(k),
                        ).to_multiset().insert(wk));
                    },
                    None => {},
                }
            },
            None => {
                assert(resolved(t, tags) == resolved(t, rest));
                assert(resolved(t, tags.remove(k)) == resolved(t, rest.remove(k - 1)));
            },
        }
    }
}

/// Tag lists with the same tags in any order resolve to the same vectors as
/// a multiset.
pub proof fn lemma_resolved_permutation(
    t: Seq<(Seq<u8>, Seq<i64>)>,
    tags1: Seq<Seq<u8>>,
    tags2: Seq<Seq<u8>>,
)
    requires
        tags1.to_multiset() == tags2.to_multiset(),
    ensures
        resolved(t, tags1).to_multiset() == resolved(t, tags2).to_multiset(),
    decreases tags1.len(),
{
    broadcast use vstd::seq_lib::group_to_multiset_ensures;

    if tags1.len() == 0 {
        assert(tags1.len() == tags1.to_multiset().len());
        assert(tags2.len() == tags2.to_multiset().len());
        assert(tags2.len() == 0);
    } else {
        let x = tags1[0];
        assert(tags1.to_multiset().count(x) > 0);
        assert(tags2.contains(x));
        let k = choose|k: int| 0 <= k < tags2.len() && tags2[k] == x;
        lemma_resolved_remove(t, tags1, 0);
        lemma_resolved_remove(t, tags2, k);
        assert(tags1.remove(0).to_multiset() =~= tags2.remove(k).to_multiset());
        lemma_resolved_permutation(t, tags1.remove(0), tags2.remove(k));
        match lookup(t, x) {
            Some(w) => {
                assert(resolved(t, tags1).to_multiset() =~= resolved(t, tags2).to_multiset());
            },
            None => {},
        }
    }
}

/// Dropping the vector at `k` drops exactly its component from the sum.
proof fn lemma_sum_at_remove(vs: Seq<Seq<i64>>, k: int, j: int)
    requires
        0 <= k < vs.len(),
    ensures
        sum_at(vs, j) == vs[k][j] + sum_at(vs.remove(k), j),
    decreases k,
{
    if k == 0 {
        assert(vs.remove(0) =~= vs.drop_first());
    } else {
        let rest = vs.drop_first();
        lemma_sum_at_remove(rest, k - 1, j);
        assert(rest[k - 1] == vs[k]);
        assert(vs.remove(k).drop_first() =~= rest.remove(k - 1));
        assert(vs.remove(k)[0] == vs[0]);
        assert(vs.remove(k).len() > 0);
        assert(sum_at(vs.remove(k), j) == vs[0][j] + sum_at(rest.remove(k - 1), j));
    }
}

/// The component sum does not depend on the vectors' order.
pub proof fn lemma_sum_at_permutation(vs1: Seq<Seq<i64>>, vs2: Seq<Seq<i64>>, j: int)
    requires
        vs1.to_multiset() == vs2.to_multiset(),
    ensures
        sum_at(vs1, j) == sum_at(vs2, j),
    decreases vs1.len(),
{
    broadcast use vstd::seq_lib::group_to_multiset_ensures;

    if vs1.len() == 0 {
        assert(vs1.len() == vs1.to_multiset().len());
        assert(vs2.len() == vs2.to_multiset().len());
        assert(vs2.len() == 0);
    } else {
        let x = vs1[0];
        assert(vs1.to_multiset().count(x) > 0);
        assert(vs2.contains(x));
        let k = choose|k: int| 0 <= k < vs2.len() && vs2[k] == x;
        lemma_sum_at_remove(vs1, 0, j);
        lemma_sum_at_remove(vs2, k, j);
        assert(vs1.remove(0).to_multiset() =~= vs2.remove(k).to_multiset());
        lemma_sum_at_permutation(vs1.remove(0), vs2.remove(k), j);
    }
}

/// Collapsing does not depend on the order of the comma-separated tags:
/// genre strings whose tag lists are permutations of each other collapse to
/// the same vector.
pub proof fn lemma_collapse_order_invariant(
    t: Seq<(Seq<u8>, Seq<i64>)>,
    dim: int,
    g1: Seq<u8>,
    g2: Seq<u8>,
)
    requires
        split_tags_spec(g1).to_multiset() == split_tags_spec(g2).to_multiset(),
    ensures
        collapsed(t, dim, g1) == collapsed(t, dim, g2),
{
    broadcast use vstd::seq_lib::group_to_multiset_ensures;

    if g1.len() == 0 || g2.len() == 0 {
        lemma_empty_split_unique(g1, g2);
        if g1.len() == 0 && g2.len() == 0 {
            assert(collapsed(t, dim, g1) == collapsed(t, dim, g2));
        }
    } else {
        lemma_resolved_permutation(t, split_tags_spec(g1), split_tags_spec(g2));
        let vs1 = resolved(t, split_tags_spec(g1));
        let vs2 = resolved(t, split_tags_spec(g2));
        assert(vs1.len() == vs1.to_multiset().len());
        assert(vs2.len() == vs2.to_multiset().len());
        if vs1.len() == 0 {
        } else {
            assert(vs2.len() > 0);
            let a = Seq::new(dim as nat, |j: int| mean_at(vs1, j));
            let b = Seq::new(dim as nat, |j: int| mean_at(vs2, j));
            assert(collapsed(t, dim, g1) == a);
            assert(collapsed(t, dim, g2) == b);
            assert forall|j: int| 0 <= j < a.len() implies a[j] == b[j] by {
                lemma_sum_at_permutation(vs1, vs2, j);
                assert(a[j] == mean_at(vs1, j));
                assert(b[j] == mean_at(vs2, j));
            }
            assert(a =~= b);
        }
    }
}

/// Only the empty genre string splits into one empty tag.
proof fn lemma_empty_split_unique(g1: Seq<u8>, g2: Seq<u8>)
    requires
        split_tags_spec(g1).to_multiset() == split_tags_spec(g2).to_multiset(),
        g1.len() == 0 || g2.len() == 0,
    ensures
        g1.len() == 0 && g2.len() == 0,
{
    broadcast use vstd::seq_lib::group_to_multiset_ensures;

    if g1.len() == 0 && g2.len() != 0 {
        lemma_nonempty_split_has_content(g2);
        assert(split_tags_spec(g1) =~= seq![Seq::<u8>::empty()]);
        assert(split_tags_spec(g1).to_multiset().contains(Seq::<u8>::empty()));
        assert(split_tags_spec(g2).to_multiset().len() == 1);
        assert(split_tags_spec(g2).len() == 1);
        assert(split_tags_spec(g2).contains(Seq::<u8>::empty()));
        let i = choose|i: int|
            0 <= i < split_tags_spec(g2).len() && split_tags_spec(g2)[i] == Seq::<u8>::empty();
        assert(false);
    }
    if g2.len() == 0 && g1.len() != 0 {
        lemma_nonempty_split_has_content(g1);
        assert(split_tags_spec(g2) =~= seq![Seq::<u8>::empty()]);
        assert(split_tags_spec(g2).to_multiset().contains(Seq::<u8>::empty()));
        assert(split_tags_spec(g1).to_multiset().len() == 1);
        assert(split_tags_spec(g1).len() == 1);
        assert(split_tags_spec(g1).contains(Seq::<u8>::empty()));
        let i = choose|i: int|
            0 <= i < split_tags_spec(g1).len() && split_tags_spec(g1)[i] == Seq::<u8>::empty();
        assert(false);
    }
}

/// A nonempty genre string splits into several tags or one nonempty tag.
proof fn lemma_nonempty_split_has_content(g: Seq<u8>)
    requires
        g.len() > 0,
    ensures
        split_tags_spec(g).len() > 1 || split_tags_spec(g)[0].len() > 0,
{
    if g[0] == 44u8 {
        lemma_split_nonempty(g.skip(1));
    }
}

/// A truncated mean of a bounded sum is bounded.
proof fn lemma_mean_bounded(s: int, k: int)
    requires
        k >= 1,
        -(k * WEIGHT_LIMIT) <= s <= k * WEIGHT_LIMIT,
    ensures
        -WEIGHT_LIMIT <= trunc_div(s, k) <= WEIGHT_LIMIT,
{
    if s >= 0 {
        vstd::arithmetic::div_mod::lemma_div_is_ordered(s, k * WEIGHT_LIMIT, k);
        vstd::arithmetic::div_mod::lemma_div_multiples_vanish(WEIGHT_LIMIT as int, k);
        vstd::arithmetic::div_mod::lemma_div_pos_is_pos(s, k);
    } else {
        vstd::arithmetic::div_mod::lemma_div_is_ordered(-s, k * WEIGHT_LIMIT, k);
        vstd::arithmetic::div_mod::lemma_div_multiples_vanish(WEIGHT_LIMIT as int, k);
        vstd::arithmetic::div_mod::lemma_div_pos_is_pos(-s, k);
    }
}

/// Collapses a comma-separated genre string to one weight vector over the
/// table: the element-wise truncated mean of the vectors of the tags the
/// table knows, and the zero vector when the string is empty or nothing
/// resolves.
pub fn collapse_genres(table: &WeightTable, genres: &Vec<u8>) -> (r: Vec<i64>)
    requires
        table.wf(),
    ensures
        r@ == collapsed(table.table(), table.dim_spec(), genres@),
        r@.len() == table.dim_spec(),
        forall|j: int| 0 <= j < r@.len() ==> -WEIGHT_LIMIT <= #[trigger] r@[j] <= WEIGHT_LIMIT,
        genres@.len() == 0 ==> forall|j: int| 0 <= j < r@.len() ==> r@[j] == 0i64,
{
    let ghost t = table.table();
    let dim = table.dimension();
    if genres.len() == 0 {
        let r = zero_weights(dim);
        return r;
    }
    let tags = split_tags(genres);
    let ghost tag_views = views(tags@);
    let mut sums: Vec<i128> = Vec::new();
    let mut j0: usize = 0;
    while j0 < dim
        invariant
            0 <= j0 <= dim,
            sums@.len() == j0,
            forall|jj: int| 0 <= jj < j0 ==> sums@[jj] == 0i128,
        decreases dim - j0,
    {
        sums.push(0i128);
        j0 += 1;
    }
    let mut k: usize = 0;
    let mut i: usize = 0;
    proof {
        assert(resolved(t, tag_views.take(0)) =~= Seq::<Seq<i64>>::empty());
    }
    while i < tags.len()
        invariant
            0 <= i <= tags@.len(),
            tag_views == views(tags@),
            t == table.table(),
            table.wf(),
            dim == table.dim_spec(),
            sums@.len() == dim,
            k == resolved(t, tag_views.take(i as int)).len(),
            k <= i,
            forall|j: int| 0 <= j < dim ==> #[trigger] sums@[j] as int == sum_at(
                resolved(t, tag_views.take(i as int)),
                j,
            ),
        decreases tags.len() - i,
    {
        let ghost prefix = resolved(t, tag_views.take(i as int));
        proof {
            assert(tag_views.take(i + 1).drop_last() =~= tag_views.take(i as int));
            assert(tag_views.take(i + 1) =~= tag_views.take(i as int).push(tag_views[i as int]));
            lemma_resolved_push(t, tag_views.take(i as int), tag_views[i as int]);
            lemma_resolved_wf(t, dim as int, tag_views.take(i as int));
            lemma_lookup_props(t, tag_views[i as int]);
        }
        assert(tag_views[i as int] == tags@[i as int]@);
        match table.get(&tags[i]) {
            Some(w) => {
                let mut j: usize = 0;
                while j < dim
                    invariant
                        0 <= j <= dim,
                        sums@.len() == dim,
                        w@.len() == dim,
                        dim == table.dim_spec(),
                        entry_wf(w@, dim as int),
                        k <= i < tags@.len(),
                        prefix.len() == k,
                        forall|p: int| 0 <= p < prefix.len() ==> entry_wf(
                            #[trigger] prefix[p],
                            dim as int,
                        ),
                        forall|jj: int| 0 <= jj < j ==> #[trigger] sums@[jj] as int == sum_at(
                            prefix,
                            jj,
                        ) + w@[jj],
                        forall|jj: int| j <= jj < dim ==> #[trigger] sums@[jj] as int == sum_at(
                            prefix,
                            jj,
                        ),
                    decreases dim - j,
                {
                    proof {
                        lemma_sum_at_bound(prefix, dim as int, j as int);
                        assert(k * WEIGHT_LIMIT <= (tags@.len() as int) * WEIGHT_LIMIT) by (
                        nonlinear_arith)
                            requires
                                k <= tags@.len(),
                        ;
                    }
                    let cur = sums[j];
                    sums[j] = cur + (w[j] as i128);
                    j += 1;
                }
                k += 1;
                proof {
                    assert(resolved(t, tag_views.take(i + 1)) =~= prefix.push(w@));
                    assert forall|jj: int| 0 <= jj < dim implies #[trigger] sums@[jj] as int
                        == sum_at(resolved(t, tag_views.take(i + 1)), jj) by {
                        lemma_sum_at_push(prefix, w@, jj);
                    }
                }
            },
            None => {
                proof {
                    assert(resolved(t, tag_views.take(i + 1)) =~= prefix);
                }
            },
        }
        i += 1;
    }
    let ghost vs = resolved(t, split_tags_spec(genres@));
    proof {
        assert(tag_views.take(tags@.len() as int) =~= tag_views);
        assert(vs == resolved(t, tag_views));
    }
    if k == 0 {
        let r = zero_weights(dim);
        proof {
            assert(collapsed(t, dim as int, genres@) == zero_weights_spec(dim as int));
        }
        return r;
    }
    let mut out: Vec<i64> = Vec::new();
    let mut j: usize = 0;
    proof {
        lemma_resolved_wf(t, dim as int, tag_views);
    }
    while j < dim
        invariant
            0 <= j <= dim,
            out@.len() == j,
            1 <= k == vs.len(),
            sums@.len() == dim,
            vs == resolved(t, split_tags_spec(genres@)),
            forall|p: int| 0 <= p < vs.len() ==> entry_wf(#[trigger] vs[p], dim as int),
            forall|jj: int| 0 <= jj < dim ==> #[trigger] sums@[jj] as int == sum_at(vs, jj),
            forall|jj: int| 0 <= jj < j ==> #[trigger] out@[jj] == mean_at(vs, jj),
            forall|jj: int| 0 <= jj < j ==> -WEIGHT_LIMIT <= #[trigger] out@[jj] <= WEIGHT_LIMIT,
        decreases dim - j,
    {
        proof {
            lemma_sum_at_bound(vs, dim as int, j as int);
            lemma_mean_bounded(sum_at(vs, j as int), k as int);
        }
        let m = match sums[j].checked_div(k as i128) {
            Some(m) => m,
            None => {
                proof {
                    assert(false);
                }
                0i128
            },
        };
        assert(m as int == trunc_div(sum_at(vs, j as int), k as int));
        out.push(m as i64);
        j += 1;
    }
    proof {
        assert(out@ =~= Seq::new(dim as nat, |jj: int| mean_at(vs, jj)));
        assert(out@ == collapsed(t, dim as int, genres@));
    }
    out
}

/// The songs' paths and genre strings, as bytes.
pub open spec fn song_views(songs: Seq<(Vec<u8>, Option<Vec<u8>>)>) -> Seq<
    (Seq<u8>, Option<Seq<u8>>),
> {
    songs.map_values(
        |s: (Vec<u8>, Option<Vec<u8>>)|
            (
                s.0@,
                match s.1 {
                    Some(g) => Some(g@),
                    None => None,
                },
            ),
    )
}

/// The per-track weight table a song list folds to: each song with a genre
/// string contributes its collapsed vector under its path, first entry per
/// path winning; songs without a genre contribute nothing.
pub open spec fn tracks_folded(
    t: Seq<(Seq<u8>, Seq<i64>)>,
    dim: int,
    songs: Seq<(Seq<u8>, Option<Seq<u8>>)>,
) -> Seq<(Seq<u8>, Seq<i64>)>
    decreases songs.len(),
{
    if songs.len() == 0 {
        Seq::empty()
    } else {
        let acc = tracks_folded(t, dim, songs.drop_last());
        match songs.last().1 {
            Some(g) => if lookup(acc, songs.last().0) is Some {
                acc
            } else {
                acc.push((songs.last().0, collapsed(t, dim, g)))
            },
            None => acc,
        }
    }
}

/// Builds the per-track weight table from the library's songs: each track
/// with a genre string gets the collapse of that string over the genre
/// table, keyed by its path; a path seen twice keeps its first vector.
pub fn track_weights_from_songs(
    genre_table: &WeightTable,
    songs: &Vec<(Vec<u8>, Option<Vec<u8>>)>,
) -> (r: WeightTable)
    requires
        genre_table.wf(),
    ensures
        r.wf(),
        r.dim_spec() == genre_table.dim_spec(),
        r.table() == tracks_folded(genre_table.table(), genre_table.dim_spec(), song_views(songs@)),
{
    let ghost t = genre_table.table();
    let ghost svs = song_views(songs@);
    let dim = genre_table.dimension();
    let mut out = WeightTable::new(dim);
    proof {
        assert(svs.take(0) =~= Seq::<(Seq<u8>, Option<Seq<u8>>)>::empty());
        assert(out.table() =~= tracks_folded(t, dim as int, svs.take(0)));
    }
    let mut i: usize = 0;
    while i < songs.len()
        invariant
            0 <= i <= songs@.len(),
            t == genre_table.table(),
            svs == song_views(songs@),
            genre_table.wf(),
            dim == genre_table.dim_spec(),
            out.wf(),
            out.dim_spec() == dim,
            out.table() == tracks_folded(t, dim as int, svs.take(i as int)),
        decreases songs.len() - i,
    {
        proof {
            assert(svs.take(i + 1).drop_last() =~= svs.take(i as int));
            assert(svs.take(i + 1).last() == svs[i as int]);
            assert(svs[i as int].0 == songs@[i as int].0@);
        }
        let song = &songs[i];
        match &song.1 {
            Some(g) => {
                proof {
                    assert(svs[i as int].1 == Some(g@));
                }
                if !out.contains_key(&song.0) {
                    let w = collapse_genres(genre_table, g);
                    let path = crate::bytes::copy_bytes(&song.0);
                    let ghost before = out.table();
                    match out.insert(path, w) {
                        Ok(()) => {},
                        Err(_) => {
                            proof {
                                assert(false);
                            }
                        },
                    }
                }
            },
            None => {
                proof {
                    assert(svs[i as int].1 is None);
                }
            },
        }
        i += 1;
    }
    proof {
        assert(svs.take(songs@.len() as int) =~= svs);
    }
    out
}

/// A fresh copy of a weight vector.
pub fn copy_weights(v: &Vec<i64>) -> (r: Vec<i64>)
    ensures
        r@ == v@,
{
    let mut copy: Vec<i64> = Vec::new();
    let mut i: usize = 0;
    while i < v.len()
        invariant
            0 <= i <= v.len(),
            copy@ == v@.take(i as int),
        decreases v.len() - i,
    {
        copy.push(v[i]);
        assert(copy@ =~= v@.take((i + 1) as int));
        i += 1;
    }
    assert(copy@ =~= v@);
    copy
}

} // verus!
