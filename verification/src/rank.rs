//! Similarity ranking in genre-weight space.
//!
//! Candidates are ordered by their distance from a set of anchor tracks:
//! each anchor's weight vector is looked up in the track-weight table
//! (anchors without one are left out of the metric), a candidate's distance
//! is the smallest squared Euclidean distance from its own weight vector to
//! any anchor vector, and a candidate missing from the table ranks with the
//! zero vector.  The sort is stable: candidates at equal distance keep
//! their original order, so ranking is deterministic.

use vstd::prelude::*;

verus! {

use crate::bytes::copy_bytes;
use crate::genre::copy_weights;
use crate::bytes::views;
use crate::genre::WeightTable;
use crate::genre::entry_wf;
use crate::genre::lemma_lookup_props;
use crate::genre::lemma_resolved_push;
use crate::genre::lemma_resolved_wf;
use crate::genre::lookup;
use crate::genre::resolved;
use crate::genre::zero_weights;
use crate::genre::zero_weights_spec;
use crate::genre::WEIGHT_LIMIT;

/// The largest squared difference of two bounded weights.
pub const SQUARE_LIMIT: i128 = 4_000_000_000_000;

/// The squared distance of the first `j` components of `a` and `b`.
pub open spec fn sq_dist_to(a: Seq<i64>, b: Seq<i64>, j: int) -> int
    decreases j,
{
    if j <= 0 {
        0
    } else {
        sq_dist_to(a, b, j - 1) + (a[j - 1] - b[j - 1]) * (a[j - 1] - b[j - 1])
    }
}

/// The squared Euclidean distance of two weight vectors.
pub open spec fn sq_dist(a: Seq<i64>, b: Seq<i64>) -> int {
    sq_dist_to(a, b, a.len() as int)
}

/// The smallest squared distance from `v` to any of the `anchors`; zero
/// when there are none (every candidate then ties).
pub open spec fn min_dist(anchors: Seq<Seq<i64>>, v: Seq<i64>) -> int
    decreases anchors.len(),
{
    if anchors.len() == 0 {
        0
    } else if anchors.len() == 1 {
        sq_dist(anchors[0], v)
    } else {
        let rest = min_dist(anchors.drop_last(), v);
        let d = sq_dist(anchors.last(), v);
        if d < rest {
            d
        } else {
            rest
        }
    }
}

/// A track's weight vector, with the zero vector standing in for tracks the
/// table does not know.
pub open spec fn weight_or_zero(t: Seq<(Seq<u8>, Seq<i64>)>, dim: int, c: Seq<u8>) -> Seq<i64> {
    match lookup(t, c) {
        Some(w) => w,
        None => zero_weights_spec(dim),
    }
}

/// A candidate's distance from the anchor set.
pub open spec fn candidate_key(
    t: Seq<(Seq<u8>, Seq<i64>)>,
    dim: int,
    anchors: Seq<Seq<u8>>,
    c: Seq<u8>,
) -> int {
    min_dist(resolved(t, anchors), weight_or_zero(t, dim, c))
}

/// Stable insertion: `x` goes after every settled candidate at most as
/// distant as itself.
pub open spec fn insert_ranked(
    t: Seq<(Seq<u8>, Seq<i64>)>,
    dim: int,
    anchors: Seq<Seq<u8>>,
    x: Seq<u8>,
    s: Seq<Seq<u8>>,
) -> Seq<Seq<u8>>
    decreases s.len(),
{
    if s.len() == 0 {
        seq![x]
    } else if candidate_key(t, dim, anchors, s[0]) <= candidate_key(t, dim, anchors, x) {
        seq![s[0]] + insert_ranked(t, dim, anchors, x, s.drop_first())
    } else {
        seq![x] + s
    }
}

/// The candidates in ascending distance from the anchors, ties kept in the
/// candidates' own order.
pub open spec fn ranked(
    t: Seq<(Seq<u8>, Seq<i64>)>,
    dim: int,
    anchors: Seq<Seq<u8>>,
    cands: Seq<Seq<u8>>,
) -> Seq<Seq<u8>>
    decreases cands.len(),
{
    if cands.len() == 0 {
        Seq::empty()
    } else {
        insert_ranked(t, dim, anchors, cands.last(), ranked(t, dim, anchors, cands.drop_last()))
    }
}

/// Whether `s` is ordered by ascending distance from the anchors.
pub open spec fn ranked_sorted(
    t: Seq<(Seq<u8>, Seq<i64>)>,
    dim: int,
    anchors: Seq<Seq<u8>>,
    s: Seq<Seq<u8>>,
) -> bool {
    forall|p: int, q: int| 0 <= p < q < s.len() ==> candidate_key(t, dim, anchors, #[trigger] s[p])
        <= candidate_key(t, dim, anchors, #[trigger] s[q])
}

/// Inserting at the first position whose key is larger keeps the insertion
/// stable: the result is the prefix, the new candidate, then the rest.
proof fn lemma_insert_ranked_at(
    t: Seq<(Seq<u8>, Seq<i64>)>,
    dim: int,
    anchors: Seq<Seq<u8>>,
    x: Seq<u8>,
    s: Seq<Seq<u8>>,
    p: int,
)
    requires
        0 <= p <= s.len(),
        forall|q: int| 0 <= q < p ==> candidate_key(t, dim, anchors, #[trigger] s[q])
            <= candidate_key(t, dim, anchors, x),
        p < s.len() ==> candidate_key(t, dim, anchors, s[p]) > candidate_key(t, dim, anchors, x),
    ensures
        insert_ranked(t, dim, anchors, x, s) == s.take(p) + seq![x] + s.skip(p),
    decreases s.len(),
{
    if s.len() == 0 {
        assert(insert_ranked(t, dim, anchors, x, s) =~= s.take(p) + seq![x] + s.skip(p));
    } else if p == 0 {
        assert(s.take(0) =~= Seq::<Seq<u8>>::empty());
        assert(s.skip(0) =~= s);
        assert(insert_ranked(t, dim, anchors, x, s) =~= s.take(0) + seq![x] + s.skip(0));
    } else {
        let rest = s.drop_first();
        assert forall|q: int| 0 <= q < p - 1 implies candidate_key(
            t,
            dim,
            anchors,
            #[trigger] rest[q],
        ) <= candidate_key(t, dim, anchors, x) by {
            assert(rest[q] == s[q + 1]);
        }
        assert(p - 1 < rest.len() ==> rest[p - 1] == s[p as int]);
        lemma_insert_ranked_at(t, dim, anchors, x, rest, p - 1);
        assert(s.take(p) =~= seq![s[0]] + rest.take(p - 1));
        assert(s.skip(p) =~= rest.skip(p - 1));
        assert(seq![s[0]] + (rest.take(p - 1) + seq![x] + rest.skip(p - 1)) =~= s.take(p) + seq![x]
            + s.skip(p));
    }
}

/// Ranking the same anchors and candidates against the same table twice
/// gives the same order.
pub proof fn lemma_ranking_deterministic(
    t: Seq<(Seq<u8>, Seq<i64>)>,
    dim: int,
    anchors: Seq<Seq<u8>>,
    cands: Seq<Seq<u8>>,
    r1: Seq<Seq<u8>>,
    r2: Seq<Seq<u8>>,
)
    requires
        r1 == ranked(t, dim, anchors, cands),
        r2 == ranked(t, dim, anchors, cands),
    ensures
        r1 == r2,
{
}

/// A candidate the table does not know ranks exactly as one whose stored
/// weight vector is the zero vector.
pub proof fn lemma_missing_ranks_as_zero(
    t: Seq<(Seq<u8>, Seq<i64>)>,
    dim: int,
    anchors: Seq<Seq<u8>>,
    missing: Seq<u8>,
    zeroed: Seq<u8>,
)
    requires
        lookup(t, missing) is None,
        lookup(t, zeroed) == Some(zero_weights_spec(dim)),
    ensures
        candidate_key(t, dim, anchors, missing) == candidate_key(t, dim, anchors, zeroed),
{
}

/// Stable insertion keeps the order sorted and adds exactly the new
/// candidate to the content.
proof fn lemma_insert_ranked_sorted(
    t: Seq<(Seq<u8>, Seq<i64>)>,
    dim: int,
    anchors: Seq<Seq<u8>>,
    x: Seq<u8>,
    s: Seq<Seq<u8>>,
)
    requires
        ranked_sorted(t, dim, anchors, s),
    ensures
        ranked_sorted(t, dim, anchors, insert_ranked(t, dim, anchors, x, s)),
        insert_ranked(t, dim, anchors, x, s).to_multiset() == s.to_multiset().insert(x),
        insert_ranked(t, dim, anchors, x, s).len() == s.len() + 1,
    decreases s.len(),
{
    broadcast use vstd::seq_lib::group_to_multiset_ensures;

    let out = insert_ranked(t, dim, anchors, x, s);
    if s.len() == 0 {
        assert(out =~= Seq::<Seq<u8>>::empty().push(x));
        assert(out.to_multiset() =~= s.to_multiset().insert(x));
    } else if candidate_key(t, dim, anchors, s[0]) <= candidate_key(t, dim, anchors, x) {
        let rest = s.drop_first();
        assert forall|p: int, q: int| 0 <= p < q < rest.len() implies candidate_key(
            t,
            dim,
            anchors,
            #[trigger] rest[p],
        ) <= candidate_key(t, dim, anchors, #[trigger] rest[q]) by {
            assert(rest[p] == s[p + 1] && rest[q] == s[q + 1]);
        }
        lemma_insert_ranked_sorted(t, dim, anchors, x, rest);
        let sub = insert_ranked(t, dim, anchors, x, rest);
        assert(out == seq![s[0]] + sub);
        assert forall|p: int, q: int| 0 <= p < q < out.len() implies candidate_key(
            t,
            dim,
            anchors,
            #[trigger] out[p],
        ) <= candidate_key(t, dim, anchors, #[trigger] out[q]) by {
            if p > 0 {
                assert(out[p] == sub[p - 1] && out[q] == sub[q - 1]);
            } else {
                assert(out[0] == s[0]);
                assert(out[q] == sub[q - 1]);
                // s[0] is at most every settled candidate and at most x.
                assert(sub.to_multiset().count(out[q]) > 0);
                assert(sub.to_multiset() == rest.to_multiset().insert(x));
                if out[q] == x {
                } else {
                    assert(rest.to_multiset().count(out[q]) > 0);
                    assert(rest.contains(out[q]));
                    let w = choose|w: int| 0 <= w < rest.len() && rest[w] == out[q];
                    assert(s[w + 1] == out[q]);
                }
            }
        }
        crate::genre::lemma_prepend_multiset(s[0], sub);
        crate::genre::lemma_prepend_multiset(s[0], rest);
        assert(seq![s[0]] + rest =~= s);
        assert(out.to_multiset() =~= s.to_multiset().insert(x));
    } else {
        assert(out == seq![x] + s);
        crate::genre::lemma_prepend_multiset(x, s);
        assert forall|p: int, q: int| 0 <= p < q < out.len() implies candidate_key(
            t,
            dim,
            anchors,
            #[trigger] out[p],
        ) <= candidate_key(t, dim, anchors, #[trigger] out[q]) by {
            if p > 0 {
                assert(out[p] == s[p - 1] && out[q] == s[q - 1]);
            } else {
                assert(out[0] == x);
                assert(out[q] == s[q - 1]);
                if q - 1 > 0 {
                    assert(candidate_key(t, dim, anchors, s[0]) <= candidate_key(
                        t,
                        dim,
                        anchors,
                        s[q - 1],
                    ));
                }
            }
        }
    }
}

/// The ranking is sorted by ascending distance and holds exactly the
/// candidates it was given.
pub proof fn lemma_ranked_sorted_permutation(
    t: Seq<(Seq<u8>, Seq<i64>)>,
    dim: int,
    anchors: Seq<Seq<u8>>,
    cands: Seq<Seq<u8>>,
)
    ensures
        ranked_sorted(t, dim, anchors, ranked(t, dim, anchors, cands)),
        ranked(t, dim, anchors, cands).to_multiset() == cands.to_multiset(),
        ranked(t, dim, anchors, cands).len() == cands.len(),
    decreases cands.len(),
{
    broadcast use vstd::seq_lib::group_to_multiset_ensures;

    if cands.len() == 0 {
        assert(ranked(t, dim, anchors, cands).to_multiset() =~= cands.to_multiset());
    } else {
        lemma_ranked_sorted_permutation(t, dim, anchors, cands.drop_last());
        lemma_insert_ranked_sorted(
            t,
            dim,
            anchors,
            cands.last(),
            ranked(t, dim, anchors, cands.drop_last()),
        );
        assert(cands.drop_last().push(cands.last()) =~= cands);
        assert(cands.drop_last().to_multiset().insert(cands.last())
            == cands.drop_last().push(cands.last()).to_multiset());
    }
}

/// The squared distance of two bounded vectors of the same dimension.
fn sq_dist_exec(a: &Vec<i64>, b: &Vec<i64>, dim: usize) -> (r: i128)
    requires
        entry_wf(a@, dim as int),
        entry_wf(b@, dim as int),
    ensures
        r as int == sq_dist(a@, b@),
        0 <= r <= dim * SQUARE_LIMIT,
{
    let mut acc: i128 = 0;
    let mut j: usize = 0;
    while j < dim
        invariant
            0 <= j <= dim,
            entry_wf(a@, dim as int),
            entry_wf(b@, dim as int),
            acc as int == sq_dist_to(a@, b@, j as int),
            0 <= acc <= j * SQUARE_LIMIT,
        decreases dim - j,
    {
        assert(-WEIGHT_LIMIT <= a@[j as int] <= WEIGHT_LIMIT);
        assert(-WEIGHT_LIMIT <= b@[j as int] <= WEIGHT_LIMIT);
        let d = a[j] - b[j];
        proof {
            assert(0 <= (d as int) * (d as int) <= SQUARE_LIMIT) by (nonlinear_arith)
                requires
                    -2_000_000 <= d as int <= 2_000_000,
            ;
        }
        let dd = (d as i128) * (d as i128);
        proof {
            assert(0 <= dd <= SQUARE_LIMIT);
            assert((j + 1) * SQUARE_LIMIT == j * SQUARE_LIMIT + SQUARE_LIMIT) by (nonlinear_arith);
            assert((j + 1) * SQUARE_LIMIT <= 0x1_0000_0000_0000_0000 * SQUARE_LIMIT) by (
            nonlinear_arith)
                requires
                    0 <= j + 1 <= 0x1_0000_0000_0000_0000,
            ;
        }
        acc = acc + dd;
        j += 1;
    }
    acc
}

/// The smallest squared distance from `v` to any anchor vector.
fn min_dist_exec(anchors: &Vec<Vec<i64>>, v: &Vec<i64>, dim: usize) -> (r: i128)
    requires
        forall|i: int| 0 <= i < anchors@.len() ==> entry_wf((#[trigger] anchors@[i])@, dim as int),
        entry_wf(v@, dim as int),
    ensures
        r as int == min_dist(weight_views(anchors@), v@),
        0 <= r <= dim * SQUARE_LIMIT,
{
    let ghost avs = weight_views(anchors@);
    if anchors.len() == 0 {
        return 0;
    }
    let mut best = sq_dist_exec(&anchors[0], v, dim);
    proof {
        assert(avs.take(1) =~= seq![avs[0]]);
        assert(min_dist(avs.take(1), v@) == sq_dist(avs[0], v@));
    }
    let mut i: usize = 1;
    while i < anchors.len()
        invariant
            1 <= i <= anchors@.len(),
            avs == weight_views(anchors@),
            forall|k: int| 0 <= k < anchors@.len() ==> entry_wf(
                (#[trigger] anchors@[k])@,
                dim as int,
            ),
            entry_wf(v@, dim as int),
            best as int == min_dist(avs.take(i as int), v@),
            0 <= best <= dim * SQUARE_LIMIT,
        decreases anchors.len() - i,
    {
        let d = sq_dist_exec(&anchors[i], v, dim);
        proof {
            assert(avs.take(i + 1).drop_last() =~= avs.take(i as int));
            assert(avs.take(i + 1).last() == avs[i as int]);
            assert(avs[i as int] == anchors@[i as int]@);
            assert(avs.take(i + 1).len() > 1);
        }
        if d < best {
            best = d;
        }
        i += 1;
    }
    proof {
        assert(avs.take(anchors@.len() as int) =~= avs);
    }
    best
}

/// The byte sequences behind a vector of weight vectors.
pub open spec fn weight_views(s: Seq<Vec<i64>>) -> Seq<Seq<i64>> {
    s.map_values(|w: Vec<i64>| w@)
}

/// Ranks the candidates by ascending distance from the anchor tracks, as a
/// stable sort: ties keep the candidates' original order.  Anchors the
/// table does not know are left out of the metric; candidates it does not
/// know rank with the zero vector.
pub fn closest_to_genre_songs(
    anchors: &Vec<Vec<u8>>,
    candidates: &Vec<Vec<u8>>,
    track_weights: &WeightTable,
) -> (r: Vec<Vec<u8>>)
    requires
        track_weights.wf(),
    ensures
        views(r@) == ranked(
            track_weights.table(),
            track_weights.dim_spec(),
            views(anchors@),
            views(candidates@),
        ),
{
    let ghost t = track_weights.table();
    let ghost avs = views(anchors@);
    let dim = track_weights.dimension();
    let mut anchor_vecs: Vec<Vec<i64>> = Vec::new();
    let mut i: usize = 0;
    proof {
        assert(avs.take(0) =~= Seq::<Seq<u8>>::empty());
        assert(weight_views(anchor_vecs@) =~= resolved(t, avs.take(0)));
    }
    while i < anchors.len()
        invariant
            0 <= i <= anchors@.len(),
            t == track_weights.table(),
            avs == views(anchors@),
            track_weights.wf(),
            dim == track_weights.dim_spec(),
            weight_views(anchor_vecs@) == resolved(t, avs.take(i as int)),
        decreases anchors.len() - i,
    {
        proof {
            assert(avs.take(i + 1) =~= avs.take(i as int).push(avs[i as int]));
            lemma_resolved_push(t, avs.take(i as int), avs[i as int]);
            assert(avs[i as int] == anchors@[i as int]@);
        }
        match track_weights.get(&anchors[i]) {
            Some(w) => {
                let wc = copy_weights(w);
                let ghost before = weight_views(anchor_vecs@);
                anchor_vecs.push(wc);
                proof {
                    assert(weight_views(anchor_vecs@) =~= before.push(wc@));
                }
            },
            None => {},
        }
        i += 1;
    }
    proof {
        assert(avs.take(anchors@.len() as int) =~= avs);
        lemma_resolved_wf(t, dim as int, avs);
        assert forall|k: int| 0 <= k < anchor_vecs@.len() implies entry_wf(
            (#[trigger] anchor_vecs@[k])@,
            dim as int,
        ) by {
            assert(anchor_vecs@[k]@ == weight_views(anchor_vecs@)[k]);
        }
    }
    let mut out: Vec<Vec<u8>> = Vec::new();
    let mut keys: Vec<i128> = Vec::new();
    let ghost cvs = views(candidates@);
    let mut c: usize = 0;
    proof {
        assert(cvs.take(0) =~= Seq::<Seq<u8>>::empty());
        assert(views(out@) =~= ranked(t, dim as int, avs, cvs.take(0)));
    }
    while c < candidates.len()
        invariant
            0 <= c <= candidates@.len(),
            t == track_weights.table(),
            avs == views(anchors@),
            cvs == views(candidates@),
            track_weights.wf(),
            dim == track_weights.dim_spec(),
            forall|k: int| 0 <= k < anchor_vecs@.len() ==> entry_wf(
                (#[trigger] anchor_vecs@[k])@,
                dim as int,
            ),
            weight_views(anchor_vecs@) == resolved(t, avs),
            views(out@) == ranked(t, dim as int, avs, cvs.take(c as int)),
            keys@.len() == out@.len(),
            forall|p: int| 0 <= p < keys@.len() ==> #[trigger] keys@[p] as int == candidate_key(
                t,
                dim as int,
                avs,
                views(out@)[p],
            ),
        decreases candidates.len() - c,
    {
        proof {
            assert(cvs[c as int] == candidates@[c as int]@);
            lemma_lookup_props(t, cvs[c as int]);
        }
        let key: i128 = match track_weights.get(&candidates[c]) {
            Some(w) => min_dist_exec(&anchor_vecs, w, dim),
            None => {
                let z = zero_weights(dim);
                min_dist_exec(&anchor_vecs, &z, dim)
            },
        };
        proof {
            assert(key as int == candidate_key(t, dim as int, avs, cvs[c as int]));
        }
        let mut p: usize = 0;
        while p < out.len() && keys[p] <= key
            invariant
                0 <= p <= out@.len(),
                keys@.len() == out@.len(),
                forall|q: int| 0 <= q < keys@.len() ==> #[trigger] keys@[q] as int
                    == candidate_key(t, dim as int, avs, views(out@)[q]),
                forall|q: int| 0 <= q < p ==> #[trigger] keys@[q] <= key,
            decreases out@.len() - p,
        {
            p += 1;
        }
        let ghost sorted_before = views(out@);
        proof {
            assert forall|q: int| 0 <= q < p implies candidate_key(
                t,
                dim as int,
                avs,
                #[trigger] sorted_before[q],
            ) <= candidate_key(t, dim as int, avs, cvs[c as int]) by {
                assert(keys@[q] <= key);
            }
            if p < out@.len() {
                assert(keys@[p as int] > key);
            }
            lemma_insert_ranked_at(t, dim as int, avs, cvs[c as int], sorted_before, p as int);
        }
        let xc = copy_bytes(&candidates[c]);
        out.insert(p, xc);
        keys.insert(p, key);
        proof {
            assert(views(out@) =~= sorted_before.take(p as int) + seq![cvs[c as int]]
                + sorted_before.skip(p as int));
            assert(cvs.take(c + 1).drop_last() =~= cvs.take(c as int));
            assert(cvs.take(c + 1).last() == cvs[c as int]);
            assert(views(out@) == ranked(t, dim as int, avs, cvs.take(c + 1)));
            assert forall|q: int| 0 <= q < keys@.len() implies #[trigger] keys@[q] as int
                == candidate_key(t, dim as int, avs, views(out@)[q]) by {
                if q < p {
                    assert(views(out@)[q] == sorted_before[q]);
                } else if q == p {
                    assert(views(out@)[q] == cvs[c as int]);
                } else {
                    assert(views(out@)[q] == sorted_before[q - 1]);
                }
            }
        }
        c += 1;
    }
    proof {
        assert(cvs.take(candidates@.len() as int) =~= cvs);
    }
    out
}

} // verus!
