//! Path rules and the song catalog.
//!
//! Tracks are named by library-relative paths.  The player speaks in
//! relative paths; the analysis side speaks in absolute ones, so paths are
//! joined with the library's base path on the way out and the base is
//! stripped on the way back.  The catalog of all track paths is kept sorted
//! and without duplicates as pages of search results arrive.

use vstd::prelude::*;

verus! {

use crate::bytes::bytes_eq;
use crate::bytes::copy_bytes;
use crate::bytes::copy_range;
use crate::bytes::views;

/// The base path and a file path joined: an absolute file path stands
/// alone; otherwise the two are glued with a single separator.
pub open spec fn joined(base: Seq<u8>, file: Seq<u8>) -> Seq<u8> {
    if file.len() > 0 && file[0] == 47u8 {
        file
    } else if base.len() == 0 {
        file
    } else if base.last() == 47u8 {
        base + file
    } else {
        base + seq![47u8] + file
    }
}

/// Joins a track's file path onto the library's base path.
pub fn join_base(base: &Vec<u8>, file: &Vec<u8>) -> (r: Vec<u8>)
    ensures
        r@ == joined(base@, file@),
{
    if file.len() > 0 && file[0] == 47u8 {
        return copy_bytes(file);
    }
    if base.len() == 0 {
        return copy_bytes(file);
    }
    let mut out = copy_bytes(base);
    if base[base.len() - 1] != 47u8 {
        out.push(47u8);
        assert(out@ =~= base@ + seq![47u8]);
    }
    let mut i: usize = 0;
    let ghost head = out@;
    while i < file.len()
        invariant
            0 <= i <= file@.len(),
            out@ == head + file@.take(i as int),
        decreases file.len() - i,
    {
        out.push(file[i]);
        assert(out@ =~= head + file@.take((i + 1) as int));
        i += 1;
    }
    proof {
        assert(file@.take(file@.len() as int) =~= file@);
        if base@.last() == 47u8 {
            assert(out@ =~= joined(base@, file@));
        } else {
            assert(out@ =~= joined(base@, file@));
        }
    }
    out
}

/// A path with the base path stripped: `Some` when the base is a prefix
/// that ends at a separator (or at the path's end), with the remainder
/// after that separator.
pub open spec fn stripped(base: Seq<u8>, path: Seq<u8>) -> Option<Seq<u8>> {
    if base.len() == 0 {
        Some(path)
    } else if base.len() <= path.len() && path.take(base.len() as int) == base {
        let rest = path.skip(base.len() as int);
        if rest.len() == 0 {
            Some(rest)
        } else if rest[0] == 47u8 {
            Some(rest.skip(1))
        } else if base.last() == 47u8 {
            Some(rest)
        } else {
            None
        }
    } else {
        None
    }
}

/// Strips the library's base path from an absolute track path, yielding the
/// player's relative path.
pub fn strip_base(base: &Vec<u8>, path: &Vec<u8>) -> (r: Option<Vec<u8>>)
    ensures
        match r {
            Some(rest) => stripped(base@, path@) == Some(rest@),
            None => stripped(base@, path@) is None,
        },
{
    if base.len() == 0 {
        return Some(copy_bytes(path));
    }
    if base.len() > path.len() {
        return None;
    }
    let mut i: usize = 0;
    while i < base.len()
        invariant
            0 <= i <= base@.len() <= path@.len(),
            forall|j: int| 0 <= j < i ==> path@[j] == base@[j],
        decreases base.len() - i,
    {
        if path[i] != base[i] {
            proof {
                assert(path@.take(base@.len() as int)[i as int] != base@[i as int]);
            }
            return None;
        }
        i += 1;
    }
    proof {
        assert(path@.take(base@.len() as int) =~= base@);
    }
    if path.len() == base.len() {
        proof {
            assert(path@.skip(base@.len() as int) =~= Seq::<u8>::empty());
        }
        return Some(Vec::new());
    }
    let ghost rest = path@.skip(base@.len() as int);
    assert(rest[0] == path@[base@.len() as int]);
    if path[base.len()] == 47u8 {
        let r = copy_range(path, base.len() + 1, path.len());
        proof {
            assert(r@ =~= rest.skip(1));
        }
        Some(r)
    } else if base[base.len() - 1] == 47u8 {
        let r = copy_range(path, base.len(), path.len());
        proof {
            assert(r@ =~= rest);
        }
        Some(r)
    } else {
        None
    }
}

/// Stripping undoes joining: for any base and any relative file path, the
/// joined path strips back to the file path.
pub proof fn lemma_strip_undoes_join(base: Seq<u8>, file: Seq<u8>)
    requires
        !(file.len() > 0 && file[0] == 47u8),
    ensures
        stripped(base, joined(base, file)) == Some(file),
{
    let path = joined(base, file);
    if base.len() == 0 {
    } else if base.last() == 47u8 {
        assert(path == base + file);
        assert(path.take(base.len() as int) =~= base);
        assert(path.skip(base.len() as int) =~= file);
        if file.len() > 0 {
            assert(file[0] != 47u8);
        }
    } else {
        assert(path == base + seq![47u8] + file);
        assert(path.take(base.len() as int) =~= base);
        let rest = path.skip(base.len() as int);
        assert(rest =~= seq![47u8] + file);
        assert(rest[0] == 47u8);
        assert(rest.skip(1) =~= file);
    }
}

/// Lexicographic order on byte strings, with a prefix before its
/// extensions.
pub open spec fn lex_le(a: Seq<u8>, b: Seq<u8>) -> bool
    decreases a.len(),
{
    if a.len() == 0 {
        true
    } else if b.len() == 0 {
        false
    } else if a[0] < b[0] {
        true
    } else if a[0] > b[0] {
        false
    } else {
        lex_le(a.drop_first(), b.drop_first())
    }
}

/// Strict lexicographic order.
pub open spec fn lex_lt(a: Seq<u8>, b: Seq<u8>) -> bool {
    lex_le(a, b) && a != b
}

/// Any two byte strings are ordered one way or the other.
pub proof fn lemma_lex_total(a: Seq<u8>, b: Seq<u8>)
    ensures
        lex_le(a, b) || lex_le(b, a),
    decreases a.len(),
{
    if a.len() > 0 && b.len() > 0 && a[0] == b[0] {
        lemma_lex_total(a.drop_first(), b.drop_first());
    }
}

/// Byte strings ordered both ways are equal.
pub proof fn lemma_lex_antisymmetric(a: Seq<u8>, b: Seq<u8>)
    requires
        lex_le(a, b),
        lex_le(b, a),
    ensures
        a == b,
    decreases a.len(),
{
    if a.len() == 0 {
        assert(b.len() == 0);
        assert(a =~= b);
    } else {
        lemma_lex_antisymmetric(a.drop_first(), b.drop_first());
        assert(a =~= seq![a[0]] + a.drop_first());
        assert(b =~= seq![b[0]] + b.drop_first());
    }
}

/// Lexicographic order is transitive.
pub proof fn lemma_lex_transitive(a: Seq<u8>, b: Seq<u8>, c: Seq<u8>)
    requires
        lex_le(a, b),
        lex_le(b, c),
    ensures
        lex_le(a, c),
    decreases a.len(),
{
    if a.len() > 0 && b.len() > 0 && c.len() > 0 && a[0] == b[0] && b[0] == c[0] {
        lemma_lex_transitive(a.drop_first(), b.drop_first(), c.drop_first());
    }
}

/// Equal prefixes do not decide the order.
proof fn lemma_lex_common_prefix(a: Seq<u8>, b: Seq<u8>, i: int)
    requires
        0 <= i <= a.len(),
        i <= b.len(),
        forall|j: int| 0 <= j < i ==> a[j] == b[j],
    ensures
        lex_le(a, b) == lex_le(a.skip(i), b.skip(i)),
    decreases i,
{
    if i > 0 {
        assert(a.len() > 0 && b.len() > 0 && a[0] == b[0]);
        assert forall|j: int| 0 <= j < i - 1 implies a.drop_first()[j] == b.drop_first()[j] by {
            assert(a[j + 1] == b[j + 1]);
        }
        lemma_lex_common_prefix(a.drop_first(), b.drop_first(), i - 1);
        assert(a.drop_first().skip(i - 1) =~= a.skip(i));
        assert(b.drop_first().skip(i - 1) =~= b.skip(i));
    } else {
        assert(a.skip(0) =~= a);
        assert(b.skip(0) =~= b);
    }
}

/// Compares two byte strings lexicographically.
pub fn lex_le_bytes(a: &Vec<u8>, b: &Vec<u8>) -> (r: bool)
    ensures
        r == lex_le(a@, b@),
{
    let mut i: usize = 0;
    loop
        invariant
            0 <= i <= a@.len(),
            i <= b@.len(),
            forall|j: int| 0 <= j < i ==> a@[j] == b@[j],
        decreases a@.len() - i,
    {
        proof {
            lemma_lex_common_prefix(a@, b@, i as int);
        }
        if i == a.len() {
            proof {
                assert(a@.skip(i as int).len() == 0);
            }
            return true;
        }
        if i == b.len() {
            proof {
                assert(b@.skip(i as int).len() == 0);
                assert(a@.skip(i as int).len() > 0);
            }
            return false;
        }
        proof {
            assert(a@.skip(i as int)[0] == a@[i as int]);
            assert(b@.skip(i as int)[0] == b@[i as int]);
        }
        if a[i] < b[i] {
            return true;
        }
        if a[i] > b[i] {
            return false;
        }
        i += 1;
    }
}

/// Whether the catalog is strictly ascending: sorted and without
/// duplicates.
pub open spec fn sorted_unique(s: Seq<Seq<u8>>) -> bool {
    forall|p: int, q: int| 0 <= p < q < s.len() ==> lex_lt(#[trigger] s[p], #[trigger] s[q])
}

/// Adds one track path to the sorted catalog, keeping it sorted and
/// dropping a duplicate.
pub fn insert_song(songs: &mut Vec<Vec<u8>>, path: &Vec<u8>)
    requires
        sorted_unique(views(old(songs)@)),
    ensures
        sorted_unique(views(final(songs)@)),
        forall|x: Seq<u8>| #[trigger] views(final(songs)@).contains(x) <==> views(
            old(songs)@,
        ).contains(x) || x == path@,
{
    let ghost before = views(songs@);
    let mut p: usize = 0;
    while p < songs.len() && lex_le_bytes(&songs[p], path) && !bytes_eq(&songs[p], path)
        invariant
            0 <= p <= songs@.len(),
            before == views(songs@),
            forall|q: int| 0 <= q < p ==> lex_lt(#[trigger] before[q], path@),
        decreases songs.len() - p,
    {
        assert(before[p as int] == songs@[p as int]@);
        p += 1;
    }
    if p < songs.len() {
        assert(before[p as int] == songs@[p as int]@);
        if bytes_eq(&songs[p], path) {
            proof {
                assert(before.contains(before[p as int]));
                assert forall|x: Seq<u8>| views(songs@).contains(x) <==> before.contains(x) || x
                    == path@ by {}
            }
            return ;
        }
    }
    proof {
        if p < before.len() {
            lemma_lex_total(before[p as int], path@);
            assert(lex_lt(path@, before[p as int]));
        }
    }
    let xc = copy_bytes(path);
    songs.insert(p, xc);
    proof {
        let after = views(songs@);
        assert(after =~= before.take(p as int) + seq![path@] + before.skip(p as int));
        assert forall|pp: int, qq: int| 0 <= pp < qq < after.len() implies lex_lt(
            #[trigger] after[pp],
            #[trigger] after[qq],
        ) by {
            let elem = |k: int|
                if k < p {
                    before[k]
                } else if k == p {
                    path@
                } else {
                    before[k - 1]
                };
            assert(after[pp] == elem(pp));
            assert(after[qq] == elem(qq));
            if pp < p && qq < p {
            } else if pp < p && qq == p {
            } else if pp == p && qq > p {
                if qq > p + 1 {
                    lemma_lex_lt_transfer(path@, before[p as int], before[qq - 1]);
                }
            } else if pp < p && qq > p {
            } else if pp == p && qq == p {
            } else if pp > p {
            } else if qq == p {
                // pp < p already covered; nothing left
            }
        }
        assert forall|x: Seq<u8>| after.contains(x) <==> before.contains(x) || x == path@ by {
            if after.contains(x) {
                let k = choose|k: int| 0 <= k < after.len() && after[k] == x;
                if k < p {
                    assert(before[k] == x);
                } else if k > p {
                    assert(before[k - 1] == x);
                }
            }
            if before.contains(x) {
                let k = choose|k: int| 0 <= k < before.len() && before[k] == x;
                if k < p {
                    assert(after[k] == x);
                } else {
                    assert(after[k + 1] == x);
                }
            }
            if x == path@ {
                assert(after[p as int] == x);
            }
        }
    }
}

/// Strict order carries across an element known to sit between.
pub proof fn lemma_lex_lt_transfer(a: Seq<u8>, b: Seq<u8>, c: Seq<u8>)
    requires
        lex_lt(a, b),
        lex_le(b, c),
    ensures
        lex_lt(a, c),
{
    lemma_lex_transitive(a, b, c);
    if a == c {
        lemma_lex_antisymmetric(a, b);
    }
}

/// Folds one page of search results into the catalog: afterwards the
/// catalog is still strictly ascending and holds exactly the old paths and
/// the page's paths.
pub fn merge_song_page(songs: &mut Vec<Vec<u8>>, page: &Vec<Vec<u8>>)
    requires
        sorted_unique(views(old(songs)@)),
    ensures
        sorted_unique(views(final(songs)@)),
        forall|x: Seq<u8>| #[trigger] views(final(songs)@).contains(x) <==> views(
            old(songs)@,
        ).contains(x) || views(page@).contains(x),
{
    let ghost before = views(songs@);
    let ghost pvs = views(page@);
    let mut i: usize = 0;
    while i < page.len()
        invariant
            0 <= i <= page@.len(),
            pvs == views(page@),
            sorted_unique(views(songs@)),
            forall|x: Seq<u8>| #[trigger] views(songs@).contains(x) <==> before.contains(x)
                || pvs.take(i as int).contains(x),
        decreases page.len() - i,
    {
        let ghost mid = views(songs@);
        insert_song(songs, &page[i]);
        proof {
            let grown = pvs.take(i + 1);
            let seen = pvs.take(i as int);
            assert(pvs[i as int] == page@[i as int]@);
            assert forall|x: Seq<u8>| #[trigger] views(songs@).contains(x) <==> before.contains(x)
                || grown.contains(x) by {
                assert(views(songs@).contains(x) <==> mid.contains(x) || x == pvs[i as int]);
                if grown.contains(x) {
                    let k = choose|k: int| 0 <= k < grown.len() && grown[k] == x;
                    if k < i {
                        assert(seen[k] == x);
                    }
                }
                if seen.contains(x) {
                    let k = choose|k: int| 0 <= k < seen.len() && seen[k] == x;
                    assert(grown[k] == x);
                }
                if x == pvs[i as int] {
                    assert(grown[i as int] == x);
                }
            }
        }
        i += 1;
    }
    proof {
        assert(pvs.take(page@.len() as int) =~= pvs);
    }
}

} // verus!
