//! The queue synchronizer's decision core.
//!
//! One synchronization run owns a pin (the anchor track), a snapshot of the
//! remote play queue as it last looked, and the set of tracks the run itself
//! pushed.  The player only reports that "something changed" in the queue;
//! the run must re-derive intent from a diff.  A change is self-caused when
//! every entry of the new queue is explained by the previous snapshot or by
//! the self-added set; a mere reshuffle keeps the queue's content as a
//! multiset.  Anything else means the user intervened, and the run ends so
//! the caller can re-anchor on the track now playing.
//!
//! The shell around this module performs the player commands and the
//! blocking wait; every decision it acts on is computed here.  Tracks are
//! identified by their reference (the library-relative path as bytes), never
//! by player-assigned queue ids, which are not stable across mutations.

use vstd::prelude::*;

verus! {

use crate::bytes::bytes_eq;
use vstd::multiset::Multiset;

/// A fatal condition for one synchronization run.
#[derive(Clone, Copy, Debug, PartialEq, Eq, Structural)]
pub enum SyncError {
    /// The candidate sequence was empty when a track had to be queued.
    Exhausted,
    /// The player reported no current playback position.
    MissingPosition,
}

/// What a queue-change notification means for the run.
#[derive(Clone, Copy, Debug, PartialEq, Eq, Structural)]
pub enum Observation {
    /// The queue changed in a way the run cannot explain: the pin is stale
    /// and the run must end so the caller can re-anchor.
    PinChanged,
    /// Playback is at (or past) the last queue slot: the next candidate
    /// must be pushed.
    NeedNext,
    /// The change is explained; nothing to do until the next notification.
    Idle,
}

/// The track references of a queue snapshot.
pub open spec fn refs(q: Seq<Vec<u8>>) -> Seq<Seq<u8>> {
    crate::bytes::views(q)
}

/// Whether every entry of `new` is already in `last` or was pushed by the
/// run itself (`added`): the test for self-driven growth.
pub open spec fn explained(new: Seq<Seq<u8>>, last: Seq<Seq<u8>>, added: Seq<Seq<u8>>) -> bool {
    forall|i: int| 0 <= i < new.len() ==> last.contains(#[trigger] new[i]) || added.contains(new[i])
}

/// Whether two queues hold the same track references, in any order.
pub open spec fn same_content(a: Seq<Seq<u8>>, b: Seq<Seq<u8>>) -> bool {
    a.to_multiset() == b.to_multiset()
}

/// The pin-change rule.  When the queue grew or shrank, the pin survives
/// only if the new content is fully explained by the previous snapshot plus
/// the self-added set.  When the length is unchanged, the pin survives only
/// a reshuffle: the content, compared as a multiset of track references,
/// must be identical.
pub open spec fn pin_changed(new: Seq<Seq<u8>>, last: Seq<Seq<u8>>, added: Seq<Seq<u8>>) -> bool {
    if new.len() != last.len() {
        !explained(new, last, added)
    } else {
        !same_content(new, last)
    }
}

/// Whether replenishment is due: playback sits at or past the last queue
/// slot, or the queue holds at most one entry.
pub open spec fn needs_push(pos: u32, queue_len: u32) -> bool {
    (queue_len > 1 && pos >= queue_len - 1) || queue_len <= 1
}

/// How often `x` occurs in `s`.
pub open spec fn count_of(s: Seq<Seq<u8>>, x: Seq<u8>) -> nat
    decreases s.len(),
{
    if s.len() == 0 {
        0
    } else {
        count_of(s.drop_last(), x) + if s.last() == x {
            1nat
        } else {
            0nat
        }
    }
}

/// `count_of` agrees with the multiset view of the sequence.
pub proof fn lemma_count_of_is_multiset_count(s: Seq<Seq<u8>>, x: Seq<u8>)
    ensures
        count_of(s, x) == s.to_multiset().count(x),
    decreases s.len(),
{
    broadcast use vstd::seq_lib::group_to_multiset_ensures;

    if s.len() == 0 {
        assert(s.to_multiset() =~= Multiset::empty());
    } else {
        lemma_count_of_is_multiset_count(s.drop_last(), x);
        assert(s =~= s.drop_last().push(s.last()));
    }
}

/// An occurrence count never exceeds the sequence's length.
proof fn lemma_count_of_le_len(s: Seq<Seq<u8>>, x: Seq<u8>)
    ensures
        count_of(s, x) <= s.len(),
    decreases s.len(),
{
    if s.len() > 0 {
        lemma_count_of_le_len(s.drop_last(), x);
    }
}

/// Whether the queue `q` holds the track reference `x@`.
fn contains_ref(q: &Vec<Vec<u8>>, x: &Vec<u8>) -> (r: bool)
    ensures
        r == refs(q@).contains(x@),
{
    let mut i: usize = 0;
    while i < q.len()
        invariant
            0 <= i <= q.len(),
            forall|j: int| 0 <= j < i ==> refs(q@)[j] != x@,
        decreases q.len() - i,
    {
        if bytes_eq(&q[i], x) {
            assert(refs(q@)[i as int] == x@);
            return true;
        }
        assert(refs(q@)[i as int] == q@[i as int]@);
        i += 1;
    }
    assert(forall|j: int| 0 <= j < refs(q@).len() ==> refs(q@)[j] != x@);
    false
}

/// How many entries of `q` hold the track reference `x@`.
fn count_ref(q: &Vec<Vec<u8>>, x: &Vec<u8>) -> (r: usize)
    ensures
        r == count_of(refs(q@), x@),
{
    proof {
        lemma_count_of_le_len(refs(q@), x@);
    }
    let mut n: usize = 0;
    let mut i: usize = 0;
    while i < q.len()
        invariant
            0 <= i <= q.len(),
            n == count_of(refs(q@).take(i as int), x@),
            n <= i,
        decreases q.len() - i,
    {
        proof {
            assert(refs(q@).take(i + 1).drop_last() =~= refs(q@).take(i as int));
            assert(refs(q@).take(i + 1).last() == q@[i as int]@);
        }
        if bytes_eq(&q[i], x) {
            n += 1;
        }
        i += 1;
    }
    proof {
        assert(refs(q@).take(i as int) =~= refs(q@));
    }
    n
}

/// Whether `a` and `b` hold the same track references as multisets.
fn same_multiset(a: &Vec<Vec<u8>>, b: &Vec<Vec<u8>>) -> (r: bool)
    ensures
        r == same_content(refs(a@), refs(b@)),
{
    broadcast use vstd::seq_lib::group_to_multiset_ensures;

    if a.len() != b.len() {
        proof {
            assert(refs(a@).to_multiset().len() == refs(a@).len());
            assert(refs(b@).to_multiset().len() == refs(b@).len());
        }
        return false;
    }
    let mut i: usize = 0;
    while i < a.len()
        invariant
            0 <= i <= a.len(),
            a@.len() == b@.len(),
            forall|j: int| 0 <= j < i ==> count_of(refs(a@), #[trigger] refs(a@)[j]) == count_of(
                refs(b@),
                refs(a@)[j],
            ),
        decreases a.len() - i,
    {
        let ca = count_ref(a, &a[i]);
        let cb = count_ref(b, &a[i]);
        assert(refs(a@)[i as int] == a@[i as int]@);
        if ca != cb {
            proof {
                lemma_count_of_is_multiset_count(refs(a@), a@[i as int]@);
                lemma_count_of_is_multiset_count(refs(b@), a@[i as int]@);
            }
            return false;
        }
        i += 1;
    }
    let mut k: usize = 0;
    while k < b.len()
        invariant
            0 <= k <= b.len(),
            a@.len() == b@.len(),
            forall|j: int| 0 <= j < a@.len() ==> count_of(refs(a@), #[trigger] refs(a@)[j])
                == count_of(refs(b@), refs(a@)[j]),
            forall|j: int| 0 <= j < k ==> count_of(refs(a@), #[trigger] refs(b@)[j]) == count_of(
                refs(b@),
                refs(b@)[j],
            ),
        decreases b.len() - k,
    {
        let ca = count_ref(a, &b[k]);
        let cb = count_ref(b, &b[k]);
        assert(refs(b@)[k as int] == b@[k as int]@);
        if ca != cb {
            proof {
                lemma_count_of_is_multiset_count(refs(a@), b@[k as int]@);
                lemma_count_of_is_multiset_count(refs(b@), b@[k as int]@);
            }
            return false;
        }
        k += 1;
    }
    proof {
        let ma = refs(a@).to_multiset();
        let mb = refs(b@).to_multiset();
        assert forall|x: Seq<u8>| ma.count(x) == mb.count(x) by {
            lemma_count_of_is_multiset_count(refs(a@), x);
            lemma_count_of_is_multiset_count(refs(b@), x);
            if ma.count(x) > 0 {
                assert(refs(a@).contains(x));
                let j = choose|j: int| 0 <= j < refs(a@).len() && refs(a@)[j] == x;
                assert(count_of(refs(a@), refs(a@)[j]) == count_of(refs(b@), refs(a@)[j]));
            } else if mb.count(x) > 0 {
                assert(refs(b@).contains(x));
                let j = choose|j: int| 0 <= j < refs(b@).len() && refs(b@)[j] == x;
                assert(count_of(refs(a@), refs(b@)[j]) == count_of(refs(b@), refs(b@)[j]));
            }
        }
        assert(ma =~= mb);
    }
    true
}

/// Whether every entry of `new` is in `last` or in `added`.
fn all_explained(new: &Vec<Vec<u8>>, last: &Vec<Vec<u8>>, added: &Vec<Vec<u8>>) -> (r: bool)
    ensures
        r == explained(refs(new@), refs(last@), refs(added@)),
{
    let mut i: usize = 0;
    while i < new.len()
        invariant
            0 <= i <= new.len(),
            forall|j: int| 0 <= j < i ==> refs(last@).contains(#[trigger] refs(new@)[j]) || refs(
                added@,
            ).contains(refs(new@)[j]),
        decreases new.len() - i,
    {
        let in_last = contains_ref(last, &new[i]);
        let in_added = if in_last {
            true
        } else {
            contains_ref(added, &new[i])
        };
        assert(refs(new@)[i as int] == new@[i as int]@);
        if !in_last && !in_added {
            return false;
        }
        i += 1;
    }
    true
}

/// One synchronization run's state: the previous queue snapshot and the
/// tracks this run itself pushed.  Both are run-local and unshared.
pub struct SyncState {
    /// The remote queue as it looked after the last explained change.
    pub last_queue: Vec<Vec<u8>>,
    /// Every track reference this run pushed, in push order.
    pub songs_added: Vec<Vec<u8>>,
}

impl SyncState {
    /// A fresh run: no snapshot, nothing pushed yet.
    pub fn new() -> (r: SyncState)
        ensures
            r.last_queue@.len() == 0,
            r.songs_added@.len() == 0,
    {
        SyncState { last_queue: Vec::new(), songs_added: Vec::new() }
    }

    /// Records the queue snapshot taken right after priming, so later
    /// notifications are diffed against it.
    pub fn set_snapshot(&mut self, queue: Vec<Vec<u8>>)
        ensures
            final(self).last_queue == queue,
            final(self).songs_added == old(self).songs_added,
    {
        self.last_queue = queue;
    }

    /// Takes the next candidate for pushing.  An exhausted candidate
    /// sequence is fatal for the run; otherwise the track joins the
    /// self-added set and is handed back for the shell to push.
    pub fn push_candidate(&mut self, next: Option<Vec<u8>>) -> (r: Result<Vec<u8>, SyncError>)
        ensures
            match next {
                None => {
                    &&& r == Err::<Vec<u8>, SyncError>(SyncError::Exhausted)
                    &&& *final(self) == *old(self)
                },
                Some(t) => {
                    &&& r is Ok
                    &&& r.unwrap()@ == t@
                    &&& final(self).songs_added@ == old(self).songs_added@.push(t)
                    &&& final(self).last_queue == old(self).last_queue
                },
            },
    {
        match next {
            None => Err(SyncError::Exhausted),
            Some(t) => {
                let copy = crate::bytes::copy_bytes(&t);
                self.songs_added.push(t);
                Ok(copy)
            },
        }
    }

    /// Digests one queue-change notification.
    ///
    /// `new_queue` is the fresh snapshot, `song_pos` the playback position
    /// the player reported (if any), and `queue_len` the queue length it
    /// reported.  If the diff against the previous snapshot is not
    /// explained by the run's own pushes, the pin is stale and the state is
    /// left untouched.  Otherwise the snapshot is recorded as the new
    /// baseline — but a missing playback position is a protocol desync and
    /// fatal for the run — and the result says whether replenishment is
    /// due.
    pub fn observe(
        &mut self,
        new_queue: Vec<Vec<u8>>,
        song_pos: Option<u32>,
        queue_len: u32,
    ) -> (r: Result<Observation, SyncError>)
        ensures
            pin_changed(
                refs(new_queue@),
                refs(old(self).last_queue@),
                refs(old(self).songs_added@),
            ) ==> {
                &&& r == Ok::<Observation, SyncError>(Observation::PinChanged)
                &&& *final(self) == *old(self)
            },
            !pin_changed(
                refs(new_queue@),
                refs(old(self).last_queue@),
                refs(old(self).songs_added@),
            ) ==> match song_pos {
                None => {
                    &&& r == Err::<Observation, SyncError>(SyncError::MissingPosition)
                    &&& *final(self) == *old(self)
                },
                Some(pos) => {
                    &&& r == Ok::<Observation, SyncError>(
                        if needs_push(pos, queue_len) {
                            Observation::NeedNext
                        } else {
                            Observation::Idle
                        },
                    )
                    &&& final(self).last_queue == new_queue
                    &&& final(self).songs_added == old(self).songs_added
                },
            },
    {
        let changed = if new_queue.len() != self.last_queue.len() {
            !all_explained(&new_queue, &self.last_queue, &self.songs_added)
        } else {
            !same_multiset(&new_queue, &self.last_queue)
        };
        if changed {
            return Ok(Observation::PinChanged);
        }
        match song_pos {
            None => Err(SyncError::MissingPosition),
            Some(pos) => {
                let need = (queue_len > 1 && pos >= queue_len - 1) || queue_len <= 1;
                self.last_queue = new_queue;
                Ok(
                    if need {
                        Observation::NeedNext
                    } else {
                        Observation::Idle
                    },
                )
            },
        }
    }
}

/// Growth caused only by the run's own pushes never looks like a pin
/// change: if the new queue is the previous snapshot with some self-added
/// tracks appended, every entry is explained and, when nothing was
/// appended, the content is unchanged.
pub proof fn lemma_self_growth_keeps_pin(
    last: Seq<Seq<u8>>,
    added: Seq<Seq<u8>>,
    appended: Seq<Seq<u8>>,
)
    requires
        forall|i: int| 0 <= i < appended.len() ==> added.contains(#[trigger] appended[i]),
    ensures
        !pin_changed(last + appended, last, added),
{
    let new = last + appended;
    if appended.len() == 0 {
        assert(new =~= last);
    } else {
        assert forall|i: int| 0 <= i < new.len() implies last.contains(#[trigger] new[i])
            || added.contains(new[i]) by {
            if i < last.len() {
                assert(new[i] == last[i]);
            } else {
                assert(new[i] == appended[i - last.len()]);
            }
        }
    }
}

/// One externally introduced track always ends the run: an entry that is
/// neither in the previous snapshot nor in the self-added set makes the new
/// queue unexplained (and, at unchanged length, changes its content).
pub proof fn lemma_external_track_changes_pin(
    new: Seq<Seq<u8>>,
    last: Seq<Seq<u8>>,
    added: Seq<Seq<u8>>,
    i: int,
)
    requires
        0 <= i < new.len(),
        !last.contains(new[i]),
        !added.contains(new[i]),
    ensures
        pin_changed(new, last, added),
{
    broadcast use vstd::seq_lib::group_to_multiset_ensures;

    if new.len() == last.len() {
        assert(new.to_multiset().count(new[i]) > 0);
        assert(last.to_multiset().count(new[i]) == 0);
    }
}

/// Reshuffling never ends the run: a queue holding the same track
/// references as the previous snapshot, in any order, is no pin change.
pub proof fn lemma_reshuffle_keeps_pin(new: Seq<Seq<u8>>, last: Seq<Seq<u8>>, added: Seq<Seq<u8>>)
    requires
        new.to_multiset() == last.to_multiset(),
    ensures
        !pin_changed(new, last, added),
{
    broadcast use vstd::seq_lib::group_to_multiset_ensures;

    assert(new.len() == new.to_multiset().len());
    assert(last.len() == last.to_multiset().len());
}

/// The queue left after deleting the positions `start..end`.
pub open spec fn apply_delete(q: Seq<Seq<u8>>, start: int, end: int) -> Seq<Seq<u8>> {
    q.take(start) + q.skip(end)
}

/// A queue after a sequence of range deletions, each against the queue the
/// previous one left.
pub open spec fn apply_plan(q: Seq<Seq<u8>>, plan: Seq<(u32, u32)>) -> Seq<Seq<u8>>
    decreases plan.len(),
{
    if plan.len() == 0 {
        q
    } else {
        apply_plan(apply_delete(q, plan[0].0 as int, plan[0].1 as int), plan.drop_first())
    }
}

/// The deletions that clear the queue around the pin when a run primes
/// without keeping the old queue: everything before the pin's position,
/// then everything after the pin.  Applied to any queue of the given
/// length, the plan leaves exactly the pinned entry.
pub fn clear_plan(pin_pos: u32, queue_len: u32) -> (r: Vec<(u32, u32)>)
    requires
        pin_pos < queue_len,
    ensures
        forall|q: Seq<Seq<u8>>| q.len() == queue_len ==> #[trigger] apply_plan(q, r@) == seq![
            q[pin_pos as int],
        ],
{
    let mut plan: Vec<(u32, u32)> = Vec::new();
    if pin_pos > 0 {
        plan.push((0, pin_pos));
    }
    let remaining = queue_len - pin_pos;
    if remaining > 1 {
        plan.push((1, remaining));
    }
    proof {
        let ghost none: Seq<(u32, u32)> = Seq::empty();
        assert forall|q: Seq<Seq<u8>>| q.len() == queue_len implies #[trigger] apply_plan(q, plan@)
            == seq![q[pin_pos as int]] by {
            let q1 = apply_delete(q, 0, pin_pos as int);
            assert(q1 =~= q.skip(pin_pos as int));
            assert(q1.len() == remaining);
            if pin_pos > 0 {
                assert(plan@[0] == (0u32, pin_pos));
                assert(apply_plan(q, plan@) == apply_plan(q1, plan@.drop_first()));
                if remaining > 1 {
                    assert(plan@.drop_first() =~= seq![(1u32, remaining)]);
                    let q2 = apply_delete(q1, 1, remaining as int);
                    assert(q2 =~= seq![q[pin_pos as int]]);
                    assert(plan@.drop_first().drop_first() =~= none);
                    assert(apply_plan(q1, plan@.drop_first()) == apply_plan(q2, none));
                    assert(apply_plan(q2, none) == q2);
                } else {
                    assert(plan@.drop_first() =~= none);
                    assert(q1 =~= seq![q[pin_pos as int]]);
                    assert(apply_plan(q1, none) == q1);
                }
            } else {
                assert(q1 =~= q);
                if remaining > 1 {
                    assert(plan@ =~= seq![(1u32, remaining)]);
                    let q2 = apply_delete(q, 1, remaining as int);
                    assert(q2 =~= seq![q[pin_pos as int]]);
                    assert(plan@.drop_first() =~= none);
                    assert(apply_plan(q, plan@) == apply_plan(q2, none));
                    assert(apply_plan(q2, none) == q2);
                } else {
                    assert(plan@ =~= none);
                    assert(apply_plan(q, none) == q);
                    assert(q =~= seq![q[pin_pos as int]]);
                }
            }
        }
    }
    plan
}

} // verus!
