use worf::sync::{clear_plan, Observation, SyncError, SyncState};

fn b(s: &str) -> Vec<u8> {
    s.as_bytes().to_vec()
}

#[test]
fn self_pushes_never_change_pin() {
    // A run that primes on [pin], pushes two candidates of its own, and
    // sees only its own growth: the pin must survive every notification.
    let mut state = SyncState::new();
    state.set_snapshot(vec![b("pin")]);
    let first = state.push_candidate(Some(b("next1"))).unwrap();
    assert_eq!(first, b("next1"));
    let r = state.observe(vec![b("pin"), b("next1")], Some(0), 2);
    assert_eq!(r, Ok(Observation::Idle));
    let r = state.observe(vec![b("pin"), b("next1")], Some(1), 2);
    assert_eq!(r, Ok(Observation::NeedNext));
    state.push_candidate(Some(b("next2"))).unwrap();
    let r = state.observe(vec![b("pin"), b("next1"), b("next2")], Some(1), 3);
    assert_eq!(r, Ok(Observation::Idle));
}

#[test]
fn external_track_changes_pin() {
    // One track that the run neither saw nor pushed ends the run.
    let mut state = SyncState::new();
    state.set_snapshot(vec![b("pin"), b("next")]);
    state.push_candidate(Some(b("next"))).unwrap();
    let r = state.observe(vec![b("pin"), b("next"), b("intruder")], Some(0), 3);
    assert_eq!(r, Ok(Observation::PinChanged));
}

#[test]
fn external_track_changes_pin_at_same_length() {
    // Replacing an entry keeps the length but changes the content.
    let mut state = SyncState::new();
    state.set_snapshot(vec![b("pin"), b("next")]);
    let r = state.observe(vec![b("pin"), b("other")], Some(0), 2);
    assert_eq!(r, Ok(Observation::PinChanged));
}

#[test]
fn reshuffle_keeps_pin() {
    // Permuting the queue without changing its content is no pin change.
    let mut state = SyncState::new();
    state.set_snapshot(vec![b("a"), b("b"), b("c")]);
    let r = state.observe(vec![b("c"), b("a"), b("b")], Some(0), 3);
    assert_eq!(r, Ok(Observation::Idle));
}

#[test]
fn reshuffle_respects_duplicate_counts() {
    // [a, a] and [a, b] have the same length but different content.
    let mut state = SyncState::new();
    state.set_snapshot(vec![b("a"), b("b")]);
    let r = state.observe(vec![b("a"), b("a")], Some(0), 2);
    assert_eq!(r, Ok(Observation::PinChanged));
}

#[test]
fn shrinking_to_known_tracks_keeps_pin() {
    // Entries disappearing (all that remain were known) is self-consistent.
    let mut state = SyncState::new();
    state.set_snapshot(vec![b("a"), b("b"), b("c")]);
    let r = state.observe(vec![b("a"), b("c")], Some(1), 2);
    assert_eq!(r, Ok(Observation::NeedNext));
}

#[test]
fn missing_position_is_fatal() {
    // An explained change with no playback position is a protocol desync.
    let mut state = SyncState::new();
    state.set_snapshot(vec![b("a")]);
    let r = state.observe(vec![b("a")], None, 1);
    assert_eq!(r, Err(SyncError::MissingPosition));
}

#[test]
fn position_is_not_read_when_pin_changes() {
    // The pin-change exit comes before the position is needed.
    let mut state = SyncState::new();
    state.set_snapshot(vec![b("a")]);
    let r = state.observe(vec![b("intruder")], None, 1);
    assert_eq!(r, Ok(Observation::PinChanged));
}

#[test]
fn replenishment_only_at_queue_end() {
    let mut state = SyncState::new();
    state.set_snapshot(vec![b("a"), b("b"), b("c")]);
    let r = state.observe(vec![b("a"), b("b"), b("c")], Some(1), 3);
    assert_eq!(r, Ok(Observation::Idle));
    let r = state.observe(vec![b("a"), b("b"), b("c")], Some(2), 3);
    assert_eq!(r, Ok(Observation::NeedNext));
}

#[test]
fn single_entry_queue_needs_push() {
    let mut state = SyncState::new();
    state.set_snapshot(vec![b("a")]);
    let r = state.observe(vec![b("a")], Some(0), 1);
    assert_eq!(r, Ok(Observation::NeedNext));
}

#[test]
fn exhausted_candidates_are_fatal() {
    // Priming over a library of one track: the candidate sequence is empty
    // once the pin is skipped, and the pop must fail rather than re-queue
    // the pin.
    let mut state = SyncState::new();
    state.set_snapshot(vec![b("pin")]);
    let r = state.push_candidate(None);
    assert_eq!(r, Err(SyncError::Exhausted));
}

fn apply_plan_to(queue: &mut Vec<Vec<u8>>, plan: &[(u32, u32)]) {
    for (start, end) in plan {
        queue.drain(*start as usize..*end as usize);
    }
}

#[test]
fn clear_plan_leaves_only_pin() {
    let mut queue = vec![b("a"), b("b"), b("pin"), b("c"), b("d")];
    let plan = clear_plan(2, 5);
    apply_plan_to(&mut queue, &plan);
    assert_eq!(queue, vec![b("pin")]);
}

#[test]
fn clear_plan_on_single_entry_queue_is_empty() {
    let plan = clear_plan(0, 1);
    assert!(plan.is_empty());
}

#[test]
fn clear_plan_with_pin_first() {
    let mut queue = vec![b("pin"), b("x"), b("y")];
    let plan = clear_plan(0, 3);
    apply_plan_to(&mut queue, &plan);
    assert_eq!(queue, vec![b("pin")]);
}

#[test]
fn priming_then_foreign_tail_insert_changes_pin() {
    // The queue starts as [pin]; priming with the old queue discarded
    // leaves [pin], pushes the nearest candidate, and snapshots
    // [pin, next].  A track inserted at the tail by someone else must end
    // the run.
    let mut queue = vec![b("pin")];
    let plan = clear_plan(0, 1);
    apply_plan_to(&mut queue, &plan);
    assert_eq!(queue, vec![b("pin")]);

    let mut state = SyncState::new();
    let pushed = state.push_candidate(Some(b("next"))).unwrap();
    queue.push(pushed);
    assert_eq!(queue, vec![b("pin"), b("next")]);
    state.set_snapshot(queue.clone());

    queue.push(b("foreign"));
    let r = state.observe(queue, Some(0), 3);
    assert_eq!(r, Ok(Observation::PinChanged));
}
