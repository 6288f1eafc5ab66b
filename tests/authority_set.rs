use grandpa_accountability::authority::{Event, Module, StoredPendingChange};
use grandpa_accountability::decode::{encode_stored_change, OldStoredPendingChange};
use grandpa_accountability::digest::{encode_signal, Signal, GRANDPA_ENGINE_ID};
use grandpa_accountability::primitives::{Error, ScheduledChange};

const A: u64 = 1;
const B: u64 = 2;
const C: u64 = 3;
const D: u64 = 4;

fn genesis() -> Module {
    Module::new(vec![(A, 1), (B, 1), (C, 1)])
}

#[test]
fn second_change_while_pending_fails() {
    let mut m = genesis();
    assert_eq!(m.schedule_change(vec![(A, 1)], 3, None, 10), Ok(()));
    for (delay, forced) in [(0u64, None), (3, None), (7, Some(2u64)), (0, Some(0))] {
        assert_eq!(
            m.schedule_change(vec![(B, 1)], delay, forced, 11),
            Err(Error::ChangeAlreadyPending)
        );
    }
    let pc = m.pending_change.as_ref().unwrap();
    assert_eq!(pc.next_authorities, vec![(A, 1)]);
    assert_eq!(pc.scheduled_at, 10);
    assert_eq!(pc.delay, 3);
}

#[test]
fn forced_change_cooldown() {
    let mut m = genesis();
    assert_eq!(m.schedule_change(vec![(A, 1), (D, 1)], 5, Some(7), 10), Ok(()));
    assert_eq!(m.next_forced, Some(20));
    m.on_finalize(10);
    m.on_finalize(15);
    assert!(m.pending_change.is_none());
    assert_eq!(m.authorities, vec![(A, 1), (D, 1)]);
    assert_eq!(m.schedule_change(vec![(B, 1)], 1, Some(9), 19), Err(Error::ForcedTooSoon));
    assert!(m.pending_change.is_none());
    assert_eq!(m.schedule_change(vec![(B, 1)], 1, Some(9), 20), Ok(()));
    assert_eq!(m.next_forced, Some(22));
}

#[test]
fn unforced_change_ignores_cooldown() {
    let mut m = genesis();
    m.next_forced = Some(100);
    assert_eq!(m.schedule_change(vec![(B, 1)], 2, None, 50), Ok(()));
    assert_eq!(m.next_forced, Some(100));
}

#[test]
fn cooldown_saturates_at_the_largest_height() {
    let mut m = genesis();
    assert_eq!(m.schedule_change(vec![(B, 1)], u64::MAX / 2 + 1, Some(0), 5), Ok(()));
    assert_eq!(m.next_forced, Some(u64::MAX));
}

#[test]
fn end_to_end_change() {
    let mut m = genesis();
    assert_eq!(m.schedule_change(vec![(A, 1), (B, 1), (D, 1)], 5, None, 10), Ok(()));
    assert!(m.pending_change.is_some());
    m.on_finalize(10);
    assert_eq!(m.logs.len(), 1);
    assert_eq!(m.logs[0].engine, GRANDPA_ENGINE_ID);
    let expected = Signal::AuthoritiesChange(ScheduledChange {
        next_authorities: vec![(A, 1), (B, 1), (D, 1)],
        delay: 5,
    });
    assert_eq!(m.logs[0].data, encode_signal(&expected));
    assert_eq!(Module::pending_change(&m.logs), Some(ScheduledChange {
        next_authorities: vec![(A, 1), (B, 1), (D, 1)],
        delay: 5,
    }));
    assert_eq!(m.authorities, vec![(A, 1), (B, 1), (C, 1)]);
    assert_eq!(
        m.schedule_change(vec![(C, 1)], 1, None, 11),
        Err(Error::ChangeAlreadyPending)
    );
    m.on_finalize(11);
    assert_eq!(m.authorities, vec![(A, 1), (B, 1), (C, 1)]);
    m.on_finalize(15);
    assert_eq!(m.authorities, vec![(A, 1), (B, 1), (D, 1)]);
    assert!(m.pending_change.is_none());
    assert_eq!(m.events, vec![Event::NewAuthorities(vec![(A, 1), (B, 1), (D, 1)])]);
    assert_eq!(m.logs.len(), 1);
}

#[test]
fn zero_delay_change_signals_and_applies_in_one_block() {
    let mut m = genesis();
    assert_eq!(m.schedule_change(vec![(D, 2)], 0, None, 4), Ok(()));
    m.on_finalize(4);
    assert_eq!(m.logs.len(), 1);
    assert_eq!(m.authorities, vec![(D, 2)]);
    assert!(m.pending_change.is_none());
}

#[test]
fn forced_change_is_signaled_as_forced() {
    let mut m = genesis();
    assert_eq!(m.schedule_change(vec![(D, 1)], 3, Some(8), 12), Ok(()));
    m.on_finalize(12);
    let (median, change) = Module::forced_change(&m.logs).unwrap();
    assert_eq!(median, 8);
    assert_eq!(change.delay, 3);
    assert_eq!(change.next_authorities, vec![(D, 1)]);
    assert_eq!(Module::pending_change(&m.logs), None);
}

#[test]
fn grandpa_authorities_is_the_current_set() {
    let m = genesis();
    assert_eq!(m.grandpa_authorities(), vec![(A, 1), (B, 1), (C, 1)]);
}

#[test]
fn new_session_schedules_an_instant_change() {
    let mut m = genesis();
    m.on_new_session(true, &vec![A, D], 30);
    let pc = m.pending_change.as_ref().unwrap();
    assert_eq!(pc.next_authorities, vec![(A, 1), (D, 1)]);
    assert_eq!(pc.delay, 0);
    assert_eq!(pc.forced, None);
    assert_eq!(pc.scheduled_at, 30);
    assert_eq!(m.next_forced, None);
    assert_eq!(m.stalled, None);
}

#[test]
fn new_session_after_stall_forces_a_change() {
    let mut m = genesis();
    m.on_stalled(6, 25);
    assert_eq!(m.stalled, Some((6, 25)));
    m.on_new_session(true, &vec![B, D], 30);
    let pc = m.pending_change.as_ref().unwrap();
    assert_eq!(pc.delay, 6);
    assert_eq!(pc.forced, Some(25));
    assert_eq!(m.stalled, None);
    assert_eq!(m.next_forced, Some(42));
}

#[test]
fn new_session_without_change_does_nothing() {
    let mut m = genesis();
    m.on_new_session(false, &vec![D], 30);
    assert!(m.pending_change.is_none());
    m.on_new_session(true, &vec![A, B, C], 30);
    assert!(m.pending_change.is_none());
    m.on_disabled(0);
    assert_eq!(m.authorities, vec![(A, 1), (B, 1), (C, 1)]);
}

#[test]
fn stored_pending_change_reads_old_and_new_formats() {
    let forced = StoredPendingChange {
        scheduled_at: 3,
        delay: 4,
        next_authorities: vec![(A, 1), (B, 2)],
        forced: Some(9),
    };
    let bytes = encode_stored_change(&forced);
    assert_eq!(bytes.len(), 8 + 8 + 8 + 32 + 1 + 8);
    assert_eq!(StoredPendingChange::decode(&bytes), Some(forced));
    let plain = StoredPendingChange {
        scheduled_at: 3,
        delay: 4,
        next_authorities: vec![(A, 1)],
        forced: None,
    };
    let mut old = encode_stored_change(&plain);
    old.pop();
    assert_eq!(StoredPendingChange::decode(&old), Some(plain));
    assert_eq!(StoredPendingChange::decode(&vec![1, 2, 3]), None);
}

#[test]
fn old_format_reads_without_the_median() {
    let plain = StoredPendingChange { scheduled_at: 1, delay: 2, next_authorities: vec![(C, 3)], forced: None };
    let bytes = encode_stored_change(&plain);
    let (old, end) = OldStoredPendingChange::decode(&bytes).unwrap();
    assert_eq!((old.scheduled_at, old.delay, old.next_authorities), (1, 2, vec![(C, 3)]));
    assert_eq!(end, bytes.len() - 1);
}
