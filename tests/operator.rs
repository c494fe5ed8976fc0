use upsert::codec::{Datum, Row, UpsertError, UpsertKey, UpsertValue};
use upsert::operator::{InputRecord, Rehydration, UpsertFatal, UpsertOperator, UpsertUpdate};
use upsert::state::InMemoryState;

fn value_row(k: i64, payload: &str) -> Row {
    Row { datums: vec![Datum::Int64(k), Datum::Bytes(payload.as_bytes().to_vec())] }
}

fn key_of(k: i64) -> UpsertKey {
    UpsertKey::from_key(Ok(&Row { datums: vec![Datum::Int64(k)] }))
}

fn set(k: i64, payload: &str, order: u64, time: u64) -> InputRecord {
    ((key_of(k), Some(Ok(value_row(k, payload))), order), time, 1)
}

fn delete(k: i64, order: u64, time: u64) -> InputRecord {
    ((key_of(k), None, order), time, 1)
}

fn update(k: i64, value: UpsertValue, time: u64, diff: i64) -> UpsertUpdate {
    UpsertUpdate { key: key_of(k), value, time, diff }
}

fn fresh_operator() -> UpsertOperator<InMemoryState> {
    let mut r = Rehydration::new(vec![0], Some(0));
    r.give_previous(vec![]);
    assert!(r.previous_complete(Some(0)));
    r.finish(InMemoryState::new()).unwrap()
}

fn net_for_key(out: &[UpsertUpdate], k: i64) -> i64 {
    let key = key_of(k);
    out.iter().filter(|u| u.key == key).map(|u| u.diff).sum()
}

#[test]
fn higher_order_wins_at_same_time() {
    let mut op = fresh_operator();
    op.give_input(vec![set(1, "A", 1, 5), set(1, "B", 2, 5)]).unwrap();
    let out = op.progress(Some(6));
    assert_eq!(out, vec![update(1, Ok(value_row(1, "B")), 5, 1)]);
    assert_eq!(op.current(&key_of(1)), Some(Ok(value_row(1, "B"))));
}

#[test]
fn order_decides_regardless_of_arrival() {
    let mut op = fresh_operator();
    op.give_input(vec![set(1, "B", 2, 5)]).unwrap();
    op.give_input(vec![set(1, "A", 1, 5)]).unwrap();
    let out = op.progress(Some(6));
    assert_eq!(out, vec![update(1, Ok(value_row(1, "B")), 5, 1)]);
}

#[test]
fn deletion_retracts_the_rehydrated_value() {
    let mut r = Rehydration::new(vec![0], Some(10));
    r.give_previous(vec![(Ok(value_row(1, "A")), 3, 1)]);
    let mut op = r.finish(InMemoryState::new()).unwrap();
    op.give_input(vec![delete(1, 0, 10)]).unwrap();
    let out = op.progress(Some(11));
    assert_eq!(out, vec![update(1, Ok(value_row(1, "A")), 10, -1)]);
    assert_eq!(op.current(&key_of(1)), None);
}

#[test]
fn deletion_of_absent_key_emits_nothing() {
    let mut op = fresh_operator();
    op.give_input(vec![delete(4, 0, 2)]).unwrap();
    assert_eq!(op.progress(Some(3)), vec![]);
}

#[test]
fn replacement_retracts_then_inserts() {
    let mut op = fresh_operator();
    op.give_input(vec![set(1, "A", 0, 1)]).unwrap();
    assert_eq!(op.progress(Some(2)), vec![update(1, Ok(value_row(1, "A")), 1, 1)]);
    op.give_input(vec![set(1, "B", 0, 2)]).unwrap();
    assert_eq!(
        op.progress(Some(3)),
        vec![update(1, Ok(value_row(1, "A")), 2, -1), update(1, Ok(value_row(1, "B")), 2, 1)]
    );
}

#[test]
fn one_batch_threads_values_across_times() {
    let mut op = fresh_operator();
    op.give_input(vec![set(1, "B", 0, 2), set(1, "A", 0, 1)]).unwrap();
    let out = op.progress(Some(3));
    assert_eq!(
        out,
        vec![
            update(1, Ok(value_row(1, "A")), 1, 1),
            update(1, Ok(value_row(1, "A")), 2, -1),
            update(1, Ok(value_row(1, "B")), 2, 1),
        ]
    );
}

#[test]
fn later_commands_stay_buffered() {
    let mut op = fresh_operator();
    op.give_input(vec![set(1, "A", 0, 1), set(2, "X", 0, 7)]).unwrap();
    let out = op.progress(Some(5));
    assert_eq!(out, vec![update(1, Ok(value_row(1, "A")), 1, 1)]);
    assert_eq!(op.pending_len(), 1);
    assert_eq!(op.input_upper(), Some(5));
    let out = op.progress(Some(8));
    assert_eq!(out, vec![update(2, Ok(value_row(2, "X")), 7, 1)]);
    assert_eq!(op.pending_len(), 0);
}

#[test]
fn closed_frontier_processes_everything() {
    let mut op = fresh_operator();
    op.give_input(vec![set(1, "A", 0, u64::MAX)]).unwrap();
    let out = op.progress(None);
    assert_eq!(out, vec![update(1, Ok(value_row(1, "A")), u64::MAX, 1)]);
}

#[test]
fn errors_are_values() {
    let mut op = fresh_operator();
    let err: UpsertValue = Err(UpsertError::Value { for_key: Row { datums: vec![Datum::Int64(3)] } });
    op.give_input(vec![((key_of(3), Some(err.clone()), 0), 1, 1)]).unwrap();
    assert_eq!(op.progress(Some(2)), vec![update(3, err.clone(), 1, 1)]);
    op.give_input(vec![set(3, "ok", 0, 2)]).unwrap();
    assert_eq!(
        op.progress(Some(3)),
        vec![update(3, err, 2, -1), update(3, Ok(value_row(3, "ok")), 2, 1)]
    );
}

#[test]
fn history_before_resume_frontier_is_dropped() {
    let mut r = Rehydration::new(vec![0], Some(5));
    r.give_previous(vec![(Ok(value_row(1, "A")), 2, 1)]);
    let mut op = r.finish(InMemoryState::new()).unwrap();
    // The input has not passed the resume frontier: replayed history is dropped.
    op.give_input(vec![set(1, "old", 0, 3), set(2, "new", 0, 5)]).unwrap();
    assert_eq!(op.pending_len(), 1);
    let out = op.progress(Some(6));
    assert_eq!(out, vec![update(2, Ok(value_row(2, "new")), 5, 1)]);
    assert_eq!(op.current(&key_of(1)), Some(Ok(value_row(1, "A"))));
    // Past the resume frontier every command is taken.
    op.give_input(vec![set(1, "next", 0, 6)]).unwrap();
    assert_eq!(op.pending_len(), 1);
}

#[test]
fn non_positive_input_diff_is_fatal() {
    let mut op = fresh_operator();
    let bad: InputRecord = ((key_of(1), None, 0), 1, 0);
    assert_eq!(op.give_input(vec![set(2, "A", 0, 1), bad]), Err(UpsertFatal::InvalidInput));
    assert_eq!(op.pending_len(), 0);
}

#[test]
fn rehydration_consolidates_and_checks() {
    let mut r = Rehydration::new(vec![0], Some(10));
    r.give_previous(vec![
        (Ok(value_row(1, "A")), 1, 1),
        (Ok(value_row(1, "A")), 2, -1),
        (Ok(value_row(1, "B")), 2, 1),
        (Ok(value_row(2, "C")), 12, 1),
    ]);
    let op = r.finish(InMemoryState::new()).unwrap();
    assert_eq!(op.current(&key_of(1)), Some(Ok(value_row(1, "B"))));
    assert_eq!(op.current(&key_of(2)), None);
    assert_eq!(op.input_upper(), Some(0));
}

#[test]
fn rehydration_rejects_bad_multiplicity() {
    let mut r = Rehydration::new(vec![0], Some(10));
    r.give_previous(vec![(Ok(value_row(1, "A")), 1, 2)]);
    assert_eq!(r.finish(InMemoryState::new()).err(), Some(UpsertFatal::InvalidState));
    let mut r = Rehydration::new(vec![0], Some(10));
    r.give_previous(vec![(Ok(value_row(1, "A")), 1, -1)]);
    assert_eq!(r.finish(InMemoryState::new()).err(), Some(UpsertFatal::InvalidState));
}

#[test]
fn rehydration_with_two_live_values_keeps_the_later() {
    let mut r = Rehydration::new(vec![0], Some(10));
    r.give_previous(vec![(Ok(value_row(1, "A")), 1, 1), (Ok(value_row(1, "B")), 1, 1)]);
    let op = r.finish(InMemoryState::new()).unwrap();
    assert_eq!(op.current(&key_of(1)), Some(Ok(value_row(1, "B"))));
}

#[test]
fn previous_complete_follows_frontiers() {
    let r = Rehydration::new(vec![0], Some(10));
    assert!(!r.previous_complete(Some(9)));
    assert!(r.previous_complete(Some(10)));
    assert!(r.previous_complete(None));
    let r = Rehydration::new(vec![0], None);
    assert!(!r.previous_complete(Some(100)));
    assert!(r.previous_complete(None));
}

#[test]
fn net_per_key_is_zero_or_one() {
    let mut op = fresh_operator();
    let mut all = Vec::new();
    op.give_input(vec![set(1, "A", 0, 1), set(2, "B", 0, 1), delete(2, 1, 1)]).unwrap();
    all.extend(op.progress(Some(2)));
    op.give_input(vec![set(1, "C", 0, 2), delete(1, 0, 3), set(2, "D", 0, 3)]).unwrap();
    all.extend(op.progress(Some(4)));
    op.give_input(vec![delete(2, 0, 4), set(1, "E", 0, 4), set(1, "F", 0, 5)]).unwrap();
    all.extend(op.progress(Some(6)));
    assert_eq!(net_for_key(&all, 1), 1);
    assert_eq!(net_for_key(&all, 2), 0);
}

#[test]
fn rehydration_round_trip() {
    let mut op = fresh_operator();
    let mut all = Vec::new();
    op.give_input(vec![set(1, "A", 0, 1), set(2, "B", 0, 1), set(3, "C", 0, 2)]).unwrap();
    all.extend(op.progress(Some(3)));
    op.give_input(vec![set(1, "A2", 0, 3), delete(2, 0, 4), set(3, "C2", 1, 4), set(3, "C1", 0, 4)]).unwrap();
    all.extend(op.progress(Some(5)));
    let previous: Vec<(UpsertValue, u64, i64)> = all.iter().map(|u| (u.value.clone(), u.time, u.diff)).collect();
    let mut r = Rehydration::new(vec![0], Some(5));
    r.give_previous(previous);
    let rebuilt = r.finish(InMemoryState::new()).unwrap();
    for k in 1..=3 {
        assert_eq!(rebuilt.current(&key_of(k)), op.current(&key_of(k)));
    }
    assert_eq!(rebuilt.current(&key_of(1)), Some(Ok(value_row(1, "A2"))));
    assert_eq!(rebuilt.current(&key_of(2)), None);
    assert_eq!(rebuilt.current(&key_of(3)), Some(Ok(value_row(3, "C2"))));
}

#[test]
fn rehydration_keys_errors_by_their_key_columns() {
    let err: UpsertValue = Err(UpsertError::Value { for_key: Row { datums: vec![Datum::Int64(8)] } });
    let mut r = Rehydration::new(vec![0], Some(10));
    r.give_previous(vec![(err.clone(), 1, 1)]);
    let mut op = r.finish(InMemoryState::new()).unwrap();
    assert_eq!(op.current(&key_of(8)), Some(err.clone()));
    op.give_input(vec![delete(8, 0, 10)]).unwrap();
    assert_eq!(op.progress(Some(11)), vec![update(8, err, 10, -1)]);
}
