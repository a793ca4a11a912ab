use dashboard::history::{rank_into, recent_in_log, CheckOutcome};
use dashboard::store::{HistoryStore, StatusRow, StorageError};

fn store_with(names: &[&str]) -> HistoryStore {
    let mut store = HistoryStore::new();
    for name in names {
        let url = format!("https://{name}.example/");
        store.register_target(name.to_string(), url, None).unwrap();
    }
    store
}

fn times(rows: &[StatusRow]) -> Vec<i64> {
    rows.iter().map(|r| r.poll_time).collect()
}

#[test]
fn new_store_is_empty() {
    let store = HistoryStore::new();
    assert!(store.targets().is_empty());
    assert!(store.outcomes().is_empty());
    assert!(store.recent_outcomes(10).is_empty());
}

#[test]
fn register_assigns_identifiers_in_order() {
    let mut store = HistoryStore::new();
    let a = store.register_target("a".to_string(), "https://a.example/".to_string(), None);
    let b = store.register_target("b".to_string(), "https://b.example/".to_string(), None);
    assert_eq!(a, Ok(1));
    assert_eq!(b, Ok(2));
    assert_eq!(store.targets().len(), 2);
    assert_eq!(store.targets()[0].id, 1);
    assert_eq!(store.targets()[1].name, "b");
}

#[test]
fn register_twice_gives_the_same_identifier_and_one_record() {
    let mut store = store_with(&["a"]);
    let first = store.register_target("svc".to_string(), "https://svc.example/".to_string(), None);
    let second = store.register_target("svc".to_string(), "https://svc.example/".to_string(), None);
    assert_eq!(first, Ok(2));
    assert_eq!(second, Ok(2));
    assert_eq!(store.targets().len(), 2);
    let matching = store
        .targets()
        .iter()
        .filter(|t| t.public_url == "https://svc.example/" && t.name == "svc")
        .count();
    assert_eq!(matching, 1);
}

#[test]
fn register_again_keeps_the_first_polling_url() {
    let mut store = HistoryStore::new();
    let url = "https://svc.example/".to_string();
    store
        .register_target("svc".to_string(), url.clone(), Some("http://10.0.0.1/health".to_string()))
        .unwrap();
    let again = store.register_target("svc".to_string(), url, Some("http://other/".to_string()));
    assert_eq!(again, Ok(1));
    assert_eq!(store.targets().len(), 1);
    assert_eq!(store.targets()[0].polling_url, "http://10.0.0.1/health");
}

#[test]
fn polling_url_defaults_to_public_url() {
    let mut store = HistoryStore::new();
    store.register_target("svc".to_string(), "https://svc.example/".to_string(), None).unwrap();
    assert_eq!(store.targets()[0].polling_url, "https://svc.example/");
    assert_eq!(store.targets()[0].public_url, "https://svc.example/");
}

#[test]
fn same_name_with_another_url_is_another_target() {
    let mut store = HistoryStore::new();
    let a = store.register_target("svc".to_string(), "https://one.example/".to_string(), None);
    let b = store.register_target("svc".to_string(), "https://two.example/".to_string(), None);
    let c = store.register_target("other".to_string(), "https://one.example/".to_string(), None);
    assert_eq!((a, b, c), (Ok(1), Ok(2), Ok(3)));
}

#[test]
fn record_appends_to_the_log() {
    let mut store = store_with(&["a"]);
    assert_eq!(store.record_outcome(1, 200, 1_000), Ok(()));
    assert_eq!(store.record_outcome(1, 503, 2_000), Ok(()));
    assert_eq!(
        store.outcomes().as_slice(),
        &[
            CheckOutcome { target_id: 1, status_code: 200, observed_at: 1_000 },
            CheckOutcome { target_id: 1, status_code: 503, observed_at: 2_000 },
        ]
    );
}

#[test]
fn record_for_unknown_target_is_refused() {
    let mut store = store_with(&["a"]);
    assert_eq!(store.record_outcome(2, 200, 1), Err(StorageError::UnknownTarget));
    assert_eq!(store.record_outcome(0, 200, 1), Err(StorageError::UnknownTarget));
    assert_eq!(store.record_outcome(-1, 200, 1), Err(StorageError::UnknownTarget));
    assert!(store.outcomes().is_empty());
}

#[test]
fn round_trip_recorded_outcome_is_the_newest_row() {
    let mut store = store_with(&["a", "t"]);
    store.record_outcome(2, 200, 50).unwrap();
    store.record_outcome(1, 500, 60).unwrap();
    let t0 = 100;
    store.record_outcome(2, 204, t0).unwrap();
    let rows = store.recent_outcomes(10);
    let of_t: Vec<&StatusRow> = rows.iter().filter(|r| r.id == 2).collect();
    assert_eq!(of_t[0].last_status, 204);
    assert_eq!(of_t[0].poll_time, t0);
    assert_eq!(of_t[0].name, "t");
    assert_eq!(of_t[0].public_url, "https://t.example/");
    assert_eq!(of_t.len(), 2);
}

#[test]
fn equal_timestamps_rank_the_later_record_first() {
    let mut store = store_with(&["a"]);
    store.record_outcome(1, 200, 7).unwrap();
    store.record_outcome(1, 301, 7).unwrap();
    store.record_outcome(1, 500, 7).unwrap();
    let rows = store.recent_outcomes(10);
    let codes: Vec<i64> = rows.iter().map(|r| r.last_status).collect();
    assert_eq!(codes, vec![500, 301, 200]);
}

#[test]
fn rows_are_ordered_by_time_not_by_insertion() {
    let mut store = store_with(&["a"]);
    for at in [30, 10, 50, 20, 40] {
        store.record_outcome(1, 200, at).unwrap();
    }
    assert_eq!(times(&store.recent_outcomes(10)), vec![50, 40, 30, 20, 10]);
    assert_eq!(times(&store.recent_outcomes(3)), vec![50, 40, 30]);
}

#[test]
fn old_outcome_does_not_displace_newer_ones() {
    let mut store = store_with(&["a"]);
    for at in [10, 20, 30] {
        store.record_outcome(1, 200, at).unwrap();
    }
    store.record_outcome(1, 404, 5).unwrap();
    let rows = store.recent_outcomes(3);
    assert_eq!(times(&rows), vec![30, 20, 10]);
    assert!(rows.iter().all(|r| r.last_status == 200));
}

#[test]
fn at_most_k_rows_per_target() {
    let mut store = store_with(&["a", "b"]);
    for at in 0..25 {
        store.record_outcome(1, 200, at).unwrap();
        store.record_outcome(2, 200, at).unwrap();
    }
    for k in [0usize, 1, 3, 10, 25, 100] {
        let rows = store.recent_outcomes(k);
        for id in [1, 2] {
            let group: Vec<&StatusRow> = rows.iter().filter(|r| r.id == id).collect();
            assert_eq!(group.len(), k.min(25));
            assert!(group.windows(2).all(|w| w[0].poll_time >= w[1].poll_time));
        }
    }
}

#[test]
fn window_of_zero_gives_no_rows() {
    let mut store = store_with(&["a"]);
    store.record_outcome(1, 200, 1).unwrap();
    assert!(store.recent_outcomes(0).is_empty());
}

#[test]
fn target_with_fewer_outcomes_returns_all() {
    let mut store = store_with(&["a"]);
    store.record_outcome(1, 200, 1).unwrap();
    store.record_outcome(1, 201, 2).unwrap();
    assert_eq!(times(&store.recent_outcomes(10)), vec![2, 1]);
}

#[test]
fn target_without_outcomes_has_no_rows() {
    let mut store = store_with(&["a", "b", "c"]);
    store.record_outcome(3, 200, 1).unwrap();
    store.record_outcome(1, 200, 2).unwrap();
    let ids: Vec<i64> = store.recent_outcomes(10).iter().map(|r| r.id).collect();
    assert_eq!(ids, vec![1, 3]);
}

#[test]
fn groups_come_in_order_of_identifier() {
    let mut store = store_with(&["a", "b", "c"]);
    for (id, at) in [(3, 1), (1, 2), (2, 3), (3, 4), (1, 5)] {
        store.record_outcome(id, 200, at).unwrap();
    }
    let rows = store.recent_outcomes(10);
    let pairs: Vec<(i64, i64)> = rows.iter().map(|r| (r.id, r.poll_time)).collect();
    assert_eq!(pairs, vec![(1, 5), (1, 2), (2, 3), (3, 4), (3, 1)]);
    let again: Vec<(i64, i64)> =
        store.recent_outcomes(10).iter().map(|r| (r.id, r.poll_time)).collect();
    assert_eq!(pairs, again);
}

#[test]
fn recent_for_target_gives_that_target_only() {
    let mut store = store_with(&["a", "b"]);
    for (id, code, at) in [(1, 200, 1), (2, 500, 2), (1, 301, 3), (2, 404, 4)] {
        store.record_outcome(id, code, at).unwrap();
    }
    assert_eq!(
        store.recent_for_target(2, 10),
        vec![
            CheckOutcome { target_id: 2, status_code: 404, observed_at: 4 },
            CheckOutcome { target_id: 2, status_code: 500, observed_at: 2 },
        ]
    );
    assert_eq!(
        store.recent_for_target(1, 1),
        vec![CheckOutcome { target_id: 1, status_code: 301, observed_at: 3 }]
    );
    assert!(store.recent_for_target(9, 10).is_empty());
}

#[test]
fn rank_into_places_and_cuts() {
    let at = |t: i64| CheckOutcome { target_id: 1, status_code: 200, observed_at: t };
    let mut kept = Vec::new();
    rank_into(&mut kept, at(10), 3);
    rank_into(&mut kept, at(30), 3);
    rank_into(&mut kept, at(20), 3);
    assert_eq!(kept, vec![at(30), at(20), at(10)]);
    rank_into(&mut kept, at(5), 3);
    assert_eq!(kept, vec![at(30), at(20), at(10)]);
    rank_into(&mut kept, at(25), 3);
    assert_eq!(kept, vec![at(30), at(25), at(20)]);
    let mut none = Vec::new();
    rank_into(&mut none, at(1), 0);
    assert!(none.is_empty());
}

#[test]
fn recent_in_log_with_negative_and_extreme_times() {
    let at = |t: i64| CheckOutcome { target_id: 4, status_code: 0, observed_at: t };
    let log = vec![at(0), at(i64::MIN), at(i64::MAX), at(-1)];
    assert_eq!(recent_in_log(&log, 4, 3), vec![at(i64::MAX), at(0), at(-1)]);
}
