use dashboard::config::{Config, Entry, DEFAULT_CHECK_TIMEOUT, DEFAULT_POLL_INTERVAL};
use dashboard::history::CheckOutcome;
use dashboard::scheduler::{
    perform, register_entries, Action, CheckResult, Event, Phase, PollTarget, Scheduler,
};
use dashboard::status::{classify, Status, UNREACHABLE};
use dashboard::store::HistoryStore;
use dashboard::view::group_by_target;

fn entry(name: &str, polling_url: Option<&str>) -> Entry {
    Entry {
        name: name.to_string(),
        public_url: format!("https://{name}.example/"),
        polling_url: polling_url.map(|u| u.to_string()),
    }
}

fn start(config: &Config, store: &mut HistoryStore) -> Scheduler {
    Scheduler::new(register_entries(store, &config.entries))
}

/// Plays one tick: fires the timer, ends the checks in the given order, and
/// writes what the scheduler asks to have recorded.
fn run_tick(
    scheduler: &mut Scheduler,
    store: &mut HistoryStore,
    results: &[(usize, CheckResult)],
    now: i64,
) {
    assert_eq!(scheduler.step(Event::TimerFired), Action::StartChecks);
    for (target, result) in results {
        let event = Event::CheckFinished { target: *target, result: *result, observed_at: now };
        perform(store, scheduler.step(event));
    }
}

#[test]
fn defaults_are_sixty_and_ten_seconds() {
    assert_eq!(DEFAULT_POLL_INTERVAL, 60);
    assert_eq!(DEFAULT_CHECK_TIMEOUT, 10);
    assert_eq!(Config { poll_interval: None, entries: vec![] }.interval_secs(), 60);
    assert_eq!(Config { poll_interval: Some(1), entries: vec![] }.interval_secs(), 1);
}

#[test]
fn check_url_defaults_to_public_url() {
    assert_eq!(entry("a", None).check_url(), "https://a.example/");
    assert_eq!(entry("a", Some("http://10.0.0.1/health")).check_url(), "http://10.0.0.1/health");
}

#[test]
fn register_entries_gives_targets_in_order() {
    let mut store = HistoryStore::new();
    let entries = vec![entry("a", None), entry("b", Some("http://b.internal/"))];
    let targets = register_entries(&mut store, &entries);
    assert_eq!(targets.len(), 2);
    assert_eq!((targets[0].id, targets[0].url.as_str()), (1, "https://a.example/"));
    assert_eq!((targets[1].id, targets[1].url.as_str()), (2, "http://b.internal/"));
    assert_eq!(store.targets().len(), 2);
}

#[test]
fn reloading_the_configuration_adds_no_target() {
    let mut store = HistoryStore::new();
    let entries = vec![entry("a", None), entry("b", None)];
    let first = register_entries(&mut store, &entries);
    let second = register_entries(&mut store, &entries);
    assert_eq!(store.targets().len(), 2);
    let ids = |t: &Vec<PollTarget>| t.iter().map(|p| p.id).collect::<Vec<i64>>();
    assert_eq!(ids(&first), ids(&second));
}

#[test]
fn new_scheduler_is_idle() {
    let scheduler = Scheduler::new(vec![PollTarget { id: 1, url: "http://a/".to_string() }]);
    assert_eq!(scheduler.phase(), Phase::Idle);
    assert!(!scheduler.is_in_flight(0));
    assert_eq!(scheduler.targets().len(), 1);
}

#[test]
fn timer_starts_a_tick_for_every_target() {
    let mut store = HistoryStore::new();
    let config = Config { poll_interval: None, entries: vec![entry("a", None), entry("b", None)] };
    let mut scheduler = start(&config, &mut store);
    assert_eq!(scheduler.step(Event::TimerFired), Action::StartChecks);
    assert_eq!(scheduler.phase(), Phase::Ticking);
    assert!(scheduler.is_in_flight(0) && scheduler.is_in_flight(1));
    assert!(!scheduler.is_in_flight(2));
}

#[test]
fn timer_without_targets_starts_nothing() {
    let mut scheduler = Scheduler::new(Vec::new());
    assert_eq!(scheduler.step(Event::TimerFired), Action::Wait);
    assert_eq!(scheduler.phase(), Phase::Idle);
}

#[test]
fn timer_during_a_tick_is_ignored() {
    let mut scheduler = Scheduler::new(vec![PollTarget { id: 1, url: "http://a/".to_string() }]);
    assert_eq!(scheduler.step(Event::TimerFired), Action::StartChecks);
    assert_eq!(scheduler.step(Event::TimerFired), Action::Wait);
    assert!(scheduler.is_in_flight(0));
}

#[test]
fn tick_ends_with_its_last_check() {
    let mut store = HistoryStore::new();
    let config = Config { poll_interval: None, entries: vec![entry("a", None), entry("b", None)] };
    let mut scheduler = start(&config, &mut store);
    scheduler.step(Event::TimerFired);
    let done = |target| Event::CheckFinished {
        target,
        result: CheckResult::Responded(200),
        observed_at: 1,
    };
    scheduler.step(done(1));
    assert_eq!(scheduler.phase(), Phase::Ticking);
    scheduler.step(done(0));
    assert_eq!(scheduler.phase(), Phase::Idle);
    assert_eq!(scheduler.step(Event::TimerFired), Action::StartChecks);
}

#[test]
fn a_check_is_recorded_once_per_tick() {
    let mut scheduler = Scheduler::new(vec![PollTarget { id: 7, url: "http://a/".to_string() }]);
    let done = Event::CheckFinished {
        target: 0,
        result: CheckResult::Responded(200),
        observed_at: 5,
    };
    assert_eq!(scheduler.step(done), Action::Wait);
    scheduler.step(Event::TimerFired);
    assert_eq!(
        scheduler.step(done),
        Action::Record(CheckOutcome { target_id: 7, status_code: 200, observed_at: 5 })
    );
    assert_eq!(scheduler.step(done), Action::Wait);
}

#[test]
fn check_of_an_unknown_target_is_ignored() {
    let mut scheduler = Scheduler::new(vec![PollTarget { id: 7, url: "http://a/".to_string() }]);
    scheduler.step(Event::TimerFired);
    let stray = Event::CheckFinished {
        target: 1,
        result: CheckResult::Responded(200),
        observed_at: 5,
    };
    assert_eq!(scheduler.step(stray), Action::Wait);
    assert!(scheduler.is_in_flight(0));
}

#[test]
fn unreachable_check_records_the_sentinel() {
    let mut scheduler = Scheduler::new(vec![PollTarget { id: 3, url: "http://a/".to_string() }]);
    scheduler.step(Event::TimerFired);
    let lost = Event::CheckFinished {
        target: 0,
        result: CheckResult::Unreachable,
        observed_at: 9,
    };
    assert_eq!(
        scheduler.step(lost),
        Action::Record(CheckOutcome { target_id: 3, status_code: UNREACHABLE, observed_at: 9 })
    );
}

#[test]
fn cancelled_check_records_nothing() {
    let mut scheduler = Scheduler::new(vec![PollTarget { id: 3, url: "http://a/".to_string() }]);
    scheduler.step(Event::TimerFired);
    let cancelled = Event::CheckFinished {
        target: 0,
        result: CheckResult::Cancelled,
        observed_at: 9,
    };
    assert_eq!(scheduler.step(cancelled), Action::Wait);
    assert_eq!(scheduler.phase(), Phase::Idle);
}

#[test]
fn shutdown_abandons_the_tick() {
    let mut store = HistoryStore::new();
    let config = Config { poll_interval: None, entries: vec![entry("a", None), entry("b", None)] };
    let mut scheduler = start(&config, &mut store);
    scheduler.step(Event::TimerFired);
    assert_eq!(scheduler.step(Event::Shutdown), Action::Stop);
    assert_eq!(scheduler.phase(), Phase::Idle);
    assert!(!scheduler.is_in_flight(0) && !scheduler.is_in_flight(1));
    let late = Event::CheckFinished {
        target: 0,
        result: CheckResult::Responded(200),
        observed_at: 1,
    };
    assert_eq!(scheduler.step(late), Action::Wait);
    assert!(store.outcomes().is_empty());
}

#[test]
fn failure_of_one_target_does_not_stop_the_other() {
    let mut store = HistoryStore::new();
    let config = Config { poll_interval: None, entries: vec![entry("a", None), entry("b", None)] };
    let mut scheduler = start(&config, &mut store);
    scheduler.step(Event::TimerFired);
    let failed = scheduler.step(Event::CheckFinished {
        target: 0,
        result: CheckResult::Unreachable,
        observed_at: 10,
    });
    assert_eq!(
        failed,
        Action::Record(CheckOutcome { target_id: 1, status_code: 0, observed_at: 10 })
    );
    assert!(scheduler.is_in_flight(1));
    let answered = scheduler.step(Event::CheckFinished {
        target: 1,
        result: CheckResult::Responded(200),
        observed_at: 11,
    });
    assert_eq!(
        answered,
        Action::Record(CheckOutcome { target_id: 2, status_code: 200, observed_at: 11 })
    );
}

#[test]
fn a_refused_write_does_not_stop_the_tick() {
    let mut store = HistoryStore::new();
    store.register_target("b".to_string(), "https://b.example/".to_string(), None).unwrap();
    let targets = vec![
        PollTarget { id: 99, url: "http://gone/".to_string() },
        PollTarget { id: 1, url: "https://b.example/".to_string() },
    ];
    let mut scheduler = Scheduler::new(targets);
    let both = [(0, CheckResult::Responded(200)), (1, CheckResult::Responded(200))];
    run_tick(&mut scheduler, &mut store, &both, 5);
    assert_eq!(scheduler.phase(), Phase::Idle);
    assert_eq!(
        store.outcomes().as_slice(),
        &[CheckOutcome { target_id: 1, status_code: 200, observed_at: 5 }]
    );
}

#[test]
fn perform_appends_only_what_is_to_be_recorded() {
    let mut store = HistoryStore::new();
    store.register_target("a".to_string(), "https://a.example/".to_string(), None).unwrap();
    let known = CheckOutcome { target_id: 1, status_code: 204, observed_at: 3 };
    let unknown = CheckOutcome { target_id: 2, status_code: 204, observed_at: 4 };
    assert!(!perform(&mut store, Action::Wait));
    assert!(!perform(&mut store, Action::StartChecks));
    assert!(!perform(&mut store, Action::Stop));
    assert!(!perform(&mut store, Action::Record(unknown)));
    assert!(store.outcomes().is_empty());
    assert!(perform(&mut store, Action::Record(known)));
    assert_eq!(store.outcomes().as_slice(), &[known]);
}

#[test]
fn one_tick_with_a_success_and_a_timeout() {
    let mut store = HistoryStore::new();
    let config =
        Config { poll_interval: Some(1), entries: vec![entry("a", None), entry("b", None)] };
    assert_eq!(config.interval_secs(), 1);
    let mut scheduler = start(&config, &mut store);
    let results = [(0, CheckResult::Responded(200)), (1, CheckResult::Unreachable)];
    run_tick(&mut scheduler, &mut store, &results, 1_000_000);

    assert_eq!(
        store.outcomes().as_slice(),
        &[
            CheckOutcome { target_id: 1, status_code: 200, observed_at: 1_000_000 },
            CheckOutcome { target_id: 2, status_code: UNREACHABLE, observed_at: 1_000_000 },
        ]
    );
    let rows = store.recent_outcomes(10);
    let groups = group_by_target(&rows);
    assert_eq!(groups.len(), 2);
    assert!(groups.iter().all(|g| g.end - g.start == 1));
    assert_eq!(rows[groups[0].start].name, "a");
    assert_eq!(classify(rows[groups[0].start].last_status), Status::Success);
    assert_eq!(rows[groups[1].start].name, "b");
    assert_eq!(classify(rows[groups[1].start].last_status), Status::Failure);
}

#[test]
fn fifteen_ticks_show_the_ten_most_recent() {
    let mut store = HistoryStore::new();
    let config = Config { poll_interval: Some(1), entries: vec![entry("a", None)] };
    let mut scheduler = start(&config, &mut store);
    for tick in 1..=15 {
        run_tick(&mut scheduler, &mut store, &[(0, CheckResult::Responded(200))], tick * 1_000_000);
    }
    assert_eq!(store.outcomes().len(), 15);
    let rows = store.recent_outcomes(10);
    assert_eq!(rows.len(), 10);
    assert!(rows.iter().all(|r| r.id == 1 && r.last_status == 200));
    let shown: Vec<i64> = rows.iter().map(|r| r.poll_time).collect();
    let expected: Vec<i64> = (6..=15).rev().map(|t| t * 1_000_000).collect();
    assert_eq!(shown, expected);
}
