use awair_exporter::reading::{AirData, Field, Timestamp};
use awair_exporter::refresh::{
    record, Action, ConfigError, Event, FetchError, Phase, RefreshLoop, Step,
    DEFAULT_INTERVAL_SECS,
};
use awair_exporter::gauges::name_of;
use awair_exporter::store::MetricStore;

fn data(base: u64) -> AirData {
    AirData {
        timestamp: Timestamp { seconds: 0, nanos: 0 },
        score: base,
        temp: base + 1,
        humid: base + 2,
        co2: base + 3,
        voc: base + 4,
        pm25: base + 5,
    }
}

fn sources(list: &[&str]) -> Vec<String> {
    list.iter().map(|s| s.to_string()).collect()
}

fn make(list: &[&str]) -> RefreshLoop {
    match RefreshLoop::new(sources(list), DEFAULT_INTERVAL_SECS) {
        Ok(refresh) => refresh,
        Err(_) => panic!("a loop with sources must be made"),
    }
}

fn fetch(source: &str) -> Step {
    Step { action: Action::Fetch { source: source.to_string() }, failure: None }
}

#[test]
fn default_interval_is_thirty_seconds() {
    assert_eq!(DEFAULT_INTERVAL_SECS, 30);
}

#[test]
fn no_sources_is_a_configuration_error() {
    match RefreshLoop::new(Vec::new(), DEFAULT_INTERVAL_SECS) {
        Ok(_) => panic!("a loop without sources was made"),
        Err(error) => assert_eq!(error, ConfigError::NoSources),
    }
}

#[test]
fn new_loop_is_idle() {
    let refresh = make(&["http://a", "http://b"]);
    assert_eq!(refresh.phase(), Phase::Idle);
    assert_eq!(refresh.interval(), 30);
    assert_eq!(refresh.sources(), &sources(&["http://a", "http://b"]));
}

#[test]
fn wake_starts_with_the_first_source() {
    let mut refresh = make(&["http://a", "http://b"]);
    let mut store = MetricStore::new();
    assert_eq!(refresh.step(&mut store, Event::Wake), fetch("http://a"));
    assert_eq!(refresh.phase(), Phase::Fetching { index: 0 });
    assert_eq!(store.len(), 0);
}

#[test]
fn success_is_recorded_and_the_next_source_fetched() {
    let mut refresh = make(&["http://a", "http://b"]);
    let mut store = MetricStore::new();
    refresh.step(&mut store, Event::Wake);
    assert_eq!(refresh.step(&mut store, Event::Fetched(data(10))), fetch("http://b"));
    assert_eq!(refresh.phase(), Phase::Fetching { index: 1 });
    assert_eq!(store.len(), 6);
    assert_eq!(store.get("awair_sensors_score", "http://a"), Some(10));
    assert_eq!(store.get("awair_sensors_temp", "http://a"), Some(11));
    assert_eq!(store.get("awair_sensors_humidity", "http://a"), Some(12));
    assert_eq!(store.get("awair_sensors_co2", "http://a"), Some(13));
    assert_eq!(store.get("awair_sensors_voc", "http://a"), Some(14));
    assert_eq!(store.get("awair_sensors_pm25", "http://a"), Some(15));
}

#[test]
fn after_the_last_source_the_loop_sleeps() {
    let mut refresh = match RefreshLoop::new(sources(&["http://a"]), 45) {
        Ok(refresh) => refresh,
        Err(_) => panic!("a loop with sources must be made"),
    };
    let mut store = MetricStore::new();
    refresh.step(&mut store, Event::Wake);
    assert_eq!(
        refresh.step(&mut store, Event::Fetched(data(1))),
        Step { action: Action::Sleep { seconds: 45 }, failure: None }
    );
    assert_eq!(refresh.phase(), Phase::Sleeping);
}

#[test]
fn failure_is_reported_and_the_loop_moves_on() {
    let mut refresh = make(&["http://a", "http://b"]);
    let mut store = MetricStore::new();
    refresh.step(&mut store, Event::Wake);
    let step = refresh.step(&mut store, Event::Failed("connection refused".to_string()));
    assert_eq!(
        step,
        Step {
            action: Action::Fetch { source: "http://b".to_string() },
            failure: Some(FetchError {
                source: "http://a".to_string(),
                cause: "connection refused".to_string(),
            }),
        }
    );
    assert_eq!(refresh.phase(), Phase::Fetching { index: 1 });
    assert_eq!(store.len(), 0);
}

#[test]
fn failure_of_the_last_source_still_ends_the_cycle() {
    let mut refresh = make(&["http://a"]);
    let mut store = MetricStore::new();
    refresh.step(&mut store, Event::Wake);
    let step = refresh.step(&mut store, Event::Failed("timeout".to_string()));
    assert_eq!(step.action, Action::Sleep { seconds: 30 });
    assert_eq!(
        step.failure,
        Some(FetchError { source: "http://a".to_string(), cause: "timeout".to_string() })
    );
    assert_eq!(refresh.phase(), Phase::Sleeping);
}

#[test]
fn wake_after_sleep_starts_the_next_cycle() {
    let mut refresh = make(&["http://a"]);
    let mut store = MetricStore::new();
    refresh.step(&mut store, Event::Wake);
    refresh.step(&mut store, Event::Fetched(data(1)));
    assert_eq!(refresh.step(&mut store, Event::Wake), fetch("http://a"));
    assert_eq!(refresh.phase(), Phase::Fetching { index: 0 });
}

#[test]
fn a_source_that_never_answers_is_tried_in_every_cycle() {
    let mut refresh = make(&["http://gone"]);
    let mut store = MetricStore::new();
    for _ in 0..100 {
        assert_eq!(refresh.step(&mut store, Event::Wake), fetch("http://gone"));
        let step = refresh.step(&mut store, Event::Failed("unreachable".to_string()));
        assert_eq!(step.action, Action::Sleep { seconds: 30 });
    }
    assert_eq!(store.len(), 0);
}

#[test]
fn events_out_of_turn_change_nothing() {
    let wait = Step { action: Action::Wait, failure: None };
    let mut refresh = make(&["http://a", "http://b"]);
    let mut store = MetricStore::new();
    assert_eq!(refresh.step(&mut store, Event::Fetched(data(1))), wait);
    assert_eq!(refresh.step(&mut store, Event::Failed("x".to_string())), wait);
    assert_eq!(refresh.phase(), Phase::Idle);
    assert_eq!(store.len(), 0);
    refresh.step(&mut store, Event::Wake);
    assert_eq!(refresh.step(&mut store, Event::Wake), wait);
    assert_eq!(refresh.phase(), Phase::Fetching { index: 0 });
    refresh.step(&mut store, Event::Fetched(data(1)));
    refresh.step(&mut store, Event::Fetched(data(2)));
    assert_eq!(refresh.phase(), Phase::Sleeping);
    assert_eq!(refresh.step(&mut store, Event::Fetched(data(3))), wait);
    assert_eq!(refresh.step(&mut store, Event::Failed("x".to_string())), wait);
    assert_eq!(refresh.phase(), Phase::Sleeping);
    assert_eq!(store.get("awair_sensors_score", "http://a"), Some(1));
    assert_eq!(store.get("awair_sensors_score", "http://b"), Some(2));
    assert_eq!(store.len(), 12);
}

#[test]
fn record_writes_every_field_under_the_source() {
    let mut store = MetricStore::new();
    store.set("awair_sensors_score", "http://other", 99);
    store.set("awair_sensors_temp", "http://a", 98);
    record(&mut store, "http://a", &data(20));
    for (i, field) in Field::all().into_iter().enumerate() {
        assert_eq!(store.get(&name_of(field), "http://a"), Some(20 + i as u64));
    }
    assert_eq!(store.get("awair_sensors_score", "http://other"), Some(99));
    assert_eq!(store.len(), 7);
}

#[test]
fn failed_sources_keep_what_they_had() {
    let mut refresh = make(&["http://a", "http://b", "http://c"]);
    let mut store = MetricStore::new();
    refresh.step(&mut store, Event::Wake);
    refresh.step(&mut store, Event::Fetched(data(10)));
    refresh.step(&mut store, Event::Fetched(data(20)));
    refresh.step(&mut store, Event::Failed("down".to_string()));
    refresh.step(&mut store, Event::Wake);
    refresh.step(&mut store, Event::Fetched(data(110)));
    refresh.step(&mut store, Event::Failed("down".to_string()));
    refresh.step(&mut store, Event::Failed("down".to_string()));
    assert_eq!(refresh.phase(), Phase::Sleeping);
    for (i, field) in Field::all().into_iter().enumerate() {
        let name = name_of(field);
        assert_eq!(store.get(&name, "http://a"), Some(110 + i as u64));
        assert_eq!(store.get(&name, "http://b"), Some(20 + i as u64));
        assert_eq!(store.get(&name, "http://c"), None);
    }
    assert_eq!(store.len(), 12);
}

#[test]
fn a_source_named_twice_holds_its_last_observation() {
    let mut refresh = make(&["http://a", "http://a"]);
    let mut store = MetricStore::new();
    refresh.step(&mut store, Event::Wake);
    refresh.step(&mut store, Event::Fetched(data(10)));
    refresh.step(&mut store, Event::Fetched(data(20)));
    assert_eq!(store.get("awair_sensors_score", "http://a"), Some(20));
    assert_eq!(store.len(), 6);
}

#[test]
fn success_failure_success_leaves_the_last_success() {
    let mut refresh = make(&["http://a"]);
    let mut store = MetricStore::new();
    refresh.step(&mut store, Event::Wake);
    refresh.step(&mut store, Event::Fetched(data(10)));
    refresh.step(&mut store, Event::Wake);
    refresh.step(&mut store, Event::Failed("reset".to_string()));
    for (i, field) in Field::all().into_iter().enumerate() {
        assert_eq!(store.get(&name_of(field), "http://a"), Some(10 + i as u64));
    }
    refresh.step(&mut store, Event::Wake);
    refresh.step(&mut store, Event::Fetched(data(30)));
    for (i, field) in Field::all().into_iter().enumerate() {
        assert_eq!(store.get(&name_of(field), "http://a"), Some(30 + i as u64));
    }
    assert_eq!(store.len(), 6);
    assert_eq!(refresh.phase(), Phase::Sleeping);
}

#[test]
fn failure_message_names_source_and_cause() {
    let failure = FetchError {
        source: "http://10.0.0.5/air-data/latest".to_string(),
        cause: "error decoding response body".to_string(),
    };
    assert_eq!(
        failure.message(),
        "unable to get air-data from http://10.0.0.5/air-data/latest: error decoding response body"
    );
}
