use awair_exporter::store::MetricStore;
use std::sync::{Arc, RwLock};

const WRITERS: u64 = 4;
const ROUNDS: u64 = 500;

fn source(writer: u64) -> String {
    format!("http://10.0.0.{}", writer)
}

async fn write(store: Arc<RwLock<MetricStore>>, writer: u64) {
    for round in 0..ROUNDS {
        let value = (writer << 32) | round;
        {
            let mut guard = store.write().unwrap();
            guard.set("awair_sensors_score", &source(writer), value);
            guard.set("awair_sensors_temp", &source(writer), value);
        }
        tokio::task::yield_now().await;
    }
}

async fn read(store: Arc<RwLock<MetricStore>>) {
    for _ in 0..ROUNDS {
        let list = store.read().unwrap().snapshot();
        assert!(list.len() <= 2 * WRITERS as usize);
        for e in &list {
            let writer = e.value >> 32;
            let round = e.value & 0xffff_ffff;
            assert!(writer < WRITERS);
            assert!(round < ROUNDS);
            assert_eq!(e.source, source(writer));
        }
        for pair in list.windows(2) {
            let a = (pair[0].metric.as_str(), pair[0].source.as_str());
            let b = (pair[1].metric.as_str(), pair[1].source.as_str());
            assert!(a < b);
        }
        for writer in 0..WRITERS {
            let of = |metric: &str| {
                list.iter()
                    .find(|e| e.metric == metric && e.source == source(writer))
                    .map(|e| e.value)
            };
            assert_eq!(of("awair_sensors_score"), of("awair_sensors_temp"));
        }
        tokio::task::yield_now().await;
    }
}

#[test]
fn readers_see_written_values_only() {
    let runtime = tokio::runtime::Builder::new_multi_thread().worker_threads(4).build().unwrap();
    let store = Arc::new(RwLock::new(MetricStore::new()));
    runtime.block_on(async {
        let mut tasks = Vec::new();
        for writer in 0..WRITERS {
            tasks.push(tokio::spawn(write(Arc::clone(&store), writer)));
            tasks.push(tokio::spawn(read(Arc::clone(&store))));
        }
        for task in tasks {
            task.await.unwrap();
        }
    });
    let store = store.read().unwrap();
    assert_eq!(store.len(), 2 * WRITERS as usize);
    for writer in 0..WRITERS {
        let last = (writer << 32) | (ROUNDS - 1);
        assert_eq!(store.get("awair_sensors_score", &source(writer)), Some(last));
        assert_eq!(store.get("awair_sensors_temp", &source(writer)), Some(last));
    }
}
