use lru_clock_cache::cache::{CacheError, LRUClockCache, Loader, Writer};
use std::sync::{Arc, Mutex};

/// A backing store over a shared vector, indexed by key, that records
/// every loader and writer invocation.
struct Store {
    data: Arc<Mutex<Vec<u64>>>,
    loads: Arc<Mutex<Vec<u64>>>,
    saves: Arc<Mutex<Vec<(u64, u64)>>>,
}

struct VecLoader {
    data: Arc<Mutex<Vec<u64>>>,
    loads: Arc<Mutex<Vec<u64>>>,
}

struct VecWriter {
    data: Arc<Mutex<Vec<u64>>>,
    saves: Arc<Mutex<Vec<(u64, u64)>>>,
    fail: bool,
}

impl Loader for VecLoader {
    fn load(&mut self, key: u64) -> Option<u64> {
        self.loads.lock().unwrap().push(key);
        self.data.lock().unwrap().get(key as usize).copied()
    }
}

impl Writer for VecWriter {
    fn save(&mut self, key: u64, value: u64) -> bool {
        self.saves.lock().unwrap().push((key, value));
        if self.fail {
            return false;
        }
        let mut data = self.data.lock().unwrap();
        match data.get_mut(key as usize) {
            Some(slot) => {
                *slot = value;
                true
            }
            None => false,
        }
    }
}

impl Store {
    fn with_data(values: Vec<u64>) -> Store {
        Store {
            data: Arc::new(Mutex::new(values)),
            loads: Arc::new(Mutex::new(Vec::new())),
            saves: Arc::new(Mutex::new(Vec::new())),
        }
    }

    fn loader(&self) -> VecLoader {
        VecLoader { data: self.data.clone(), loads: self.loads.clone() }
    }

    fn writer(&self) -> VecWriter {
        VecWriter { data: self.data.clone(), saves: self.saves.clone(), fail: false }
    }

    fn failing_writer(&self) -> VecWriter {
        VecWriter { data: self.data.clone(), saves: self.saves.clone(), fail: true }
    }

    fn loads(&self) -> Vec<u64> {
        self.loads.lock().unwrap().clone()
    }

    fn saves(&self) -> Vec<(u64, u64)> {
        self.saves.lock().unwrap().clone()
    }
}

#[test]
fn it_works() {
    let mut data = Vec::with_capacity(100000);
    for i in 0..100000u64 {
        data.push(i * 10);
    }
    let store = Store::with_data(data);
    let mut cache = LRUClockCache::new(1000, store.loader(), store.writer()).unwrap();

    for i in 0..100000u64 {
        assert_eq!(Ok(i * 10), cache.get(i));
    }
}

#[test]
fn zero_capacity_is_refused() {
    let store = Store::with_data(vec![0; 4]);
    let r = LRUClockCache::new(0, store.loader(), store.writer());
    assert!(matches!(r, Err(CacheError::InvalidCapacity)));
}

/// The concrete dual-cursor trace: capacity 4, keys 0..9 each set with
/// value key*10 in order, then each key re-read in order. The sets fill
/// slots with keys 0-3 first, then evict in arrival order, writing each
/// dirty victim back exactly once with its last value; the reads then miss
/// for every key and load what the write-backs persisted.
#[test]
fn reference_trace_capacity_four() {
    let store = Store::with_data((0..10u64).map(|k| k * 1000).collect());
    let mut cache = LRUClockCache::new(4, store.loader(), store.writer()).unwrap();

    for k in 0..10u64 {
        assert_eq!(Ok(()), cache.set(k, k * 10));
    }
    // The sets never consult the loader, and evict keys 0..5 in order.
    assert_eq!(store.loads(), Vec::<u64>::new());
    assert_eq!(
        store.saves(),
        vec![(0, 0), (1, 10), (2, 20), (3, 30), (4, 40), (5, 50)]
    );

    for k in 0..10u64 {
        assert_eq!(Ok(k * 10), cache.get(k));
    }
    // The reads evict the still-dirty keys 6..9 first, then clean slots;
    // every key was written back exactly once, with its last value.
    assert_eq!(store.loads(), (0..10u64).collect::<Vec<u64>>());
    assert_eq!(
        store.saves(),
        vec![
            (0, 0),
            (1, 10),
            (2, 20),
            (3, 30),
            (4, 40),
            (5, 50),
            (6, 60),
            (7, 70),
            (8, 80),
            (9, 90)
        ]
    );
}

/// Round trip: set(k, v) followed immediately by get(k) returns v, on an
/// empty cache, a filling one, and a full one.
#[test]
fn set_then_get_round_trip() {
    let store = Store::with_data(vec![0; 16]);
    let mut cache = LRUClockCache::new(2, store.loader(), store.writer()).unwrap();

    for k in 0..8u64 {
        assert_eq!(Ok(()), cache.set(k, k + 100));
        assert_eq!(Ok(k + 100), cache.get(k));
    }
    // Overwrite a resident key: the newer value wins.
    assert_eq!(Ok(()), cache.set(7, 777));
    assert_eq!(Ok(777), cache.get(7));
    // The round-trip gets were hits: the loader was never consulted.
    assert_eq!(store.loads(), Vec::<u64>::new());
}

/// With fewer distinct keys than slots, nothing is ever evicted: every
/// get sees the last set value and the loader is never consulted.
#[test]
fn under_capacity_keeps_everything() {
    let store = Store::with_data(vec![0; 8]);
    let mut cache = LRUClockCache::new(4, store.loader(), store.writer()).unwrap();

    for round in 0..5u64 {
        for k in 0..3u64 {
            assert_eq!(Ok(()), cache.set(k, 100 * round + k));
        }
        for k in 0..3u64 {
            assert_eq!(Ok(100 * round + k), cache.get(k));
        }
    }
    assert_eq!(store.loads(), Vec::<u64>::new());
    assert_eq!(store.saves(), Vec::<(u64, u64)>::new());
}

/// The index never holds more entries than the cache has slots.
#[test]
fn residency_never_exceeds_capacity() {
    let store = Store::with_data(vec![0; 32]);
    let mut cache = LRUClockCache::new(3, store.loader(), store.writer()).unwrap();

    assert_eq!(cache.len(), 0);
    for k in 0..20u64 {
        assert_eq!(Ok(()), cache.set(k, k));
        assert!(cache.len() <= 3);
    }
    assert_eq!(cache.len(), 3);
}

/// Two gets on the same resident key return the same value and cause no
/// callback at all.
#[test]
fn get_twice_is_idempotent() {
    let store = Store::with_data(vec![0; 8]);
    let mut cache = LRUClockCache::new(4, store.loader(), store.writer()).unwrap();

    assert_eq!(Ok(()), cache.set(2, 22));
    assert_eq!(Ok(22), cache.get(2));
    assert_eq!(Ok(22), cache.get(2));
    assert_eq!(store.loads(), Vec::<u64>::new());
    assert_eq!(store.saves(), Vec::<(u64, u64)>::new());
}

/// A key only ever populated by get is evicted without any writer call.
#[test]
fn clean_eviction_writes_nothing() {
    let store = Store::with_data((0..8u64).map(|k| k + 40).collect());
    let mut cache = LRUClockCache::new(2, store.loader(), store.writer()).unwrap();

    for k in 0..8u64 {
        assert_eq!(Ok(k + 40), cache.get(k));
    }
    assert_eq!(store.saves(), Vec::<(u64, u64)>::new());
    assert_eq!(store.loads(), (0..8u64).collect::<Vec<u64>>());
}

/// A set key that is evicted and never touched again reaches the writer
/// exactly once, with the last value it was set to.
#[test]
fn dirty_key_written_back_once() {
    let store = Store::with_data(vec![0; 8]);
    let mut cache = LRUClockCache::new(2, store.loader(), store.writer()).unwrap();

    assert_eq!(Ok(()), cache.set(0, 5));
    assert_eq!(Ok(()), cache.set(0, 7));
    for k in 1..6u64 {
        assert_eq!(Ok(0), cache.get(k));
    }
    let zero_writes: Vec<(u64, u64)> =
        store.saves().into_iter().filter(|e| e.0 == 0).collect();
    assert_eq!(zero_writes, vec![(0, 7)]);
    // The write-back persisted the last value: a re-read loads 7.
    assert_eq!(Ok(7), cache.get(0));
}

/// A failing writer aborts the miss: the error is surfaced, the victim's
/// data and dirty flag stay untouched, and a retry invokes the writer
/// again.
#[test]
fn write_back_failure_loses_nothing() {
    let store = Store::with_data(vec![0; 8]);
    let mut cache = LRUClockCache::new(1, store.loader(), store.failing_writer()).unwrap();

    assert_eq!(Ok(()), cache.set(0, 5));
    assert_eq!(Err(CacheError::BackingStoreWriteFailure), cache.set(1, 6));
    // The dirty victim was not overwritten.
    assert_eq!(Ok(5), cache.get(0));
    // A read miss hits the same write-back and fails the same way.
    assert_eq!(Err(CacheError::BackingStoreWriteFailure), cache.get(1));
    assert_eq!(store.saves(), vec![(0, 5), (0, 5)]);
    assert_eq!(store.loads(), Vec::<u64>::new());
}

/// A failing loader aborts the read miss: the error is surfaced and no
/// slot is claimed for the key.
#[test]
fn load_failure_claims_no_slot() {
    let store = Store::with_data(vec![11, 22]);
    let mut cache = LRUClockCache::new(2, store.loader(), store.writer()).unwrap();

    assert_eq!(Err(CacheError::BackingStoreLoadFailure), cache.get(99));
    assert_eq!(cache.len(), 0);
    // The cache still works afterwards.
    assert_eq!(Ok(11), cache.get(0));
    assert_eq!(Ok(22), cache.get(1));
}
