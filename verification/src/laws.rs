//! The laws of the cache, stated and proved over the abstract model.
//!
//! `step` reproduces, case by case, exactly the transitions that the
//! contracts of `get` and `set` allow, with the behaviour of the backing
//! store on that call recorded in a [`StoreOutcome`]; `run` folds a whole
//! sequence of calls. The trace laws below are therefore laws of every
//! execution of the cache.

use crate::model::{fresh_model, lemma_fresh_wf, CacheModel};
use crate::model::{
    lemma_flushed_wf, lemma_hit_wf, lemma_install_wf, lemma_search_exists, lemma_swept_frame,
    lemma_victim_in_range,
};
use vstd::prelude::*;

verus! {

/// One call into the cache.
pub enum CacheOp {
    Read { key: u64 },
    Write { key: u64, value: u64 },
}

/// What the backing store did during one call: what the loader returned
/// (if it was consulted), and whether the writer succeeded (if it ran).
pub struct StoreOutcome {
    pub loaded: Option<u64>,
    pub write_ok: bool,
}

pub open spec fn op_is_set(op: CacheOp, key: u64) -> bool {
    match op {
        CacheOp::Write { key: k, value } => k == key,
        CacheOp::Read { key: k } => false,
    }
}

/// The transition one `get` or `set` call performs on the abstract state:
/// exactly the outcomes the contracts of the executable `get` and `set`
/// allow, driven by what the backing store did.
pub open spec fn step(m: CacheModel, op: CacheOp, env: StoreOutcome) -> CacheModel {
    match op {
        CacheOp::Read { key } => {
            if m.resident(key) {
                m.read_hit(key)
            } else {
                let m1 = m.after_search();
                let v = m.victim();
                if m1.dirty[v] && !env.write_ok {
                    m1.write_back_logged(v)
                } else {
                    match env.loaded {
                        None => m1.flushed(v).load_logged(key),
                        Some(value) => m1.flushed(v).install(v, key, value, false).load_logged(key),
                    }
                }
            }
        },
        CacheOp::Write { key, value } => {
            if m.resident(key) {
                m.write_hit(key, value)
            } else {
                let m1 = m.after_search();
                let v = m.victim();
                if m1.dirty[v] && !env.write_ok {
                    m1.write_back_logged(v)
                } else {
                    m1.flushed(v).install(v, key, value, true)
                }
            }
        },
    }
}

/// The abstract state after a whole sequence of calls.
pub open spec fn run(m: CacheModel, ops: Seq<CacheOp>, envs: Seq<StoreOutcome>) -> CacheModel
    decreases ops.len(),
{
    if ops.len() == 0 {
        m
    } else {
        run(step(m, ops[0], envs[0]), ops.skip(1), envs.skip(1))
    }
}

/// `w2` is `w1` with more write-back invocations appended.
pub open spec fn write_record_extends(w1: Seq<(u64, u64)>, w2: Seq<(u64, u64)>) -> bool {
    &&& w2.len() >= w1.len()
    &&& forall|j: int| 0 <= j < w1.len() ==> w2[j] == w1[j]
}

/// No slot holding `key` — resident or stale — is dirty.
pub open spec fn clean_for(m: CacheModel, key: u64) -> bool {
    forall|i: int| 0 <= i < m.capacity() && m.keys[i] == key ==> !(#[trigger] m.dirty[i])
}

/// `key` is resident and its slot holds `value`, not yet persisted.
pub open spec fn holds_unpersisted(m: CacheModel, key: u64, value: u64) -> bool {
    &&& m.resident(key)
    &&& m.dirty[m.slot_of(key)]
    &&& m.value_of(key) == value
}

/// A map whose entries all point into `0..n`, no two at the same place,
/// has at most `n` entries.
proof fn lemma_injective_bound(index: Map<u64, usize>, n: int)
    requires
        n >= 0,
        index.dom().finite(),
        forall|k: u64| #[trigger] index.dom().contains(k) ==> 0 <= index[k] < n,
        forall|k1: u64, k2: u64|
            index.dom().contains(k1) && index.dom().contains(k2) && k1 != k2 ==> #[trigger] index[k1]
                != #[trigger] index[k2],
    ensures
        index.dom().len() <= n,
    decreases n,
{
    if n == 0 {
        assert(index.dom() =~= Set::empty());
    } else if exists|k: u64| #[trigger] index.dom().contains(k) && index[k] == n - 1 {
        let k = choose|k: u64| #[trigger] index.dom().contains(k) && index[k] == n - 1;
        let rest = index.remove(k);
        assert(rest.dom() =~= index.dom().remove(k));
        assert forall|k2: u64| #[trigger] rest.dom().contains(k2) implies 0 <= rest[k2] < n
            - 1 by {
            assert(index.dom().contains(k2) && k2 != k);
        }
        lemma_injective_bound(rest, n - 1);
    } else {
        assert forall|k: u64| #[trigger] index.dom().contains(k) implies 0 <= index[k] < n
            - 1 by {
            assert(index[k] != n - 1);
        }
        lemma_injective_bound(index, n - 1);
    }
}

/// Bounded residency: a well-formed cache never indexes more keys than it
/// has slots, however many distinct keys the calls so far named.
pub proof fn lemma_bounded_residency(m: CacheModel)
    requires
        m.wf(),
    ensures
        m.index.dom().len() <= m.capacity(),
{
    assert forall|k1: u64, k2: u64|
        m.index.dom().contains(k1) && m.index.dom().contains(k2) && k1 != k2 implies #[trigger] m
        .index[k1] != #[trigger] m.index[k2] by {
        assert(m.keys[m.index[k1] as int] == k1);
        assert(m.keys[m.index[k2] as int] == k2);
    }
    lemma_injective_bound(m.index, m.capacity());
}

/// Round trip: immediately after a `set(key, value)` that returned
/// successfully, `key` is resident and its cached value is `value` —
/// whether the set was a hit or claimed a slot on a full cache — so a
/// following `get(key)` is a hit and, by `get`'s contract, returns
/// `value` without consulting the loader.
pub proof fn lemma_round_trip(m: CacheModel, key: u64, value: u64)
    requires
        m.wf(),
    ensures
        m.resident(key) ==> ({
            let r = m.write_hit(key, value);
            r.resident(key) && r.value_of(key) == value
        }),
        !m.resident(key) ==> ({
            let r = m.after_search().flushed(m.victim()).install(m.victim(), key, value, true);
            r.resident(key) && r.value_of(key) == value
        }),
{
    if m.resident(key) {
        lemma_hit_wf(m, key, value);
    } else {
        let m1 = m.after_search();
        let v = m.victim();
        lemma_victim_in_range(m);
        lemma_search_exists(m);
        lemma_swept_frame(m, (m.search_steps() + 1) as nat);
        lemma_flushed_wf(m1, v);
        lemma_install_wf(m1.flushed(v), v, key, value, true);
    }
}

/// Idempotent reads: a `get` on a resident key only sets the slot's
/// survival flag. It leaves the key resident with the same value, records
/// no callback, and a second such `get` leaves the state exactly as the
/// first did — so both return the same value.
pub proof fn lemma_get_idempotent(m: CacheModel, key: u64)
    requires
        m.wf(),
        m.resident(key),
    ensures
        ({
            let r = m.read_hit(key);
            &&& r.wf()
            &&& r.resident(key)
            &&& r.value_of(key) == m.value_of(key)
            &&& r.writes == m.writes
            &&& r.loads == m.loads
            &&& r.read_hit(key) == r
        }),
{
    lemma_hit_wf(m, key, 0);
    let r = m.read_hit(key);
    assert(r.read_hit(key).survival =~= r.survival);
    assert(r.read_hit(key) =~= r);
}

/// One step keeps the state well formed and only appends to the record of
/// writer invocations.
pub proof fn lemma_step_wf(m: CacheModel, op: CacheOp, env: StoreOutcome)
    requires
        m.wf(),
    ensures
        step(m, op, env).wf(),
        write_record_extends(m.writes, step(m, op, env).writes),
{
    let key = match op {
        CacheOp::Read { key } => key,
        CacheOp::Write { key, value } => key,
    };
    if m.resident(key) {
        match op {
            CacheOp::Read { key } => lemma_hit_wf(m, key, 0),
            CacheOp::Write { key, value } => lemma_hit_wf(m, key, value),
        }
    } else {
        let m1 = m.after_search();
        let v = m.victim();
        lemma_victim_in_range(m);
        lemma_search_exists(m);
        lemma_swept_frame(m, (m.search_steps() + 1) as nat);
        lemma_flushed_wf(m1, v);
        match op {
            CacheOp::Read { key } => {
                if !(m1.dirty[v] && !env.write_ok) {
                    match env.loaded {
                        None => {},
                        Some(value) => {
                            lemma_install_wf(m1.flushed(v), v, key, value, false);
                        },
                    }
                }
            },
            CacheOp::Write { key, value } => {
                if !(m1.dirty[v] && !env.write_ok) {
                    lemma_install_wf(m1.flushed(v), v, key, value, true);
                }
            },
        }
    }
}

/// One step on a key no slot holds dirty: it stays that way, and whatever
/// the step writes back is about other keys.
proof fn lemma_step_clean(m: CacheModel, op: CacheOp, env: StoreOutcome, key: u64)
    requires
        m.wf(),
        clean_for(m, key),
        !op_is_set(op, key),
    ensures
        ({
            let r = step(m, op, env);
            &&& r.wf()
            &&& clean_for(r, key)
            &&& write_record_extends(m.writes, r.writes)
            &&& forall|j: int|
                m.writes.len() <= j < r.writes.len() ==> (#[trigger] r.writes[j]).0 != key
        }),
{
    lemma_step_wf(m, op, env);
    let r = step(m, op, env);
    let opkey = match op {
        CacheOp::Read { key: k } => k,
        CacheOp::Write { key: k, value } => k,
    };
    if m.resident(opkey) {
        match op {
            CacheOp::Read { key: k } => {},
            CacheOp::Write { key: k, value } => {
                let s = m.slot_of(k);
                assert(m.keys[s] == k);
                assert forall|i: int| 0 <= i < r.capacity() && r.keys[i] == key implies !(
                #[trigger] r.dirty[i]) by {
                    if i != s {
                        assert(!m.dirty[i]);
                    }
                }
            },
        }
    } else {
        let m1 = m.after_search();
        let v = m.victim();
        lemma_victim_in_range(m);
        lemma_search_exists(m);
        lemma_swept_frame(m, (m.search_steps() + 1) as nat);
        assert(m1.keys == m.keys && m1.dirty == m.dirty && m1.writes == m.writes);
        if m1.keys[v] == key {
            assert(!m1.dirty[v]);
        }
        if m1.dirty[v] && !env.write_ok {
            assert(r.writes == m.writes.push((m1.keys[v], m1.values[v])));
            assert(m1.keys[v] != key);
        } else {
            let m2 = m1.flushed(v);
            assert forall|j: int|
                m.writes.len() <= j < m2.writes.len() implies (#[trigger] m2.writes[j]).0
                != key by {
                assert(m1.dirty[v] && m2.writes == m.writes.push((m1.keys[v], m1.values[v])));
            }
            assert(clean_for(m2, key));
            let installed = match op {
                CacheOp::Read { key: k } => {
                    match env.loaded {
                        None => m2.load_logged(k),
                        Some(value) => m2.install(v, k, value, false).load_logged(k),
                    }
                },
                CacheOp::Write { key: k, value } => m2.install(v, k, value, true),
            };
            assert(r == installed);
            assert forall|i: int| 0 <= i < r.capacity() && r.keys[i] == key implies !(
            #[trigger] r.dirty[i]) by {
                if i != v {
                    assert(r.dirty[i] == m2.dirty[i]);
                }
            }
        }
    }
}

/// Clean keys are never written back: as long as no `set` names `key`, a
/// state in which no slot holds `key` dirty stays that way, and no later
/// write-back invocation carries `key`. In particular a key only ever
/// populated by `get` (loaded, never written) is evicted silently, and a
/// key that has been evicted and is never set again is never written back
/// any more.
pub proof fn lemma_clean_key_never_written_back(
    m: CacheModel,
    ops: Seq<CacheOp>,
    envs: Seq<StoreOutcome>,
    key: u64,
)
    requires
        m.wf(),
        clean_for(m, key),
        forall|i: int| 0 <= i < ops.len() ==> !op_is_set(#[trigger] ops[i], key),
    ensures
        ({
            let r = run(m, ops, envs);
            &&& r.wf()
            &&& clean_for(r, key)
            &&& write_record_extends(m.writes, r.writes)
            &&& forall|j: int|
                m.writes.len() <= j < r.writes.len() ==> (#[trigger] r.writes[j]).0 != key
        }),
    decreases ops.len(),
{
    if ops.len() > 0 {
        let m2 = step(m, ops[0], envs[0]);
        lemma_step_clean(m, ops[0], envs[0], key);
        assert(forall|i: int|
            0 <= i < ops.skip(1).len() ==> !op_is_set(#[trigger] ops.skip(1)[i], key));
        lemma_clean_key_never_written_back(m2, ops.skip(1), envs.skip(1), key);
    }
}

/// A freshly built cache holds nothing dirty, so a key that is only ever
/// read — populated by `get`, never `set` — never reaches the writer at
/// all, however often it is cached and evicted.
pub proof fn lemma_clean_eviction(n: nat, ops: Seq<CacheOp>, envs: Seq<StoreOutcome>, key: u64)
    requires
        1 <= n <= usize::MAX,
        forall|i: int| 0 <= i < ops.len() ==> !op_is_set(#[trigger] ops[i], key),
    ensures
        ({
            let r = run(fresh_model(n), ops, envs);
            forall|j: int| 0 <= j < r.writes.len() ==> (#[trigger] r.writes[j]).0 != key
        }),
{
    lemma_fresh_wf(n);
    lemma_clean_key_never_written_back(fresh_model(n), ops, envs, key);
}

/// One step on a state where `key` holds an unpersisted `value`: either
/// the pair survives untouched (nothing about `key` is written back), or
/// this very step evicted it and wrote back exactly `(key, value)`.
proof fn lemma_step_dirty(m: CacheModel, op: CacheOp, env: StoreOutcome, key: u64, value: u64)
    requires
        m.wf(),
        holds_unpersisted(m, key, value),
        !op_is_set(op, key),
        env.write_ok,
    ensures
        ({
            let r = step(m, op, env);
            &&& r.wf()
            &&& write_record_extends(m.writes, r.writes)
            &&& (holds_unpersisted(r, key, value) && (forall|j: int|
                m.writes.len() <= j < r.writes.len() ==> (#[trigger] r.writes[j]).0 != key)) || (
            clean_for(r, key) && r.writes == m.writes.push((key, value)))
        }),
{
    lemma_step_wf(m, op, env);
    let r = step(m, op, env);
    let s = m.slot_of(key);
    assert(m.keys[s] == key);
    let opkey = match op {
        CacheOp::Read { key: k } => k,
        CacheOp::Write { key: k, value: u } => k,
    };
    if m.resident(opkey) {
        match op {
            CacheOp::Read { key: k } => {},
            CacheOp::Write { key: k, value: u } => {
                assert(k != key);
                assert(m.slot_of(k) != s);
            },
        }
        assert(holds_unpersisted(r, key, value));
    } else {
        assert(opkey != key);
        let m1 = m.after_search();
        let v = m.victim();
        lemma_victim_in_range(m);
        lemma_search_exists(m);
        lemma_swept_frame(m, (m.search_steps() + 1) as nat);
        assert(m1.keys == m.keys && m1.values == m.values && m1.dirty == m.dirty && m1.index
            == m.index && m1.writes == m.writes);
        if v == s {
            assert(m1.dirty[v]);
            let m2 = m1.flushed(v);
            assert(m2.writes == m.writes.push((key, value)));
            let installed = match op {
                CacheOp::Read { key: k } => {
                    match env.loaded {
                        None => m2.load_logged(k),
                        Some(u) => m2.install(v, k, u, false).load_logged(k),
                    }
                },
                CacheOp::Write { key: k, value: u } => m2.install(v, k, u, true),
            };
            assert(r == installed);
            assert forall|i: int| 0 <= i < r.capacity() && r.keys[i] == key implies !(
            #[trigger] r.dirty[i]) by {
                if i != v {
                    assert(m.dirty[i] ==> m.index[m.keys[i]] == i);
                    assert(r.dirty[i] == m.dirty[i]);
                    if m.keys[i] == key && m.dirty[i] {
                        assert(m.index[key] == i);
                    }
                }
            }
            assert(clean_for(r, key));
        } else {
            if m1.dirty[v] && m1.keys[v] == key {
                assert(m.index[m.keys[v]] == v);
            }
            assert(m1.dirty[v] ==> m1.keys[v] != key);
            let m2 = m1.flushed(v);
            assert forall|j: int|
                m.writes.len() <= j < r.writes.len() implies (#[trigger] r.writes[j]).0 != key by {
                assert(m1.dirty[v]);
                assert(r.writes == m.writes.push((m1.keys[v], m1.values[v])));
            }
            assert(m2.resident(key) && m2.slot_of(key) == s && m2.dirty[s] && m2.values[s]
                == value);
            let installed = match op {
                CacheOp::Read { key: k } => {
                    match env.loaded {
                        None => m2.load_logged(k),
                        Some(u) => m2.install(v, k, u, false).load_logged(k),
                    }
                },
                CacheOp::Write { key: k, value: u } => m2.install(v, k, u, true),
            };
            assert(r == installed);
            if r != m2 {
                assert(m2.unmapped(v).contains_key(key) && m2.unmapped(v)[key] == s as usize) by {
                    if m2.index.dom().contains(m2.keys[v]) && m2.index[m2.keys[v]] == v {
                        assert(m2.keys[v] != key);
                    }
                }
                assert(r.index.contains_key(key) && r.index[key] == s as usize);
            }
            assert(holds_unpersisted(r, key, value));
        }
    }
}

/// Dirty-write: once `key` holds an unpersisted `value` and is never set
/// again, the writer is invoked for `key` exactly once — with `value`, by
/// the eviction that reuses its slot — and never after; as long as the
/// pair has not been evicted, it sits unchanged in its slot and nothing
/// about `key` is written back. Failure-free writers are assumed, since a
/// failed write-back aborts its call and is legitimately retried later.
pub proof fn lemma_dirty_write_once(
    m: CacheModel,
    ops: Seq<CacheOp>,
    envs: Seq<StoreOutcome>,
    key: u64,
    value: u64,
)
    requires
        m.wf(),
        holds_unpersisted(m, key, value),
        forall|i: int| 0 <= i < ops.len() ==> !op_is_set(#[trigger] ops[i], key),
        forall|i: int| 0 <= i < envs.len() ==> (#[trigger] envs[i]).write_ok,
        envs.len() >= ops.len(),
    ensures
        ({
            let r = run(m, ops, envs);
            &&& r.wf()
            &&& write_record_extends(m.writes, r.writes)
            &&& (holds_unpersisted(r, key, value) && (forall|j: int|
                m.writes.len() <= j < r.writes.len() ==> (#[trigger] r.writes[j]).0 != key)) || (
            exists|j: int|
                m.writes.len() <= j < r.writes.len() && #[trigger] r.writes[j] == (key, value) && (
                forall|j2: int|
                    m.writes.len() <= j2 < r.writes.len() && j2 != j ==> (#[trigger] r.writes[j2]).0
                        != key))
        }),
    decreases ops.len(),
{
    if ops.len() > 0 {
        let m2 = step(m, ops[0], envs[0]);
        lemma_step_dirty(m, ops[0], envs[0], key, value);
        let r = run(m, ops, envs);
        assert(r == run(m2, ops.skip(1), envs.skip(1)));
        if holds_unpersisted(m2, key, value) {
            lemma_dirty_write_once(m2, ops.skip(1), envs.skip(1), key, value);
            if !holds_unpersisted(r, key, value) {
                let j = choose|j: int|
                    m2.writes.len() <= j < r.writes.len() && #[trigger] r.writes[j] == (
                    key,
                    value,
                ) && (forall|j2: int|
                    m2.writes.len() <= j2 < r.writes.len() && j2 != j ==> (#[trigger] r.writes[j2]).0
                        != key);
                assert(m.writes.len() <= j < r.writes.len() && r.writes[j] == (key, value));
            }
        } else {
            assert(clean_for(m2, key) && m2.writes == m.writes.push((key, value)));
            lemma_clean_key_never_written_back(m2, ops.skip(1), envs.skip(1), key);
            assert(!holds_unpersisted(r, key, value));
            let j = m.writes.len() as int;
            assert(r.writes[j] == (key, value));
        }
    }
}

pub open spec fn op_key(op: CacheOp) -> u64 {
    match op {
        CacheOp::Read { key } => key,
        CacheOp::Write { key, value } => key,
    }
}

/// The slot `j + 1` places behind cursor position `e` on a clock of `n` slots.
pub open spec fn slot_behind(e: int, j: int, n: int) -> int {
    if e - 1 - j >= 0 {
        e - 1 - j
    } else {
        e - 1 - j + n
    }
}

/// The shape of a cache that has never been full: the resident keys sit in
/// the slots the evict hand claimed last, immediately behind it, and only
/// resident slots carry a survival mark. A fresh cache is compact, and as
/// long as fewer distinct keys than slots are ever named, every miss finds
/// its victim on the first probe, in the fresh slot under the evict hand.
pub open spec fn compact_residency(m: CacheModel) -> bool {
    &&& forall|k: u64| #[trigger] m.resident(k) ==> exists|j: int|
        0 <= j < m.index.dom().len() && m.slot_of(k) == #[trigger] slot_behind(
            m.evict,
            j,
            m.capacity(),
        )
    &&& forall|i: int|
        0 <= i < m.capacity() && #[trigger] m.survival[i] ==> exists|k: u64|
            #[trigger] m.resident(k) && m.slot_of(k) == i
}

pub proof fn lemma_fresh_compact(n: nat)
    requires
        1 <= n <= usize::MAX,
    ensures
        compact_residency(fresh_model(n)),
{
}

/// In a compact, not-full state no resident key sits under the evict hand.
proof fn lemma_compact_evict_slot_free(m: CacheModel, bound: nat)
    requires
        m.wf(),
        compact_residency(m),
        m.index.dom().finite(),
        m.index.dom().len() <= bound,
        bound < m.capacity(),
    ensures
        forall|k: u64| #[trigger] m.resident(k) ==> m.slot_of(k) != m.evict,
        !m.survival[m.evict],
        !m.dirty[m.evict],
{
    let n = m.capacity();
    assert forall|k: u64| #[trigger] m.resident(k) implies m.slot_of(k) != m.evict by {
        let j = choose|j: int|
            0 <= j < m.index.dom().len() && m.slot_of(k) == #[trigger] slot_behind(m.evict, j, n);
        assert(j < n - 1);
        assert(slot_behind(m.evict, j, n) != m.evict);
    }
    if m.survival[m.evict] {
        let k = choose|k: u64| #[trigger] m.resident(k) && m.slot_of(k) == m.evict;
        assert(false);
    }
    if m.dirty[m.evict] {
        assert(m.resident(m.keys[m.evict]) && m.slot_of(m.keys[m.evict]) == m.evict);
        assert(false);
    }
}

/// A miss in a compact, not-full state: the search ends on its first
/// probe, the victim is the fresh, clean slot under the evict hand, no
/// write-back happens, and installing the new key keeps the state compact
/// while every resident key keeps its slot and value.
proof fn lemma_miss_compact(m: CacheModel, key: u64, u: u64, d: bool, bound: nat)
    requires
        m.wf(),
        compact_residency(m),
        m.index.dom().len() <= bound,
        bound < m.capacity(),
        !m.resident(key),
    ensures
        m.search_steps() == 0,
        m.victim() == m.evict,
        !m.after_search().dirty[m.victim()],
        ({
            let r = m.after_search().flushed(m.victim()).install(m.victim(), key, u, d);
            &&& r.wf()
            &&& r.capacity() == m.capacity()
            &&& compact_residency(r)
            &&& r.index.dom() == m.index.dom().insert(key)
            &&& r.writes == m.writes
            &&& forall|k: u64| #[trigger]
                m.resident(k) ==> r.resident(k) && r.slot_of(k) == m.slot_of(k) && r.value_of(k)
                    == m.value_of(k)
        }),
{
    let n = m.capacity();
    let c = m.index.dom().len();
    lemma_compact_evict_slot_free(m, bound);
    // The first probe finds the victim.
    assert(m.swept(0) == m);
    assert(m.swept(1) == m.swept(0).probe());
    assert(!m.probe().survival[m.evict]);
    assert(m.probe_found(0));
    assert(m.search_ok(0));
    assert(m.search_ok(m.search_steps()));
    crate::model::lemma_search_unique(m, 0, m.search_steps());
    let m1 = m.after_search();
    assert(m1 == m.probe());
    assert(!m1.dirty[m.evict]);
    assert(m1.flushed(m.evict) == m1);
    let r = m1.install(m.evict, key, u, d);
    lemma_swept_frame(m, 1);
    crate::model::lemma_swept_wf(m, 1);
    lemma_install_wf(m1, m.evict, key, u, d);
    // No entry names the victim slot, so nothing leaves the index.
    if m1.index.dom().contains(m1.keys[m.evict]) && m1.index[m1.keys[m.evict]] == m.evict {
        assert(m.resident(m.keys[m.evict]) && m.slot_of(m.keys[m.evict]) == m.evict);
        assert(false);
    }
    assert(m1.unmapped(m.evict) == m1.index);
    assert(r.index == m.index.insert(key, m.evict as usize));
    assert(r.index.dom() =~= m.index.dom().insert(key));
    vstd::set::axiom_set_insert_len(m.index.dom(), key);
    assert(r.index.dom().len() == c + 1);
    assert(r.evict == crate::model::inc_wrap(m.evict, n));
    // Every resident key keeps its slot and value; the new key joins.
    assert forall|k: u64| #[trigger] m.resident(k) implies r.resident(k) && r.slot_of(k)
        == m.slot_of(k) && r.value_of(k) == m.value_of(k) by {
        assert(k != key);
        assert(m.slot_of(k) != m.evict);
    }
    // The residents again sit immediately behind the (advanced) evict hand.
    assert forall|k: u64| #[trigger] r.resident(k) implies exists|j: int|
        0 <= j < r.index.dom().len() && r.slot_of(k) == #[trigger] slot_behind(
            r.evict,
            j,
            n,
        ) by {
        if k == key {
            assert(r.slot_of(k) == m.evict);
            assert(slot_behind(r.evict, 0, n) == m.evict);
        } else {
            assert(m.resident(k));
            let j = choose|j: int|
                0 <= j < c && m.slot_of(k) == #[trigger] slot_behind(m.evict, j, n);
            assert(slot_behind(r.evict, j + 1, n) == slot_behind(m.evict, j, n));
            assert(r.slot_of(k) == slot_behind(r.evict, j + 1, n));
        }
    }
    // Only resident slots stay marked.
    assert forall|i: int| 0 <= i < n && #[trigger] r.survival[i] implies exists|k: u64|
        #[trigger] r.resident(k) && r.slot_of(k) == i by {
        assert(i != m.evict && i != m.sweep);
        assert(m.survival[i]);
        let k = choose|k: u64| #[trigger] m.resident(k) && m.slot_of(k) == i;
        assert(r.resident(k) && r.slot_of(k) == i);
    }
}

/// Logging a loader invocation changes no slot, no index entry, no cursor
/// and no write: the compact shape carries over unchanged.
proof fn lemma_load_logged_shape(x: CacheModel, key: u64)
    requires
        x.wf(),
    ensures
        ({
            let r = x.load_logged(key);
            &&& r.wf()
            &&& r.capacity() == x.capacity()
            &&& (compact_residency(x) ==> compact_residency(r))
        }),
{
    let r = x.load_logged(key);
    let n = x.capacity();
    if compact_residency(x) {
        assert forall|k: u64| #[trigger] r.resident(k) implies exists|j: int|
            0 <= j < r.index.dom().len() && r.slot_of(k) == #[trigger] slot_behind(
                r.evict,
                j,
                n,
            ) by {
            assert(x.resident(k));
            let j = choose|j: int|
                0 <= j < x.index.dom().len() && x.slot_of(k) == #[trigger] slot_behind(
                    x.evict,
                    j,
                    n,
                );
            assert(r.slot_of(k) == slot_behind(r.evict, j, n));
        }
        assert forall|i: int| 0 <= i < n && #[trigger] r.survival[i] implies exists|k: u64|
            #[trigger] r.resident(k) && r.slot_of(k) == i by {
            assert(x.survival[i]);
            let k = choose|k: u64| #[trigger] x.resident(k) && x.slot_of(k) == i;
            assert(r.resident(k) && r.slot_of(k) == i);
        }
    }
}

/// One call in a compact state that has never seen `capacity` distinct
/// keys: the state stays compact, no key is evicted, no slot changes
/// hands except the fresh one a miss claims, and the writer is not
/// invoked. A read miss is assumed answered by the loader; an unanswered
/// one would claim no slot either.
proof fn lemma_step_compact(m: CacheModel, op: CacheOp, env: StoreOutcome, keyset: Set<u64>)
    requires
        m.wf(),
        compact_residency(m),
        m.index.dom().subset_of(keyset),
        keyset.finite(),
        keyset.len() < m.capacity(),
        keyset.contains(op_key(op)),
        env.loaded is Some,
    ensures
        ({
            let r = step(m, op, env);
            &&& r.wf()
            &&& r.capacity() == m.capacity()
            &&& compact_residency(r)
            &&& r.index.dom().subset_of(keyset)
            &&& r.writes == m.writes
            &&& (r.loads == m.loads || r.loads == m.loads.push(op_key(op)))
            &&& (m.resident(op_key(op)) ==> r.loads == m.loads)
            &&& forall|k: u64| #[trigger]
                m.resident(k) ==> r.resident(k) && r.slot_of(k) == m.slot_of(k)
            &&& forall|k: u64| #[trigger]
                m.resident(k) && !op_is_set(op, k) ==> r.value_of(k) == m.value_of(k)
        }),
{
    lemma_step_wf(m, op, env);
    let r = step(m, op, env);
    let n = m.capacity();
    let key = op_key(op);
    vstd::set_lib::lemma_len_subset(m.index.dom(), keyset);
    if m.resident(key) {
        let s = m.slot_of(key);
        assert(r.index == m.index && r.evict == m.evict && r.keys == m.keys);
        assert forall|k: u64| #[trigger] r.resident(k) implies exists|j: int|
            0 <= j < r.index.dom().len() && r.slot_of(k) == #[trigger] slot_behind(
                r.evict,
                j,
                n,
            ) by {
            assert(m.resident(k));
            let j = choose|j: int|
                0 <= j < m.index.dom().len() && m.slot_of(k) == #[trigger] slot_behind(
                    m.evict,
                    j,
                    n,
                );
            assert(r.slot_of(k) == slot_behind(r.evict, j, n));
        }
        assert forall|i: int| 0 <= i < n && #[trigger] r.survival[i] implies exists|k: u64|
            #[trigger] r.resident(k) && r.slot_of(k) == i by {
            if i == s {
                assert(r.resident(key) && r.slot_of(key) == i);
            } else {
                assert(m.survival[i]);
                let k = choose|k: u64| #[trigger] m.resident(k) && m.slot_of(k) == i;
                assert(r.resident(k) && r.slot_of(k) == i);
            }
        }
        assert forall|k: u64| #[trigger] m.resident(k) && !op_is_set(op, k) implies r.value_of(k)
            == m.value_of(k) by {
            match op {
                CacheOp::Read { key: k2 } => {},
                CacheOp::Write { key: k2, value } => {
                    if k != k2 {
                        assert(m.keys[m.slot_of(k)] == k && m.keys[m.slot_of(k2)] == k2);
                        assert(m.slot_of(k) != m.slot_of(k2));
                    }
                },
            }
        }
    } else {
        assert(m.index.dom().subset_of(keyset.remove(key)));
        vstd::set_lib::lemma_len_subset(m.index.dom(), keyset.remove(key));
        vstd::set::axiom_set_remove_len(keyset, key);
        match op {
            CacheOp::Read { key: k2 } => {
                let u = env.loaded->Some_0;
                lemma_miss_compact(m, k2, u, false, (keyset.len() - 1) as nat);
                let x = m.after_search().flushed(m.victim()).install(m.victim(), k2, u, false);
                assert(r == x.load_logged(k2));
                lemma_load_logged_shape(x, k2);
            },
            CacheOp::Write { key: k2, value } => {
                lemma_miss_compact(m, k2, value, true, (keyset.len() - 1) as nat);
                assert(r == m.after_search().flushed(m.victim()).install(
                    m.victim(),
                    k2,
                    value,
                    true,
                ));
            },
        }
        assert(r.index.dom() == m.index.dom().insert(key));
    }
}

/// Under capacity nothing is ever evicted: from a compact state (a fresh
/// cache is one), as long as every call names one of fewer distinct keys
/// than there are slots and the loader answers every read miss, a resident
/// key stays resident at its slot, keeping its value through every call
/// that does not set it anew. A later `get` of such a key is therefore a
/// hit, which by `get`'s contract returns that value. The loader is never
/// invoked for such a key, and the writer is never invoked at all.
pub proof fn lemma_under_capacity_no_eviction(
    m: CacheModel,
    ops: Seq<CacheOp>,
    envs: Seq<StoreOutcome>,
    keyset: Set<u64>,
    key: u64,
)
    requires
        m.wf(),
        compact_residency(m),
        m.index.dom().subset_of(keyset),
        keyset.finite(),
        keyset.len() < m.capacity(),
        forall|i: int| 0 <= i < ops.len() ==> keyset.contains(op_key(#[trigger] ops[i])),
        forall|i: int| 0 <= i < envs.len() ==> (#[trigger] envs[i]).loaded is Some,
        envs.len() >= ops.len(),
        m.resident(key),
        forall|i: int| 0 <= i < ops.len() ==> !op_is_set(#[trigger] ops[i], key),
    ensures
        ({
            let r = run(m, ops, envs);
            &&& r.wf()
            &&& compact_residency(r)
            &&& r.resident(key)
            &&& r.value_of(key) == m.value_of(key)
            &&& r.writes == m.writes
            &&& r.loads.len() >= m.loads.len()
            &&& forall|j: int| 0 <= j < m.loads.len() ==> r.loads[j] == m.loads[j]
            &&& forall|j: int|
                m.loads.len() <= j < r.loads.len() ==> (#[trigger] r.loads[j]) != key
        }),
    decreases ops.len(),
{
    if ops.len() > 0 {
        lemma_step_compact(m, ops[0], envs[0], keyset);
        let m2 = step(m, ops[0], envs[0]);
        assert(op_key(ops[0]) != key || m.resident(op_key(ops[0])));
        lemma_under_capacity_no_eviction(m2, ops.skip(1), envs.skip(1), keyset, key);
    }
}


} // verus!
