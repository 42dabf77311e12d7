//! The mathematical model of the cache: an abstract state, the transitions
//! that `get` and `set` perform on it, and the facts about the two-handed
//! victim search that both the executable code and the laws rely on.

use vstd::prelude::*;

verus! {

/// Abstract state of the cache.
///
/// `keys`, `values`, `survival` and `dirty` describe the fixed slot table,
/// one entry per slot. `index` maps each resident key to the slot that
/// holds it. `sweep` and `evict` are the positions of the two clock hands.
/// `writes` records every invocation of the backing store's writer, in
/// order, as (key, value) pairs; `loads` does the same for the loader.
#[verifier::ext_equal]
pub struct CacheModel {
    pub keys: Seq<u64>,
    pub values: Seq<u64>,
    pub survival: Seq<bool>,
    pub dirty: Seq<bool>,
    pub index: Map<u64, usize>,
    pub sweep: int,
    pub evict: int,
    pub writes: Seq<(u64, u64)>,
    pub loads: Seq<u64>,
}

/// One step of a circular cursor over `n` slots.
pub open spec fn inc_wrap(i: int, n: int) -> int {
    if i + 1 >= n {
        0
    } else {
        i + 1
    }
}

/// A circular cursor over `n` slots, advanced `j` times from `p`.
pub open spec fn cursor_after(p: int, j: nat, n: int) -> int
    decreases j,
{
    if j == 0 {
        p
    } else {
        inc_wrap(cursor_after(p, (j - 1) as nat, n), n)
    }
}

impl CacheModel {
    /// The number of slots, fixed for the cache's lifetime.
    pub open spec fn capacity(self) -> int {
        self.keys.len() as int
    }

    /// The fixed distance the evict hand runs ahead of the sweep hand.
    pub open spec fn offset(self) -> int {
        self.capacity() / 2
    }

    /// Well-formedness: equal-length slot columns, cursors in range and a
    /// half-capacity apart, the index a bijection onto the slots it names,
    /// and every dirty slot owned by the key the index holds for it.
    pub open spec fn wf(self) -> bool {
        &&& self.keys.len() >= 1
        &&& self.keys.len() <= usize::MAX
        &&& self.values.len() == self.keys.len()
        &&& self.survival.len() == self.keys.len()
        &&& self.dirty.len() == self.keys.len()
        &&& 0 <= self.sweep < self.capacity()
        &&& 0 <= self.evict < self.capacity()
        &&& (self.evict == self.sweep + self.offset() || self.evict == self.sweep + self.offset()
            - self.capacity())
        &&& self.index.dom().finite()
        &&& forall|k: u64| #[trigger]
            self.index.dom().contains(k) ==> 0 <= self.index[k] < self.keys.len()
                && self.keys[self.index[k] as int] == k
        &&& forall|i: int|
            0 <= i < self.capacity() && #[trigger] self.dirty[i] ==> self.index.dom().contains(
                self.keys[i],
            ) && self.index[self.keys[i]] == i
    }

    /// Whether `key` currently has a slot.
    pub open spec fn resident(self, key: u64) -> bool {
        self.index.dom().contains(key)
    }

    /// The slot holding `key` (meaningful only while `key` is resident).
    pub open spec fn slot_of(self, key: u64) -> int {
        self.index[key] as int
    }

    /// The cached value of `key` (meaningful only while `key` is resident).
    pub open spec fn value_of(self, key: u64) -> u64 {
        self.values[self.slot_of(key)]
    }

    /// A read hit: the slot is marked as touched, nothing else changes.
    pub open spec fn read_hit(self, key: u64) -> CacheModel {
        CacheModel { survival: self.survival.update(self.slot_of(key), true), ..self }
    }

    /// A write hit: the slot is touched, overwritten, and marked dirty.
    pub open spec fn write_hit(self, key: u64, value: u64) -> CacheModel {
        CacheModel {
            survival: self.survival.update(self.slot_of(key), true),
            values: self.values.update(self.slot_of(key), value),
            dirty: self.dirty.update(self.slot_of(key), true),
            ..self
        }
    }

    /// One iteration of the victim search: the sweep hand clears the
    /// survival flag under it, then both hands advance by one slot.
    pub open spec fn probe(self) -> CacheModel {
        CacheModel {
            survival: self.survival.update(self.sweep, false),
            sweep: inc_wrap(self.sweep, self.capacity()),
            evict: inc_wrap(self.evict, self.capacity()),
            ..self
        }
    }

    /// The state after `j` full iterations of the victim search.
    pub open spec fn swept(self, j: nat) -> CacheModel
        decreases j,
    {
        if j == 0 {
            self
        } else {
            self.swept((j - 1) as nat).probe()
        }
    }

    /// Whether iteration `k` of the victim search finds its victim: after
    /// that iteration's sweep, the slot under the evict hand is untouched.
    pub open spec fn probe_found(self, k: nat) -> bool {
        !self.swept((k + 1) as nat).survival[self.swept(k).evict]
    }

    /// The search succeeds at iteration `k` and at no earlier iteration.
    pub open spec fn search_ok(self, k: nat) -> bool {
        &&& self.probe_found(k)
        &&& forall|j: nat| j < k ==> !self.probe_found(j)
    }

    /// The number of iterations the victim search runs for.
    pub open spec fn search_steps(self) -> nat {
        choose|k: nat| self.search_ok(k)
    }

    /// The slot the victim search selects.
    pub open spec fn victim(self) -> int {
        self.swept(self.search_steps()).evict
    }

    /// The state once the victim search has finished (the found iteration
    /// still sweeps and advances both hands, exactly like every other).
    pub open spec fn after_search(self) -> CacheModel {
        self.swept((self.search_steps() + 1) as nat)
    }

    /// The loader was invoked for `key`: the call is on the record.
    pub open spec fn load_logged(self, key: u64) -> CacheModel {
        CacheModel { loads: self.loads.push(key), ..self }
    }

    /// The writer was invoked for slot `v`: the call is on the record.
    pub open spec fn write_back_logged(self, v: int) -> CacheModel {
        CacheModel { writes: self.writes.push((self.keys[v], self.values[v])), ..self }
    }

    /// A successful write-back of slot `v`: logged, and the slot's value
    /// now matches the backing store.
    pub open spec fn write_back_ok(self, v: int) -> CacheModel {
        CacheModel { dirty: self.dirty.update(v, false), ..self.write_back_logged(v) }
    }

    /// Slot `v` with its unpersisted data, if any, written back.
    pub open spec fn flushed(self, v: int) -> CacheModel {
        if self.dirty[v] {
            self.write_back_ok(v)
        } else {
            self
        }
    }

    /// The index with slot `v`'s occupant removed. A slot can carry a stale
    /// key that is live elsewhere, so only an entry that names `v` itself
    /// is taken out.
    pub open spec fn unmapped(self, v: int) -> Map<u64, usize> {
        if self.index.dom().contains(self.keys[v]) && self.index[self.keys[v]] == v {
            self.index.remove(self.keys[v])
        } else {
            self.index
        }
    }

    /// Slot `v` claimed for `key` with `value`: the old occupant leaves the
    /// index, the slot is overwritten with a cleared survival flag, and the
    /// dirty flag is set as the kind of miss dictates.
    pub open spec fn install(self, v: int, key: u64, value: u64, dirty: bool) -> CacheModel {
        CacheModel {
            keys: self.keys.update(v, key),
            values: self.values.update(v, value),
            survival: self.survival.update(v, false),
            dirty: self.dirty.update(v, dirty),
            index: self.unmapped(v).insert(key, v as usize),
            ..self
        }
    }
}

/// The state of a cache of `n` slots as construction leaves it: default
/// keys and values, both flags clear everywhere, an empty index, the sweep
/// hand at slot 0 and the evict hand half the capacity ahead.
pub open spec fn fresh_model(n: nat) -> CacheModel {
    CacheModel {
        keys: Seq::new(n, |i: int| 0u64),
        values: Seq::new(n, |i: int| 0u64),
        survival: Seq::new(n, |i: int| false),
        dirty: Seq::new(n, |i: int| false),
        index: Map::empty(),
        sweep: 0,
        evict: (n / 2) as int,
        writes: Seq::empty(),
        loads: Seq::empty(),
    }
}

pub proof fn lemma_fresh_wf(n: nat)
    requires
        1 <= n <= usize::MAX,
    ensures
        fresh_model(n).wf(),
{
}

/// The victim search changes only the survival flags and the two cursors.
pub proof fn lemma_swept_frame(m: CacheModel, j: nat)
    requires
        m.wf(),
    ensures
        m.swept(j).keys == m.keys,
        m.swept(j).values == m.values,
        m.swept(j).dirty == m.dirty,
        m.swept(j).index == m.index,
        m.swept(j).writes == m.writes,
        m.swept(j).loads == m.loads,
        m.swept(j).survival.len() == m.survival.len(),
    decreases j,
{
    if j > 0 {
        lemma_swept_frame(m, (j - 1) as nat);
        lemma_swept_wf(m, (j - 1) as nat);
    }
}

pub proof fn lemma_swept_wf(m: CacheModel, j: nat)
    requires
        m.wf(),
    ensures
        m.swept(j).wf(),
    decreases j,
{
    if j > 0 {
        lemma_swept_wf(m, (j - 1) as nat);
    }
}

/// Where the hands stand after `j` iterations.
pub proof fn lemma_swept_cursors(m: CacheModel, j: nat)
    requires
        m.wf(),
    ensures
        m.swept(j).sweep == cursor_after(m.sweep, j, m.capacity()),
        m.swept(j).evict == cursor_after(m.evict, j, m.capacity()),
    decreases j,
{
    if j > 0 {
        lemma_swept_cursors(m, (j - 1) as nat);
        lemma_swept_frame(m, (j - 1) as nat);
    }
}

/// Closed form of a circular cursor that advances at most one full turn.
pub proof fn lemma_cursor_after_closed(p: int, j: nat, n: int)
    requires
        0 <= p < n,
        j <= n,
    ensures
        cursor_after(p, j, n) == if p + j < n {
            p + j
        } else {
            p + j - n
        },
    decreases j,
{
    if j > 0 {
        lemma_cursor_after_closed(p, (j - 1) as nat, n);
    }
}

/// Sweeping never sets a survival flag: a slot found clear stays clear.
pub proof fn lemma_swept_clear_persists(m: CacheModel, j1: nat, j2: nat, i: int)
    requires
        m.wf(),
        j1 <= j2,
        0 <= i < m.capacity(),
        !m.swept(j1).survival[i],
    ensures
        !m.swept(j2).survival[i],
    decreases j2,
{
    if j2 > j1 {
        lemma_swept_clear_persists(m, j1, (j2 - 1) as nat, i);
        lemma_swept_frame(m, (j2 - 1) as nat);
        lemma_swept_wf(m, (j2 - 1) as nat);
    }
}

/// The slot the sweep hand starts at is clear from the first iteration on.
proof fn lemma_first_sweep_clear(m: CacheModel, j: nat)
    requires
        m.wf(),
        j >= 1,
    ensures
        !m.swept(j).survival[m.sweep],
    decreases j,
{
    assert(m.swept(0) == m);
    assert(m.swept(1) == m.swept(0).probe());
    if j > 1 {
        lemma_swept_clear_persists(m, 1, j, m.sweep);
    }
}

/// The search cannot run a full half-turn without finding a victim: by
/// iteration `capacity - offset`, the evict hand reaches the slot the
/// sweep hand cleared first.
pub proof fn lemma_search_bounded(m: CacheModel)
    requires
        m.wf(),
    ensures
        m.probe_found((m.capacity() - m.offset()) as nat),
{
    let n = m.capacity();
    let k = (n - m.offset()) as nat;
    lemma_swept_cursors(m, k);
    lemma_cursor_after_closed(m.evict, k, n);
    assert(m.swept(k).evict == m.sweep);
    lemma_first_sweep_clear(m, (k + 1) as nat);
    lemma_swept_frame(m, k);
}

/// Among the iterations that find a victim there is a first one.
proof fn lemma_first_found(m: CacheModel, k: nat)
    requires
        m.probe_found(k),
    ensures
        exists|j: nat| j <= k && m.search_ok(j),
    decreases k,
{
    if exists|j: nat| j < k && m.probe_found(j) {
        let j = choose|j: nat| j < k && m.probe_found(j);
        lemma_first_found(m, j);
    } else {
        assert(m.search_ok(k));
    }
}

/// The victim search succeeds, within the first `capacity - offset`
/// iterations, and `search_steps` names the iteration it succeeds at.
pub proof fn lemma_search_exists(m: CacheModel)
    requires
        m.wf(),
    ensures
        m.search_ok(m.search_steps()),
        m.search_steps() <= m.capacity() - m.offset(),
{
    lemma_search_bounded(m);
    lemma_first_found(m, (m.capacity() - m.offset()) as nat);
    let j = choose|j: nat| j <= (m.capacity() - m.offset()) as nat && m.search_ok(j);
    assert(m.search_ok(j));
    lemma_search_unique(m, j, m.search_steps());
}

/// Only one iteration can be the first to find a victim.
pub proof fn lemma_search_unique(m: CacheModel, k1: nat, k2: nat)
    requires
        m.search_ok(k1),
        m.search_ok(k2),
    ensures
        k1 == k2,
{
    if k1 < k2 {
        assert(!m.probe_found(k1));
    }
    if k2 < k1 {
        assert(!m.probe_found(k2));
    }
}

/// The selected victim is a real slot, and the search leaves it untouched.
pub proof fn lemma_victim_in_range(m: CacheModel)
    requires
        m.wf(),
    ensures
        0 <= m.victim() < m.capacity(),
        m.after_search().wf(),
        !m.after_search().survival[m.victim()],
{
    lemma_search_exists(m);
    lemma_swept_wf(m, m.search_steps());
    lemma_swept_frame(m, m.search_steps());
    lemma_swept_wf(m, (m.search_steps() + 1) as nat);
    lemma_swept_frame(m, (m.search_steps() + 1) as nat);
}

/// A hit changes neither the index nor the write record, and a read hit
/// keeps every slot's contents.
pub proof fn lemma_hit_wf(m: CacheModel, key: u64, value: u64)
    requires
        m.wf(),
        m.resident(key),
    ensures
        m.read_hit(key).wf(),
        m.write_hit(key, value).wf(),
{
}

/// Writing back keeps the state well formed.
pub proof fn lemma_flushed_wf(m: CacheModel, v: int)
    requires
        m.wf(),
        0 <= v < m.capacity(),
    ensures
        m.flushed(v).wf(),
        m.write_back_logged(v).wf(),
{
}

/// Claiming a slot for an absent key keeps the state well formed, and the
/// new key alone gains a slot.
pub proof fn lemma_install_wf(m: CacheModel, v: int, key: u64, value: u64, dirty: bool)
    requires
        m.wf(),
        0 <= v < m.capacity(),
        !m.resident(key),
    ensures
        m.install(v, key, value, dirty).wf(),
        m.install(v, key, value, dirty).resident(key),
        m.install(v, key, value, dirty).slot_of(key) == v,
        m.install(v, key, value, dirty).value_of(key) == value,
{
    let r = m.install(v, key, value, dirty);
    assert(r.index[key] == v as usize);
    assert((v as usize) as int == v);
    assert forall|k: u64| #[trigger] r.index.dom().contains(k) implies 0 <= r.index[k]
        < r.keys.len() && r.keys[r.index[k] as int] == k by {
        if k != key {
            assert(m.unmapped(v).dom().contains(k));
            assert(m.index.dom().contains(k));
            assert(r.index[k] == m.index[k]);
            if m.index[k] == v {
                assert(m.keys[v] == k);
                assert(m.index.dom().contains(m.keys[v]) && m.index[m.keys[v]] == v);
                assert(!m.unmapped(v).dom().contains(k));
            }
            assert(m.index[k] != v);
            assert(r.keys[m.index[k] as int] == m.keys[m.index[k] as int]);
        }
    }
    assert forall|i: int| 0 <= i < r.capacity() && #[trigger] r.dirty[i] implies r.index.dom()
        .contains(r.keys[i]) && r.index[r.keys[i]] == i by {
        if i != v {
            assert(m.dirty[i]);
            assert(m.index.dom().contains(m.keys[i]) && m.index[m.keys[i]] == i);
            if m.keys[i] == key {
                assert(m.resident(key));
            }
            if m.index.dom().contains(m.keys[v]) && m.index[m.keys[v]] == v {
                assert(m.keys[i] != m.keys[v]);
            }
            assert(r.index.dom().contains(m.keys[i]));
            assert(r.index[m.keys[i]] == i);
        }
    }
}

} // verus!
