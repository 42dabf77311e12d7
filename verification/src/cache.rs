//! The cache engine: a fixed slot table, an index from key to slot, and
//! the two-handed CLOCK victim search, with the backing store injected as
//! a loader and a writer capability.

use crate::model::{fresh_model, CacheModel};
use crate::model::{
    lemma_fresh_wf, lemma_install_wf, lemma_search_unique, lemma_swept_frame, lemma_swept_wf,
    lemma_victim_in_range,
};
use std::collections::HashMap;
use vstd::prelude::*;

verus! {

broadcast use vstd::std_specs::hash::group_hash_axioms;

/// The capability to produce a value for a key from the backing store.
/// Nothing is assumed of an implementation: a lookup may fail (`None`),
/// and nothing relates the result to earlier calls.
pub trait Loader {
    fn load(&mut self, key: u64) -> Option<u64>;
}

/// The capability to persist a key/value pair in the backing store.
/// Nothing is assumed of an implementation; `false` reports failure.
pub trait Writer {
    fn save(&mut self, key: u64, value: u64) -> bool;
}

#[derive(Clone, Copy, Debug, PartialEq, Eq, Structural)]
pub enum CacheError {
    /// Construction with zero slots: the cursor arithmetic needs at least one.
    InvalidCapacity,
    /// The writer reported failure during a forced write-back; the victim's
    /// data and dirty flag are left exactly as they were.
    BackingStoreWriteFailure,
    /// The loader reported failure during a read miss; no slot is claimed.
    BackingStoreLoadFailure,
}

/// A fixed-capacity write-back cache with approximate-LRU eviction by a
/// two-handed CLOCK sweep. Its abstract state is a [`CacheModel`].
pub struct LRUClockCache<L, W> {
    size: usize,
    key_buf: Vec<u64>,
    value_buf: Vec<u64>,
    chance_to_survive_buf: Vec<bool>,
    is_edited_buf: Vec<bool>,
    mapping: HashMap<u64, usize>,
    load_data: L,
    save_data: W,
    ctr: usize,
    ctr_evict: usize,
    write_log: Ghost<Seq<(u64, u64)>>,
    load_log: Ghost<Seq<u64>>,
}

impl<L, W> View for LRUClockCache<L, W> {
    type V = CacheModel;

    closed spec fn view(&self) -> CacheModel {
        CacheModel {
            keys: self.key_buf@,
            values: self.value_buf@,
            survival: self.chance_to_survive_buf@,
            dirty: self.is_edited_buf@,
            index: self.mapping@,
            sweep: self.ctr as int,
            evict: self.ctr_evict as int,
            writes: self.write_log@,
            loads: self.load_log@,
        }
    }
}

impl<L: Loader, W: Writer> LRUClockCache<L, W> {
    pub closed spec fn wf(&self) -> bool {
        &&& self@.wf()
        &&& self.size == self@.capacity()
    }

    /// Builds a cache of `size` default-valued slots with an empty index,
    /// the sweep hand at slot 0 and the evict hand `size / 2` ahead.
    /// A capacity of zero is refused rather than looping forever.
    pub fn new(size: usize, load_data: L, save_data: W) -> (r: Result<Self, CacheError>)
        ensures
            r matches Ok(c) ==> size >= 1 && c.wf() && c@ == fresh_model(size as nat),
            r matches Err(e) ==> size == 0 && e == CacheError::InvalidCapacity,
            size >= 1 ==> r is Ok,
    {
        if size == 0 {
            return Err(CacheError::InvalidCapacity);
        }
        let mut key_buf: Vec<u64> = Vec::new();
        let mut value_buf: Vec<u64> = Vec::new();
        let mut chance_to_survive_buf: Vec<bool> = Vec::new();
        let mut is_edited_buf: Vec<bool> = Vec::new();
        proof {
            assert(key_buf@ =~= Seq::new(0, |j: int| 0u64));
            assert(value_buf@ =~= Seq::new(0, |j: int| 0u64));
            assert(chance_to_survive_buf@ =~= Seq::new(0, |j: int| false));
            assert(is_edited_buf@ =~= Seq::new(0, |j: int| false));
        }
        let mut i: usize = 0;
        while i < size
            invariant
                i <= size,
                key_buf@ == Seq::new(i as nat, |j: int| 0u64),
                value_buf@ == Seq::new(i as nat, |j: int| 0u64),
                chance_to_survive_buf@ == Seq::new(i as nat, |j: int| false),
                is_edited_buf@ == Seq::new(i as nat, |j: int| false),
            decreases size - i,
        {
            key_buf.push(0);
            value_buf.push(0);
            chance_to_survive_buf.push(false);
            is_edited_buf.push(false);
            i = i + 1;
            proof {
                assert(key_buf@ =~= Seq::new(i as nat, |j: int| 0u64));
                assert(value_buf@ =~= Seq::new(i as nat, |j: int| 0u64));
                assert(chance_to_survive_buf@ =~= Seq::new(i as nat, |j: int| false));
                assert(is_edited_buf@ =~= Seq::new(i as nat, |j: int| false));
            }
        }
        let cache = LRUClockCache {
            size,
            key_buf,
            value_buf,
            chance_to_survive_buf,
            is_edited_buf,
            mapping: HashMap::new(),
            load_data,
            save_data,
            ctr: 0,
            ctr_evict: size / 2,
            write_log: Ghost(Seq::empty()),
            load_log: Ghost(Seq::empty()),
        };
        proof {
            assert(cache@ =~= fresh_model(size as nat));
            lemma_fresh_wf(size as nat);
        }
        Ok(cache)
    }

    /// The number of keys currently resident.
    pub fn len(&self) -> (n: usize)
        requires
            self.wf(),
        ensures
            n as nat == self@.index.dom().len(),
    {
        self.mapping.len()
    }

    /// The two-handed victim search. Each iteration the sweep hand clears
    /// the survival flag under it and advances; the evict hand inspects its
    /// own slot and advances, claiming the slot if the flag was clear. The
    /// sweep hand runs half the capacity ahead, so every slot it clears has
    /// half a circuit to be touched again before the evict hand reaches it.
    fn find_victim(&mut self) -> (v: usize)
        requires
            old(self).wf(),
        ensures
            final(self).wf(),
            final(self).size == old(self).size,
            old(self)@.search_ok(old(self)@.search_steps()),
            final(self)@ == old(self)@.after_search(),
            v as int == old(self)@.victim(),
            v < final(self).size,
    {
        let ghost m0 = self@;
        let ghost mut steps: nat = 0;
        proof {
            crate::model::lemma_search_exists(m0);
        }
        let mut victim: usize = self.size;
        while victim >= self.size
            invariant
                m0.wf(),
                self.size == m0.capacity(),
                self@.keys == m0.keys,
                self@.values == m0.values,
                self@.dirty == m0.dirty,
                self@.index == m0.index,
                self@.writes == m0.writes,
                self@.loads == m0.loads,
                m0.search_ok(m0.search_steps()),
                victim >= self.size ==> {
                    &&& self@ == m0.swept(steps)
                    &&& forall|j: nat| j < steps ==> !m0.probe_found(j)
                    &&& steps <= m0.search_steps()
                },
                victim < self.size ==> {
                    &&& steps == m0.search_steps() + 1
                    &&& self@ == m0.swept(steps)
                    &&& victim as int == m0.victim()
                },
            decreases m0.search_steps() + 1 - steps,
        {
            proof {
                lemma_swept_wf(m0, steps);
                lemma_swept_frame(m0, steps);
            }
            let ghost before = m0.swept(steps);
            self.chance_to_survive_buf.set(self.ctr, false);
            self.ctr = self.ctr + 1;
            if self.ctr >= self.size {
                self.ctr = 0;
            }
            let mut found: bool = false;
            if !self.chance_to_survive_buf[self.ctr_evict] {
                victim = self.ctr_evict;
                found = true;
            }
            self.ctr_evict = self.ctr_evict + 1;
            if self.ctr_evict >= self.size {
                self.ctr_evict = 0;
            }
            proof {
                assert(self@ =~= before.probe());
                assert(self@ == m0.swept((steps + 1) as nat));
                assert(m0.probe_found(steps) == found);
                if found {
                    assert(m0.search_ok(steps));
                    lemma_search_unique(m0, steps, m0.search_steps());
                    assert(victim as int == m0.swept(steps).evict);
                }
                steps = steps + 1;
            }
        }
        proof {
            lemma_swept_wf(m0, steps);
            lemma_swept_frame(m0, steps);
        }
        victim
    }

    /// Write slot `v` back through the writer if it is dirty, clearing its
    /// dirty flag on success. On failure the slot is left exactly as it
    /// was, dirty flag included, so the unpersisted data is not lost.
    fn flush_slot(&mut self, v: usize) -> (ok: bool)
        requires
            old(self).wf(),
            v < old(self).size,
        ensures
            final(self).wf(),
            final(self).size == old(self).size,
            ok ==> final(self)@ == old(self)@.flushed(v as int),
            !ok ==> old(self)@.dirty[v as int] && final(self)@ == old(self)@.write_back_logged(v as int),
    {
        let ghost m0 = self@;
        if self.is_edited_buf[v] {
            let victim_key = self.key_buf[v];
            let victim_val = self.value_buf[v];
            self.write_log = Ghost(self.write_log@.push((victim_key, victim_val)));
            let saved = self.save_data.save(victim_key, victim_val);
            if !saved {
                proof {
                    assert(self@ =~= m0.write_back_logged(v as int));
                    crate::model::lemma_flushed_wf(m0, v as int);
                }
                return false;
            }
            self.is_edited_buf.set(v, false);
            proof {
                assert(self@ =~= m0.write_back_ok(v as int));
                assert(self@ =~= m0.flushed(v as int));
                crate::model::lemma_flushed_wf(m0, v as int);
            }
        }
        true
    }

    /// Claim slot `v` for `key`: drop the old occupant's index entry (when
    /// the entry really names this slot — the slot may carry a stale key
    /// that is live elsewhere), index `key` there, store `value`, and clear
    /// the survival flag.
    fn install_slot(&mut self, v: usize, key: u64, value: u64, dirty: bool)
        requires
            old(self).wf(),
            v < old(self).size,
            !old(self)@.resident(key),
        ensures
            final(self).wf(),
            final(self).size == old(self).size,
            final(self)@ == old(self)@.install(v as int, key, value, dirty),
    {
        let ghost m0 = self@;
        let stale = self.key_buf[v];
        let do_remove = match self.mapping.get(&stale) {
            Some(j) => *j == v,
            None => false,
        };
        if do_remove {
            let _ = self.mapping.remove(&stale);
        }
        let _ = self.mapping.insert(key, v);
        self.key_buf.set(v, key);
        self.value_buf.set(v, value);
        self.chance_to_survive_buf.set(v, false);
        if dirty {
            self.is_edited_buf.set(v, true);
        } else {
            self.is_edited_buf.set(v, false);
        }
        proof {
            assert(self@.index =~= m0.unmapped(v as int).insert(key, v));
            assert(self@ =~= m0.install(v as int, key, value, dirty));
            lemma_install_wf(m0, v as int, key, value, dirty);
        }
    }

    /// Looks `key` up. A hit marks the slot as touched and returns a copy
    /// of the cached value; no callback runs. A miss selects a victim,
    /// writes it back if dirty, asks the loader for the value, installs it
    /// with both flags clear, and returns it. A callback failure is
    /// surfaced unchanged: a failed write-back leaves the victim's data and
    /// dirty flag untouched, and a failed load claims no slot, so the cache
    /// never silently loses a dirty write.
    pub fn get(&mut self, key: u64) -> (r: Result<u64, CacheError>)
        requires
            old(self).wf(),
        ensures
            final(self).wf(),
            old(self)@.resident(key) ==> r == Ok::<u64, CacheError>(old(self)@.value_of(key))
                && final(self)@ == old(self)@.read_hit(key),
            !old(self)@.resident(key) ==> ({
                let m1 = old(self)@.after_search();
                let v = old(self)@.victim();
                &&& old(self)@.search_ok(old(self)@.search_steps())
                &&& (r matches Ok(value) ==> final(self)@ == m1.flushed(v).install(
                    v,
                    key,
                    value,
                    false,
                ).load_logged(key))
                &&& (r == Err::<u64, CacheError>(CacheError::BackingStoreWriteFailure) ==> m1.dirty[v]
                    && final(self)@ == m1.write_back_logged(v))
                &&& (r == Err::<u64, CacheError>(CacheError::BackingStoreLoadFailure) ==> final(self)@
                    == m1.flushed(v).load_logged(key))
                &&& r != Err::<u64, CacheError>(CacheError::InvalidCapacity)
            }),
    {
        let ghost m0 = self@;
        let hit = match self.mapping.get(&key) {
            Some(i) => Some(*i),
            None => None,
        };
        match hit {
            Some(i) => {
                self.chance_to_survive_buf.set(i, true);
                let value = self.value_buf[i];
                proof {
                    assert(self@ =~= m0.read_hit(key));
                    crate::model::lemma_hit_wf(m0, key, value);
                }
                Ok(value)
            },
            None => {
                let v = self.find_victim();
                proof {
                    lemma_victim_in_range(m0);
                    lemma_swept_frame(m0, (m0.search_steps() + 1) as nat);
                }
                if !self.flush_slot(v) {
                    return Err(CacheError::BackingStoreWriteFailure);
                }
                let ghost flushed = self@;
                let loaded = self.load_data.load(key);
                self.load_log = Ghost(self.load_log@.push(key));
                match loaded {
                    None => {
                        proof {
                            assert(self@ =~= flushed.load_logged(key));
                        }
                        Err(CacheError::BackingStoreLoadFailure)
                    },
                    Some(value) => {
                        self.install_slot(v, key, value, false);
                        proof {
                            assert(self@ =~= flushed.install(v as int, key, value, false).load_logged(key));
                        }
                        Ok(value)
                    },
                }
            },
        }
    }

    /// Stores `value` under `key`. A hit marks the slot as touched,
    /// overwrites it and sets its dirty flag; no callback runs. A miss
    /// selects a victim, writes it back if dirty, and installs the new
    /// pair with the dirty flag set — the loader is never consulted, and
    /// the value waits in the slot until its own eviction persists it.
    pub fn set(&mut self, key: u64, value: u64) -> (r: Result<(), CacheError>)
        requires
            old(self).wf(),
        ensures
            final(self).wf(),
            old(self)@.resident(key) ==> r == Ok::<(), CacheError>(()) && final(self)@ == old(
                self,
            )@.write_hit(key, value),
            !old(self)@.resident(key) ==> ({
                let m1 = old(self)@.after_search();
                let v = old(self)@.victim();
                &&& old(self)@.search_ok(old(self)@.search_steps())
                &&& (r matches Ok(u) ==> final(self)@ == m1.flushed(v).install(v, key, value, true))
                &&& (r is Err ==> r == Err::<(), CacheError>(CacheError::BackingStoreWriteFailure)
                    && m1.dirty[v] && final(self)@ == m1.write_back_logged(v))
                &&& (!m1.dirty[v] ==> r is Ok)
            }),
    {
        let ghost m0 = self@;
        let hit = match self.mapping.get(&key) {
            Some(i) => Some(*i),
            None => None,
        };
        match hit {
            Some(i) => {
                self.chance_to_survive_buf.set(i, true);
                self.value_buf.set(i, value);
                self.is_edited_buf.set(i, true);
                proof {
                    assert(self@ =~= m0.write_hit(key, value));
                    crate::model::lemma_hit_wf(m0, key, value);
                }
                Ok(())
            },
            None => {
                let v = self.find_victim();
                proof {
                    lemma_victim_in_range(m0);
                    lemma_swept_frame(m0, (m0.search_steps() + 1) as nat);
                }
                if !self.flush_slot(v) {
                    return Err(CacheError::BackingStoreWriteFailure);
                }
                self.install_slot(v, key, value, true);
                Ok(())
            },
        }
    }
}

} // verus!
