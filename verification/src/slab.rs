//! The slab itself.

use crate::cfg::{
    ceil_log2,
    default_config_is_valid,
    max_shards,
    page_size,
    valid,
    Config,
    DefaultConfig,
};
use crate::key::{key, key_of_has_parts, parts, Parts};
use crate::laws::{
    change_replaces_value,
    holding_keeps_values,
    insert_adds_value,
    lemma_next_key,
    lemma_slot_exists,
    release_undoes_get,
    removal_removes_value,
    unused_slab_has_no_values,
};
use crate::model::{
    in_range,
    is_first_vacancy,
    is_full,
    key_page,
    key_slot,
    key_tid,
    no_values_in_unused_shards,
    page_insert_keeps_wf,
    shard_values,
    shard_wf,
    unused_shard,
    unused_shard_is_wf,
    unused_slab,
    Holders,
    PageModel,
    SlabModel,
    State,
};
use crate::pack::Pack;
use crate::page::slot::lemma_counts;
use crate::page::GetMutError;
use crate::shard::Shard;
use crate::steps::Step;
use crate::tid::Tid;
use vstd::arithmetic::power2::pow2;
use vstd::prelude::*;

verus! {

/// A reference to a value in a slab. It is given back with `Slab::release`.
#[derive(Debug)]
pub struct Guard {
    key: usize,
}

/// The one reference to a value in a slab, which the value can be changed
/// through. It is given back with `Slab::release_mut`.
#[derive(Debug)]
pub struct GuardMut {
    key: usize,
}

/// A claim to a value that was taken out of a slab while it was held. It is
/// turned into the value with `Slab::redeem`.
#[derive(Debug)]
pub struct Claim {
    key: usize,
}

impl Guard {
    /// The key that the value was looked up with.
    pub closed spec fn of(&self) -> usize {
        self.key
    }

    /// The key that the value was looked up with.
    pub fn key(&self) -> (r: usize)
        ensures
            r == self.of(),
    {
        self.key
    }
}

impl GuardMut {
    /// The key that the value was looked up with.
    pub closed spec fn of(&self) -> usize {
        self.key
    }

    /// The key that the value was looked up with.
    pub fn key(&self) -> (r: usize)
        ensures
            r == self.of(),
    {
        self.key
    }
}

impl Claim {
    /// The key that the value was taken with.
    pub closed spec fn of(&self) -> usize {
        self.key
    }

    /// The key that the value was taken with.
    pub fn key(&self) -> (r: usize)
        ensures
            r == self.of(),
    {
        self.key
    }
}

/// What comes of taking a value out of a slab.
#[derive(Debug)]
pub enum Take<T> {
    /// The value.
    Taken(T),
    /// The key leads to no value.
    Absent,
    /// The value is still held. It is no longer in the slab for anyone but those
    /// who hold it, and the claim to it can be redeemed when they have let go of
    /// it.
    Pending(Claim),
}

/// A slab. Every operation that puts a slot on a free list is told which thread
/// performs it.
pub struct Slab<T, C: Config = DefaultConfig> {
    /// The shards of the threads with the lowest numbers. The others are unused.
    shards: Vec<Shard<T, C>>,
}

impl<T, C: Config> View for Slab<T, C> {
    type V = SlabModel<T>;

    closed spec fn view(&self) -> SlabModel<T> {
        SlabModel {
            shards: Seq::new(
                max_shards::<C>(),
                |t: int|
                    if t < self.shards@.len() {
                        self.shards@[t]@
                    } else {
                        unused_shard::<T, C>()
                    },
            ),
        }
    }
}

impl<T> Slab<T> {
    /// A slab with the default configuration that holds no values: 128 shards,
    /// the first page of each with 32 slots.
    pub fn new() -> (r: Self)
        ensures
            r.wf(),
            r@ == unused_slab::<T, DefaultConfig>(),
            r@.shards.len() == 128,
            forall|t: int|
                0 <= t < 128 ==> (#[trigger] r@.shards[t]).len() == usize::BITS as usize / 2,
            forall|t: int, p: int|
                0 <= t < 128 && 0 <= p < usize::BITS as usize / 2 ==> (
                #[trigger] r@.shards[t][p]).slots.len() == 32 * pow2(p as nat),
            r@.live::<DefaultConfig>() == Map::<usize, T>::empty(),
    {
        proof {
            default_config_is_valid();
        }
        Slab::<T>::new_with_config::<DefaultConfig>()
    }

    /// A slab with the configuration `C` that holds no values.
    pub fn new_with_config<C: Config>() -> (r: Slab<T, C>)
        requires
            valid::<C>(),
        ensures
            r.wf(),
            r@ == unused_slab::<T, C>(),
            r@.shards.len() == pow2(ceil_log2(C::MAX_THREADS as nat)),
            forall|t: int|
                0 <= t < r@.shards.len() ==> (#[trigger] r@.shards[t]).len() == C::MAX_PAGES,
            forall|t: int, p: int|
                0 <= t < r@.shards.len() && 0 <= p < C::MAX_PAGES ==> (
                #[trigger] r@.shards[t][p]).slots.len() == pow2(
                    ceil_log2(C::INITIAL_PAGE_SIZE as nat) + p as nat,
                ),
            r@.live::<C>() == Map::<usize, T>::empty(),
    {
        let r: Slab<T, C> = Slab { shards: Vec::new() };
        proof {
            assert(r@ =~= unused_slab::<T, C>());
            unused_slab_has_no_values::<T, C>();
        }
        r
    }
}

impl<T, C: Config> Slab<T, C> {
    /// The configuration is valid, and the shards in use are well formed.
    pub closed spec fn wf(&self) -> bool {
        &&& valid::<C>()
        &&& self.shards@.len() <= max_shards::<C>()
        &&& forall|t: int| 0 <= t < self.shards@.len() ==> (#[trigger] self.shards@[t]).wf()
    }

    /// A key that leads to a slot of a shard in use leads to a slot of one of
    /// its pages.
    proof fn lemma_page(&self, key: usize)
        requires
            self.wf(),
            in_range::<C>(key),
            key_tid::<C>(key) < self.shards@.len(),
            key_slot::<C>(key) < page_size::<C>(key_page::<C>(key)),
        ensures
            self.shards@[key_tid::<C>(key) as int].wf(),
            key_page::<C>(key) < self.shards@[key_tid::<C>(key) as int].pages@.len(),
            self.shards@[key_tid::<C>(key) as int].pages@[key_page::<C>(key) as int].wf(),
            self@.page::<C>(key) == self.shards@[key_tid::<C>(key) as int].pages@[key_page::<C>(
                key,
            ) as int]@,
            key_slot::<C>(key) < self@.page::<C>(key).slots.len(),
    {
        assert(self.shards@[key_tid::<C>(key) as int].wf());
        self.shards@[key_tid::<C>(key) as int].lemma_page(key_page::<C>(key) as int);
    }

    /// A key that leads to a slot of an unused shard leads to no value.
    proof fn lemma_unused(&self, key: usize)
        requires
            self.wf(),
            in_range::<C>(key),
            key_tid::<C>(key) >= self.shards@.len(),
            key_slot::<C>(key) < page_size::<C>(key_page::<C>(key)),
        ensures
            self@.slot::<C>(key).state == State::Vacant,
            self@.slot::<C>(key).holders == Holders::Shared(0),
    {
    }

    /// Adds a reference to the value that `key` leads to. Fails if there is no
    /// such value, if as many references to it are held as there can be, or if
    /// one holds it alone.
    pub fn get(&mut self, key: usize) -> (r: Option<Guard>)
        requires
            old(self).wf(),
        ensures
            final(self).wf(),
            r is Some <==> (Step::<T>::Get { key }).is_allowed::<C>(old(self)@),
            r is Some ==> final(self)@ == (Step::<T>::Get { key }).apply::<C>(old(self)@),
            match r {
                Some(guard) => {
                    &&& old(self)@.can_get::<C>(key)
                    &&& guard.of() == key
                    &&& final(self)@ == old(self)@.get::<C>(key)
                    &&& final(self)@.is_shared::<C>(key)
                    &&& final(self)@.held_value::<C>(key) == old(self)@.live::<C>()[key]
                    &&& final(self)@.live::<C>() == old(self)@.live::<C>()
                },
                None => {
                    &&& !old(self)@.can_get::<C>(key)
                    &&& final(self)@ == old(self)@
                },
            },
    {
        let parts: Parts<C> = match parts(key) {
            Some(parts) => parts,
            None => {
                return None;
            },
        };
        if parts.tid >= self.shards.len() {
            proof {
                self.lemma_unused(key);
            }
            return None;
        }
        proof {
            self.lemma_page(key);
        }
        let ghost before: Self = *self;
        let got: bool = self.shards[parts.tid].pages[parts.page].get(parts.slot, parts.gen);
        proof {
            self.lemma_page_changed(before, key);
            before.lemma_wf();
            holding_keeps_values::<T, C>(before@, key, 0);
            release_undoes_get::<T, C>(before@, key, 0);
            lemma_slot_exists::<T, C>(before@, key);
        }
        if got {
            Some(Guard { key })
        } else {
            None
        }
    }

    /// Whether the slab differs from the well formed slab `before` only in the
    /// page that `key` leads to, which has changed into a well formed page of the
    /// same size.
    spec fn is_changed_at(&self, before: Self, key: usize) -> bool {
        let t = key_tid::<C>(key) as int;
        let p = key_page::<C>(key) as int;
        &&& before.wf()
        &&& in_range::<C>(key)
        &&& t < before.shards@.len()
        &&& self.shards@ == before.shards@.update(t, self.shards@[t])
        &&& self.shards@[t].pages@ == before.shards@[t].pages@.update(
            p,
            self.shards@[t].pages@[p],
        )
        &&& self.shards@[t].pages@[p].wf()
        &&& self.shards@[t].pages@[p]@.slots.len() == before.shards@[t].pages@[p]@.slots.len()
    }

    /// A slab of which one page has changed into a well formed page of the same
    /// size is well formed.
    proof fn lemma_page_changed(&self, before: Self, key: usize)
        requires
            self.is_changed_at(before, key),
        ensures
            self.wf(),
            self@ == before@.with_page::<C>(
                key,
                self.shards@[key_tid::<C>(key) as int].pages@[key_page::<C>(key) as int]@,
            ),
            self.shards@[key_tid::<C>(key) as int].pages@[key_page::<C>(key) as int]@
                == before@.page::<C>(key) ==> self@ == before@,
    {
        let t: int = key_tid::<C>(key) as int;
        let p: int = key_page::<C>(key) as int;
        assert(before.shards@[t].wf());
        before.shards@[t].lemma_wf();
        self.shards@[t].lemma_page_changed(before.shards@[t], p);
        assert(self@ =~= before@.with_page::<C>(key, self.shards@[t].pages@[p]@));
        assert(before@.shards[t].update(p, before@.shards[t][p]) =~= before@.shards[t]);
        assert(before@.with_page::<C>(key, before@.page::<C>(key)) =~= before@);
    }

    /// What is known of a slab that is well formed.
    pub proof fn lemma_wf(&self)
        requires
            self.wf(),
        ensures
            valid::<C>(),
            self@.wf::<C>(),
    {
        assert forall|t: int| 0 <= t < self@.shards.len() implies #[trigger] shard_wf::<T, C>(
            self@.shards[t],
        ) by {
            if t < self.shards@.len() {
                self.shards@[t].lemma_wf();
            } else {
                unused_shard_is_wf::<T, C>();
            }
        }
    }

    /// Brings the shard of thread `tid` into being.
    fn create_shard(&mut self, tid: usize)
        requires
            old(self).wf(),
            tid < max_shards::<C>(),
        ensures
            final(self).wf(),
            final(self)@ == old(self)@,
            tid < final(self).shards@.len(),
    {
        while self.shards.len() <= tid
            invariant
                self.wf(),
                tid < max_shards::<C>(),
                self@ == old(self)@,
            decreases tid + 1 - self.shards@.len(),
        {
            let ghost before: Self = *self;
            self.shards.push(Shard::new());
            assert(self@ =~= before@);
        }
    }

    /// Puts a value into the shard of thread `tid`, on the first page that has a
    /// free slot, and gives the key that leads to it. Gives the value back where
    /// the shard is full.
    pub fn try_insert(&mut self, tid: Tid<C>, value: T) -> (r: Result<usize, T>)
        requires
            old(self).wf(),
            tid.is_thread(),
        ensures
            final(self).wf(),
            r matches Ok(key) ==> {
                let step = Step::Insert { tid: tid.number(), page: key_page::<C>(key), value };
                &&& step.is_allowed::<C>(old(self)@)
                &&& key == step.key::<C>(old(self)@)
                &&& final(self)@ == step.apply::<C>(old(self)@)
            },
            match r {
                Ok(key) => {
                    let t = tid.number() as int;
                    let p = key_page::<C>(key) as int;
                    &&& is_first_vacancy(old(self)@.shards[t], p)
                    &&& key == old(self)@.next_key::<C>(t, p)
                    &&& final(self)@ == old(self)@.insert(t, p, value)
                    &&& key_tid::<C>(key) == tid.number()
                    &&& !old(self)@.contains::<C>(key)
                    &&& final(self)@.live::<C>() == old(self)@.live::<C>().insert(key, value)
                    &&& final(self)@.can_get::<C>(key)
                    &&& final(self)@.can_get_mut::<C>(key)
                },
                Err(v) => {
                    &&& is_full(old(self)@.shards[tid.number() as int])
                    &&& v == value
                    &&& final(self)@ == old(self)@
                },
            },
    {
        let t: usize = tid.as_usize();
        self.create_shard(t);
        let ghost before: Self = *self;
        proof {
            assert(before.shards@[t as int].wf());
            before.shards@[t as int].lemma_wf();
        }
        match self.shards[t].insert(value) {
            Ok((p, i, gen)) => {
                proof {
                    let page: PageModel<T> = before.shards@[t as int]@[p as int];
                    page_insert_keeps_wf::<T, C>(page, value);
                    lemma_counts::<C>();
                    assert(page.slots[i as int].wf::<C>());
                    key_of_has_parts::<C>(tid.number(), p as nat, i as nat, gen.number());
                    assert(self@ =~= before@.insert(t as int, p as int, value));
                    before.lemma_wf();
                    lemma_next_key::<T, C>(before@, tid.number(), p as nat);
                    insert_adds_value::<T, C>(
                        before@,
                        tid.number(),
                        p as nat,
                        value,
                        before@.next_key::<C>(t as int, p as int) as usize,
                    );
                }
                Ok(key(tid, p, i, gen))
            },
            Err(v) => {
                assert(self@ =~= before@);
                Err(v)
            },
        }
    }

    /// Puts a value into the shard of thread `tid`, on the first page that has a
    /// free slot, and gives the key that leads to it. Fails if the shard is full.
    pub fn insert(&mut self, tid: Tid<C>, value: T) -> (r: Option<usize>)
        requires
            old(self).wf(),
            tid.is_thread(),
        ensures
            final(self).wf(),
            r matches Some(key) ==> {
                let step = Step::Insert { tid: tid.number(), page: key_page::<C>(key), value };
                &&& step.is_allowed::<C>(old(self)@)
                &&& key == step.key::<C>(old(self)@)
                &&& final(self)@ == step.apply::<C>(old(self)@)
            },
            match r {
                Some(key) => {
                    let t = tid.number() as int;
                    let p = key_page::<C>(key) as int;
                    &&& is_first_vacancy(old(self)@.shards[t], p)
                    &&& key == old(self)@.next_key::<C>(t, p)
                    &&& final(self)@ == old(self)@.insert(t, p, value)
                    &&& key_tid::<C>(key) == tid.number()
                    &&& !old(self)@.contains::<C>(key)
                    &&& final(self)@.live::<C>() == old(self)@.live::<C>().insert(key, value)
                    &&& final(self)@.can_get::<C>(key)
                    &&& final(self)@.can_get_mut::<C>(key)
                },
                None => {
                    &&& is_full(old(self)@.shards[tid.number() as int])
                    &&& final(self)@ == old(self)@
                },
            },
    {
        match self.try_insert(tid, value) {
            Ok(key) => Some(key),
            Err(_) => None,
        }
    }

    /// Lets one hold the value that `key` leads to alone.
    pub fn get_mut(&mut self, key: usize) -> (r: Result<GuardMut, GetMutError>)
        requires
            old(self).wf(),
        ensures
            final(self).wf(),
            r is Ok <==> (Step::<T>::GetMut { key }).is_allowed::<C>(old(self)@),
            r is Ok ==> final(self)@ == (Step::<T>::GetMut { key }).apply::<C>(old(self)@),
            match r {
                Ok(guard) => {
                    &&& old(self)@.can_get_mut::<C>(key)
                    &&& guard.of() == key
                    &&& final(self)@ == old(self)@.get_mut::<C>(key)
                    &&& final(self)@.is_locked::<C>(key)
                    &&& final(self)@.held_value::<C>(key) == old(self)@.live::<C>()[key]
                    &&& final(self)@.live::<C>() == old(self)@.live::<C>()
                },
                Err(GetMutError::Absent) => {
                    &&& !old(self)@.contains::<C>(key)
                    &&& final(self)@ == old(self)@
                },
                Err(GetMutError::InUse) => {
                    &&& old(self)@.contains::<C>(key)
                    &&& old(self)@.slot::<C>(key).is_held()
                    &&& final(self)@ == old(self)@
                },
            },
    {
        let parts: Parts<C> = match parts(key) {
            Some(parts) => parts,
            None => {
                return Err(GetMutError::Absent);
            },
        };
        if parts.tid >= self.shards.len() {
            proof {
                self.lemma_unused(key);
            }
            return Err(GetMutError::Absent);
        }
        proof {
            self.lemma_page(key);
        }
        let ghost before: Self = *self;
        let got: Result<(), GetMutError> = self.shards[parts.tid].pages[parts.page].get_mut(
            parts.slot,
            parts.gen,
        );
        proof {
            self.lemma_page_changed(before, key);
            before.lemma_wf();
            holding_keeps_values::<T, C>(before@, key, 0);
            release_undoes_get::<T, C>(before@, key, 0);
            lemma_slot_exists::<T, C>(before@, key);
        }
        match got {
            Ok(()) => Ok(GuardMut { key }),
            Err(e) => Err(e),
        }
    }

    /// Takes a holder of the value that `key` was given out for away.
    fn release_key(&mut self, tid: Tid<C>, key: usize)
        requires
            old(self).wf(),
            in_range::<C>(key),
            old(self)@.slot::<C>(key).is_held(),
        ensures
            final(self).wf(),
            final(self)@ == old(self)@.release::<C>(tid.number(), key),
    {
        let parts: Parts<C> = parts(key).unwrap();
        proof {
            if parts.tid >= self.shards@.len() {
                self.lemma_unused(key);
            }
            self.lemma_page(key);
        }
        let ghost before: Self = *self;
        let local: bool = tid.as_usize() == parts.tid;
        self.shards[parts.tid].pages[parts.page].release(parts.slot, local);
        proof {
            self.lemma_page_changed(before, key);
        }
    }

    /// Gives a reference to a value back. Where the value was removed and this
    /// was the last reference to it, the value is dropped and its slot freed.
    pub fn release(&mut self, tid: Tid<C>, guard: Guard)
        requires
            old(self).wf(),
            old(self)@.is_shared::<C>(guard.of()),
        ensures
            final(self).wf(),
            ({
                let step = Step::<T>::Release { tid: tid.number(), key: guard.of() };
                step.is_allowed::<C>(old(self)@) && final(self)@ == step.apply::<C>(old(self)@)
            }),
            final(self)@ == old(self)@.release::<C>(tid.number(), guard.of()),
            final(self)@.live::<C>() == old(self)@.live::<C>(),
    {
        proof {
            self.lemma_wf();
            holding_keeps_values::<T, C>(self@, guard.key, tid.number());
        }
        self.release_key(tid, guard.key);
    }

    /// Gives the one reference to a value back. Where the value was removed, it
    /// is dropped and its slot freed.
    pub fn release_mut(&mut self, tid: Tid<C>, guard: GuardMut)
        requires
            old(self).wf(),
            old(self)@.is_locked::<C>(guard.of()),
        ensures
            final(self).wf(),
            ({
                let step = Step::<T>::Release { tid: tid.number(), key: guard.of() };
                step.is_allowed::<C>(old(self)@) && final(self)@ == step.apply::<C>(old(self)@)
            }),
            final(self)@ == old(self)@.release::<C>(tid.number(), guard.of()),
            final(self)@.live::<C>() == old(self)@.live::<C>(),
    {
        proof {
            self.lemma_wf();
            holding_keeps_values::<T, C>(self@, guard.key, tid.number());
        }
        self.release_key(tid, guard.key);
    }

    /// Removes the value that `key` leads to, if there is one. The value is
    /// dropped and its slot freed, at once or when the last holder lets go of it.
    pub fn remove(&mut self, tid: Tid<C>, key: usize) -> (r: bool)
        requires
            old(self).wf(),
        ensures
            final(self).wf(),
            ({
                let step = Step::<T>::Remove { tid: tid.number(), key };
                &&& r <==> step.is_allowed::<C>(old(self)@)
                &&& r ==> final(self)@ == step.apply::<C>(old(self)@)
            }),
            r == old(self)@.contains::<C>(key),
            final(self)@ == (if r {
                old(self)@.remove::<C>(tid.number(), key)
            } else {
                old(self)@
            }),
            final(self)@.live::<C>() == old(self)@.live::<C>().remove(key),
    {
        let parts: Parts<C> = match parts(key) {
            Some(parts) => parts,
            None => {
                assert(self@.live::<C>().remove(key) =~= self@.live::<C>());
                return false;
            },
        };
        if parts.tid >= self.shards.len() {
            proof {
                self.lemma_unused(key);
                assert(self@.live::<C>().remove(key) =~= self@.live::<C>());
            }
            return false;
        }
        proof {
            self.lemma_page(key);
        }
        let ghost before: Self = *self;
        let local: bool = tid.as_usize() == parts.tid;
        let removed: bool = self.shards[parts.tid].pages[parts.page].remove(
            parts.slot,
            parts.gen,
            local,
        );
        proof {
            self.lemma_page_changed(before, key);
            before.lemma_wf();
            if removed {
                removal_removes_value::<T, C>(before@, key, tid.number());
            }
            assert(!before@.contains::<C>(key) ==> before@.live::<C>().remove(key)
                =~= before@.live::<C>());
        }
        removed
    }

    /// Takes the value that `key` leads to out of the slab, if there is one.
    pub fn take(&mut self, tid: Tid<C>, key: usize) -> (r: Take<T>)
        requires
            old(self).wf(),
        ensures
            final(self).wf(),
            ({
                let step = Step::<T>::Take { tid: tid.number(), key };
                &&& r !is Absent <==> step.is_allowed::<C>(old(self)@)
                &&& r !is Absent ==> final(self)@ == step.apply::<C>(old(self)@)
                &&& r is Taken ==> old(self)@.slot::<C>(key).holders == Holders::Shared(0)
                &&& r is Pending ==> old(self)@.slot::<C>(key).holders != Holders::Shared(0)
            }),
            match r {
                Take::Taken(value) => {
                    &&& old(self)@.contains::<C>(key)
                    &&& !old(self)@.slot::<C>(key).is_held()
                    &&& value == old(self)@.live::<C>()[key]
                    &&& final(self)@ == old(self)@.take::<C>(tid.number(), key)
                    &&& final(self)@.live::<C>() == old(self)@.live::<C>().remove(key)
                },
                Take::Absent => {
                    &&& !old(self)@.contains::<C>(key)
                    &&& final(self)@ == old(self)@
                },
                Take::Pending(claim) => {
                    &&& old(self)@.contains::<C>(key)
                    &&& old(self)@.slot::<C>(key).is_held()
                    &&& claim.of() == key
                    &&& final(self)@ == old(self)@.take::<C>(tid.number(), key)
                    &&& final(self)@.is_claimed::<C>(key)
                    &&& final(self)@.held_value::<C>(key) == old(self)@.live::<C>()[key]
                    &&& final(self)@.live::<C>() == old(self)@.live::<C>().remove(key)
                },
            },
    {
        let parts: Parts<C> = match parts(key) {
            Some(parts) => parts,
            None => {
                return Take::Absent;
            },
        };
        if parts.tid >= self.shards.len() {
            proof {
                self.lemma_unused(key);
            }
            return Take::Absent;
        }
        proof {
            self.lemma_page(key);
        }
        let ghost before: Self = *self;
        let local: bool = tid.as_usize() == parts.tid;
        let taken: Option<Option<T>> = self.shards[parts.tid].pages[parts.page].take(
            parts.slot,
            parts.gen,
            local,
        );
        proof {
            self.lemma_page_changed(before, key);
            before.lemma_wf();
            lemma_slot_exists::<T, C>(before@, key);
            if taken is Some {
                removal_removes_value::<T, C>(before@, key, tid.number());
            }
        }
        match taken {
            None => Take::Absent,
            Some(Some(value)) => Take::Taken(value),
            Some(None) => Take::Pending(Claim { key }),
        }
    }

    /// Turns a claim into the value that it is to. Gives the claim back where
    /// the value is still held.
    pub fn redeem(&mut self, tid: Tid<C>, claim: Claim) -> (r: Result<T, Claim>)
        requires
            old(self).wf(),
            old(self)@.is_claimed::<C>(claim.of()),
        ensures
            final(self).wf(),
            ({
                let step = Step::<T>::Redeem { tid: tid.number(), key: claim.of() };
                &&& r is Ok <==> step.is_allowed::<C>(old(self)@)
                &&& r is Ok ==> final(self)@ == step.apply::<C>(old(self)@)
                &&& r is Ok <==> old(self)@.slot::<C>(claim.of()).holders == Holders::Shared(0)
            }),
            match r {
                Ok(value) => {
                    &&& !old(self)@.slot::<C>(claim.of()).is_held()
                    &&& value == old(self)@.held_value::<C>(claim.of())
                    &&& final(self)@ == old(self)@.redeem::<C>(tid.number(), claim.of())
                    &&& final(self)@.live::<C>() == old(self)@.live::<C>()
                },
                Err(c) => {
                    &&& old(self)@.slot::<C>(claim.of()).is_held()
                    &&& c == claim
                    &&& final(self)@ == old(self)@
                },
            },
    {
        let parts: Parts<C> = parts(claim.key).unwrap();
        proof {
            if parts.tid >= self.shards@.len() {
                self.lemma_unused(claim.key);
            }
            self.lemma_page(claim.key);
        }
        let ghost before: Self = *self;
        let local: bool = tid.as_usize() == parts.tid;
        let value: Option<T> = self.shards[parts.tid].pages[parts.page].redeem(parts.slot, local);
        proof {
            self.lemma_page_changed(before, claim.key);
            before.lemma_wf();
            holding_keeps_values::<T, C>(before@, claim.key, tid.number());
        }
        match value {
            Some(value) => Ok(value),
            None => Err(claim),
        }
    }

    /// The value that a reference is to.
    pub fn value(&self, guard: &Guard) -> (r: &T)
        requires
            self.wf(),
            self@.is_shared::<C>(guard.of()),
        ensures
            *r == self@.held_value::<C>(guard.of()),
    {
        self.value_of_key(guard.key)
    }

    /// The value that the one reference to it is to.
    pub fn value_locked(&self, guard: &GuardMut) -> (r: &T)
        requires
            self.wf(),
            self@.is_locked::<C>(guard.of()),
        ensures
            *r == self@.held_value::<C>(guard.of()),
    {
        self.value_of_key(guard.key)
    }

    /// The value that `key` was given out for.
    fn value_of_key(&self, key: usize) -> (r: &T)
        requires
            self.wf(),
            in_range::<C>(key),
            self@.slot::<C>(key).is_held(),
        ensures
            self@.slot::<C>(key).item == Some(*r),
    {
        let parts: Parts<C> = parts(key).unwrap();
        proof {
            if parts.tid >= self.shards@.len() {
                self.lemma_unused(key);
            }
            self.lemma_page(key);
            self.shards@[parts.tid as int].pages@[parts.page as int].lemma_wf();
            assert(self@.slot::<C>(key).wf::<C>());
        }
        self.shards[parts.tid].pages[parts.page].value(parts.slot)
    }

    /// The value that the one reference to it is to, to be changed in place.
    pub fn value_mut(&mut self, guard: &GuardMut) -> (r: &mut T)
        requires
            old(self).wf(),
            old(self)@.is_locked::<C>(guard.of()),
        ensures
            final(self).wf(),
            ({
                let step = Step::<T>::Change { key: guard.of(), value: *final(r) };
                step.is_allowed::<C>(old(self)@) && final(self)@ == step.apply::<C>(old(self)@)
            }),
            *r == old(self)@.held_value::<C>(guard.of()),
            final(self)@ == old(self)@.change::<C>(guard.of(), *final(r)),
            final(self)@.is_locked::<C>(guard.of()),
            final(self)@.held_value::<C>(guard.of()) == *final(r),
            final(self)@.live::<C>() == (if old(self)@.contains::<C>(guard.of()) {
                old(self)@.live::<C>().insert(guard.of(), *final(r))
            } else {
                old(self)@.live::<C>()
            }),
    {
        let parts: Parts<C> = parts(guard.key).unwrap();
        let ghost before: Self = *self;
        proof {
            if parts.tid >= self.shards@.len() {
                self.lemma_unused(guard.key);
            }
            self.lemma_page(guard.key);
            self.shards@[parts.tid as int].pages@[parts.page as int].lemma_wf();
            assert(self@.slot::<C>(guard.key).wf::<C>());
            assert forall|after: Self|
                #![trigger after.wf()]
                #![trigger after.view()]
                after.is_changed_at(before, guard.key) implies {
                &&& after.wf()
                &&& after@ == before@.with_page::<C>(
                    guard.key,
                    after.shards@[parts.tid as int].pages@[parts.page as int]@,
                )
            } by {
                after.lemma_page_changed(before, guard.key);
            }
            before.lemma_wf();
            lemma_slot_exists::<T, C>(before@, guard.key);
        }
        let r: &mut T = self.shards[parts.tid].pages[parts.page].value_mut(parts.slot);
        proof {
            change_replaces_value::<T, C>(before@, guard.key, *final(r));
        }
        r
    }

    /// The values that can be looked up, shard by shard, page by page and slot
    /// by slot.
    pub fn unique_iter(&self) -> (r: Vec<&T>)
        requires
            self.wf(),
        ensures
            r@.unref() == self@.values(),
    {
        let mut out: Vec<&T> = Vec::new();
        let mut t: usize = 0;
        assert(out@.unref() =~= shard_values(self@.shards.take(0)));
        while t < self.shards.len()
            invariant
                self.wf(),
                t <= self.shards@.len(),
                out@.unref() == shard_values(self@.shards.take(t as int)),
            decreases self.shards@.len() - t,
        {
            self.shards[t].push_values(&mut out);
            assert(self@.shards.take(t + 1).drop_last() =~= self@.shards.take(t as int));
            t = t + 1;
        }
        proof {
            no_values_in_unused_shards::<T, C>(self@.shards, t as nat);
        }
        out
    }
}

} // verus!
