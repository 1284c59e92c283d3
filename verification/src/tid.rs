//! The numbers that tell the threads using a slab apart.

use crate::cfg::{
    addr_len,
    lemma_ceil_log2,
    lemma_layout,
    log2_ceil,
    max_shards,
    shard_bits,
    tid_len,
    valid,
    Config,
};
use crate::pack::Pack;
use core::marker::PhantomData;
use vstd::arithmetic::power2::lemma_pow2_strictly_increases;
use vstd::prelude::*;

verus! {

/// The number of a thread, which is also the number of the shard that it
/// inserts into.
#[derive(Debug, PartialEq, Eq)]
pub struct Tid<C: Config> {
    id: usize,
    config: PhantomData<C>,
}

impl<C: Config> Clone for Tid<C> {
    fn clone(&self) -> (r: Self)
        ensures
            r == *self,
    {
        *self
    }
}

impl<C: Config> Copy for Tid<C> {

}

impl<C: Config> Tid<C> {
    /// Whether a thread can have this number: there is a shard of that number.
    pub open spec fn is_thread(self) -> bool {
        self.number() < max_shards::<C>()
    }
}

impl<C: Config> Pack<C> for Tid<C> {
    open spec fn field_len() -> nat {
        tid_len::<C>()
    }

    open spec fn field_shift() -> nat {
        addr_len::<C>()
    }

    closed spec fn number(&self) -> nat {
        self.id as nat
    }

    proof fn lemma_is_field() {
        lemma_layout::<C>();
        assert(Self::field_len() == tid_len::<C>());
        assert(Self::field_shift() == addr_len::<C>());
    }

    fn len() -> (r: usize) {
        proof {
            lemma_layout::<C>();
        }
        log2_ceil(C::MAX_THREADS) + 1
    }

    fn shift() -> (r: usize) {
        proof {
            lemma_layout::<C>();
        }
        C::MAX_PAGES + log2_ceil(C::INITIAL_PAGE_SIZE) + 1
    }

    fn as_usize(&self) -> (r: usize) {
        self.id
    }

    fn from_usize(val: usize) -> (r: Self) {
        Tid { id: val, config: PhantomData }
    }
}

/// The numbers that are given out to threads.
pub struct Registry<C: Config> {
    taken: Vec<bool>,
    config: PhantomData<C>,
}

impl<C: Config> View for Registry<C> {
    type V = Set<nat>;

    closed spec fn view(&self) -> Set<nat> {
        Set::new(|n: nat| n < self.taken@.len() && self.taken@[n as int])
    }
}

impl<C: Config> Registry<C> {
    /// A registry that has given out no numbers.
    pub fn new() -> (r: Self)
        ensures
            r@ == Set::<nat>::empty(),
    {
        let r = Registry { taken: Vec::new(), config: PhantomData };
        assert(r@ =~= Set::<nat>::empty());
        r
    }

    /// Gives out the lowest number that is free. Fails if as many numbers are
    /// given out as there can be threads.
    pub fn register(&mut self) -> (r: Option<Tid<C>>)
        requires
            valid::<C>(),
        ensures
            match r {
                Some(tid) => {
                    &&& tid.number() < C::MAX_THREADS
                    &&& tid.is_thread()
                    &&& !old(self)@.contains(tid.number())
                    &&& forall|n: nat| n < tid.number() ==> old(self)@.contains(n)
                    &&& final(self)@ == old(self)@.insert(tid.number())
                },
                None => {
                    &&& forall|n: nat| n < C::MAX_THREADS ==> old(self)@.contains(n)
                    &&& final(self)@ == old(self)@
                },
            },
    {
        let mut n: usize = 0;
        while n < self.taken.len() && self.taken[n]
            invariant
                self@ == old(self)@,
                n <= self.taken@.len(),
                forall|m: nat| m < n ==> self@.contains(m),
            decreases self.taken@.len() - n,
        {
            assert(self@.contains(n as nat));
            n = n + 1;
        }
        if n >= C::MAX_THREADS {
            return None;
        }
        if n < self.taken.len() {
            self.taken[n] = true;
        } else {
            self.taken.push(true);
        }
        assert(self@ =~= old(self)@.insert(n as nat));
        proof {
            lemma_layout::<C>();
            lemma_ceil_log2(C::MAX_THREADS as nat);
            lemma_pow2_strictly_increases(shard_bits::<C>(), tid_len::<C>());
            assert(Tid::<C>::field_len() == tid_len::<C>());
        }
        Some(Tid::from_usize(n))
    }

    /// Takes a number back.
    pub fn release(&mut self, tid: Tid<C>)
        requires
            old(self)@.contains(tid.number()),
        ensures
            final(self)@ == old(self)@.remove(tid.number()),
    {
        self.taken[tid.id] = false;
        assert(self@ =~= old(self)@.remove(tid.number()));
    }
}

} // verus!
