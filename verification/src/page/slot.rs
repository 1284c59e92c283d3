//! Slots: the places that hold one value each.
//!
//! Next to its value a slot has one word, its lifecycle, which holds its state,
//! the number of references to the value, and the generation.

use crate::cfg::{
    gen_len,
    gen_shift,
    lemma_layout,
    lemma_pow2_fits,
    lemma_width,
    log2_ceil,
    ref_len,
    state_len,
    valid,
    Config,
};
use crate::model::{generations, max_refs, next_gen, unused_slot, Holders, SlotModel, State};
use crate::pack::{field, lemma_field_bound, lemma_with_field, Pack};
use core::marker::PhantomData;
use vstd::arithmetic::power2::{lemma2_to64, lemma_pow2_strictly_increases, pow2};
use vstd::prelude::*;

verus! {

/// The generation of a slot. It tells the values apart that the slot has held
/// one after another.
#[derive(Debug, PartialEq, Eq)]
pub struct Generation<C: Config> {
    value: usize,
    config: PhantomData<C>,
}

impl<C: Config> Clone for Generation<C> {
    fn clone(&self) -> (r: Self)
        ensures
            r == *self,
    {
        *self
    }
}

impl<C: Config> Copy for Generation<C> {

}

impl<C: Config> Pack<C> for Generation<C> {
    open spec fn field_len() -> nat {
        gen_len::<C>()
    }

    open spec fn field_shift() -> nat {
        gen_shift::<C>()
    }

    closed spec fn number(&self) -> nat {
        self.value as nat
    }

    proof fn lemma_is_field() {
        lemma_layout::<C>();
        assert(Self::field_len() == gen_len::<C>());
        assert(Self::field_shift() == gen_shift::<C>());
    }

    fn len() -> (r: usize) {
        proof {
            lemma_layout::<C>();
            assert(Self::field_len() == gen_len::<C>());
            assert(Self::field_shift() == gen_shift::<C>());
        }
        usize::BITS as usize - Self::shift()
    }

    fn shift() -> (r: usize) {
        proof {
            lemma_layout::<C>();
            assert(Self::field_shift() == gen_shift::<C>());
        }
        C::MAX_PAGES + log2_ceil(C::INITIAL_PAGE_SIZE) + 1 + log2_ceil(C::MAX_THREADS) + 1
    }

    fn as_usize(&self) -> (r: usize) {
        self.value
    }

    fn from_usize(val: usize) -> (r: Self) {
        Generation { value: val, config: PhantomData }
    }
}

impl<C: Config> Generation<C> {
    /// The generation that follows this one.
    pub fn advance(&self) -> (r: Self)
        requires
            valid::<C>(),
            self.number() < generations::<C>(),
        ensures
            r.number() == next_gen::<C>(self.number()),
    {
        proof {
            lemma_counts::<C>();
        }
        let next: usize = (self.value + 1) % Self::bits();
        Self::from_usize(next)
    }
}

/// The number of references to the value in a slot.
#[derive(Debug, PartialEq, Eq)]
pub struct RefCount<C: Config> {
    value: usize,
    config: PhantomData<C>,
}

impl<C: Config> Pack<C> for RefCount<C> {
    open spec fn field_len() -> nat {
        ref_len::<C>()
    }

    open spec fn field_shift() -> nat {
        state_len()
    }

    closed spec fn number(&self) -> nat {
        self.value as nat
    }

    proof fn lemma_is_field() {
        lemma_layout::<C>();
        assert(Self::field_len() == ref_len::<C>());
        assert(Self::field_shift() == state_len());
    }

    fn len() -> (r: usize) {
        proof {
            lemma_layout::<C>();
            assert(Generation::<C>::field_shift() == gen_shift::<C>());
        }
        Generation::<C>::shift() - 2
    }

    fn shift() -> (r: usize) {
        2
    }

    fn as_usize(&self) -> (r: usize) {
        self.value
    }

    fn from_usize(val: usize) -> (r: Self) {
        RefCount { value: val, config: PhantomData }
    }
}

impl<C: Config> RefCount<C> {
    /// How many references to a value can be held at a time. The count above
    /// it, the largest that there is room for, stands for a value that is held
    /// by one alone.
    pub fn max() -> (r: usize)
        requires
            valid::<C>(),
        ensures
            r == max_refs::<C>(),
            r > 1,
    {
        proof {
            lemma_counts::<C>();
            assert(Self::field_len() == ref_len::<C>());
        }
        Self::bits() - 1
    }
}

/// The number that stands for a state.
pub open spec fn state_number(state: State) -> nat {
    match state {
        State::Present => 0,
        State::Marked => 1,
        State::Claimed => 2,
        State::Vacant => 3,
    }
}

impl<C: Config> Pack<C> for State {
    open spec fn field_len() -> nat {
        state_len()
    }

    open spec fn field_shift() -> nat {
        0
    }

    open spec fn number(&self) -> nat {
        state_number(*self)
    }

    proof fn lemma_is_field() {
        lemma_width();
        assert(<State as Pack<C>>::field_len() == state_len());
        assert(<State as Pack<C>>::field_shift() == 0);
    }

    fn len() -> (r: usize) {
        2
    }

    fn shift() -> (r: usize) {
        0
    }

    fn as_usize(&self) -> (r: usize) {
        match self {
            State::Present => 0,
            State::Marked => 1,
            State::Claimed => 2,
            State::Vacant => 3,
        }
    }

    fn from_usize(val: usize) -> (r: Self) {
        proof {
            lemma2_to64();
            assert(<State as Pack<C>>::field_len() == 2);
        }
        if val == 0 {
            State::Present
        } else if val == 1 {
            State::Marked
        } else if val == 2 {
            State::Claimed
        } else {
            State::Vacant
        }
    }
}

/// There is more than one generation, and more than one reference to a value
/// can be held.
pub proof fn lemma_counts<C: Config>()
    requires
        valid::<C>(),
    ensures
        generations::<C>() == pow2(gen_len::<C>()) - 1,
        generations::<C>() >= 3,
        max_refs::<C>() == pow2(ref_len::<C>()) - 2,
        max_refs::<C>() >= 2,
        pow2(gen_len::<C>()) <= usize::MAX,
        pow2(ref_len::<C>()) <= usize::MAX,
{
    lemma_layout::<C>();
    lemma2_to64();
    lemma_pow2_fits(gen_len::<C>());
    lemma_pow2_fits(ref_len::<C>());
    if gen_len::<C>() > 2 {
        lemma_pow2_strictly_increases(2, gen_len::<C>());
    }
    if ref_len::<C>() > 2 {
        lemma_pow2_strictly_increases(2, ref_len::<C>());
    }
}

/// Generations are counted up, and start over after the last one.
pub proof fn lemma_next_gen<C: Config>(gen: nat)
    requires
        valid::<C>(),
        gen < generations::<C>(),
    ensures
        next_gen::<C>(gen) == (if gen + 1 == generations::<C>() {
            0
        } else {
            gen + 1
        }),
        next_gen::<C>(gen) != gen,
{
    lemma_counts::<C>();
    if gen + 1 == generations::<C>() {
        vstd::arithmetic::div_mod::lemma_mod_self_0(generations::<C>() as int);
    } else {
        vstd::arithmetic::div_mod::lemma_small_mod(gen + 1, generations::<C>());
    }
}

/// Who holds the value of a slot whose reference count is `refs`.
pub open spec fn holders_of<C: Config>(refs: nat) -> Holders {
    if refs == max_refs::<C>() + 1 {
        Holders::Exclusive
    } else {
        Holders::Shared(refs)
    }
}

/// The state that a number stands for.
pub open spec fn state_of(number: nat) -> State {
    if number == 0 {
        State::Present
    } else if number == 1 {
        State::Marked
    } else if number == 2 {
        State::Claimed
    } else {
        State::Vacant
    }
}

/// The lifecycle of a slot in the given state, with so many references to its
/// value and of the given generation.
fn lifecycle<C: Config>(gen: Generation<C>, refs: usize, state: State) -> (r: usize)
    requires
        valid::<C>(),
        gen.number() < pow2(gen_len::<C>()),
        refs < pow2(ref_len::<C>()),
    ensures
        field(r as nat, gen_shift::<C>(), gen_len::<C>()) == gen.number(),
        field(r as nat, state_len(), ref_len::<C>()) == refs,
        state_of(field(r as nat, 0, state_len())) == state,
{
    proof {
        lemma_layout::<C>();
        lemma2_to64();
        assert(<State as Pack<C>>::field_len() == state_len());
        assert(<State as Pack<C>>::field_shift() == 0);
        assert(<State as Pack<C>>::number(&state) == state_number(state));
        assert(RefCount::<C>::field_len() == ref_len::<C>());
        assert(RefCount::<C>::field_shift() == state_len());
        assert(Generation::<C>::field_len() == gen_len::<C>());
        assert(Generation::<C>::field_shift() == gen_shift::<C>());
    }
    let count: RefCount<C> = RefCount::from_usize(refs);
    let word: usize = <State as Pack<C>>::pack(&state, 0);
    proof {
        lemma_with_field(0, 0, state_len(), state_number(state));
        lemma_with_field(word, state_len(), ref_len::<C>(), refs as nat);
    }
    let word2: usize = count.pack(word);
    proof {
        lemma_with_field(word2, gen_shift::<C>(), gen_len::<C>(), gen.number());
    }
    gen.pack(word2)
}

/// A slot.
pub struct Slot<T, C: Config> {
    lifecycle: usize,
    /// The number of the slot that comes after this one on its free list.
    next: usize,
    item: Option<T>,
    config: PhantomData<C>,
}

impl<T, C: Config> View for Slot<T, C> {
    type V = SlotModel<T>;

    closed spec fn view(&self) -> SlotModel<T> {
        SlotModel {
            gen: field(self.lifecycle as nat, gen_shift::<C>(), gen_len::<C>()),
            state: state_of(field(self.lifecycle as nat, 0, state_len())),
            holders: holders_of::<C>(field(self.lifecycle as nat, state_len(), ref_len::<C>())),
            item: self.item,
        }
    }
}

impl<T, C: Config> Slot<T, C> {
    /// The number of the slot that comes after this one on its free list.
    pub(crate) closed spec fn next_free(self) -> nat {
        self.next as nat
    }

    /// A slot that was never used, before slot number `next` on its free list.
    pub(crate) fn new(next: usize) -> (r: Self)
        requires
            valid::<C>(),
        ensures
            r@ == unused_slot::<T>(),
            r.next_free() == next,
    {
        proof {
            lemma_counts::<C>();
            assert(Generation::<C>::field_len() == gen_len::<C>());
        }
        let gen: Generation<C> = Generation::from_usize(0);
        Slot {
            lifecycle: lifecycle::<C>(gen, 0, State::Vacant),
            next,
            item: None,
            config: PhantomData,
        }
    }

    /// The number of the slot that comes after this one on its free list.
    pub(crate) fn next(&self) -> (r: usize)
        ensures
            r == self.next_free(),
    {
        self.next
    }

    /// Puts the slot before slot number `next` on a free list.
    pub(crate) fn set_next(&mut self, next: usize)
        ensures
            final(self)@ == old(self)@,
            final(self).next_free() == next,
    {
        self.next = next;
    }

    /// The generation of the slot.
    pub(crate) fn generation(&self) -> (r: Generation<C>)
        requires
            valid::<C>(),
        ensures
            r.number() == self@.gen,
            r.number() < pow2(gen_len::<C>()),
    {
        proof {
            assert(Generation::<C>::field_len() == gen_len::<C>());
            assert(Generation::<C>::field_shift() == gen_shift::<C>());
            lemma_field_bound(self.lifecycle as nat, gen_shift::<C>(), gen_len::<C>());
        }
        Generation::from_packed(self.lifecycle)
    }

    /// The state of the slot.
    fn state(&self) -> (r: State)
        requires
            valid::<C>(),
        ensures
            r == self@.state,
    {
        proof {
            lemma2_to64();
            assert(<State as Pack<C>>::field_len() == state_len());
            assert(<State as Pack<C>>::field_shift() == 0);
            lemma_field_bound(self.lifecycle as nat, 0, state_len());
        }
        let state: State = <State as Pack<C>>::from_packed(self.lifecycle);
        assert(<State as Pack<C>>::number(&state) == state_number(state));
        state
    }

    /// The number of references to the value in the slot.
    fn refs(&self) -> (r: usize)
        requires
            valid::<C>(),
        ensures
            holders_of::<C>(r as nat) == self@.holders,
            r <= max_refs::<C>() + 1,
    {
        proof {
            lemma_counts::<C>();
            assert(RefCount::<C>::field_len() == ref_len::<C>());
            assert(RefCount::<C>::field_shift() == state_len());
            lemma_field_bound(self.lifecycle as nat, state_len(), ref_len::<C>());
        }
        let count: RefCount<C> = RefCount::from_packed(self.lifecycle);
        count.as_usize()
    }

    /// Changes the reference count and the state of the slot.
    fn set(&mut self, refs: usize, state: State)
        requires
            valid::<C>(),
            refs <= max_refs::<C>() + 1,
        ensures
            final(self)@ == (SlotModel {
                holders: holders_of::<C>(refs as nat),
                state,
                ..old(self)@
            }),
            final(self).next_free() == old(self).next_free(),
    {
        proof {
            lemma_counts::<C>();
        }
        self.lifecycle = lifecycle::<C>(self.generation(), refs, state);
    }

    /// Whether a key of generation `gen` leads to the value.
    pub(crate) fn is_present(&self, gen: Generation<C>) -> (r: bool)
        requires
            valid::<C>(),
        ensures
            r == self@.is_present(gen.number()),
    {
        self.state() == State::Present && self.generation().as_usize() == gen.as_usize()
    }

    /// Whether the slot holds a value that can be looked up.
    pub(crate) fn is_shown(&self) -> (r: bool)
        requires
            valid::<C>(),
        ensures
            r == (self@.state == State::Present),
    {
        self.state() == State::Present
    }

    /// Whether anyone holds the value.
    pub(crate) fn is_held(&self) -> (r: bool)
        requires
            valid::<C>(),
        ensures
            r == self@.is_held(),
    {
        proof {
            lemma_counts::<C>();
        }
        self.refs() != 0
    }

    /// Puts a value into the slot.
    pub(crate) fn fill(&mut self, value: T)
        requires
            valid::<C>(),
            old(self)@.holders == Holders::Shared(0),
        ensures
            final(self)@ == old(self)@.fill(value),
            final(self).next_free() == old(self).next_free(),
    {
        proof {
            lemma_counts::<C>();
        }
        self.set(0, State::Present);
        self.item = Some(value);
    }

    /// Adds a reference to the value, if there can be another one.
    pub(crate) fn share(&mut self) -> (r: bool)
        requires
            valid::<C>(),
        ensures
            r == old(self)@.can_share::<C>(),
            final(self)@ == (if r {
                old(self)@.share()
            } else {
                old(self)@
            }),
            final(self).next_free() == old(self).next_free(),
    {
        proof {
            lemma_counts::<C>();
        }
        let refs: usize = self.refs();
        if refs >= RefCount::<C>::max() {
            return false;
        }
        let state: State = self.state();
        self.set(refs + 1, state);
        true
    }

    /// Adds the one holder who has the value alone.
    pub(crate) fn lock(&mut self)
        requires
            valid::<C>(),
        ensures
            final(self)@ == old(self)@.lock(),
            final(self).next_free() == old(self).next_free(),
    {
        proof {
            lemma_counts::<C>();
        }
        let state: State = self.state();
        self.set(RefCount::<C>::max() + 1, state);
    }

    /// Whether the value was removed and has one holder left.
    pub(crate) fn is_freed_by_release(&self) -> (r: bool)
        requires
            valid::<C>(),
            self@.is_held(),
        ensures
            r == (self@.state == State::Marked && !self@.unhold().is_held()),
    {
        proof {
            lemma_counts::<C>();
        }
        let refs: usize = self.refs();
        self.state() == State::Marked && (refs == 1 || refs > RefCount::<C>::max())
    }

    /// Takes a holder away.
    pub(crate) fn unhold(&mut self)
        requires
            valid::<C>(),
            old(self)@.is_held(),
        ensures
            final(self)@ == old(self)@.unhold(),
            final(self).next_free() == old(self).next_free(),
    {
        proof {
            lemma_counts::<C>();
        }
        let refs: usize = self.refs();
        let left: usize = if refs > RefCount::<C>::max() {
            0
        } else {
            refs - 1
        };
        let state: State = self.state();
        self.set(left, state);
    }

    /// Changes the state of the slot.
    pub(crate) fn set_state(&mut self, state: State)
        requires
            valid::<C>(),
        ensures
            final(self)@ == old(self)@.with_state(state),
            final(self).next_free() == old(self).next_free(),
    {
        let refs: usize = self.refs();
        self.set(refs, state);
    }

    /// Takes the value out of the slot, and ends its generation.
    pub(crate) fn vacate(&mut self) -> (r: Option<T>)
        requires
            valid::<C>(),
            old(self)@.gen < generations::<C>(),
        ensures
            r == old(self)@.item,
            final(self)@ == old(self)@.vacate::<C>(),
            final(self).next_free() == old(self).next_free(),
    {
        let gen: Generation<C> = self.generation().advance();
        proof {
            lemma_counts::<C>();
        }
        self.lifecycle = lifecycle::<C>(gen, 0, State::Vacant);
        self.item.take()
    }

    /// The value in the slot.
    pub(crate) fn value(&self) -> (r: &T)
        requires
            self@.item is Some,
        ensures
            *r == self@.item->0,
    {
        self.item.as_ref().unwrap()
    }

    /// The value in the slot, to be changed in place.
    pub(crate) fn value_mut(&mut self) -> (r: &mut T)
        requires
            old(self)@.item is Some,
        ensures
            *r == old(self)@.item->0,
            final(self)@ == old(self)@.with_item(*final(r)),
            final(self).next_free() == old(self).next_free(),
    {
        self.item.as_mut().unwrap()
    }
}

} // verus!
