//! Pages: the runs of slots that a shard is made of.

pub mod slot;

use crate::cfg::{
    addr_len,
    lemma_layout,
    log2_ceil,
    page_bits,
    page_size,
    prev_size,
    valid,
    Config,
};
use crate::model::{
    in_page,
    no_values_in_vacant_slots,
    page_free_slot_keeps_wf,
    page_insert_keeps_wf,
    page_of,
    page_set_keeps_wf,
    slot_values,
    unused_page,
    unused_page_is_wf,
    unused_slot,
    PageModel,
    State,
};
use crate::pack::{field, Pack};
use crate::page::slot::{Generation, Slot};
use core::marker::PhantomData;
use vstd::arithmetic::power2::{
    lemma_pow2_pos,
    lemma_pow2_strictly_increases,
    lemma_pow2_unfold,
    pow2,
};
use vstd::prelude::*;

verus! {

/// The address of a slot within its shard: the slots of all the pages are
/// numbered through.
#[derive(Debug, PartialEq, Eq)]
pub struct Addr<C: Config> {
    addr: usize,
    config: PhantomData<C>,
}

impl<C: Config> Clone for Addr<C> {
    fn clone(&self) -> (r: Self)
        ensures
            r == *self,
    {
        *self
    }
}

impl<C: Config> Copy for Addr<C> {

}

impl<C: Config> Pack<C> for Addr<C> {
    open spec fn field_len() -> nat {
        addr_len::<C>()
    }

    open spec fn field_shift() -> nat {
        0
    }

    closed spec fn number(&self) -> nat {
        self.addr as nat
    }

    proof fn lemma_is_field() {
        lemma_layout::<C>();
        assert(Self::field_len() == addr_len::<C>());
        assert(Self::field_shift() == 0);
    }

    fn len() -> (r: usize) {
        proof {
            lemma_layout::<C>();
        }
        C::MAX_PAGES + log2_ceil(C::INITIAL_PAGE_SIZE) + 1
    }

    fn shift() -> (r: usize) {
        0
    }

    fn as_usize(&self) -> (r: usize) {
        self.addr
    }

    fn from_usize(val: usize) -> (r: Self) {
        Addr { addr: val, config: PhantomData }
    }
}

/// Page `page + 1` begins where page `page` ends.
pub proof fn lemma_prev_size<C: Config>(page: nat)
    ensures
        prev_size::<C>(page + 1) == prev_size::<C>(page) + page_size::<C>(page),
        prev_size::<C>(page + 1) == 2 * prev_size::<C>(page) + page_size::<C>(0),
        prev_size::<C>(0) == 0,
        page_size::<C>(page) > 0,
{
    lemma_pow2_pos(page_bits::<C>() + page);
    lemma_pow2_unfold(page_bits::<C>() + page + 1);
    if page > 0 {
        lemma_pow2_strictly_increases(page_bits::<C>(), page_bits::<C>() + page);
    }
}

/// Pages come in the order of their addresses.
pub proof fn lemma_prev_size_increases<C: Config>(p: nat, q: nat)
    requires
        p <= q,
    ensures
        prev_size::<C>(p) <= prev_size::<C>(q),
{
    lemma_prev_size::<C>(p);
    if p < q {
        lemma_pow2_strictly_increases(page_bits::<C>() + p, page_bits::<C>() + q);
    }
}

/// The page that holds an address is the only one to hold it.
pub proof fn lemma_page_of<C: Config>(addr: nat, page: nat)
    requires
        in_page::<C>(addr, page),
    ensures
        page_of::<C>(addr) == page,
{
    let other: nat = page_of::<C>(addr);
    assert(in_page::<C>(addr, other));
    if other < page {
        lemma_prev_size_increases::<C>(other + 1, page);
    } else if page < other {
        lemma_prev_size_increases::<C>(page + 1, other);
    }
}

/// Every address lies on some page.
pub proof fn lemma_in_page<C: Config>(addr: nat)
    ensures
        in_page::<C>(addr, page_of::<C>(addr)),
{
    lemma_prev_size::<C>(0);
    lemma_in_later_page::<C>(addr, 0);
}

proof fn lemma_in_later_page<C: Config>(addr: nat, page: nat)
    requires
        prev_size::<C>(page) <= addr,
    ensures
        exists|p: nat| in_page::<C>(addr, p),
    decreases addr - prev_size::<C>(page),
{
    lemma_prev_size::<C>(page);
    if prev_size::<C>(page + 1) <= addr {
        lemma_in_later_page::<C>(addr, page + 1);
    } else {
        assert(in_page::<C>(addr, page));
    }
}

impl<C: Config> Addr<C> {
    /// The number of the page that holds the address.
    pub fn index(&self) -> (r: usize)
        requires
            valid::<C>(),
            self.number() < pow2(addr_len::<C>()),
        ensures
            in_page::<C>(self.number(), r as nat),
            r == page_of::<C>(self.number()),
    {
        let bits: usize = log2_ceil(C::INITIAL_PAGE_SIZE);
        proof {
            lemma_layout::<C>();
            lemma_prev_size::<C>(0);
            crate::cfg::lemma_pow2_fits(page_bits::<C>());
            vstd::bits::lemma_usize_shl_is_mul(1, bits);
            lemma_pow2_strictly_increases(page_bits::<C>(), addr_len::<C>());
            crate::cfg::lemma_pow2_fits(addr_len::<C>() + 2);
            lemma_pow2_unfold(addr_len::<C>() + 2);
            lemma_pow2_unfold(addr_len::<C>() + 1);
        }
        let first: usize = 1usize << bits;
        let mut page: usize = 0;
        let mut end: usize = first;
        while end <= self.addr
            invariant
                first == page_size::<C>(0),
                end == prev_size::<C>((page + 1) as nat),
                prev_size::<C>(page as nat) <= self.addr,
                page <= end,
                self.addr < pow2(addr_len::<C>()),
                first < pow2(addr_len::<C>()),
                4 * pow2(addr_len::<C>()) <= usize::MAX,
            decreases 2 * self.addr + first + 1 - end,
        {
            proof {
                lemma_prev_size::<C>((page + 1) as nat);
                lemma_prev_size::<C>(0);
            }
            end = 2 * end + first;
            page = page + 1;
        }
        proof {
            lemma_page_of::<C>(self.number(), page as nat);
        }
        page
    }

    /// How many slots of its shard come before the slot at this address.
    pub fn offset(&self) -> (r: usize)
        ensures
            r == self.number(),
    {
        self.addr
    }
}

/// The address that a key leads to within its shard, and the page that holds
/// that address.
pub fn indices<C: Config>(key: usize) -> (r: (Addr<C>, usize))
    requires
        valid::<C>(),
    ensures
        r.0.number() == field(key as nat, 0, addr_len::<C>()),
        in_page::<C>(r.0.number(), r.1 as nat),
        r.1 == page_of::<C>(r.0.number()),
{
    let addr: Addr<C> = Addr::from_packed(key);
    proof {
        crate::pack::lemma_field_bound(key as nat, 0, addr_len::<C>());
    }
    (addr, addr.index())
}

/// Whether `head` begins the free list `list`, where `next` gives for each slot
/// the one after it and `end` stands for no slot.
spec fn is_list(head: nat, list: Seq<int>, next: spec_fn(int) -> int, end: nat) -> bool {
    &&& head == (if list.len() > 0 {
        list[0]
    } else {
        end as int
    })
    &&& forall|i: int| 0 <= i < list.len() ==> 0 <= #[trigger] list[i] < end
    &&& forall|i: int|
        0 <= i < list.len() ==> next(#[trigger] list[i]) == (if i + 1 < list.len() {
            list[i + 1]
        } else {
            end as int
        })
}

/// A page: a fixed number of slots, which come into being when the first value
/// is put on the page. The free ones among them are linked up in two lists, the
/// one for the thread that owns the shard, the other for all other threads.
pub struct Page<T, C: Config> {
    size: usize,
    local_head: usize,
    remote_head: usize,
    slots: Vec<Slot<T, C>>,
    local: Ghost<Seq<int>>,
    remote: Ghost<Seq<int>>,
}

impl<T, C: Config> View for Page<T, C> {
    type V = PageModel<T>;

    closed spec fn view(&self) -> PageModel<T> {
        PageModel {
            slots: Seq::new(
                self.size as nat,
                |i: int|
                    if self.slots@.len() > 0 {
                        self.slots@[i]@
                    } else {
                        unused_slot::<T>()
                    },
            ),
            local: self.local@,
            remote: self.remote@,
        }
    }
}

impl<T, C: Config> Page<T, C> {
    /// The slot after slot `i` on its free list.
    spec fn next(self) -> spec_fn(int) -> int {
        |i: int|
            if self.slots@.len() > 0 {
                self.slots@[i].next_free() as int
            } else {
                i + 1
            }
    }

    /// The links between the free slots spell out the two lists of the model.
    pub(crate) closed spec fn wf(self) -> bool {
        &&& valid::<C>()
        &&& self@.wf::<C>()
        &&& 0 < self.size
        &&& self.slots@.len() == 0 || self.slots@.len() == self.size
        &&& is_list(self.local_head as nat, self.local@, self.next(), self.size as nat)
        &&& is_list(self.remote_head as nat, self.remote@, self.next(), self.size as nat)
    }

    /// What is known of a well formed page outside of this module.
    pub(crate) proof fn lemma_wf(self)
        requires
            self.wf(),
        ensures
            self@.wf::<C>(),
    {
    }

    /// A page of `size` slots, none of them used.
    pub(crate) fn new(size: usize) -> (r: Self)
        requires
            valid::<C>(),
            0 < size,
        ensures
            r.wf(),
            r@ == unused_page::<T>(size as nat),
    {
        let r = Page {
            size,
            local_head: 0,
            remote_head: size,
            slots: Vec::new(),
            local: Ghost(Seq::new(size as nat, |i: int| i)),
            remote: Ghost(Seq::empty()),
        };
        proof {
            assert(r@ =~= unused_page::<T>(size as nat));
            unused_page_is_wf::<T, C>(size as nat);
        }
        r
    }

    /// Brings the slots of the page into being.
    fn allocate(&mut self)
        requires
            old(self).wf(),
        ensures
            final(self).wf(),
            final(self)@ == old(self)@,
            final(self).slots@.len() == final(self).size,
            final(self).size == old(self).size,
            final(self).local_head == old(self).local_head,
            final(self).remote_head == old(self).remote_head,
    {
        if self.slots.len() > 0 {
            return;
        }
        let mut slots: Vec<Slot<T, C>> = Vec::new();
        let mut i: usize = 0;
        while i < self.size
            invariant
                valid::<C>(),
                i <= self.size,
                slots@.len() == i,
                forall|j: int|
                    0 <= j < i ==> (#[trigger] slots@[j])@ == unused_slot::<T>()
                        && slots@[j].next_free() == j + 1,
            decreases self.size - i,
        {
            i = i + 1;
            slots.push(Slot::new(i));
        }
        self.slots = slots;
        assert(self@ =~= old(self)@);
    }

    /// Puts a value into the next free slot, and gives that slot's number and
    /// generation. Gives the value back where there is no free slot.
    pub(crate) fn insert(&mut self, value: T) -> (r: Result<(usize, Generation<C>), T>)
        requires
            old(self).wf(),
        ensures
            final(self).wf(),
            match r {
                Ok((i, gen)) => {
                    &&& old(self)@.has_vacancy()
                    &&& i == old(self)@.next_slot()
                    &&& gen.number() == old(self)@.slots[i as int].gen
                    &&& final(self)@ == old(self)@.insert(value)
                },
                Err(v) => {
                    &&& !old(self)@.has_vacancy()
                    &&& v == value
                    &&& final(self)@ == old(self)@
                },
            },
    {
        if self.local_head >= self.size {
            if self.remote_head >= self.size {
                return Err(value);
            }
            self.local_head = self.remote_head;
            self.remote_head = self.size;
            self.local = self.remote;
            self.remote = Ghost(Seq::empty());
            assert(self@.free() =~= old(self)@.free());
            assert(self@.slots =~= old(self)@.slots);
        }
        assert(self@.insert(value) =~= old(self)@.insert(value));
        assert(self@.wf::<C>());
        self.allocate();
        let ghost before: Self = *self;
        let i: usize = self.local_head;
        proof {
            page_insert_keeps_wf::<T, C>(self@, value);
        }
        let gen: Generation<C> = self.slots[i].generation();
        self.local_head = self.slots[i].next();
        self.slots[i].fill(value);
        self.local = Ghost(self.local@.drop_first());
        proof {
            assert(self@.slots =~= before@.insert(value).slots);
            assert(self@ =~= before@.insert(value));
            self.lemma_lists_kept(before);
        }
        Ok((i, gen))
    }

    /// A free list that has slot `i` put before it, or that slot `i` is not on, is
    /// still linked up after the link of slot `i` was changed.
    proof fn lemma_list_extended(self, after: Self, i: int, list: Seq<int>, new: Seq<int>)
        requires
            self.slots@.len() > 0,
            after.slots@.len() == self.slots@.len() == self.size,
            0 <= i < self.size,
            forall|k: int| 0 <= k < list.len() ==> 0 <= #[trigger] list[k] < self.size && list[k]
                != i,
            forall|k: int|
                0 <= k < list.len() ==> self.next()(#[trigger] list[k]) == (if k + 1
                    < list.len() {
                    list[k + 1]
                } else {
                    self.size as int
                }),
            forall|j: int|
                0 <= j < self.size && j != i ==> (#[trigger] after.slots@[j]).next_free()
                    == self.slots@[j].next_free(),
            new == list || new == seq![i] + list && after.slots@[i].next_free() == (if list.len()
                > 0 {
                list[0]
            } else {
                self.size as int
            }),
        ensures
            is_list(
                (if new.len() > 0 {
                    new[0]
                } else {
                    self.size as int
                }) as nat,
                new,
                after.next(),
                self.size as nat,
            ),
    {
        assert forall|k: int| 0 <= k < new.len() implies after.next()(#[trigger] new[k]) == (if k
            + 1 < new.len() {
            new[k + 1]
        } else {
            self.size as int
        }) by {
            if new != list && k > 0 {
                assert(new[k] == list[k - 1]);
            }
            if new == list {
                assert(new[k] == list[k]);
            }
        }
        assert forall|k: int| 0 <= k < new.len() implies 0 <= #[trigger] new[k] < self.size by {
            if new != list && k > 0 {
                assert(new[k] == list[k - 1]);
            }
        }
    }

    /// Whether the page differs from the well formed page `before` only in slot
    /// `i`, which held a value then and holds one now.
    spec fn is_changed_at(self, before: Self, i: int) -> bool {
        &&& before.wf()
        &&& before.slots@.len() > 0
        &&& 0 <= i < before.size
        &&& before@.slots[i].state != State::Vacant
        &&& self.slots@ == before.slots@.update(i, self.slots@[i])
        &&& self.slots@[i].next_free() == before.slots@[i].next_free()
        &&& self.slots@[i]@.wf::<C>()
        &&& self.slots@[i]@.state != State::Vacant
        &&& self.size == before.size
        &&& self.local_head == before.local_head
        &&& self.remote_head == before.remote_head
        &&& self.local == before.local
        &&& self.remote == before.remote
    }

    /// A slot that holds a value and still does after a change leaves the page
    /// well formed.
    proof fn lemma_slot_changed(self, before: Self, i: int)
        requires
            self.is_changed_at(before, i),
        ensures
            self.wf(),
            self@ == before@.set(i, self.slots@[i]@),
    {
        page_set_keeps_wf::<T, C>(before@, i, self.slots@[i]@);
        assert(self@ =~= before@.set(i, self.slots@[i]@));
        self.lemma_lists_kept(before);
    }

    /// Free lists whose links are untouched are still linked up.
    proof fn lemma_lists_kept(self, before: Self)
        requires
            before.wf(),
            before.slots@.len() > 0,
            self.slots@.len() == before.slots@.len(),
            self.size == before.size,
            self.local@ == before.local@ || before.local@.len() > 0 && self.local@
                == before.local@.drop_first(),
            self.remote@ == before.remote@,
            self.remote_head == before.remote_head,
            self.local@ == before.local@ ==> self.local_head == before.local_head,
            self.local@ != before.local@ ==> self.local_head == before.next()(
                before.local@[0],
            ),
            forall|j: int|
                0 <= j < self.size ==> (#[trigger] self.slots@[j]).next_free()
                    == before.slots@[j].next_free(),
        ensures
            is_list(self.local_head as nat, self.local@, self.next(), self.size as nat),
            is_list(self.remote_head as nat, self.remote@, self.next(), self.size as nat),
    {
    }

    /// Takes the value out of slot `i` and puts the slot on a free list.
    fn free_slot(&mut self, i: usize, local: bool) -> (r: T)
        requires
            old(self).wf(),
            i < old(self)@.slots.len(),
            old(self)@.slots[i as int].state != State::Vacant,
        ensures
            final(self).wf(),
            final(self)@ == old(self)@.free_slot::<C>(i as int, local),
            r == old(self)@.slots[i as int].item->0,
    {
        proof {
            page_free_slot_keeps_wf::<T, C>(self@, i as int, local);
            assert(self@.slots[i as int].wf::<C>());
            assert(!self@.free().contains(i as int));
            assert forall|k: int| 0 <= k < self.local@.len() implies self.local@[k] != i by {
                assert(self@.free()[k] == self.local@[k]);
            }
            assert forall|k: int| 0 <= k < self.remote@.len() implies self.remote@[k] != i by {
                assert(self@.free()[self.local@.len() + k] == self.remote@[k]);
            }
        }
        let item: Option<T> = self.slots[i].vacate();
        if local {
            self.slots[i].set_next(self.local_head);
            self.local_head = i;
            self.local = Ghost(seq![i as int] + self.local@);
        } else {
            self.slots[i].set_next(self.remote_head);
            self.remote_head = i;
            self.remote = Ghost(seq![i as int] + self.remote@);
        }
        proof {
            assert(self@ =~= old(self)@.free_slot::<C>(i as int, local));
            old(self).lemma_list_extended(*self, i as int, old(self).local@, self.local@);
            old(self).lemma_list_extended(*self, i as int, old(self).remote@, self.remote@);
        }
        item.unwrap()
    }

    /// Whether a key of generation `gen` leads to a value in slot `i`.
    fn is_present(&self, i: usize, gen: Generation<C>) -> (r: bool)
        requires
            self.wf(),
            i < self@.slots.len(),
        ensures
            r == self@.slots[i as int].is_present(gen.number()),
            r ==> self.slots@.len() > 0,
    {
        i < self.slots.len() && self.slots[i].is_present(gen)
    }

    /// Adds a reference to the value in slot `i`, if a key of generation `gen`
    /// leads to it and there can be another reference.
    pub(crate) fn get(&mut self, i: usize, gen: Generation<C>) -> (r: bool)
        requires
            old(self).wf(),
            i < old(self)@.slots.len(),
        ensures
            final(self).wf(),
            r == (old(self)@.slots[i as int].is_present(gen.number())
                && old(self)@.slots[i as int].can_share::<C>()),
            final(self)@ == (if r {
                old(self)@.set(i as int, old(self)@.slots[i as int].share())
            } else {
                old(self)@
            }),
    {
        if !self.is_present(i, gen) {
            return false;
        }
        let ghost before: Self = *self;
        let r: bool = self.slots[i].share();
        proof {
            self.lemma_slot_changed(before, i as int);
        }
        r
    }

    /// Lets one hold the value in slot `i` alone, if a key of generation `gen`
    /// leads to it and nobody holds it.
    pub(crate) fn get_mut(&mut self, i: usize, gen: Generation<C>) -> (r: Result<(), GetMutError>)
        requires
            old(self).wf(),
            i < old(self)@.slots.len(),
        ensures
            final(self).wf(),
            match r {
                Ok(()) => {
                    &&& old(self)@.slots[i as int].is_present(gen.number())
                    &&& !old(self)@.slots[i as int].is_held()
                    &&& final(self)@ == old(self)@.set(
                        i as int,
                        old(self)@.slots[i as int].lock(),
                    )
                },
                Err(GetMutError::Absent) => {
                    &&& !old(self)@.slots[i as int].is_present(gen.number())
                    &&& final(self)@ == old(self)@
                },
                Err(GetMutError::InUse) => {
                    &&& old(self)@.slots[i as int].is_present(gen.number())
                    &&& old(self)@.slots[i as int].is_held()
                    &&& final(self)@ == old(self)@
                },
            },
    {
        if !self.is_present(i, gen) {
            return Err(GetMutError::Absent);
        }
        if self.slots[i].is_held() {
            return Err(GetMutError::InUse);
        }
        let ghost before: Self = *self;
        self.slots[i].lock();
        proof {
            self.lemma_slot_changed(before, i as int);
        }
        Ok(())
    }

    /// Takes a holder of the value in slot `i` away.
    pub(crate) fn release(&mut self, i: usize, local: bool)
        requires
            old(self).wf(),
            i < old(self)@.slots.len(),
            old(self)@.slots[i as int].is_held(),
        ensures
            final(self).wf(),
            final(self)@ == old(self)@.release::<C>(i as int, local),
    {
        let ghost before: Self = *self;
        proof {
            assert(before@.slots[i as int].wf::<C>());
        }
        if self.slots[i].is_freed_by_release() {
            let _ = self.free_slot(i, local);
        } else {
            self.slots[i].unhold();
            proof {
                self.lemma_slot_changed(before, i as int);
            }
        }
    }

    /// Removes the value in slot `i`, if a key of generation `gen` leads to it.
    pub(crate) fn remove(&mut self, i: usize, gen: Generation<C>, local: bool) -> (r: bool)
        requires
            old(self).wf(),
            i < old(self)@.slots.len(),
        ensures
            final(self).wf(),
            r == old(self)@.slots[i as int].is_present(gen.number()),
            final(self)@ == (if r {
                old(self)@.remove::<C>(i as int, local)
            } else {
                old(self)@
            }),
    {
        if !self.is_present(i, gen) {
            return false;
        }
        if self.slots[i].is_held() {
            let ghost before: Self = *self;
            self.slots[i].set_state(State::Marked);
            proof {
                assert(before@.slots[i as int].wf::<C>());
                self.lemma_slot_changed(before, i as int);
            }
        } else {
            let _ = self.free_slot(i, local);
        }
        true
    }

    /// Takes the value out of slot `i`, if a key of generation `gen` leads to it.
    /// Where the value is held, only a claim to it is laid.
    pub(crate) fn take(&mut self, i: usize, gen: Generation<C>, local: bool) -> (r: Option<
        Option<T>,
    >)
        requires
            old(self).wf(),
            i < old(self)@.slots.len(),
        ensures
            final(self).wf(),
            match r {
                None => {
                    &&& !old(self)@.slots[i as int].is_present(gen.number())
                    &&& final(self)@ == old(self)@
                },
                Some(item) => {
                    &&& old(self)@.slots[i as int].is_present(gen.number())
                    &&& item is None <==> old(self)@.slots[i as int].is_held()
                    &&& item is Some ==> item == old(self)@.slots[i as int].item
                    &&& final(self)@ == old(self)@.take::<C>(i as int, local)
                },
            },
    {
        if !self.is_present(i, gen) {
            return None;
        }
        let ghost before: Self = *self;
        proof {
            assert(before@.slots[i as int].wf::<C>());
        }
        if self.slots[i].is_held() {
            self.slots[i].set_state(State::Claimed);
            proof {
                self.lemma_slot_changed(before, i as int);
            }
            Some(None)
        } else {
            Some(Some(self.free_slot(i, local)))
        }
    }

    /// Takes the value out of slot `i`, which there is a claim to. Nothing
    /// happens where the value is still held.
    pub(crate) fn redeem(&mut self, i: usize, local: bool) -> (r: Option<T>)
        requires
            old(self).wf(),
            i < old(self)@.slots.len(),
            old(self)@.slots[i as int].state == State::Claimed,
        ensures
            final(self).wf(),
            match r {
                Some(value) => {
                    &&& !old(self)@.slots[i as int].is_held()
                    &&& old(self)@.slots[i as int].item == Some(value)
                    &&& final(self)@ == old(self)@.free_slot::<C>(i as int, local)
                },
                None => {
                    &&& old(self)@.slots[i as int].is_held()
                    &&& final(self)@ == old(self)@
                },
            },
    {
        proof {
            assert(self@.slots[i as int].wf::<C>());
        }
        if self.slots[i].is_held() {
            None
        } else {
            Some(self.free_slot(i, local))
        }
    }

    /// The value in slot `i`.
    pub(crate) fn value(&self, i: usize) -> (r: &T)
        requires
            self.wf(),
            i < self@.slots.len(),
            self@.slots[i as int].state != State::Vacant,
        ensures
            Some(*r) == self@.slots[i as int].item,
    {
        proof {
            assert(self@.slots[i as int].wf::<C>());
        }
        self.slots[i].value()
    }

    /// The value in slot `i`, to be changed in place.
    pub(crate) fn value_mut(&mut self, i: usize) -> (r: &mut T)
        requires
            old(self).wf(),
            i < old(self)@.slots.len(),
            old(self)@.slots[i as int].state != State::Vacant,
        ensures
            final(self).wf(),
            Some(*r) == old(self)@.slots[i as int].item,
            final(self)@ == old(self)@.set(
                i as int,
                old(self)@.slots[i as int].with_item(*final(r)),
            ),
    {
        let ghost before: Self = *self;
        proof {
            assert(self@.slots[i as int].wf::<C>());
            assert forall|after: Self| after.is_changed_at(before, i as int) implies {
                &&& #[trigger] after.wf()
                &&& after@ == before@.set(i as int, after.slots@[i as int]@)
            } by {
                after.lemma_slot_changed(before, i as int);
            }
        }
        self.slots[i].value_mut()
    }

    /// Adds the values on the page that can be looked up to `out`.
    pub(crate) fn push_values<'a>(&'a self, out: &mut Vec<&'a T>)
        requires
            self.wf(),
        ensures
            final(out)@.unref() == old(out)@.unref() + slot_values(self@.slots),
    {
        let mut i: usize = 0;
        while i < self.slots.len()
            invariant
                self.wf(),
                i <= self.slots@.len(),
                out@.unref() == old(out)@.unref() + slot_values(self@.slots.take(i as int)),
            decreases self.slots@.len() - i,
        {
            let ghost before: Seq<T> = out@.unref();
            proof {
                assert(self@.slots.take(i + 1).drop_last() =~= self@.slots.take(i as int));
                assert(self@.slots[i as int].wf::<C>());
            }
            if self.slots[i].is_shown() {
                out.push(self.slots[i].value());
                assert(out@.unref() =~= before.push(self@.slots[i as int].item->0));
            }
            i = i + 1;
        }
        proof {
            if self.slots@.len() > 0 {
                assert(self@.slots.take(i as int) =~= self@.slots);
            } else {
                assert(self@.slots.take(i as int) =~= Seq::empty());
                no_values_in_vacant_slots(self@.slots);
            }
        }
    }
}

/// Why a value could not be got to be changed.
#[derive(Clone, Copy, Debug, PartialEq, Eq)]
pub enum GetMutError {
    /// The key leads to no value.
    Absent,
    /// Someone holds the value.
    InUse,
}

} // verus!
