//! The mathematical model of a slab, which the contracts speak of.

use crate::cfg::{
    addr_len,
    gen_len,
    gen_shift,
    max_shards,
    page_size,
    prev_size,
    ref_len,
    tid_len,
    valid,
    Config,
};
use crate::pack::field;
use vstd::arithmetic::power2::pow2;
use vstd::prelude::*;

verus! {

/// Whether page `page` of a shard holds the slot at address `addr`.
pub open spec fn in_page<C: Config>(addr: nat, page: nat) -> bool {
    prev_size::<C>(page) <= addr < prev_size::<C>(page + 1)
}

/// The number of the page that holds the slot at address `addr`.
pub open spec fn page_of<C: Config>(addr: nat) -> nat {
    choose|page: nat| in_page::<C>(addr, page)
}

/// The number of the thread whose shard a key leads to.
pub open spec fn key_tid<C: Config>(key: usize) -> nat {
    field(key as nat, addr_len::<C>(), tid_len::<C>())
}

/// The address within its shard that a key leads to.
pub open spec fn key_addr<C: Config>(key: usize) -> nat {
    field(key as nat, 0, addr_len::<C>())
}

/// The generation of the value that a key stands for.
pub open spec fn key_gen<C: Config>(key: usize) -> nat {
    field(key as nat, gen_shift::<C>(), gen_len::<C>())
}

/// The number of the page that a key leads to.
pub open spec fn key_page<C: Config>(key: usize) -> nat {
    page_of::<C>(key_addr::<C>(key))
}

/// The number of the slot that a key leads to within its page.
pub open spec fn key_slot<C: Config>(key: usize) -> nat {
    (key_addr::<C>(key) - prev_size::<C>(key_page::<C>(key))) as nat
}

/// The key of slot number `slot` on page `page` of shard `tid`, at generation `gen`.
pub open spec fn key_of<C: Config>(tid: nat, page: nat, slot: nat, gen: nat) -> nat {
    prev_size::<C>(page) + slot + tid * pow2(addr_len::<C>()) + gen * pow2(gen_shift::<C>())
}

/// Whether there is a slot that a key leads to, whatever that slot holds.
pub open spec fn in_range<C: Config>(key: usize) -> bool {
    key_tid::<C>(key) < max_shards::<C>() && key_page::<C>(key) < C::MAX_PAGES
}

/// How many references to a value can be held at a time.
pub open spec fn max_refs<C: Config>() -> nat {
    (pow2(ref_len::<C>()) - 2) as nat
}

/// How many generations a slot goes through before they start over.
pub open spec fn generations<C: Config>() -> nat {
    (pow2(gen_len::<C>()) - 1) as nat
}

/// The generation that follows `gen`.
pub open spec fn next_gen<C: Config>(gen: nat) -> nat {
    (gen + 1) % generations::<C>()
}

/// What has become of the value in a slot.
#[derive(Clone, Copy, Debug, PartialEq, Eq, Structural)]
pub enum State {
    /// The slot holds a value that can be looked up.
    Present,
    /// The value was removed while it was held: it can no longer be looked up,
    /// and is dropped when the last holder lets go of it.
    Marked,
    /// The value was taken while it was held: it can no longer be looked up, and
    /// goes to the one who took it when the last holder has let go of it.
    Claimed,
    /// The slot holds no value and is on a free list.
    Vacant,
}

/// Who holds the value in a slot.
pub enum Holders {
    /// So many hold it in common.
    Shared(nat),
    /// One holds it alone.
    Exclusive,
}

/// A slot.
#[verifier::ext_equal]
pub struct SlotModel<T> {
    pub gen: nat,
    pub state: State,
    pub holders: Holders,
    pub item: Option<T>,
}

/// A slot that was never used.
pub open spec fn unused_slot<T>() -> SlotModel<T> {
    SlotModel { gen: 0, state: State::Vacant, holders: Holders::Shared(0), item: None }
}

impl<T> SlotModel<T> {
    /// A slot holds a value unless it is vacant, nobody holds a vacant slot, and
    /// a value marked for removal is there for its holders alone.
    pub open spec fn wf<C: Config>(self) -> bool {
        &&& self.gen < generations::<C>()
        &&& self.holders matches Holders::Shared(n) ==> n <= max_refs::<C>()
        &&& self.item is Some <==> self.state != State::Vacant
        &&& self.state == State::Vacant ==> !self.is_held()
        &&& self.state == State::Marked ==> self.is_held()
    }

    /// Whether anyone holds the value.
    pub open spec fn is_held(self) -> bool {
        self.holders != Holders::Shared(0)
    }

    /// Whether a key of generation `gen` leads to the value.
    pub open spec fn is_present(self, gen: nat) -> bool {
        self.state == State::Present && self.gen == gen
    }

    /// Whether one more can hold the value in common with the others.
    pub open spec fn can_share<C: Config>(self) -> bool {
        self.holders matches Holders::Shared(n) && n < max_refs::<C>()
    }

    /// The slot with one more holder.
    pub open spec fn share(self) -> Self {
        SlotModel { holders: Holders::Shared(self.holders->0 + 1), ..self }
    }

    /// The slot with one holder who has the value alone.
    pub open spec fn lock(self) -> Self {
        SlotModel { holders: Holders::Exclusive, ..self }
    }

    /// The slot with one holder less.
    pub open spec fn unhold(self) -> Self {
        SlotModel {
            holders: match self.holders {
                Holders::Shared(n) => Holders::Shared((n - 1) as nat),
                Holders::Exclusive => Holders::Shared(0),
            },
            ..self
        }
    }

    /// The slot in another state.
    pub open spec fn with_state(self, state: State) -> Self {
        SlotModel { state, ..self }
    }

    /// The slot with `value` in place of the value that it holds.
    pub open spec fn with_item(self, value: T) -> Self {
        SlotModel { item: Some(value), ..self }
    }

    /// The slot with `value` put into it.
    pub open spec fn fill(self, value: T) -> Self {
        SlotModel { state: State::Present, item: Some(value), ..self }
    }

    /// The slot without its value, ready for the next one. Keys of the
    /// generation that ends here lead nowhere.
    pub open spec fn vacate<C: Config>(self) -> Self {
        SlotModel {
            gen: next_gen::<C>(self.gen),
            state: State::Vacant,
            holders: Holders::Shared(0),
            item: None,
        }
    }
}

/// A page: its slots, and the numbers of those that are free. A slot that is
/// freed by the thread that owns the shard goes to the `local` list, one that is
/// freed by another thread goes to the `remote` list. Both are last in, first
/// out.
#[verifier::ext_equal]
pub struct PageModel<T> {
    pub slots: Seq<SlotModel<T>>,
    pub local: Seq<int>,
    pub remote: Seq<int>,
}

/// A page of `size` slots that was never used.
pub open spec fn unused_page<T>(size: nat) -> PageModel<T> {
    PageModel {
        slots: Seq::new(size, |i: int| unused_slot::<T>()),
        local: Seq::new(size, |i: int| i),
        remote: Seq::empty(),
    }
}

impl<T> PageModel<T> {
    /// The free lists name each vacant slot once, and no other slot.
    pub open spec fn wf<C: Config>(self) -> bool {
        &&& forall|i: int| 0 <= i < self.slots.len() ==> (#[trigger] self.slots[i]).wf::<C>()
        &&& self.free().no_duplicates()
        &&& forall|i: int|
            #![trigger self.slots[i]]
            #![trigger self.free().contains(i)]
            self.free().contains(i) <==> 0 <= i < self.slots.len() && self.slots[i].state
                == State::Vacant
    }

    /// The numbers of the free slots.
    pub open spec fn free(self) -> Seq<int> {
        self.local + self.remote
    }

    /// Whether there is a free slot.
    pub open spec fn has_vacancy(self) -> bool {
        self.local.len() > 0 || self.remote.len() > 0
    }

    /// The number of the slot that the next value goes to: what was freed last
    /// on the local list or, where that is empty, on the remote list.
    pub open spec fn next_slot(self) -> int {
        if self.local.len() > 0 {
            self.local[0]
        } else {
            self.remote[0]
        }
    }

    /// The page with another slot `i`.
    pub open spec fn set(self, i: int, slot: SlotModel<T>) -> Self {
        PageModel { slots: self.slots.update(i, slot), ..self }
    }

    /// The page with `value` put into its next free slot. Where the local list
    /// is empty, the remote list takes its place.
    pub open spec fn insert(self, value: T) -> Self {
        let i = self.next_slot();
        PageModel {
            slots: self.slots.update(i, self.slots[i].fill(value)),
            local: if self.local.len() > 0 {
                self.local.drop_first()
            } else {
                self.remote.drop_first()
            },
            remote: if self.local.len() > 0 {
                self.remote
            } else {
                Seq::empty()
            },
        }
    }

    /// The page with slot `i` vacated and put on a free list.
    pub open spec fn free_slot<C: Config>(self, i: int, local: bool) -> Self {
        PageModel {
            slots: self.slots.update(i, self.slots[i].vacate::<C>()),
            local: if local {
                seq![i] + self.local
            } else {
                self.local
            },
            remote: if local {
                self.remote
            } else {
                seq![i] + self.remote
            },
        }
    }

    /// The page after a holder of the value in slot `i` has let go of it. The
    /// last one to do so frees the slot if it was marked for that.
    pub open spec fn release<C: Config>(self, i: int, local: bool) -> Self {
        let slot = self.slots[i].unhold();
        if slot.state == State::Marked && !slot.is_held() {
            self.free_slot::<C>(i, local)
        } else {
            self.set(i, slot)
        }
    }

    /// The page after the value in slot `i` was removed: at once, or when the
    /// last holder lets go of it.
    pub open spec fn remove<C: Config>(self, i: int, local: bool) -> Self {
        if self.slots[i].is_held() {
            self.set(i, self.slots[i].with_state(State::Marked))
        } else {
            self.free_slot::<C>(i, local)
        }
    }

    /// The page after the value in slot `i` was taken: at once, or by a claim
    /// to it when the last holder has let go of it.
    pub open spec fn take<C: Config>(self, i: int, local: bool) -> Self {
        if self.slots[i].is_held() {
            self.set(i, self.slots[i].with_state(State::Claimed))
        } else {
            self.free_slot::<C>(i, local)
        }
    }
}

/// A value can be put on a page that has a free slot, and the page stays well
/// formed.
pub proof fn page_insert_keeps_wf<T, C: Config>(page: PageModel<T>, value: T)
    requires
        page.wf::<C>(),
        page.has_vacancy(),
    ensures
        0 <= page.next_slot() < page.slots.len(),
        page.slots[page.next_slot()].state == State::Vacant,
        page.insert(value).wf::<C>(),
{
    let i: int = page.next_slot();
    let new: PageModel<T> = page.insert(value);
    assert(page.free()[0] == i);
    assert(page.free().contains(i));
    assert(new.free() =~= page.free().drop_first());
    assert forall|j: int|
        #![trigger new.slots[j]]
        #![trigger new.free().contains(j)]
        new.free().contains(j) <==> 0 <= j < new.slots.len() && new.slots[j].state
            == State::Vacant by {
        if new.free().contains(j) {
            let k: int = choose|k: int| 0 <= k < new.free().len() && new.free()[k] == j;
            assert(page.free()[k + 1] == j);
            assert(page.free().contains(j));
        }
        if 0 <= j < new.slots.len() && new.slots[j].state == State::Vacant {
            assert(page.slots[j].state == State::Vacant);
            assert(page.free().contains(j));
            let k: int = choose|k: int| 0 <= k < page.free().len() && page.free()[k] == j;
            assert(new.free()[k - 1] == j);
        }
    }
}

/// A slot that holds a value can be freed, and the page stays well formed.
pub proof fn page_free_slot_keeps_wf<T, C: Config>(page: PageModel<T>, i: int, local: bool)
    requires
        valid::<C>(),
        page.wf::<C>(),
        0 <= i < page.slots.len(),
        page.slots[i].state != State::Vacant,
    ensures
        page.free_slot::<C>(i, local).wf::<C>(),
{
    let new: PageModel<T> = page.free_slot::<C>(i, local);
    let at: int = if local {
        0
    } else {
        page.local.len() as int
    };
    crate::page::slot::lemma_counts::<C>();
    assert(!page.free().contains(i));
    assert(new.free() =~= page.free().insert(at, i));
    assert forall|j: int|
        #![trigger new.slots[j]]
        #![trigger new.free().contains(j)]
        new.free().contains(j) <==> 0 <= j < new.slots.len() && new.slots[j].state
            == State::Vacant by {
        if new.free().contains(j) && j != i {
            let k: int = choose|k: int| 0 <= k < new.free().len() && new.free()[k] == j;
            assert(page.free()[if k < at {
                k
            } else {
                k - 1
            }] == j);
            assert(page.free().contains(j));
        }
        if 0 <= j < new.slots.len() && new.slots[j].state == State::Vacant {
            if j == i {
                assert(new.free()[at] == i);
            } else {
                assert(page.slots[j].state == State::Vacant);
                assert(page.free().contains(j));
                let k: int = choose|k: int| 0 <= k < page.free().len() && page.free()[k] == j;
                assert(new.free()[if k < at {
                    k
                } else {
                    k + 1
                }] == j);
            }
        }
    }
}

/// A slot that holds a value can be changed into another that does, and the
/// page stays well formed.
pub proof fn page_set_keeps_wf<T, C: Config>(page: PageModel<T>, i: int, slot: SlotModel<T>)
    requires
        page.wf::<C>(),
        0 <= i < page.slots.len(),
        page.slots[i].state != State::Vacant,
        slot.wf::<C>(),
        slot.state != State::Vacant,
    ensures
        page.set(i, slot).wf::<C>(),
{
    let new: PageModel<T> = page.set(i, slot);
    assert(new.free() =~= page.free());
    assert forall|j: int|
        #![trigger new.slots[j]]
        #![trigger new.free().contains(j)]
        new.free().contains(j) <==> 0 <= j < new.slots.len() && new.slots[j].state
            == State::Vacant by {
        assert(page.free().contains(j) <==> 0 <= j < page.slots.len() && page.slots[j].state
            == State::Vacant);
    }
}

/// A shard, as the sequence of its pages, that was never used.
pub open spec fn unused_shard<T, C: Config>() -> Seq<PageModel<T>> {
    Seq::new(C::MAX_PAGES as nat, |p: int| unused_page::<T>(page_size::<C>(p as nat)))
}

/// A shard has every page of its configuration, each of its own size.
pub open spec fn shard_wf<T, C: Config>(pages: Seq<PageModel<T>>) -> bool {
    &&& pages.len() == C::MAX_PAGES
    &&& forall|p: int|
        0 <= p < pages.len() ==> (#[trigger] pages[p]).wf::<C>() && pages[p].slots.len()
            == page_size::<C>(p as nat)
}

/// A page that was never used is well formed.
pub proof fn unused_page_is_wf<T, C: Config>(size: nat)
    requires
        valid::<C>(),
    ensures
        unused_page::<T>(size).wf::<C>(),
        unused_page::<T>(size).slots.len() == size,
{
    let page: PageModel<T> = unused_page::<T>(size);
    crate::page::slot::lemma_counts::<C>();
    assert forall|i: int|
        #![trigger page.slots[i]]
        #![trigger page.free().contains(i)]
        page.free().contains(i) <==> 0 <= i < page.slots.len() && page.slots[i].state
            == State::Vacant by {
        if 0 <= i < size {
            assert(page.free()[i] == i);
        }
    }
}

/// A shard that was never used is well formed.
pub proof fn unused_shard_is_wf<T, C: Config>()
    requires
        valid::<C>(),
    ensures
        shard_wf::<T, C>(unused_shard::<T, C>()),
{
    let pages: Seq<PageModel<T>> = unused_shard::<T, C>();
    assert forall|p: int| 0 <= p < pages.len() implies (#[trigger] pages[p]).wf::<C>()
        && pages[p].slots.len() == page_size::<C>(p as nat) by {
        unused_page_is_wf::<T, C>(page_size::<C>(p as nat));
    }
}

/// Whether page `page` is the first of `pages` to have a free slot.
pub open spec fn is_first_vacancy<T>(pages: Seq<PageModel<T>>, page: int) -> bool {
    &&& 0 <= page < pages.len()
    &&& pages[page].has_vacancy()
    &&& forall|q: int| 0 <= q < page ==> !(#[trigger] pages[q]).has_vacancy()
}

/// Whether none of `pages` has a free slot.
pub open spec fn is_full<T>(pages: Seq<PageModel<T>>) -> bool {
    forall|q: int| 0 <= q < pages.len() ==> !(#[trigger] pages[q]).has_vacancy()
}

/// The values that can be looked up in `slots`, in order.
pub open spec fn slot_values<T>(slots: Seq<SlotModel<T>>) -> Seq<T>
    decreases slots.len(),
{
    if slots.len() == 0 {
        Seq::empty()
    } else if slots.last().state == State::Present {
        slot_values(slots.drop_last()).push(slots.last().item->0)
    } else {
        slot_values(slots.drop_last())
    }
}

/// The values that can be looked up on `pages`, in order.
pub open spec fn page_values<T>(pages: Seq<PageModel<T>>) -> Seq<T>
    decreases pages.len(),
{
    if pages.len() == 0 {
        Seq::empty()
    } else {
        page_values(pages.drop_last()) + slot_values(pages.last().slots)
    }
}

/// The values that can be looked up in `shards`, in order.
pub open spec fn shard_values<T>(shards: Seq<Seq<PageModel<T>>>) -> Seq<T>
    decreases shards.len(),
{
    if shards.len() == 0 {
        Seq::empty()
    } else {
        shard_values(shards.drop_last()) + page_values(shards.last())
    }
}

/// A slab that was never used is well formed.
pub proof fn unused_slab_is_wf<T, C: Config>()
    requires
        valid::<C>(),
    ensures
        unused_slab::<T, C>().wf::<C>(),
{
    unused_shard_is_wf::<T, C>();
}

/// There are no values in slots that are all vacant.
pub proof fn no_values_in_vacant_slots<T>(slots: Seq<SlotModel<T>>)
    requires
        forall|i: int| 0 <= i < slots.len() ==> (#[trigger] slots[i]).state == State::Vacant,
    ensures
        slot_values(slots) == Seq::<T>::empty(),
    decreases slots.len(),
{
    if slots.len() > 0 {
        no_values_in_vacant_slots(slots.drop_last());
    }
}

/// There are no values on pages whose slots are all vacant.
pub proof fn no_values_on_vacant_pages<T>(pages: Seq<PageModel<T>>)
    requires
        forall|p: int, i: int|
            0 <= p < pages.len() && 0 <= i < pages[p].slots.len() ==> (
            #[trigger] pages[p].slots[i]).state == State::Vacant,
    ensures
        page_values(pages) == Seq::<T>::empty(),
    decreases pages.len(),
{
    if pages.len() > 0 {
        no_values_on_vacant_pages(pages.drop_last());
        no_values_in_vacant_slots(pages.last().slots);
    }
}

/// Shards that were never used add no values to the ones before them.
pub proof fn no_values_in_unused_shards<T, C: Config>(shards: Seq<Seq<PageModel<T>>>, used: nat)
    requires
        used <= shards.len(),
        forall|t: int|
            used <= t < shards.len() ==> (#[trigger] shards[t]) == unused_shard::<T, C>(),
    ensures
        shard_values(shards) == shard_values(shards.take(used as int)),
    decreases shards.len(),
{
    if used < shards.len() {
        no_values_in_unused_shards::<T, C>(shards.drop_last(), used);
        no_values_on_vacant_pages(shards.last());
        assert(shards.drop_last().take(used as int) =~= shards.take(used as int));
        assert(shard_values(shards) =~= shard_values(shards.drop_last()));
    } else {
        assert(shards.take(used as int) =~= shards);
    }
}

/// A slab: for each thread a shard, each a sequence of pages.
#[verifier::ext_equal]
pub struct SlabModel<T> {
    pub shards: Seq<Seq<PageModel<T>>>,
}

/// A slab that was never used.
pub open spec fn unused_slab<T, C: Config>() -> SlabModel<T> {
    SlabModel { shards: Seq::new(max_shards::<C>(), |t: int| unused_shard::<T, C>()) }
}

impl<T> SlabModel<T> {
    /// A slab has a shard for every thread.
    pub open spec fn wf<C: Config>(self) -> bool {
        &&& self.shards.len() == max_shards::<C>()
        &&& forall|t: int|
            0 <= t < self.shards.len() ==> #[trigger] shard_wf::<T, C>(self.shards[t])
    }

    /// The page that a key leads to.
    pub open spec fn page<C: Config>(self, key: usize) -> PageModel<T> {
        self.shards[key_tid::<C>(key) as int][key_page::<C>(key) as int]
    }

    /// The slot that a key leads to.
    pub open spec fn slot<C: Config>(self, key: usize) -> SlotModel<T> {
        self.page::<C>(key).slots[key_slot::<C>(key) as int]
    }

    /// The slab with page `page` of shard `tid` changed.
    pub open spec fn set_page(self, tid: int, page: int, new: PageModel<T>) -> Self {
        SlabModel { shards: self.shards.update(tid, self.shards[tid].update(page, new)) }
    }

    /// The slab with the page that a key leads to changed.
    pub open spec fn with_page<C: Config>(self, key: usize, new: PageModel<T>) -> Self {
        self.set_page(key_tid::<C>(key) as int, key_page::<C>(key) as int, new)
    }

    /// The slab with the slot that a key leads to changed.
    pub open spec fn with_slot<C: Config>(self, key: usize, new: SlotModel<T>) -> Self {
        self.with_page::<C>(key, self.page::<C>(key).set(key_slot::<C>(key) as int, new))
    }

    /// Whether a key leads to a value.
    pub open spec fn contains<C: Config>(self, key: usize) -> bool {
        in_range::<C>(key) && self.slot::<C>(key).is_present(key_gen::<C>(key))
    }

    /// The values of the slab, by the keys that lead to them.
    pub open spec fn live<C: Config>(self) -> Map<usize, T> {
        Map::new(|key: usize| self.contains::<C>(key), |key: usize| self.slot::<C>(key).item->0)
    }

    /// The values that can be looked up, in the order of their slots.
    pub open spec fn values(self) -> Seq<T> {
        shard_values(self.shards)
    }

    /// Whether the value that a key was given out for is held by a reference,
    /// even if the key no longer leads to it.
    pub open spec fn is_shared<C: Config>(self, key: usize) -> bool {
        &&& in_range::<C>(key)
        &&& self.slot::<C>(key).gen == key_gen::<C>(key)
        &&& self.slot::<C>(key).holders matches Holders::Shared(n) && n > 0
    }

    /// Whether the value that a key was given out for is held by one alone,
    /// even if the key no longer leads to it.
    pub open spec fn is_locked<C: Config>(self, key: usize) -> bool {
        &&& in_range::<C>(key)
        &&& self.slot::<C>(key).gen == key_gen::<C>(key)
        &&& self.slot::<C>(key).holders is Exclusive
    }

    /// The value that a key was given out for, as long as it is there.
    pub open spec fn held_value<C: Config>(self, key: usize) -> T {
        self.slot::<C>(key).item->0
    }

    /// Whether the value that a key was given out for is marked for removal and
    /// still there, for its holders alone.
    pub open spec fn is_marked<C: Config>(self, key: usize) -> bool {
        &&& in_range::<C>(key)
        &&& self.slot::<C>(key).gen == key_gen::<C>(key)
        &&& self.slot::<C>(key).state == State::Marked
    }

    /// Whether there is a claim to the value that a key was given out for.
    pub open spec fn is_claimed<C: Config>(self, key: usize) -> bool {
        &&& in_range::<C>(key)
        &&& self.slot::<C>(key).gen == key_gen::<C>(key)
        &&& self.slot::<C>(key).state == State::Claimed
    }

    /// Whether `get` succeeds.
    pub open spec fn can_get<C: Config>(self, key: usize) -> bool {
        self.contains::<C>(key) && self.slot::<C>(key).can_share::<C>()
    }

    /// The slab after `get` has succeeded.
    pub open spec fn get<C: Config>(self, key: usize) -> Self {
        self.with_slot::<C>(key, self.slot::<C>(key).share())
    }

    /// Whether `get_mut` succeeds.
    pub open spec fn can_get_mut<C: Config>(self, key: usize) -> bool {
        self.contains::<C>(key) && !self.slot::<C>(key).is_held()
    }

    /// The slab after `get_mut` has succeeded.
    pub open spec fn get_mut<C: Config>(self, key: usize) -> Self {
        self.with_slot::<C>(key, self.slot::<C>(key).lock())
    }

    /// The slab after the one who holds the value that `key` was given out for
    /// alone has changed it to `value`.
    pub open spec fn change<C: Config>(self, key: usize, value: T) -> Self {
        self.with_slot::<C>(key, self.slot::<C>(key).with_item(value))
    }

    /// The key that the next value gets which thread `tid` puts on page `page`.
    pub open spec fn next_key<C: Config>(self, tid: int, page: int) -> nat {
        let p = self.shards[tid][page];
        key_of::<C>(tid as nat, page as nat, p.next_slot() as nat, p.slots[p.next_slot()].gen)
    }

    /// The slab after thread `tid` has put `value` on page `page`.
    pub open spec fn insert(self, tid: int, page: int, value: T) -> Self {
        self.set_page(tid, page, self.shards[tid][page].insert(value))
    }

    /// The slab after thread `tid` has let go of the value that `key` was given
    /// out for.
    pub open spec fn release<C: Config>(self, tid: nat, key: usize) -> Self {
        self.with_page::<C>(
            key,
            self.page::<C>(key).release::<C>(
                key_slot::<C>(key) as int,
                tid == key_tid::<C>(key),
            ),
        )
    }

    /// The slab after thread `tid` has removed the value that `key` leads to.
    pub open spec fn remove<C: Config>(self, tid: nat, key: usize) -> Self {
        self.with_page::<C>(
            key,
            self.page::<C>(key).remove::<C>(key_slot::<C>(key) as int, tid == key_tid::<C>(key)),
        )
    }

    /// The slab after thread `tid` has taken the value that `key` leads to.
    pub open spec fn take<C: Config>(self, tid: nat, key: usize) -> Self {
        self.with_page::<C>(
            key,
            self.page::<C>(key).take::<C>(key_slot::<C>(key) as int, tid == key_tid::<C>(key)),
        )
    }

    /// The slab after thread `tid` has got the value that it has a claim to.
    pub open spec fn redeem<C: Config>(self, tid: nat, key: usize) -> Self {
        self.with_page::<C>(
            key,
            self.page::<C>(key).free_slot::<C>(
                key_slot::<C>(key) as int,
                tid == key_tid::<C>(key),
            ),
        )
    }
}

} // verus!
