//! What every operation does to a slab, field by field.

use crate::cfg::{
    addr_len,
    ceil_log2,
    fields_have_the_configured_lengths,
    gen_len,
    gen_shift,
    max_shards,
    page_size,
    pages_have_the_configured_sizes,
    prev_size,
    ref_len,
    state_len,
    tid_len,
    valid,
    Config,
    DefaultConfig,
};
use crate::key::{key_of_has_parts, lemma_key_parts};
use crate::laws::{lemma_next_key, lemma_slot_exists};
use crate::model::{
    generations,
    in_range,
    is_first_vacancy,
    is_full,
    key_addr,
    key_gen,
    key_of,
    key_page,
    key_slot,
    key_tid,
    max_refs,
    page_insert_keeps_wf,
    page_of,
    shard_wf,
    unused_slab,
    Holders,
    PageModel,
    SlabModel,
    State,
};
use crate::pack::Pack;
use crate::page::slot::{lemma_counts, lemma_next_gen, Generation, RefCount};
use crate::page::{lemma_in_page, lemma_page_of, lemma_prev_size, Addr};
use crate::tid::Tid;
use vstd::arithmetic::power2::pow2;
use vstd::prelude::*;

verus! {

/// Whether two slabs have the same pages, but for the slot in place `i` of page
/// `p` of shard `t` and the free lists of that page.
pub open spec fn same_but_slot<T>(
    s1: SlabModel<T>,
    s2: SlabModel<T>,
    t: int,
    p: int,
    i: int,
) -> bool {
    &&& s2.shards.len() == s1.shards.len()
    &&& forall|u: int|
        0 <= u < s1.shards.len() ==> (#[trigger] s2.shards[u]).len() == s1.shards[u].len()
    &&& forall|u: int, q: int|
        0 <= u < s1.shards.len() && 0 <= q < s1.shards[u].len() && (u != t || q != p)
            ==> #[trigger] s2.shards[u][q] == s1.shards[u][q]
    &&& s2.shards[t][p].slots.len() == s1.shards[t][p].slots.len()
    &&& forall|j: int|
        0 <= j < s1.shards[t][p].slots.len() && j != i ==> #[trigger] s2.shards[t][p].slots[j]
            == s1.shards[t][p].slots[j]
}

/// How many generations a slot has and how many references to a value there can
/// be, by the constants of the configuration.
pub proof fn counts_follow_from_config<C: Config>()
    requires
        valid::<C>(),
    ensures
        ({
            let shift = C::MAX_PAGES + ceil_log2(C::INITIAL_PAGE_SIZE as nat) + ceil_log2(
                C::MAX_THREADS as nat,
            );
            &&& generations::<C>() == pow2((usize::BITS - shift - 2) as nat) - 1
            &&& max_refs::<C>() == pow2(shift as nat) - 2
        }),
{
    fields_have_the_configured_lengths::<C>();
    lemma_counts::<C>();
}

/// The fields that a key and the word of a slot are made of, by the constants of
/// the configuration.
pub proof fn fields_have_their_places<C: Config>()
    requires
        valid::<C>(),
    ensures
        ({
            let below = C::MAX_PAGES + ceil_log2(C::INITIAL_PAGE_SIZE as nat) + 1;
            let shift = below + ceil_log2(C::MAX_THREADS as nat) + 1;
            &&& Addr::<C>::field_shift() == 0
            &&& Addr::<C>::field_len() == below
            &&& Tid::<C>::field_shift() == below
            &&& Tid::<C>::field_len() == shift - below
            &&& Generation::<C>::field_shift() == shift
            &&& Generation::<C>::field_len() == usize::BITS - shift
            &&& RefCount::<C>::field_shift() == 2
            &&& RefCount::<C>::field_len() == shift - 2
        }),
{
    fields_have_the_configured_lengths::<C>();
    assert(Addr::<C>::field_shift() == 0);
    assert(Addr::<C>::field_len() == addr_len::<C>());
    assert(Tid::<C>::field_shift() == addr_len::<C>());
    assert(Tid::<C>::field_len() == tid_len::<C>());
    assert(Generation::<C>::field_shift() == gen_shift::<C>());
    assert(Generation::<C>::field_len() == gen_len::<C>());
    assert(RefCount::<C>::field_shift() == state_len());
    assert(RefCount::<C>::field_len() == ref_len::<C>());
}

/// With the default configuration a slot has three generations where a word has 32
/// bits, and `2^18 - 1` where it has 64.
pub proof fn default_generations()
    ensures
        usize::BITS == 64 ==> generations::<DefaultConfig>() == 0x3_ffff,
        usize::BITS == 32 ==> generations::<DefaultConfig>() == 3,
{
    crate::cfg::default_config_is_valid();
    vstd::arithmetic::power2::lemma2_to64();
}

/// A key is the sum of an address, a thread's number and a generation, each with
/// bits of its own, and leads to the slot with that place in the slab. It leads to
/// a value just if that slot has one that was not removed, of that generation.
pub proof fn key_leads_to_its_slot<T, C: Config>(
    s: SlabModel<T>,
    t: nat,
    p: nat,
    i: nat,
    gen: nat,
)
    requires
        valid::<C>(),
        s.wf::<C>(),
        t < max_shards::<C>(),
        p < C::MAX_PAGES,
        i < page_size::<C>(p),
        gen < pow2(gen_len::<C>()),
    ensures
        ({
            let below = C::MAX_PAGES + ceil_log2(C::INITIAL_PAGE_SIZE as nat) + 1;
            let shift = below + ceil_log2(C::MAX_THREADS as nat) + 1;
            let number = page_size::<C>(0) * (pow2(p) - 1) + i + t * pow2(below as nat) + gen
                * pow2(shift as nat);
            let key = number as usize;
            let slot = s.shards[t as int][p as int].slots[i as int];
            &&& number <= usize::MAX
            &&& key_of::<C>(t, p, i, gen) == number
            &&& in_range::<C>(key)
            &&& key_tid::<C>(key) == t
            &&& key_page::<C>(key) == p
            &&& key_slot::<C>(key) == i
            &&& key_gen::<C>(key) == gen
            &&& s.page::<C>(key) == s.shards[t as int][p as int]
            &&& s.slot::<C>(key) == slot
            &&& s.contains::<C>(key) <==> slot.state == State::Present && slot.gen == gen
            &&& s.live::<C>().dom().contains(key) <==> slot.state == State::Present && slot.gen
                == gen
            &&& slot.state == State::Present && slot.gen == gen ==> slot.item == Some(
                s.live::<C>()[key],
            )
        }),
{
    fields_have_the_configured_lengths::<C>();
    pages_have_the_configured_sizes::<C>(p);
    key_of_has_parts::<C>(t, p, i, gen);
    lemma_slot_exists::<T, C>(s, key_of::<C>(t, p, i, gen) as usize);
}

/// Every key that leads to a slot is of that form.
pub proof fn every_key_has_a_place<C: Config>(key: usize)
    requires
        valid::<C>(),
    ensures
        key_gen::<C>(key) < pow2(gen_len::<C>()),
        key == page_size::<C>(0) * (pow2(key_page::<C>(key)) - 1) + key_slot::<C>(key)
            + key_tid::<C>(key) * pow2(addr_len::<C>()) + key_gen::<C>(key) * pow2(
            gen_shift::<C>(),
        ),
        key_slot::<C>(key) < page_size::<C>(key_page::<C>(key)),
        in_range::<C>(key) <==> key_tid::<C>(key) < max_shards::<C>() && key_page::<C>(key)
            < C::MAX_PAGES,
{
    lemma_key_parts::<C>(key);
    lemma_in_page::<C>(key_addr::<C>(key));
    lemma_prev_size::<C>(key_page::<C>(key));
    pages_have_the_configured_sizes::<C>(key_page::<C>(key));
    crate::pack::lemma_field_bound(key as nat, gen_shift::<C>(), gen_len::<C>());
}

/// An address is on the page whose slots have the addresses around it: those from
/// the number of slots on all pages before it on.
pub proof fn page_of_address<C: Config>(addr: nat, page: nat)
    ensures
        page_of::<C>(addr) == page <==> page_size::<C>(0) * (pow2(page) - 1) <= addr < page_size::<
            C,
        >(0) * (pow2(page + 1) - 1),
{
    pages_have_the_configured_sizes::<C>(page);
    pages_have_the_configured_sizes::<C>(page + 1);
    lemma_in_page::<C>(addr);
    if prev_size::<C>(page) <= addr < prev_size::<C>(page + 1) {
        lemma_page_of::<C>(addr, page);
    }
}

/// When a value can be looked up, and who holds it, by the fields of its slot.
pub proof fn lookups_depend_on_slot<T, C: Config>(s: SlabModel<T>, key: usize)
    requires
        valid::<C>(),
        s.wf::<C>(),
    ensures
        ({
            let slot = s.slot::<C>(key);
            let most = pow2(
                (C::MAX_PAGES + ceil_log2(C::INITIAL_PAGE_SIZE as nat) + ceil_log2(
                    C::MAX_THREADS as nat,
                )) as nat,
            ) - 2;
            &&& slot.is_held() <==> slot.holders != Holders::Shared(0)
            &&& s.contains::<C>(key) <==> in_range::<C>(key) && slot.state == State::Present
                && slot.gen == key_gen::<C>(key)
            &&& s.can_get::<C>(key) <==> s.contains::<C>(key) && (
            slot.holders matches Holders::Shared(n) && n < most)
            &&& s.can_get_mut::<C>(key) <==> s.contains::<C>(key) && slot.holders
                == Holders::Shared(0)
            &&& s.is_shared::<C>(key) <==> in_range::<C>(key) && slot.gen == key_gen::<C>(key)
                && (slot.holders matches Holders::Shared(n) && n > 0)
            &&& s.is_locked::<C>(key) <==> in_range::<C>(key) && slot.gen == key_gen::<C>(key)
                && slot.holders == Holders::Exclusive
            &&& s.is_marked::<C>(key) <==> in_range::<C>(key) && slot.gen == key_gen::<C>(key)
                && slot.state == State::Marked
            &&& s.is_claimed::<C>(key) <==> in_range::<C>(key) && slot.gen == key_gen::<C>(key)
                && slot.state == State::Claimed
            &&& slot.item matches Some(value) ==> s.held_value::<C>(key) == value
            &&& s.live::<C>().dom().contains(key) <==> s.contains::<C>(key)
            &&& s.contains::<C>(key) ==> slot.item == Some(s.live::<C>()[key])
        }),
{
    counts_follow_from_config::<C>();
    if in_range::<C>(key) {
        lemma_slot_exists::<T, C>(s, key);
    }
}

/// All slots of a slab that was never used are vacant and of the first generation,
/// and are free in the order of their places.
pub proof fn unused_slab_is_vacant<T, C: Config>(t: int, p: int)
    requires
        0 <= t < max_shards::<C>(),
        0 <= p < C::MAX_PAGES,
    ensures
        unused_slab::<T, C>().shards.len() == max_shards::<C>(),
        unused_slab::<T, C>().shards[t].len() == C::MAX_PAGES,
        ({
            let page = unused_slab::<T, C>().shards[t][p];
            &&& page.slots.len() == page_size::<C>(0) * pow2(p as nat)
            &&& forall|i: int|
                0 <= i < page.slots.len() ==> {
                    let slot = #[trigger] page.slots[i];
                    &&& slot.gen == 0
                    &&& slot.state == State::Vacant
                    &&& slot.holders == Holders::Shared(0)
                    &&& slot.item is None
                }
            &&& page.local.len() == page.slots.len()
            &&& forall|i: int| 0 <= i < page.local.len() ==> #[trigger] page.local[i] == i
            &&& page.remote.len() == 0
        }),
{
    pages_have_the_configured_sizes::<C>(p as nat);
}

/// A page has room just if one of its slots is vacant.
pub proof fn room_is_a_vacant_slot<T, C: Config>(page: PageModel<T>)
    requires
        page.wf::<C>(),
    ensures
        page.has_vacancy() <==> exists|i: int|
            0 <= i < page.slots.len() && (#[trigger] page.slots[i]).state == State::Vacant,
{
    if page.has_vacancy() {
        let i: int = page.free()[0];
        assert(page.free().contains(i));
        assert(page.slots[i].state == State::Vacant);
    }
    if exists|i: int|
        0 <= i < page.slots.len() && (#[trigger] page.slots[i]).state == State::Vacant {
        let i: int = choose|i: int|
            0 <= i < page.slots.len() && (#[trigger] page.slots[i]).state == State::Vacant;
        assert(page.free().contains(i));
    }
}

/// A thread can put a value in just if one of the slots of its shard is vacant. It
/// goes to the first page that has one.
pub proof fn first_page_with_a_vacant_slot<T, C: Config>(pages: Seq<PageModel<T>>, page: int)
    requires
        shard_wf::<T, C>(pages),
    ensures
        is_first_vacancy(pages, page) <==> {
            &&& 0 <= page < pages.len()
            &&& exists|i: int|
                0 <= i < pages[page].slots.len() && (#[trigger] pages[page].slots[i]).state
                    == State::Vacant
            &&& forall|q: int, i: int|
                0 <= q < page && 0 <= i < pages[q].slots.len() ==> (
                #[trigger] pages[q].slots[i]).state != State::Vacant
        },
        is_full(pages) <==> forall|q: int, i: int|
            0 <= q < pages.len() && 0 <= i < pages[q].slots.len() ==> (
            #[trigger] pages[q].slots[i]).state != State::Vacant,
{
    assert forall|q: int| 0 <= q < pages.len() implies ((#[trigger] pages[q]).has_vacancy() <==>
        exists|i: int|
        0 <= i < pages[q].slots.len() && (#[trigger] pages[q].slots[i]).state == State::Vacant) by {
        room_is_a_vacant_slot::<T, C>(pages[q]);
    }
    crate::laws::full_means_no_vacant_slot::<T, C>(pages);
}

/// A value that is put in goes to one vacant slot, which keeps its generation and
/// is held by nobody, and the key that is given out leads there. The slot is the
/// one that the owner of the shard freed last or, where there is none, that others
/// freed last, and is no longer free.
pub proof fn insert_fills_one_slot<T, C: Config>(s: SlabModel<T>, t: nat, p: nat, value: T)
    requires
        valid::<C>(),
        s.wf::<C>(),
        t < max_shards::<C>(),
        p < C::MAX_PAGES,
        s.shards[t as int][p as int].has_vacancy(),
    ensures
        ({
            let after = s.insert(t as int, p as int, value);
            let key = s.next_key::<C>(t as int, p as int) as usize;
            let i = key_slot::<C>(key) as int;
            let page1 = s.shards[t as int][p as int];
            let page2 = after.shards[t as int][p as int];
            let slot1 = page1.slots[i];
            let slot2 = page2.slots[i];
            &&& s.next_key::<C>(t as int, p as int) <= usize::MAX
            &&& key_tid::<C>(key) == t
            &&& key_page::<C>(key) == p
            &&& key_gen::<C>(key) == slot1.gen
            &&& 0 <= i < page1.slots.len()
            &&& same_but_slot(s, after, t as int, p as int, i)
            &&& slot1.state == State::Vacant
            &&& slot2.state == State::Present
            &&& slot2.gen == slot1.gen
            &&& slot2.holders == Holders::Shared(0)
            &&& slot2.item == Some(value)
            &&& page1.local.len() > 0 ==> page1.local == seq![i] + page2.local && page2.remote
                == page1.remote
            &&& page1.local.len() == 0 ==> page1.remote == seq![i] + page2.local
                && page2.remote.len() == 0
        }),
{
    assert(shard_wf::<T, C>(s.shards[t as int]));
    let page: PageModel<T> = s.shards[t as int][p as int];
    page_insert_keeps_wf::<T, C>(page, value);
    lemma_next_key::<T, C>(s, t, p);
    assert(page.slots[page.next_slot()].wf::<C>());
    let after: PageModel<T> = s.insert(t as int, p as int, value).shards[t as int][p as int];
    if page.local.len() > 0 {
        assert(page.local =~= seq![page.next_slot()] + after.local);
    } else {
        assert(page.remote =~= seq![page.next_slot()] + after.local);
    }
}

/// Looking a value up adds one to those who hold it in common, or makes one hold
/// it alone, and changes nothing else. Changing it changes the value alone.
pub proof fn lookups_change_holders_alone<T, C: Config>(s: SlabModel<T>, key: usize, value: T)
    requires
        valid::<C>(),
        s.wf::<C>(),
        in_range::<C>(key),
    ensures
        ({
            let (t, p, i) = (
                key_tid::<C>(key) as int,
                key_page::<C>(key) as int,
                key_slot::<C>(key) as int,
            );
            let page1 = s.shards[t][p];
            let slot1 = page1.slots[i];
            &&& s.can_get::<C>(key) ==> {
                let after = s.get::<C>(key);
                let slot2 = after.shards[t][p].slots[i];
                &&& same_but_slot(s, after, t, p, i)
                &&& after.shards[t][p].local == page1.local
                &&& after.shards[t][p].remote == page1.remote
                &&& slot1.holders matches Holders::Shared(n) && slot2.holders == Holders::Shared(
                    n + 1,
                )
                &&& slot2.gen == slot1.gen
                &&& slot2.state == slot1.state
                &&& slot2.item == slot1.item
            }
            &&& s.can_get_mut::<C>(key) ==> {
                let after = s.get_mut::<C>(key);
                let slot2 = after.shards[t][p].slots[i];
                &&& same_but_slot(s, after, t, p, i)
                &&& after.shards[t][p].local == page1.local
                &&& after.shards[t][p].remote == page1.remote
                &&& slot2.holders == Holders::Exclusive
                &&& slot2.gen == slot1.gen
                &&& slot2.state == slot1.state
                &&& slot2.item == slot1.item
            }
            &&& s.is_locked::<C>(key) ==> {
                let after = s.change::<C>(key, value);
                let slot2 = after.shards[t][p].slots[i];
                &&& same_but_slot(s, after, t, p, i)
                &&& after.shards[t][p].local == page1.local
                &&& after.shards[t][p].remote == page1.remote
                &&& slot2.holders == slot1.holders
                &&& slot2.gen == slot1.gen
                &&& slot2.state == slot1.state
                &&& slot2.item == Some(value)
            }
        }),
{
    lemma_slot_exists::<T, C>(s, key);
}

/// Letting go of a value takes away exactly one of its holders, whatever has become
/// of the value, and changes nothing else. Only where the value was removed and
/// that was the last holder, the value goes and its slot is free again.
pub proof fn release_takes_one_holder_away<T, C: Config>(s: SlabModel<T>, tid: nat, key: usize)
    requires
        valid::<C>(),
        s.wf::<C>(),
        s.is_shared::<C>(key) || s.is_locked::<C>(key),
    ensures
        ({
            let (t, p, i) = (
                key_tid::<C>(key) as int,
                key_page::<C>(key) as int,
                key_slot::<C>(key) as int,
            );
            let after = s.release::<C>(tid, key);
            let (page1, page2) = (s.shards[t][p], after.shards[t][p]);
            let (slot1, slot2) = (page1.slots[i], page2.slots[i]);
            let left = match slot1.holders {
                Holders::Shared(n) => n - 1,
                Holders::Exclusive => 0,
            };
            &&& same_but_slot(s, after, t, p, i)
            &&& if slot1.state == State::Marked && left == 0 {
                &&& slot2.gen == (if slot1.gen + 1 == generations::<C>() {
                    0
                } else {
                    slot1.gen + 1
                })
                &&& slot2.state == State::Vacant
                &&& slot2.holders == Holders::Shared(0)
                &&& slot2.item is None
                &&& page2.local == (if tid == t {
                    seq![i] + page1.local
                } else {
                    page1.local
                })
                &&& page2.remote == (if tid == t {
                    page1.remote
                } else {
                    seq![i] + page1.remote
                })
            } else {
                &&& slot2.gen == slot1.gen
                &&& slot2.state == slot1.state
                &&& slot2.item == slot1.item
                &&& slot2.holders == Holders::Shared(left as nat)
                &&& page2.local == page1.local
                &&& page2.remote == page1.remote
            }
        }),
{
    lemma_slot_exists::<T, C>(s, key);
    lemma_next_gen::<C>(s.slot::<C>(key).gen);
}

/// Removing or taking a value that is held changes what has become of it and
/// nothing else: those who hold it still do, whichever thread removes or takes it.
pub proof fn removal_leaves_holders_alone<T, C: Config>(s: SlabModel<T>, tid: nat, key: usize)
    requires
        valid::<C>(),
        s.wf::<C>(),
        s.contains::<C>(key),
        s.slot::<C>(key).holders != Holders::Shared(0),
    ensures
        ({
            let (t, p, i) = (
                key_tid::<C>(key) as int,
                key_page::<C>(key) as int,
                key_slot::<C>(key) as int,
            );
            let (removed, taken) = (s.remove::<C>(tid, key), s.take::<C>(tid, key));
            let page1 = s.shards[t][p];
            let (page2, page3) = (removed.shards[t][p], taken.shards[t][p]);
            let (slot1, slot2, slot3) = (page1.slots[i], page2.slots[i], page3.slots[i]);
            &&& same_but_slot(s, removed, t, p, i)
            &&& same_but_slot(s, taken, t, p, i)
            &&& slot2.state == State::Marked
            &&& slot3.state == State::Claimed
            &&& slot2.holders == slot1.holders
            &&& slot3.holders == slot1.holders
            &&& slot2.gen == slot1.gen
            &&& slot3.gen == slot1.gen
            &&& slot2.item == slot1.item
            &&& slot3.item == slot1.item
            &&& page2.local == page1.local
            &&& page3.local == page1.local
            &&& page2.remote == page1.remote
            &&& page3.remote == page1.remote
        }),
{
    lemma_slot_exists::<T, C>(s, key);
}

/// Removing or taking a value that nobody holds, and redeeming one, frees its slot
/// at once: the value is gone, the slot goes on to the next generation, and is the
/// first to be free for the owner of the shard or, where another thread frees it,
/// the first of those that others have freed.
pub proof fn removal_frees_slot<T, C: Config>(s: SlabModel<T>, tid: nat, key: usize)
    requires
        valid::<C>(),
        s.wf::<C>(),
        s.contains::<C>(key) || s.is_claimed::<C>(key),
        s.slot::<C>(key).holders == Holders::Shared(0),
    ensures
        ({
            let (t, p, i) = (
                key_tid::<C>(key) as int,
                key_page::<C>(key) as int,
                key_slot::<C>(key) as int,
            );
            let after = if s.contains::<C>(key) {
                s.remove::<C>(tid, key)
            } else {
                s.redeem::<C>(tid, key)
            };
            let (page1, page2) = (s.shards[t][p], after.shards[t][p]);
            let (slot1, slot2) = (page1.slots[i], page2.slots[i]);
            &&& s.contains::<C>(key) ==> s.take::<C>(tid, key) == after
            &&& same_but_slot(s, after, t, p, i)
            &&& slot2.gen == (if slot1.gen + 1 == generations::<C>() {
                0
            } else {
                slot1.gen + 1
            })
            &&& slot2.state == State::Vacant
            &&& slot2.holders == Holders::Shared(0)
            &&& slot2.item is None
            &&& page2.local == (if tid == t {
                seq![i] + page1.local
            } else {
                page1.local
            })
            &&& page2.remote == (if tid == t {
                page1.remote
            } else {
                seq![i] + page1.remote
            })
        }),
{
    lemma_slot_exists::<T, C>(s, key);
    lemma_next_gen::<C>(s.slot::<C>(key).gen);
}

} // verus!
