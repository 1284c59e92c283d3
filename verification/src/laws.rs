//! What holds of a slab, whatever is done with it.

use crate::cfg::{max_shards, valid, Config};
use crate::key::{key_of_has_parts, lemma_key_parts};
use crate::model::{
    in_range,
    is_first_vacancy,
    is_full,
    key_addr,
    key_gen,
    key_page,
    key_slot,
    key_tid,
    max_refs,
    shard_wf,
    unused_slab,
    unused_slab_is_wf,
    Holders,
    PageModel,
    SlabModel,
    SlotModel,
    State,
};
use crate::page::slot::{lemma_counts, lemma_next_gen};
use crate::page::{lemma_in_page, lemma_prev_size};
use crate::steps::{step_keeps_wf, Step};
use vstd::prelude::*;

verus! {

/// Whether two keys lead to the same slot.
pub open spec fn same_slot<C: Config>(a: usize, b: usize) -> bool {
    &&& key_tid::<C>(a) == key_tid::<C>(b)
    &&& key_page::<C>(a) == key_page::<C>(b)
    &&& key_slot::<C>(a) == key_slot::<C>(b)
}

/// Keys that lead to the same slot and are of the same generation are the same.
pub proof fn keys_are_unique<C: Config>(a: usize, b: usize)
    requires
        valid::<C>(),
        same_slot::<C>(a, b),
        key_gen::<C>(a) == key_gen::<C>(b),
    ensures
        a == b,
{
    lemma_key_parts::<C>(a);
    lemma_key_parts::<C>(b);
}

/// A key that is in range leads to a slot that there is.
pub proof fn lemma_slot_exists<T, C: Config>(s: SlabModel<T>, key: usize)
    requires
        valid::<C>(),
        s.wf::<C>(),
        in_range::<C>(key),
    ensures
        key_tid::<C>(key) < s.shards.len(),
        key_page::<C>(key) < s.shards[key_tid::<C>(key) as int].len(),
        key_slot::<C>(key) < s.page::<C>(key).slots.len(),
        s.page::<C>(key).wf::<C>(),
        s.slot::<C>(key).wf::<C>(),
{
    lemma_in_page::<C>(key_addr::<C>(key));
    lemma_prev_size::<C>(key_page::<C>(key));
    assert(shard_wf::<T, C>(s.shards[key_tid::<C>(key) as int]));
}

/// Whether slab `s2` has on the page that `key` leads to the slots of `s1` with
/// the one that `key` leads to changed to `slot`, and all other pages of `s1`.
pub open spec fn changes_slot<T, C: Config>(
    s1: SlabModel<T>,
    s2: SlabModel<T>,
    key: usize,
    slot: SlotModel<T>,
) -> bool {
    &&& s2 == s1.with_page::<C>(key, s2.page::<C>(key))
    &&& s2.page::<C>(key).slots == s1.page::<C>(key).slots.update(key_slot::<C>(key) as int, slot)
}

/// A change to one slot leaves all other slots as they are.
pub proof fn lemma_other_slots_kept<T, C: Config>(
    s1: SlabModel<T>,
    s2: SlabModel<T>,
    key: usize,
    slot: SlotModel<T>,
)
    requires
        valid::<C>(),
        s1.wf::<C>(),
        in_range::<C>(key),
        changes_slot::<T, C>(s1, s2, key, slot),
    ensures
        s2.slot::<C>(key) == slot,
        forall|k: usize|
            in_range::<C>(k) && !same_slot::<C>(k, key) ==> #[trigger] s2.slot::<C>(k)
                == s1.slot::<C>(k),
        forall|k: usize|
            in_range::<C>(k) && same_slot::<C>(k, key) ==> #[trigger] s2.slot::<C>(k) == slot,
{
    lemma_slot_exists::<T, C>(s1, key);
    assert forall|k: usize|
        in_range::<C>(k) && !same_slot::<C>(k, key) implies
        #[trigger] s2.slot::<C>(k) == s1.slot::<C>(k) by {
        lemma_slot_exists::<T, C>(s1, k);
    }
}

/// A change to one slot changes what keys lead to as follows: the key of the
/// value that was there no longer leads to it, and the key of the one that is
/// there now does.
proof fn lemma_live_changed<T, C: Config>(
    s1: SlabModel<T>,
    s2: SlabModel<T>,
    key: usize,
    slot: SlotModel<T>,
)
    requires
        valid::<C>(),
        s1.wf::<C>(),
        in_range::<C>(key),
        changes_slot::<T, C>(s1, s2, key, slot),
        s1.slot::<C>(key).gen == key_gen::<C>(key),
        slot.state == State::Present ==> slot.gen == key_gen::<C>(key),
    ensures
        s2.live::<C>() == (if slot.state == State::Present {
            s1.live::<C>().insert(key, slot.item->0)
        } else {
            s1.live::<C>().remove(key)
        }),
{
    lemma_other_slots_kept::<T, C>(s1, s2, key, slot);
    let expected: Map<usize, T> = if slot.state == State::Present {
        s1.live::<C>().insert(key, slot.item->0)
    } else {
        s1.live::<C>().remove(key)
    };
    assert forall|k: usize| s2.contains::<C>(k) <==> expected.dom().contains(k) by {
        if in_range::<C>(k) && same_slot::<C>(k, key) && key_gen::<C>(k) == key_gen::<C>(key) {
            keys_are_unique::<C>(k, key);
        }
        if in_range::<C>(k) && !same_slot::<C>(k, key) {
            assert(s2.slot::<C>(k) == s1.slot::<C>(k));
        }
    }
    assert forall|k: usize| s2.contains::<C>(k) implies s2.live::<C>()[k] == expected[k] by {
        if same_slot::<C>(k, key) {
            keys_are_unique::<C>(k, key);
        }
    }
    assert(s2.live::<C>() =~= expected);
}

/// The next value that is put on a page gets a key, which leads to the slot that
/// the value goes to, and leads to no value before.
pub proof fn lemma_next_key<T, C: Config>(s: SlabModel<T>, tid: nat, page: nat)
    requires
        valid::<C>(),
        s.wf::<C>(),
        tid < max_shards::<C>(),
        page < C::MAX_PAGES,
        s.shards[tid as int][page as int].has_vacancy(),
    ensures
        s.next_key::<C>(tid as int, page as int) <= usize::MAX,
        ({
            let key = s.next_key::<C>(tid as int, page as int) as usize;
            &&& in_range::<C>(key)
            &&& key_tid::<C>(key) == tid
            &&& key_page::<C>(key) == page
            &&& key_slot::<C>(key) == s.shards[tid as int][page as int].next_slot()
            &&& s.slot::<C>(key).gen == key_gen::<C>(key)
            &&& s.slot::<C>(key).state == State::Vacant
        }),
{
    assert(shard_wf::<T, C>(s.shards[tid as int]));
    let p: PageModel<T> = s.shards[tid as int][page as int];
    assert(p.free()[0] == p.next_slot());
    assert(p.free().contains(p.next_slot()));
    assert(p.slots[p.next_slot()].wf::<C>());
    lemma_counts::<C>();
    key_of_has_parts::<C>(tid, page, p.next_slot() as nat, p.slots[p.next_slot()].gen);
}

/// In a slab that was never used no key leads to a value.
pub proof fn unused_slab_has_no_values<T, C: Config>()
    requires
        valid::<C>(),
    ensures
        unused_slab::<T, C>().live::<C>() == Map::<usize, T>::empty(),
{
    let s: SlabModel<T> = unused_slab::<T, C>();
    unused_slab_is_wf::<T, C>();
    assert forall|key: usize| !s.contains::<C>(key) by {
        if in_range::<C>(key) {
            lemma_slot_exists::<T, C>(s, key);
        }
    }
    assert(s.live::<C>() =~= Map::<usize, T>::empty());
}

/// What is put into a slab can be looked up under a key that led nowhere before,
/// and nothing else changes.
pub proof fn insert_adds_value<T, C: Config>(
    s: SlabModel<T>,
    tid: nat,
    page: nat,
    value: T,
    key: usize,
)
    requires
        valid::<C>(),
        s.wf::<C>(),
        tid < max_shards::<C>(),
        page < C::MAX_PAGES,
        s.shards[tid as int][page as int].has_vacancy(),
        key == s.next_key::<C>(tid as int, page as int),
    ensures
        !s.contains::<C>(key),
        s.insert(tid as int, page as int, value).live::<C>() == s.live::<C>().insert(key, value),
        s.insert(tid as int, page as int, value).can_get::<C>(key),
        s.insert(tid as int, page as int, value).can_get_mut::<C>(key),
        key_tid::<C>(key) == tid,
        key_page::<C>(key) == page,
{
    lemma_next_key::<T, C>(s, tid, page);
    lemma_slot_exists::<T, C>(s, key);
    lemma_counts::<C>();
    let s2: SlabModel<T> = s.insert(tid as int, page as int, value);
    let slot: SlotModel<T> = s.slot::<C>(key).fill(value);
    assert(s2 =~= s.with_page::<C>(key, s2.page::<C>(key)));
    lemma_live_changed::<T, C>(s, s2, key, slot);
    lemma_other_slots_kept::<T, C>(s, s2, key, slot);
}

/// Looking a value up, or letting go of one, changes nothing that keys lead to.
pub proof fn holding_keeps_values<T, C: Config>(s: SlabModel<T>, key: usize, tid: nat)
    requires
        valid::<C>(),
        s.wf::<C>(),
    ensures
        s.can_get::<C>(key) ==> s.get::<C>(key).live::<C>() == s.live::<C>(),
        s.can_get_mut::<C>(key) ==> s.get_mut::<C>(key).live::<C>() == s.live::<C>(),
        s.is_shared::<C>(key) || s.is_locked::<C>(key) ==> s.release::<C>(tid, key).live::<C>()
            == s.live::<C>(),
        s.is_claimed::<C>(key) ==> s.redeem::<C>(tid, key).live::<C>() == s.live::<C>(),
{
    if in_range::<C>(key) && s.slot::<C>(key).gen == key_gen::<C>(key) {
        lemma_slot_exists::<T, C>(s, key);
        let slot: SlotModel<T> = s.slot::<C>(key);
        assert(slot.state == State::Present ==> s.live::<C>().insert(key, slot.item->0)
            =~= s.live::<C>());
        assert(slot.state != State::Present ==> s.live::<C>().remove(key) =~= s.live::<C>());
        if s.can_get::<C>(key) {
            lemma_live_changed::<T, C>(s, s.get::<C>(key), key, slot.share());
        }
        if s.can_get_mut::<C>(key) {
            lemma_live_changed::<T, C>(s, s.get_mut::<C>(key), key, slot.lock());
        }
        if s.is_shared::<C>(key) || s.is_locked::<C>(key) {
            let s2: SlabModel<T> = s.release::<C>(tid, key);
            lemma_live_changed::<T, C>(s, s2, key, s2.slot::<C>(key));
        }
        if s.is_claimed::<C>(key) {
            lemma_live_changed::<T, C>(s, s.redeem::<C>(tid, key), key, slot.vacate::<C>());
        }
    }
}

/// A value that was removed or taken can no longer be looked up, held or not,
/// and everything else still can.
pub proof fn removal_removes_value<T, C: Config>(s: SlabModel<T>, key: usize, tid: nat)
    requires
        valid::<C>(),
        s.wf::<C>(),
        s.contains::<C>(key),
    ensures
        s.remove::<C>(tid, key).live::<C>() == s.live::<C>().remove(key),
        s.take::<C>(tid, key).live::<C>() == s.live::<C>().remove(key),
{
    lemma_slot_exists::<T, C>(s, key);
    let s2: SlabModel<T> = s.remove::<C>(tid, key);
    lemma_live_changed::<T, C>(s, s2, key, s2.slot::<C>(key));
    let s3: SlabModel<T> = s.take::<C>(tid, key);
    lemma_live_changed::<T, C>(s, s3, key, s3.slot::<C>(key));
}

/// A value that is changed in place is the new value for the key that leads to
/// it, if there still is one, and nothing else changes.
pub proof fn change_replaces_value<T, C: Config>(s: SlabModel<T>, key: usize, value: T)
    requires
        valid::<C>(),
        s.wf::<C>(),
        s.is_locked::<C>(key),
    ensures
        s.change::<C>(key, value).live::<C>() == (if s.contains::<C>(key) {
            s.live::<C>().insert(key, value)
        } else {
            s.live::<C>()
        }),
{
    lemma_slot_exists::<T, C>(s, key);
    let slot: SlotModel<T> = s.slot::<C>(key).with_item(value);
    lemma_live_changed::<T, C>(s, s.change::<C>(key, value), key, slot);
    assert(!s.contains::<C>(key) ==> s.live::<C>().remove(key) =~= s.live::<C>());
}

/// Letting go of a value undoes looking it up.
pub proof fn release_undoes_get<T, C: Config>(s: SlabModel<T>, key: usize, tid: nat)
    requires
        valid::<C>(),
        s.wf::<C>(),
    ensures
        s.can_get::<C>(key) ==> s.get::<C>(key).is_shared::<C>(key) && s.get::<C>(key).release::<C>(
            tid,
            key,
        ) == s,
        s.can_get_mut::<C>(key) ==> s.get_mut::<C>(key).is_locked::<C>(key) && s.get_mut::<C>(
            key,
        ).release::<C>(tid, key) == s,
{
    if s.contains::<C>(key) {
        lemma_slot_exists::<T, C>(s, key);
        let t: int = key_tid::<C>(key) as int;
        let p: int = key_page::<C>(key) as int;
        let i: int = key_slot::<C>(key) as int;
        let slot: SlotModel<T> = s.slot::<C>(key);
        let page: PageModel<T> = s.page::<C>(key);
        assert(slot.holders is Shared ==> slot.share().unhold() == slot);
        assert(slot.lock().unhold() == slot || slot.is_held());
        assert(page.set(i, slot.share()).set(i, slot) =~= page);
        assert(page.set(i, slot.lock()).set(i, slot) =~= page);
        lemma_set_page_twice(s, t, p, page.set(i, slot.share()), page);
        lemma_set_page_twice(s, t, p, page.set(i, slot.lock()), page);
    }
}

/// Of two changes to a page the second one counts, and putting a page back that
/// was there changes nothing.
proof fn lemma_set_page_twice<T>(
    s: SlabModel<T>,
    t: int,
    p: int,
    new: PageModel<T>,
    back: PageModel<T>,
)
    requires
        0 <= t < s.shards.len(),
        0 <= p < s.shards[t].len(),
        back == s.shards[t][p],
    ensures
        s.set_page(t, p, new).set_page(t, p, back) == s,
{
    assert(s.shards[t].update(p, new).update(p, back) =~= s.shards[t]);
    assert(s.set_page(t, p, new).set_page(t, p, back).shards =~= s.shards);
}

/// The slab after `n` references to the value that `key` leads to were added.
pub open spec fn get_times<T, C: Config>(s: SlabModel<T>, key: usize, n: nat) -> SlabModel<T>
    decreases n,
{
    if n == 0 {
        s
    } else {
        get_times::<T, C>(s, key, (n - 1) as nat).get::<C>(key)
    }
}

/// Of a value that nobody holds, just as many references can be had as there can
/// be, and one more when one of them was given back.
pub proof fn references_are_limited<T, C: Config>(s: SlabModel<T>, key: usize, n: nat, tid: nat)
    requires
        valid::<C>(),
        s.wf::<C>(),
        s.contains::<C>(key),
        !s.slot::<C>(key).is_held(),
        n <= max_refs::<C>(),
    ensures
        get_times::<T, C>(s, key, n).can_get::<C>(key) <==> n < max_refs::<C>(),
        get_times::<T, C>(s, key, n).live::<C>() == s.live::<C>(),
        n > 0 ==> get_times::<T, C>(s, key, n).release::<C>(tid, key).can_get::<C>(key),
    decreases n,
{
    lemma_get_times::<T, C>(s, key, n);
    if n > 0 {
        let before: SlabModel<T> = get_times::<T, C>(s, key, (n - 1) as nat);
        references_are_limited::<T, C>(s, key, (n - 1) as nat, tid);
        lemma_get_times::<T, C>(s, key, (n - 1) as nat);
        holding_keeps_values::<T, C>(before, key, tid);
        release_undoes_get::<T, C>(before, key, tid);
    }
}

proof fn lemma_get_times<T, C: Config>(s: SlabModel<T>, key: usize, n: nat)
    requires
        valid::<C>(),
        s.wf::<C>(),
        s.contains::<C>(key),
        !s.slot::<C>(key).is_held(),
        n <= max_refs::<C>(),
    ensures
        get_times::<T, C>(s, key, n).wf::<C>(),
        get_times::<T, C>(s, key, n).slot::<C>(key) == (SlotModel {
            holders: Holders::Shared(n),
            ..s.slot::<C>(key)
        }),
    decreases n,
{
    if n > 0 {
        let before: SlabModel<T> = get_times::<T, C>(s, key, (n - 1) as nat);
        lemma_get_times::<T, C>(s, key, (n - 1) as nat);
        lemma_slot_exists::<T, C>(before, key);
        step_keeps_wf::<T, C>(before, Step::Get { key });
    }
}

/// Nobody else can have a value while one holds it alone, and nobody can have it
/// alone while anyone holds it.
pub proof fn exclusion<T, C: Config>(s: SlabModel<T>, key: usize)
    requires
        valid::<C>(),
        s.wf::<C>(),
    ensures
        s.is_locked::<C>(key) ==> !s.can_get::<C>(key) && !s.can_get_mut::<C>(key),
        s.is_shared::<C>(key) ==> !s.can_get_mut::<C>(key),
        s.can_get_mut::<C>(key) ==> s.can_get::<C>(key),
        s.can_get::<C>(key) ==> !s.get::<C>(key).can_get_mut::<C>(key),
        s.can_get_mut::<C>(key) ==> !s.get_mut::<C>(key).can_get::<C>(key) && !s.get_mut::<C>(
            key,
        ).can_get_mut::<C>(key),
{
    lemma_counts::<C>();
    if in_range::<C>(key) {
        lemma_slot_exists::<T, C>(s, key);
    }
}

/// A value that is removed is dropped at once, unless it is held. Then it is
/// still there, though no key leads to it, until the last holder lets go of it.
pub proof fn removed_value_is_dropped<T, C: Config>(s: SlabModel<T>, key: usize, tid: nat, by: nat)
    requires
        valid::<C>(),
        s.wf::<C>(),
        s.contains::<C>(key),
    ensures
        !s.slot::<C>(key).is_held() ==> s.remove::<C>(by, key).slot::<C>(key).item is None,
        s.slot::<C>(key).is_held() ==> s.remove::<C>(by, key).slot::<C>(key).item == s.slot::<C>(
            key,
        ).item,
        s.slot::<C>(key).is_held() && !s.slot::<C>(key).unhold().is_held() ==> s.remove::<C>(
            by,
            key,
        ).release::<C>(tid, key).slot::<C>(key).item is None,
        !s.remove::<C>(by, key).contains::<C>(key),
{
    lemma_slot_exists::<T, C>(s, key);
    lemma_next_gen::<C>(key_gen::<C>(key));
    removal_removes_value::<T, C>(s, key, by);
}

/// A value that is taken while it is held can be redeemed when the last holder
/// has let go of it, and is the value that was there.
pub proof fn claimed_value_is_handed_over<T, C: Config>(
    s: SlabModel<T>,
    key: usize,
    tid: nat,
    by: nat,
)
    requires
        valid::<C>(),
        s.wf::<C>(),
        s.contains::<C>(key),
        s.slot::<C>(key).is_held(),
    ensures
        s.take::<C>(by, key).is_claimed::<C>(key),
        s.take::<C>(by, key).slot::<C>(key).item == s.slot::<C>(key).item,
        !s.slot::<C>(key).unhold().is_held() ==> {
            let after = s.take::<C>(by, key).release::<C>(tid, key);
            &&& after.is_claimed::<C>(key)
            &&& !after.slot::<C>(key).is_held()
            &&& after.slot::<C>(key).item == s.slot::<C>(key).item
        },
{
    lemma_slot_exists::<T, C>(s, key);
}

/// The slot of a value that is removed or taken by the thread that owns the shard
/// is the one that this thread's next value goes to, under another key, if all
/// pages before it are full.
pub proof fn freed_slot_is_reused<T, C: Config>(s: SlabModel<T>, key: usize)
    requires
        valid::<C>(),
        s.wf::<C>(),
        s.contains::<C>(key),
        !s.slot::<C>(key).is_held(),
        forall|q: int|
            0 <= q < key_page::<C>(key) ==> !(
            #[trigger] s.shards[key_tid::<C>(key) as int][q]).has_vacancy(),
    ensures
        ({
            let t = key_tid::<C>(key);
            let p = key_page::<C>(key);
            let after = s.remove::<C>(t, key);
            let new = after.next_key::<C>(t as int, p as int) as usize;
            &&& after == s.take::<C>(t, key)
            &&& is_first_vacancy(after.shards[t as int], p as int)
            &&& same_slot::<C>(new, key)
            &&& new != key
        }),
{
    lemma_slot_exists::<T, C>(s, key);
    let t: nat = key_tid::<C>(key);
    let p: nat = key_page::<C>(key);
    let after: SlabModel<T> = s.remove::<C>(t, key);
    step_keeps_wf::<T, C>(s, Step::Remove { tid: t, key });
    lemma_next_gen::<C>(key_gen::<C>(key));
    assert(after.shards[t as int][p as int].next_slot() == key_slot::<C>(key));
    lemma_next_key::<T, C>(after, t, p);
}

/// A shard is full just if every slot of every page of it holds a value.
pub proof fn full_means_no_vacant_slot<T, C: Config>(pages: Seq<PageModel<T>>)
    requires
        shard_wf::<T, C>(pages),
    ensures
        is_full(pages) <==> forall|p: int, i: int|
            0 <= p < pages.len() && 0 <= i < pages[p].slots.len() ==> (
            #[trigger] pages[p].slots[i]).state != State::Vacant,
{
    assert forall|p: int, i: int|
        is_full(pages) && 0 <= p < pages.len() && 0 <= i < pages[p].slots.len() implies (
    #[trigger] pages[p].slots[i]).state != State::Vacant by {
        assert(!pages[p].has_vacancy());
        assert(pages[p].free() =~= Seq::empty());
    }
    if forall|p: int, i: int|
        0 <= p < pages.len() && 0 <= i < pages[p].slots.len() ==> (
        #[trigger] pages[p].slots[i]).state != State::Vacant {
        assert forall|p: int| 0 <= p < pages.len() implies !(#[trigger] pages[p]).has_vacancy() by {
            if pages[p].has_vacancy() {
                let i: int = pages[p].free()[0];
                assert(pages[p].free().contains(i));
                assert(pages[p].slots[i].state == State::Vacant);
            }
        }
    }
}

} // verus!
