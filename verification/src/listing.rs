//! The values of a slab, listed one after another.

use crate::cfg::{max_shards, page_size, valid, Config};
use crate::key::key_of_has_parts;
use crate::laws::{keys_are_unique, lemma_slot_exists};
use crate::model::{
    key_of,
    key_page,
    key_slot,
    key_tid,
    page_values,
    shard_values,
    shard_wf,
    slot_values,
    PageModel,
    SlabModel,
    SlotModel,
    State,
};
use crate::page::slot::lemma_counts;
use vstd::prelude::*;

verus! {

/// The keys that lead to the values in `slots`, the slots of page `page` of shard
/// `tid`, in order.
pub open spec fn slot_keys<T, C: Config>(
    tid: nat,
    page: nat,
    slots: Seq<SlotModel<T>>,
) -> Seq<usize>
    decreases slots.len(),
{
    if slots.len() == 0 {
        Seq::empty()
    } else {
        let rest = slot_keys::<T, C>(tid, page, slots.drop_last());
        if slots.last().state == State::Present {
            rest.push(
                key_of::<C>(tid, page, (slots.len() - 1) as nat, slots.last().gen) as usize,
            )
        } else {
            rest
        }
    }
}

/// The keys that lead to the values on `pages`, the pages of shard `tid`, in
/// order.
pub open spec fn page_keys<T, C: Config>(tid: nat, pages: Seq<PageModel<T>>) -> Seq<usize>
    decreases pages.len(),
{
    if pages.len() == 0 {
        Seq::empty()
    } else {
        page_keys::<T, C>(tid, pages.drop_last()) + slot_keys::<T, C>(
            tid,
            (pages.len() - 1) as nat,
            pages.last().slots,
        )
    }
}

/// The keys that lead to the values in `shards`, in order.
pub open spec fn shard_keys<T, C: Config>(shards: Seq<Seq<PageModel<T>>>) -> Seq<usize>
    decreases shards.len(),
{
    if shards.len() == 0 {
        Seq::empty()
    } else {
        shard_keys::<T, C>(shards.drop_last()) + page_keys::<T, C>(
            (shards.len() - 1) as nat,
            shards.last(),
        )
    }
}

/// Whether `key` leads to a value in one of the first `n` slots of page `page` of
/// shard `tid`.
spec fn leads_to<T, C: Config>(s: SlabModel<T>, key: usize, tid: nat, page: nat, n: nat) -> bool {
    &&& s.contains::<C>(key)
    &&& key_tid::<C>(key) == tid
    &&& key_page::<C>(key) == page
    &&& key_slot::<C>(key) < n
}

/// Whether `keys` are, each once, the keys that satisfy `wanted`, and `values`
/// the values that they lead to.
spec fn lists<T, C: Config>(
    s: SlabModel<T>,
    keys: Seq<usize>,
    values: Seq<T>,
    wanted: spec_fn(usize) -> bool,
) -> bool {
    &&& keys.len() == values.len()
    &&& keys.no_duplicates()
    &&& forall|key: usize| #[trigger] keys.contains(key) <==> wanted(key)
    &&& forall|i: int|
        0 <= i < keys.len() ==> s.slot::<C>(#[trigger] keys[i]).item == Some(values[i])
}

/// A list and another one with none of its keys make a list together.
proof fn lemma_lists_join<T, C: Config>(
    s: SlabModel<T>,
    k1: Seq<usize>,
    v1: Seq<T>,
    w1: spec_fn(usize) -> bool,
    k2: Seq<usize>,
    v2: Seq<T>,
    w2: spec_fn(usize) -> bool,
    wanted: spec_fn(usize) -> bool,
)
    requires
        lists::<T, C>(s, k1, v1, w1),
        lists::<T, C>(s, k2, v2, w2),
        forall|key: usize| !(#[trigger] w1(key) && w2(key)),
        forall|key: usize| #[trigger] wanted(key) <==> w1(key) || w2(key),
    ensures
        lists::<T, C>(s, k1 + k2, v1 + v2, wanted),
{
    let keys: Seq<usize> = k1 + k2;
    assert forall|key: usize| #[trigger] keys.contains(key) <==> wanted(key) by {
        if keys.contains(key) {
            let i: int = choose|i: int| 0 <= i < keys.len() && keys[i] == key;
            if i < k1.len() {
                assert(k1[i] == key);
                assert(k1.contains(key));
            } else {
                assert(k2[i - k1.len()] == key);
                assert(k2.contains(key));
            }
        }
        if w1(key) {
            assert(k1.contains(key));
            let i: int = choose|i: int| 0 <= i < k1.len() && k1[i] == key;
            assert(keys[i] == key);
        }
        if w2(key) {
            assert(k2.contains(key));
            let i: int = choose|i: int| 0 <= i < k2.len() && k2[i] == key;
            assert(keys[k1.len() + i] == key);
        }
    }
    assert forall|i: int, j: int|
        0 <= i < keys.len() && 0 <= j < keys.len() && i != j implies keys[i] != keys[j] by {
        if i < k1.len() && j >= k1.len() {
            assert(k1.contains(k1[i]) && k2.contains(k2[j - k1.len()]));
        }
        if j < k1.len() && i >= k1.len() {
            assert(k1.contains(k1[j]) && k2.contains(k2[i - k1.len()]));
        }
    }
    assert forall|i: int| 0 <= i < keys.len() implies s.slot::<C>(#[trigger] keys[i]).item == Some(
        (v1 + v2)[i],
    ) by {
        if i < k1.len() {
            assert(keys[i] == k1[i]);
        } else {
            assert(keys[i] == k2[i - k1.len()]);
        }
    }
}

proof fn lemma_slot_list<T, C: Config>(s: SlabModel<T>, tid: nat, page: nat, n: nat)
    requires
        valid::<C>(),
        s.wf::<C>(),
        tid < max_shards::<C>(),
        page < C::MAX_PAGES,
        n <= page_size::<C>(page),
    ensures
        lists::<T, C>(
            s,
            slot_keys::<T, C>(tid, page, s.shards[tid as int][page as int].slots.take(n as int)),
            slot_values(s.shards[tid as int][page as int].slots.take(n as int)),
            |key: usize| leads_to::<T, C>(s, key, tid, page, n),
        ),
    decreases n,
{
    assert(shard_wf::<T, C>(s.shards[tid as int]));
    let all: Seq<SlotModel<T>> = s.shards[tid as int][page as int].slots;
    let slots: Seq<SlotModel<T>> = all.take(n as int);
    if n > 0 {
        let m: nat = (n - 1) as nat;
        lemma_slot_list::<T, C>(s, tid, page, m);
        assert(slots.drop_last() =~= all.take(m as int));
        let slot: SlotModel<T> = all[m as int];
        assert(slots.last() == slot);
        assert(slot.wf::<C>());
        lemma_counts::<C>();
        key_of_has_parts::<C>(tid, page, m, slot.gen);
        let key: usize = key_of::<C>(tid, page, m, slot.gen) as usize;
        let k1: Seq<usize> = slot_keys::<T, C>(tid, page, all.take(m as int));
        let v1: Seq<T> = slot_values(all.take(m as int));
        assert forall|k: usize|
            leads_to::<T, C>(s, k, tid, page, n) && key_slot::<C>(k) == m implies k == key
            && slot.state == State::Present by {
            keys_are_unique::<C>(k, key);
        }
        if slot.state == State::Present {
            assert(leads_to::<T, C>(s, key, tid, page, n));
            let k2: Seq<usize> = seq![key];
            assert(k2[0] == key);
            assert forall|k: usize| #[trigger] k2.contains(k) <==> k == key by {
                if k == key {
                    assert(k2[0] == k);
                }
            }
            lemma_lists_join::<T, C>(
                s,
                k1,
                v1,
                |k: usize| leads_to::<T, C>(s, k, tid, page, m),
                k2,
                seq![slot.item->0],
                |k: usize| k == key,
                |k: usize| leads_to::<T, C>(s, k, tid, page, n),
            );
            assert(slot_keys::<T, C>(tid, page, slots) =~= k1 + k2);
            assert(slot_values(slots) =~= v1 + seq![slot.item->0]);
        } else {
            assert forall|k: usize| #[trigger] k1.contains(k) <==> leads_to::<T, C>(
                s,
                k,
                tid,
                page,
                n,
            ) by {
                assert(k1.contains(k) <==> leads_to::<T, C>(s, k, tid, page, m));
            }
        }
    }
}

proof fn lemma_page_list<T, C: Config>(s: SlabModel<T>, tid: nat, n: nat)
    requires
        valid::<C>(),
        s.wf::<C>(),
        tid < max_shards::<C>(),
        n <= C::MAX_PAGES,
    ensures
        lists::<T, C>(
            s,
            page_keys::<T, C>(tid, s.shards[tid as int].take(n as int)),
            page_values(s.shards[tid as int].take(n as int)),
            |key: usize|
                s.contains::<C>(key) && key_tid::<C>(key) == tid && key_page::<C>(key) < n,
        ),
    decreases n,
{
    assert(shard_wf::<T, C>(s.shards[tid as int]));
    let all: Seq<PageModel<T>> = s.shards[tid as int];
    if n > 0 {
        let m: nat = (n - 1) as nat;
        lemma_page_list::<T, C>(s, tid, m);
        lemma_slot_list::<T, C>(s, tid, m, page_size::<C>(m));
        assert(all.take(n as int).drop_last() =~= all.take(m as int));
        assert(all[m as int].slots.take(page_size::<C>(m) as int) =~= all[m as int].slots);
        let wanted = |key: usize|
            s.contains::<C>(key) && key_tid::<C>(key) == tid && key_page::<C>(key) < n;
        let w1 = |key: usize|
            s.contains::<C>(key) && key_tid::<C>(key) == tid && key_page::<C>(key) < m;
        let w2 = |key: usize| leads_to::<T, C>(s, key, tid, m, page_size::<C>(m));
        assert forall|key: usize| #[trigger] wanted(key) <==> w1(key) || w2(key) by {
            if wanted(key) {
                lemma_slot_exists::<T, C>(s, key);
            }
        }
        lemma_lists_join::<T, C>(
            s,
            page_keys::<T, C>(tid, all.take(m as int)),
            page_values(all.take(m as int)),
            w1,
            slot_keys::<T, C>(tid, m, all[m as int].slots),
            slot_values(all[m as int].slots),
            w2,
            wanted,
        );
    }
}

proof fn lemma_shard_list<T, C: Config>(s: SlabModel<T>, n: nat)
    requires
        valid::<C>(),
        s.wf::<C>(),
        n <= max_shards::<C>(),
    ensures
        lists::<T, C>(
            s,
            shard_keys::<T, C>(s.shards.take(n as int)),
            shard_values(s.shards.take(n as int)),
            |key: usize| s.contains::<C>(key) && key_tid::<C>(key) < n,
        ),
    decreases n,
{
    if n > 0 {
        let m: nat = (n - 1) as nat;
        lemma_shard_list::<T, C>(s, m);
        lemma_page_list::<T, C>(s, m, C::MAX_PAGES as nat);
        assert(shard_wf::<T, C>(s.shards[m as int]));
        assert(s.shards.take(n as int).drop_last() =~= s.shards.take(m as int));
        assert(s.shards[m as int].take(C::MAX_PAGES as int) =~= s.shards[m as int]);
        let wanted = |key: usize| s.contains::<C>(key) && key_tid::<C>(key) < n;
        let w1 = |key: usize| s.contains::<C>(key) && key_tid::<C>(key) < m;
        let w2 = |key: usize|
            s.contains::<C>(key) && key_tid::<C>(key) == m && key_page::<C>(key) < C::MAX_PAGES;
        assert forall|key: usize| #[trigger] wanted(key) <==> w1(key) || w2(key) by {}
        lemma_lists_join::<T, C>(
            s,
            shard_keys::<T, C>(s.shards.take(m as int)),
            shard_values(s.shards.take(m as int)),
            w1,
            page_keys::<T, C>(m, s.shards[m as int]),
            page_values(s.shards[m as int]),
            w2,
            wanted,
        );
    }
}

/// The values of a slab, listed, are those that keys lead to, one for each key.
pub proof fn values_are_listed_once<T, C: Config>(s: SlabModel<T>)
    requires
        valid::<C>(),
        s.wf::<C>(),
    ensures
        ({
            let keys = shard_keys::<T, C>(s.shards);
            &&& keys.no_duplicates()
            &&& keys.to_set() == s.live::<C>().dom()
            &&& keys.len() == s.values().len()
            &&& forall|i: int|
                0 <= i < keys.len() ==> s.live::<C>()[#[trigger] keys[i]] == s.values()[i]
        }),
{
    let n: nat = max_shards::<C>();
    lemma_shard_list::<T, C>(s, n);
    assert(s.shards.take(n as int) =~= s.shards);
    let keys: Seq<usize> = shard_keys::<T, C>(s.shards);
    assert forall|key: usize| keys.contains(key) <==> s.contains::<C>(key) by {}
    assert(keys.to_set() =~= s.live::<C>().dom());
    assert forall|i: int| 0 <= i < keys.len() implies s.live::<C>()[#[trigger] keys[i]]
        == s.values()[i] by {
        assert(keys.contains(keys[i]));
    }
}

/// Every value that can be looked up is listed.
pub proof fn every_value_is_listed<T, C: Config>(s: SlabModel<T>, key: usize)
    requires
        valid::<C>(),
        s.wf::<C>(),
        s.contains::<C>(key),
    ensures
        s.values().contains(s.live::<C>()[key]),
{
    values_are_listed_once::<T, C>(s);
    let keys: Seq<usize> = shard_keys::<T, C>(s.shards);
    assert(keys.to_set().contains(key));
    let i: int = choose|i: int| 0 <= i < keys.len() && keys[i] == key;
    assert(s.values()[i] == s.live::<C>()[key]);
}

} // verus!
