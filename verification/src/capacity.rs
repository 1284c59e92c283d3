//! How much fits into a slab.

use crate::cfg::{
    max_shards,
    page_size,
    pages_have_the_configured_sizes,
    prev_size,
    valid,
    Config,
};
use crate::laws::{lemma_next_key, lemma_slot_exists};
use crate::model::{
    is_first_vacancy,
    is_full,
    key_page,
    key_tid,
    shard_wf,
    unused_page,
    unused_shard,
    unused_slab,
    unused_slab_is_wf,
    PageModel,
    SlabModel,
    State,
};
use crate::page::lemma_prev_size;
use crate::steps::{is_run, run, step_changes_one_slot, step_keeps_wf, Step};
use vstd::arithmetic::power2::pow2;
use vstd::prelude::*;

verus! {

/// The number of free slots on `pages`.
pub open spec fn vacancies<T>(pages: Seq<PageModel<T>>) -> nat
    decreases pages.len(),
{
    if pages.len() == 0 {
        0
    } else {
        vacancies(pages.drop_last()) + pages.last().free().len()
    }
}

/// The number of slots in a shard.
pub open spec fn capacity<C: Config>() -> nat {
    prev_size::<C>(C::MAX_PAGES as nat)
}

/// A shard has the slots of all its pages: as many as the first page has, times
/// one less than two to the number of pages. That is no less than the
/// configuration asks for.
pub proof fn capacity_follows_from_config<C: Config>()
    ensures
        capacity::<C>() == page_size::<C>(0) * (pow2(C::MAX_PAGES as nat) - 1),
        capacity::<C>() >= C::INITIAL_PAGE_SIZE * (pow2(C::MAX_PAGES as nat) - 1),
{
    pages_have_the_configured_sizes::<C>(C::MAX_PAGES as nat);
}

/// A shard is full just if it has no free slots.
pub proof fn full_means_no_vacancies<T>(pages: Seq<PageModel<T>>)
    ensures
        is_full(pages) <==> vacancies(pages) == 0,
    decreases pages.len(),
{
    if pages.len() > 0 {
        full_means_no_vacancies(pages.drop_last());
        assert(forall|q: int| 0 <= q < pages.len() - 1 ==> pages.drop_last()[q] == pages[q]);
        if is_full(pages) {
            assert(!pages[pages.len() - 1].has_vacancy());
            assert forall|q: int| 0 <= q < pages.drop_last().len() implies !(
            #[trigger] pages.drop_last()[q]).has_vacancy() by {
                assert(!pages[q].has_vacancy());
            }
        }
        if vacancies(pages) == 0 {
            assert forall|q: int| 0 <= q < pages.len() implies !(
            #[trigger] pages[q]).has_vacancy() by {
                if q < pages.len() - 1 {
                    assert(!pages.drop_last()[q].has_vacancy());
                }
            }
        }
    }
}

/// A change to one page changes the number of free slots as it does on that
/// page.
proof fn lemma_vacancies_changed<T>(pages: Seq<PageModel<T>>, p: int, new: PageModel<T>)
    requires
        0 <= p < pages.len(),
    ensures
        vacancies(pages.update(p, new)) == vacancies(pages) - pages[p].free().len()
            + new.free().len(),
    decreases pages.len(),
{
    if p == pages.len() - 1 {
        assert(pages.update(p, new).drop_last() =~= pages.drop_last());
    } else {
        lemma_vacancies_changed(pages.drop_last(), p, new);
        assert(pages.update(p, new).drop_last() =~= pages.drop_last().update(p, new));
    }
}

/// A shard that was never used has as many free slots as it has slots.
pub proof fn unused_shard_is_empty<T, C: Config>()
    ensures
        vacancies(unused_shard::<T, C>()) == capacity::<C>(),
{
    lemma_unused_pages::<T, C>(C::MAX_PAGES as nat);
    assert(unused_shard::<T, C>() =~= Seq::new(
        C::MAX_PAGES as nat,
        |p: int| unused_page::<T>(page_size::<C>(p as nat)),
    ));
}

proof fn lemma_unused_pages<T, C: Config>(n: nat)
    ensures
        vacancies(Seq::new(n, |p: int| unused_page::<T>(page_size::<C>(p as nat))))
            == prev_size::<C>(n),
    decreases n,
{
    let pages: Seq<PageModel<T>> = Seq::new(
        n,
        |p: int| unused_page::<T>(page_size::<C>(p as nat)),
    );
    if n == 0 {
        lemma_prev_size::<C>(0);
    } else {
        lemma_unused_pages::<T, C>((n - 1) as nat);
        lemma_prev_size::<C>((n - 1) as nat);
        assert(pages.drop_last() =~= Seq::new(
            (n - 1) as nat,
            |p: int| unused_page::<T>(page_size::<C>(p as nat)),
        ));
    }
}

/// A value that is put into a shard uses up one of its free slots, a slot that
/// is freed is one more, and nothing else changes their number.
pub proof fn step_changes_vacancies<T, C: Config>(s: SlabModel<T>, step: Step<T>, t: nat)
    requires
        valid::<C>(),
        s.wf::<C>(),
        step.is_allowed::<C>(s),
        t < max_shards::<C>(),
    ensures
        ({
            let key = step.key::<C>(s);
            let after = step.apply::<C>(s);
            let before = vacancies(s.shards[t as int]) as int;
            vacancies(after.shards[t as int]) == if key_tid::<C>(key) != t {
                before
            } else if step is Insert {
                before - 1
            } else if after.slot::<C>(key).state == State::Vacant {
                before + 1
            } else {
                before
            }
        }),
{
    step_changes_one_slot::<T, C>(s, step);
    let key: usize = step.key::<C>(s);
    let after: SlabModel<T> = step.apply::<C>(s);
    lemma_slot_exists::<T, C>(s, key);
    let p: int = key_page::<C>(key) as int;
    if let Step::Insert { tid, page, value } = step {
        assert(shard_wf::<T, C>(s.shards[tid as int]));
        lemma_next_key::<T, C>(s, tid, page);
    }
    if key_tid::<C>(key) == t {
        lemma_vacancies_changed(s.shards[t as int], p, after.page::<C>(key));
    }
}

/// A thread can put a value into its shard just if the shard is not full.
pub proof fn room_means_insert<T, C: Config>(s: SlabModel<T>, tid: nat, value: T)
    requires
        s.wf::<C>(),
        tid < max_shards::<C>(),
    ensures
        !is_full(s.shards[tid as int]) <==> exists|page: nat|
            #[trigger] (Step::Insert { tid, page, value }).is_allowed::<C>(s),
{
    let pages: Seq<PageModel<T>> = s.shards[tid as int];
    if !is_full(pages) {
        let q: int = choose|q: int| 0 <= q < pages.len() && (#[trigger] pages[q]).has_vacancy();
        let page: int = lemma_first_vacancy(pages, q);
        assert((Step::Insert { tid, page: page as nat, value }).is_allowed::<C>(s));
    }
}

/// Where there is a page with a free slot there is a first one.
proof fn lemma_first_vacancy<T>(pages: Seq<PageModel<T>>, q: int) -> (page: int)
    requires
        0 <= q < pages.len(),
        pages[q].has_vacancy(),
    ensures
        is_first_vacancy(pages, page),
    decreases q,
{
    if exists|p: int| 0 <= p < q && (#[trigger] pages[p]).has_vacancy() {
        let p: int = choose|p: int| 0 <= p < q && (#[trigger] pages[p]).has_vacancy();
        lemma_first_vacancy(pages, p)
    } else {
        q
    }
}

/// A shard that a slot is freed of is not full, whichever thread has freed it.
pub proof fn freeing_makes_room<T, C: Config>(s: SlabModel<T>, step: Step<T>)
    requires
        valid::<C>(),
        s.wf::<C>(),
        step.is_allowed::<C>(s),
        step.apply::<C>(s).slot::<C>(step.key::<C>(s)).state == State::Vacant,
    ensures
        !is_full(step.apply::<C>(s).shards[key_tid::<C>(step.key::<C>(s)) as int]),
{
    let t: nat = key_tid::<C>(step.key::<C>(s));
    step_changes_one_slot::<T, C>(s, step);
    lemma_slot_exists::<T, C>(s, step.key::<C>(s));
    step_changes_vacancies::<T, C>(s, step, t);
    full_means_no_vacancies(step.apply::<C>(s).shards[t as int]);
}

/// Into a slab that was never used, a thread can put as many values as a shard
/// has slots, and then no more.
pub proof fn inserts_fill_shard<T, C: Config>(tid: nat, steps: Seq<Step<T>>)
    requires
        valid::<C>(),
        tid < max_shards::<C>(),
        is_run::<T, C>(unused_slab::<T, C>(), steps),
        forall|i: int|
            0 <= i < steps.len() ==> #[trigger] steps[i] is Insert && steps[i]->Insert_tid == tid,
    ensures
        steps.len() <= capacity::<C>(),
        steps.len() < C::INITIAL_PAGE_SIZE * (pow2(C::MAX_PAGES as nat) - 1) ==> !is_full(
            run::<T, C>(unused_slab::<T, C>(), steps).shards[tid as int],
        ),
        is_full(run::<T, C>(unused_slab::<T, C>(), steps).shards[tid as int]) <==> steps.len()
            == capacity::<C>(),
{
    capacity_follows_from_config::<C>();
    unused_slab_is_wf::<T, C>();
    unused_shard_is_empty::<T, C>();
    lemma_inserts::<T, C>(unused_slab::<T, C>(), tid, steps);
    full_means_no_vacancies(run::<T, C>(unused_slab::<T, C>(), steps).shards[tid as int]);
}

proof fn lemma_inserts<T, C: Config>(s: SlabModel<T>, tid: nat, steps: Seq<Step<T>>)
    requires
        valid::<C>(),
        s.wf::<C>(),
        tid < max_shards::<C>(),
        is_run::<T, C>(s, steps),
        forall|i: int|
            0 <= i < steps.len() ==> #[trigger] steps[i] is Insert && steps[i]->Insert_tid == tid,
    ensures
        vacancies(run::<T, C>(s, steps).shards[tid as int]) == vacancies(s.shards[tid as int])
            - steps.len(),
    decreases steps.len(),
{
    if steps.len() > 0 {
        let step: Step<T> = steps[0];
        step_changes_vacancies::<T, C>(s, step, tid);
        step_keeps_wf::<T, C>(s, step);
        assert(shard_wf::<T, C>(s.shards[tid as int]));
        lemma_next_key::<T, C>(s, tid, step->page);
        lemma_inserts::<T, C>(step.apply::<C>(s), tid, steps.drop_first());
    }
}

} // verus!
