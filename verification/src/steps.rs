//! What threads do to a slab they share, as a sequence of steps: one for each
//! operation that has an effect, in the order in which they happen. What holds
//! of every such sequence holds of every way in which threads can interleave.

use crate::capacity::freeing_makes_room;
use crate::cfg::{max_shards, valid, Config};
use crate::laws::{
    changes_slot,
    keys_are_unique,
    lemma_next_key,
    lemma_other_slots_kept,
    lemma_slot_exists,
    same_slot,
};
use crate::model::{
    generations,
    in_range,
    is_first_vacancy,
    is_full,
    key_gen,
    key_page,
    key_slot,
    key_tid,
    page_free_slot_keeps_wf,
    page_insert_keeps_wf,
    page_set_keeps_wf,
    shard_wf,
    Holders,
    PageModel,
    SlabModel,
    SlotModel,
    State,
};
use crate::page::slot::{lemma_counts, lemma_next_gen};
use vstd::prelude::*;

verus! {

/// An operation that has an effect on a slab.
pub enum Step<T> {
    Insert { tid: nat, page: nat, value: T },
    Get { key: usize },
    GetMut { key: usize },
    Change { key: usize, value: T },
    Release { tid: nat, key: usize },
    Remove { tid: nat, key: usize },
    Take { tid: nat, key: usize },
    Redeem { tid: nat, key: usize },
}

impl<T> Step<T> {
    /// Whether the step can be taken.
    pub open spec fn is_allowed<C: Config>(self, s: SlabModel<T>) -> bool {
        match self {
            Step::Insert { tid, page, value } => tid < max_shards::<C>() && is_first_vacancy(
                s.shards[tid as int],
                page as int,
            ),
            Step::Get { key } => s.can_get::<C>(key),
            Step::GetMut { key } => s.can_get_mut::<C>(key),
            Step::Change { key, value } => s.is_locked::<C>(key),
            Step::Release { tid, key } => s.is_shared::<C>(key) || s.is_locked::<C>(key),
            Step::Remove { tid, key } => s.contains::<C>(key),
            Step::Take { tid, key } => s.contains::<C>(key),
            Step::Redeem { tid, key } => s.is_claimed::<C>(key) && !s.slot::<C>(key).is_held(),
        }
    }

    /// The slab after the step.
    pub open spec fn apply<C: Config>(self, s: SlabModel<T>) -> SlabModel<T> {
        match self {
            Step::Insert { tid, page, value } => s.insert(tid as int, page as int, value),
            Step::Get { key } => s.get::<C>(key),
            Step::GetMut { key } => s.get_mut::<C>(key),
            Step::Change { key, value } => s.change::<C>(key, value),
            Step::Release { tid, key } => s.release::<C>(tid, key),
            Step::Remove { tid, key } => s.remove::<C>(tid, key),
            Step::Take { tid, key } => s.take::<C>(tid, key),
            Step::Redeem { tid, key } => s.redeem::<C>(tid, key),
        }
    }

    /// What the step makes of the slot that it is about.
    pub open spec fn slot_after<C: Config>(self, slot: SlotModel<T>) -> SlotModel<T> {
        match self {
            Step::Insert { tid, page, value } => slot.fill(value),
            Step::Get { key } => slot.share(),
            Step::GetMut { key } => slot.lock(),
            Step::Change { key, value } => slot.with_item(value),
            Step::Release { tid, key } => if slot.state == State::Marked
                && !slot.unhold().is_held() {
                slot.vacate::<C>()
            } else {
                slot.unhold()
            },
            Step::Remove { tid, key } => if slot.is_held() {
                slot.with_state(State::Marked)
            } else {
                slot.vacate::<C>()
            },
            Step::Take { tid, key } => if slot.is_held() {
                slot.with_state(State::Claimed)
            } else {
                slot.vacate::<C>()
            },
            Step::Redeem { tid, key } => slot.vacate::<C>(),
        }
    }

    /// Whether the step removes or takes the value that `key` leads to.
    pub open spec fn removes(self, key: usize) -> bool {
        match self {
            Step::Remove { key: k, .. } | Step::Take { key: k, .. } => k == key,
            _ => false,
        }
    }

    /// Whether the step changes the value that `key` was given out for.
    pub open spec fn changes(self, key: usize) -> bool {
        self matches Step::Change { key: k, .. } && k == key
    }

    /// Whether the step redeems the claim to the value that `key` was given out
    /// for.
    pub open spec fn redeems(self, key: usize) -> bool {
        self matches Step::Redeem { key: k, .. } && k == key
    }

    /// What the step makes of `value`, if that is what `key` was given out for.
    pub open spec fn written(self, key: usize, value: T) -> T {
        match self {
            Step::Change { key: k, value: new } => if k == key {
                new
            } else {
                value
            },
            _ => value,
        }
    }

    /// The key of the value that the step is about.
    pub open spec fn key<C: Config>(self, s: SlabModel<T>) -> usize {
        match self {
            Step::Insert { tid, page, value } => s.next_key::<C>(tid as int, page as int) as usize,
            Step::Get { key } => key,
            Step::GetMut { key } => key,
            Step::Change { key, value } => key,
            Step::Release { tid, key } => key,
            Step::Remove { tid, key } => key,
            Step::Take { tid, key } => key,
            Step::Redeem { tid, key } => key,
        }
    }
}

/// A step leaves all slots as they are but the one that its key leads to, which
/// is of the generation of that key.
pub proof fn step_changes_one_slot<T, C: Config>(s: SlabModel<T>, step: Step<T>)
    requires
        valid::<C>(),
        s.wf::<C>(),
        step.is_allowed::<C>(s),
    ensures
        in_range::<C>(step.key::<C>(s)),
        s.slot::<C>(step.key::<C>(s)).gen == key_gen::<C>(step.key::<C>(s)),
        changes_slot::<T, C>(
            s,
            step.apply::<C>(s),
            step.key::<C>(s),
            step.slot_after::<C>(s.slot::<C>(step.key::<C>(s))),
        ),
{
    let key: usize = step.key::<C>(s);
    let s2: SlabModel<T> = step.apply::<C>(s);
    if let Step::Insert { tid, page, value } = step {
        assert(shard_wf::<T, C>(s.shards[tid as int]));
        lemma_next_key::<T, C>(s, tid, page);
    }
    lemma_slot_exists::<T, C>(s, key);
    assert(s2 =~= s.with_page::<C>(key, s2.page::<C>(key)));
}

/// Every step leaves a well formed slab well formed.
pub proof fn step_keeps_wf<T, C: Config>(s: SlabModel<T>, step: Step<T>)
    requires
        valid::<C>(),
        s.wf::<C>(),
        step.is_allowed::<C>(s),
    ensures
        step.apply::<C>(s).wf::<C>(),
{
    step_changes_one_slot::<T, C>(s, step);
    let key: usize = step.key::<C>(s);
    let s2: SlabModel<T> = step.apply::<C>(s);
    lemma_slot_exists::<T, C>(s, key);
    lemma_counts::<C>();
    let t: int = key_tid::<C>(key) as int;
    let p: int = key_page::<C>(key) as int;
    let i: int = key_slot::<C>(key) as int;
    let page: PageModel<T> = s.page::<C>(key);
    let slot: SlotModel<T> = s2.slot::<C>(key);
    match step {
        Step::Insert { tid, page: n, value } => {
            assert(shard_wf::<T, C>(s.shards[tid as int]));
            lemma_next_key::<T, C>(s, tid, n);
            page_insert_keeps_wf::<T, C>(page, value);
        },
        Step::Release { tid, .. } | Step::Remove { tid, .. } | Step::Take {
            tid,
            ..
        } | Step::Redeem { tid, .. } => {
            page_free_slot_keeps_wf::<T, C>(page, i, tid == key_tid::<C>(key));
            if slot.state != State::Vacant {
                page_set_keeps_wf::<T, C>(page, i, slot);
            }
        },
        _ => {
            page_set_keeps_wf::<T, C>(page, i, slot);
        },
    }
    assert(s2.page::<C>(key).wf::<C>());
    assert forall|t2: int| 0 <= t2 < s2.shards.len() implies #[trigger] shard_wf::<T, C>(
        s2.shards[t2],
    ) by {
        assert(shard_wf::<T, C>(s.shards[t2]));
    }
}

/// A step is about the value that `key` was given out for, or leaves its slot as
/// it is.
proof fn lemma_step_at<T, C: Config>(s: SlabModel<T>, step: Step<T>, key: usize)
    requires
        valid::<C>(),
        s.wf::<C>(),
        step.is_allowed::<C>(s),
        in_range::<C>(key),
    ensures
        s.slot::<C>(key).wf::<C>(),
        same_slot::<C>(key, step.key::<C>(s)) ==> {
            &&& s.slot::<C>(key) == s.slot::<C>(step.key::<C>(s))
            &&& step.apply::<C>(s).slot::<C>(key) == step.slot_after::<C>(s.slot::<C>(key))
            &&& s.slot::<C>(key).gen == key_gen::<C>(key) ==> step.key::<C>(s) == key
            &&& step is Insert ==> s.slot::<C>(key).state == State::Vacant
        },
        !same_slot::<C>(key, step.key::<C>(s)) ==> step.apply::<C>(s).slot::<C>(key) == s.slot::<
            C,
        >(key),
{
    step_changes_one_slot::<T, C>(s, step);
    let k: usize = step.key::<C>(s);
    let s2: SlabModel<T> = step.apply::<C>(s);
    lemma_other_slots_kept::<T, C>(s, s2, k, step.slot_after::<C>(s.slot::<C>(k)));
    lemma_slot_exists::<T, C>(s, key);
    if same_slot::<C>(key, k) {
        if s.slot::<C>(key).gen == key_gen::<C>(key) {
            keys_are_unique::<C>(key, k);
        }
        if let Step::Insert { tid, page, value } = step {
            assert(shard_wf::<T, C>(s.shards[tid as int]));
            lemma_next_key::<T, C>(s, tid, page);
        }
    }
}

/// As long as a reference to a value is held, the value stays where it is, even
/// if it is removed or taken, and is not changed.
pub proof fn shared_value_stays<T, C: Config>(s: SlabModel<T>, step: Step<T>, key: usize)
    requires
        valid::<C>(),
        s.wf::<C>(),
        step.is_allowed::<C>(s),
        s.is_shared::<C>(key),
        step is Release && step.key::<C>(s) == key ==> s.slot::<C>(key).holders->0 > 1,
    ensures
        step.apply::<C>(s).is_shared::<C>(key),
        step.apply::<C>(s).slot::<C>(key).item == s.slot::<C>(key).item,
{
    lemma_step_at::<T, C>(s, step, key);
}

/// As long as a value is held by one alone, it stays where it is, even if it is
/// removed or taken, and only its holder changes it.
pub proof fn locked_value_stays<T, C: Config>(s: SlabModel<T>, step: Step<T>, key: usize)
    requires
        valid::<C>(),
        s.wf::<C>(),
        step.is_allowed::<C>(s),
        s.is_locked::<C>(key),
        !(step is Release && step.key::<C>(s) == key),
    ensures
        step.apply::<C>(s).is_locked::<C>(key),
        step.apply::<C>(s).slot::<C>(key).item == Some(
            step.written(key, s.held_value::<C>(key)),
        ),
{
    lemma_step_at::<T, C>(s, step, key);
}

/// A value that was removed while it was held goes when its last holder lets go
/// of it, and not before. Until then it is what it was, unless the one who holds
/// it alone changes it.
pub proof fn marked_value_goes_with_last_holder<T, C: Config>(
    s: SlabModel<T>,
    step: Step<T>,
    key: usize,
)
    requires
        valid::<C>(),
        s.wf::<C>(),
        step.is_allowed::<C>(s),
        s.is_marked::<C>(key),
    ensures
        s.slot::<C>(key).is_held(),
        ({
            let after = step.apply::<C>(s);
            if step is Release && step.key::<C>(s) == key && !s.slot::<C>(key).unhold().is_held() {
                &&& after.slot::<C>(key).item is None
                &&& after.slot::<C>(key).gen != s.slot::<C>(key).gen
            } else {
                &&& after.is_marked::<C>(key)
                &&& after.slot::<C>(key).item == Some(step.written(key, s.held_value::<C>(key)))
            }
        }),
{
    lemma_step_at::<T, C>(s, step, key);
    lemma_counts::<C>();
    lemma_next_gen::<C>(s.slot::<C>(key).gen);
}

/// A claim to a value stays until it is redeemed, and so does the value, unless
/// the one who holds it alone changes it.
pub proof fn claim_stays<T, C: Config>(s: SlabModel<T>, step: Step<T>, key: usize)
    requires
        valid::<C>(),
        s.wf::<C>(),
        step.is_allowed::<C>(s),
        s.is_claimed::<C>(key),
        !(step is Redeem && step.key::<C>(s) == key),
    ensures
        step.apply::<C>(s).is_claimed::<C>(key),
        step.apply::<C>(s).slot::<C>(key).item == Some(
            step.written(key, s.held_value::<C>(key)),
        ),
        !(step is Change && step.key::<C>(s) == key) ==> step.apply::<C>(s).slot::<C>(key).item
            == s.slot::<C>(key).item,
{
    lemma_step_at::<T, C>(s, step, key);
}

/// A value can be looked up until it is removed or taken, and is the same until
/// the one who holds it alone changes it.
pub proof fn present_value_stays<T, C: Config>(s: SlabModel<T>, step: Step<T>, key: usize)
    requires
        valid::<C>(),
        s.wf::<C>(),
        step.is_allowed::<C>(s),
        s.contains::<C>(key),
        !(step is Remove && step.key::<C>(s) == key),
        !(step is Take && step.key::<C>(s) == key),
    ensures
        step.apply::<C>(s).contains::<C>(key),
        step.apply::<C>(s).slot::<C>(key).item == Some(
            step.written(key, s.held_value::<C>(key)),
        ),
        !(step is Change && step.key::<C>(s) == key) ==> step.apply::<C>(s).slot::<C>(key).item
            == s.slot::<C>(key).item,
{
    lemma_step_at::<T, C>(s, step, key);
}

/// How many times the slot that `key` leads to has to be freed before `key`
/// could be given out again. None if it can be given out next, or leads to a
/// value.
pub open spec fn frees_until_reuse<T, C: Config>(s: SlabModel<T>, key: usize) -> nat {
    let slot = s.slot::<C>(key);
    if slot.gen == key_gen::<C>(key) {
        if slot.state == State::Marked || slot.state == State::Claimed {
            generations::<C>()
        } else {
            0
        }
    } else if slot.gen < key_gen::<C>(key) {
        (key_gen::<C>(key) - slot.gen) as nat
    } else {
        (generations::<C>() + key_gen::<C>(key) - slot.gen) as nat
    }
}

/// A step that frees a slot brings a key to it one generation closer to being
/// given out again, any other step does not, and a key that is not there yet
/// leads to no value.
pub proof fn step_frees_at_most_once<T, C: Config>(s: SlabModel<T>, step: Step<T>, key: usize)
    requires
        valid::<C>(),
        s.wf::<C>(),
        step.is_allowed::<C>(s),
        in_range::<C>(key),
    ensures
        frees_until_reuse::<T, C>(s, key) > 0 ==> {
            let after = step.apply::<C>(s);
            &&& !s.contains::<C>(key)
            &&& after.slot::<C>(key).gen == s.slot::<C>(key).gen ==> frees_until_reuse::<T, C>(
                after,
                key,
            ) == frees_until_reuse::<T, C>(s, key)
            &&& frees_until_reuse::<T, C>(after, key) + 1 >= frees_until_reuse::<T, C>(s, key)
        },
        step.apply::<C>(s).slot::<C>(key).gen != s.slot::<C>(key).gen <==> s.slot::<C>(key).state
            != State::Vacant && step.apply::<C>(s).slot::<C>(key).state == State::Vacant,
{
    lemma_step_at::<T, C>(s, step, key);
    lemma_counts::<C>();
    lemma_next_gen::<C>(s.slot::<C>(key).gen);
}

/// Whether the steps can be taken one after another.
pub open spec fn is_run<T, C: Config>(s: SlabModel<T>, steps: Seq<Step<T>>) -> bool
    decreases steps.len(),
{
    steps.len() > 0 ==> steps[0].is_allowed::<C>(s) && is_run::<T, C>(
        steps[0].apply::<C>(s),
        steps.drop_first(),
    )
}

/// The slab after the steps were taken one after another.
pub open spec fn run<T, C: Config>(s: SlabModel<T>, steps: Seq<Step<T>>) -> SlabModel<T>
    decreases steps.len(),
{
    if steps.len() == 0 {
        s
    } else {
        run::<T, C>(steps[0].apply::<C>(s), steps.drop_first())
    }
}

/// How many times the slot that `key` leads to is freed by the steps. Only a
/// slot that is freed goes on to another generation.
pub open spec fn frees<T, C: Config>(s: SlabModel<T>, steps: Seq<Step<T>>, key: usize) -> nat
    decreases steps.len(),
{
    if steps.len() == 0 {
        0
    } else {
        let after = steps[0].apply::<C>(s);
        let rest = frees::<T, C>(after, steps.drop_first(), key);
        if after.slot::<C>(key).gen != s.slot::<C>(key).gen {
            rest + 1
        } else {
            rest
        }
    }
}

/// Whether one of the steps puts a value in under `key`.
pub open spec fn gives_out<T, C: Config>(s: SlabModel<T>, steps: Seq<Step<T>>, key: usize) -> bool
    decreases steps.len(),
{
    steps.len() > 0 && (steps[0] is Insert && steps[0].key::<C>(s) == key || gives_out::<T, C>(
        steps[0].apply::<C>(s),
        steps.drop_first(),
        key,
    ))
}

/// A key is not given out, and leads to no value, as long as its slot was not
/// freed as many times as it takes, however many other steps are taken.
pub proof fn gone_key_stays_gone<T, C: Config>(s: SlabModel<T>, steps: Seq<Step<T>>, key: usize)
    requires
        valid::<C>(),
        s.wf::<C>(),
        is_run::<T, C>(s, steps),
        in_range::<C>(key),
        frees::<T, C>(s, steps, key) < frees_until_reuse::<T, C>(s, key),
    ensures
        run::<T, C>(s, steps).wf::<C>(),
        !run::<T, C>(s, steps).contains::<C>(key),
        !gives_out::<T, C>(s, steps, key),
    decreases steps.len(),
{
    if steps.len() > 0 {
        step_frees_at_most_once::<T, C>(s, steps[0], key);
        step_changes_one_slot::<T, C>(s, steps[0]);
        lemma_step_at::<T, C>(s, steps[0], key);
        step_keeps_wf::<T, C>(s, steps[0]);
        gone_key_stays_gone::<T, C>(steps[0].apply::<C>(s), steps.drop_first(), key);
    }
}

/// After a value was removed or taken, by whichever thread, its key is not given
/// out again and leads to no value, whatever is done next, as long as the slot was
/// freed fewer times than it has generations. The time that it is freed of this
/// value counts.
pub proof fn removed_key_stays_gone<T, C: Config>(
    s: SlabModel<T>,
    first: Step<T>,
    steps: Seq<Step<T>>,
)
    requires
        valid::<C>(),
        s.wf::<C>(),
        first is Remove || first is Take,
        first.is_allowed::<C>(s),
        is_run::<T, C>(first.apply::<C>(s), steps),
        frees::<T, C>(s, seq![first] + steps, first.key::<C>(s)) < generations::<C>(),
    ensures
        !run::<T, C>(first.apply::<C>(s), steps).contains::<C>(first.key::<C>(s)),
        !gives_out::<T, C>(first.apply::<C>(s), steps, first.key::<C>(s)),
{
    let key: usize = first.key::<C>(s);
    let s2: SlabModel<T> = first.apply::<C>(s);
    step_keeps_wf::<T, C>(s, first);
    step_changes_one_slot::<T, C>(s, first);
    lemma_slot_exists::<T, C>(s, key);
    lemma_counts::<C>();
    let gen: nat = key_gen::<C>(key);
    lemma_next_gen::<C>(gen);
    assert((seq![first] + steps).drop_first() =~= steps);
    gone_key_stays_gone::<T, C>(s2, steps, key);
}

/// A key that leads to no value leads to none until a value is put in under that
/// very key, even where its slot has been through all generations.
pub proof fn gone_key_waits_for_insert<T, C: Config>(
    s: SlabModel<T>,
    steps: Seq<Step<T>>,
    key: usize,
)
    requires
        valid::<C>(),
        s.wf::<C>(),
        is_run::<T, C>(s, steps),
        !s.contains::<C>(key),
        !gives_out::<T, C>(s, steps, key),
    ensures
        run::<T, C>(s, steps).wf::<C>(),
        !run::<T, C>(s, steps).contains::<C>(key),
    decreases steps.len(),
{
    if steps.len() > 0 {
        step_keeps_wf::<T, C>(s, steps[0]);
        if in_range::<C>(key) {
            lemma_step_at::<T, C>(s, steps[0], key);
            lemma_counts::<C>();
            lemma_next_gen::<C>(s.slot::<C>(key).gen);
        }
        gone_key_waits_for_insert::<T, C>(steps[0].apply::<C>(s), steps.drop_first(), key);
    }
}

/// What the steps make of `value`, if that is what `key` was given out for: what
/// was written last.
pub open spec fn last_written<T>(steps: Seq<Step<T>>, key: usize, value: T) -> T
    decreases steps.len(),
{
    if steps.len() == 0 {
        value
    } else {
        last_written::<T>(steps.drop_first(), key, steps[0].written(key, value))
    }
}

/// Steps that do not change a value leave it as it is.
pub proof fn unchanged_is_last_written<T>(steps: Seq<Step<T>>, key: usize, value: T)
    requires
        forall|i: int| 0 <= i < steps.len() ==> !(#[trigger] steps[i]).changes(key),
    ensures
        last_written::<T>(steps, key, value) == value,
    decreases steps.len(),
{
    if steps.len() > 0 {
        let rest: Seq<Step<T>> = steps.drop_first();
        assert(!steps[0].changes(key));
        assert forall|i: int| 0 <= i < rest.len() implies !(#[trigger] rest[i]).changes(key) by {
            assert(rest[i] == steps[i + 1]);
        }
        unchanged_is_last_written::<T>(rest, key, value);
    }
}

/// A value that can be looked up can be looked up after any steps that do not
/// remove or take it, and is what was written last.
pub proof fn present_value_stays_over_run<T, C: Config>(
    s: SlabModel<T>,
    steps: Seq<Step<T>>,
    key: usize,
)
    requires
        valid::<C>(),
        s.wf::<C>(),
        is_run::<T, C>(s, steps),
        s.contains::<C>(key),
        forall|i: int| 0 <= i < steps.len() ==> !(#[trigger] steps[i]).removes(key),
    ensures
        run::<T, C>(s, steps).contains::<C>(key),
        run::<T, C>(s, steps).slot::<C>(key).item == Some(
            last_written::<T>(steps, key, s.held_value::<C>(key)),
        ),
    decreases steps.len(),
{
    lemma_slot_exists::<T, C>(s, key);
    if steps.len() > 0 {
        let rest: Seq<Step<T>> = steps.drop_first();
        assert(!steps[0].removes(key));
        step_keeps_wf::<T, C>(s, steps[0]);
        present_value_stays::<T, C>(s, steps[0], key);
        assert forall|i: int| 0 <= i < rest.len() implies !(#[trigger] rest[i]).removes(key) by {
            assert(rest[i] == steps[i + 1]);
        }
        present_value_stays_over_run::<T, C>(steps[0].apply::<C>(s), rest, key);
    }
}

/// What was put in is what its key leads to, after any steps that do not remove
/// or take it, whatever else is put in, held or removed meanwhile. Where it was
/// changed, that is what was written last.
pub proof fn stored_value_reads_as_stored<T, C: Config>(
    s: SlabModel<T>,
    first: Step<T>,
    steps: Seq<Step<T>>,
)
    requires
        valid::<C>(),
        s.wf::<C>(),
        first is Insert,
        first.is_allowed::<C>(s),
        is_run::<T, C>(first.apply::<C>(s), steps),
        forall|i: int| 0 <= i < steps.len() ==> !(#[trigger] steps[i]).removes(first.key::<C>(s)),
    ensures
        ({
            let after = run::<T, C>(first.apply::<C>(s), steps);
            let key = first.key::<C>(s);
            &&& after.contains::<C>(key)
            &&& after.live::<C>()[key] == last_written::<T>(steps, key, first->Insert_value)
            &&& (forall|i: int| 0 <= i < steps.len() ==> !(#[trigger] steps[i]).changes(key))
                ==> after.live::<C>()[key] == first->Insert_value
            &&& after.slot::<C>(key).can_share::<C>() ==> after.can_get::<C>(key)
        }),
{
    let key: usize = first.key::<C>(s);
    step_keeps_wf::<T, C>(s, first);
    step_changes_one_slot::<T, C>(s, first);
    lemma_slot_exists::<T, C>(s, key);
    lemma_step_at::<T, C>(s, first, key);
    present_value_stays_over_run::<T, C>(first.apply::<C>(s), steps, key);
    if forall|i: int| 0 <= i < steps.len() ==> !(#[trigger] steps[i]).changes(key) {
        unchanged_is_last_written::<T>(steps, key, first->Insert_value);
    }
}

/// A value that was removed while it was held is there for its holders as long
/// as its slot was not freed, and is what was written last.
pub proof fn marked_value_stays_over_run<T, C: Config>(
    s: SlabModel<T>,
    steps: Seq<Step<T>>,
    key: usize,
)
    requires
        valid::<C>(),
        s.wf::<C>(),
        is_run::<T, C>(s, steps),
        s.is_marked::<C>(key),
        frees::<T, C>(s, steps, key) == 0,
    ensures
        run::<T, C>(s, steps).wf::<C>(),
        run::<T, C>(s, steps).is_marked::<C>(key),
        run::<T, C>(s, steps).slot::<C>(key).is_held(),
        run::<T, C>(s, steps).slot::<C>(key).item == Some(
            last_written::<T>(steps, key, s.held_value::<C>(key)),
        ),
    decreases steps.len(),
{
    lemma_slot_exists::<T, C>(s, key);
    if steps.len() > 0 {
        step_keeps_wf::<T, C>(s, steps[0]);
        marked_value_goes_with_last_holder::<T, C>(s, steps[0], key);
        marked_value_stays_over_run::<T, C>(steps[0].apply::<C>(s), steps.drop_first(), key);
    }
}

/// A value that is removed while it is held is there, whatever is done next, until
/// its last holder lets go of it, and is gone then.
pub proof fn removed_value_goes_with_last_holder<T, C: Config>(
    s: SlabModel<T>,
    first: Step<T>,
    steps: Seq<Step<T>>,
    last: Step<T>,
)
    requires
        valid::<C>(),
        s.wf::<C>(),
        first is Remove,
        first.is_allowed::<C>(s),
        s.slot::<C>(first.key::<C>(s)).is_held(),
        is_run::<T, C>(first.apply::<C>(s), steps),
        frees::<T, C>(first.apply::<C>(s), steps, first.key::<C>(s)) == 0,
        last.is_allowed::<C>(run::<T, C>(first.apply::<C>(s), steps)),
    ensures
        ({
            let key = first.key::<C>(s);
            let before = run::<T, C>(first.apply::<C>(s), steps);
            let after = last.apply::<C>(before);
            let value = last_written::<T>(steps, key, s.held_value::<C>(key));
            &&& before.slot::<C>(key).is_held()
            &&& before.slot::<C>(key).item == Some(value)
            &&& if last is Release && last.key::<C>(before) == key
                && !before.slot::<C>(key).unhold().is_held() {
                after.slot::<C>(key).item is None
            } else {
                after.slot::<C>(key).item == Some(last.written(key, value))
            }
        }),
{
    let key: usize = first.key::<C>(s);
    let s2: SlabModel<T> = first.apply::<C>(s);
    step_keeps_wf::<T, C>(s, first);
    lemma_step_at::<T, C>(s, first, key);
    marked_value_stays_over_run::<T, C>(s2, steps, key);
    marked_value_goes_with_last_holder::<T, C>(run::<T, C>(s2, steps), last, key);
}

/// A claim to a value stays over any steps that do not redeem it, and the value
/// is what was written last.
pub proof fn claim_stays_over_run<T, C: Config>(s: SlabModel<T>, steps: Seq<Step<T>>, key: usize)
    requires
        valid::<C>(),
        s.wf::<C>(),
        is_run::<T, C>(s, steps),
        s.is_claimed::<C>(key),
        forall|i: int| 0 <= i < steps.len() ==> !(#[trigger] steps[i]).redeems(key),
    ensures
        run::<T, C>(s, steps).wf::<C>(),
        run::<T, C>(s, steps).is_claimed::<C>(key),
        run::<T, C>(s, steps).slot::<C>(key).item == Some(
            last_written::<T>(steps, key, s.held_value::<C>(key)),
        ),
    decreases steps.len(),
{
    lemma_slot_exists::<T, C>(s, key);
    if steps.len() > 0 {
        let rest: Seq<Step<T>> = steps.drop_first();
        assert(!steps[0].redeems(key));
        step_keeps_wf::<T, C>(s, steps[0]);
        claim_stays::<T, C>(s, steps[0], key);
        assert forall|i: int| 0 <= i < rest.len() implies !(#[trigger] rest[i]).redeems(key) by {
            assert(rest[i] == steps[i + 1]);
        }
        claim_stays_over_run::<T, C>(steps[0].apply::<C>(s), rest, key);
    }
}

/// A value that is taken while it is held stays, whatever is done next, for the
/// one who took it to redeem as soon as nobody holds it. What is redeemed is what
/// was taken or, where the one who held it alone changed it, what was written
/// last.
pub proof fn taken_value_waits_to_be_redeemed<T, C: Config>(
    s: SlabModel<T>,
    first: Step<T>,
    steps: Seq<Step<T>>,
    tid: nat,
)
    requires
        valid::<C>(),
        s.wf::<C>(),
        first is Take,
        first.is_allowed::<C>(s),
        s.slot::<C>(first.key::<C>(s)).is_held(),
        is_run::<T, C>(first.apply::<C>(s), steps),
        forall|i: int| 0 <= i < steps.len() ==> !(#[trigger] steps[i]).redeems(first.key::<C>(s)),
    ensures
        ({
            let key = first.key::<C>(s);
            let after = run::<T, C>(first.apply::<C>(s), steps);
            &&& after.is_claimed::<C>(key)
            &&& after.held_value::<C>(key) == last_written::<T>(
                steps,
                key,
                s.held_value::<C>(key),
            )
            &&& !after.slot::<C>(key).is_held() ==> (Step::<T>::Redeem { tid, key }).is_allowed::<
                C,
            >(after)
            &&& (forall|i: int| 0 <= i < steps.len() ==> !(#[trigger] steps[i]).changes(key))
                ==> after.held_value::<C>(key) == s.held_value::<C>(key)
        }),
{
    let key: usize = first.key::<C>(s);
    step_keeps_wf::<T, C>(s, first);
    lemma_step_at::<T, C>(s, first, key);
    claim_stays_over_run::<T, C>(first.apply::<C>(s), steps, key);
    if forall|i: int| 0 <= i < steps.len() ==> !(#[trigger] steps[i]).changes(key) {
        unchanged_is_last_written::<T>(steps, key, s.held_value::<C>(key));
    }
}

/// How many of the steps look up the value that `key` leads to.
pub open spec fn lookups<T>(steps: Seq<Step<T>>, key: usize) -> nat
    decreases steps.len(),
{
    if steps.len() == 0 {
        0
    } else {
        let rest = lookups::<T>(steps.drop_first(), key);
        match steps[0] {
            Step::Get { key: k } | Step::GetMut { key: k } => if k == key {
                rest + 1
            } else {
                rest
            },
            _ => rest,
        }
    }
}

/// How many of the steps let go of the value that `key` was given out for.
pub open spec fn releases<T>(steps: Seq<Step<T>>, key: usize) -> nat
    decreases steps.len(),
{
    if steps.len() == 0 {
        0
    } else {
        let rest = releases::<T>(steps.drop_first(), key);
        if steps[0] matches Step::Release { key: k, .. } && k == key {
            rest + 1
        } else {
            rest
        }
    }
}

/// How many hold a value.
pub open spec fn holder_count(holders: Holders) -> nat {
    match holders {
        Holders::Shared(n) => n,
        Holders::Exclusive => 1,
    }
}

/// As long as its slot is not freed, a value has as many more holders as it was
/// looked up, and as many less as were let go of, whether it was removed or taken
/// meanwhile or not.
pub proof fn holders_are_counted<T, C: Config>(s: SlabModel<T>, steps: Seq<Step<T>>, key: usize)
    requires
        valid::<C>(),
        s.wf::<C>(),
        is_run::<T, C>(s, steps),
        in_range::<C>(key),
        s.slot::<C>(key).gen == key_gen::<C>(key),
        s.slot::<C>(key).state != State::Vacant,
        frees::<T, C>(s, steps, key) == 0,
    ensures
        run::<T, C>(s, steps).wf::<C>(),
        run::<T, C>(s, steps).slot::<C>(key).gen == key_gen::<C>(key),
        run::<T, C>(s, steps).slot::<C>(key).state != State::Vacant,
        holder_count(run::<T, C>(s, steps).slot::<C>(key).holders) + releases::<T>(steps, key)
            == holder_count(s.slot::<C>(key).holders) + lookups::<T>(steps, key),
        run::<T, C>(s, steps).slot::<C>(key).item == Some(
            last_written::<T>(steps, key, s.held_value::<C>(key)),
        ),
    decreases steps.len(),
{
    lemma_slot_exists::<T, C>(s, key);
    if steps.len() > 0 {
        step_keeps_wf::<T, C>(s, steps[0]);
        lemma_step_at::<T, C>(s, steps[0], key);
        step_frees_at_most_once::<T, C>(s, steps[0], key);
        holders_are_counted::<T, C>(steps[0].apply::<C>(s), steps.drop_first(), key);
    }
}

/// A value that is removed while some hold it is there for them, whoever removes it
/// and whatever is done next, as long as not all of them have let go of it. It can
/// no longer be looked up, so there are only ever fewer of them.
pub proof fn removed_value_waits_for_every_holder<T, C: Config>(
    s: SlabModel<T>,
    tid: nat,
    steps: Seq<Step<T>>,
    key: usize,
)
    requires
        valid::<C>(),
        s.wf::<C>(),
        s.contains::<C>(key),
        is_run::<T, C>(s.remove::<C>(tid, key), steps),
        releases::<T>(steps, key) < holder_count(s.slot::<C>(key).holders),
    ensures
        ({
            let after = run::<T, C>(s.remove::<C>(tid, key), steps);
            let slot = after.slot::<C>(key);
            &&& after.wf::<C>()
            &&& !after.contains::<C>(key)
            &&& slot.gen == key_gen::<C>(key)
            &&& slot.state == State::Marked
            &&& slot.item == Some(last_written::<T>(steps, key, s.held_value::<C>(key)))
            &&& holder_count(slot.holders) + releases::<T>(steps, key) == holder_count(
                s.slot::<C>(key).holders,
            )
            &&& slot.holders is Exclusive <==> s.slot::<C>(key).holders is Exclusive
            &&& (after.is_shared::<C>(key) || after.is_locked::<C>(key))
        }),
{
    let first: Step<T> = Step::Remove { tid, key };
    step_keeps_wf::<T, C>(s, first);
    lemma_slot_exists::<T, C>(s, key);
    lemma_step_at::<T, C>(s, first, key);
    lemma_removed_value_waits::<T, C>(s.remove::<C>(tid, key), steps, key);
}

proof fn lemma_removed_value_waits<T, C: Config>(s: SlabModel<T>, steps: Seq<Step<T>>, key: usize)
    requires
        valid::<C>(),
        s.wf::<C>(),
        s.is_marked::<C>(key),
        is_run::<T, C>(s, steps),
        releases::<T>(steps, key) < holder_count(s.slot::<C>(key).holders),
    ensures
        ({
            let after = run::<T, C>(s, steps);
            let slot = after.slot::<C>(key);
            &&& after.wf::<C>()
            &&& after.is_marked::<C>(key)
            &&& slot.item == Some(last_written::<T>(steps, key, s.held_value::<C>(key)))
            &&& holder_count(slot.holders) + releases::<T>(steps, key) == holder_count(
                s.slot::<C>(key).holders,
            )
            &&& slot.holders is Exclusive <==> s.slot::<C>(key).holders is Exclusive
        }),
    decreases steps.len(),
{
    lemma_slot_exists::<T, C>(s, key);
    if steps.len() > 0 {
        step_keeps_wf::<T, C>(s, steps[0]);
        lemma_step_at::<T, C>(s, steps[0], key);
        marked_value_goes_with_last_holder::<T, C>(s, steps[0], key);
        lemma_removed_value_waits::<T, C>(steps[0].apply::<C>(s), steps.drop_first(), key);
    }
}

/// A value that is removed while some hold it is gone, and its slot vacant, when as
/// many have let go of it as held it.
pub proof fn removed_value_goes_after_every_release<T, C: Config>(
    s: SlabModel<T>,
    tid: nat,
    steps: Seq<Step<T>>,
    by: nat,
    key: usize,
)
    requires
        valid::<C>(),
        s.wf::<C>(),
        s.contains::<C>(key),
        is_run::<T, C>(s.remove::<C>(tid, key), steps),
        releases::<T>(steps, key) + 1 == holder_count(s.slot::<C>(key).holders),
    ensures
        ({
            let before = run::<T, C>(s.remove::<C>(tid, key), steps);
            let slot = before.release::<C>(by, key).slot::<C>(key);
            &&& (Step::<T>::Release { tid: by, key }).is_allowed::<C>(before)
            &&& slot.item is None
            &&& slot.state == State::Vacant
            &&& slot.gen != key_gen::<C>(key)
            &&& !is_full(before.release::<C>(by, key).shards[key_tid::<C>(key) as int])
        }),
{
    removed_value_waits_for_every_holder::<T, C>(s, tid, steps, key);
    let before: SlabModel<T> = run::<T, C>(s.remove::<C>(tid, key), steps);
    let last: Step<T> = Step::Release { tid: by, key };
    lemma_step_at::<T, C>(before, last, key);
    step_frees_at_most_once::<T, C>(before, last, key);
    freeing_makes_room::<T, C>(before, last);
}

/// A value that is taken while some hold it stays for them until every one of them
/// has let go of it, whoever takes it and whatever is done next, and can be redeemed
/// then and not before.
pub proof fn taken_value_waits_for_every_holder<T, C: Config>(
    s: SlabModel<T>,
    tid: nat,
    steps: Seq<Step<T>>,
    by: nat,
    key: usize,
)
    requires
        valid::<C>(),
        s.wf::<C>(),
        s.contains::<C>(key),
        s.slot::<C>(key).holders != Holders::Shared(0),
        is_run::<T, C>(s.take::<C>(tid, key), steps),
        forall|i: int| 0 <= i < steps.len() ==> !(#[trigger] steps[i]).redeems(key),
    ensures
        ({
            let after = run::<T, C>(s.take::<C>(tid, key), steps);
            let slot = after.slot::<C>(key);
            let held = holder_count(s.slot::<C>(key).holders);
            &&& after.wf::<C>()
            &&& !after.contains::<C>(key)
            &&& slot.gen == key_gen::<C>(key)
            &&& slot.state == State::Claimed
            &&& slot.item == Some(last_written::<T>(steps, key, s.held_value::<C>(key)))
            &&& holder_count(slot.holders) + releases::<T>(steps, key) == held
            &&& (Step::<T>::Redeem { tid: by, key }).is_allowed::<C>(after) <==> releases::<T>(
                steps,
                key,
            ) == held
            &&& slot.is_held() <==> releases::<T>(steps, key) < held
        }),
{
    let first: Step<T> = Step::Take { tid, key };
    step_keeps_wf::<T, C>(s, first);
    lemma_slot_exists::<T, C>(s, key);
    lemma_step_at::<T, C>(s, first, key);
    lemma_taken_value_waits::<T, C>(s.take::<C>(tid, key), steps, key);
}

proof fn lemma_taken_value_waits<T, C: Config>(s: SlabModel<T>, steps: Seq<Step<T>>, key: usize)
    requires
        valid::<C>(),
        s.wf::<C>(),
        s.is_claimed::<C>(key),
        is_run::<T, C>(s, steps),
        forall|i: int| 0 <= i < steps.len() ==> !(#[trigger] steps[i]).redeems(key),
    ensures
        ({
            let after = run::<T, C>(s, steps);
            let slot = after.slot::<C>(key);
            &&& after.wf::<C>()
            &&& after.is_claimed::<C>(key)
            &&& slot.item == Some(last_written::<T>(steps, key, s.held_value::<C>(key)))
            &&& holder_count(slot.holders) + releases::<T>(steps, key) == holder_count(
                s.slot::<C>(key).holders,
            )
        }),
    decreases steps.len(),
{
    lemma_slot_exists::<T, C>(s, key);
    if steps.len() > 0 {
        let rest: Seq<Step<T>> = steps.drop_first();
        assert(!steps[0].redeems(key));
        step_keeps_wf::<T, C>(s, steps[0]);
        lemma_step_at::<T, C>(s, steps[0], key);
        claim_stays::<T, C>(s, steps[0], key);
        assert forall|i: int| 0 <= i < rest.len() implies !(#[trigger] rest[i]).redeems(key) by {
            assert(rest[i] == steps[i + 1]);
        }
        lemma_taken_value_waits::<T, C>(steps[0].apply::<C>(s), rest, key);
    }
}

} // verus!
