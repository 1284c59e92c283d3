use sharded_slab::cfg::{log2_ceil, validate, DefaultConfig};
use sharded_slab::key::{key, parts, shards};
use sharded_slab::page::slot::{Generation, RefCount};
use sharded_slab::page::{indices, Addr};
use sharded_slab::{Config, GetMutError, Pack, Registry, Slab, Take, Tid};
use std::cell::Cell;
use std::rc::Rc;

/// Pages of two and four slots.
struct SixSlots;

impl Config for SixSlots {
    const INITIAL_PAGE_SIZE: usize = 2;
    const MAX_THREADS: usize = 4;
    const MAX_PAGES: usize = 2;
}

/// As few generations as there can be.
struct FewGenerations;

impl Config for FewGenerations {
    const INITIAL_PAGE_SIZE: usize = 1;
    const MAX_THREADS: usize = 1;
    const MAX_PAGES: usize = usize::BITS as usize - 4;
}

/// As few references as there can be.
struct FewRefs;

impl Config for FewRefs {
    const INITIAL_PAGE_SIZE: usize = 1;
    const MAX_THREADS: usize = 2;
    const MAX_PAGES: usize = 1;
}

struct NoThreads;

impl Config for NoThreads {
    const MAX_THREADS: usize = 0;
}

struct NoPages;

impl Config for NoPages {
    const MAX_PAGES: usize = 0;
}

struct EmptyPages;

impl Config for EmptyPages {
    const INITIAL_PAGE_SIZE: usize = 0;
}

struct TooManyPages;

impl Config for TooManyPages {
    const MAX_PAGES: usize = usize::BITS as usize - 8;
}

struct HugePageCount;

impl Config for HugePageCount {
    const MAX_PAGES: usize = usize::MAX;
}

struct TooSmall;

impl Config for TooSmall {
    const INITIAL_PAGE_SIZE: usize = 1;
    const MAX_THREADS: usize = 1;
    const MAX_PAGES: usize = 1;
}

/// Counts how often it is dropped.
struct Counted(Rc<Cell<usize>>);

impl Drop for Counted {
    fn drop(&mut self) {
        self.0.set(self.0.get() + 1);
    }
}

fn tid<C: Config>(n: usize) -> Tid<C> {
    Tid::from_usize(n)
}

fn taken<T>(take: Take<T>) -> Option<T> {
    match take {
        Take::Taken(value) => Some(value),
        Take::Absent => None,
        Take::Pending(_) => panic!("the value is held"),
    }
}

#[test]
fn logarithms_are_rounded_up() {
    assert_eq!(log2_ceil(0), 0);
    assert_eq!(log2_ceil(1), 0);
    assert_eq!(log2_ceil(2), 1);
    assert_eq!(log2_ceil(3), 2);
    assert_eq!(log2_ceil(4), 2);
    assert_eq!(log2_ceil(5), 3);
    assert_eq!(log2_ceil(usize::MAX), usize::BITS as usize);
}

#[test]
fn configurations_are_validated() {
    assert!(validate::<DefaultConfig>());
    assert!(validate::<SixSlots>());
    assert!(validate::<FewGenerations>());
    assert!(validate::<FewRefs>());
    assert!(!validate::<NoThreads>());
    assert!(!validate::<NoPages>());
    assert!(!validate::<EmptyPages>());
    assert!(!validate::<TooManyPages>());
    assert!(!validate::<HugePageCount>());
    assert!(!validate::<TooSmall>());
}

#[test]
fn fields_have_their_places() {
    // Four bits of address, then three of thread number, then the generation.
    assert_eq!(Addr::<SixSlots>::len(), 4);
    assert_eq!(Addr::<SixSlots>::shift(), 0);
    assert_eq!(Addr::<SixSlots>::bits(), 15);
    assert_eq!(Tid::<SixSlots>::len(), 3);
    assert_eq!(Tid::<SixSlots>::shift(), 4);
    assert_eq!(Tid::<SixSlots>::bits(), 7);
    assert_eq!(Generation::<SixSlots>::shift(), 7);
    assert_eq!(Generation::<SixSlots>::len(), usize::BITS as usize - 7);
    assert_eq!(RefCount::<SixSlots>::shift(), 2);
    assert_eq!(RefCount::<SixSlots>::len(), 5);
    assert_eq!(RefCount::<SixSlots>::max(), 30);
    assert_eq!(RefCount::<FewRefs>::max(), 2);
    assert_eq!(shards::<SixSlots>(), 4);
    assert_eq!(shards::<DefaultConfig>(), 128);
}

#[test]
fn packing_replaces_a_field() {
    let word = 0b1_111_1111usize;
    assert_eq!(tid::<SixSlots>(2).pack(word), 0b1_010_1111);
    assert_eq!(tid::<SixSlots>(2).pack(0), 0b0_010_0000);
    assert_eq!(Addr::<SixSlots>::from_usize(5).pack(word), 0b1_111_0101);
    let gen = Generation::<SixSlots>::from_usize(6);
    assert_eq!(gen.pack(word), 0b110_111_1111);
    assert_eq!(Tid::<SixSlots>::from_packed(0b1_010_1111).as_usize(), 2);
    assert_eq!(Addr::<SixSlots>::from_packed(0b1_010_1101).as_usize(), 13);
}

#[test]
fn generations_start_over() {
    let last = Generation::<FewGenerations>::bits() - 1;
    assert_eq!(last, 2);
    let gen = Generation::<FewGenerations>::from_usize(0);
    assert_eq!(gen.advance().as_usize(), 1);
    assert_eq!(gen.advance().advance().as_usize(), 2);
    assert_eq!(gen.advance().advance().advance().as_usize(), 0);
}

#[test]
fn pages_double_in_size() {
    for (addr, page) in [(0, 0), (1, 0), (2, 1), (5, 1), (6, 2), (13, 2), (14, 3)] {
        assert_eq!(Addr::<SixSlots>::from_usize(addr).index(), page);
        assert_eq!(Addr::<SixSlots>::from_usize(addr).offset(), addr);
    }
    let (addr, page) = indices::<SixSlots>(0b1_011_0100);
    assert_eq!(addr.as_usize(), 4);
    assert_eq!(page, 1);
}

#[test]
fn keys_are_made_of_parts() {
    let gen = Generation::<SixSlots>::from_usize(5);
    let k = key(tid::<SixSlots>(3), 1, 2, gen);
    assert_eq!(k, 0b101_011_0100);
    let p = parts::<SixSlots>(k).unwrap();
    assert_eq!((p.tid, p.page, p.slot, p.gen.as_usize()), (3, 1, 2, 5));
    // No such thread, and no such page.
    assert!(parts::<SixSlots>(0b0_100_0000).is_none());
    assert!(parts::<SixSlots>(0b0_000_0110).is_none());
}

#[test]
fn keys_are_given_out_in_order() {
    let mut slab = Slab::new_with_config::<SixSlots>();
    for i in 0..6usize {
        assert_eq!(slab.insert(tid(0), i), Some(i));
    }
    assert_eq!(slab.insert(tid(0), 6), None);
    assert_eq!(slab.try_insert(tid(0), 7), Err(7));
    // Another thread has a shard of its own.
    assert_eq!(slab.insert(tid(2), 8), Some(0b010_0000));
    assert_eq!(slab.unique_iter(), vec![&0, &1, &2, &3, &4, &5, &8]);
}

#[test]
fn full_shard_takes_values_again() {
    let mut slab = Slab::new_with_config::<SixSlots>();
    for i in 0..6usize {
        slab.insert(tid(0), i).unwrap();
    }
    assert!(slab.remove(tid(1), 3));
    // The same slot, at the next generation.
    assert_eq!(slab.try_insert(tid(0), 9), Ok(0b1_000_0011));
    assert_eq!(slab.try_insert(tid(0), 10), Err(10));
}

#[test]
fn freed_slots_are_reused_last_first() {
    let mut slab = Slab::new_with_config::<SixSlots>();
    for i in 0..6usize {
        slab.insert(tid(0), i).unwrap();
    }
    // Freed by another thread: slots 2 and 3 of the shard. Freed by its own: 4 and 5.
    assert!(slab.remove(tid(1), 2));
    assert!(slab.remove(tid(0), 4));
    assert!(slab.remove(tid(1), 3));
    assert!(slab.remove(tid(0), 5));
    let gen = 0b1_000_0000;
    assert_eq!(slab.insert(tid(0), 10), Some(gen + 5));
    assert_eq!(slab.insert(tid(0), 11), Some(gen + 4));
    assert_eq!(slab.insert(tid(0), 12), Some(gen + 3));
    assert!(slab.remove(tid(1), 0));
    // The first page comes first again.
    assert_eq!(slab.insert(tid(0), 13), Some(gen));
    assert_eq!(slab.insert(tid(0), 14), Some(gen + 2));
    assert_eq!(slab.insert(tid(0), 15), None);
}

#[test]
fn what_is_inserted_can_be_looked_up() {
    let mut slab = Slab::new();
    let a = slab.insert(tid(0), "a").unwrap();
    let b = slab.insert(tid(1), "b").unwrap();
    assert_ne!(a, b);
    let ga = slab.get(a).unwrap();
    let gb = slab.get(b).unwrap();
    assert_eq!((ga.key(), gb.key()), (a, b));
    assert_eq!(*slab.value(&ga), "a");
    assert_eq!(*slab.value(&gb), "b");
    slab.release(tid(0), ga);
    slab.release(tid(0), gb);
    assert_eq!(taken(slab.take(tid(0), a)), Some("a"));
    assert!(slab.get(a).is_none());
    let gb = slab.get(b).unwrap();
    assert_eq!(*slab.value(&gb), "b");
    slab.release(tid(1), gb);
}

#[test]
fn unknown_keys_lead_nowhere() {
    let mut slab = Slab::<&str>::new_with_config::<SixSlots>();
    let k = slab.insert(tid(0), "a").unwrap();
    // An unused slot, an unused page, an unused shard, no such page, no such
    // thread, and another generation.
    for other in [1, 2, 0b011_0000, 6, 0b100_0000, k + 0b1000_0000] {
        assert!(slab.get(other).is_none());
        assert_eq!(slab.get_mut(other).unwrap_err(), GetMutError::Absent);
        assert!(!slab.remove(tid(0), other));
        assert_eq!(taken(slab.take(tid(0), other)), None);
    }
    assert_eq!(slab.unique_iter(), vec![&"a"]);
}

#[test]
fn removal_happens_once() {
    let mut slab = Slab::new();
    let k = slab.insert(tid(0), 1).unwrap();
    assert!(slab.remove(tid(1), k));
    assert!(!slab.remove(tid(1), k));
    assert_eq!(taken(slab.take(tid(0), k)), None);
    let k = slab.insert(tid(0), 2).unwrap();
    assert_eq!(taken(slab.take(tid(0), k)), Some(2));
    assert_eq!(taken(slab.take(tid(1), k)), None);
    assert!(!slab.remove(tid(0), k));
}

#[test]
fn removed_value_is_dropped_with_its_last_reference() {
    let drops = Rc::new(Cell::new(0));
    let mut slab = Slab::new_with_config::<SixSlots>();
    let k = slab.insert(tid(0), Counted(drops.clone())).unwrap();
    let first = slab.get(k).unwrap();
    let second = slab.get(k).unwrap();
    assert!(slab.remove(tid(0), k));
    assert!(!slab.remove(tid(0), k));
    assert!(slab.get(k).is_none());
    assert!(slab.unique_iter().is_empty());
    slab.release(tid(0), first);
    assert_eq!(drops.get(), 0);
    assert!(Rc::ptr_eq(&slab.value(&second).0, &drops));
    slab.release(tid(0), second);
    assert_eq!(drops.get(), 1);
    // The slot is free again.
    let again = slab.insert(tid(0), Counted(drops.clone())).unwrap();
    assert_eq!(again, k + 0b1000_0000);
    assert!(slab.remove(tid(0), again));
    assert_eq!(drops.get(), 2);
}

#[test]
fn value_removed_while_locked_is_dropped_on_release() {
    let drops = Rc::new(Cell::new(0));
    let mut slab = Slab::new();
    let k = slab.insert(tid(0), Counted(drops.clone())).unwrap();
    let guard = slab.get_mut(k).unwrap();
    assert!(slab.remove(tid(1), k));
    assert_eq!(slab.get_mut(k).unwrap_err(), GetMutError::Absent);
    assert_eq!(drops.get(), 0);
    slab.release_mut(tid(0), guard);
    assert_eq!(drops.get(), 1);
}

#[test]
fn taking_a_held_value_waits_for_its_holders() {
    let mut slab = Slab::new();
    let k = slab.insert(tid(0), 5).unwrap();
    let guard = slab.get(k).unwrap();
    let claim = match slab.take(tid(1), k) {
        Take::Pending(claim) => claim,
        _ => panic!("the value is held"),
    };
    assert_eq!(claim.key(), k);
    assert!(slab.get(k).is_none());
    assert!(!slab.remove(tid(0), k));
    assert_eq!(taken(slab.take(tid(0), k)), None);
    let claim = slab.redeem(tid(1), claim).unwrap_err();
    assert_eq!(*slab.value(&guard), 5);
    slab.release(tid(0), guard);
    assert!(slab.get(k).is_none());
    assert_eq!(slab.redeem(tid(1), claim).unwrap(), 5);
    assert!(slab.get(k).is_none());
}

#[test]
fn one_alone_can_change_a_value() {
    let mut slab = Slab::new();
    let k = slab.insert(tid(0), String::from("hello")).unwrap();
    let shared = slab.get(k).unwrap();
    assert_eq!(slab.get_mut(k).unwrap_err(), GetMutError::InUse);
    slab.release(tid(0), shared);
    let alone = slab.get_mut(k).unwrap();
    assert_eq!(alone.key(), k);
    assert!(slab.get(k).is_none());
    assert_eq!(slab.get_mut(k).unwrap_err(), GetMutError::InUse);
    slab.value_mut(&alone).push_str(" world");
    assert_eq!(slab.value_locked(&alone), "hello world");
    slab.release_mut(tid(0), alone);
    let shared = slab.get(k).unwrap();
    assert_eq!(slab.value(&shared), "hello world");
    slab.release(tid(0), shared);
    assert_eq!(taken(slab.take(tid(0), k)), Some(String::from("hello world")));
}

#[test]
fn references_run_out() {
    let mut slab = Slab::new_with_config::<FewRefs>();
    let k = slab.insert(tid(0), 1).unwrap();
    let first = slab.get(k).unwrap();
    let second = slab.get(k).unwrap();
    assert!(slab.get(k).is_none());
    slab.release(tid(1), first);
    let third = slab.get(k).unwrap();
    assert!(slab.get(k).is_none());
    slab.release(tid(0), second);
    slab.release(tid(0), third);
    assert!(slab.get_mut(k).is_ok());
}

#[test]
fn keys_come_back_after_all_generations() {
    let mut slab = Slab::new_with_config::<FewGenerations>();
    let first = slab.insert(tid(0), 0).unwrap();
    assert!(slab.remove(tid(0), first));
    let second = slab.insert(tid(0), 1).unwrap();
    assert!(slab.get(first).is_none());
    assert!(slab.remove(tid(0), second));
    let third = slab.insert(tid(0), 2).unwrap();
    assert!(slab.get(first).is_none() && slab.get(second).is_none());
    assert!(slab.remove(tid(0), third));
    assert_eq!(slab.insert(tid(0), 3), Some(first));
    assert_eq!(second, 1 << (usize::BITS - 2));
    assert_eq!(third, 2 << (usize::BITS - 2));
}

#[test]
fn removed_key_stays_gone_while_its_slot_is_left_alone() {
    let mut slab = Slab::new_with_config::<FewGenerations>();
    let a = slab.insert(tid(0), 'a').unwrap();
    let b = slab.insert(tid(0), 'b').unwrap();
    assert_eq!(taken(slab.take(tid(0), b)), Some('b'));
    // Far more steps than a slot has generations, none of which frees the slot.
    for _ in 0..100 {
        let guard = slab.get(a).unwrap();
        assert_eq!(*slab.value(&guard), 'a');
        slab.release(tid(0), guard);
        assert!(slab.get(b).is_none());
    }
}

#[test]
fn stored_value_reads_as_stored_whatever_else_happens() {
    let mut slab = Slab::new_with_config::<SixSlots>();
    let key = slab.insert(tid(1), 7).unwrap();
    for i in 0..100 {
        let other = slab.insert(tid(1), i).unwrap();
        assert_ne!(other, key);
        assert!(slab.remove(tid(i % 4), other));
        let guard = slab.get(key).unwrap();
        assert_eq!(*slab.value(&guard), 7);
        slab.release(tid(0), guard);
    }
}

#[test]
fn default_parameters() {
    assert_eq!(DefaultConfig::MAX_THREADS, 128);
    assert_eq!(DefaultConfig::MAX_PAGES, usize::BITS as usize / 2);
    assert_eq!(DefaultConfig::INITIAL_PAGE_SIZE, 32);
    assert_eq!(shards::<DefaultConfig>(), 128);
    assert_eq!(indices::<DefaultConfig>(31).1, 0);
    assert_eq!(indices::<DefaultConfig>(32).1, 1);
}

#[test]
fn slot_of_a_taken_value_is_reused() {
    let mut slab = Slab::new_with_config::<SixSlots>();
    for i in 0..6usize {
        slab.insert(tid(0), i).unwrap();
    }
    assert_eq!(taken(slab.take(tid(0), 4)), Some(4));
    assert_eq!(slab.insert(tid(0), 9), Some(0b1_000_0100));
    assert!(slab.get(4).is_none());
}

#[test]
fn removed_value_outlives_other_steps_until_it_is_let_go() {
    let mut slab = Slab::new_with_config::<SixSlots>();
    let value = Rc::new(1);
    let key = slab.insert(tid(0), value.clone()).unwrap();
    let first = slab.get(key).unwrap();
    let second = slab.get(key).unwrap();
    assert!(slab.remove(tid(0), key));
    // The slot is not free, so the next values go elsewhere.
    let other = slab.insert(tid(0), Rc::new(2)).unwrap();
    assert_eq!(other, 1);
    slab.release(tid(1), first);
    assert_eq!(**slab.value(&second), 1);
    assert!(slab.remove(tid(0), other));
    assert_eq!(Rc::strong_count(&value), 2);
    slab.release(tid(1), second);
    assert_eq!(Rc::strong_count(&value), 1);
}

#[test]
fn what_is_redeemed_is_what_was_written_last() {
    let mut slab = Slab::new_with_config::<SixSlots>();
    let key = slab.insert(tid(0), 'a').unwrap();
    let guard = slab.get_mut(key).unwrap();
    let mut claim = match slab.take(tid(1), key) {
        Take::Pending(claim) => claim,
        _ => panic!("the value is held"),
    };
    *slab.value_mut(&guard) = 'b';
    let other = slab.insert(tid(0), 'c').unwrap();
    claim = slab.redeem(tid(1), claim).err().unwrap();
    *slab.value_mut(&guard) = 'd';
    assert!(slab.remove(tid(0), other));
    slab.release_mut(tid(0), guard);
    assert!(slab.get(key).is_none());
    assert_eq!(slab.redeem(tid(1), claim).ok(), Some('d'));
}

#[test]
fn threads_get_numbers() {
    let mut registry = Registry::<SixSlots>::new();
    let ids: Vec<_> = (0..4).map(|_| registry.register().unwrap()).collect();
    let numbers: Vec<usize> = ids.iter().map(|id| id.as_usize()).collect();
    assert_eq!(numbers, vec![0, 1, 2, 3]);
    assert!(registry.register().is_none());
    registry.release(ids[2]);
    registry.release(ids[1]);
    assert_eq!(registry.register().unwrap().as_usize(), 1);
    assert_eq!(registry.register().unwrap().as_usize(), 2);
    assert!(registry.register().is_none());
}
