use loom::sync::{Arc, Condvar, Mutex};
use loom::thread;
use sharded_slab::cfg::DefaultConfig;
use sharded_slab::page::{indices, slot::RefCount};
use sharded_slab::{Config, GetMutError, Guard, GuardMut, Pack, Slab, Take, Tid};
use std::fmt::{Debug, Formatter};
use std::sync::atomic::{AtomicBool, AtomicUsize, Ordering};

struct TinyConfig;

impl Config for TinyConfig {
    const INITIAL_PAGE_SIZE: usize = 4;
}

struct TinierConfig;

impl Config for TinierConfig {
    const INITIAL_PAGE_SIZE: usize = 2;
    const MAX_PAGES: usize = 1;
}

struct TwoSlotConfig;

impl Config for TwoSlotConfig {
    const INITIAL_PAGE_SIZE: usize = 2;
}

struct LargeGenConfig;

// A very large number of bits for the generation counter leaves very few bits
// for the reference count, so that not millions of references have to be made.
impl Config for LargeGenConfig {
    const INITIAL_PAGE_SIZE: usize = 2;
    const MAX_THREADS: usize = 32;
    const MAX_PAGES: usize = 2;
}

/// As many shards as the tests have threads.
const SHARDS: usize = 3;

/// A slab that threads share. An operation depends on the shard that it is about
/// and on no other, so there is a lock for every shard: loom then tries out all
/// the orders of the operations on one shard. The slab itself is locked within
/// one operation only, where loom does not switch between threads.
struct Locked<T, C: Config> {
    shards: Vec<Mutex<()>>,
    slab: std::sync::Mutex<Slab<T, C>>,
}

/// A slab that threads share, as one of them sees it.
struct Shared<T, C: Config> {
    slab: Arc<Locked<T, C>>,
    tid: Tid<C>,
}

/// A reference that is given back when it is dropped.
struct Ref<'a, T, C: Config> {
    on: &'a Shared<T, C>,
    key: usize,
    guard: Option<Guard>,
}

struct RefMut<'a, T, C: Config> {
    on: &'a Shared<T, C>,
    key: usize,
    guard: Option<GuardMut>,
}

impl<T, C: Config> Shared<T, C> {
    fn of(slab: Slab<T, C>) -> Self {
        let slab = Arc::new(Locked {
            shards: (0..SHARDS).map(|_| Mutex::new(())).collect(),
            slab: std::sync::Mutex::new(slab),
        });
        Shared {
            slab,
            tid: Tid::from_usize(0),
        }
    }

    /// The same slab for another thread.
    fn on_thread(&self, tid: usize) -> Self {
        Shared {
            slab: self.slab.clone(),
            tid: Tid::from_usize(tid),
        }
    }

    /// Does an operation that is about a shard.
    fn on_shard<R>(&self, shard: Tid<C>, f: impl FnOnce(&mut Slab<T, C>) -> R) -> R {
        let _turn = self.slab.shards[shard.as_usize()].lock().unwrap();
        f(&mut self.slab.slab.lock().unwrap())
    }

    /// Does an operation that is about the slot of a key.
    fn on_key<R>(&self, key: usize, f: impl FnOnce(&mut Slab<T, C>) -> R) -> R {
        self.on_shard(Tid::from_packed(key), f)
    }

    fn insert(&self, value: T) -> Option<usize> {
        self.on_shard(self.tid, |slab| slab.insert(self.tid, value))
    }

    fn get(&self, key: usize) -> Option<Ref<'_, T, C>> {
        let guard = self.on_key(key, |slab| slab.get(key));
        guard.map(|guard| Ref {
            on: self,
            key,
            guard: Some(guard),
        })
    }

    fn get_mut(&self, key: usize) -> Result<RefMut<'_, T, C>, GetMutError> {
        let guard = self.on_key(key, |slab| slab.get_mut(key));
        guard.map(|guard| RefMut {
            on: self,
            key,
            guard: Some(guard),
        })
    }

    fn remove(&self, key: usize) -> bool {
        self.on_key(key, |slab| slab.remove(self.tid, key))
    }

    fn take(&self, key: usize) -> Option<T> {
        let taken = self.on_key(key, |slab| slab.take(self.tid, key));
        let mut claim = match taken {
            Take::Taken(value) => return Some(value),
            Take::Absent => return None,
            Take::Pending(claim) => claim,
        };
        loop {
            let redeemed = self.on_key(key, |slab| slab.redeem(self.tid, claim));
            match redeemed {
                Ok(value) => return Some(value),
                Err(back) => claim = back,
            }
            thread::yield_now();
        }
    }
}

impl<T, C: Config> Ref<'_, T, C> {
    fn with<R>(&self, f: impl FnOnce(&T) -> R) -> R {
        let guard = self.guard.as_ref().unwrap();
        self.on.on_key(self.key, |slab| f(slab.value(guard)))
    }
}

impl<T, C: Config> Drop for Ref<'_, T, C> {
    fn drop(&mut self) {
        let guard = self.guard.take().unwrap();
        let tid = self.on.tid;
        self.on.on_key(self.key, |slab| slab.release(tid, guard));
    }
}

impl<T: PartialEq, C: Config> PartialEq<T> for Ref<'_, T, C> {
    fn eq(&self, other: &T) -> bool {
        self.with(|value| value == other)
    }
}

impl<T, C: Config> Debug for Ref<'_, T, C> {
    fn fmt(&self, f: &mut Formatter<'_>) -> std::fmt::Result {
        f.write_str("Ref")
    }
}

impl<T, C: Config> Drop for RefMut<'_, T, C> {
    fn drop(&mut self) {
        let guard = self.guard.take().unwrap();
        let tid = self.on.tid;
        self.on.on_key(self.key, |slab| slab.release_mut(tid, guard));
    }
}

impl<T: PartialEq, C: Config> PartialEq<T> for RefMut<'_, T, C> {
    fn eq(&self, other: &T) -> bool {
        let guard = self.guard.as_ref().unwrap();
        self.on.on_key(self.key, |slab| slab.value_locked(guard) == other)
    }
}

impl<T, C: Config> Debug for RefMut<'_, T, C> {
    fn fmt(&self, f: &mut Formatter<'_>) -> std::fmt::Result {
        f.write_str("RefMut")
    }
}

fn run_model(name: &'static str, f: impl Fn() + Sync + Send + 'static) {
    run_builder(name, loom::model::Builder::new(), f)
}

fn run_builder(
    name: &'static str,
    builder: loom::model::Builder,
    f: impl Fn() + Sync + Send + 'static,
) {
    let iters = AtomicUsize::new(1);
    builder.check(move || {
        println!(
            "\n------------ running test {}; iteration {} ------------\n",
            name,
            iters.fetch_add(1, Ordering::SeqCst)
        );
        f()
    });
}

#[test]
fn take_local() {
    run_model("take_local", || {
        let slab = Shared::of(Slab::new());

        let s = slab.on_thread(1);
        let t1 = thread::spawn(move || {
            let idx = s.insert(1).expect("insert");
            assert_eq!(s.get(idx).unwrap(), 1);
            assert_eq!(s.take(idx), Some(1));
            assert!(s.get(idx).is_none());
            let idx = s.insert(2).expect("insert");
            assert_eq!(s.get(idx).unwrap(), 2);
            assert_eq!(s.take(idx), Some(2));
            assert!(s.get(idx).is_none());
        });

        let s = slab.on_thread(2);
        let t2 = thread::spawn(move || {
            let idx = s.insert(3).expect("insert");
            assert_eq!(s.get(idx).unwrap(), 3);
            assert_eq!(s.take(idx), Some(3));
            assert!(s.get(idx).is_none());
            let idx = s.insert(4).expect("insert");
            assert_eq!(s.get(idx).unwrap(), 4);
            assert_eq!(s.take(idx), Some(4));
            assert!(s.get(idx).is_none());
        });

        let s = slab;
        let idx1 = s.insert(5).expect("insert");
        assert_eq!(s.get(idx1).unwrap(), 5);
        let idx2 = s.insert(6).expect("insert");
        assert_eq!(s.get(idx2).unwrap(), 6);
        assert_eq!(s.take(idx1), Some(5));
        assert!(s.get(idx1).is_none());
        assert_eq!(s.get(idx2).unwrap(), 6);
        assert_eq!(s.take(idx2), Some(6));
        assert!(s.get(idx2).is_none());

        t1.join().expect("thread 1 should not panic");
        t2.join().expect("thread 2 should not panic");
    });
}

#[test]
fn get_mut_local() {
    run_model("get_mut_local", || {
        let slab = Shared::of(Slab::new());
        let pair = Arc::new((Mutex::new(None), Condvar::new()));

        let idx = slab.insert(1).expect("insert");
        assert_eq!(slab.get_mut(idx).unwrap(), 1);

        let s = slab.on_thread(1);
        let pair1 = pair.clone();
        let t1 = thread::spawn(move || {
            let (lock, cvar) = &*pair1;

            let guard = s.get(idx);

            {
                // Let the other thread try to get mutable access after we have immutable access
                let mut next = lock.lock().unwrap();
                *next = Some(());
                cvar.notify_one();
            }

            let mut next = lock.lock().unwrap();
            // wait until other thread has mutable access before dropping guard
            while next.is_some() {
                next = cvar.wait(next).unwrap();
            }

            drop(guard);
        });

        let (lock, cvar) = &*pair;

        {
            let mut next = lock.lock().unwrap();
            // wait until the other thread has gained immutable access
            while next.is_none() {
                next = cvar.wait(next).unwrap();
            }
        }

        let guard = slab.get_mut(idx);
        assert!(guard.is_err());

        let mut next = lock.lock().unwrap();
        *next = None;
        // notify once we have tried and errored out
        cvar.notify_one();

        // Make sure to drop mutex guard so the other thread can make progress
        drop(next);
        t1.join().expect("thread 1 should not panic");
    })
}

#[test]
fn take_remote() {
    run_model("take_remote", || {
        let slab = Shared::of(Slab::new());

        let idx1 = slab.insert(1).expect("insert");
        assert_eq!(slab.get(idx1).unwrap(), 1);
        let idx2 = slab.insert(2).expect("insert");
        assert_eq!(slab.get(idx2).unwrap(), 2);

        let idx3 = slab.insert(3).expect("insert");
        assert_eq!(slab.get(idx3).unwrap(), 3);

        let s = slab.on_thread(1);
        let t1 = thread::spawn(move || {
            assert_eq!(s.get(idx2).unwrap(), 2);
            assert_eq!(s.take(idx2), Some(2));
        });

        let s = slab.on_thread(2);
        let t2 = thread::spawn(move || {
            assert_eq!(s.get(idx3).unwrap(), 3);
            assert_eq!(s.take(idx3), Some(3));
        });

        t1.join().expect("thread 1 should not panic");
        t2.join().expect("thread 2 should not panic");

        assert_eq!(slab.get(idx1).unwrap(), 1);
        assert!(slab.get(idx2).is_none());
        assert!(slab.get(idx3).is_none());
    });
}

#[test]
fn racy_take() {
    run_model("racy_take", || {
        let slab = Shared::of(Slab::new());

        let idx = slab.insert(1).expect("insert");
        assert_eq!(slab.get(idx).unwrap(), 1);

        let s1 = slab.on_thread(1);
        let s2 = slab.on_thread(2);

        let t1 = thread::spawn(move || s1.take(idx));
        let t2 = thread::spawn(move || s2.take(idx));

        let r1 = t1.join().expect("thread 1 should not panic");
        let r2 = t2.join().expect("thread 2 should not panic");

        assert!(
            r1.is_none() || r2.is_none(),
            "both threads should not have removed the value"
        );
        assert_eq!(
            r1.or(r2),
            Some(1),
            "one thread should have removed the value"
        );
        assert!(slab.get(idx).is_none());
    });
}

#[test]
fn racy_take_local() {
    run_model("racy_take_local", || {
        let slab = Shared::of(Slab::new());

        let idx = slab.insert(1).expect("insert");
        assert_eq!(slab.get(idx).unwrap(), 1);

        let s = slab.on_thread(1);
        let t2 = thread::spawn(move || s.take(idx));
        let r1 = slab.take(idx);
        let r2 = t2.join().expect("thread 2 should not panic");

        assert!(
            r1.is_none() || r2.is_none(),
            "both threads should not have removed the value"
        );
        assert!(
            r1.or(r2).is_some(),
            "one thread should have removed the value"
        );
        assert!(slab.get(idx).is_none());
    });
}

#[test]
fn concurrent_insert_take() {
    run_model("concurrent_insert_remove", || {
        let slab = Shared::of(Slab::new());
        let pair = Arc::new((Mutex::new(None), Condvar::new()));

        let slab2 = slab.on_thread(1);
        let pair2 = pair.clone();
        let remover = thread::spawn(move || {
            let (lock, cvar) = &*pair2;
            for i in 0..2 {
                println!("--- remover i={} ---", i);
                let mut next = lock.lock().unwrap();
                while next.is_none() {
                    next = cvar.wait(next).unwrap();
                }
                let key = next.take().unwrap();
                assert_eq!(slab2.take(key), Some(i));
                cvar.notify_one();
            }
        });

        let (lock, cvar) = &*pair;
        for i in 0..2 {
            println!("--- inserter i={} ---", i);
            let key = slab.insert(i).expect("insert");

            let mut next = lock.lock().unwrap();
            *next = Some(key);
            cvar.notify_one();

            // Wait for the item to be removed.
            while next.is_some() {
                next = cvar.wait(next).unwrap();
            }

            assert!(slab.get(key).is_none());
        }

        remover.join().unwrap();
    })
}

#[test]
fn take_remote_and_reuse() {
    run_model("take_remote_and_reuse", || {
        let slab = Shared::of(Slab::new_with_config::<TinyConfig>());

        let idx1 = slab.insert(1).expect("insert");
        let idx2 = slab.insert(2).expect("insert");
        let idx3 = slab.insert(3).expect("insert");
        let idx4 = slab.insert(4).expect("insert");

        assert_eq!(slab.get(idx1).unwrap(), 1);
        assert_eq!(slab.get(idx2).unwrap(), 2);
        assert_eq!(slab.get(idx3).unwrap(), 3);
        assert_eq!(slab.get(idx4).unwrap(), 4);

        let s = slab.on_thread(1);
        let t1 = thread::spawn(move || {
            assert_eq!(s.take(idx1), Some(1));
        });

        let idx1 = slab.insert(5).expect("insert");
        t1.join().expect("thread 1 should not panic");

        assert_eq!(slab.get(idx1).unwrap(), 5);
        assert_eq!(slab.get(idx2).unwrap(), 2);
        assert_eq!(slab.get(idx3).unwrap(), 3);
        assert_eq!(slab.get(idx4).unwrap(), 4);
    });
}

fn store_when_free<C: Config>(slab: &Shared<usize, C>, t: usize) -> usize {
    loop {
        println!("try store {:?}", t);
        if let Some(key) = slab.insert(t) {
            println!("inserted at {:#x}", key);
            return key;
        }
        println!("retrying; slab is full...");
        thread::yield_now();
    }
}

#[test]
fn concurrent_remove_remote_and_reuse() {
    let mut model = loom::model::Builder::new();
    model.max_branches = 100000;
    run_builder("concurrent_remove_remote_and_reuse", model, || {
        let slab = Shared::of(Slab::new_with_config::<TinierConfig>());

        let idx1 = slab.insert(1).unwrap();
        let idx2 = slab.insert(2).unwrap();

        assert_eq!(slab.get(idx1).unwrap(), 1);
        assert_eq!(slab.get(idx2).unwrap(), 2);

        let s = slab.on_thread(1);
        let s2 = slab.on_thread(2);

        let t1 = thread::spawn(move || {
            s.take(idx1).expect("must remove");
        });

        let t2 = thread::spawn(move || {
            s2.take(idx2).expect("must remove");
        });

        let idx3 = store_when_free(&slab, 3);
        t1.join().expect("thread 1 should not panic");
        t2.join().expect("thread 1 should not panic");

        assert!(slab.get(idx1).is_none());
        assert!(slab.get(idx2).is_none());
        assert_eq!(slab.get(idx3).unwrap(), 3);
    });
}

struct SetDropped {
    value: usize,
    dropped: std::sync::Arc<AtomicBool>,
}

struct AssertDropped {
    dropped: std::sync::Arc<AtomicBool>,
}

impl AssertDropped {
    fn new(value: usize) -> (Self, SetDropped) {
        let dropped = std::sync::Arc::new(AtomicBool::new(false));
        let val = SetDropped {
            value,
            dropped: dropped.clone(),
        };
        (Self { dropped }, val)
    }

    fn assert_dropped(&self) {
        assert!(
            self.dropped.load(Ordering::SeqCst),
            "value should have been dropped!"
        );
    }
}

impl Drop for SetDropped {
    fn drop(&mut self) {
        self.dropped.store(true, Ordering::SeqCst);
    }
}

#[test]
fn remove_local() {
    run_model("remove_local", || {
        let slab = Shared::of(Slab::new_with_config::<TinyConfig>());
        let slab2 = slab.on_thread(1);

        let (dropped, item) = AssertDropped::new(1);
        let idx = slab.insert(item).expect("insert");

        let guard = slab.get(idx).unwrap();

        assert!(slab.remove(idx));

        let t1 = thread::spawn(move || {
            let g = slab2.get(idx);
            drop(g);
        });

        assert!(slab.get(idx).is_none());

        t1.join().expect("thread 1 should not panic");

        drop(guard);
        assert!(slab.get(idx).is_none());
        dropped.assert_dropped();
    })
}

#[test]
fn remove_remote() {
    run_model("remove_remote", || {
        let slab = Shared::of(Slab::new_with_config::<TinyConfig>());
        let slab2 = slab.on_thread(1);

        let (dropped, item) = AssertDropped::new(1);
        let idx = slab.insert(item).expect("insert");

        assert!(slab.remove(idx));
        let t1 = thread::spawn(move || {
            let g = slab2.get(idx);
            drop(g);
        });

        t1.join().expect("thread 1 should not panic");

        assert!(slab.get(idx).is_none());
        dropped.assert_dropped();
    });
}

#[test]
fn remove_remote_during_insert() {
    run_model("remove_remote_during_insert", || {
        let slab = Shared::of(Slab::new_with_config::<TinyConfig>());
        let slab2 = slab.on_thread(1);

        let (dropped, item) = AssertDropped::new(1);
        let idx = slab.insert(item).expect("insert");

        let t1 = thread::spawn(move || {
            let g = slab2.get(idx);
            assert_ne!(g.as_ref().map(|v| v.with(|v| v.value)), Some(2));
            drop(g);
        });

        let (_, item) = AssertDropped::new(2);
        assert!(slab.remove(idx));
        let idx2 = slab.insert(item).expect("insert");

        t1.join().expect("thread 1 should not panic");

        assert!(slab.get(idx).is_none());
        assert!(slab.get(idx2).is_some());
        dropped.assert_dropped();
    });
}

#[test]
fn unique_iter() {
    run_model("unique_iter", || {
        let slab = Shared::of(Slab::new());

        let s = slab.on_thread(1);
        let t1 = thread::spawn(move || {
            s.insert(1).expect("insert");
            s.insert(2).expect("insert");
        });

        let s = slab.on_thread(2);
        let t2 = thread::spawn(move || {
            s.insert(3).expect("insert");
            s.insert(4).expect("insert");
        });

        t1.join().expect("thread 1 should not panic");
        t2.join().expect("thread 2 should not panic");

        let slab = slab.slab.slab.lock().unwrap();
        let items: Vec<_> = slab.unique_iter().into_iter().map(|&i| i).collect();
        assert!(items.contains(&1), "items: {:?}", items);
        assert!(items.contains(&2), "items: {:?}", items);
        assert!(items.contains(&3), "items: {:?}", items);
        assert!(items.contains(&4), "items: {:?}", items);
    });
}

#[test]
fn custom_page_sz() {
    let mut model = loom::model::Builder::new();
    model.max_branches = 100000;
    model.check(|| {
        let slab = Shared::of(Slab::<usize>::new_with_config::<TinyConfig>());

        for i in 0..1024usize {
            println!("{}", i);
            let k = slab.insert(i).expect("insert");
            let v = slab.get(k).expect("get");
            assert_eq!(v, i);
        }
    });
}

#[test]
fn max_refs() {
    let mut model = loom::model::Builder::new();
    model.max_branches = 100000;
    model.check(|| {
        let slab = Shared::of(Slab::new_with_config::<LargeGenConfig>());
        let key = slab.insert("hello world").unwrap();
        let max = RefCount::<LargeGenConfig>::max();

        // Create the maximum number of concurrent references to the entry.
        let mut refs = (0..max)
            .map(|_| slab.get(key).unwrap())
            // Store the refs in a vec so they don't get dropped immediately.
            .collect::<Vec<_>>();

        assert!(slab.get(key).is_none());

        // After dropping a ref, we should now be able to access the slot again.
        drop(refs.pop());
        let ref1 = slab.get(key);
        assert!(ref1.is_some());

        // Ref1 should max out the number of references again.
        assert!(slab.get(key).is_none());
    })
}

#[test]
fn local_remove() {
    run_model("free_list_reuse::local_remove", || {
        let slab = Shared::of(Slab::new_with_config::<TwoSlotConfig>());

        let t1 = slab.insert("hello").expect("insert");
        let t2 = slab.insert("world").expect("insert");
        assert_eq!(
            indices::<TwoSlotConfig>(t1).1,
            0,
            "1st slot should be on 0th page"
        );
        assert_eq!(
            indices::<TwoSlotConfig>(t2).1,
            0,
            "2nd slot should be on 0th page"
        );
        let t3 = slab.insert("earth").expect("insert");
        assert_eq!(
            indices::<TwoSlotConfig>(t3).1,
            1,
            "3rd slot should be on 1st page"
        );

        slab.remove(t2);
        let t4 = slab.insert("universe").expect("insert");
        assert_eq!(
            indices::<TwoSlotConfig>(t4).1,
            0,
            "2nd slot should be reused (0th page)"
        );

        slab.remove(t1);
        let _ = slab.insert("goodbye").expect("insert");
        assert_eq!(
            indices::<TwoSlotConfig>(t4).1,
            0,
            "1st slot should be reused (0th page)"
        );
    });
}

#[test]
fn local_take() {
    run_model("free_list_reuse::local_take", || {
        let slab = Shared::of(Slab::new_with_config::<TwoSlotConfig>());

        let t1 = slab.insert("hello").expect("insert");
        let t2 = slab.insert("world").expect("insert");
        assert_eq!(
            indices::<TwoSlotConfig>(t1).1,
            0,
            "1st slot should be on 0th page"
        );
        assert_eq!(
            indices::<TwoSlotConfig>(t2).1,
            0,
            "2nd slot should be on 0th page"
        );
        let t3 = slab.insert("earth").expect("insert");
        assert_eq!(
            indices::<TwoSlotConfig>(t3).1,
            1,
            "3rd slot should be on 1st page"
        );

        assert_eq!(slab.take(t2), Some("world"));
        let t4 = slab.insert("universe").expect("insert");
        assert_eq!(
            indices::<TwoSlotConfig>(t4).1,
            0,
            "2nd slot should be reused (0th page)"
        );

        assert_eq!(slab.take(t1), Some("hello"));
        let _ = slab.insert("goodbye").expect("insert");
        assert_eq!(
            indices::<TwoSlotConfig>(t4).1,
            0,
            "1st slot should be reused (0th page)"
        );
    });
}

#[test]
fn get_mut_basic() {
    run_model("get_mut_basic", || {
        let slab = Shared::<String, DefaultConfig>::of(Slab::new());

        let idx1 = slab.insert(String::from("hello world")).expect("create");
        let slab2 = slab.on_thread(1);
        let t1 = thread::spawn(move || {
            let v = slab2.get(idx1);
            if let Some(v) = v {
                assert_eq!(v, String::from("hello world"))
            }
        });

        let slab2 = slab.on_thread(2);
        let t2 = thread::spawn(move || {
            let v = slab2.get(idx1);
            if let Some(v) = v {
                assert_eq!(v, String::from("hello world"))
            }
        });
        let _mut = slab.get_mut(idx1);
        t1.join().unwrap();
        t2.join().unwrap();
    })
}

#[test]
fn get_mut_contended() {
    run_model("get_mut_contended", || {
        let slab = Shared::<String, DefaultConfig>::of(Slab::new());

        let idx1 = slab.insert(String::from("hello world")).expect("create");
        let slab2 = slab.on_thread(1);
        let t1 = thread::spawn(move || {
            let v = slab2.get_mut(idx1);
            if let Ok(v) = v {
                assert_eq!(v, String::from("hello world"))
            }
        });

        let slab2 = slab.on_thread(2);
        let t2 = thread::spawn(move || {
            let v = slab2.get_mut(idx1);
            if let Ok(v) = v {
                assert_eq!(v, String::from("hello world"))
            }
        });
        let _mut = slab.get_mut(idx1);
        t1.join().unwrap();
        t2.join().unwrap();
    })
}
