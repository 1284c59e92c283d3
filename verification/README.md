# sharded_slab

A slab is a store that hands out a `usize` key for every value put into it. This
one is made for threads that share it: every thread puts values into a shard of
its own, and any thread can look a value up, remove it or take it, even while
references to it are held.

The library under `src/` is verified with Verus.

- `cfg` has the parameters of a slab and the bit layout that follows from them.
- `pack`, `tid`, `key` and the types in `page` and `page::slot` put numbers into
  the fields of a word: the address, thread number and generation of a key, and
  the state, reference count and generation of a slot.
- `page::slot`, `page`, `shard` and `slab` are the slab itself. Each of them has a
  view, which is a value of a type of `model`.
- `model` is the mathematical model of a slab and says what every operation does
  to it.
- `laws`, `steps`, `capacity` and `listing` prove what follows: what is put in can
  be looked up, what is removed cannot, what is held stays, how much fits, and
  what is listed. `steps` has the operations of several threads as a sequence of
  steps, in any order. A key that was removed is not given out again before its
  slot has been freed as many times as a slot has generations.

An operation of the library is one step of one thread, and steps are taken one at
a time. The crate in `app/` puts the slab behind a lock, under which no code of
its callers runs, numbers the threads, gives references back when they are
dropped, and waits where a value that is taken is still held.

The tests under `tests/` run the slab under loom, which tries out how threads can
interleave.
