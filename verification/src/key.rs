//! Keys: the words that a slab gives out for the values put into it.
//!
//! From its lowest bit on, a key holds the address of a slot within its shard,
//! the number of the shard, and the generation of the slot.

use crate::cfg::{
    addr_len,
    gen_len,
    gen_shift,
    lemma_layout,
    lemma_pow2_fits,
    log2_ceil,
    max_shards,
    page_bits,
    page_size,
    prev_size,
    shard_bits,
    tid_len,
    valid,
    Config,
};
use crate::model::{in_range, key_addr, key_gen, key_of, key_page, key_slot, key_tid};
use crate::pack::{field, lemma_three_fields, lemma_with_field, with_field, Pack};
use crate::page::slot::Generation;
use crate::page::{
    indices,
    lemma_in_page,
    lemma_page_of,
    lemma_prev_size,
    lemma_prev_size_increases,
    Addr,
};
use crate::tid::Tid;
use vstd::arithmetic::power2::{lemma_pow2_strictly_increases, pow2};
use vstd::prelude::*;

verus! {

/// The parts that a key is made of, for a slot that there is.
pub struct Parts<C: Config> {
    pub tid: usize,
    pub page: usize,
    pub slot: usize,
    pub gen: Generation<C>,
}

/// Every address of a slot fits in the field that a key has for it, and every
/// number of a shard in the one that a key has for that.
pub proof fn lemma_ranges<C: Config>(page: nat)
    requires
        valid::<C>(),
        page < C::MAX_PAGES,
    ensures
        prev_size::<C>(page) + page_size::<C>(page) <= pow2(addr_len::<C>()) <= usize::MAX,
        max_shards::<C>() < pow2(tid_len::<C>()) <= usize::MAX,
{
    lemma_layout::<C>();
    lemma_prev_size::<C>(page);
    lemma_prev_size_increases::<C>(page + 1, C::MAX_PAGES as nat);
    lemma_pow2_strictly_increases(page_bits::<C>() + C::MAX_PAGES as nat, addr_len::<C>());
    lemma_pow2_strictly_increases(page_bits::<C>(), page_bits::<C>() + C::MAX_PAGES as nat);
    lemma_pow2_strictly_increases(shard_bits::<C>(), tid_len::<C>());
    lemma_pow2_fits(addr_len::<C>());
    lemma_pow2_fits(tid_len::<C>());
}

/// A key is made up of its parts.
pub proof fn lemma_key_parts<C: Config>(key: usize)
    requires
        valid::<C>(),
    ensures
        key == key_of::<C>(
            key_tid::<C>(key),
            key_page::<C>(key),
            key_slot::<C>(key),
            key_gen::<C>(key),
        ),
{
    lemma_layout::<C>();
    lemma_in_page::<C>(key_addr::<C>(key));
    lemma_three_fields(key, addr_len::<C>(), tid_len::<C>(), gen_len::<C>());
}

/// A word with the given address, number of a shard and generation in its fields.
spec fn packed<C: Config>(tid: nat, addr: nat, gen: nat) -> nat {
    with_field(
        with_field(
            with_field(0, 0, addr_len::<C>(), addr),
            addr_len::<C>(),
            tid_len::<C>(),
            tid,
        ),
        gen_shift::<C>(),
        gen_len::<C>(),
        gen,
    )
}

/// A key that was made of some parts is made up of just those.
proof fn lemma_packed<C: Config>(tid: nat, page: nat, slot: nat, gen: nat)
    requires
        valid::<C>(),
        tid < max_shards::<C>(),
        page < C::MAX_PAGES,
        slot < page_size::<C>(page),
        gen < pow2(gen_len::<C>()),
    ensures
        packed::<C>(tid, prev_size::<C>(page) + slot, gen) == key_of::<C>(tid, page, slot, gen),
        key_of::<C>(tid, page, slot, gen) <= usize::MAX,
        ({
            let key = key_of::<C>(tid, page, slot, gen) as usize;
            &&& in_range::<C>(key)
            &&& key_tid::<C>(key) == tid
            &&& key_page::<C>(key) == page
            &&& key_slot::<C>(key) == slot
            &&& key_gen::<C>(key) == gen
        }),
{
    lemma_layout::<C>();
    lemma_ranges::<C>(page);
    let addr: nat = prev_size::<C>(page) + slot;
    lemma_with_field(0, 0, addr_len::<C>(), addr);
    let word: usize = with_field(0, 0, addr_len::<C>(), addr) as usize;
    lemma_with_field(word, addr_len::<C>(), tid_len::<C>(), tid);
    let word2: usize = with_field(word as nat, addr_len::<C>(), tid_len::<C>(), tid) as usize;
    lemma_with_field(word2, gen_shift::<C>(), gen_len::<C>(), gen);
    let key: usize = with_field(word2 as nat, gen_shift::<C>(), gen_len::<C>(), gen) as usize;
    lemma_prev_size::<C>(page);
    lemma_page_of::<C>(addr, page);
    lemma_key_parts::<C>(key);
}

/// A key that was made of some parts is made up of just those.
pub proof fn key_of_has_parts<C: Config>(tid: nat, page: nat, slot: nat, gen: nat)
    requires
        valid::<C>(),
        tid < max_shards::<C>(),
        page < C::MAX_PAGES,
        slot < page_size::<C>(page),
        gen < pow2(gen_len::<C>()),
    ensures
        key_of::<C>(tid, page, slot, gen) <= usize::MAX,
        ({
            let key = key_of::<C>(tid, page, slot, gen) as usize;
            &&& in_range::<C>(key)
            &&& key_tid::<C>(key) == tid
            &&& key_page::<C>(key) == page
            &&& key_slot::<C>(key) == slot
            &&& key_gen::<C>(key) == gen
        }),
{
    lemma_packed::<C>(tid, page, slot, gen);
}

/// An address, the number of a thread and a generation that are packed into one
/// word can all be read back from it, in whichever order they were packed.
pub proof fn packed_parts_roundtrip<C: Config>(to: usize, addr: nat, tid: nat, gen: nat)
    requires
        valid::<C>(),
        addr < pow2(addr_len::<C>()),
        tid < pow2(tid_len::<C>()),
        gen < pow2(gen_len::<C>()),
    ensures
        ({
            let (a, t, g) = (addr_len::<C>(), tid_len::<C>(), gen_len::<C>());
            let s = gen_shift::<C>();
            let word = with_field(to as nat, 0, a, addr);
            let tid_last = with_field(with_field(word, s, g, gen), a, t, tid);
            let gen_last = with_field(with_field(word, a, t, tid), s, g, gen);
            &&& tid_last <= usize::MAX
            &&& tid_last == gen_last
            &&& field(tid_last, 0, a) == addr
            &&& field(tid_last, a, t) == tid
            &&& field(tid_last, s, g) == gen
        }),
{
    lemma_layout::<C>();
    let (a, t, g): (nat, nat, nat) = (addr_len::<C>(), tid_len::<C>(), gen_len::<C>());
    let s: nat = gen_shift::<C>();
    lemma_with_field(to, 0, a, addr);
    let word: usize = with_field(to as nat, 0, a, addr) as usize;
    lemma_with_field(word, s, g, gen);
    lemma_with_field(word, a, t, tid);
    let with_gen: usize = with_field(word as nat, s, g, gen) as usize;
    let with_tid: usize = with_field(word as nat, a, t, tid) as usize;
    lemma_with_field(with_gen, a, t, tid);
    lemma_with_field(with_tid, s, g, gen);
    let tid_last: usize = with_field(with_gen as nat, a, t, tid) as usize;
    let gen_last: usize = with_field(with_tid as nat, s, g, gen) as usize;
    lemma_three_fields(tid_last, a, t, g);
    lemma_three_fields(gen_last, a, t, g);
}

/// The key of slot `slot` on page `page` of shard `tid`, at generation `gen`.
pub fn key<C: Config>(tid: Tid<C>, page: usize, slot: usize, gen: Generation<C>) -> (r: usize)
    requires
        valid::<C>(),
        tid.is_thread(),
        page < C::MAX_PAGES,
        slot < page_size::<C>(page as nat),
        gen.number() < pow2(gen_len::<C>()),
    ensures
        r == key_of::<C>(tid.number(), page as nat, slot as nat, gen.number()),
{
    proof {
        lemma_ranges::<C>(page as nat);
        assert(Tid::<C>::field_len() == tid_len::<C>());
        assert(Tid::<C>::field_shift() == addr_len::<C>());
        assert(Addr::<C>::field_len() == addr_len::<C>());
        assert(Addr::<C>::field_shift() == 0);
        assert(Generation::<C>::field_len() == gen_len::<C>());
        assert(Generation::<C>::field_shift() == gen_shift::<C>());
        lemma_packed::<C>(tid.number(), page as nat, slot as nat, gen.number());
    }
    let addr: Addr<C> = Addr::from_usize(slots_before::<C>(page) + slot);
    gen.pack(tid.pack(addr.pack(0)))
}

/// The number of slots in all the pages before page `page`.
fn slots_before<C: Config>(page: usize) -> (r: usize)
    requires
        valid::<C>(),
        page < C::MAX_PAGES,
    ensures
        r == prev_size::<C>(page as nat),
{
    let bits: usize = log2_ceil(C::INITIAL_PAGE_SIZE);
    proof {
        lemma_layout::<C>();
        lemma_pow2_fits(page_bits::<C>());
        lemma_pow2_fits(page_bits::<C>() + page as nat);
        lemma_prev_size_increases::<C>(0, page as nat);
        vstd::bits::lemma_usize_shl_is_mul(1, bits);
        vstd::bits::lemma_usize_shl_is_mul(1, (bits + page) as usize);
        if page > 0 {
            lemma_pow2_strictly_increases(page_bits::<C>(), page_bits::<C>() + page as nat);
        }
    }
    (1usize << (bits + page)) - (1usize << bits)
}

/// The number of shards.
pub fn shards<C: Config>() -> (r: usize)
    requires
        valid::<C>(),
    ensures
        r == max_shards::<C>(),
{
    let bits: usize = log2_ceil(C::MAX_THREADS);
    proof {
        lemma_layout::<C>();
        lemma_pow2_fits(shard_bits::<C>());
        vstd::bits::lemma_usize_shl_is_mul(1, bits);
    }
    1usize << bits
}

/// Takes a key apart. Gives nothing where there is no slot that the key leads
/// to.
pub fn parts<C: Config>(key: usize) -> (r: Option<Parts<C>>)
    requires
        valid::<C>(),
    ensures
        r is Some <==> in_range::<C>(key),
        r matches Some(parts) ==> {
            &&& parts.tid == key_tid::<C>(key)
            &&& parts.page == key_page::<C>(key)
            &&& parts.slot == key_slot::<C>(key)
            &&& parts.slot < page_size::<C>(parts.page as nat)
            &&& parts.gen.number() == key_gen::<C>(key)
        },
{
    proof {
        assert(Tid::<C>::field_len() == tid_len::<C>());
        assert(Tid::<C>::field_shift() == addr_len::<C>());
        assert(Generation::<C>::field_len() == gen_len::<C>());
        assert(Generation::<C>::field_shift() == gen_shift::<C>());
    }
    let tid: Tid<C> = Tid::from_packed(key);
    let gen: Generation<C> = Generation::from_packed(key);
    let (addr, page): (Addr<C>, usize) = indices(key);
    if tid.as_usize() >= shards::<C>() || page >= C::MAX_PAGES {
        return None;
    }
    let before: usize = slots_before::<C>(page);
    proof {
        lemma_prev_size::<C>(page as nat);
    }
    Some(Parts { tid: tid.as_usize(), page, slot: addr.offset() - before, gen })
}

} // verus!
