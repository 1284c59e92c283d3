//! What a slab can be tuned by, and the bit layout that follows from it.

use vstd::arithmetic::power2::{lemma_pow2_pos, lemma_pow2_unfold, pow2};
use vstd::prelude::*;

verus! {

/// The parameters of a slab. An implementation overrides the constants that it
/// wants to differ from the defaults.
pub trait Config: Sized {
    /// How many threads can own a shard.
    const MAX_THREADS: usize = 128;

    /// How many pages a shard can grow to.
    const MAX_PAGES: usize = usize::BITS as usize / 2;

    /// How many slots the first page of a shard has. Rounded up to a power of
    /// two. Every further page has twice as many slots as the one before it.
    const INITIAL_PAGE_SIZE: usize = 32;
}

/// The configuration of a slab that was created without naming one.
#[derive(Clone, Copy, Debug, PartialEq, Eq)]
pub struct DefaultConfig;

impl Config for DefaultConfig {

}

/// The least `k` with `n <= 2^k`.
pub open spec fn ceil_log2(n: nat) -> nat
    decreases n,
{
    if n <= 1 {
        0
    } else {
        1 + ceil_log2((n / 2 + n % 2) as nat)
    }
}

/// The number of bits in a word.
pub open spec fn width() -> nat {
    usize::BITS as nat
}

/// The logarithm of the size of the first page.
pub open spec fn page_bits<C: Config>() -> nat {
    ceil_log2(C::INITIAL_PAGE_SIZE as nat)
}

/// The logarithm of the number of shards.
pub open spec fn shard_bits<C: Config>() -> nat {
    ceil_log2(C::MAX_THREADS as nat)
}

/// The number of shards.
pub open spec fn max_shards<C: Config>() -> nat {
    pow2(shard_bits::<C>())
}

/// The number of slots in page `page` of a shard.
pub open spec fn page_size<C: Config>(page: nat) -> nat {
    pow2(page_bits::<C>() + page)
}

/// The number of slots in all the pages before page `page` of a shard.
pub open spec fn prev_size<C: Config>(page: nat) -> nat {
    (pow2(page_bits::<C>() + page) - pow2(page_bits::<C>())) as nat
}

/// The number of bits of an address within a shard. One bit is to spare.
pub open spec fn addr_len<C: Config>() -> nat {
    (C::MAX_PAGES + page_bits::<C>() + 1) as nat
}

/// The number of bits of a thread's number. One bit is to spare.
pub open spec fn tid_len<C: Config>() -> nat {
    shard_bits::<C>() + 1
}

/// The number of bits below the generation, both in a key and in the word that
/// describes a slot.
pub open spec fn gen_shift<C: Config>() -> nat {
    addr_len::<C>() + tid_len::<C>()
}

/// The number of bits of a generation: all that the address and the thread's
/// number leave of a word.
pub open spec fn gen_len<C: Config>() -> nat {
    (width() - gen_shift::<C>()) as nat
}

/// The number of bits of a slot's state.
pub open spec fn state_len() -> nat {
    2
}

/// The number of bits of a reference count: all that the state and the
/// generation leave of a word.
pub open spec fn ref_len<C: Config>() -> nat {
    (gen_shift::<C>() - state_len()) as nat
}

/// Whether a slab can be built with these parameters: there is room for a
/// generation of at least two bits and for a reference count of at least two.
pub open spec fn valid<C: Config>() -> bool {
    &&& 1 <= C::MAX_THREADS
    &&& 1 <= C::MAX_PAGES
    &&& 1 <= C::INITIAL_PAGE_SIZE
    &&& gen_shift::<C>() + 2 <= width()
    &&& state_len() + 2 <= gen_shift::<C>()
}

/// A word has 32 or 64 bits, and holds the numbers below `2^width()`.
pub proof fn lemma_width()
    ensures
        width() == 32 || width() == 64,
        pow2(width()) == usize::MAX + 1,
{
    vstd::arithmetic::power2::lemma2_to64();
    vstd::arithmetic::power2::lemma2_to64_rest();
    vstd::layout::unsigned_int_max_values();
}

/// `ceil_log2(n)` is the least exponent of a power of two that is not below `n`.
pub proof fn lemma_ceil_log2(n: nat)
    ensures
        n <= pow2(ceil_log2(n)),
        forall|k: nat| n <= pow2(k) ==> ceil_log2(n) <= k,
    decreases n,
{
    lemma_pow2_pos(ceil_log2(n));
    if n > 1 {
        let half: nat = (n / 2 + n % 2) as nat;
        lemma_ceil_log2(half);
        lemma_pow2_unfold(ceil_log2(n));
        assert forall|k: nat| n <= pow2(k) implies ceil_log2(n) <= k by {
            if k == 0 {
                vstd::arithmetic::power2::lemma2_to64();
            } else {
                lemma_pow2_unfold(k);
                assert(half <= pow2((k - 1) as nat));
            }
        }
    }
}

/// A power of two that a word has a bit for fits in a word.
pub proof fn lemma_pow2_fits(n: nat)
    requires
        n < width(),
    ensures
        0 < pow2(n) <= usize::MAX,
{
    vstd::bits::lemma_usize_pow2_no_overflow(n);
}

/// The fields of a valid configuration lie within a word.
pub proof fn lemma_layout<C: Config>()
    requires
        valid::<C>(),
    ensures
        width() == 32 || width() == 64,
        2 <= addr_len::<C>(),
        1 <= tid_len::<C>(),
        2 <= gen_len::<C>(),
        2 <= ref_len::<C>(),
        addr_len::<C>() + tid_len::<C>() + gen_len::<C>() == width(),
        state_len() + ref_len::<C>() + gen_len::<C>() == width(),
{
    lemma_width();
}

/// The configurations that a slab can be built with, by their constants: the
/// address, the thread's number, a generation of two bits and a reference count of
/// two bits have to fit.
pub proof fn valid_configurations<C: Config>()
    ensures
        valid::<C>() <==> {
            let shift = C::MAX_PAGES + ceil_log2(C::INITIAL_PAGE_SIZE as nat) + ceil_log2(
                C::MAX_THREADS as nat,
            ) + 2;
            &&& C::MAX_THREADS > 0
            &&& C::MAX_PAGES > 0
            &&& C::INITIAL_PAGE_SIZE > 0
            &&& 4 <= shift <= usize::BITS - 2
        },
{
}

/// The first page of a shard is as large as its configuration says, rounded up to
/// a power of two, and every further page is twice as large as the one before it.
pub proof fn pages_have_the_configured_sizes<C: Config>(page: nat)
    ensures
        C::INITIAL_PAGE_SIZE <= page_size::<C>(0),
        forall|k: nat| C::INITIAL_PAGE_SIZE <= #[trigger] pow2(k) ==> page_size::<C>(0) <= pow2(k),
        exists|k: nat| page_size::<C>(0) == #[trigger] pow2(k),
        page_size::<C>(page) == page_size::<C>(0) * pow2(page),
        page_size::<C>(page + 1) == 2 * page_size::<C>(page),
        prev_size::<C>(page) == page_size::<C>(0) * (pow2(page) - 1),
        prev_size::<C>(page) >= C::INITIAL_PAGE_SIZE * (pow2(page) - 1),
{
    let bits: nat = page_bits::<C>();
    lemma_ceil_log2(C::INITIAL_PAGE_SIZE as nat);
    lemma_pow2_pos(bits);
    lemma_pow2_pos(page);
    vstd::arithmetic::power2::lemma_pow2_adds(bits, page);
    lemma_pow2_unfold(bits + page + 1);
    assert(page_size::<C>(0) == pow2(bits));
    assert forall|k: nat| C::INITIAL_PAGE_SIZE <= #[trigger] pow2(k) implies page_size::<C>(0)
        <= pow2(k) by {
        if bits < k {
            vstd::arithmetic::power2::lemma_pow2_strictly_increases(bits, k);
        }
    }
    let (first, n): (int, int) = (pow2(bits) as int, pow2(page) as int);
    assert(first * (n - 1) == first * n - first) by (nonlinear_arith);
    assert(first * n >= first) by (nonlinear_arith)
        requires
            first > 0,
            n > 0,
    ;
    let least: int = C::INITIAL_PAGE_SIZE as int;
    assert(first * (n - 1) >= least * (n - 1)) by (nonlinear_arith)
        requires
            first >= least,
            n > 0,
    ;
}

/// There are as many shards as there can be threads, rounded up to a power of two.
pub proof fn shards_are_as_many_as_configured<C: Config>()
    ensures
        C::MAX_THREADS <= max_shards::<C>(),
        forall|k: nat| C::MAX_THREADS <= #[trigger] pow2(k) ==> max_shards::<C>() <= pow2(k),
        exists|k: nat| max_shards::<C>() == #[trigger] pow2(k),
{
    let bits: nat = shard_bits::<C>();
    lemma_ceil_log2(C::MAX_THREADS as nat);
    assert(max_shards::<C>() == pow2(bits));
    assert forall|k: nat| C::MAX_THREADS <= #[trigger] pow2(k) implies max_shards::<C>() <= pow2(
        k,
    ) by {
        if bits < k {
            vstd::arithmetic::power2::lemma_pow2_strictly_increases(bits, k);
        }
    }
}

/// The lengths of all fields, by the constants of the configuration. A key has one
/// bit to spare for the address and one for the thread's number, and all that
/// these two leave of a word is for the generation. In a slot, two bits are for
/// the state, and all that this and the generation leave for the reference count.
pub proof fn fields_have_the_configured_lengths<C: Config>()
    requires
        valid::<C>(),
    ensures
        addr_len::<C>() == C::MAX_PAGES + ceil_log2(C::INITIAL_PAGE_SIZE as nat) + 1,
        tid_len::<C>() == ceil_log2(C::MAX_THREADS as nat) + 1,
        gen_len::<C>() == usize::BITS - (C::MAX_PAGES + ceil_log2(C::INITIAL_PAGE_SIZE as nat) + 1)
            - (ceil_log2(C::MAX_THREADS as nat) + 1),
        gen_shift::<C>() == usize::BITS - gen_len::<C>(),
        state_len() == 2,
        ref_len::<C>() == usize::BITS - 2 - gen_len::<C>(),
        ref_len::<C>() == C::MAX_PAGES + ceil_log2(C::INITIAL_PAGE_SIZE as nat) + ceil_log2(
            C::MAX_THREADS as nat,
        ),
{
}

/// The parameters of the default configuration, which is valid, and what follows
/// from them: the number of shards, the sizes of the pages and the length of a
/// generation.
pub proof fn default_config_is_valid()
    ensures
        valid::<DefaultConfig>(),
        DefaultConfig::MAX_THREADS == 128,
        DefaultConfig::MAX_PAGES == usize::BITS as usize / 2,
        DefaultConfig::INITIAL_PAGE_SIZE == 32,
        max_shards::<DefaultConfig>() == 128,
        forall|p: nat| #[trigger] page_size::<DefaultConfig>(p) == 32 * pow2(p),
        gen_len::<DefaultConfig>() == usize::BITS / 2 - 14,
{
    lemma_width();
    assert(ceil_log2(32) == 5) by {
        reveal_with_fuel(ceil_log2, 6);
    }
    assert(ceil_log2(128) == 7) by {
        reveal_with_fuel(ceil_log2, 8);
    }
    assert(pow2(5) == 32 && pow2(7) == 128) by {
        vstd::arithmetic::power2::lemma2_to64();
    }
    assert forall|p: nat| #[trigger] page_size::<DefaultConfig>(p) == 32 * pow2(p) by {
        vstd::arithmetic::power2::lemma_pow2_adds(5, p);
    }
}

/// The least `k` with `n <= 2^k`.
pub fn log2_ceil(n: usize) -> (r: usize)
    ensures
        r == ceil_log2(n as nat),
        r <= width(),
{
    let mut rest: usize = n;
    let mut bits: usize = 0;
    proof {
        lemma_width();
        lemma_ceil_log2(n as nat);
    }
    while rest > 1
        invariant
            ceil_log2(n as nat) == bits + ceil_log2(rest as nat),
            ceil_log2(n as nat) <= width(),
            width() <= 64,
        decreases rest,
    {
        rest = rest / 2 + rest % 2;
        bits = bits + 1;
    }
    bits
}

/// Whether a slab can be built with the parameters `C`.
pub fn validate<C: Config>() -> (r: bool)
    ensures
        r == valid::<C>(),
{
    proof {
        lemma_width();
    }
    if C::MAX_THREADS < 1 || C::MAX_PAGES < 1 || C::INITIAL_PAGE_SIZE < 1 {
        return false;
    }
    if C::MAX_PAGES > usize::BITS as usize {
        return false;
    }
    let shift: usize = C::MAX_PAGES + log2_ceil(C::INITIAL_PAGE_SIZE) + 1 + log2_ceil(
        C::MAX_THREADS,
    ) + 1;
    4 <= shift && shift + 2 <= usize::BITS as usize
}

} // verus!
