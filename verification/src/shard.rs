//! Shards: the part of a slab that one thread inserts into.

use crate::cfg::{lemma_layout, lemma_pow2_fits, log2_ceil, page_bits, page_size, valid, Config};
use crate::model::{
    is_first_vacancy,
    is_full,
    page_insert_keeps_wf,
    page_values,
    shard_wf,
    unused_page,
    unused_shard,
    PageModel,
};
use crate::pack::Pack;
use crate::page::slot::Generation;
use crate::page::Page;
use vstd::arithmetic::power2::lemma_pow2_unfold;
use vstd::prelude::*;

verus! {

/// A shard: pages that are filled in turn.
pub struct Shard<T, C: Config> {
    pub(crate) pages: Vec<Page<T, C>>,
}

impl<T, C: Config> View for Shard<T, C> {
    type V = Seq<PageModel<T>>;

    closed spec fn view(&self) -> Seq<PageModel<T>> {
        Seq::new(self.pages@.len(), |p: int| self.pages@[p]@)
    }
}

impl<T, C: Config> Shard<T, C> {
    /// Every page is there, well formed and of its size.
    pub(crate) closed spec fn wf(self) -> bool {
        &&& valid::<C>()
        &&& self.pages@.len() == C::MAX_PAGES
        &&& forall|p: int|
            0 <= p < self.pages@.len() ==> (#[trigger] self.pages@[p]).wf()
                && self.pages@[p]@.slots.len() == page_size::<C>(p as nat)
    }

    /// What is known of a well formed shard outside of this module.
    pub(crate) proof fn lemma_wf(self)
        requires
            self.wf(),
        ensures
            shard_wf::<T, C>(self@),
    {
        assert forall|p: int| 0 <= p < self@.len() implies (#[trigger] self@[p]).wf::<C>()
            && self@[p].slots.len() == page_size::<C>(p as nat) by {
            self.pages@[p].lemma_wf();
        }
    }

    /// Every page of a well formed shard is well formed.
    pub(crate) proof fn lemma_page(self, p: int)
        requires
            self.wf(),
            0 <= p < C::MAX_PAGES,
        ensures
            p < self.pages@.len(),
            self.pages@[p].wf(),
            self@[p] == self.pages@[p]@,
            self@[p].slots.len() == page_size::<C>(p as nat),
            self@[p].wf::<C>(),
    {
        self.pages@[p].lemma_wf();
    }

    /// A shard of which one page has changed into a well formed page of the same
    /// size is well formed.
    pub(crate) proof fn lemma_page_changed(self, before: Self, p: int)
        requires
            before.wf(),
            0 <= p < C::MAX_PAGES,
            self.pages@ == before.pages@.update(p, self.pages@[p]),
            self.pages@[p].wf(),
            self.pages@[p]@.slots.len() == before.pages@[p]@.slots.len(),
        ensures
            self.wf(),
            self@ == before@.update(p, self.pages@[p]@),
    {
        assert(before.pages@[p].wf());
        assert(self@ =~= before@.update(p, self.pages@[p]@));
    }

    /// A shard that was never used.
    pub(crate) fn new() -> (r: Self)
        requires
            valid::<C>(),
        ensures
            r.wf(),
            r@ == unused_shard::<T, C>(),
    {
        let bits: usize = log2_ceil(C::INITIAL_PAGE_SIZE);
        proof {
            lemma_layout::<C>();
            lemma_pow2_fits(page_bits::<C>());
            vstd::bits::lemma_usize_shl_is_mul(1, bits);
        }
        let mut pages: Vec<Page<T, C>> = Vec::new();
        let mut size: usize = 1usize << bits;
        let mut p: usize = 0;
        while p < C::MAX_PAGES
            invariant
                valid::<C>(),
                p <= C::MAX_PAGES,
                pages@.len() == p,
                0 < size,
                size == page_size::<C>(p as nat),
                forall|q: int|
                    0 <= q < p ==> (#[trigger] pages@[q]).wf() && pages@[q]@ == unused_page::<T>(
                        page_size::<C>(q as nat),
                    ),
            decreases C::MAX_PAGES - p,
        {
            pages.push(Page::new(size));
            proof {
                lemma_layout::<C>();
                lemma_pow2_fits(page_bits::<C>() + p as nat + 1);
                lemma_pow2_unfold(page_bits::<C>() + p as nat + 1);
            }
            size = 2 * size;
            p = p + 1;
        }
        let r = Shard { pages };
        assert(r@ =~= unused_shard::<T, C>());
        r
    }

    /// Puts a value on the first page that has a free slot, and gives the
    /// number of that page, the slot's number and its generation. Gives the
    /// value back where there is no free slot.
    pub(crate) fn insert(&mut self, value: T) -> (r: Result<(usize, usize, Generation<C>), T>)
        requires
            old(self).wf(),
        ensures
            final(self).wf(),
            match r {
                Ok((p, i, gen)) => {
                    &&& is_first_vacancy(old(self)@, p as int)
                    &&& i == old(self)@[p as int].next_slot()
                    &&& gen.number() == old(self)@[p as int].slots[i as int].gen
                    &&& final(self)@ == old(self)@.update(
                        p as int,
                        old(self)@[p as int].insert(value),
                    )
                },
                Err(v) => {
                    &&& is_full(old(self)@)
                    &&& v == value
                    &&& final(self)@ == old(self)@
                },
            },
    {
        let mut rest: T = value;
        let mut p: usize = 0;
        while p < self.pages.len()
            invariant
                self.wf(),
                self@ == old(self)@,
                rest == value,
                p <= self.pages@.len(),
                forall|q: int| 0 <= q < p ==> !(#[trigger] self@[q]).has_vacancy(),
            decreases self.pages@.len() - p,
        {
            let ghost before: Self = *self;
            proof {
                self.pages@[p as int].lemma_wf();
                if self.pages@[p as int]@.has_vacancy() {
                    page_insert_keeps_wf::<T, C>(self.pages@[p as int]@, value);
                }
            }
            match self.pages[p].insert(rest) {
                Ok((i, gen)) => {
                    proof {
                        assert(before@[p as int] == before.pages@[p as int]@);
                        assert(self@ =~= before@.update(
                            p as int,
                            before@[p as int].insert(value),
                        ));
                    }
                    return Ok((p, i, gen));
                },
                Err(v) => {
                    rest = v;
                    assert(before@[p as int] == before.pages@[p as int]@);
                    assert(self@ =~= before@);
                },
            }
            p = p + 1;
        }
        Err(rest)
    }

    /// Adds the values in the shard that can be looked up to `out`.
    pub(crate) fn push_values<'a>(&'a self, out: &mut Vec<&'a T>)
        requires
            self.wf(),
        ensures
            final(out)@.unref() == old(out)@.unref() + page_values(self@),
    {
        let mut p: usize = 0;
        assert(self@.take(0) =~= Seq::empty());
        while p < self.pages.len()
            invariant
                self.wf(),
                p <= self.pages@.len(),
                out@.unref() == old(out)@.unref() + page_values(self@.take(p as int)),
            decreases self.pages@.len() - p,
        {
            self.pages[p].push_values(out);
            assert(self@.take(p + 1).drop_last() =~= self@.take(p as int));
            p = p + 1;
        }
        assert(self@.take(p as int) =~= self@);
    }
}

} // verus!
