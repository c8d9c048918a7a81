//! The physical region: a growable flat store of fixed-size pages.
//!
//! This is the only component that performs raw byte reads and writes.
//! Everything above it addresses bytes through the memory manager's
//! segments. The store grows in whole pages, appended at the end and never
//! moved, up to a host-imposed page cap.

use vstd::prelude::*;

use crate::errors::StorageError;

verus! {

/// Size of one page in bytes.
pub const PAGE_SIZE: usize = 512;

/// Host-imposed capacity: the region never exceeds this many pages.
/// One header page plus the data-page budget of every segment.
pub const MAX_STORE_PAGES: usize = 257;

/// A growable flat byte region, always a whole number of pages long.
pub struct PageStore {
    pub data: Vec<u8>,
}

impl View for PageStore {
    type V = Seq<u8>;

    open spec fn view(&self) -> Seq<u8> {
        self.data@
    }
}

impl PageStore {
    /// The region is a whole number of pages, within the host cap.
    pub open spec fn wf(&self) -> bool {
        &&& self@.len() % (PAGE_SIZE as nat) == 0
        &&& self@.len() <= MAX_STORE_PAGES * PAGE_SIZE
    }

    /// Number of whole pages currently in the region.
    pub open spec fn spec_page_count(&self) -> nat {
        self@.len() / (PAGE_SIZE as nat)
    }

    /// A fresh, empty region of zero pages.
    pub fn new() -> (r: PageStore)
        ensures
            r.wf(),
            r@.len() == 0,
    {
        PageStore { data: Vec::new() }
    }

    /// Current length in bytes.
    pub fn len(&self) -> (r: usize)
        ensures
            r == self@.len(),
    {
        self.data.len()
    }

    /// Current length in whole pages.
    pub fn page_count(&self) -> (r: usize)
        requires
            self.wf(),
        ensures
            r == self.spec_page_count(),
    {
        self.data.len() / PAGE_SIZE
    }

    /// Extends the region by `pages` zeroed pages at the end; earlier bytes
    /// never move. Fails with `StorageFull` exactly when the host cap would
    /// be exceeded, leaving the region unchanged.
    pub fn grow(&mut self, pages: usize) -> (r: Result<(), StorageError>)
        requires
            old(self).wf(),
        ensures
            final(self).wf(),
            r is Ok <==> old(self).spec_page_count() + pages <= MAX_STORE_PAGES,
            r is Err ==> r == Err::<(), StorageError>(StorageError::StorageFull)
                && final(self)@ == old(self)@,
            r is Ok ==> final(self)@.len() == old(self)@.len() + pages * PAGE_SIZE
                && final(self)@.subrange(0, old(self)@.len() as int) == old(self)@
                && (forall|i: int|
                    old(self)@.len() <= i < final(self)@.len() ==> final(self)@[i] == 0u8),
    {
        proof {
            assert(old(self)@.len() == old(self).spec_page_count() * PAGE_SIZE) by {
                vstd::arithmetic::div_mod::lemma_fundamental_div_mod(
                    old(self)@.len() as int,
                    PAGE_SIZE as int,
                );
            }
        }
        let current_pages = self.data.len() / PAGE_SIZE;
        if pages > MAX_STORE_PAGES - current_pages {
            return Err(StorageError::StorageFull);
        }
        let target = self.data.len() + pages * PAGE_SIZE;
        while self.data.len() < target
            invariant
                old(self)@.len() <= self.data@.len() <= target,
                target == old(self)@.len() + pages * PAGE_SIZE,
                target <= MAX_STORE_PAGES * PAGE_SIZE,
                self.data@.subrange(0, old(self)@.len() as int) == old(self)@,
                forall|i: int|
                    old(self)@.len() <= i < self.data@.len() ==> self.data@[i] == 0u8,
            decreases target - self.data@.len(),
        {
            self.data.push(0u8);
            proof {
                assert(self.data@.subrange(0, old(self)@.len() as int)
                    =~= old(self)@);
            }
        }
        proof {
            vstd::arithmetic::div_mod::lemma_mod_adds(
                old(self)@.len() as int,
                (pages * PAGE_SIZE) as int,
                PAGE_SIZE as int,
            );
            assert((pages * PAGE_SIZE) as int % (PAGE_SIZE as int) == 0) by {
                vstd::arithmetic::div_mod::lemma_mod_multiples_basic(
                    pages as int,
                    PAGE_SIZE as int,
                );
            }
        }
        Ok(())
    }

    /// Reads the byte at `index`.
    pub fn read_byte(&self, index: usize) -> (r: u8)
        requires
            index < self@.len(),
        ensures
            r == self@[index as int],
    {
        self.data[index]
    }

    /// Overwrites the byte at `index`.
    pub fn write_byte(&mut self, index: usize, value: u8)
        requires
            index < old(self)@.len(),
        ensures
            final(self)@ == old(self)@.update(index as int, value),
    {
        self.data.set(index, value);
    }
}

} // verus!
