//! The id cell: a durable single-value counter inside one segment.
//!
//! The cell's segment holds a four-byte magic followed by the counter as a
//! little-endian 64-bit value at a fixed offset. Every `set` writes through
//! to the segment before returning, so the value survives a restart; `init`
//! on a non-empty segment trusts the persisted value and fails with
//! `StorageCorrupt` when the segment does not carry the cell's magic.

use vstd::prelude::*;
use vstd::bytes::*;

use crate::errors::StorageError;
use crate::memory_manager::MemoryManager;
use crate::memory_manager::MAX_SEGMENTS;

verus! {

/// The four magic bytes that open a cell's segment.
pub const CELL_MAGIC_0: u8 = 0x49;

pub const CELL_MAGIC_1: u8 = 0x44;

pub const CELL_MAGIC_2: u8 = 0x43;

pub const CELL_MAGIC_3: u8 = 0x4c;

/// Number of header-plus-value bytes the cell keeps in its segment.
pub const CELL_BYTES: usize = 12;

/// The cell's magic stands at the head of the segment's content.
pub open spec fn cell_magic_ok(c: Seq<u8>) -> bool {
    &&& c.len() >= CELL_BYTES
    &&& c[0] == CELL_MAGIC_0
    &&& c[1] == CELL_MAGIC_1
    &&& c[2] == CELL_MAGIC_2
    &&& c[3] == CELL_MAGIC_3
}

/// The counter value persisted in a cell segment's content.
pub open spec fn cell_value(c: Seq<u8>) -> u64 {
    spec_u64_from_le_bytes(c.subrange(4, 12))
}

/// A durable auto-increment counter bound to one segment.
pub struct IdCell {
    pub tag: u8,
    pub value: u64,
}

impl IdCell {
    /// The cached value agrees with the bytes persisted in the segment.
    pub open spec fn wf(&self, mm: &MemoryManager) -> bool {
        &&& (self.tag as int) < MAX_SEGMENTS
        &&& cell_magic_ok(mm.seg_content(self.tag as int))
        &&& cell_value(mm.seg_content(self.tag as int)) == self.value
    }

    /// Binds to a segment. An empty segment is claimed and seeded with
    /// `initial`; a non-empty one yields the persisted value (the recovery
    /// path), failing with `StorageCorrupt` exactly when the segment does
    /// not open with the cell's magic.
    pub fn init(mm: &mut MemoryManager, tag: u8, initial: u64) -> (r: Result<IdCell, StorageError>)
        requires
            old(mm).wf(),
            tag < MAX_SEGMENTS as u8,
        ensures
            final(mm).wf(),
            forall|u: int|
                0 <= u < MAX_SEGMENTS && u != tag as int ==> #[trigger] final(mm).seg_content(u)
                    == old(mm).seg_content(u),
            r matches Ok(c) ==> c.wf(final(mm)) && c.tag == tag,
            old(mm).seg_content(tag as int).len() == 0 ==> (r matches Ok(c) && c.value == initial),
            old(mm).seg_content(tag as int).len() > 0 ==> (r is Ok <==> cell_magic_ok(
                old(mm).seg_content(tag as int),
            )),
            old(mm).seg_content(tag as int).len() > 0 ==> (r matches Ok(c) ==> c.value
                == cell_value(old(mm).seg_content(tag as int)) && final(mm).store@ == old(mm).store@ && final(mm).seg_pages@ == old(mm).seg_pages@),
            r is Err ==> r == Err::<IdCell, StorageError>(StorageError::StorageCorrupt) && final(mm).store@ == old(mm).store@ && final(mm).seg_pages@ == old(mm).seg_pages@,
    {
        let len = mm.seg_len(tag);
        if len == 0 {
            match mm.seg_grow(tag, 1) {
                Ok(()) => {}
                Err(_) => {
                    proof {
                        assert(false);
                    }
                    return Err(StorageError::StorageCorrupt);
                }
            }
            let mut buf: Vec<u8> = Vec::new();
            buf.push(CELL_MAGIC_0);
            buf.push(CELL_MAGIC_1);
            buf.push(CELL_MAGIC_2);
            buf.push(CELL_MAGIC_3);
            let mut vb = u64_to_le_bytes(initial);
            buf.append(&mut vb);
            match mm.seg_write(tag, 0, buf.as_slice()) {
                Ok(()) => {}
                Err(_) => {
                    proof {
                        assert(false);
                    }
                    return Err(StorageError::StorageCorrupt);
                }
            }
            let cell = IdCell { tag, value: initial };
            proof {
                let c = mm.seg_content(tag as int);
                assert(c.subrange(4, 12) =~= spec_u64_to_le_bytes(initial));
                lemma_auto_spec_u64_to_from_le_bytes();
            }
            Ok(cell)
        } else {
            let head = match mm.seg_read(tag, 0, 4) {
                Ok(v) => v,
                Err(_) => {
                    proof {
                        assert(false);
                    }
                    return Err(StorageError::StorageCorrupt);
                }
            };
            if head[0] != CELL_MAGIC_0 || head[1] != CELL_MAGIC_1 || head[2] != CELL_MAGIC_2
                || head[3] != CELL_MAGIC_3 {
                return Err(StorageError::StorageCorrupt);
            }
            let vb = match mm.seg_read(tag, 4, 8) {
                Ok(v) => v,
                Err(_) => {
                    proof {
                        assert(false);
                    }
                    return Err(StorageError::StorageCorrupt);
                }
            };
            let value = u64_from_le_bytes(vb.as_slice());
            let cell = IdCell { tag, value };
            proof {
                let c = mm.seg_content(tag as int);
                assert(vb@ == c.subrange(4, 12));
            }
            Ok(cell)
        }
    }

    /// The current counter value; a pure read that never fails.
    pub fn get(&self) -> (r: u64)
        ensures
            r == self.value,
    {
        self.value
    }

    /// Overwrites the counter with `new_value`, durably in the segment
    /// before returning, and returns the previous value. Never fails once
    /// the cell is initialised, and touches no other segment.
    pub fn set(&mut self, mm: &mut MemoryManager, new_value: u64) -> (r: Result<u64, StorageError>)
        requires
            old(mm).wf(),
            old(self).wf(old(mm)),
        ensures
            final(mm).wf(),
            final(self).wf(final(mm)),
            r == Ok::<u64, StorageError>(old(self).value),
            final(self).value == new_value,
            final(self).tag == old(self).tag,
            final(mm).seg_pages@ == old(mm).seg_pages@,
            forall|u: int|
                0 <= u < MAX_SEGMENTS && u != old(self).tag as int ==> #[trigger] final(mm).seg_content(u) == old(mm).seg_content(u),
            final(mm).seg_content(old(self).tag as int).len() == old(mm).seg_content(
                old(self).tag as int,
            ).len(),
    {
        let prev = self.value;
        let vb = u64_to_le_bytes(new_value);
        let ghost pre_content = mm.seg_content(self.tag as int);
        match mm.seg_write(self.tag, 4, vb.as_slice()) {
            Ok(()) => {}
            Err(_) => {
                proof {
                    assert(false);
                }
                return Err(StorageError::StorageCorrupt);
            }
        }
        self.value = new_value;
        proof {
            let c = mm.seg_content(self.tag as int);
            assert(c.subrange(4, 12) =~= spec_u64_to_le_bytes(new_value));
            lemma_auto_spec_u64_to_from_le_bytes();
        }
        Ok(prev)
    }
}

} // verus!
