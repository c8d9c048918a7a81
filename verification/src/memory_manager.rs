//! The memory manager: disjoint logical segments over one physical region.
//!
//! Physical page 0 is the manager's metadata header: a four-byte magic
//! followed by one little-endian page count per segment tag. Each segment
//! tag owns a fixed, disjoint range of data pages; growth claims the next
//! pages of that range, so a segment's tag-to-range binding never moves
//! once the store exists. Every segment access is bounds-checked against
//! the segment's current length.

use vstd::prelude::*;
use vstd::bytes::*;

use crate::errors::StorageError;
use crate::page_store::PageStore;
use crate::page_store::PAGE_SIZE;

verus! {

/// Number of segment tags the manager serves.
pub const MAX_SEGMENTS: usize = 8;

/// Data-page budget of each segment.
pub const SEG_PAGE_QUOTA: usize = 32;

/// Greatest byte length a segment can reach.
pub const SEG_MAX_BYTES: usize = 16384;

/// The four magic bytes that open a valid metadata header.
pub const MAGIC_0: u8 = 0x45;

pub const MAGIC_1: u8 = 0x4d;

pub const MAGIC_2: u8 = 0x47;

pub const MAGIC_3: u8 = 0x52;

/// First physical page of segment `tag`'s data-page range.
pub open spec fn seg_base_page(tag: int) -> int {
    1 + tag * (SEG_PAGE_QUOTA as int)
}

/// First byte of segment `tag`'s data-page range within the store.
pub open spec fn seg_start(tag: int) -> int {
    seg_base_page(tag) * (PAGE_SIZE as int)
}

/// Byte offset of segment `tag`'s page count inside the header.
pub open spec fn count_offset(tag: int) -> int {
    4 + 8 * tag
}

/// The magic bytes stand at the head of the region.
pub open spec fn magic_ok(s: Seq<u8>) -> bool {
    &&& s.len() >= 4
    &&& s[0] == MAGIC_0
    &&& s[1] == MAGIC_1
    &&& s[2] == MAGIC_2
    &&& s[3] == MAGIC_3
}

/// The page count of segment `tag` as the header bytes record it.
pub open spec fn recovered_count(s: Seq<u8>, tag: int) -> u64 {
    spec_u64_from_le_bytes(s.subrange(count_offset(tag), count_offset(tag) + 8))
}

/// A non-empty region holds well-formed manager metadata: the magic is in
/// place and every recorded page count is within quota and covered by the
/// region's length.
pub open spec fn store_meta_valid(s: Seq<u8>) -> bool {
    &&& s.len() >= PAGE_SIZE
    &&& magic_ok(s)
    &&& forall|t: int|
        0 <= t < MAX_SEGMENTS ==> #[trigger] recovered_count(s, t) <= SEG_PAGE_QUOTA as u64
            && (recovered_count(s, t) > 0 ==> s.len() >= (seg_base_page(t) + recovered_count(
            s,
            t,
        )) * (PAGE_SIZE as int))
}

/// Multiplexes the page store into `MAX_SEGMENTS` disjoint, individually
/// growable logical segments.
pub struct MemoryManager {
    pub store: PageStore,
    pub seg_pages: Vec<usize>,
}

impl MemoryManager {
    /// The metadata header, the cached per-segment page counts and the
    /// region agree with one another.
    pub open spec fn wf(&self) -> bool {
        &&& self.store.wf()
        &&& self.store@.len() >= PAGE_SIZE
        &&& magic_ok(self.store@)
        &&& self.seg_pages@.len() == MAX_SEGMENTS
        &&& forall|t: int|
            0 <= t < MAX_SEGMENTS ==> #[trigger] self.seg_pages@[t] <= SEG_PAGE_QUOTA
        &&& forall|t: int|
            0 <= t < MAX_SEGMENTS ==> self.store@.subrange(
                count_offset(t),
                count_offset(t) + 8,
            ) == #[trigger] spec_u64_to_le_bytes(self.seg_pages@[t] as u64)
        &&& forall|t: int|
            0 <= t < MAX_SEGMENTS && #[trigger] self.seg_pages@[t] > 0 ==> self.store@.len()
                >= (seg_base_page(t) + self.seg_pages@[t]) * (PAGE_SIZE as int)
    }

    /// The current content of segment `tag`: the bytes of its claimed pages.
    pub open spec fn seg_content(&self, tag: int) -> Seq<u8> {
        if self.seg_pages@[tag] == 0 {
            Seq::empty()
        } else {
            self.store@.subrange(
                seg_start(tag),
                seg_start(tag) + self.seg_pages@[tag] * (PAGE_SIZE as int),
            )
        }
    }

    /// Current byte length of segment `tag`.
    pub fn seg_len(&self, tag: u8) -> (r: usize)
        requires
            self.wf(),
            tag < MAX_SEGMENTS as u8,
        ensures
            r == self.seg_content(tag as int).len(),
    {
        self.seg_pages[tag as usize] * PAGE_SIZE
    }

    /// Binds to a region. An empty region is initialised with fresh
    /// metadata and all segments empty; a non-empty region has its segment
    /// table reconstructed from the header, failing with `StorageCorrupt`
    /// exactly when the metadata is malformed.
    pub fn init(store: PageStore) -> (r: Result<MemoryManager, StorageError>)
        requires
            store.wf(),
        ensures
            r matches Ok(m) ==> m.wf(),
            store@.len() == 0 ==> (r matches Ok(m) && forall|t: int|
                0 <= t < MAX_SEGMENTS ==> #[trigger] m.seg_pages@[t] == 0),
            store@.len() > 0 ==> (r is Ok <==> store_meta_valid(store@)),
            store@.len() > 0 ==> (r matches Ok(m) ==> m.store@ == store@ && forall|t: int|
                0 <= t < MAX_SEGMENTS ==> #[trigger] m.seg_pages@[t] == recovered_count(
                    store@,
                    t,
                )),
            r is Err ==> r == Err::<MemoryManager, StorageError>(StorageError::StorageCorrupt),
    {
        if store.len() == 0 {
            let mut st = store;
            match st.grow(1) {
                Ok(()) => {}
                Err(_) => {
                    proof {
                        assert(false);
                    }
                    return Err(StorageError::StorageCorrupt);
                }
            }
            st.write_byte(0, MAGIC_0);
            st.write_byte(1, MAGIC_1);
            st.write_byte(2, MAGIC_2);
            st.write_byte(3, MAGIC_3);
            let mut seg_pages: Vec<usize> = Vec::new();
            let mut t: usize = 0;
            while t < MAX_SEGMENTS
                invariant
                    seg_pages@.len() == t,
                    t <= MAX_SEGMENTS,
                    forall|i: int| 0 <= i < t ==> #[trigger] seg_pages@[i] == 0,
                decreases MAX_SEGMENTS - t,
            {
                seg_pages.push(0);
                t = t + 1;
            }
            let m = MemoryManager { store: st, seg_pages };
            proof {
                lemma_u64_le_zero();
                assert forall|t: int| 0 <= t < MAX_SEGMENTS implies m.store@.subrange(
                    count_offset(t),
                    count_offset(t) + 8,
                ) == #[trigger] spec_u64_to_le_bytes(m.seg_pages@[t] as u64) by {
                    assert(m.store@.subrange(count_offset(t), count_offset(t) + 8)
                        =~= spec_u64_to_le_bytes(0u64));
                }
            }
            Ok(m)
        } else {
            if store.len() < PAGE_SIZE {
                proof {
                    assert(false) by {
                        vstd::arithmetic::div_mod::lemma_fundamental_div_mod(
                            store@.len() as int,
                            PAGE_SIZE as int,
                        );
                    }
                }
                return Err(StorageError::StorageCorrupt);
            }
            if store.read_byte(0) != MAGIC_0 || store.read_byte(1) != MAGIC_1 || store.read_byte(2)
                != MAGIC_2 || store.read_byte(3) != MAGIC_3 {
                return Err(StorageError::StorageCorrupt);
            }
            let mut seg_pages: Vec<usize> = Vec::new();
            let mut t: usize = 0;
            while t < MAX_SEGMENTS
                invariant
                    store.wf(),
                    store@.len() >= PAGE_SIZE,
                    magic_ok(store@),
                    seg_pages@.len() == t,
                    t <= MAX_SEGMENTS,
                    forall|i: int|
                        0 <= i < t ==> #[trigger] seg_pages@[i] == recovered_count(store@, i)
                            && seg_pages@[i] <= SEG_PAGE_QUOTA && (seg_pages@[i] > 0 ==> store@.len()
                            >= (seg_base_page(i) + seg_pages@[i]) * (PAGE_SIZE as int)),
                decreases MAX_SEGMENTS - t,
            {
                let mut buf: Vec<u8> = Vec::new();
                let mut i: usize = 0;
                while i < 8
                    invariant
                        store.wf(),
                        store@.len() >= PAGE_SIZE,
                        t < MAX_SEGMENTS,
                        i <= 8,
                        buf@.len() == i,
                        buf@ == store@.subrange(
                            count_offset(t as int),
                            count_offset(t as int) + i,
                        ),
                    decreases 8 - i,
                {
                    buf.push(store.read_byte(4 + 8 * t + i));
                    proof {
                        assert(buf@ =~= store@.subrange(
                            count_offset(t as int),
                            count_offset(t as int) + i + 1,
                        ));
                    }
                    i = i + 1;
                }
                let c64 = u64_from_le_bytes(buf.as_slice());
                proof {
                    assert(c64 == recovered_count(store@, t as int));
                }
                if c64 > SEG_PAGE_QUOTA as u64 {
                    proof {
                        assert(!store_meta_valid(store@));
                    }
                    return Err(StorageError::StorageCorrupt);
                }
                let c = c64 as usize;
                if c > 0 {
                    let needed = (1 + t * SEG_PAGE_QUOTA + c) * PAGE_SIZE;
                    if needed > store.len() {
                        proof {
                            assert(!store_meta_valid(store@));
                        }
                        return Err(StorageError::StorageCorrupt);
                    }
                }
                seg_pages.push(c);
                t = t + 1;
            }
            let m = MemoryManager { store, seg_pages };
            proof {
                lemma_auto_spec_u64_to_from_le_bytes();
                assert forall|u: int| 0 <= u < MAX_SEGMENTS implies m.store@.subrange(
                    count_offset(u),
                    count_offset(u) + 8,
                ) == #[trigger] spec_u64_to_le_bytes(m.seg_pages@[u] as u64) by {
                    let sub = m.store@.subrange(count_offset(u), count_offset(u) + 8);
                    assert(sub.len() == 8);
                    assert(m.seg_pages@[u] as u64 == spec_u64_from_le_bytes(sub));
                    assert(spec_u64_to_le_bytes(spec_u64_from_le_bytes(sub)) == sub);
                }
                assert forall|u: int| 0 <= u < MAX_SEGMENTS implies #[trigger] recovered_count(
                    store@,
                    u,
                ) <= SEG_PAGE_QUOTA as u64 && (recovered_count(store@, u) > 0 ==> store@.len() >= (
                seg_base_page(u) + recovered_count(store@, u)) * (PAGE_SIZE as int)) by {
                    assert(m.seg_pages@[u] == recovered_count(store@, u));
                }
                assert(store_meta_valid(store@));
            }
            Ok(m)
        }
    }

    /// Grows segment `tag` by `pages` data pages, extending the physical
    /// region as far as needed and recording the new count in the header.
    /// Fails with `StorageFull` exactly when the segment's page budget
    /// would be exceeded, changing nothing.
    pub fn seg_grow(&mut self, tag: u8, pages: usize) -> (r: Result<(), StorageError>)
        requires
            old(self).wf(),
            tag < MAX_SEGMENTS as u8,
        ensures
            final(self).wf(),
            r is Ok <==> old(self).seg_pages@[tag as int] + pages <= SEG_PAGE_QUOTA,
            r is Err ==> r == Err::<(), StorageError>(StorageError::StorageFull) && final(self).store@
                == old(self).store@ && final(self).seg_pages@ == old(self).seg_pages@,
            r is Ok ==> final(self).seg_pages@ == old(self).seg_pages@.update(
                tag as int,
                (old(self).seg_pages@[tag as int] + pages) as usize,
            ),
            r is Ok ==> final(self).seg_content(tag as int).len() == old(self).seg_content(
                tag as int,
            ).len() + pages * PAGE_SIZE,
            r is Ok ==> final(self).seg_content(tag as int).subrange(
                0,
                old(self).seg_content(tag as int).len() as int,
            ) == old(self).seg_content(tag as int),
            forall|u: int|
                0 <= u < MAX_SEGMENTS && u != tag as int ==> #[trigger] final(self).seg_content(u)
                    == old(self).seg_content(u),
    {
        let t = tag as usize;
        let c = self.seg_pages[t];
        if pages > SEG_PAGE_QUOTA - c {
            return Err(StorageError::StorageFull);
        }
        if pages == 0 {
            proof {
                assert(old(self).seg_pages@.update(tag as int, c) =~= old(self).seg_pages@);
            }
            return Ok(());
        }
        let new_count = c + pages;
        let needed_pages = 1 + t * SEG_PAGE_QUOTA + new_count;
        let have = self.store.page_count();
        let ghost pre = *self;
        if have < needed_pages {
            match self.store.grow(needed_pages - have) {
                Ok(()) => {}
                Err(e) => {
                    proof {
                        assert(false);
                    }
                    return Err(e);
                }
            }
        }
        let ghost grown = self.store@;
        proof {
            assert(pre.wf());
            assert(pre.store@.len() == have * PAGE_SIZE) by {
                vstd::arithmetic::div_mod::lemma_fundamental_div_mod(
                    pre.store@.len() as int,
                    PAGE_SIZE as int,
                );
            }
            assert(grown.len() >= needed_pages * PAGE_SIZE);
            assert forall|j: int| 0 <= j < pre.store@.len() implies grown[j] == pre.store@[j] by {
                if grown.len() > pre.store@.len() {
                    assert(grown.subrange(0, pre.store@.len() as int)[j] == pre.store@[j]);
                }
            }
        }
        self.seg_pages.set(t, new_count);
        let count_bytes = u64_to_le_bytes(new_count as u64);
        let base = 4 + 8 * t;
        let mut i: usize = 0;
        while i < 8
            invariant
                i <= 8,
                base == 4 + 8 * t,
                t < MAX_SEGMENTS,
                self.store.wf(),
                self.store@.len() == grown.len(),
                grown.len() >= PAGE_SIZE,
                self.seg_pages@ == pre.seg_pages@.update(t as int, new_count),
                count_bytes@ == spec_u64_to_le_bytes(new_count as u64),
                count_bytes@.len() == 8,
                forall|j: int|
                    0 <= j < grown.len() && !(base <= j < base + i) ==> #[trigger] self.store@[j]
                        == grown[j],
                forall|j: int|
                    base <= j < base + i ==> #[trigger] self.store@[j] == count_bytes@[j - base],
            decreases 8 - i,
        {
            self.store.write_byte(base + i, count_bytes[i]);
            i = i + 1;
        }
        proof {
            let tt = tag as int;
            lemma_auto_spec_u64_to_from_le_bytes();
            assert forall|u: int| 0 <= u < MAX_SEGMENTS implies self.store@.subrange(
                count_offset(u),
                count_offset(u) + 8,
            ) == #[trigger] spec_u64_to_le_bytes(self.seg_pages@[u] as u64) by {
                if u == tt {
                    assert(self.store@.subrange(count_offset(u), count_offset(u) + 8)
                        =~= count_bytes@);
                } else {
                    assert(self.store@.subrange(count_offset(u), count_offset(u) + 8)
                        =~= pre.store@.subrange(count_offset(u), count_offset(u) + 8));
                }
            }
            if pre.seg_pages@[tt] > 0 {
                assert(pre.store@.len() >= (seg_base_page(tt) + pre.seg_pages@[tt]) * (
                PAGE_SIZE as int));
            }
            assert(self.store@.len() >= (seg_base_page(tt) + self.seg_pages@[tt]) * (
            PAGE_SIZE as int));
            assert forall|j: int| 0 <= j < pre.seg_content(tt).len() implies self.seg_content(tt)[j]
                == pre.seg_content(tt)[j] by {
                assert(self.store@[seg_start(tt) + j] == grown[seg_start(tt) + j]);
                assert(grown[seg_start(tt) + j] == pre.store@[seg_start(tt) + j]);
            }
            assert(self.seg_content(tt).subrange(
                0,
                pre.seg_content(tt).len() as int,
            ) =~= pre.seg_content(tt));
            assert forall|u: int| 0 <= u < MAX_SEGMENTS && u != tt implies #[trigger] self.seg_content(u) == pre.seg_content(u) by {
                if pre.seg_pages@[u] > 0 {
                    assert(pre.store@.len() >= (seg_base_page(u) + pre.seg_pages@[u]) * (
                    PAGE_SIZE as int));
                    assert forall|j: int| 0 <= j < pre.seg_content(u).len() implies self.seg_content(
                        u,
                    )[j] == pre.seg_content(u)[j] by {
                        assert(self.store@[seg_start(u) + j] == grown[seg_start(u) + j]);
                        assert(grown[seg_start(u) + j] == pre.store@[seg_start(u) + j]);
                    }
                }
                assert(self.seg_content(u) =~= pre.seg_content(u));
            }
        }
        Ok(())
    }

    /// Writes `data` into segment `tag` starting at `offset`. Fails with
    /// `OutOfBounds` exactly when the write would pass the segment's
    /// current length, changing nothing.
    pub fn seg_write(&mut self, tag: u8, offset: usize, data: &[u8]) -> (r: Result<
        (),
        StorageError,
    >)
        requires
            old(self).wf(),
            tag < MAX_SEGMENTS as u8,
        ensures
            final(self).wf(),
            final(self).seg_pages@ == old(self).seg_pages@,
            r is Ok <==> offset + data@.len() <= old(self).seg_content(tag as int).len(),
            r is Err ==> r == Err::<(), StorageError>(StorageError::OutOfBounds) && final(self).store@
                == old(self).store@,
            r is Ok ==> final(self).seg_content(tag as int).len() == old(self).seg_content(
                tag as int,
            ).len(),
            r is Ok ==> forall|j: int|
                0 <= j < old(self).seg_content(tag as int).len()
                    ==> #[trigger] final(self).seg_content(tag as int)[j] == if offset <= j
                    < offset + data@.len() {
                    data@[j - offset]
                } else {
                    old(self).seg_content(tag as int)[j]
                },
            forall|u: int|
                0 <= u < MAX_SEGMENTS && u != tag as int ==> #[trigger] final(self).seg_content(u)
                    == old(self).seg_content(u),
    {
        let t = tag as usize;
        let seg_bytes = self.seg_pages[t] * PAGE_SIZE;
        if offset > seg_bytes || data.len() > seg_bytes - offset {
            return Err(StorageError::OutOfBounds);
        }
        let ghost pre = *self;
        let start = (1 + t * SEG_PAGE_QUOTA) * PAGE_SIZE;
        let mut i: usize = 0;
        while i < data.len()
            invariant
                i <= data@.len(),
                t == tag as usize,
                t < MAX_SEGMENTS,
                offset + data@.len() <= seg_bytes,
                seg_bytes == pre.seg_pages@[t as int] * PAGE_SIZE,
                start == seg_start(t as int),
                pre.wf(),
                self.store.wf(),
                self.seg_pages@ == pre.seg_pages@,
                self.store@.len() == pre.store@.len(),
                forall|j: int|
                    0 <= j < pre.store@.len() && !(start + offset <= j < start + offset + i)
                        ==> #[trigger] self.store@[j] == pre.store@[j],
                forall|j: int|
                    start + offset <= j < start + offset + i ==> #[trigger] self.store@[j]
                        == data@[j - start - offset],
            decreases data@.len() - i,
        {
            self.store.write_byte(start + offset + i, data[i]);
            i = i + 1;
        }
        proof {
            let tt = tag as int;
            assert forall|u: int| 0 <= u < MAX_SEGMENTS implies self.store@.subrange(
                count_offset(u),
                count_offset(u) + 8,
            ) == #[trigger] spec_u64_to_le_bytes(self.seg_pages@[u] as u64) by {
                assert(self.store@.subrange(count_offset(u), count_offset(u) + 8)
                    =~= pre.store@.subrange(count_offset(u), count_offset(u) + 8));
            }
            assert forall|u: int| 0 <= u < MAX_SEGMENTS && u != tt implies #[trigger] self.seg_content(u) == pre.seg_content(u) by {
                assert(self.seg_content(u) =~= pre.seg_content(u));
            }
        }
        Ok(())
    }

    /// Reads `len` bytes of segment `tag` starting at `offset`. Fails with
    /// `OutOfBounds` exactly when the range passes the segment's current
    /// length.
    pub fn seg_read(&self, tag: u8, offset: usize, len: usize) -> (r: Result<Vec<u8>, StorageError>)
        requires
            self.wf(),
            tag < MAX_SEGMENTS as u8,
        ensures
            r is Ok <==> offset + len <= self.seg_content(tag as int).len(),
            r matches Ok(v) ==> v@ == self.seg_content(tag as int).subrange(
                offset as int,
                offset + len,
            ),
            r is Err ==> r == Err::<Vec<u8>, StorageError>(StorageError::OutOfBounds),
    {
        let t = tag as usize;
        let seg_bytes = self.seg_pages[t] * PAGE_SIZE;
        if offset > seg_bytes || len > seg_bytes - offset {
            return Err(StorageError::OutOfBounds);
        }
        let start = (1 + t * SEG_PAGE_QUOTA) * PAGE_SIZE;
        let mut out: Vec<u8> = Vec::new();
        let mut i: usize = 0;
        while i < len
            invariant
                i <= len,
                t == tag as usize,
                t < MAX_SEGMENTS,
                offset + len <= seg_bytes,
                seg_bytes == self.seg_pages@[t as int] * PAGE_SIZE,
                start == seg_start(t as int),
                self.wf(),
                out@.len() == i,
                out@ == self.seg_content(t as int).subrange(offset as int, offset + i),
            decreases len - i,
        {
            out.push(self.store.read_byte(start + offset + i));
            proof {
                assert(out@ =~= self.seg_content(t as int).subrange(
                    offset as int,
                    offset + i + 1,
                ));
            }
            i = i + 1;
        }
        Ok(out)
    }
}

/// The little-endian encoding of zero is eight zero bytes.
pub proof fn lemma_u64_le_zero()
    ensures
        spec_u64_to_le_bytes(0u64) == seq![0u8, 0u8, 0u8, 0u8, 0u8, 0u8, 0u8, 0u8],
{
    spec_u64_to_le_bytes_to_open(0u64);
    assert((0u64 & 0xff) == 0 && ((0u64 >> 8) & 0xff) == 0 && ((0u64 >> 16) & 0xff) == 0 && ((0u64
        >> 24) & 0xff) == 0 && ((0u64 >> 32) & 0xff) == 0 && ((0u64 >> 40) & 0xff) == 0 && ((0u64
        >> 48) & 0xff) == 0 && ((0u64 >> 56) & 0xff) == 0) by (bit_vector);
    assert(spec_u64_to_le_bytes_open(0u64) =~= seq![0u8, 0u8, 0u8, 0u8, 0u8, 0u8, 0u8, 0u8]);
}


/// The region's bytes determine the manager: two well-formed managers
/// over equal regions record the same segment table, so they present the
/// same content for every segment.
pub proof fn lemma_store_determines_manager(m1: &MemoryManager, m2: &MemoryManager)
    requires
        m1.wf(),
        m2.wf(),
        m1.store@ == m2.store@,
    ensures
        m1.seg_pages@ =~= m2.seg_pages@,
        forall|t: int| 0 <= t < MAX_SEGMENTS ==> #[trigger] m1.seg_content(t) == m2.seg_content(t),
{
    lemma_auto_spec_u64_to_from_le_bytes();
    assert forall|t: int| 0 <= t < MAX_SEGMENTS implies #[trigger] m1.seg_pages@[t]
        == m2.seg_pages@[t] by {
        assert(spec_u64_to_le_bytes(m1.seg_pages@[t] as u64) == spec_u64_to_le_bytes(
            m2.seg_pages@[t] as u64,
        ));
        assert(spec_u64_from_le_bytes(spec_u64_to_le_bytes(m1.seg_pages@[t] as u64))
            == m1.seg_pages@[t] as u64);
        assert(spec_u64_from_le_bytes(spec_u64_to_le_bytes(m2.seg_pages@[t] as u64))
            == m2.seg_pages@[t] as u64);
    }
    assert forall|t: int| 0 <= t < MAX_SEGMENTS implies #[trigger] m1.seg_content(t)
        == m2.seg_content(t) by {
        assert(m1.seg_content(t) =~= m2.seg_content(t));
    }
}


/// A well-formed manager's region carries well-formed metadata: the
/// header it maintains is exactly what `init` accepts back.
pub proof fn lemma_wf_implies_meta_valid(m: &MemoryManager)
    requires
        m.wf(),
    ensures
        store_meta_valid(m.store@),
{
    lemma_auto_spec_u64_to_from_le_bytes();
    assert forall|t: int| 0 <= t < MAX_SEGMENTS implies #[trigger] recovered_count(m.store@, t)
        <= SEG_PAGE_QUOTA as u64 && (recovered_count(m.store@, t) > 0 ==> m.store@.len() >= (
    seg_base_page(t) + recovered_count(m.store@, t)) * (PAGE_SIZE as int)) by {
        assert(m.store@.subrange(count_offset(t), count_offset(t) + 8) == spec_u64_to_le_bytes(
            m.seg_pages@[t] as u64,
        ));
        assert(spec_u64_from_le_bytes(spec_u64_to_le_bytes(m.seg_pages@[t] as u64))
            == m.seg_pages@[t] as u64);
    }
}

} // verus!
