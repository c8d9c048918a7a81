//! The ordered record map: a durable sorted map from ids to bounded byte
//! values, persisted inside one segment.
//!
//! The segment holds the entry count followed by the entries in ascending
//! key order, each as a key, a value length and the value bytes. Every
//! mutation rewrites that encoding into the segment before returning
//! (write-through), so the map's content survives a restart; the in-memory
//! entry vector is a cache whose agreement with the segment bytes is part
//! of the map's well-formedness.

use vstd::prelude::*;
use vstd::bytes::*;
use vstd::pervasive::VecAdditionalExecFns;

use crate::errors::StorageError;
use crate::memory_manager::MemoryManager;
use crate::memory_manager::MAX_SEGMENTS;
use crate::memory_manager::SEG_MAX_BYTES;
use crate::page_store::PAGE_SIZE;
use crate::record::MAX_RECORD_SIZE;

verus! {

/// One key-to-value binding of the map.
pub struct MapEntry {
    pub key: u64,
    pub value: Vec<u8>,
}

/// Keys appear in strictly ascending order.
pub open spec fn keys_strictly_sorted(s: Seq<MapEntry>) -> bool {
    forall|i: int, j: int| 0 <= i < j < s.len() ==> s[i].key < s[j].key
}

/// Every value respects the bounded slot.
pub open spec fn values_bounded(s: Seq<MapEntry>) -> bool {
    forall|i: int| 0 <= i < s.len() ==> #[trigger] s[i].value@.len() <= MAX_RECORD_SIZE
}

/// The encoding of one entry: key, value length, value bytes.
pub open spec fn slot_bytes(e: MapEntry) -> Seq<u8> {
    spec_u64_to_le_bytes(e.key) + spec_u64_to_le_bytes(e.value@.len() as u64) + e.value@
}

/// The concatenated encodings of a run of entries.
pub open spec fn slots_bytes(s: Seq<MapEntry>) -> Seq<u8>
    decreases s.len(),
{
    if s.len() == 0 {
        Seq::empty()
    } else {
        slots_bytes(s.drop_last()) + slot_bytes(s.last())
    }
}

/// The full encoding of the map: entry count, then the entries in order.
pub open spec fn encode_entries(s: Seq<MapEntry>) -> Seq<u8> {
    spec_u64_to_le_bytes(s.len() as u64) + slots_bytes(s)
}

/// Byte length the map's encoding would have after binding `key` to a
/// value of `vlen` bytes.
pub open spec fn inserted_encoding_len(s: Seq<MapEntry>, key: u64, vlen: nat) -> int {
    if map_of(s).contains_key(key) {
        encode_entries(s).len() - map_of(s)[key].len() + vlen
    } else {
        encode_entries(s).len() + 16 + vlen as int
    }
}

/// The mathematical map a run of entries denotes.
pub open spec fn map_of(s: Seq<MapEntry>) -> Map<u64, Seq<u8>>
    decreases s.len(),
{
    if s.len() == 0 {
        Map::empty()
    } else {
        map_of(s.drop_last()).insert(s.last().key, s.last().value@)
    }
}

/// Concatenation distributes over the slot encoding.
pub proof fn lemma_slots_bytes_concat(a: Seq<MapEntry>, b: Seq<MapEntry>)
    ensures
        slots_bytes(a + b) == slots_bytes(a) + slots_bytes(b),
    decreases b.len(),
{
    if b.len() == 0 {
        assert(a + b =~= a);
        assert(slots_bytes(a) + slots_bytes(b) =~= slots_bytes(a));
    } else {
        assert((a + b).drop_last() =~= a + b.drop_last());
        assert((a + b).last() == b.last());
        lemma_slots_bytes_concat(a, b.drop_last());
        assert(slots_bytes(a) + slots_bytes(b.drop_last()) + slot_bytes(b.last()) =~= slots_bytes(
            a,
        ) + slots_bytes(b));
    }
}

/// A single entry's run encodes to that entry's slot alone.
pub proof fn lemma_slots_bytes_single(e: MapEntry)
    ensures
        slots_bytes(seq![e]) == slot_bytes(e),
{
    let s = seq![e];
    assert(s.drop_last() =~= Seq::<MapEntry>::empty());
    assert(slots_bytes(s.drop_last()) == Seq::<u8>::empty());
    assert(slots_bytes(s) == slots_bytes(s.drop_last()) + slot_bytes(e));
    assert(Seq::<u8>::empty() + slot_bytes(e) =~= slot_bytes(e));
}

/// Membership in the denoted map is membership among the keys.
pub proof fn lemma_map_of_contains(s: Seq<MapEntry>, k: u64)
    ensures
        map_of(s).contains_key(k) <==> exists|i: int| 0 <= i < s.len() && s[i].key == k,
    decreases s.len(),
{
    if s.len() > 0 {
        lemma_map_of_contains(s.drop_last(), k);
        if s.last().key == k {
            assert(s[s.len() - 1].key == k);
        } else if map_of(s).contains_key(k) {
            let i = choose|i: int| 0 <= i < s.drop_last().len() && s.drop_last()[i].key == k;
            assert(s[i].key == k);
        } else if exists|i: int| 0 <= i < s.len() && s[i].key == k {
            let i = choose|i: int| 0 <= i < s.len() && s[i].key == k;
            assert(s.drop_last()[i].key == k);
        }
    }
}

/// The denoted map sends each key to the value stored beside it.
pub proof fn lemma_map_of_get(s: Seq<MapEntry>, i: int)
    requires
        keys_strictly_sorted(s),
        0 <= i < s.len(),
    ensures
        map_of(s).contains_key(s[i].key),
        map_of(s)[s[i].key] == s[i].value@,
    decreases s.len(),
{
    if i == s.len() - 1 {
    } else {
        assert(keys_strictly_sorted(s.drop_last()));
        assert(s.drop_last()[i] == s[i]);
        lemma_map_of_get(s.drop_last(), i);
        assert(s[i].key < s.last().key);
    }
}

/// Inserting an entry at its sorted position inserts its binding into the
/// denoted map and keeps the keys sorted.
pub proof fn lemma_map_of_insert(s: Seq<MapEntry>, pos: int, e: MapEntry)
    requires
        keys_strictly_sorted(s),
        0 <= pos <= s.len(),
        forall|j: int| 0 <= j < pos ==> s[j].key < e.key,
        forall|j: int| pos <= j < s.len() ==> s[j].key > e.key,
    ensures
        map_of(s.insert(pos, e)) == map_of(s).insert(e.key, e.value@),
        keys_strictly_sorted(s.insert(pos, e)),
    decreases s.len(),
{
    let s2 = s.insert(pos, e);
    assert(keys_strictly_sorted(s2));
    if pos == s.len() {
        assert(s2.drop_last() =~= s);
        assert(s2.last() == e);
    } else {
        assert(s2.last() == s.last());
        assert(s2.drop_last() =~= s.drop_last().insert(pos, e));
        assert(keys_strictly_sorted(s.drop_last()));
        lemma_map_of_insert(s.drop_last(), pos, e);
        assert(map_of(s2) == map_of(s.drop_last()).insert(e.key, e.value@).insert(
            s.last().key,
            s.last().value@,
        ));
        assert(e.key != s.last().key);
        assert(map_of(s.drop_last()).insert(e.key, e.value@).insert(s.last().key, s.last().value@)
            =~= map_of(s.drop_last()).insert(s.last().key, s.last().value@).insert(
            e.key,
            e.value@,
        ));
    }
}

/// Replacing the entry at a key's position updates its binding in the
/// denoted map and keeps the keys sorted.
pub proof fn lemma_map_of_update(s: Seq<MapEntry>, pos: int, e: MapEntry)
    requires
        keys_strictly_sorted(s),
        0 <= pos < s.len(),
        e.key == s[pos].key,
    ensures
        map_of(s.update(pos, e)) == map_of(s).insert(e.key, e.value@),
        keys_strictly_sorted(s.update(pos, e)),
    decreases s.len(),
{
    let s2 = s.update(pos, e);
    assert(keys_strictly_sorted(s2));
    if pos == s.len() - 1 {
        assert(s2.drop_last() =~= s.drop_last());
        assert(s2.last() == e);
        assert(map_of(s.drop_last()).insert(e.key, e.value@) =~= map_of(s.drop_last()).insert(
            s.last().key,
            s.last().value@,
        ).insert(e.key, e.value@));
    } else {
        assert(s2.last() == s.last());
        assert(s2.drop_last() =~= s.drop_last().update(pos, e));
        assert(keys_strictly_sorted(s.drop_last()));
        assert(s.drop_last()[pos] == s[pos]);
        lemma_map_of_update(s.drop_last(), pos, e);
        assert(e.key != s.last().key);
        assert(map_of(s.drop_last()).insert(e.key, e.value@).insert(s.last().key, s.last().value@)
            =~= map_of(s.drop_last()).insert(s.last().key, s.last().value@).insert(
            e.key,
            e.value@,
        ));
    }
}

/// Removing the entry at a key's position removes its binding from the
/// denoted map and keeps the keys sorted.
pub proof fn lemma_map_of_remove(s: Seq<MapEntry>, pos: int)
    requires
        keys_strictly_sorted(s),
        0 <= pos < s.len(),
    ensures
        map_of(s.remove(pos)) == map_of(s).remove(s[pos].key),
        keys_strictly_sorted(s.remove(pos)),
    decreases s.len(),
{
    let s2 = s.remove(pos);
    assert(keys_strictly_sorted(s2));
    if pos == s.len() - 1 {
        assert(s2 =~= s.drop_last());
        lemma_map_of_contains(s.drop_last(), s[pos].key);
        assert(forall|i: int|
            0 <= i < s.drop_last().len() ==> s.drop_last()[i].key < s[pos].key);
        assert(!map_of(s.drop_last()).contains_key(s[pos].key));
        assert(map_of(s.drop_last()).insert(s[pos].key, s[pos].value@).remove(s[pos].key)
            =~= map_of(s.drop_last()));
    } else {
        assert(s2.last() == s.last());
        assert(s2.drop_last() =~= s.drop_last().remove(pos));
        assert(keys_strictly_sorted(s.drop_last()));
        assert(s.drop_last()[pos] == s[pos]);
        lemma_map_of_remove(s.drop_last(), pos);
        assert(s[pos].key != s.last().key);
        assert(map_of(s.drop_last()).remove(s[pos].key).insert(s.last().key, s.last().value@)
            =~= map_of(s.drop_last()).insert(s.last().key, s.last().value@).remove(s[pos].key));
    }
}


/// Every entry's slot takes at least its two fixed fields.
pub proof fn lemma_slots_bytes_len_lower(s: Seq<MapEntry>)
    ensures
        slots_bytes(s).len() >= 16 * s.len(),
    decreases s.len(),
{
    vstd::bytes::lemma_auto_spec_u64_to_from_le_bytes();
    if s.len() > 0 {
        lemma_slots_bytes_len_lower(s.drop_last());
    }
}

/// The slot encoding can be peeled from the front as well.
pub proof fn lemma_slots_bytes_front(s: Seq<MapEntry>)
    requires
        s.len() > 0,
    ensures
        slots_bytes(s) == slot_bytes(s[0]) + slots_bytes(s.skip(1)),
{
    assert(seq![s[0]] + s.skip(1) =~= s);
    lemma_slots_bytes_concat(seq![s[0]], s.skip(1));
    lemma_slots_bytes_single(s[0]);
}

/// Two entry runs of the same length whose slot encodings open the same
/// byte string are the same run, binding for binding: the persisted bytes
/// leave no choice in what they decode to.
pub proof fn lemma_slots_bytes_injective(a: Seq<MapEntry>, b: Seq<MapEntry>, c: Seq<u8>)
    requires
        a.len() == b.len(),
        values_bounded(a),
        values_bounded(b),
        slots_bytes(a).len() <= c.len(),
        slots_bytes(b).len() <= c.len(),
        slots_bytes(a) == c.subrange(0, slots_bytes(a).len() as int),
        slots_bytes(b) == c.subrange(0, slots_bytes(b).len() as int),
    ensures
        forall|i: int|
            0 <= i < a.len() ==> #[trigger] a[i].key == b[i].key && a[i].value@ == b[i].value@,
    decreases a.len(),
{
    vstd::bytes::lemma_auto_spec_u64_to_from_le_bytes();
    if a.len() > 0 {
        lemma_slots_bytes_front(a);
        lemma_slots_bytes_front(b);
        let sa = slot_bytes(a[0]);
        let sb = slot_bytes(b[0]);
        assert forall|j: int| 0 <= j < sa.len() implies c[j] == sa[j] by {
            assert(c.subrange(0, slots_bytes(a).len() as int)[j] == slots_bytes(a)[j]);
            assert(slots_bytes(a)[j] == sa[j]);
        }
        assert forall|j: int| 0 <= j < sb.len() implies c[j] == sb[j] by {
            assert(c.subrange(0, slots_bytes(b).len() as int)[j] == slots_bytes(b)[j]);
            assert(slots_bytes(b)[j] == sb[j]);
        }
        assert(c.subrange(0, 8) =~= spec_u64_to_le_bytes(a[0].key));
        assert(c.subrange(0, 8) =~= spec_u64_to_le_bytes(b[0].key));
        assert(a[0].key == b[0].key);
        assert(c.subrange(8, 16) =~= spec_u64_to_le_bytes(a[0].value@.len() as u64));
        assert(c.subrange(8, 16) =~= spec_u64_to_le_bytes(b[0].value@.len() as u64));
        assert(a[0].value@.len() == b[0].value@.len());
        let vl = a[0].value@.len() as int;
        assert(c.subrange(16, 16 + vl) =~= a[0].value@);
        assert(c.subrange(16, 16 + vl) =~= b[0].value@);
        assert(sa.len() == sb.len());
        let c2 = c.skip(sa.len() as int);
        assert forall|j: int| 0 <= j < slots_bytes(a.skip(1)).len() implies c2[j] == slots_bytes(
            a.skip(1),
        )[j] by {
            assert(slots_bytes(a)[sa.len() + j] == slots_bytes(a.skip(1))[j]);
            assert(c.subrange(0, slots_bytes(a).len() as int)[sa.len() + j] == slots_bytes(
                a,
            )[sa.len() + j]);
            assert(c2[j] == c[sa.len() + j]);
        }
        assert forall|j: int| 0 <= j < slots_bytes(b.skip(1)).len() implies c2[j] == slots_bytes(
            b.skip(1),
        )[j] by {
            assert(slots_bytes(b)[sb.len() + j] == slots_bytes(b.skip(1))[j]);
            assert(c.subrange(0, slots_bytes(b).len() as int)[sb.len() + j] == slots_bytes(
                b,
            )[sb.len() + j]);
            assert(c2[j] == c[sb.len() + j]);
        }
        assert(slots_bytes(a.skip(1)) =~= c2.subrange(0, slots_bytes(a.skip(1)).len() as int));
        assert(slots_bytes(b.skip(1)) =~= c2.subrange(0, slots_bytes(b.skip(1)).len() as int));
        lemma_slots_bytes_injective(a.skip(1), b.skip(1), c2);
        assert forall|i: int| 0 <= i < a.len() implies #[trigger] a[i].key == b[i].key
            && a[i].value@ == b[i].value@ by {
            if i > 0 {
                assert(a.skip(1)[i - 1] == a[i]);
                assert(b.skip(1)[i - 1] == b[i]);
            }
        }
    }
}

/// Runs that agree binding for binding denote the same map.
pub proof fn lemma_map_of_congruent(a: Seq<MapEntry>, b: Seq<MapEntry>)
    requires
        a.len() == b.len(),
        forall|i: int|
            0 <= i < a.len() ==> #[trigger] a[i].key == b[i].key && a[i].value@ == b[i].value@,
    ensures
        map_of(a) == map_of(b),
    decreases a.len(),
{
    if a.len() > 0 {
        lemma_map_of_congruent(a.drop_last(), b.drop_last());
        assert(a.last().key == b.last().key && a.last().value@ == b.last().value@);
        assert(map_of(a) =~= map_of(b));
    } else {
        assert(map_of(a) =~= map_of(b));
    }
}


/// A byte string holds the well-formed encoding of an entry run: sorted,
/// bounded, within the segment budget, and standing at the front.
pub open spec fn entries_encoded_in(c: Seq<u8>, e0: Seq<MapEntry>) -> bool {
    &&& keys_strictly_sorted(e0)
    &&& values_bounded(e0)
    &&& encode_entries(e0).len() <= SEG_MAX_BYTES
    &&& encode_entries(e0).len() <= c.len()
    &&& c.subrange(0, encode_entries(e0).len() as int) == encode_entries(e0)
}

/// Where an encoded run stands in a byte string, the fields of its
/// `i`-th entry stand at that entry's slot, whose offset is the length
/// of the count field and the preceding slots.
pub proof fn lemma_encoded_slot_at(c: Seq<u8>, e0: Seq<MapEntry>, i: int, off: int)
    requires
        entries_encoded_in(c, e0),
        0 <= i < e0.len(),
        off == 8 + slots_bytes(e0.take(i)).len(),
    ensures
        off + 16 + e0[i].value@.len() <= encode_entries(e0).len(),
        c.subrange(off, off + 8) == spec_u64_to_le_bytes(e0[i].key),
        c.subrange(off + 8, off + 16) == spec_u64_to_le_bytes(e0[i].value@.len() as u64),
        c.subrange(off + 16, off + 16 + e0[i].value@.len() as int) == e0[i].value@,
        c.subrange(0, 8) == spec_u64_to_le_bytes(e0.len() as u64),
{
    vstd::bytes::lemma_auto_spec_u64_to_from_le_bytes();
    let enc = encode_entries(e0);
    assert(e0.take(i) + e0.skip(i) =~= e0);
    lemma_slots_bytes_concat(e0.take(i), e0.skip(i));
    lemma_slots_bytes_front(e0.skip(i));
    assert(e0.skip(i)[0] == e0[i]);
    lemma_slots_bytes_len_lower(e0.skip(i).skip(1));
    let sl = slot_bytes(e0[i]);
    assert forall|j: int| 0 <= j < enc.len() implies c[j] == enc[j] by {
        assert(c.subrange(0, enc.len() as int)[j] == enc[j]);
    }
    assert forall|j: int| 0 <= j < sl.len() implies c[off + j] == sl[j] by {
        assert(slots_bytes(e0)[off - 8 + j] == sl[j]);
        assert(enc[off + j] == slots_bytes(e0)[off - 8 + j]);
    }
    assert(c.subrange(off, off + 8) =~= spec_u64_to_le_bytes(e0[i].key));
    assert(c.subrange(off + 8, off + 16) =~= spec_u64_to_le_bytes(e0[i].value@.len() as u64));
    assert(c.subrange(off + 16, off + 16 + e0[i].value@.len() as int) =~= e0[i].value@);
    assert(c.subrange(0, 8) =~= spec_u64_to_le_bytes(e0.len() as u64));
}

/// A durable sorted map bound to one segment.
pub struct RecordMap {
    pub tag: u8,
    pub entries: Vec<MapEntry>,
}

impl RecordMap {
    /// The denoted map: the map's logical content.
    pub open spec fn as_map(&self) -> Map<u64, Seq<u8>> {
        map_of(self.entries@)
    }

    /// The cached entries are sorted, bounded, fit the segment's byte
    /// budget, and agree with the bytes persisted in the segment.
    pub open spec fn wf(&self, mm: &MemoryManager) -> bool {
        let c = mm.seg_content(self.tag as int);
        let enc = encode_entries(self.entries@);
        &&& (self.tag as int) < MAX_SEGMENTS
        &&& keys_strictly_sorted(self.entries@)
        &&& values_bounded(self.entries@)
        &&& enc.len() <= SEG_MAX_BYTES
        &&& (c.len() == 0 ==> self.entries@.len() == 0)
        &&& (c.len() > 0 ==> c.len() >= enc.len() && c.subrange(0, enc.len() as int) == enc)
    }

    /// Number of entries currently stored.
    pub fn len(&self) -> (r: usize)
        ensures
            r == self.entries@.len(),
    {
        self.entries.len()
    }

    /// The position a key has, or would take, in the sorted entry run,
    /// found by binary search over the ascending keys.
    fn find_pos(&self, key: u64) -> (r: (usize, bool))
        requires
            keys_strictly_sorted(self.entries@),
        ensures
            r.0 <= self.entries@.len(),
            r.1 ==> r.0 < self.entries@.len() && self.entries@[r.0 as int].key == key,
            forall|j: int| 0 <= j < r.0 ==> self.entries@[j].key < key,
            !r.1 ==> forall|j: int|
                r.0 <= j < self.entries@.len() ==> #[trigger] self.entries@[j].key > key,
            r.1 <==> map_of(self.entries@).contains_key(key),
    {
        let n = self.entries.len();
        let mut lo: usize = 0;
        let mut hi: usize = n;
        while lo < hi
            invariant
                lo <= hi <= n,
                n == self.entries@.len(),
                keys_strictly_sorted(self.entries@),
                forall|j: int| 0 <= j < lo ==> self.entries@[j].key < key,
                forall|j: int| hi <= j < n ==> #[trigger] self.entries@[j].key >= key,
            decreases hi - lo,
        {
            let mid = lo + (hi - lo) / 2;
            if self.entries[mid].key < key {
                proof {
                    assert forall|j: int| 0 <= j < mid + 1 implies self.entries@[j].key < key by {
                        if j < mid {
                            assert(self.entries@[j].key < self.entries@[mid as int].key);
                        }
                    }
                }
                lo = mid + 1;
            } else {
                proof {
                    assert forall|j: int| mid <= j < n implies #[trigger] self.entries@[j].key
                        >= key by {
                        if j > mid {
                            assert(self.entries@[mid as int].key < self.entries@[j].key);
                        }
                    }
                }
                hi = mid;
            }
        }
        let found = lo < n && self.entries[lo].key == key;
        proof {
            lemma_map_of_contains(self.entries@, key);
            if !found {
                assert forall|j: int| lo <= j < self.entries@.len() implies #[trigger] self.entries@[j].key > key by {
                    assert(self.entries@[j].key >= key);
                    if self.entries@[j].key == key {
                        if j > lo {
                            assert(self.entries@[lo as int].key >= key);
                            assert(self.entries@[lo as int].key < self.entries@[j].key);
                        }
                    }
                }
            }
        }
        (lo, found)
    }

    /// Byte length of the map's current encoding.
    fn encoded_size(&self) -> (r: usize)
        requires
            encode_entries(self.entries@).len() <= SEG_MAX_BYTES,
            values_bounded(self.entries@),
        ensures
            r == encode_entries(self.entries@).len(),
    {
        proof {
            lemma_auto_spec_u64_to_from_le_bytes();
        }
        let n = self.entries.len();
        let mut total: usize = 8;
        let mut i: usize = 0;
        while i < n
            invariant
                i <= n,
                n == self.entries@.len(),
                values_bounded(self.entries@),
                encode_entries(self.entries@).len() <= SEG_MAX_BYTES,
                total == encode_entries(self.entries@.take(i as int)).len(),
            decreases n - i,
        {
            proof {
                lemma_auto_spec_u64_to_from_le_bytes();
                assert(self.entries@.take(i as int) =~= self.entries@.take(i + 1).drop_last());
                assert(self.entries@.take(i + 1).last() == self.entries@[i as int]);
                lemma_slots_bytes_concat(
                    self.entries@.take(i + 1),
                    self.entries@.skip(i + 1),
                );
                assert(self.entries@.take(i + 1) + self.entries@.skip(i + 1) =~= self.entries@);
            }
            total = total + 16 + self.entries[i].value.len();
            i = i + 1;
        }
        proof {
            assert(self.entries@.take(n as int) =~= self.entries@);
        }
        total
    }

    /// Serialises the entries into the map's segment encoding.
    fn build_buffer(&self) -> (r: Vec<u8>)
        requires
            encode_entries(self.entries@).len() <= SEG_MAX_BYTES,
            values_bounded(self.entries@),
        ensures
            r@ == encode_entries(self.entries@),
    {
        proof {
            lemma_auto_spec_u64_to_from_le_bytes();
        }
        let n = self.entries.len();
        let mut buf = u64_to_le_bytes(n as u64);
        let mut i: usize = 0;
        while i < n
            invariant
                i <= n,
                n == self.entries@.len(),
                values_bounded(self.entries@),
                buf@ == spec_u64_to_le_bytes(n as u64) + slots_bytes(self.entries@.take(i as int)),
            decreases n - i,
        {
            proof {
                lemma_auto_spec_u64_to_from_le_bytes();
            }
            let mut part = u64_to_le_bytes(self.entries[i].key);
            buf.append(&mut part);
            let mut part = u64_to_le_bytes(self.entries[i].value.len() as u64);
            buf.append(&mut part);
            crate::record::push_bytes(&mut buf, &self.entries[i].value);
            proof {
                assert(self.entries@.take(i as int) =~= self.entries@.take(i + 1).drop_last());
                assert(self.entries@.take(i + 1).last() == self.entries@[i as int]);
                assert(buf@ =~= spec_u64_to_le_bytes(n as u64) + slots_bytes(
                    self.entries@.take(i + 1),
                ));
            }
            i = i + 1;
        }
        proof {
            assert(self.entries@.take(n as int) =~= self.entries@);
        }
        buf
    }

    /// Writes the current encoding through to the segment, growing it as
    /// needed. The encoding must fit the segment's byte budget.
    fn write_through(&self, mm: &mut MemoryManager) -> (r: Result<(), StorageError>)
        requires
            old(mm).wf(),
            (self.tag as int) < MAX_SEGMENTS,
            keys_strictly_sorted(self.entries@),
            values_bounded(self.entries@),
            encode_entries(self.entries@).len() <= SEG_MAX_BYTES,
        ensures
            final(mm).wf(),
            r is Ok,
            self.wf(final(mm)),
            forall|u: int|
                0 <= u < MAX_SEGMENTS && u != self.tag as int ==> #[trigger] final(mm).seg_content(u) == old(mm).seg_content(u),
    {
        let buf = self.build_buffer();
        let total = buf.len();
        let seg_bytes = mm.seg_len(self.tag);
        if seg_bytes < total {
            let needed_pages = (total + (PAGE_SIZE - 1)) / PAGE_SIZE;
            let cur_pages = seg_bytes / PAGE_SIZE;
            proof {
                assert(needed_pages * PAGE_SIZE >= total && needed_pages <= 32) by {
                    vstd::arithmetic::div_mod::lemma_fundamental_div_mod(
                        (total + (PAGE_SIZE - 1)) as int,
                        PAGE_SIZE as int,
                    );
                }
                assert(cur_pages == mm.seg_pages@[self.tag as int]) by {
                    vstd::arithmetic::div_mod::lemma_fundamental_div_mod(
                        seg_bytes as int,
                        PAGE_SIZE as int,
                    );
                    vstd::arithmetic::div_mod::lemma_mod_multiples_basic(
                        mm.seg_pages@[self.tag as int] as int,
                        PAGE_SIZE as int,
                    );
                }
            }
            match mm.seg_grow(self.tag, needed_pages - cur_pages) {
                Ok(()) => {}
                Err(e) => {
                    proof {
                        assert(false);
                    }
                    return Err(e);
                }
            }
        }
        match mm.seg_write(self.tag, 0, buf.as_slice()) {
            Ok(()) => {}
            Err(e) => {
                proof {
                    assert(false);
                }
                return Err(e);
            }
        }
        proof {
            let c = mm.seg_content(self.tag as int);
            let enc = encode_entries(self.entries@);
            assert(c.subrange(0, enc.len() as int) =~= enc);
        }
        Ok(())
    }

    /// Binds to a segment. An empty segment denotes the empty map; a
    /// non-empty one has its entries parsed back from the persisted bytes
    /// (the recovery path), failing with `StorageCorrupt` exactly when the
    /// bytes are not a well-formed, sorted, bounded entry run.
    pub fn init(mm: &MemoryManager, tag: u8) -> (r: Result<RecordMap, StorageError>)
        requires
            mm.wf(),
            tag < MAX_SEGMENTS as u8,
        ensures
            r matches Ok(m) ==> m.wf(mm) && m.tag == tag,
            mm.seg_content(tag as int).len() == 0 ==> (r matches Ok(m) && m.entries@.len() == 0),
            forall|e0: Seq<MapEntry>| #[trigger] entries_encoded_in(
                mm.seg_content(tag as int),
                e0,
            ) ==> r is Ok,
            r is Err ==> r == Err::<RecordMap, StorageError>(StorageError::StorageCorrupt),
    {
        proof {
            lemma_auto_spec_u64_to_from_le_bytes();
        }
        let seg_bytes = mm.seg_len(tag);
        if seg_bytes == 0 {
            let m = RecordMap { tag, entries: Vec::new() };
            proof {
                assert(m.entries@ =~= Seq::<MapEntry>::empty());
                assert(slots_bytes(m.entries@) =~= Seq::<u8>::empty());
            }
            return Ok(m);
        }
        let cb = match mm.seg_read(tag, 0, 8) {
            Ok(v) => v,
            Err(_) => {
                proof {
                    assert(false);
                }
                return Err(StorageError::StorageCorrupt);
            }
        };
        let count64 = u64_from_le_bytes(cb.as_slice());
        let ghost c = mm.seg_content(tag as int);
        proof {
            assert forall|e0: Seq<MapEntry>| #[trigger] entries_encoded_in(c, e0) implies count64
                == e0.len() as u64 && e0.len() <= (SEG_MAX_BYTES as int - 8) / 16 by {
                lemma_slots_bytes_len_lower(e0);
                assert(c.subrange(0, 8) =~= spec_u64_to_le_bytes(e0.len() as u64)) by {
                    assert forall|j: int| 0 <= j < 8 implies c[j] == spec_u64_to_le_bytes(
                        e0.len() as u64,
                    )[j] by {
                        assert(c.subrange(0, encode_entries(e0).len() as int)[j] == encode_entries(
                            e0,
                        )[j]);
                    }
                }
                assert(spec_u64_from_le_bytes(spec_u64_to_le_bytes(e0.len() as u64)) == e0.len()
                    as u64);
            }
        }
        if count64 > (SEG_MAX_BYTES as u64) / 16 {
            return Err(StorageError::StorageCorrupt);
        }
        let count = count64 as usize;
        let mut entries: Vec<MapEntry> = Vec::new();
        let mut offset: usize = 8;
        let mut i: usize = 0;
        proof {
            assert forall|e0: Seq<MapEntry>| #[trigger] entries_encoded_in(c, e0) implies offset
                == 8 + slots_bytes(e0.take(0)).len() by {
                assert(e0.take(0) =~= Seq::<MapEntry>::empty());
            }
        }
        while i < count
            invariant
                mm.wf(),
                tag < MAX_SEGMENTS as u8,
                i <= count,
                count <= SEG_MAX_BYTES / 16,
                count as u64 == count64,
                seg_bytes == c.len(),
                c == mm.seg_content(tag as int),
                c.len() == mm.seg_content(tag as int).len(),
                offset <= c.len(),
                c.len() <= SEG_MAX_BYTES,
                entries@.len() == i,
                keys_strictly_sorted(entries@),
                values_bounded(entries@),
                offset == 8 + slots_bytes(entries@).len(),
                c.subrange(8, offset as int) == slots_bytes(entries@),
                c.subrange(0, 8) == spec_u64_to_le_bytes(count64),
                forall|j: int, k: int|
                    0 <= j < k < entries@.len() ==> entries@[j].key < entries@[k].key,
                i > 0 ==> entries@.len() > 0,
                forall|e0: Seq<MapEntry>| #[trigger] entries_encoded_in(c, e0) ==> count64
                    == e0.len() as u64 && i <= e0.len() && offset == 8 + slots_bytes(
                    e0.take(i as int),
                ).len() && (forall|j: int|
                    0 <= j < i ==> entries@[j].key == e0[j].key && entries@[j].value@
                        == e0[j].value@),
            decreases count - i,
        {
            proof {
                lemma_auto_spec_u64_to_from_le_bytes();
            }
            if offset > seg_bytes || seg_bytes - offset < 16 {
                proof {
                    assert forall|e0: Seq<MapEntry>| !(#[trigger] entries_encoded_in(c, e0)) by {
                        if entries_encoded_in(c, e0) {
                            vstd::bytes::lemma_auto_spec_u64_to_from_le_bytes();
                            lemma_slots_bytes_len_lower(e0);
                            assert(spec_u64_to_le_bytes(e0.len() as u64).len() == 8);
                            assert(encode_entries(e0).len() == 8 + slots_bytes(e0).len());
                            assert(16 * e0.len() <= slots_bytes(e0).len());
                            assert(e0.len() <= 1024);
                            assert(e0.len() as u64 == count64);
                            assert(e0.len() == count as int);
                            lemma_encoded_slot_at(c, e0, i as int, offset as int);
                        }
                    }
                }
                return Err(StorageError::StorageCorrupt);
            }
            let kb = match mm.seg_read(tag, offset, 8) {
                Ok(v) => v,
                Err(_) => {
                    return Err(StorageError::StorageCorrupt);
                }
            };
            let key = u64_from_le_bytes(kb.as_slice());
            let lb = match mm.seg_read(tag, offset + 8, 8) {
                Ok(v) => v,
                Err(_) => {
                    return Err(StorageError::StorageCorrupt);
                }
            };
            let vlen64 = u64_from_le_bytes(lb.as_slice());
            proof {
                assert forall|e0: Seq<MapEntry>| #[trigger] entries_encoded_in(c, e0) implies key
                    == e0[i as int].key && vlen64 == e0[i as int].value@.len() as u64 && offset + 16
                    + e0[i as int].value@.len() <= seg_bytes by {
                    vstd::bytes::lemma_auto_spec_u64_to_from_le_bytes();
                    lemma_slots_bytes_len_lower(e0);
                    assert(spec_u64_to_le_bytes(e0.len() as u64).len() == 8);
                    assert(encode_entries(e0).len() == 8 + slots_bytes(e0).len());
                    assert(16 * e0.len() <= slots_bytes(e0).len());
                    assert(e0.len() <= 1024);
                    assert(e0.len() as u64 == count64);
                    assert(e0.len() == count as int);
                    lemma_encoded_slot_at(c, e0, i as int, offset as int);
                    assert(spec_u64_from_le_bytes(spec_u64_to_le_bytes(e0[i as int].key)) == e0[
                        i as int
                    ].key);
                    assert(spec_u64_from_le_bytes(
                        spec_u64_to_le_bytes(e0[i as int].value@.len() as u64),
                    ) == e0[i as int].value@.len() as u64);
                }
            }
            if vlen64 > MAX_RECORD_SIZE as u64 {
                proof {
                    assert forall|e0: Seq<MapEntry>| !(#[trigger] entries_encoded_in(c, e0)) by {
                        if entries_encoded_in(c, e0) {
                            assert(e0[i as int].value@.len() <= MAX_RECORD_SIZE);
                        }
                    }
                }
                return Err(StorageError::StorageCorrupt);
            }
            let vlen = vlen64 as usize;
            if seg_bytes - offset - 16 < vlen {
                proof {
                    assert forall|e0: Seq<MapEntry>| !(#[trigger] entries_encoded_in(c, e0)) by {}
                }
                return Err(StorageError::StorageCorrupt);
            }
            let value = match mm.seg_read(tag, offset + 16, vlen) {
                Ok(v) => v,
                Err(_) => {
                    return Err(StorageError::StorageCorrupt);
                }
            };
            if entries.len() > 0 {
                let last_key = entries[entries.len() - 1].key;
                if last_key >= key {
                    proof {
                        assert forall|e0: Seq<MapEntry>| !(#[trigger] entries_encoded_in(
                            c,
                            e0,
                        )) by {
                            if entries_encoded_in(c, e0) {
                                assert(entries@[i - 1].key == e0[i - 1].key);
                                assert(e0[i - 1].key < e0[i as int].key);
                            }
                        }
                    }
                    return Err(StorageError::StorageCorrupt);
                }
            }
            let e = MapEntry { key, value };
            let ghost pre_entries = entries@;
            entries.push(e);
            proof {
                assert(entries@.drop_last() =~= pre_entries);
                assert(entries@.last() == e);
                assert(slot_bytes(e).len() == 16 + vlen);
                assert(c.subrange(offset as int, offset + 16 + vlen) =~= slot_bytes(e)) by {
                    assert(c.subrange(offset as int, offset + 8) =~= spec_u64_to_le_bytes(key));
                    assert(c.subrange(offset + 8, offset + 16) =~= spec_u64_to_le_bytes(vlen64));
                    assert(c.subrange(offset + 16, offset + 16 + vlen) =~= e.value@);
                }
                assert(c.subrange(8, offset + 16 + vlen) =~= slots_bytes(entries@)) by {
                    assert(slots_bytes(entries@) == slots_bytes(pre_entries) + slot_bytes(e));
                }
                assert forall|j: int, k: int| 0 <= j < k < entries@.len() implies entries@[j].key
                    < entries@[k].key by {
                    if k < entries@.len() - 1 {
                    } else {
                        if j < pre_entries.len() - 1 {
                            assert(pre_entries[j].key < pre_entries[pre_entries.len() - 1].key);
                        }
                    }
                }
            }
            proof {
                assert forall|e0: Seq<MapEntry>| #[trigger] entries_encoded_in(c, e0) implies
                    offset + 16 + vlen == 8 + slots_bytes(e0.take(i + 1)).len() && (forall|j: int|
                    0 <= j <= i ==> entries@[j].key == e0[j].key && entries@[j].value@
                        == e0[j].value@) by {
                    vstd::bytes::lemma_auto_spec_u64_to_from_le_bytes();
                    lemma_slots_bytes_len_lower(e0);
                    assert(spec_u64_to_le_bytes(e0.len() as u64).len() == 8);
                    assert(encode_entries(e0).len() == 8 + slots_bytes(e0).len());
                    assert(16 * e0.len() <= slots_bytes(e0).len());
                    assert(e0.len() <= 1024);
                    assert(e0.len() as u64 == count64);
                    assert(e0.len() == count as int);
                    lemma_encoded_slot_at(c, e0, i as int, offset as int);
                    assert(e0.take(i + 1).drop_last() =~= e0.take(i as int));
                    assert(e0.take(i + 1).last() == e0[i as int]);
                    assert(entries@[i as int].key == e0[i as int].key);
                    assert(entries@[i as int].value@ =~= c.subrange(
                        offset + 16,
                        offset + 16 + vlen,
                    ));
                    assert(entries@[i as int].value@ =~= e0[i as int].value@);
                }
            }
            offset = offset + 16 + vlen;
            i = i + 1;
        }
        let m = RecordMap { tag, entries };
        proof {
            assert(count64 == m.entries@.len() as u64);
            assert(c.subrange(0, (8 + slots_bytes(m.entries@).len()) as int) =~= encode_entries(
                m.entries@,
            ));
        }
        Ok(m)
    }

    /// Looks the key up, returning a copy of its value.
    pub fn get(&self, key: u64) -> (r: Option<Vec<u8>>)
        requires
            keys_strictly_sorted(self.entries@),
        ensures
            r matches Some(v) ==> self.as_map().contains_key(key) && v@ == self.as_map()[key],
            r is None <==> !self.as_map().contains_key(key),
    {
        let (pos, found) = self.find_pos(key);
        if found {
            let v = crate::record::copy_range(
                &self.entries[pos].value,
                0,
                self.entries[pos].value.len(),
            );
            proof {
                lemma_map_of_get(self.entries@, pos as int);
                assert(v@ =~= self.entries@[pos as int].value@);
            }
            Some(v)
        } else {
            None
        }
    }

    /// Inserts or replaces the binding of `key`, durably in the segment
    /// before returning, and returns the replaced value if one was there.
    /// Fails with `ValueTooLarge` exactly when the value passes the
    /// bounded slot size, and with `StorageFull` exactly when the new
    /// encoding would pass the segment's byte budget; either failure
    /// leaves the map unchanged.
    #[verifier::rlimit(100)]
    #[verifier::spinoff_prover]
    pub fn insert(&mut self, mm: &mut MemoryManager, key: u64, value: Vec<u8>) -> (r: Result<
        Option<Vec<u8>>,
        StorageError,
    >)
        requires
            old(mm).wf(),
            old(self).wf(old(mm)),
        ensures
            final(mm).wf(),
            final(self).wf(final(mm)),
            final(self).tag == old(self).tag,
            forall|u: int|
                0 <= u < MAX_SEGMENTS && u != old(self).tag as int ==> #[trigger] final(mm).seg_content(u) == old(mm).seg_content(u),
            r == Err::<Option<Vec<u8>>, StorageError>(StorageError::ValueTooLarge) <==> value@.len()
                > MAX_RECORD_SIZE,
            r == Err::<Option<Vec<u8>>, StorageError>(StorageError::StorageFull) <==> value@.len()
                <= MAX_RECORD_SIZE && inserted_encoding_len(
                old(self).entries@,
                key,
                value@.len(),
            ) > SEG_MAX_BYTES,
            r is Ok <==> value@.len() <= MAX_RECORD_SIZE && inserted_encoding_len(
                old(self).entries@,
                key,
                value@.len(),
            ) <= SEG_MAX_BYTES,
            r matches Ok(prev) ==> final(self).as_map() == old(self).as_map().insert(
                key,
                value@,
            ) && (match prev {
                Some(v) => old(self).as_map().contains_key(key) && v@ == old(self).as_map()[key],
                None => !old(self).as_map().contains_key(key),
            }),
            r is Err ==> final(self).entries@ == old(self).entries@ && final(mm).store@ == old(mm).store@ && final(mm).seg_pages@ == old(mm).seg_pages@,
    {
        if value.len() > MAX_RECORD_SIZE {
            return Err(StorageError::ValueTooLarge);
        }
        proof {
            lemma_auto_spec_u64_to_from_le_bytes();
        }
        let (pos, found) = self.find_pos(key);
        let total = self.encoded_size();
        let ghost pre = self.entries@;
        let mut prev: Option<Vec<u8>> = None;
        if found {
            proof {
                assert(pre.take(pos as int) + seq![pre[pos as int]] + pre.skip(pos + 1) =~= pre);
                lemma_slots_bytes_concat(
                    pre.take(pos as int) + seq![pre[pos as int]],
                    pre.skip(pos + 1),
                );
                lemma_slots_bytes_concat(pre.take(pos as int), seq![pre[pos as int]]);
                lemma_slots_bytes_single(pre[pos as int]);
                assert(total >= 24 + pre[pos as int].value@.len());
            }
            let old_len = self.entries[pos].value.len();
            proof {
                lemma_map_of_get(pre, pos as int);
            }
            let new_total = total - old_len + value.len();
            if new_total > SEG_MAX_BYTES {
                return Err(StorageError::StorageFull);
            }
            let mut e = MapEntry { key, value };
            self.entries.set_and_swap(pos, &mut e);
            prev = Some(e.value);
            proof {
                lemma_map_of_get(pre, pos as int);
                lemma_map_of_update(pre, pos as int, self.entries@[pos as int]);
                let s2 = self.entries@;
                assert(s2 =~= pre.update(pos as int, s2[pos as int]));
                assert(s2.take(pos as int) =~= pre.take(pos as int));
                assert(s2.skip(pos + 1) =~= pre.skip(pos + 1));
                assert(s2.take(pos as int) + seq![s2[pos as int]] + s2.skip(pos + 1) =~= s2);
                lemma_slots_bytes_concat(
                    s2.take(pos as int) + seq![s2[pos as int]],
                    s2.skip(pos + 1),
                );
                lemma_slots_bytes_concat(s2.take(pos as int), seq![s2[pos as int]]);
                lemma_slots_bytes_single(s2[pos as int]);
                assert(encode_entries(s2).len() == new_total);
            }
        } else {
            proof {
                lemma_map_of_contains(pre, key);
            }
            let new_total = total + 16 + value.len();
            if new_total > SEG_MAX_BYTES {
                return Err(StorageError::StorageFull);
            }
            let e = MapEntry { key, value };
            self.entries.insert(pos, e);
            proof {
                lemma_map_of_contains(pre, key);
                lemma_map_of_insert(pre, pos as int, self.entries@[pos as int]);
                let s2 = self.entries@;
                assert(s2 =~= pre.insert(pos as int, s2[pos as int]));
                assert(s2.take(pos as int) =~= pre.take(pos as int));
                assert(s2.skip(pos + 1) =~= pre.skip(pos as int));
                assert(pre.take(pos as int) + pre.skip(pos as int) =~= pre);
                lemma_slots_bytes_concat(pre.take(pos as int), pre.skip(pos as int));
                assert(s2.take(pos as int) + seq![s2[pos as int]] + s2.skip(pos + 1) =~= s2);
                lemma_slots_bytes_concat(
                    s2.take(pos as int) + seq![s2[pos as int]],
                    s2.skip(pos + 1),
                );
                lemma_slots_bytes_concat(s2.take(pos as int), seq![s2[pos as int]]);
                lemma_slots_bytes_single(s2[pos as int]);
                assert(encode_entries(s2).len() == new_total);
            }
        }
        match self.write_through(mm) {
            Ok(()) => {}
            Err(e) => {
                proof {
                    assert(false);
                }
                return Err(e);
            }
        }
        Ok(prev)
    }

    /// Deletes the binding of `key`, durably in the segment before
    /// returning, and returns the removed value; `None` when the key is
    /// absent, leaving the map unchanged. Never fails: the rewritten
    /// encoding is never longer than the one it replaces.
    #[verifier::rlimit(100)]
    #[verifier::spinoff_prover]
    pub fn remove(&mut self, mm: &mut MemoryManager, key: u64) -> (r: Option<Vec<u8>>)
        requires
            old(mm).wf(),
            old(self).wf(old(mm)),
        ensures
            final(mm).wf(),
            final(self).wf(final(mm)),
            final(self).tag == old(self).tag,
            forall|u: int|
                0 <= u < MAX_SEGMENTS && u != old(self).tag as int ==> #[trigger] final(mm).seg_content(u) == old(mm).seg_content(u),
            final(self).as_map() == old(self).as_map().remove(key),
            r matches Some(v) ==> old(self).as_map().contains_key(key) && v@ == old(self).as_map()[key],
            r is None <==> !old(self).as_map().contains_key(key),
            r is None ==> final(self).entries@ == old(self).entries@ && final(mm).store@ == old(mm).store@,
    {
        proof {
            lemma_auto_spec_u64_to_from_le_bytes();
        }
        let (pos, found) = self.find_pos(key);
        if !found {
            proof {
                assert(map_of(self.entries@).remove(key) =~= map_of(self.entries@));
            }
            return None;
        }
        let ghost pre = self.entries@;
        let e = self.entries.remove(pos);
        proof {
            lemma_map_of_get(pre, pos as int);
            lemma_map_of_remove(pre, pos as int);
            let s2 = self.entries@;
            assert(s2 =~= pre.remove(pos as int));
            assert(pre.take(pos as int) + seq![pre[pos as int]] + pre.skip(pos + 1) =~= pre);
            lemma_slots_bytes_concat(
                pre.take(pos as int) + seq![pre[pos as int]],
                pre.skip(pos + 1),
            );
            lemma_slots_bytes_concat(pre.take(pos as int), seq![pre[pos as int]]);
            lemma_slots_bytes_single(pre[pos as int]);
            assert(s2.take(pos as int) =~= pre.take(pos as int));
            assert(s2.skip(pos as int) =~= pre.skip(pos + 1));
            assert(s2.take(pos as int) + s2.skip(pos as int) =~= s2);
            lemma_slots_bytes_concat(s2.take(pos as int), s2.skip(pos as int));
            assert(encode_entries(s2).len() <= encode_entries(pre).len());
        }
        match self.write_through(mm) {
            Ok(()) => {}
            Err(_) => {
                proof {
                    assert(false);
                }
                return None;
            }
        }
        Some(e.value)
    }
}


/// Durability of the map: the segment's persisted content determines the
/// map's logical state. Two well-formed maps bound to segments of equal
/// content denote the same map, so the map a restart recovers is the map
/// the previous process persisted.
pub proof fn lemma_content_determines_map(
    m1: &RecordMap,
    m2: &RecordMap,
    mm1: &MemoryManager,
    mm2: &MemoryManager,
)
    requires
        m1.wf(mm1),
        m2.wf(mm2),
        mm1.seg_content(m1.tag as int) == mm2.seg_content(m2.tag as int),
    ensures
        m1.as_map() == m2.as_map(),
{
    vstd::bytes::lemma_auto_spec_u64_to_from_le_bytes();
    let c = mm1.seg_content(m1.tag as int);
    let e1 = m1.entries@;
    let e2 = m2.entries@;
    if c.len() == 0 {
        assert(map_of(e1) =~= map_of(e2));
    } else {
        lemma_slots_bytes_len_lower(e1);
        lemma_slots_bytes_len_lower(e2);
        assert(c.subrange(0, 8) =~= encode_entries(e1).subrange(0, 8));
        assert(encode_entries(e1).subrange(0, 8) =~= spec_u64_to_le_bytes(e1.len() as u64));
        assert(c.subrange(0, 8) =~= encode_entries(e2).subrange(0, 8));
        assert(encode_entries(e2).subrange(0, 8) =~= spec_u64_to_le_bytes(e2.len() as u64));
        assert(e1.len() == e2.len());
        let c2 = c.skip(8);
        assert forall|j: int| 0 <= j < slots_bytes(e1).len() implies c2[j] == slots_bytes(e1)[j] by {
            assert(c.subrange(0, encode_entries(e1).len() as int)[8 + j] == encode_entries(
                e1,
            )[8 + j]);
            assert(encode_entries(e1)[8 + j] == slots_bytes(e1)[j]);
        }
        assert forall|j: int| 0 <= j < slots_bytes(e2).len() implies c2[j] == slots_bytes(e2)[j] by {
            assert(c.subrange(0, encode_entries(e2).len() as int)[8 + j] == encode_entries(
                e2,
            )[8 + j]);
            assert(encode_entries(e2)[8 + j] == slots_bytes(e2)[j]);
        }
        assert(slots_bytes(e1) =~= c2.subrange(0, slots_bytes(e1).len() as int));
        assert(slots_bytes(e2) =~= c2.subrange(0, slots_bytes(e2).len() as int));
        lemma_slots_bytes_injective(e1, e2, c2);
        lemma_map_of_congruent(e1, e2);
    }
}

} // verus!
