//! The storage core: the id cell and the record map over one manager.
//!
//! `StorageCore` owns the whole storage state of the process: the memory
//! manager over the physical region, the id cell bound to its reserved
//! segment, and the record map bound to another. It is constructed once
//! per process lifetime by `init`, either fresh or by recovering the state
//! a previous process persisted, and serves `add`, `get` and `delete`.

use vstd::prelude::*;

use crate::errors::StorageError;
use crate::id_cell::IdCell;
use crate::memory_manager::MemoryManager;
use crate::page_store::PageStore;
use crate::record::EnergyUsageRecord;
use crate::record::RecordView;
use crate::record::MAX_RECORD_SIZE;
use crate::record::spec_encode;
use crate::record::spec_decode;
use crate::record::encode;
use crate::record::decode;
use crate::record::lemma_codec_round_trip;
use crate::record_map::RecordMap;
use crate::record_map::inserted_encoding_len;
use crate::record_map::lemma_map_of_contains;
use crate::recommend::spec_tier;
use crate::recommend::spec_message;
use crate::recommend::usage_tier;
use crate::recommend::recommendation_message;
use crate::recommend::valid_usage_bits;
use crate::memory_manager::SEG_MAX_BYTES;

verus! {

/// The reserved segment of the id cell.
pub const ID_CELL_TAG: u8 = 0;

/// The reserved segment of the record map.
pub const RECORD_MAP_TAG: u8 = 1;

/// The whole storage state of the process.
pub struct StorageCore {
    pub mm: MemoryManager,
    pub ids: IdCell,
    pub map: RecordMap,
}

/// The mathematical state of the core: the next id to issue and the live
/// records, keyed by their ids.
#[verifier::ext_equal]
pub struct CoreView {
    pub next_id: u64,
    pub records: Map<u64, RecordView>,
}

impl View for StorageCore {
    type V = CoreView;

    open spec fn view(&self) -> CoreView {
        CoreView {
            next_id: self.ids.value,
            records: Map::new(
                |k: u64| self.map.as_map().contains_key(k),
                |k: u64| spec_decode(self.map.as_map()[k]).unwrap(),
            ),
        }
    }
}

/// The record `add` builds from its inputs in a given pre-state.
pub open spec fn made_record(
    pre: CoreView,
    usage_kwh_bits: u64,
    device_type: Seq<u8>,
    timestamp: u64,
) -> RecordView {
    RecordView {
        id: pre.next_id,
        usage_kwh_bits,
        timestamp,
        device_type,
        recommendation: Some(spec_message(spec_tier(usage_kwh_bits))),
    }
}

/// The transition a successful `add` makes: the returned record carries
/// the issued id, the inputs and the derived recommendation; the counter
/// advances by one; the record is bound to its id.
pub open spec fn add_ok(
    pre: CoreView,
    post: CoreView,
    usage_kwh_bits: u64,
    device_type: Seq<u8>,
    timestamp: u64,
    rec: RecordView,
) -> bool {
    &&& rec == made_record(pre, usage_kwh_bits, device_type, timestamp)
    &&& post.next_id == pre.next_id + 1
    &&& post.records == pre.records.insert(rec.id, rec)
}

impl StorageCore {
    /// All three parts agree, every stored value decodes to a record
    /// carrying its own key, and every issued id stays below the counter.
    pub open spec fn wf(&self) -> bool {
        &&& self.mm.wf()
        &&& self.ids.wf(&self.mm)
        &&& self.map.wf(&self.mm)
        &&& self.ids.tag == ID_CELL_TAG
        &&& self.map.tag == RECORD_MAP_TAG
        &&& forall|k: u64|
            #[trigger] self.map.as_map().contains_key(k) ==> spec_decode(self.map.as_map()[k])
                is Some && spec_decode(self.map.as_map()[k]).unwrap().id == k
        &&& forall|k: u64| #[trigger] self.map.as_map().contains_key(k) ==> k < self.ids.value
    }

    /// Builds the core over a region. An empty region yields the empty
    /// state with the counter at zero; a non-empty one recovers the state
    /// a previous process persisted, failing with `StorageCorrupt` exactly
    /// when the persisted bytes are malformed. Recovery is owed and exact:
    /// on a region some well-formed core persisted, `init` cannot fail and
    /// returns a core in that core's state.
    pub fn init(store: PageStore) -> (r: Result<StorageCore, StorageError>)
        requires
            store.wf(),
        ensures
            r matches Ok(c) ==> c.wf(),
            store@.len() == 0 ==> (r matches Ok(c) && c@.next_id == 0 && c@.records
                == Map::<u64, RecordView>::empty()),
            forall|c0: StorageCore|
                c0.wf() && c0.mm.store@ == store@ ==> (r matches Ok(c) && c@ == c0@),
            r is Err ==> r == Err::<StorageCore, StorageError>(StorageError::StorageCorrupt),
    {
        let ghost fresh = store@.len() == 0;
        let ghost store0 = store@;
        let ghost hyp = exists|c0: StorageCore| c0.wf() && c0.mm.store@ == store0;
        let mut mm = match MemoryManager::init(store) {
            Ok(m) => m,
            Err(e) => {
                proof {
                    assert forall|c0: StorageCore| !(c0.wf() && c0.mm.store@ == store0) by {
                        if c0.wf() && c0.mm.store@ == store0 {
                            crate::memory_manager::lemma_wf_implies_meta_valid(&c0.mm);
                        }
                    }
                }
                return Err(e);
            }
        };
        let ghost mm0 = mm;
        let ids = match IdCell::init(&mut mm, ID_CELL_TAG, 0) {
            Ok(c) => c,
            Err(e) => {
                proof {
                    assert forall|c0: StorageCore| !(c0.wf() && c0.mm.store@ == store0) by {
                        if c0.wf() && c0.mm.store@ == store0 {
                            assert(!fresh);
                            assert(mm0.store@ == store0);
                            crate::memory_manager::lemma_store_determines_manager(&mm0, &c0.mm);
                            assert(crate::id_cell::cell_magic_ok(
                                mm0.seg_content(ID_CELL_TAG as int),
                            ));
                        }
                    }
                }
                return Err(e);
            }
        };
        proof {
            if hyp {
                let c0 = choose|c0: StorageCore| c0.wf() && c0.mm.store@ == store0;
                assert(!fresh);
                assert(mm0.store@ == store0);
                crate::memory_manager::lemma_store_determines_manager(&mm0, &c0.mm);
                assert(crate::id_cell::cell_magic_ok(mm0.seg_content(ID_CELL_TAG as int)));
                assert(mm0.seg_content(ID_CELL_TAG as int).len() > 0);
                assert(mm.store@ == store0);
                assert(ids.value == c0.ids.value);
            }
        }
        let map = match RecordMap::init(&mm, RECORD_MAP_TAG) {
            Ok(m) => m,
            Err(e) => {
                proof {
                    assert forall|c0: StorageCore| !(c0.wf() && c0.mm.store@ == store0) by {
                        if c0.wf() && c0.mm.store@ == store0 {
                            crate::memory_manager::lemma_store_determines_manager(&mm, &c0.mm);
                            if c0.mm.seg_content(RECORD_MAP_TAG as int).len() > 0 {
                                assert(crate::record_map::entries_encoded_in(
                                    mm.seg_content(RECORD_MAP_TAG as int),
                                    c0.map.entries@,
                                ));
                            }
                        }
                    }
                }
                return Err(e);
            }
        };
        proof {
            if hyp {
                let c0 = choose|c0: StorageCore| c0.wf() && c0.mm.store@ == store0;
                crate::memory_manager::lemma_store_determines_manager(&mm, &c0.mm);
                crate::record_map::lemma_content_determines_map(&map, &c0.map, &mm, &c0.mm);
            }
        }
        if map.len() > 0 {
            let last_key = map.entries[map.len() - 1].key;
            if last_key >= ids.get() {
                proof {
                    assert forall|c0: StorageCore| !(c0.wf() && c0.mm.store@ == store0) by {
                        if c0.wf() && c0.mm.store@ == store0 {
                            crate::record_map::lemma_map_of_get(
                                map.entries@,
                                map.entries@.len() - 1,
                            );
                        }
                    }
                }
                return Err(StorageError::StorageCorrupt);
            }
        }
        proof {
            if hyp {
                let c0 = choose|c0: StorageCore| c0.wf() && c0.mm.store@ == store0;
                assert forall|j: int| 0 <= j < map.entries@.len() implies spec_decode(
                    #[trigger] map.entries@[j].value@,
                ) is Some && spec_decode(map.entries@[j].value@).unwrap().id
                    == map.entries@[j].key by {
                    crate::record_map::lemma_map_of_get(map.entries@, j);
                    assert(c0.map.as_map().contains_key(map.entries@[j].key));
                }
            }
        }
        let mut i: usize = 0;
        let n = map.len();
        while i < n
            invariant
                fresh == (store@.len() == 0),
                fresh ==> n == 0,
                hyp == exists|c0: StorageCore| c0.wf() && c0.mm.store@ == store0,
                store0 == store@,
                hyp ==> forall|j: int|
                    0 <= j < n ==> spec_decode(#[trigger] map.entries@[j].value@) is Some
                        && spec_decode(map.entries@[j].value@).unwrap().id == map.entries@[j].key,
                i <= n,
                n == map.entries@.len(),
                crate::record_map::keys_strictly_sorted(map.entries@),
                forall|j: int|
                    0 <= j < i ==> spec_decode(#[trigger] map.entries@[j].value@) is Some
                        && spec_decode(map.entries@[j].value@).unwrap().id == map.entries@[j].key,
            decreases n - i,
        {
            let rec = match decode(&map.entries[i].value) {
                Ok(rec) => rec,
                Err(_) => {
                    return Err(StorageError::StorageCorrupt);
                }
            };
            if rec.id != map.entries[i].key {
                return Err(StorageError::StorageCorrupt);
            }
            i = i + 1;
        }
        let core = StorageCore { mm, ids, map };
        proof {
            assert forall|k: u64| #[trigger] core.map.as_map().contains_key(k) implies spec_decode(
                core.map.as_map()[k],
            ) is Some && spec_decode(core.map.as_map()[k]).unwrap().id == k && k
                < core.ids.value by {
                lemma_map_of_contains(core.map.entries@, k);
                let j = choose|j: int|
                    0 <= j < core.map.entries@.len() && core.map.entries@[j].key == k;
                crate::record_map::lemma_map_of_get(core.map.entries@, j);
                if j < core.map.entries@.len() - 1 {
                    assert(core.map.entries@[j].key < core.map.entries@[
                        core.map.entries@.len() - 1
                    ].key);
                }
            }
            if fresh {
                assert(core.map.entries@.len() == 0);
                assert(core@.records =~= Map::<u64, RecordView>::empty());
            }
            assert forall|c0: StorageCore| c0.wf() && c0.mm.store@ == store0 implies core@
                == c0@ by {
                assert(core.mm.store@ == store0);
                lemma_region_determines_state(&core, &c0);
            }
        }
        Ok(core)
    }

    /// Records a new energy-usage event: issues the next id, advances the
    /// counter durably, derives the recommendation from the usage, and
    /// persists the record under its id.
    ///
    /// Fails with `InvalidInput` exactly when the usage bits are negative
    /// or NaN, before any mutation; with `MemoryFull` exactly when the id
    /// space is exhausted, before any mutation; with `EncodingError`
    /// exactly when the texts push the record over its encoded bound; and
    /// with `StorageFull` exactly when the persisted map cannot take the
    /// encoded record. After the last two the counter has already
    /// advanced: the id is skipped, and the records are unchanged.
    pub fn add(&mut self, usage_kwh_bits: u64, device_type: Vec<u8>, timestamp: u64) -> (r: Result<
        EnergyUsageRecord,
        StorageError,
    >)
        requires
            old(self).wf(),
        ensures
            final(self).wf(),
            r matches Ok(rec) ==> add_ok(
                old(self)@,
                final(self)@,
                usage_kwh_bits,
                device_type@,
                timestamp,
                rec@,
            ),
            r == Err::<EnergyUsageRecord, StorageError>(StorageError::InvalidInput)
                <==> !valid_usage_bits(usage_kwh_bits),
            r == Err::<EnergyUsageRecord, StorageError>(StorageError::MemoryFull)
                <==> valid_usage_bits(usage_kwh_bits) && old(self)@.next_id == u64::MAX,
            r == Err::<EnergyUsageRecord, StorageError>(StorageError::EncodingError)
                <==> valid_usage_bits(usage_kwh_bits) && old(self)@.next_id < u64::MAX
                && spec_encode(
                made_record(old(self)@, usage_kwh_bits, device_type@, timestamp),
            ).len() > MAX_RECORD_SIZE,
            r == Err::<EnergyUsageRecord, StorageError>(StorageError::StorageFull)
                <==> valid_usage_bits(usage_kwh_bits) && old(self)@.next_id < u64::MAX
                && spec_encode(
                made_record(old(self)@, usage_kwh_bits, device_type@, timestamp),
            ).len() <= MAX_RECORD_SIZE && inserted_encoding_len(
                old(self).map.entries@,
                old(self)@.next_id,
                spec_encode(made_record(old(self)@, usage_kwh_bits, device_type@, timestamp)).len(),
            ) > SEG_MAX_BYTES,
            r is Ok <==> valid_usage_bits(usage_kwh_bits) && old(self)@.next_id < u64::MAX
                && spec_encode(
                made_record(old(self)@, usage_kwh_bits, device_type@, timestamp),
            ).len() <= MAX_RECORD_SIZE && inserted_encoding_len(
                old(self).map.entries@,
                old(self)@.next_id,
                spec_encode(made_record(old(self)@, usage_kwh_bits, device_type@, timestamp)).len(),
            ) <= SEG_MAX_BYTES,
            r is Err ==> final(self)@.records == old(self)@.records,
            (r == Err::<EnergyUsageRecord, StorageError>(StorageError::InvalidInput) || r == Err::<
                EnergyUsageRecord,
                StorageError,
            >(StorageError::MemoryFull)) ==> final(self)@ == old(self)@,
            (r == Err::<EnergyUsageRecord, StorageError>(StorageError::EncodingError) || r == Err::<
                EnergyUsageRecord,
                StorageError,
            >(StorageError::StorageFull)) ==> final(self)@.next_id == old(self)@.next_id + 1,
    {
        if usage_kwh_bits > crate::recommend::INFINITY_BITS {
            return Err(StorageError::InvalidInput);
        }
        let id = self.ids.get();
        if id == u64::MAX {
            return Err(StorageError::MemoryFull);
        }
        let ghost pre = *self;
        match self.ids.set(&mut self.mm, id + 1) {
            Ok(_) => {}
            Err(_) => {
                proof {
                    assert(false);
                }
                return Err(StorageError::StorageCorrupt);
            }
        }
        proof {
            assert(self.map.wf(&self.mm));
            assert(self.map.as_map() == pre.map.as_map());
        }
        let tier = usage_tier(usage_kwh_bits);
        let message = recommendation_message(tier);
        let record = EnergyUsageRecord {
            id,
            usage_kwh_bits,
            timestamp,
            device_type,
            recommendation: Some(message),
        };
        let bytes = match encode(&record) {
            Ok(b) => b,
            Err(_) => {
                proof {
                    assert(final(self)@.records =~= old(self)@.records);
                }
                return Err(StorageError::EncodingError);
            }
        };
        let ghost mid = *self;
        let prev = match self.map.insert(&mut self.mm, id, bytes) {
            Ok(p) => p,
            Err(e) => {
                proof {
                    assert(e != StorageError::ValueTooLarge);
                    assert(self.ids.wf(&self.mm));
                    assert(final(self)@.records =~= old(self)@.records);
                }
                return Err(e);
            }
        };
        proof {
            assert(self.ids.wf(&self.mm));
            let rv = record@;
            assert(rv.wf());
            lemma_codec_round_trip(rv);
            assert forall|k: u64| #[trigger] self.map.as_map().contains_key(k) implies spec_decode(
                self.map.as_map()[k],
            ) is Some && spec_decode(self.map.as_map()[k]).unwrap().id == k && k
                < self.ids.value by {
                if k != id {
                    assert(pre.map.as_map().contains_key(k));
                }
            }
            assert(final(self)@.records =~= old(self)@.records.insert(id, rv));
            assert(rv == made_record(old(self)@, usage_kwh_bits, device_type@, timestamp));
        }
        Ok(record)
    }

    /// Looks a record up by id. Returns the stored record exactly when the
    /// id is live, and fails with `NotFound` exactly when it is not.
    pub fn get(&self, id: u64) -> (r: Result<EnergyUsageRecord, StorageError>)
        requires
            self.wf(),
        ensures
            self@.records.contains_key(id) ==> (r matches Ok(rec) && rec@ == self@.records[id]),
            !self@.records.contains_key(id) ==> r == Err::<
                EnergyUsageRecord,
                StorageError,
            >(StorageError::NotFound),
    {
        let bytes = match self.map.get(id) {
            Some(b) => b,
            None => {
                return Err(StorageError::NotFound);
            }
        };
        match decode(&bytes) {
            Ok(rec) => Ok(rec),
            Err(_) => {
                proof {
                    assert(false);
                }
                Err(StorageError::StorageCorrupt)
            }
        }
    }

    /// Deletes a record by id, durably, and returns the removed record.
    /// Fails with `NotFound` exactly when the id is not live; the counter
    /// never changes.
    pub fn delete(&mut self, id: u64) -> (r: Result<EnergyUsageRecord, StorageError>)
        requires
            old(self).wf(),
        ensures
            final(self).wf(),
            final(self)@.records == old(self)@.records.remove(id),
            final(self)@.next_id == old(self)@.next_id,
            old(self)@.records.contains_key(id) ==> (r matches Ok(rec) && rec@ == old(
                self,
            )@.records[id]),
            !old(self)@.records.contains_key(id) ==> r == Err::<
                EnergyUsageRecord,
                StorageError,
            >(StorageError::NotFound),
    {
        let ghost pre = *self;
        let bytes = match self.map.remove(&mut self.mm, id) {
            Some(b) => b,
            None => {
                proof {
                    assert(final(self)@.records =~= old(self)@.records.remove(id));
                }
                return Err(StorageError::NotFound);
            }
        };
        proof {
            assert(self.ids.wf(&self.mm));
            assert forall|k: u64| #[trigger] self.map.as_map().contains_key(k) implies spec_decode(
                self.map.as_map()[k],
            ) is Some && spec_decode(self.map.as_map()[k]).unwrap().id == k && k
                < self.ids.value by {
                assert(pre.map.as_map().contains_key(k));
            }
            assert(final(self)@.records =~= old(self)@.records.remove(id));
        }
        match decode(&bytes) {
            Ok(rec) => Ok(rec),
            Err(_) => {
                proof {
                    assert(false);
                }
                Err(StorageError::StorageCorrupt)
            }
        }
    }

    /// Hands the physical region back, for a restart or inspection. The
    /// region still holds everything the core persisted.
    pub fn into_store(self) -> (r: PageStore)
        ensures
            r == self.mm.store,
    {
        self.mm.store
    }
}

/// Ids are issued in strictly increasing order: of two successful `add`
/// calls, the later one returns the greater id, however many other
/// operations ran in between, since no operation ever decreases the
/// counter and `add` returns the counter's value before advancing it.
pub proof fn lemma_add_ids_monotonic(
    pre1: CoreView,
    post1: CoreView,
    b1: u64,
    d1: Seq<u8>,
    t1: u64,
    r1: RecordView,
    pre2: CoreView,
    post2: CoreView,
    b2: u64,
    d2: Seq<u8>,
    t2: u64,
    r2: RecordView,
)
    requires
        add_ok(pre1, post1, b1, d1, t1, r1),
        add_ok(pre2, post2, b2, d2, t2, r2),
        post1.next_id <= pre2.next_id,
    ensures
        r1.id < r2.id,
{
}

/// Lookup consistency: immediately after a successful `add` returns a
/// record, that record is bound to its id in the post-state, so `get` on
/// that id returns it.
pub proof fn lemma_add_then_get(
    pre: CoreView,
    post: CoreView,
    bits: u64,
    dt: Seq<u8>,
    ts: u64,
    rec: RecordView,
)
    requires
        add_ok(pre, post, bits, dt, ts, rec),
    ensures
        post.records.contains_key(rec.id),
        post.records[rec.id] == rec,
{
}

/// Delete removes: once an id's binding is removed, the id is no longer
/// live, so a `get` and a second `delete` both report `NotFound`.
pub proof fn lemma_delete_removes(records: Map<u64, RecordView>, id: u64)
    ensures
        !records.remove(id).contains_key(id),
{
}


/// Durability: the physical region alone determines the whole logical
/// state. Two well-formed cores over equal regions agree on the next id
/// and on every live record; since every mutation is written through to
/// the region before its call returns, the core `init` recovers at a
/// restart carries exactly the state the previous process persisted.
pub proof fn lemma_region_determines_state(c1: &StorageCore, c2: &StorageCore)
    requires
        c1.wf(),
        c2.wf(),
        c1.mm.store@ == c2.mm.store@,
    ensures
        c1@ == c2@,
{
    crate::memory_manager::lemma_store_determines_manager(&c1.mm, &c2.mm);
    assert(c1.mm.seg_content(ID_CELL_TAG as int) == c2.mm.seg_content(ID_CELL_TAG as int));
    assert(c1.ids.value == c2.ids.value);
    crate::record_map::lemma_content_determines_map(&c1.map, &c2.map, &c1.mm, &c2.mm);
    assert(c1@.records =~= c2@.records);
    assert(c1@ =~= c2@);
}

} // verus!
