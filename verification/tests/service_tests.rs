use energy_store::errors::StorageError;
use energy_store::page_store::PageStore;
use energy_store::page_store::PAGE_SIZE;
use energy_store::service::StorageCore;

fn fresh_core() -> StorageCore {
    StorageCore::init(PageStore::new()).unwrap()
}

#[test]
fn test_add_and_get_energy_usage() {
    let mut core = fresh_core();
    let record = core
        .add(f64::to_bits(12.0), "Air Conditioner".as_bytes().to_vec(), 1_700_000_000)
        .unwrap();
    assert_eq!(record.usage_kwh_bits, f64::to_bits(12.0));
    assert!(core.get(record.id).is_ok());
}

#[test]
fn test_delete_energy_usage() {
    let mut core = fresh_core();
    let record = core
        .add(f64::to_bits(5.0), "Laptop".as_bytes().to_vec(), 1_700_000_000)
        .unwrap();
    assert!(core.delete(record.id).is_ok());
    assert!(core.get(record.id).is_err());
}

#[test]
fn test_monotonic_ids() {
    let mut core = fresh_core();
    let mut ids = Vec::new();
    for i in 0..5u64 {
        let rec = core
            .add(f64::to_bits(1.5), "Heater".as_bytes().to_vec(), i)
            .unwrap();
        ids.push(rec.id);
    }
    for w in ids.windows(2) {
        assert!(w[0] < w[1]);
    }
    assert_eq!(ids, vec![0, 1, 2, 3, 4]);
}

#[test]
fn test_lookup_after_add() {
    let mut core = fresh_core();
    let rec = core
        .add(f64::to_bits(7.25), "Washing Machine".as_bytes().to_vec(), 42)
        .unwrap();
    let fetched = core.get(rec.id).unwrap();
    assert_eq!(fetched, rec);
}

#[test]
fn test_delete_then_get_not_found() {
    let mut core = fresh_core();
    let rec = core
        .add(f64::to_bits(3.0), "Lamp".as_bytes().to_vec(), 7)
        .unwrap();
    let removed = core.delete(rec.id).unwrap();
    assert_eq!(removed, rec);
    assert_eq!(core.get(rec.id), Err(StorageError::NotFound));
    assert_eq!(core.delete(rec.id), Err(StorageError::NotFound));
}

#[test]
fn test_recommendation_thresholds() {
    let mut core = fresh_core();
    let moderate = "Moderate energy usage. Consider using energy-efficient devices.";
    let high = "High energy usage detected. Consider reducing the number of devices or optimizing usage.";
    let low = "Low energy usage. Keep up the good work!";

    let r = core.add(f64::to_bits(10.0), "A".as_bytes().to_vec(), 1).unwrap();
    assert_eq!(r.recommendation, Some(moderate.as_bytes().to_vec()));

    let r = core.add(f64::to_bits(10.01), "B".as_bytes().to_vec(), 2).unwrap();
    assert_eq!(r.recommendation, Some(high.as_bytes().to_vec()));

    let r = core.add(f64::to_bits(5.0), "C".as_bytes().to_vec(), 3).unwrap();
    assert_eq!(r.recommendation, Some(low.as_bytes().to_vec()));

    let r = core.add(f64::to_bits(5.01), "D".as_bytes().to_vec(), 4).unwrap();
    assert_eq!(r.recommendation, Some(moderate.as_bytes().to_vec()));
}

#[test]
fn test_end_to_end_scenario() {
    let mut core = fresh_core();
    let rec = core
        .add(f64::to_bits(12.0), "Air Conditioner".as_bytes().to_vec(), 9)
        .unwrap();
    assert_eq!(rec.usage_kwh_bits, f64::to_bits(12.0));
    assert_eq!(rec.device_type, "Air Conditioner".as_bytes().to_vec());
    let text = String::from_utf8(rec.recommendation.clone().unwrap()).unwrap();
    assert!(text.contains("High energy usage"));
    let fetched = core.get(rec.id).unwrap();
    assert_eq!(fetched, rec);
    let removed = core.delete(rec.id).unwrap();
    assert_eq!(removed, rec);
    assert_eq!(core.get(rec.id), Err(StorageError::NotFound));
}

#[test]
fn test_invalid_input_rejected() {
    let mut core = fresh_core();
    assert_eq!(
        core.add(f64::to_bits(-1.0), "Fan".as_bytes().to_vec(), 1),
        Err(StorageError::InvalidInput)
    );
    assert_eq!(
        core.add(f64::to_bits(f64::NAN), "Fan".as_bytes().to_vec(), 1),
        Err(StorageError::InvalidInput)
    );
    // rejected before any mutation: the next id issued is still zero
    let rec = core.add(f64::to_bits(1.0), "Fan".as_bytes().to_vec(), 1).unwrap();
    assert_eq!(rec.id, 0);
}

#[test]
fn test_encoding_error_skips_id() {
    let mut core = fresh_core();
    let huge = vec![b'x'; 2000];
    assert_eq!(
        core.add(f64::to_bits(2.0), huge, 1),
        Err(StorageError::EncodingError)
    );
    // the failed attempt happened after the counter advanced: id zero is skipped
    let rec = core.add(f64::to_bits(2.0), "Oven".as_bytes().to_vec(), 2).unwrap();
    assert_eq!(rec.id, 1);
    assert_eq!(core.get(0), Err(StorageError::NotFound));
}

#[test]
fn test_restart_recovers_state() {
    let mut core = fresh_core();
    let a = core.add(f64::to_bits(12.0), "Dryer".as_bytes().to_vec(), 1).unwrap();
    let b = core.add(f64::to_bits(4.0), "Router".as_bytes().to_vec(), 2).unwrap();
    let c = core.add(f64::to_bits(8.0), "Console".as_bytes().to_vec(), 3).unwrap();
    core.delete(b.id).unwrap();

    // full process teardown: only the physical region survives
    let region = core.into_store();
    let mut revived = StorageCore::init(region).unwrap();

    assert_eq!(revived.get(a.id).unwrap(), a);
    assert_eq!(revived.get(b.id), Err(StorageError::NotFound));
    assert_eq!(revived.get(c.id).unwrap(), c);

    // the counter survived too: no id is ever reused
    let d = revived.add(f64::to_bits(6.0), "Toaster".as_bytes().to_vec(), 4).unwrap();
    assert_eq!(d.id, 3);
}

#[test]
fn test_init_rejects_corrupt_region() {
    let mut store = PageStore::new();
    store.grow(1).unwrap();
    // a non-empty region without the manager's magic is malformed
    assert_eq!(store.len(), PAGE_SIZE);
    assert_eq!(
        StorageCore::init(store).err(),
        Some(StorageError::StorageCorrupt)
    );
}
