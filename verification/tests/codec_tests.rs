use energy_store::errors::StorageError;
use energy_store::record::{decode, encode, EnergyUsageRecord, MAX_RECORD_SIZE};

fn sample_record() -> EnergyUsageRecord {
    EnergyUsageRecord {
        id: 17,
        usage_kwh_bits: f64::to_bits(9.75),
        timestamp: 1_699_999_999,
        device_type: "Dishwasher".as_bytes().to_vec(),
        recommendation: Some("Moderate energy usage. Consider using energy-efficient devices.".as_bytes().to_vec()),
    }
}

#[test]
fn test_codec_round_trip() {
    let rec = sample_record();
    let bytes = encode(&rec).unwrap();
    assert!(bytes.len() <= MAX_RECORD_SIZE);
    let back = decode(&bytes).unwrap();
    assert_eq!(back, rec);
}

#[test]
fn test_codec_round_trip_no_recommendation() {
    let rec = EnergyUsageRecord {
        id: 0,
        usage_kwh_bits: 0,
        timestamp: 0,
        device_type: Vec::new(),
        recommendation: None,
    };
    let bytes = encode(&rec).unwrap();
    let back = decode(&bytes).unwrap();
    assert_eq!(back, rec);
}

#[test]
fn test_encode_rejects_oversized_record() {
    let mut rec = sample_record();
    rec.device_type = vec![b'a'; MAX_RECORD_SIZE + 1];
    assert_eq!(encode(&rec), Err(StorageError::EncodingError));
}

#[test]
fn test_decode_rejects_malformed_bytes() {
    // too short to hold the fixed fields
    assert_eq!(decode(&vec![0u8; 10]), Err(StorageError::EncodingError));
    // a valid encoding with a trailing byte is no encoding
    let mut bytes = encode(&sample_record()).unwrap();
    bytes.push(0);
    assert_eq!(decode(&bytes), Err(StorageError::EncodingError));
    // a presence flag that is neither absent nor present
    let rec = EnergyUsageRecord {
        id: 1,
        usage_kwh_bits: 2,
        timestamp: 3,
        device_type: Vec::new(),
        recommendation: None,
    };
    let mut bytes = encode(&rec).unwrap();
    let last = bytes.len() - 1;
    bytes[last] = 7;
    assert_eq!(decode(&bytes), Err(StorageError::EncodingError));
}
