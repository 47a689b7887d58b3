use gm_save_core::format::{encode_slot_file, HEADER_SIZE};
use gm_save_core::crypto::{derive_key, encrypt_with_nonce};
use gm_save_core::save::{open_slot, read_slot_meta, seal_slot, seal_slot_with_salt};
use gm_save_core::slots::{collect_slots, slot_file_name};
use gm_save_core::{SaveError, SaveManager};
use std::collections::BTreeMap;

const NOW: u64 = 1_700_000_000;

/// A directory of slot files kept in memory: file name to contents.
struct Dir {
    files: BTreeMap<String, Vec<u8>>,
}

impl Dir {
    fn new() -> Self {
        Dir { files: BTreeMap::new() }
    }

    fn save(&mut self, m: &SaveManager, slot: u32, json: &str) {
        let bytes = m.seal(json, NOW).unwrap();
        self.files.insert(slot_file_name(slot), bytes);
    }

    fn load(&self, m: &SaveManager, slot: u32) -> Result<String, SaveError> {
        match self.files.get(&slot_file_name(slot)) {
            Some(data) => m.open(data),
            None => Err(SaveError::SlotNotFound(slot)),
        }
    }

    fn delete(&mut self, slot: u32) {
        self.files.remove(&slot_file_name(slot));
    }

    fn list_slots(&self) -> Vec<u32> {
        let names: Vec<String> = self.files.keys().cloned().collect();
        collect_slots(&names)
    }
}

fn mgr() -> SaveManager {
    SaveManager::new("/saves", "test-passphrase-XYZ")
}

#[test]
fn save_save_and_load_roundtrip() {
    let m = mgr();
    let mut d = Dir::new();
    let json = r#"{"hp":100,"level":3,"x":512.0}"#;
    d.save(&m, 1, json);
    assert_eq!(d.load(&m, 1).unwrap(), json);
}

#[test]
fn multiple_slots_are_independent() {
    let m = mgr();
    let mut d = Dir::new();
    d.save(&m, 1, r#"{"slot":1}"#);
    d.save(&m, 2, r#"{"slot":2}"#);
    d.save(&m, 3, r#"{"slot":3}"#);
    assert_eq!(d.load(&m, 1).unwrap(), r#"{"slot":1}"#);
    assert_eq!(d.load(&m, 2).unwrap(), r#"{"slot":2}"#);
    assert_eq!(d.load(&m, 3).unwrap(), r#"{"slot":3}"#);
}

#[test]
fn overwriting_slot_stores_new_data() {
    let m = mgr();
    let mut d = Dir::new();
    d.save(&m, 1, r#"{"v":1}"#);
    d.save(&m, 1, r#"{"v":2}"#);
    assert_eq!(d.load(&m, 1).unwrap(), r#"{"v":2}"#);
}

#[test]
fn list_slots_empty_directory() {
    assert_eq!(Dir::new().list_slots(), Vec::<u32>::new());
}

#[test]
fn list_slots_returns_sorted_numbers() {
    let m = mgr();
    let mut d = Dir::new();
    d.save(&m, 3, "{}");
    d.save(&m, 1, "{}");
    d.save(&m, 2, "{}");
    assert_eq!(d.list_slots(), vec![1, 2, 3]);
}

#[test]
fn list_slots_after_delete_excludes_deleted() {
    let m = mgr();
    let mut d = Dir::new();
    d.save(&m, 1, "{}");
    d.save(&m, 2, "{}");
    d.delete(1);
    assert_eq!(d.list_slots(), vec![2]);
}

#[test]
fn load_with_wrong_passphrase_fails() {
    let good = SaveManager::new("/saves", "correct-pass");
    let bad = SaveManager::new("/saves", "wrong-pass");
    let mut d = Dir::new();
    d.save(&good, 1, r#"{"secret":42}"#);
    assert!(d.load(&bad, 1).is_err());
}

#[test]
fn load_tampered_file_fails() {
    let m = mgr();
    let mut data = m.seal(r#"{"data":"hello"}"#, NOW).unwrap();
    let last = data.len() - 1;
    data[last] ^= 0xFF;
    assert!(m.open(&data).is_err());
}

#[test]
fn load_truncated_file_fails() {
    let m = mgr();
    let data = m.seal("{}", NOW).unwrap();
    assert!(m.open(&data[..HEADER_SIZE / 2]).is_err());
}

#[test]
fn slot_meta_timestamp_is_recent() {
    let m = mgr();
    let before = std::time::SystemTime::now()
        .duration_since(std::time::UNIX_EPOCH)
        .unwrap()
        .as_secs();
    let data = m.seal("{}", before).unwrap();
    let meta = read_slot_meta(1, &data).unwrap();
    assert!(meta.timestamp >= before as i64 && meta.timestamp <= before as i64);
    assert_eq!(meta.version, 1);
    assert_eq!(meta.slot, 1);
}

#[test]
fn large_json_payload_roundtrip() {
    let m = mgr();
    let json = format!(r#"{{"data":"{}"}}"#, "x".repeat(50_000));
    let data = m.seal(&json, NOW).unwrap();
    assert_eq!(m.open(&data).unwrap(), json);
}

#[test]
fn sealed_file_size_is_header_plus_text_plus_tag() {
    let m = mgr();
    let data = m.seal("abc", NOW).unwrap();
    assert_eq!(data.len(), HEADER_SIZE + 3 + 16);
    assert_eq!(&data[0..4], b"GMSV");
}

#[test]
fn same_text_sealed_twice_differs() {
    let m = mgr();
    let a = m.seal("{}", NOW).unwrap();
    let b = m.seal("{}", NOW).unwrap();
    assert_ne!(a, b);
}

#[test]
fn open_reports_version_mismatch() {
    let m = mgr();
    let mut data = m.seal("{}", NOW).unwrap();
    data[4] = 2;
    match m.open(&data) {
        Err(SaveError::VersionMismatch { expected, found }) => {
            assert_eq!(expected, 1);
            assert_eq!(found, 2);
        }
        _ => panic!("expected a version mismatch"),
    }
}

#[test]
fn open_reports_truncated_payload() {
    let m = mgr();
    let data = m.seal("{\"a\":1}", NOW).unwrap();
    match m.open(&data[..data.len() - 1]) {
        Err(SaveError::InvalidFormat(msg)) => assert_eq!(msg, "payload is truncated"),
        _ => panic!("expected a format error"),
    }
}

#[test]
fn open_reports_short_file_and_bad_magic() {
    let m = mgr();
    match m.open(b"GMSV") {
        Err(SaveError::InvalidFormat(msg)) => assert_eq!(msg, "file is too short"),
        _ => panic!("expected a format error"),
    }
    let mut data = m.seal("{}", NOW).unwrap();
    data[0] = b'g';
    match m.open(&data) {
        Err(SaveError::InvalidFormat(msg)) => assert_eq!(msg, "bad magic bytes"),
        _ => panic!("expected a format error"),
    }
}

#[test]
fn open_reports_wrong_passphrase_as_crypto_error() {
    let data = seal_slot("one", "{}", NOW).unwrap();
    match open_slot("two", &data) {
        Err(SaveError::Crypto(msg)) => assert_eq!(msg, "aead::Error"),
        _ => panic!("expected a crypto error"),
    }
}

#[test]
fn open_reports_payload_that_is_not_utf8() {
    let salt = [5u8; 16];
    let nonce = [6u8; 12];
    let key = derive_key("pw", &salt);
    let payload = encrypt_with_nonce(&key, &nonce, &[0xff, 0xfe]).unwrap();
    let data = encode_slot_file(&salt, &nonce, 0, &payload);
    match open_slot("pw", &data) {
        Err(SaveError::InvalidFormat(msg)) => assert_eq!(msg, "payload is not valid UTF-8"),
        _ => panic!("expected a format error"),
    }
}

#[test]
fn open_accepts_a_file_built_by_hand() {
    let salt = [9u8; 16];
    let nonce = [8u8; 12];
    let key = derive_key("pw", &salt);
    let payload = encrypt_with_nonce(&key, &nonce, "héllo".as_bytes()).unwrap();
    let data = encode_slot_file(&salt, &nonce, 12, &payload);
    assert_eq!(open_slot("pw", &data).unwrap(), "héllo");
}

#[test]
fn slot_meta_reads_header_only() {
    let data = encode_slot_file(&[0u8; 16], &[0u8; 12], -5, &[1, 2, 3]);
    let meta = read_slot_meta(7, &data[..HEADER_SIZE]).unwrap();
    assert_eq!(meta.slot, 7);
    assert_eq!(meta.timestamp, -5);
    assert_eq!(meta.version, 1);
    assert!(read_slot_meta(7, &data[..10]).is_err());
}

#[test]
fn manager_keeps_its_passphrase_and_dir() {
    let m = SaveManager::new("/tmp/x", String::from("secret"));
    assert_eq!(m.save_dir(), &std::path::PathBuf::from("/tmp/x"));
    let data = seal_slot("secret", "{}", NOW).unwrap();
    assert_eq!(m.open(&data).unwrap(), "{}");
    let p = SaveManager::from_parts(std::path::PathBuf::from("/tmp/y"), String::from("secret"));
    assert_eq!(p.save_dir(), &std::path::PathBuf::from("/tmp/y"));
    assert_eq!(p.open(&data).unwrap(), "{}");
}

#[test]
fn sealed_file_is_header_text_and_tag() {
    let m = mgr();
    for json in ["", "{}", "héllo wörld"] {
        let data = m.seal(json, NOW).unwrap();
        assert_eq!(data.len(), HEADER_SIZE + json.len() + 16);
        assert_eq!(u32::from_le_bytes([data[44], data[45], data[46], data[47]]) as usize, json.len() + 16);
    }
}

#[test]
fn sealing_with_a_given_salt_opens_and_keeps_the_salt() {
    let salt = [0x11u8; 16];
    let data = seal_slot_with_salt("pw", &salt, r#"{"k":1}"#, 99).unwrap();
    assert_eq!(&data[8..24], &salt[..]);
    assert_eq!(open_slot("pw", &data).unwrap(), r#"{"k":1}"#);
    assert_eq!(read_slot_meta(4, &data).unwrap().timestamp, 99);
}

#[test]
fn lib_save_and_load_roundtrip() {
    let mut state: Option<SaveManager> = None;
    gm_save_core::state::set(&mut state, SaveManager::new("/saves", "test-passphrase"));
    let json = r#"{"hp":100,"x":512}"#;
    let mut d = Dir::new();
    let m = state.as_ref().unwrap();
    d.save(m, 1, json);
    assert_eq!(d.load(m, 1).unwrap(), json);
}

#[test]
fn slot_timestamp_is_positive_after_save() {
    let now = std::time::SystemTime::now()
        .duration_since(std::time::UNIX_EPOCH)
        .unwrap()
        .as_secs();
    let data = seal_slot("test-passphrase", "{}", now).unwrap();
    let ts = read_slot_meta(1, &data).unwrap().timestamp;
    assert!(ts > 0, "timestamp should be a positive unix time");
}
