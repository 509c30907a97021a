use ubootenv::codec::{decode, encode, parse_env_text, parse_payload, serialize, DecodeError, EncodeError};
use ubootenv::config::{parse_config, parse_hex, ConfigError};
use ubootenv::engine::{EngineState, EnvError, IoError, UBootContext, VarAttr};
use ubootenv::redundancy::{next_flag, select_copy, StoreError};
use ubootenv::table::VarTable;

fn table(pairs: &[(&str, &str)]) -> VarTable {
    let mut t = VarTable::new();
    for (n, v) in pairs {
        t.set(n.as_bytes(), v.as_bytes());
    }
    t
}

fn opened(cfg: &str, reads: Vec<Result<Vec<u8>, IoError>>) -> UBootContext {
    let mut e = UBootContext::initialize();
    e.read_config(cfg.as_bytes()).unwrap();
    e.open(&reads).unwrap();
    e
}

fn get(e: &UBootContext, name: &str) -> Option<String> {
    e.get_env(name.as_bytes()).unwrap().map(|v| String::from_utf8(v).unwrap())
}

#[test]
fn round_trip_keeps_order() {
    let t = table(&[("bootdelay", "2"), ("baudrate", "115200"), ("empty", "")]);
    let b = encode(&t, 64, true, 7).unwrap();
    assert_eq!(b.len(), 64);
    let (f, back) = decode(&b, true).unwrap();
    assert_eq!(f, 7);
    assert_eq!(back.entries, t.entries);
    let b = encode(&t, 64, false, 7).unwrap();
    let (f, back) = decode(&b, false).unwrap();
    assert_eq!(f, 0);
    assert_eq!(back.entries, t.entries);
}

#[test]
fn blob_layout() {
    let t = table(&[("a", "b")]);
    let b = encode(&t, 12, true, 1).unwrap();
    let payload = [b'a', b'=', b'b', 0, 0, 0, 0];
    let crc = crc32fast::hash(&payload);
    assert_eq!(&b[0..4], &crc.to_le_bytes());
    assert_eq!(b[4], 1);
    assert_eq!(&b[5..], &payload);
}

#[test]
fn flipped_bit_is_checksum_mismatch() {
    let t = table(&[("bootcmd", "run distro_bootcmd"), ("x", "y")]);
    let b = encode(&t, 128, false, 0).unwrap();
    for byte in 4..b.len() {
        for bit in 0..8 {
            let mut c = b.clone();
            c[byte] ^= 1 << bit;
            assert_eq!(decode(&c, false).unwrap_err(), DecodeError::ChecksumMismatch);
        }
    }
}

#[test]
fn capacity_boundary() {
    // "ab=cd\0" is 6 bytes, the terminator 1 more.
    let t = table(&[("ab", "cd")]);
    assert!(encode(&t, 4 + 7, false, 0).is_ok());
    assert_eq!(encode(&t, 4 + 6, false, 0).unwrap_err(), EncodeError::Overflow);
    assert!(encode(&t, 5 + 7, true, 0).is_ok());
    assert_eq!(encode(&t, 5 + 6, true, 0).unwrap_err(), EncodeError::Overflow);
    assert_eq!(serialize(&VarTable::new(), 0).unwrap_err(), EncodeError::Overflow);
    assert_eq!(serialize(&VarTable::new(), 1).unwrap(), vec![0u8]);
    assert_eq!(encode(&t, 3, false, 0).unwrap_err(), EncodeError::Overflow);
}

#[test]
fn payload_parsing() {
    let t = parse_payload(b"a=1\0b=x=y\0\0junk").unwrap();
    assert_eq!(t.entries, vec![(b"a".to_vec(), b"1".to_vec()), (b"b".to_vec(), b"x=y".to_vec())]);
    assert_eq!(parse_payload(b"novalue\0\0").unwrap_err(), DecodeError::InvalidEntry);
    assert_eq!(parse_payload(b"=v\0\0").unwrap_err(), DecodeError::InvalidEntry);
    let t = parse_payload(b"a=1\0a=2\0\0").unwrap();
    assert_eq!(t.entries, vec![(b"a".to_vec(), b"2".to_vec())]);
    assert_eq!(parse_payload(b"").unwrap().entries.len(), 0);
    assert_eq!(decode(b"abc", false).unwrap_err(), DecodeError::Truncated);
    assert_eq!(decode(b"abcd", true).unwrap_err(), DecodeError::Truncated);
}

#[test]
fn text_file_parsing() {
    let t = parse_env_text(b"a=1\n\nb=2\0c=\n").unwrap();
    assert_eq!(t.entries.len(), 3);
    assert_eq!(t.entries[2], (b"c".to_vec(), Vec::new()));
    assert_eq!(parse_env_text(b"a=1\nbad\n").unwrap_err(), DecodeError::InvalidEntry);
}

#[test]
fn hex_numbers() {
    assert_eq!(parse_hex(b"0x4000"), Some(0x4000));
    assert_eq!(parse_hex(b"4000"), Some(0x4000));
    assert_eq!(parse_hex(b"0XfF"), Some(255));
    assert_eq!(parse_hex(b"ffffffffffffffff"), Some(u64::MAX));
    assert_eq!(parse_hex(b"10000000000000000"), None);
    assert_eq!(parse_hex(b"0x"), None);
    assert_eq!(parse_hex(b"12g"), None);
    assert_eq!(parse_hex(b""), None);
}

#[test]
fn config_parsing() {
    let c = parse_config(b"# comment\n\n/dev/mtd1 0x0 0x4000 0x10000\n/dev/mtd2 0x0 0x4000 0x10000 1\n").unwrap();
    assert_eq!(c.devices.len(), 2);
    assert_eq!(c.devices[0].path, b"/dev/mtd1".to_vec());
    assert_eq!(c.devices[1].offset, 0);
    assert_eq!(c.devices[1].env_size, 0x4000);
    assert_eq!(c.devices[1].erase_size, Some(0x10000));
    assert_eq!(c.devices[1].sectors, Some(1));
    assert_eq!(c.devices[0].sectors, None);
    assert_eq!(parse_config(b"/dev/mtd1 0x0\n").unwrap_err(), ConfigError::Malformed);
    assert_eq!(parse_config(b"/dev/mtd1 0x0 0xzz\n").unwrap_err(), ConfigError::Malformed);
    assert_eq!(parse_config(b"# nothing\n").unwrap_err(), ConfigError::Malformed);
    assert_eq!(
        parse_config(b"/dev/a 0 4000\n/dev/b 0 2000\n").unwrap_err(),
        ConfigError::SizeMismatch
    );
    assert_eq!(
        parse_config(b"/dev/a 0 10\n/dev/b 0 10\n/dev/c 0 10\n").unwrap_err(),
        ConfigError::Malformed
    );
}

#[test]
fn selection_rule() {
    assert_eq!(select_copy(Some(1), Some(0)), Ok(0));
    assert_eq!(select_copy(Some(1), Some(2)), Ok(1));
    assert_eq!(select_copy(Some(0), Some(255)), Ok(0));
    assert_eq!(select_copy(Some(255), Some(0)), Ok(1));
    assert_eq!(select_copy(None, Some(3)), Ok(1));
    assert_eq!(select_copy(Some(3), None), Ok(0));
    assert_eq!(select_copy(Some(3), Some(3)), Err(StoreError::AmbiguousCopies));
    assert_eq!(select_copy(None, None), Err(StoreError::NoValidEnvironment));
    assert_eq!(next_flag(255), 0);
    assert_eq!(next_flag(4), 5);
}

#[test]
fn single_region_scenario() {
    let cfg = "/dev/mtd0 0x0 0x4000\n";
    let mut e = UBootContext::initialize();
    e.read_config(cfg.as_bytes()).unwrap();
    let empty = encode(&VarTable::new(), 0x4000, false, 0).unwrap();
    e.open(&vec![Ok(empty)]).unwrap();
    e.set_env(b"bootdelay", b"2").unwrap();
    e.set_env(b"baudrate", b"115200").unwrap();
    let req = e.env_store().unwrap();
    assert_eq!(req.device, 0);
    assert_eq!(req.blob.len(), 16384);
    e.finish_store(Ok(())).unwrap();
    e.close();
    let fresh = opened(cfg, vec![Ok(req.blob)]);
    assert_eq!(get(&fresh, "bootdelay"), Some("2".to_string()));
    assert_eq!(get(&fresh, "baudrate"), Some("115200".to_string()));
    assert_eq!(get(&fresh, "undefined_var"), None);
}

#[test]
fn read_only_attribute() {
    let attrs = vec![
        VarAttr { name: b"readonly_var".to_vec(), read_only: true, max_len: None },
        VarAttr { name: b"short".to_vec(), read_only: false, max_len: Some(3) },
    ];
    let mut e = UBootContext::initialize_with_attributes(attrs);
    e.read_config(b"/dev/mtd0 0 100\n").unwrap();
    let blob = encode(&table(&[("readonly_var", "orig")]), 0x100, false, 0).unwrap();
    e.open(&vec![Ok(blob)]).unwrap();
    assert_eq!(e.set_env(b"readonly_var", b"x"), Err(EnvError::Store(StoreError::ReadOnly)));
    assert_eq!(get(&e, "readonly_var"), Some("orig".to_string()));
    assert_eq!(e.set_env(b"short", b"abcd"), Err(EnvError::Store(StoreError::ValueTooLong)));
    assert!(e.set_env(b"short", b"abc").is_ok());
    assert_eq!(e.set_env(b"", b"x"), Err(EnvError::Store(StoreError::InvalidName)));
    assert_eq!(e.set_env(b"a=b", b"x"), Err(EnvError::Store(StoreError::InvalidName)));
    assert_eq!(e.set_env(b"a", b"x\0"), Err(EnvError::Store(StoreError::InvalidValue)));
}

const REDUNDANT: &str = "/dev/mtd1 0x0 0x100\n/dev/mtd2 0x0 0x100\n";

#[test]
fn redundant_store_selects_new_copy() {
    let old0 = encode(&table(&[("v", "old")]), 0x100, true, 3).unwrap();
    let stale1 = encode(&table(&[("v", "older")]), 0x100, true, 2).unwrap();
    let mut e = opened(REDUNDANT, vec![Ok(old0.clone()), Ok(stale1)]);
    assert_eq!(get(&e, "v"), Some("old".to_string()));
    e.set_env(b"v", b"new").unwrap();
    let req = e.env_store().unwrap();
    assert_eq!(req.device, 1);
    assert_eq!(req.blob[4], 4);
    e.finish_store(Ok(())).unwrap();
    let fresh = opened(REDUNDANT, vec![Ok(old0), Ok(req.blob)]);
    assert_eq!(get(&fresh, "v"), Some("new".to_string()));
}

#[test]
fn redundant_failed_write_keeps_active_copy() {
    let active = encode(&table(&[("v", "kept")]), 0x100, true, 9).unwrap();
    let stale = encode(&table(&[("v", "stale")]), 0x100, true, 8).unwrap();
    let mut e = opened(REDUNDANT, vec![Ok(stale.clone()), Ok(active.clone())]);
    e.set_env(b"v", b"lost").unwrap();
    let req = e.env_store().unwrap();
    assert_eq!(req.device, 0);
    assert_eq!(e.finish_store(Err(IoError::WriteFailed)), Err(EnvError::Io(IoError::WriteFailed)));
    // half of the new blob made it to the device
    let mut torn = req.blob.clone();
    for b in torn.iter_mut().skip(0x80) {
        *b = 0xff;
    }
    let fresh = opened(REDUNDANT, vec![Ok(torn), Ok(active.clone())]);
    assert_eq!(get(&fresh, "v"), Some("kept".to_string()));
    let fresh = opened(REDUNDANT, vec![Ok(stale), Ok(active)]);
    assert_eq!(get(&fresh, "v"), Some("kept".to_string()));
}

#[test]
fn lifecycle_errors() {
    let mut e = UBootContext::initialize();
    assert_eq!(e.state(), EngineState::Uninitialized);
    assert_eq!(e.get_env(b"x"), Err(EnvError::Store(StoreError::NotOpen)));
    assert_eq!(e.set_env(b"x", b"1"), Err(EnvError::Store(StoreError::NotOpen)));
    assert_eq!(e.env_store().unwrap_err(), EnvError::Store(StoreError::NotOpen));
    assert_eq!(e.open(&vec![]), Err(EnvError::Store(StoreError::NotConfigured)));
    assert_eq!(e.read_config(b"bad\n"), Err(EnvError::Config(ConfigError::Malformed)));
    assert_eq!(e.state(), EngineState::Uninitialized);
    e.read_config(REDUNDANT.as_bytes()).unwrap();
    assert_eq!(e.state(), EngineState::ConfigLoaded);
    assert_eq!(e.open(&vec![Ok(vec![0; 0x100])]), Err(EnvError::Io(IoError::DeviceUnavailable)));
    assert_eq!(
        e.open(&vec![Ok(vec![0; 0x100]), Err(IoError::DeviceUnavailable)]),
        Err(EnvError::Io(IoError::DeviceUnavailable))
    );
    assert_eq!(e.open(&vec![Ok(vec![0; 0x10]), Ok(vec![0; 0x100])]), Err(EnvError::Io(IoError::ShortRead)));
    assert_eq!(
        e.open(&vec![Ok(vec![0; 0x100]), Ok(vec![0; 0x100])]),
        Err(EnvError::Store(StoreError::NoValidEnvironment))
    );
    let same = encode(&VarTable::new(), 0x100, true, 1).unwrap();
    assert_eq!(
        e.open(&vec![Ok(same.clone()), Ok(same)]),
        Err(EnvError::Store(StoreError::AmbiguousCopies))
    );
    assert_eq!(e.finish_store(Ok(())), Err(EnvError::Store(StoreError::NoPendingStore)));
    e.load_file(b"a=1\n").unwrap();
    assert_eq!(e.state(), EngineState::Opened);
    assert_eq!(get(&e, "a"), Some("1".to_string()));
    e.set_env(b"big", &[b'x'; 0x200]).unwrap();
    assert_eq!(e.env_store().unwrap_err(), EnvError::Encode(EncodeError::Overflow));
    e.close();
    e.close();
    assert_eq!(e.state(), EngineState::Closed);
    assert_eq!(e.get_env(b"a"), Err(EnvError::Store(StoreError::NotOpen)));
}
