use udb_lab::hex::{hex_decode, hex_encode, HexError};
use udb_lab::spi::append_buffer::{AppendBuffer, APPEND_CAPACITY};
use udb_lab::spi::bytes::checksum;
use udb_lab::spi::cache::Cache;
use udb_lab::spi::keymap::KeyMap;
use udb_lab::spi::names::{arena_id, arena_name};
use udb_lab::workload::{forced_mutation, key, value, Workload};

#[test]
fn failed_flush_does_not_advance_or_discard_pending_bytes() {
    let mut buffer = AppendBuffer::new(8, true);
    buffer.extend(b"node");
    assert!(buffer.flush(|_, _| Err::<(), _>("partial write")).is_err());
    assert_eq!(buffer.pending(8), Some(&b"node"[..]));
    buffer
        .flush(|at, bytes| {
            assert_eq!(at, 8);
            assert_eq!(bytes, b"node");
            Ok::<(), ()>(())
        })
        .unwrap();
    assert_eq!(buffer.remaining(), APPEND_CAPACITY);
    assert_eq!(buffer.pending(12), None);
}

#[test]
fn empty_flush_does_not_emit_io() {
    let mut buffer = AppendBuffer::new(8, false);
    assert_eq!(buffer.remaining(), 0);
    buffer
        .flush(|_, _| -> Result<(), ()> { panic!("unexpected I/O") })
        .unwrap();
    buffer.advance_direct(100_000);
    assert_eq!(buffer.start(), 100_000);
}

#[test]
fn pending_records_exclude_the_logical_end() {
    let mut buffer = AppendBuffer::new(8, true);
    buffer.extend(&vec![17; APPEND_CAPACITY]);
    assert_eq!(buffer.remaining(), 0);
    assert_eq!(buffer.pending(7), None);
    assert_eq!(buffer.pending(8 + APPEND_CAPACITY as u64), None);
    assert_eq!(
        buffer.pending(8 + APPEND_CAPACITY as u64 - 1),
        Some(&[17][..])
    );
}

#[test]
fn single_commit_stream_changes_even_repeated_keys() {
    let key = vec![0, 255];
    let mut expected = KeyMap::new();
    expected.insert(key.clone(), vec![37]);
    for _ in 0..100 {
        let next = forced_mutation(&key, &expected);
        assert_ne!(&next.value, expected.get(&key).unwrap());
        expected.insert(next.key, next.value);
    }
}

#[test]
fn checksums_are_those_of_the_common_polynomial() {
    assert_eq!(checksum(&[b"123456789"]), 0xcbf4_3926);
    assert_eq!(checksum(&[b"1234", b"56789"]), 0xcbf4_3926);
    assert_eq!(checksum(&[]), 0);
}

#[test]
fn text_and_bytes() {
    assert_eq!(hex_encode(&[0, 255, 16]), b"00ff10".to_vec());
    assert_eq!(hex_decode(b"00fF10"), Ok(vec![0, 255, 16]));
    assert_eq!(hex_decode(b"0"), Err(HexError::OddLength));
    assert_eq!(hex_decode(b"0g"), Err(HexError::Digit(b'g')));
    for byte in 0..=255u8 {
        assert_eq!(hex_decode(&hex_encode(&[byte])), Ok(vec![byte]));
    }
}

#[test]
fn a_workload_knows_what_it_wrote() {
    let mut w = Workload::new(100, 1, 64);
    let k = w.next_request();
    let found = w.expected.get(&k).cloned();
    assert!(w.check_point(&k, &found));
    assert!(!w.check_point(&k, &None));
    let update = w.next_update();
    let (at, now) = (update.key.clone(), update.value.clone());
    w.note(&update);
    assert!(w.check_point(&at, &Some(now)));
    assert_eq!(key(5).len(), value(5, 1, 8).len());
    assert_ne!(value(5, 1, 8), value(6, 1, 8));
}

#[test]
fn arena_names_are_read_back() {
    assert_eq!(arena_name(0), b"arena-0.spi".to_vec());
    assert_eq!(arena_name(1907), b"arena-1907.spi".to_vec());
    assert_eq!(
        arena_name(u64::MAX),
        b"arena-18446744073709551615.spi".to_vec()
    );
    for id in [0, 9, 10, 99, 100, 12345, u64::MAX] {
        assert_eq!(arena_id(&arena_name(id)), Some(id));
    }
}

#[test]
fn other_names_are_no_arenas() {
    assert_eq!(arena_id(b"arena-007.spi"), Some(7));
    assert_eq!(arena_id(b"arena-+7.spi"), Some(7));
    for name in [
        "arena-.spi",
        "arena-+.spi",
        "arena--1.spi",
        "arena-1x.spi",
        "arena-1.sp",
        "rena-1.spi",
        "manifest.spi",
        "",
        "arena-18446744073709551616.spi",
        "arena-99999999999999999999999.spi",
    ] {
        assert_eq!(arena_id(name.as_bytes()), None, "{name}");
    }
}

#[test]
fn a_cache_admits_by_what_is_allocated() {
    let mut c = Cache::new(3200, true);
    assert!(c.can_admit_value(208, 10));
    assert!(!c.can_admit_value(209, 10));
    assert!(!c.can_admit_value(usize::MAX, 10));
    assert!(!Cache::new(1 << 20, true).can_admit_value(4097, 4097));
    assert!(!Cache::new(3200, false).can_admit_value(10, 10));
    c.insert_allocated(8, vec![1; 10], 209);
    assert_eq!(c.value(8), None);
    c.insert_allocated(8, vec![1; 10], 208);
    assert_eq!(c.value(8), Some(vec![1; 10]));
    assert_eq!(c.bytes, 400);
    for at in 1..=8u64 {
        c.insert_allocated(100 * at, vec![2; 5], 208);
    }
    assert_eq!(c.value(8), None);
    assert_eq!(c.value(100), Some(vec![2; 5]));
    assert_eq!(c.bytes, 3200);
    let mut v = Vec::with_capacity(150);
    v.push(3u8);
    let room = v.capacity();
    c.clear();
    c.insert_value(8, v);
    assert_eq!(c.bytes, room + 192);
}
