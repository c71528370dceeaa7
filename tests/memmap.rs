use mb1_memmap::{push_entry, raw, read_one, Mb1MmapIter, MmapError, RawEntry};

const MIN_PAYLOAD: u32 = 20;

/// Writes one record with an arbitrary declared size, even an invalid one.
fn push_mb1_entry(buf: &mut Vec<u8>, payload_size: u32, start: u64, len: u64, kind: u32) {
    buf.extend_from_slice(&payload_size.to_le_bytes());
    buf.extend_from_slice(&start.to_le_bytes());
    buf.extend_from_slice(&len.to_le_bytes());
    buf.extend_from_slice(&kind.to_le_bytes());

    let extra = payload_size.saturating_sub(MIN_PAYLOAD) as usize;
    if extra > 0 {
        buf.extend_from_slice(&vec![0xEE; extra]);
    }
}

fn truncate_end(buf: &mut Vec<u8>, n: usize) {
    let new_len = buf.len().saturating_sub(n);
    buf.truncate(new_len);
}

#[test]
fn raw_builder_minimal() {
    let e = raw(0x1000, 0x9000, 1);
    assert_eq!(e.size, 20);
    assert_eq!(e.base_addr, 0x1000);
    assert_eq!(e.length, 0x9000);
    assert_eq!(e.typ, 1);
}

#[test]
fn push_entry_appends_24_for_minimal() {
    let mut buf = Vec::new();
    push_entry(&mut buf, raw(0x1000, 0x9000, 1));
    assert_eq!(buf.len(), 24);
}

#[test]
fn push_entry_writes_expected_wire_format_for_minimal() {
    let mut buf = Vec::new();
    let e = RawEntry {
        size: 20,
        base_addr: 0x1122334455667788,
        length: 0x0102030405060708,
        typ: 0xAABBCCDD,
    };
    push_entry(&mut buf, e);

    assert_eq!(buf[0..4], 20u32.to_le_bytes());
    assert_eq!(buf[4..12], 0x1122334455667788u64.to_le_bytes());
    assert_eq!(buf[12..20], 0x0102030405060708u64.to_le_bytes());
    assert_eq!(buf[20..24], 0xAABBCCDDu32.to_le_bytes());
}

#[test]
fn push_entry_with_extra_payload_appends_extra_bytes() {
    let mut buf = Vec::new();
    let e = RawEntry {
        size: 28,
        base_addr: 0x1000,
        length: 0x2000,
        typ: 1,
    };
    push_entry(&mut buf, e);

    assert_eq!(buf.len(), (4 + 28) as usize);
    assert_eq!(&buf[24..32], &[0xEE; 8]);
}

#[test]
fn read_one_rejects_truncated_header() {
    let buf = vec![0xAA, 0xBB, 0xCC];
    let err = read_one(&buf).unwrap_err();
    assert_eq!(err, MmapError::TruncatedHeader { have: 3 });
}

#[test]
fn read_one_rejects_size_less_than_20() {
    let mut buf = Vec::new();
    push_mb1_entry(&mut buf, 19, 0x1000, 0x1000, 1);
    let err = read_one(&buf).unwrap_err();
    assert_eq!(err, MmapError::SizeTooSmall { size: 19 });
}

#[test]
fn read_one_rejects_truncated_entry() {
    let mut buf = Vec::new();
    push_mb1_entry(&mut buf, 20, 0x1000, 0x1000, 1);
    truncate_end(&mut buf, 1);

    let err = read_one(&buf).unwrap_err();
    assert_eq!(
        err,
        MmapError::TruncatedEntry {
            needed: 24,
            have: 23
        }
    );
}

#[test]
fn read_one_parses_minimal_ok() {
    let mut buf = Vec::new();
    push_mb1_entry(&mut buf, 20, 0x1000, 0x9000, 1);

    let (e, consumed) = read_one(&buf).unwrap();
    assert_eq!(consumed, 24);
    assert_eq!(e.size, 20);
    assert_eq!(e.base_addr, 0x1000);
    assert_eq!(e.length, 0x9000);
    assert_eq!(e.typ, 1);
}

#[test]
fn read_one_parses_and_skips_extra_payload() {
    let mut buf = Vec::new();
    push_mb1_entry(&mut buf, 28, 0x1000, 0x1111, 2);

    let (e, consumed) = read_one(&buf).unwrap();
    assert_eq!(consumed, (4 + 28) as usize);
    assert_eq!(e.size, 28);
    assert_eq!(e.base_addr, 0x1000);
    assert_eq!(e.length, 0x1111);
    assert_eq!(e.typ, 2);
}

#[test]
fn iter_parses_single_entry_and_ends() {
    let mut buf = Vec::new();
    push_mb1_entry(&mut buf, 20, 0x1000, 0x9000, 1);

    let mut it = Mb1MmapIter::new(&buf);
    let e = it.next().expect("one item").expect("ok");

    assert_eq!(e.base_addr, 0x1000);
    assert!(it.next().is_none());
}

#[test]
fn iter_parses_multiple_entries_in_order() {
    let mut buf = Vec::new();
    push_mb1_entry(&mut buf, 20, 0x1000, 0x1000, 1);
    push_mb1_entry(&mut buf, 28, 0x3000, 0x2000, 2);
    push_mb1_entry(&mut buf, 20, 0x9000, 0x1000, 1);

    let mut starts: Vec<u64> = Vec::new();
    let mut it = Mb1MmapIter::new(&buf);
    while let Some(r) = it.next() {
        starts.push(r.unwrap().base_addr);
    }

    assert_eq!(starts, vec![0x1000, 0x3000, 0x9000]);
}

#[test]
fn iter_size_zero_does_not_infinite_loop() {
    let mut buf = Vec::new();
    buf.extend_from_slice(&0u32.to_le_bytes());
    buf.extend_from_slice(&[0xAA; 64]);

    let mut it = Mb1MmapIter::new(&buf);
    let first = it.next().expect("must return something");
    assert!(first.is_err(), "size=0 should error");
    assert!(it.next().is_none());
}

#[test]
fn iter_truncated_entry_yields_error_once_then_stops() {
    let mut buf = Vec::new();
    push_mb1_entry(&mut buf, 20, 0x1000, 0x1000, 1);
    truncate_end(&mut buf, 5);

    let mut it = Mb1MmapIter::new(&buf);
    assert!(it.next().unwrap().is_err());
    assert!(it.next().is_none(), "must not repeat same error forever");
}
