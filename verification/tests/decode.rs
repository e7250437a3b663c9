use tzclock::cursor::WalkingVec;
use tzclock::error::TzError;
use tzclock::fields::read_int;
use tzclock::fields::read_uint;
use tzclock::time::Time;
use tzclock::tzif::decode_header;

/// A 44-byte header: magic, raw version marker, 15 reserved bytes, and the
/// six little-endian counts in file order.
fn header_bytes(
    version_marker: u8,
    isutcnt: u32,
    isstdcnt: u32,
    leapcnt: u32,
    timecnt: u32,
    typecnt: u32,
    charcnt: u32,
) -> Vec<u8> {
    let mut v = Vec::new();
    v.extend_from_slice(b"TZif");
    v.push(version_marker);
    v.extend_from_slice(&[0u8; 15]);
    for c in [isutcnt, isstdcnt, leapcnt, timecnt, typecnt, charcnt] {
        v.extend_from_slice(&c.to_le_bytes());
    }
    v
}

#[test]
fn header_consumes_exactly_44_bytes() {
    // Counts do not change the header size: 44 bytes are consumed before
    // the data block starts, whatever they say.
    for (timecnt, typecnt, charcnt) in [(0u32, 0u32, 0u32), (7, 3, 9), (1000, 250, 80)] {
        let mut bytes = header_bytes(0x32, 5, 6, 2, timecnt, typecnt, charcnt);
        bytes.extend_from_slice(&[0xAB; 64]);
        let total = bytes.len();
        let mut buf = WalkingVec::new(bytes);
        let h = decode_header(&mut buf).expect("header should decode");
        assert_eq!(buf.remaining(), total - 44);
        assert_eq!(h.version, 2);
        assert_eq!(h.isutcnt, 5);
        assert_eq!(h.isstdcnt, 6);
        assert_eq!(h.leapcnt, 2);
        assert_eq!(h.timecnt, timecnt);
        assert_eq!(h.typecnt, typecnt);
        assert_eq!(h.charcnt, charcnt);
    }
}

#[test]
fn minimal_version_1_round_trip() {
    // A synthetic minimal version-1 file: no transitions, one local time
    // type record (3600, 0, 0), one designation byte, and the one
    // leap-second record slot that the type count dictates.
    let mut bytes = header_bytes(0x00, 0, 0, 0, 0, 1, 1);
    bytes.extend_from_slice(&3600i32.to_le_bytes());
    bytes.push(0); // daylight flag
    bytes.push(0); // designation index
    bytes.push(0); // designation byte
    bytes.extend_from_slice(&0u32.to_le_bytes()); // leap occurrence
    bytes.extend_from_slice(&0i32.to_le_bytes()); // leap correction
    let mut buf = WalkingVec::new(bytes);
    let (h, d) = Time::read_tz_info(&mut buf).expect("file should decode");
    assert_eq!(h.version, 1);
    assert_eq!(h.typecnt, 1);
    assert_eq!(d.local_time_type_records, vec![(3600, 0, 0)]);
    assert_eq!(d.transition_times, vec![]);
    assert_eq!(d.transition_types, vec![] as Vec<u8>);
    // The designation byte is filtered against the type-count threshold,
    // which drops everything when typecnt is 1.
    assert_eq!(d.time_zone_designations, vec![] as Vec<u8>);
    assert_eq!(buf.remaining(), 0);
}

#[test]
fn missing_magic_is_rejected() {
    let mut bytes = header_bytes(0x00, 0, 0, 0, 0, 1, 0);
    bytes[0] = b'X';
    let mut buf = WalkingVec::new(bytes);
    assert_eq!(Time::read_tz_info(&mut buf), Err(TzError::BadMagic));
}

#[test]
fn unknown_version_marker_is_rejected() {
    for marker in [0x01u8, 0x31, 0x35, 0xFF] {
        let bytes = header_bytes(marker, 0, 0, 0, 0, 1, 0);
        let mut buf = WalkingVec::new(bytes);
        assert_eq!(Time::read_tz_info(&mut buf), Err(TzError::BadVersion));
    }
}

#[test]
fn leap_second_retention_gap_rule() {
    // Occurrences [0, 2419198, 2419199]: the first is kept unconditionally;
    // 2419198 is dropped (gap below 2419199); 2419199 is kept, measured
    // against the last retained occurrence, 0.
    let mut bytes = header_bytes(0x00, 0, 0, 0, 0, 3, 0);
    for _ in 0..3 {
        bytes.extend_from_slice(&0i32.to_le_bytes());
        bytes.push(0);
        bytes.push(0);
    }
    for (occ, corr) in [(0u32, 1i32), (2419198, 2), (2419199, 3)] {
        bytes.extend_from_slice(&occ.to_le_bytes());
        bytes.extend_from_slice(&corr.to_le_bytes());
    }
    let mut buf = WalkingVec::new(bytes);
    let (_, d) = Time::read_tz_info(&mut buf).expect("file should decode");
    assert_eq!(d.leap_second_records, vec![(0, 1), (2419199, 3)]);
}

#[test]
fn truncated_buffer_reports_underrun() {
    // A read wider than what remains raises BufferUnderrun instead of
    // returning zero-filled or shortened data.
    let mut buf = WalkingVec::new(vec![1, 2]);
    assert_eq!(read_uint(&mut buf, 4), Err(TzError::BufferUnderrun));
    assert_eq!(read_int(&mut buf, 8), Err(TzError::BufferUnderrun));
    // The cursor did not move, so what is there can still be read exactly.
    assert_eq!(read_uint(&mut buf, 2), Ok(0x0201));

    let mut truncated = WalkingVec::new(vec![b'T', b'Z', b'i', b'f', 0x00, 0, 0]);
    assert_eq!(
        Time::read_tz_info(&mut truncated),
        Err(TzError::BufferUnderrun)
    );
}

#[test]
fn truncated_data_block_reports_underrun() {
    // The header says one local-time-type record, but its six bytes are
    // missing.
    let bytes = header_bytes(0x00, 0, 0, 0, 0, 1, 0);
    let mut buf = WalkingVec::new(bytes);
    assert_eq!(Time::read_tz_info(&mut buf), Err(TzError::BufferUnderrun));
}

#[test]
fn little_endian_field_order() {
    let mut buf = WalkingVec::new(vec![0x01, 0x02, 0x03, 0x04]);
    assert_eq!(read_uint(&mut buf, 4), Ok(0x04030201));
    let mut negative = WalkingVec::new(vec![0xFF, 0xFF, 0xFF, 0xFF]);
    assert_eq!(read_int(&mut negative, 4), Ok(-1));
    let mut wide = WalkingVec::new(vec![0xFE, 0xFF, 0xFF, 0xFF, 0xFF, 0xFF, 0xFF, 0xFF]);
    assert_eq!(read_int(&mut wide, 8), Ok(-2));
}

#[test]
fn transition_type_and_indicator_filters() {
    // Two transition types [0, 1] against typecnt 2 keep only values below
    // 1; two standard/wall indicators [1, 7] keep only booleans.
    let mut bytes = header_bytes(0x00, 0, 2, 0, 2, 2, 0);
    bytes.extend_from_slice(&100i32.to_le_bytes()); // transition time 0
    bytes.extend_from_slice(&(-5i32).to_le_bytes()); // transition time 1
    bytes.push(0); // transition type 0: kept
    bytes.push(1); // transition type 1: dropped
    for _ in 0..2 {
        bytes.extend_from_slice(&60i32.to_le_bytes());
        bytes.push(1);
        bytes.push(0);
    }
    for (occ, corr) in [(10u32, 0i32), (20, 0)] {
        bytes.extend_from_slice(&occ.to_le_bytes());
        bytes.extend_from_slice(&corr.to_le_bytes());
    }
    bytes.push(1); // standard/wall indicator: kept
    bytes.push(7); // standard/wall indicator: dropped
    let mut buf = WalkingVec::new(bytes);
    let (_, d) = Time::read_tz_info(&mut buf).expect("file should decode");
    assert_eq!(d.transition_times, vec![100, -5]);
    assert_eq!(d.transition_types, vec![0]);
    assert_eq!(d.local_time_type_records, vec![(60, 1, 0), (60, 1, 0)]);
    assert_eq!(d.leap_second_records, vec![(10, 0)]);
    assert_eq!(d.standard_wall_indicators, vec![1]);
    assert_eq!(d.ut_local_indicators, vec![] as Vec<u8>);
    assert_eq!(buf.remaining(), 0);
}

#[test]
fn version_2_reads_second_block_as_authoritative() {
    // A version-2 file holds two header+block pairs; the first is consumed
    // and discarded, the second is the authoritative one. Each block is
    // sized by its own header's version, so both here use 8-byte times.
    let mut bytes = header_bytes(0x32, 0, 0, 0, 0, 1, 0);
    bytes.extend_from_slice(&1800i32.to_le_bytes());
    bytes.push(0);
    bytes.push(0);
    bytes.extend_from_slice(&0u64.to_le_bytes());
    bytes.extend_from_slice(&0i32.to_le_bytes());
    let first_len = bytes.len();
    bytes.extend_from_slice(&header_bytes(0x32, 0, 0, 0, 0, 1, 0));
    bytes.extend_from_slice(&7200i32.to_le_bytes());
    bytes.push(1);
    bytes.push(0);
    bytes.extend_from_slice(&0u64.to_le_bytes());
    bytes.extend_from_slice(&0i32.to_le_bytes());
    let total = bytes.len();

    let mut buf = WalkingVec::new(bytes);
    let (h1, d1) = Time::read_tz_info(&mut buf).expect("first pair should decode");
    assert_eq!(h1.version, 2);
    assert_eq!(d1.local_time_type_records, vec![(1800, 0, 0)]);
    assert_eq!(buf.remaining(), total - first_len);
    let (h2, d2) = Time::read_tz_info(&mut buf).expect("second pair should decode");
    assert_eq!(h2.version, 2);
    assert_eq!(d2.local_time_type_records, vec![(7200, 1, 0)]);
    assert_eq!(buf.remaining(), 0);
}

#[test]
fn walk_hands_out_consumed_slice() {
    let mut buf = WalkingVec::new(vec![9, 8, 7, 6, 5]);
    assert_eq!(buf.walk(2), Ok(vec![9, 8]));
    assert_eq!(buf.remaining(), 3);
    assert_eq!(buf.walk(4), Err(TzError::BufferUnderrun));
    assert_eq!(buf.remaining(), 3);
    assert_eq!(buf.walk(3), Ok(vec![7, 6, 5]));
    assert_eq!(buf.remaining(), 0);
}
