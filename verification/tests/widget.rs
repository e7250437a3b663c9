use tzclock::time::Time;

/// The header and data of a well-formed minimal version-1 file.
fn minimal_v1_file() -> Vec<u8> {
    let mut bytes = Vec::new();
    bytes.extend_from_slice(b"TZif");
    bytes.push(0x00);
    bytes.extend_from_slice(&[0u8; 15]);
    for c in [0u32, 0, 0, 0, 1, 0] {
        bytes.extend_from_slice(&c.to_le_bytes());
    }
    bytes.extend_from_slice(&3600i32.to_le_bytes());
    bytes.push(0);
    bytes.push(0);
    bytes.extend_from_slice(&0u32.to_le_bytes());
    bytes.extend_from_slice(&0i32.to_le_bytes());
    bytes
}

#[test]
fn construction_sets_fixed_fields() {
    let t = Time::new(minimal_v1_file());
    assert_eq!(t.name(), "time");
    assert_eq!(t.full_text(), "");
    assert_eq!(t.color(), "#FFFFFF");
    // The offset is the fixed fallback, independent of the parsed records.
    assert_eq!(t.tz_offset(), 0);
}

#[test]
fn malformed_file_degrades_to_fallback_offset() {
    let t = Time::new(vec![0, 1, 2, 3]);
    assert_eq!(t.tz_offset(), 0);
    let empty = Time::new(Vec::new());
    assert_eq!(empty.tz_offset(), 0);
}

#[test]
fn update_recomputes_display_text() {
    let mut t = Time::new(minimal_v1_file());
    t.update(59);
    assert_eq!(t.full_text(), "01.01.1970 00:00:59");
    t.update(86400 * 365 * 2 + 86400 / 2);
    assert_eq!(t.full_text(), "01.01.1972 12:00:00");
    assert_eq!(t.name(), "time");
    assert_eq!(t.tz_offset(), 0);
}
