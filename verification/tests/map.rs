//! Apple Partition Map reader tests.

use apm_partition_forensic as apm;

const BS: usize = 512;

/// The head of an `hdiutil create -layout SPUD` image: block size 512, a
/// 16384-block device, `Apple_partition_map` (blocks 1..=63) and `Apple_HFS`
/// "disk image" (blocks 64..=16383).
fn real_map() -> Vec<u8> {
    let mut d = vec![0u8; 2048];
    d[0..2].copy_from_slice(b"ER");
    d[2..4].copy_from_slice(&512u16.to_be_bytes());
    d[4..8].copy_from_slice(&16384u32.to_be_bytes());
    let entries: [(&[u8], &[u8], u32, u32); 2] = [
        (b"Apple", b"Apple_partition_map", 1, 63),
        (b"disk image", b"Apple_HFS", 64, 16320),
    ];
    for (i, (name, ty, start, count)) in entries.iter().enumerate() {
        let off = BS * (1 + i);
        d[off..off + 2].copy_from_slice(b"PM");
        d[off + 4..off + 8].copy_from_slice(&2u32.to_be_bytes());
        d[off + 8..off + 12].copy_from_slice(&start.to_be_bytes());
        d[off + 12..off + 16].copy_from_slice(&count.to_be_bytes());
        d[off + 16..off + 16 + name.len()].copy_from_slice(name);
        d[off + 48..off + 48 + ty.len()].copy_from_slice(ty);
    }
    d
}

#[test]
fn parses_real_apple_partition_map() {
    let map = apm::parse(&real_map()).expect("parse real APM");
    assert_eq!(map.block_size, 512);
    assert_eq!(map.partitions.len(), 2);
    assert_eq!(map.partitions[0].part_type, "Apple_partition_map");
    assert_eq!(map.partitions[1].part_type, "Apple_HFS");
    assert_eq!(map.partitions[1].name, "disk image");
    assert_eq!(map.partitions[1].start_block, 64);
}

#[test]
fn finds_hfs_partition() {
    let map = apm::parse(&real_map()).unwrap();
    assert_eq!(map.hfs_partition().expect("Apple_HFS").start_block, 64);
}

#[test]
fn non_apm_is_none() {
    assert!(apm::parse(&[0u8; 2048]).is_none());
    assert!(apm::parse(&[0u8; 8]).is_none());
}

/// A minimal DDM header (`ER` + block size + device block count) at block 0.
fn ddm(block_size: u16, device_blocks: u32) -> Vec<u8> {
    let mut d = vec![0u8; BS * 4];
    d[0..2].copy_from_slice(b"ER");
    d[2..4].copy_from_slice(&block_size.to_be_bytes());
    d[4..8].copy_from_slice(&device_blocks.to_be_bytes());
    d
}

/// Write a `PM` partition entry at block `block`, declaring `map_count` entries.
fn pm_entry(d: &mut [u8], block: usize, map_count: u32, start: u32, count: u32) {
    let off = BS * block;
    d[off..off + 2].copy_from_slice(b"PM");
    d[off + 4..off + 8].copy_from_slice(&map_count.to_be_bytes());
    d[off + 8..off + 12].copy_from_slice(&start.to_be_bytes());
    d[off + 12..off + 16].copy_from_slice(&count.to_be_bytes());
}

#[test]
fn zero_block_size_is_rejected() {
    let d = ddm(0, 100);
    assert!(apm::parse(&d).is_none());
}

#[test]
fn missing_first_pm_signature_is_rejected() {
    let d = ddm(BS as u16, 100);
    assert!(apm::parse(&d).is_none());
}

#[test]
fn parse_stops_at_a_truncated_or_missing_entry() {
    let mut d = ddm(BS as u16, 1000);
    pm_entry(&mut d, 1, 3, 1, 63);
    pm_entry(&mut d, 2, 3, 64, 100);
    let map = apm::parse(&d).expect("parses the two well-formed entries");
    assert_eq!(
        map.partitions.len(),
        2,
        "stopped at the missing third entry"
    );
}

// ── Further reader cases ─────────────────────────────────────────────────────

#[test]
fn entry_fields_decode_big_endian() {
    let mut d = ddm(BS as u16, 0x0102_0304);
    pm_entry(&mut d, 1, 1, 0x0A0B_0C0D, 0x1122_3344);
    d[BS + 88..BS + 92].copy_from_slice(&0xDEAD_BEEFu32.to_be_bytes());
    let map = apm::parse(&d).unwrap();
    assert_eq!(map.device_block_count, 0x0102_0304);
    let p = &map.partitions[0];
    assert_eq!(p.start_block, 0x0A0B_0C0D);
    assert_eq!(p.block_count, 0x1122_3344);
    assert_eq!(p.map_count, 1);
    assert_eq!(p.status, 0xDEAD_BEEF);
    assert_eq!(p.name, "");
    assert_eq!(p.part_type, "");
}

#[test]
fn names_stop_at_the_first_nul_and_fill_the_field() {
    let mut d = ddm(BS as u16, 100);
    pm_entry(&mut d, 1, 1, 1, 1);
    d[BS + 16..BS + 21].copy_from_slice(b"ab\0cd");
    d[BS + 48..BS + 80].copy_from_slice(&[b'x'; 32]);
    d[BS + 80] = b'y'; // past the 32-byte type field
    let map = apm::parse(&d).unwrap();
    assert_eq!(map.partitions[0].name, "ab");
    assert_eq!(map.partitions[0].part_type, "x".repeat(32));
}

#[test]
fn invalid_utf8_names_are_replaced_not_rejected() {
    let mut d = ddm(BS as u16, 100);
    pm_entry(&mut d, 1, 1, 1, 1);
    d[BS + 16..BS + 19].copy_from_slice(&[b'A', 0xFF, b'B']);
    let map = apm::parse(&d).unwrap();
    assert_eq!(map.partitions[0].name, "A\u{FFFD}B");
}

#[test]
fn entry_count_is_capped() {
    // 300 declared entries, all present: only 256 are read.
    let bs: usize = 128;
    let mut d = vec![0u8; bs * 302];
    d[0..2].copy_from_slice(b"ER");
    d[2..4].copy_from_slice(&(bs as u16).to_be_bytes());
    for i in 0..300 {
        let off = bs * (1 + i);
        d[off..off + 2].copy_from_slice(b"PM");
        d[off + 4..off + 8].copy_from_slice(&300u32.to_be_bytes());
    }
    assert_eq!(apm::parse(&d).unwrap().partitions.len(), 256);
}

#[test]
fn a_truncated_entry_ends_the_list() {
    // The second entry's PM signature is there but its 92 bytes run past the end.
    let mut d = ddm(BS as u16, 100);
    pm_entry(&mut d, 1, 3, 1, 1);
    d.truncate(BS * 2 + 50);
    d[BS * 2..BS * 2 + 2].copy_from_slice(b"PM");
    assert_eq!(apm::parse(&d).unwrap().partitions.len(), 1);
}

#[test]
fn end_block_is_inclusive_and_saturates() {
    let mut d = ddm(BS as u16, 100);
    pm_entry(&mut d, 1, 3, 10, 5);
    pm_entry(&mut d, 2, 3, u32::MAX - 1, 10);
    pm_entry(&mut d, 3, 3, 7, 0);
    let map = apm::parse(&d).unwrap();
    assert_eq!(map.partitions[0].end_block(), 14);
    assert_eq!(map.partitions[1].end_block(), u32::MAX);
    assert_eq!(map.partitions[2].end_block(), 7);
}

#[test]
fn hfs_lookup_takes_the_first_hfs_prefixed_type() {
    let mut d = ddm(BS as u16, 100);
    pm_entry(&mut d, 1, 3, 1, 1);
    pm_entry(&mut d, 2, 3, 2, 1);
    pm_entry(&mut d, 3, 3, 3, 1);
    d[BS + 48..BS + 48 + 8].copy_from_slice(b"Apple_HF");
    d[BS * 2 + 48..BS * 2 + 48 + 10].copy_from_slice(b"Apple_HFSX");
    d[BS * 3 + 48..BS * 3 + 48 + 9].copy_from_slice(b"Apple_HFS");
    let map = apm::parse(&d).unwrap();
    assert_eq!(map.hfs_partition().unwrap().start_block, 2);
    let mut e = ddm(BS as u16, 100);
    pm_entry(&mut e, 1, 1, 1, 1);
    assert!(apm::parse(&e).unwrap().hfs_partition().is_none());
}
