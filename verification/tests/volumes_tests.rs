//! The volume table of an APM disk.

use apm_partition_forensic::volumes::{head_read_len, volume_table, APM_MAP_CAP};

/// The head of an 8 MiB `hdiutil create -layout SPUD -fs HFS+` image: block
/// size 512, `Apple_partition_map` (start 1, 63 blocks) and `Apple_HFS`
/// "disk image" (start 64, 16320 blocks).
fn real_apm_head() -> Vec<u8> {
    let mut d = vec![0u8; 32 * 1024];
    d[0..2].copy_from_slice(b"ER");
    d[2..4].copy_from_slice(&512u16.to_be_bytes());
    d[4..8].copy_from_slice(&16384u32.to_be_bytes());
    let entries: [(&[u8], &[u8], u32, u32); 2] = [
        (b"Apple", b"Apple_partition_map", 1, 63),
        (b"disk image", b"Apple_HFS", 64, 16320),
    ];
    for (i, (name, ty, start, count)) in entries.iter().enumerate() {
        let off = 512 * (1 + i);
        d[off..off + 2].copy_from_slice(b"PM");
        d[off + 4..off + 8].copy_from_slice(&2u32.to_be_bytes());
        d[off + 8..off + 12].copy_from_slice(&start.to_be_bytes());
        d[off + 12..off + 16].copy_from_slice(&count.to_be_bytes());
        d[off + 16..off + 16 + name.len()].copy_from_slice(name);
        d[off + 48..off + 48 + ty.len()].copy_from_slice(ty);
    }
    d
}

#[test]
fn apm_volumes_match_mmls_pdisk_oracle() {
    let vols = volume_table(&real_apm_head()).expect("real APM must parse");
    assert_eq!(vols.len(), 2, "map + HFS partitions");
    assert_eq!(vols[0].index, 0);
    assert_eq!(vols[0].start, 512);
    assert_eq!(vols[0].len, 63 * 512);
    assert_eq!(vols[0].type_hint.as_deref(), Some("Apple_partition_map"));
    assert_eq!(vols[1].start, 64 * 512);
    assert_eq!(vols[1].len, 16320 * 512);
    assert_eq!(vols[1].type_hint.as_deref(), Some("Apple_HFS"));
    assert_eq!(vols[1].label.as_deref(), Some("disk image"));
}

#[test]
fn empty_names_and_types_give_no_hints() {
    let mut d = real_apm_head();
    d[512 + 16..512 + 48].fill(0);
    d[512 + 48..512 + 80].fill(0);
    let vols = volume_table(&d).unwrap();
    assert_eq!(vols[0].type_hint, None);
    assert_eq!(vols[0].label, None);
}

#[test]
fn windows_scale_by_the_block_size() {
    let mut d = real_apm_head();
    d[2..4].copy_from_slice(&2048u16.to_be_bytes());
    // With 2048-byte blocks the first entry sits at byte 2048.
    let e = d[512..1024].to_vec();
    d[2048..2560].copy_from_slice(&e);
    d[2048 + 4..2048 + 8].copy_from_slice(&1u32.to_be_bytes());
    d[2048 + 8..2048 + 12].copy_from_slice(&u32::MAX.to_be_bytes());
    d[2048 + 12..2048 + 16].copy_from_slice(&u32::MAX.to_be_bytes());
    let vols = volume_table(&d).unwrap();
    assert_eq!(vols.len(), 1);
    assert_eq!(vols[0].start, u32::MAX as u64 * 2048);
    assert_eq!(vols[0].len, u32::MAX as u64 * 2048);
}

#[test]
fn a_non_apm_head_has_no_volume_table() {
    assert!(volume_table(&[0u8; 4096]).is_none());
}

#[test]
fn the_head_read_is_capped() {
    assert_eq!(APM_MAP_CAP, 1 << 20);
    assert_eq!(head_read_len(10), 10);
    assert_eq!(head_read_len(u64::MAX), 1 << 20);
    assert_eq!(head_read_len(1 << 20), 1 << 20);
}
