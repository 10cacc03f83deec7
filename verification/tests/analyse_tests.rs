//! Forensic analysis of the Apple Partition Map.

use apm_partition_forensic::analyse::analyse_map;
use apm_partition_forensic::{analyse, AnomalyKind, ApmPartition, ApplePartitionMap, Error};

const BS: usize = 512;

/// The head of an `hdiutil create -layout SPUD` image: block size 512, a
/// 16384-block device, `Apple_partition_map` (blocks 1..=63) and `Apple_HFS`
/// "disk image" (blocks 64..=16383), two entries declared.
fn real_map() -> Vec<u8> {
    let mut d = vec![0u8; 2048];
    d[0..2].copy_from_slice(b"ER");
    d[2..4].copy_from_slice(&512u16.to_be_bytes());
    d[4..8].copy_from_slice(&16384u32.to_be_bytes());
    let entries: [(&[u8], &[u8], u32, u32); 2] = [
        (b"Apple", b"Apple_partition_map", 1, 63),
        (b"disk image", b"Apple_HFS", 64, 16320),
    ];
    for (i, (name, ty, start, count)) in entries.iter().enumerate() {
        let off = BS * (1 + i);
        d[off..off + 2].copy_from_slice(b"PM");
        d[off + 4..off + 8].copy_from_slice(&2u32.to_be_bytes());
        d[off + 8..off + 12].copy_from_slice(&start.to_be_bytes());
        d[off + 12..off + 16].copy_from_slice(&count.to_be_bytes());
        d[off + 16..off + 16 + name.len()].copy_from_slice(name);
        d[off + 48..off + 48 + ty.len()].copy_from_slice(ty);
    }
    d
}

struct Ent {
    part_type: &'static str,
    start: u32,
    count: u32,
    map_count: u32,
}

fn build(device_blocks: u32, entries: &[Ent]) -> Vec<u8> {
    let total = BS * (1 + entries.len() + 2);
    let mut d = vec![0u8; total];
    d[0..2].copy_from_slice(b"ER");
    d[2..4].copy_from_slice(&(BS as u16).to_be_bytes());
    d[4..8].copy_from_slice(&device_blocks.to_be_bytes());
    for (i, e) in entries.iter().enumerate() {
        let off = BS * (1 + i);
        d[off..off + 2].copy_from_slice(b"PM");
        d[off + 4..off + 8].copy_from_slice(&e.map_count.to_be_bytes());
        d[off + 8..off + 12].copy_from_slice(&e.start.to_be_bytes());
        d[off + 12..off + 16].copy_from_slice(&e.count.to_be_bytes());
        let ty = e.part_type.as_bytes();
        d[off + 48..off + 48 + ty.len()].copy_from_slice(ty);
    }
    d
}

fn ent(part_type: &'static str, start: u32, count: u32, n: u32) -> Ent {
    Ent {
        part_type,
        start,
        count,
        map_count: n,
    }
}

fn kinds(d: &[u8]) -> Vec<AnomalyKind> {
    analyse(d)
        .unwrap()
        .anomalies
        .into_iter()
        .map(|a| a.kind)
        .collect()
}

#[test]
fn real_apm_is_clean() {
    let a = analyse(&real_map()).unwrap();
    assert_eq!(a.partitions.len(), 2);
    assert!(
        a.anomalies.is_empty(),
        "real APM must be clean, got: {:?}",
        a.anomalies.iter().map(|x| x.code).collect::<Vec<_>>()
    );
}

#[test]
fn non_apm_errors() {
    assert!(matches!(
        analyse(&[0u8; 8]),
        Err(Error::TooShort { need: 512, got: 8 })
    ));
    assert!(matches!(analyse(&[0u8; 1024]), Err(Error::NotApm)));
}

#[test]
fn well_formed_synthetic_is_clean() {
    let d = build(
        1000,
        &[
            ent("Apple_partition_map", 1, 63, 2),
            ent("Apple_HFS", 64, 900, 2),
        ],
    );
    assert!(
        analyse(&d).unwrap().anomalies.is_empty(),
        "got {:?}",
        kinds(&d)
    );
}

#[test]
fn overlapping_partitions_flagged() {
    let d = build(
        1000,
        &[ent("Apple_HFS", 64, 500, 2), ent("Apple_HFS", 300, 400, 2)],
    );
    assert!(kinds(&d)
        .iter()
        .any(|a| matches!(a, AnomalyKind::OverlappingPartitions { .. })));
}

#[test]
fn out_of_bounds_flagged() {
    // Device has 100 blocks; partition runs to block 563.
    let d = build(100, &[ent("Apple_HFS", 64, 500, 1)]);
    assert!(kinds(&d)
        .iter()
        .any(|a| matches!(a, AnomalyKind::PartitionOutOfBounds { .. })));
}

#[test]
fn map_count_mismatch_flagged() {
    let d = build(
        1000,
        &[
            ent("Apple_partition_map", 1, 63, 2),
            ent("Apple_HFS", 64, 100, 9),
        ],
    );
    assert!(kinds(&d)
        .iter()
        .any(|a| matches!(a, AnomalyKind::MapCountMismatch { .. })));
}

#[test]
fn residual_entry_flagged() {
    // Map declares 1 entry, but a PM signature lurks at block 2.
    let mut d = build(1000, &[ent("Apple_HFS", 64, 100, 1)]);
    let off = BS * 2;
    d[off..off + 2].copy_from_slice(b"PM");
    assert!(kinds(&d)
        .iter()
        .any(|a| matches!(a, AnomalyKind::ResidualEntry { .. })));
}

#[test]
fn missing_partition_map_self_entry_flagged() {
    let d = build(1000, &[ent("Apple_HFS", 64, 100, 1)]);
    assert!(kinds(&d)
        .iter()
        .any(|a| matches!(a, AnomalyKind::NoPartitionMapEntry)));
}

#[test]
fn unknown_partition_type_flagged() {
    let d = build(
        1000,
        &[
            ent("Apple_partition_map", 1, 63, 2),
            ent("Sneaky_Hidden_Type", 64, 100, 2),
        ],
    );
    assert!(kinds(&d)
        .iter()
        .any(|a| matches!(a, AnomalyKind::UnknownPartitionType { .. })));
}

#[test]
fn unmapped_region_between_partitions_flagged() {
    let d = build(
        1000,
        &[
            ent("Apple_partition_map", 1, 63, 2),
            ent("Apple_HFS", 100, 100, 2),
        ],
    );
    assert!(kinds(&d)
        .iter()
        .any(|a| matches!(a, AnomalyKind::UnmappedRegion { .. })));
}

#[test]
fn zero_length_partition_flagged() {
    let d = build(1000, &[ent("Apple_Free", 64, 0, 1)]);
    assert!(kinds(&d)
        .iter()
        .any(|a| matches!(a, AnomalyKind::ZeroLengthPartition { .. })));
}

#[test]
fn empty_map_analyses_without_the_first_entry_paths() {
    let mut d = vec![0u8; BS * 4];
    d[0..2].copy_from_slice(b"ER");
    d[2..4].copy_from_slice(&(BS as u16).to_be_bytes());
    d[4..8].copy_from_slice(&1000u32.to_be_bytes());
    d[BS..BS + 2].copy_from_slice(b"PM");
    let a = analyse(&d).unwrap();
    assert!(a.partitions.is_empty(), "map declares zero entries");
    assert_eq!(
        a.anomalies.len(),
        1,
        "only the missing self-entry is flagged: {:?}",
        kinds(&d)
    );
    assert!(matches!(
        a.anomalies[0].kind,
        AnomalyKind::NoPartitionMapEntry
    ));
}

#[test]
fn zero_length_partition_is_skipped_by_the_overlap_check() {
    let d = build(
        1000,
        &[
            ent("Apple_partition_map", 1, 63, 3),
            ent("Apple_Free", 100, 0, 3),
            ent("Apple_HFS", 100, 100, 3),
        ],
    );
    let ks = kinds(&d);
    assert!(
        ks.iter()
            .any(|a| matches!(a, AnomalyKind::ZeroLengthPartition { .. })),
        "the empty entry is flagged: {ks:?}"
    );
    assert!(
        !ks.iter()
            .any(|a| matches!(a, AnomalyKind::OverlappingPartitions { .. })),
        "an empty entry never counts as an overlap: {ks:?}"
    );
}

#[test]
fn zero_device_block_count_suppresses_out_of_bounds() {
    let d = build(0, &[ent("Apple_HFS", 64, 500, 1)]);
    let ks = kinds(&d);
    assert!(
        !ks.iter()
            .any(|a| matches!(a, AnomalyKind::PartitionOutOfBounds { .. })),
        "no device size means no out-of-bounds judgment: {ks:?}"
    );
}

#[test]
fn no_residual_when_declared_count_matches() {
    let d = build(
        1000,
        &[
            ent("Apple_partition_map", 1, 63, 2),
            ent("Apple_HFS", 64, 900, 2),
        ],
    );
    assert!(
        !kinds(&d)
            .iter()
            .any(|a| matches!(a, AnomalyKind::ResidualEntry { .. })),
        "a well-formed map has no residual entry"
    );
}

// ── Exact findings ──────────────────────────────────────────────────────────

#[test]
fn too_short_reports_the_length_it_got() {
    assert!(matches!(analyse(&[0u8; 511]), Err(Error::TooShort { need: 512, got: 511 })));
    assert!(matches!(analyse(&[]), Err(Error::TooShort { need: 512, got: 0 })));
}

#[test]
fn findings_carry_exact_values_in_discovery_order() {
    // 0: map entry disagrees on the map count, 1: overlaps 2 and runs off the
    // 300-block device, 2: unknown type, 3: empty.
    let d = build(
        300,
        &[
            ent("Apple_partition_map", 1, 63, 4),
            ent("Apple_HFS", 64, 500, 5),
            ent("Mystery", 100, 10, 4),
            ent("Apple_Free", 700, 0, 4),
        ],
    );
    let ks = kinds(&d);
    assert_eq!(
        ks,
        vec![
            AnomalyKind::MapCountMismatch { index: 1, found: 5, expected: 4 },
            AnomalyKind::PartitionOutOfBounds { index: 1, last_block: 563, device_last_block: 299 },
            AnomalyKind::ZeroLengthPartition { index: 3 },
            AnomalyKind::PartitionOutOfBounds { index: 3, last_block: 700, device_last_block: 299 },
            AnomalyKind::OverlappingPartitions { a: 1, b: 2 },
            AnomalyKind::UnknownPartitionType { index: 2, part_type: "Mystery".to_string() },
        ]
    );
}

#[test]
fn unmapped_region_bounds_are_the_gap() {
    let d = build(
        1000,
        &[
            ent("Apple_HFS", 100, 100, 2),
            ent("Apple_partition_map", 1, 63, 2),
        ],
    );
    let ks = kinds(&d);
    assert_eq!(
        ks,
        vec![AnomalyKind::UnmappedRegion { start_block: 64, end_block: 99 }]
    );
}

#[test]
fn residual_entry_names_the_block_past_the_map() {
    let mut d = build(1000, &[ent("Apple_partition_map", 1, 63, 1)]);
    d[BS * 2..BS * 2 + 2].copy_from_slice(b"PM");
    assert_eq!(kinds(&d), vec![AnomalyKind::ResidualEntry { block: 2 }]);
}

#[test]
fn anomaly_fields_follow_their_kind() {
    let d = build(100, &[ent("Apple_HFS", 64, 500, 1)]);
    let a = analyse(&d).unwrap();
    for an in &a.anomalies {
        assert_eq!(an.severity, an.kind.severity());
        assert_eq!(an.code, an.kind.code());
        assert_eq!(an.note, an.kind.note());
    }
    assert_eq!(a.block_size, 512);
    assert_eq!(a.device_block_count, 100);
}

#[test]
fn analyse_map_grades_a_hand_built_map() {
    let part = |ty: &str, start: u32, count: u32| ApmPartition {
        name: String::new(),
        part_type: ty.to_string(),
        start_block: start,
        block_count: count,
        map_count: 2,
        status: 0,
    };
    let map = ApplePartitionMap {
        block_size: 512,
        device_block_count: 50,
        partitions: vec![part("Apple_partition_map", 1, 9), part("Apple_HFS", 20, 40)],
    };
    let a = analyse_map(&[0u8; 512], map);
    let ks: Vec<AnomalyKind> = a.anomalies.into_iter().map(|x| x.kind).collect();
    assert_eq!(
        ks,
        vec![
            AnomalyKind::PartitionOutOfBounds { index: 1, last_block: 59, device_last_block: 49 },
            AnomalyKind::UnmappedRegion { start_block: 10, end_block: 19 },
        ]
    );
    assert_eq!(a.partitions.len(), 2);
}

#[test]
fn nested_partitions_leave_no_unmapped_region() {
    // Partition 0 covers 1..=100, which holds both 10..=19 and 50..=59:
    // no block between them is left uncovered.
    let d = build(
        1000,
        &[
            ent("Apple_partition_map", 1, 100, 3),
            ent("Apple_HFS", 10, 10, 3),
            ent("Apple_HFS", 50, 10, 3),
        ],
    );
    let ks = kinds(&d);
    assert!(!ks.iter().any(|k| matches!(k, AnomalyKind::UnmappedRegion { .. })));
    assert!(ks.contains(&AnomalyKind::OverlappingPartitions { a: 0, b: 1 }));
    assert!(ks.contains(&AnomalyKind::OverlappingPartitions { a: 0, b: 2 }));
}

#[test]
fn gap_after_a_covering_partition_starts_past_its_end() {
    // 1..=100 covers 50..=60, so the only uncovered interior run is 101..=119.
    let d = build(
        1000,
        &[
            ent("Apple_partition_map", 1, 100, 3),
            ent("Apple_HFS", 50, 11, 3),
            ent("Apple_HFS", 120, 11, 3),
        ],
    );
    let gaps: Vec<AnomalyKind> = kinds(&d)
        .into_iter()
        .filter(|k| matches!(k, AnomalyKind::UnmappedRegion { .. }))
        .collect();
    assert_eq!(gaps, vec![AnomalyKind::UnmappedRegion { start_block: 101, end_block: 119 }]);
}

#[test]
fn unmapped_regions_come_in_block_order_once_each() {
    let d = build(
        1000,
        &[
            ent("Apple_partition_map", 1, 10, 4),
            ent("Apple_HFS", 40, 11, 4),
            ent("Apple_HFS", 20, 11, 4),
            ent("Apple_HFS", 25, 3, 4),
        ],
    );
    let gaps: Vec<AnomalyKind> = kinds(&d)
        .into_iter()
        .filter(|k| matches!(k, AnomalyKind::UnmappedRegion { .. }))
        .collect();
    assert_eq!(
        gaps,
        vec![
            AnomalyKind::UnmappedRegion { start_block: 11, end_block: 19 },
            AnomalyKind::UnmappedRegion { start_block: 31, end_block: 39 },
        ]
    );
}
