//! Anomaly evidence, rendering and severity ranking.

use apm_partition_forensic::findings::{Evidence, Location};
use apm_partition_forensic::{Anomaly, AnomalyKind, ApmAnalysis, Severity};

#[test]
fn anomaly_evidence_carries_its_block_location() {
    let a = Anomaly::new(AnomalyKind::PartitionOutOfBounds {
        index: 1,
        last_block: 6200,
        device_last_block: 6143,
    });
    let ev = a.evidence();
    assert!(
        ev.iter()
            .any(|e| matches!(e.location, Some(Location::Lba(6200)))),
        "out-of-bounds partition should surface its last_block as an Lba location: {ev:?}"
    );
}

#[test]
fn evidence_covers_every_anomaly_kind() {
    let lba = |ev: &[Evidence]| {
        ev.iter()
            .filter_map(|e| match e.location {
                Some(Location::Lba(b)) => Some(b),
                _ => None,
            })
            .collect::<Vec<_>>()
    };

    assert_eq!(
        lba(&Anomaly::new(AnomalyKind::ResidualEntry { block: 2 }).evidence()),
        vec![2]
    );
    assert_eq!(
        lba(&Anomaly::new(AnomalyKind::UnmappedRegion {
            start_block: 10,
            end_block: 20,
        })
        .evidence()),
        vec![10]
    );

    for (kind, needle) in [
        (
            AnomalyKind::MapCountMismatch {
                index: 1,
                found: 9,
                expected: 2,
            },
            "found 9",
        ),
        (AnomalyKind::OverlappingPartitions { a: 0, b: 1 }, "0 & 1"),
        (AnomalyKind::ZeroLengthPartition { index: 3 }, "3"),
        (
            AnomalyKind::UnknownPartitionType {
                index: 2,
                part_type: "Sneaky".to_string(),
            },
            "Sneaky",
        ),
    ] {
        let ev = Anomaly::new(kind).evidence();
        assert_eq!(ev.len(), 1, "summary kind emits one Evidence: {ev:?}");
        assert!(ev[0].location.is_none(), "summary kind is locationless");
        assert!(
            ev.iter().any(|e| e.value.contains(needle)),
            "evidence should mention {needle:?}: {ev:?}"
        );
    }

    assert!(Anomaly::new(AnomalyKind::NoPartitionMapEntry)
        .evidence()
        .is_empty());
}

#[test]
fn anomaly_display_renders_severity_code_and_note() {
    let a = Anomaly::new(AnomalyKind::OverlappingPartitions { a: 0, b: 1 });
    let s = a.render();
    assert!(s.contains("APM-PART-OVERLAP"), "shows the code: {s}");
    assert!(s.contains(&a.note), "shows the note: {s}");
    assert!(s.starts_with('['), "leads with the bracketed severity: {s}");
}

#[test]
fn max_severity_is_max_of_anomalies_and_none_when_clean() {
    let clean = ApmAnalysis {
        block_size: 512,
        device_block_count: 1000,
        partitions: Vec::new(),
        anomalies: Vec::new(),
    };
    assert_eq!(clean.max_severity(), None);

    let graded = ApmAnalysis {
        block_size: 512,
        device_block_count: 1000,
        partitions: Vec::new(),
        anomalies: vec![
            Anomaly::new(AnomalyKind::UnknownPartitionType {
                index: 0,
                part_type: "x".to_string(),
            }),
            Anomaly::new(AnomalyKind::OverlappingPartitions { a: 0, b: 1 }),
            Anomaly::new(AnomalyKind::ZeroLengthPartition { index: 1 }),
        ],
    };
    assert_eq!(graded.max_severity(), Some(Severity::Critical));
}

// ── Exact severity, code, note and evidence per kind ───────────────────────

#[test]
fn each_kind_has_its_severity_code_and_note() {
    let cases: Vec<(AnomalyKind, Severity, &str, &str)> = vec![
        (
            AnomalyKind::MapCountMismatch { index: 1, found: 9, expected: 2 },
            Severity::Medium,
            "APM-MAP-COUNT",
            "Entry 1: pmMapBlkCnt 9 disagrees with the map's 2 \u{2014} corruption or tampering",
        ),
        (
            AnomalyKind::OverlappingPartitions { a: 0, b: 12 },
            Severity::Critical,
            "APM-PART-OVERLAP",
            "Partitions 0 and 12 claim overlapping block ranges",
        ),
        (
            AnomalyKind::PartitionOutOfBounds { index: 3, last_block: 4294967295, device_last_block: 6143 },
            Severity::High,
            "APM-PART-OOB",
            "Partition 3 ends at block 4294967295, beyond the device's last block 6143",
        ),
        (
            AnomalyKind::ResidualEntry { block: 2 },
            Severity::High,
            "APM-PART-RESIDUAL",
            "A PM partition entry exists at block 2, beyond the declared map count \u{2014} hidden or residual entry",
        ),
        (
            AnomalyKind::ZeroLengthPartition { index: 10 },
            Severity::Low,
            "APM-PART-ZEROLEN",
            "Partition 10 has a zero block count",
        ),
        (
            AnomalyKind::NoPartitionMapEntry,
            Severity::High,
            "APM-NO-MAP-ENTRY",
            "No Apple_partition_map entry \u{2014} the map does not describe itself",
        ),
        (
            AnomalyKind::UnknownPartitionType { index: 2, part_type: "Sneaky".to_string() },
            Severity::Info,
            "APM-PART-UNKNOWN",
            "Partition 2: unrecognised type \"Sneaky\" \u{2014} possibly custom or hidden",
        ),
        (
            AnomalyKind::UnmappedRegion { start_block: 64, end_block: 99 },
            Severity::Medium,
            "APM-UNMAPPED",
            "Blocks 64\u{2013}99 are described by no partition entry \u{2014} unaccounted/hidden space",
        ),
    ];
    for (kind, sev, code, note) in cases {
        assert_eq!(kind.severity(), sev);
        assert_eq!(kind.code(), code);
        assert_eq!(kind.note(), note);
        let a = Anomaly::new(kind.clone());
        assert_eq!(a.severity, sev);
        assert_eq!(a.code, code);
        assert_eq!(a.note, note);
        assert_eq!(a.kind, kind);
    }
}

#[test]
fn evidence_rows_are_exact() {
    let ev = Anomaly::new(AnomalyKind::PartitionOutOfBounds {
        index: 1,
        last_block: 6200,
        device_last_block: 6143,
    })
    .evidence();
    assert_eq!(ev[0].field, "partition 1 last block");
    assert_eq!(ev[0].value, "6200 past device end 6143");

    let ev = Anomaly::new(AnomalyKind::UnmappedRegion { start_block: 10, end_block: 20 }).evidence();
    assert_eq!(ev[0].field, "unmapped region");
    assert_eq!(ev[0].value, "blocks 10..=20");

    let ev = Anomaly::new(AnomalyKind::ResidualEntry { block: 7 }).evidence();
    assert_eq!(ev[0].field, "residual map entry");
    assert_eq!(ev[0].value, "block 7");

    let ev = Anomaly::new(AnomalyKind::MapCountMismatch { index: 4, found: 9, expected: 2 }).evidence();
    assert_eq!(ev[0].field, "map entry 4 count");
    assert_eq!(ev[0].value, "found 9, expected 2");

    let ev = Anomaly::new(AnomalyKind::UnknownPartitionType { index: 5, part_type: "T".to_string() }).evidence();
    assert_eq!(ev[0].field, "partition 5 type");
    assert_eq!(ev[0].value, "T");
}

#[test]
fn render_is_bracketed_label_code_and_note() {
    let a = Anomaly::new(AnomalyKind::ZeroLengthPartition { index: 0 });
    assert_eq!(a.render(), "[LOW] APM-PART-ZEROLEN: Partition 0 has a zero block count");
    assert_eq!(Severity::Info.label(), "INFO");
    assert_eq!(Severity::Critical.label(), "CRITICAL");
    assert!(Severity::Info.level() < Severity::Low.level());
    assert!(Severity::High.level() < Severity::Critical.level());
}

#[test]
fn max_severity_keeps_the_highest_among_equals_and_lower() {
    let an = |k| Anomaly::new(k);
    let a = ApmAnalysis {
        block_size: 512,
        device_block_count: 1,
        partitions: Vec::new(),
        anomalies: vec![
            an(AnomalyKind::ZeroLengthPartition { index: 0 }),
            an(AnomalyKind::ResidualEntry { block: 2 }),
            an(AnomalyKind::UnmappedRegion { start_block: 1, end_block: 2 }),
        ],
    };
    assert_eq!(a.max_severity(), Some(Severity::High));
}
