//! Forensic finding types for Apple Partition Map analysis.
//!
//! Every anomaly's severity, stable code and human note are derived from its
//! [`AnomalyKind`], so the three cannot drift out of sync.

use vstd::prelude::*;

use crate::map::{views_of, ApmPartition, PartitionView};
use crate::text::{dec, dec_string, push_dec, push_str};

verus! {

/// The five-level severity scale (`Info` < `Low` < `Medium` < `High` < `Critical`).
#[derive(Debug, Clone, Copy, PartialEq, Eq, Structural, Hash)]
pub enum Severity {
    /// Informational — context, not suspicious on its own.
    Info,
    /// Minor irregularity with a common benign explanation.
    Low,
    /// Notable irregularity worth examiner attention.
    Medium,
    /// Strong indicator of tampering or concealment.
    High,
    /// Structural contradiction; the medium cannot be trusted as-is.
    Critical,
}

/// The position of a severity on the scale, `Info` = 0 up to `Critical` = 4.
pub open spec fn rank(s: Severity) -> nat {
    match s {
        Severity::Info => 0,
        Severity::Low => 1,
        Severity::Medium => 2,
        Severity::High => 3,
        Severity::Critical => 4,
    }
}

/// The upper-case label a severity is rendered with.
pub open spec fn severity_label(s: Severity) -> Seq<char> {
    match s {
        Severity::Info => "INFO"@,
        Severity::Low => "LOW"@,
        Severity::Medium => "MEDIUM"@,
        Severity::High => "HIGH"@,
        Severity::Critical => "CRITICAL"@,
    }
}

impl Severity {
    /// The position of this severity on the scale (`Info` = 0 ... `Critical` = 4).
    pub fn level(&self) -> (r: u8)
        ensures
            r == rank(*self),
    {
        match self {
            Severity::Info => 0,
            Severity::Low => 1,
            Severity::Medium => 2,
            Severity::High => 3,
            Severity::Critical => 4,
        }
    }

    /// The upper-case label (`INFO`, `LOW`, `MEDIUM`, `HIGH`, `CRITICAL`).
    pub fn label(&self) -> (r: &'static str)
        ensures
            r@ == severity_label(*self),
    {
        match self {
            Severity::Info => "INFO",
            Severity::Low => "LOW",
            Severity::Medium => "MEDIUM",
            Severity::High => "HIGH",
            Severity::Critical => "CRITICAL",
        }
    }
}

/// Classification of an APM anomaly.
#[derive(Debug, Clone, PartialEq, Eq)]
pub enum AnomalyKind {
    /// A partition entry's `pmMapBlkCnt` disagrees with the first entry's.
    MapCountMismatch { index: usize, found: u32, expected: u32 },
    /// Two partitions claim overlapping block ranges.
    OverlappingPartitions { a: usize, b: usize },
    /// A partition extends beyond the device's last block.
    PartitionOutOfBounds { index: usize, last_block: u32, device_last_block: u32 },
    /// A `PM`-signed entry exists beyond the declared map count.
    ResidualEntry { block: u32 },
    /// A partition has a zero block count.
    ZeroLengthPartition { index: usize },
    /// No entry of type `Apple_partition_map`: the map does not describe itself.
    NoPartitionMapEntry,
    /// A partition's `pmPartType` is not a recognised APM type.
    UnknownPartitionType { index: usize, part_type: String },
    /// A block range between two partitions is described by no entry.
    UnmappedRegion { start_block: u32, end_block: u32 },
}

/// The mathematical value of an [`AnomalyKind`].
pub enum KindView {
    MapCountMismatch { index: usize, found: u32, expected: u32 },
    OverlappingPartitions { a: usize, b: usize },
    PartitionOutOfBounds { index: usize, last_block: u32, device_last_block: u32 },
    ResidualEntry { block: u32 },
    ZeroLengthPartition { index: usize },
    NoPartitionMapEntry,
    UnknownPartitionType { index: usize, part_type: Seq<char> },
    UnmappedRegion { start_block: u32, end_block: u32 },
}

impl View for AnomalyKind {
    type V = KindView;

    open spec fn view(&self) -> KindView {
        match self {
            AnomalyKind::MapCountMismatch { index, found, expected } => KindView::MapCountMismatch {
                index: *index,
                found: *found,
                expected: *expected,
            },
            AnomalyKind::OverlappingPartitions { a, b } => KindView::OverlappingPartitions {
                a: *a,
                b: *b,
            },
            AnomalyKind::PartitionOutOfBounds { index, last_block, device_last_block } =>
                KindView::PartitionOutOfBounds {
                index: *index,
                last_block: *last_block,
                device_last_block: *device_last_block,
            },
            AnomalyKind::ResidualEntry { block } => KindView::ResidualEntry { block: *block },
            AnomalyKind::ZeroLengthPartition { index } => KindView::ZeroLengthPartition {
                index: *index,
            },
            AnomalyKind::NoPartitionMapEntry => KindView::NoPartitionMapEntry,
            AnomalyKind::UnknownPartitionType { index, part_type } =>
                KindView::UnknownPartitionType { index: *index, part_type: part_type@ },
            AnomalyKind::UnmappedRegion { start_block, end_block } => KindView::UnmappedRegion {
                start_block: *start_block,
                end_block: *end_block,
            },
        }
    }
}

/// The severity assigned to each kind — the single source of truth.
pub open spec fn kind_severity(k: KindView) -> Severity {
    match k {
        KindView::OverlappingPartitions { .. } => Severity::Critical,
        KindView::PartitionOutOfBounds { .. } => Severity::High,
        KindView::ResidualEntry { .. } => Severity::High,
        KindView::NoPartitionMapEntry => Severity::High,
        KindView::MapCountMismatch { .. } => Severity::Medium,
        KindView::UnmappedRegion { .. } => Severity::Medium,
        KindView::ZeroLengthPartition { .. } => Severity::Low,
        KindView::UnknownPartitionType { .. } => Severity::Info,
    }
}

/// The stable machine-readable code of each kind.
pub open spec fn kind_code(k: KindView) -> Seq<char> {
    match k {
        KindView::MapCountMismatch { .. } => "APM-MAP-COUNT"@,
        KindView::OverlappingPartitions { .. } => "APM-PART-OVERLAP"@,
        KindView::PartitionOutOfBounds { .. } => "APM-PART-OOB"@,
        KindView::ResidualEntry { .. } => "APM-PART-RESIDUAL"@,
        KindView::ZeroLengthPartition { .. } => "APM-PART-ZEROLEN"@,
        KindView::NoPartitionMapEntry => "APM-NO-MAP-ENTRY"@,
        KindView::UnknownPartitionType { .. } => "APM-PART-UNKNOWN"@,
        KindView::UnmappedRegion { .. } => "APM-UNMAPPED"@,
    }
}

/// The human-readable note of each kind.
pub open spec fn kind_note(k: KindView) -> Seq<char> {
    match k {
        KindView::MapCountMismatch { index, found, expected } => "Entry "@ + dec(index as nat)
            + ": pmMapBlkCnt "@ + dec(found as nat) + " disagrees with the map's "@ + dec(
            expected as nat,
        ) + " \u{2014} corruption or tampering"@,
        KindView::OverlappingPartitions { a, b } => "Partitions "@ + dec(a as nat) + " and "@
            + dec(b as nat) + " claim overlapping block ranges"@,
        KindView::PartitionOutOfBounds { index, last_block, device_last_block } => "Partition "@
            + dec(index as nat) + " ends at block "@ + dec(last_block as nat)
            + ", beyond the device's last block "@ + dec(device_last_block as nat),
        KindView::ResidualEntry { block } => "A PM partition entry exists at block "@ + dec(
            block as nat,
        ) + ", beyond the declared map count \u{2014} hidden or residual entry"@,
        KindView::ZeroLengthPartition { index } => "Partition "@ + dec(index as nat)
            + " has a zero block count"@,
        KindView::NoPartitionMapEntry =>
            "No Apple_partition_map entry \u{2014} the map does not describe itself"@,
        KindView::UnknownPartitionType { index, part_type } => "Partition "@ + dec(index as nat)
            + ": unrecognised type \""@ + part_type + "\" \u{2014} possibly custom or hidden"@,
        KindView::UnmappedRegion { start_block, end_block } => "Blocks "@ + dec(
            start_block as nat,
        ) + "\u{2013}"@ + dec(end_block as nat)
            + " are described by no partition entry \u{2014} unaccounted/hidden space"@,
    }
}

impl AnomalyKind {
    /// Severity assigned to this kind.
    pub fn severity(&self) -> (s: Severity)
        ensures
            s == kind_severity(self@),
    {
        match self {
            AnomalyKind::OverlappingPartitions { .. } => Severity::Critical,
            AnomalyKind::PartitionOutOfBounds { .. } => Severity::High,
            AnomalyKind::ResidualEntry { .. } => Severity::High,
            AnomalyKind::NoPartitionMapEntry => Severity::High,
            AnomalyKind::MapCountMismatch { .. } => Severity::Medium,
            AnomalyKind::UnmappedRegion { .. } => Severity::Medium,
            AnomalyKind::ZeroLengthPartition { .. } => Severity::Low,
            AnomalyKind::UnknownPartitionType { .. } => Severity::Info,
        }
    }

    /// Stable machine-readable code.
    pub fn code(&self) -> (c: &'static str)
        ensures
            c@ == kind_code(self@),
    {
        match self {
            AnomalyKind::MapCountMismatch { .. } => "APM-MAP-COUNT",
            AnomalyKind::OverlappingPartitions { .. } => "APM-PART-OVERLAP",
            AnomalyKind::PartitionOutOfBounds { .. } => "APM-PART-OOB",
            AnomalyKind::ResidualEntry { .. } => "APM-PART-RESIDUAL",
            AnomalyKind::ZeroLengthPartition { .. } => "APM-PART-ZEROLEN",
            AnomalyKind::NoPartitionMapEntry => "APM-NO-MAP-ENTRY",
            AnomalyKind::UnknownPartitionType { .. } => "APM-PART-UNKNOWN",
            AnomalyKind::UnmappedRegion { .. } => "APM-UNMAPPED",
        }
    }

    /// Human-readable description.
    pub fn note(&self) -> (n: String)
        ensures
            n@ == kind_note(self@),
    {
        let mut s: String = String::new();
        match self {
            AnomalyKind::MapCountMismatch { index, found, expected } => {
                push_str(&mut s, "Entry ");
                push_dec(&mut s, *index as u64);
                push_str(&mut s, ": pmMapBlkCnt ");
                push_dec(&mut s, *found as u64);
                push_str(&mut s, " disagrees with the map's ");
                push_dec(&mut s, *expected as u64);
                push_str(&mut s, " \u{2014} corruption or tampering");
            },
            AnomalyKind::OverlappingPartitions { a, b } => {
                push_str(&mut s, "Partitions ");
                push_dec(&mut s, *a as u64);
                push_str(&mut s, " and ");
                push_dec(&mut s, *b as u64);
                push_str(&mut s, " claim overlapping block ranges");
            },
            AnomalyKind::PartitionOutOfBounds { index, last_block, device_last_block } => {
                push_str(&mut s, "Partition ");
                push_dec(&mut s, *index as u64);
                push_str(&mut s, " ends at block ");
                push_dec(&mut s, *last_block as u64);
                push_str(&mut s, ", beyond the device's last block ");
                push_dec(&mut s, *device_last_block as u64);
            },
            AnomalyKind::ResidualEntry { block } => {
                push_str(&mut s, "A PM partition entry exists at block ");
                push_dec(&mut s, *block as u64);
                push_str(&mut s, ", beyond the declared map count \u{2014} hidden or residual entry");
            },
            AnomalyKind::ZeroLengthPartition { index } => {
                push_str(&mut s, "Partition ");
                push_dec(&mut s, *index as u64);
                push_str(&mut s, " has a zero block count");
            },
            AnomalyKind::NoPartitionMapEntry => {
                push_str(&mut s, "No Apple_partition_map entry \u{2014} the map does not describe itself");
            },
            AnomalyKind::UnknownPartitionType { index, part_type } => {
                push_str(&mut s, "Partition ");
                push_dec(&mut s, *index as u64);
                push_str(&mut s, ": unrecognised type \"");
                push_str(&mut s, part_type.as_str());
                push_str(&mut s, "\" \u{2014} possibly custom or hidden");
            },
            AnomalyKind::UnmappedRegion { start_block, end_block } => {
                push_str(&mut s, "Blocks ");
                push_dec(&mut s, *start_block as u64);
                push_str(&mut s, "\u{2013}");
                push_dec(&mut s, *end_block as u64);
                push_str(&mut s, " are described by no partition entry \u{2014} unaccounted/hidden space");
            },
        }
        proof {
            assert(s@ =~= kind_note(self@));
        }
        s
    }
}

/// The mathematical value of an [`Anomaly`].
pub struct AnomalyView {
    pub severity: Severity,
    pub code: Seq<char>,
    pub kind: KindView,
    pub note: Seq<char>,
}

/// The anomaly derived from a kind: its severity, code and note all follow from it.
pub open spec fn anomaly_of(k: KindView) -> AnomalyView {
    AnomalyView { severity: kind_severity(k), code: kind_code(k), kind: k, note: kind_note(k) }
}

/// A single APM anomaly with derived severity, code and note.
#[derive(Debug, Clone)]
pub struct Anomaly {
    pub severity: Severity,
    pub code: &'static str,
    pub kind: AnomalyKind,
    pub note: String,
}

impl View for Anomaly {
    type V = AnomalyView;

    open spec fn view(&self) -> AnomalyView {
        AnomalyView {
            severity: self.severity,
            code: self.code@,
            kind: self.kind@,
            note: self.note@,
        }
    }
}

/// The views of a sequence of anomalies.
pub open spec fn anomaly_views(s: Seq<Anomaly>) -> Seq<AnomalyView> {
    s.map_values(|a: Anomaly| a@)
}

/// Where a piece of evidence sits on the medium.
#[derive(Debug, Clone, Copy, PartialEq, Eq, Structural)]
pub enum Location {
    /// Logical block address (APM addresses everything in device blocks).
    Lba(u64),
}

/// One piece of evidence backing an anomaly: a named field, its observed
/// value rendered as text, and where it was found.
#[derive(Debug, Clone)]
pub struct Evidence {
    pub field: String,
    pub value: String,
    pub location: Option<Location>,
}

/// The mathematical value of an [`Evidence`].
pub struct EvidenceView {
    pub field: Seq<char>,
    pub value: Seq<char>,
    pub location: Option<Location>,
}

impl View for Evidence {
    type V = EvidenceView;

    open spec fn view(&self) -> EvidenceView {
        EvidenceView { field: self.field@, value: self.value@, location: self.location }
    }
}

/// The evidence rows of each kind: block-addressed kinds carry an `Lba`
/// location, the summary kinds a single locationless row, and the missing
/// self-entry none.
pub open spec fn kind_evidence(k: KindView) -> Seq<EvidenceView> {
    match k {
        KindView::PartitionOutOfBounds { index, last_block, device_last_block } => seq![
            EvidenceView {
                field: "partition "@ + dec(index as nat) + " last block"@,
                value: dec(last_block as nat) + " past device end "@ + dec(device_last_block as nat),
                location: Some(Location::Lba(last_block as u64)),
            },
        ],
        KindView::ResidualEntry { block } => seq![
            EvidenceView {
                field: "residual map entry"@,
                value: "block "@ + dec(block as nat),
                location: Some(Location::Lba(block as u64)),
            },
        ],
        KindView::UnmappedRegion { start_block, end_block } => seq![
            EvidenceView {
                field: "unmapped region"@,
                value: "blocks "@ + dec(start_block as nat) + "..="@ + dec(end_block as nat),
                location: Some(Location::Lba(start_block as u64)),
            },
        ],
        KindView::MapCountMismatch { index, found, expected } => seq![
            EvidenceView {
                field: "map entry "@ + dec(index as nat) + " count"@,
                value: "found "@ + dec(found as nat) + ", expected "@ + dec(expected as nat),
                location: None,
            },
        ],
        KindView::OverlappingPartitions { a, b } => seq![
            EvidenceView {
                field: "partitions"@,
                value: dec(a as nat) + " & "@ + dec(b as nat),
                location: None,
            },
        ],
        KindView::ZeroLengthPartition { index } => seq![
            EvidenceView { field: "partition"@, value: dec(index as nat), location: None },
        ],
        KindView::UnknownPartitionType { index, part_type } => seq![
            EvidenceView {
                field: "partition "@ + dec(index as nat) + " type"@,
                value: part_type,
                location: None,
            },
        ],
        KindView::NoPartitionMapEntry => Seq::empty(),
    }
}

/// The one-line rendering `[SEVERITY] code: note`.
pub open spec fn anomaly_line(a: AnomalyView) -> Seq<char> {
    "["@ + severity_label(a.severity) + "] "@ + a.code + ": "@ + a.note
}

/// Builds a string from two literal pieces around a decimal.
fn text_dec_text(pre: &str, n: u64, post: &str) -> (s: String)
    ensures
        s@ == pre@ + dec(n as nat) + post@,
{
    let mut s: String = String::new();
    push_str(&mut s, pre);
    push_dec(&mut s, n);
    push_str(&mut s, post);
    proof {
        assert(s@ =~= pre@ + dec(n as nat) + post@);
    }
    s
}

/// Builds `pre n mid m`.
fn text_dec_text_dec(pre: &str, n: u64, mid: &str, m: u64) -> (s: String)
    ensures
        s@ == pre@ + dec(n as nat) + mid@ + dec(m as nat),
{
    let mut s: String = String::new();
    push_str(&mut s, pre);
    push_dec(&mut s, n);
    push_str(&mut s, mid);
    push_dec(&mut s, m);
    proof {
        assert(s@ =~= pre@ + dec(n as nat) + mid@ + dec(m as nat));
    }
    s
}

impl Anomaly {
    /// The anomaly of `kind`, with its severity, code and note derived from it.
    pub fn new(kind: AnomalyKind) -> (a: Anomaly)
        ensures
            a@ == anomaly_of(kind@),
    {
        Anomaly { severity: kind.severity(), code: kind.code(), note: kind.note(), kind }
    }

    /// The evidence rows backing this anomaly, in logical device blocks.
    pub fn evidence(&self) -> (ev: Vec<Evidence>)
        ensures
            ev@.map_values(|e: Evidence| e@) == kind_evidence(self.kind@),
    {
        let mut ev: Vec<Evidence> = Vec::new();
        match &self.kind {
            AnomalyKind::PartitionOutOfBounds { index, last_block, device_last_block } => {
                ev.push(
                    Evidence {
                        field: text_dec_text("partition ", *index as u64, " last block"),
                        value: text_dec_text_dec(
                            "",
                            *last_block as u64,
                            " past device end ",
                            *device_last_block as u64,
                        ),
                        location: Some(Location::Lba(*last_block as u64)),
                    },
                );
            },
            AnomalyKind::ResidualEntry { block } => {
                ev.push(
                    Evidence {
                        field: String::from_str("residual map entry"),
                        value: text_dec_text("block ", *block as u64, ""),
                        location: Some(Location::Lba(*block as u64)),
                    },
                );
            },
            AnomalyKind::UnmappedRegion { start_block, end_block } => {
                ev.push(
                    Evidence {
                        field: String::from_str("unmapped region"),
                        value: text_dec_text_dec(
                            "blocks ",
                            *start_block as u64,
                            "..=",
                            *end_block as u64,
                        ),
                        location: Some(Location::Lba(*start_block as u64)),
                    },
                );
            },
            AnomalyKind::MapCountMismatch { index, found, expected } => {
                ev.push(
                    Evidence {
                        field: text_dec_text("map entry ", *index as u64, " count"),
                        value: text_dec_text_dec(
                            "found ",
                            *found as u64,
                            ", expected ",
                            *expected as u64,
                        ),
                        location: None,
                    },
                );
            },
            AnomalyKind::OverlappingPartitions { a, b } => {
                ev.push(
                    Evidence {
                        field: String::from_str("partitions"),
                        value: text_dec_text_dec("", *a as u64, " & ", *b as u64),
                        location: None,
                    },
                );
            },
            AnomalyKind::ZeroLengthPartition { index } => {
                ev.push(
                    Evidence {
                        field: String::from_str("partition"),
                        value: dec_string(*index as u64),
                        location: None,
                    },
                );
            },
            AnomalyKind::UnknownPartitionType { index, part_type } => {
                ev.push(
                    Evidence {
                        field: text_dec_text("partition ", *index as u64, " type"),
                        value: part_type.clone(),
                        location: None,
                    },
                );
            },
            AnomalyKind::NoPartitionMapEntry => {},
        }
        proof {
            reveal_strlit("");
            assert(ev@.map_values(|e: Evidence| e@) =~= kind_evidence(self.kind@));
        }
        ev
    }

    /// The one-line rendering `[SEVERITY] code: note`.
    pub fn render(&self) -> (s: String)
        ensures
            s@ == anomaly_line(self@),
    {
        let mut s: String = String::new();
        push_str(&mut s, "[");
        push_str(&mut s, self.severity.label());
        push_str(&mut s, "] ");
        push_str(&mut s, self.code);
        push_str(&mut s, ": ");
        push_str(&mut s, self.note.as_str());
        proof {
            assert(s@ =~= anomaly_line(self@));
        }
        s
    }
}

/// `s` is the highest severity in `anoms`: it occurs there, and no anomaly ranks above it.
pub open spec fn is_max_severity(anoms: Seq<AnomalyView>, s: Severity) -> bool {
    &&& exists|i: int| 0 <= i < anoms.len() && anoms[i].severity == s
    &&& forall|i: int| 0 <= i < anoms.len() ==> rank(#[trigger] anoms[i].severity) <= rank(s)
}

/// The mathematical value of an [`ApmAnalysis`].
pub struct AnalysisView {
    pub block_size: u32,
    pub device_block_count: u32,
    pub partitions: Seq<PartitionView>,
    pub anomalies: Seq<AnomalyView>,
}

/// Result of a full APM forensic analysis.
#[derive(Debug, Clone)]
pub struct ApmAnalysis {
    /// Device block size in bytes.
    pub block_size: u32,
    /// Device block count (from the Driver Descriptor Map).
    pub device_block_count: u32,
    /// Partition entries in map order.
    pub partitions: Vec<ApmPartition>,
    /// All detected anomalies, in discovery order.
    pub anomalies: Vec<Anomaly>,
}

impl View for ApmAnalysis {
    type V = AnalysisView;

    open spec fn view(&self) -> AnalysisView {
        AnalysisView {
            block_size: self.block_size,
            device_block_count: self.device_block_count,
            partitions: views_of(self.partitions@),
            anomalies: anomaly_views(self.anomalies@),
        }
    }
}

/// The highest severity in `s`, scanning left to right and keeping the first
/// of equally ranked ones; `None` when `s` is empty.
pub open spec fn spec_max_severity(s: Seq<AnomalyView>) -> Option<Severity>
    decreases s.len(),
{
    if s.len() == 0 {
        None
    } else {
        let last = s.last().severity;
        match spec_max_severity(s.drop_last()) {
            None => Some(last),
            Some(b) => if rank(b) < rank(last) {
                Some(last)
            } else {
                Some(b)
            },
        }
    }
}

/// The highest severity is `None` exactly for a clean list, and otherwise is a
/// severity that occurs in the list and that no anomaly ranks above.
pub proof fn lemma_max_severity_is_maximum(s: Seq<AnomalyView>)
    ensures
        spec_max_severity(s) is None <==> s.len() == 0,
        spec_max_severity(s) matches Some(m) ==> is_max_severity(s, m),
    decreases s.len(),
{
    if s.len() > 0 {
        let t = s.drop_last();
        lemma_max_severity_is_maximum(t);
        assert forall|i: int| 0 <= i < t.len() implies t[i] == s[i] by {}
        match spec_max_severity(t) {
            None => {
                assert(s[s.len() - 1].severity == s.last().severity);
            },
            Some(b) => {
                let j = choose|j: int| 0 <= j < t.len() && t[j].severity == b;
                assert(s[j].severity == b);
                assert(s[s.len() - 1].severity == s.last().severity);
            },
        }
    }
}

impl ApmAnalysis {
    /// The highest severity among all anomalies, or `None` when clean.
    pub fn max_severity(&self) -> (r: Option<Severity>)
        ensures
            r == spec_max_severity(anomaly_views(self.anomalies@)),
            r is None <==> self.anomalies@.len() == 0,
            r matches Some(m) ==> is_max_severity(anomaly_views(self.anomalies@), m),
    {
        let ghost av = anomaly_views(self.anomalies@);
        let mut best: Option<Severity> = None;
        let mut i: usize = 0;
        while i < self.anomalies.len()
            invariant
                i <= self.anomalies@.len(),
                av == anomaly_views(self.anomalies@),
                best == spec_max_severity(av.take(i as int)),
            decreases self.anomalies@.len() - i,
        {
            let s: Severity = self.anomalies[i].severity;
            match best {
                None => {
                    best = Some(s);
                },
                Some(b) => {
                    if b.level() < s.level() {
                        best = Some(s);
                    }
                },
            }
            proof {
                assert(av.take(i + 1).drop_last() =~= av.take(i as int));
            }
            i = i + 1;
        }
        proof {
            assert(av.take(i as int) =~= av);
            lemma_max_severity_is_maximum(av);
        }
        best
    }
}

} // verus!
