//! The forensic checks over a decoded map, and the [`analyse`] entry point.

use vstd::prelude::*;
use vstd::relations::{sorted_by, total_ordering};

use crate::findings::{
    anomaly_of, anomaly_views, AnalysisView, Anomaly, AnomalyKind, AnomalyView, ApmAnalysis,
    KindView,
};
use crate::knowledge::{is_known_type, known_apm_type, partition_map_type, partition_map_type_text};
use crate::map::{
    parse, sig_at, spec_end_block, spec_parse, views_of, ApmPartition, ApplePartitionMap, MapView,
    PartitionView, entry_text_decoded,
    MIN_IMAGE_LEN,
};

verus! {

broadcast use vstd::seq_lib::group_to_multiset_ensures, vstd::multiset::group_multiset_properties;

/// Why an image could not be analysed.
#[derive(Debug, Clone, Copy, PartialEq, Eq, Structural)]
pub enum Error {
    /// The buffer is shorter than one block.
    TooShort { need: usize, got: usize },
    /// No `ER` Driver Descriptor Map / `PM` partition entry signatures.
    NotApm,
}

/// The anomalies derived from a sequence of kinds, in the same order.
pub open spec fn anomalies_of(ks: Seq<KindView>) -> Seq<AnomalyView> {
    ks.map_values(|k: KindView| anomaly_of(k))
}

// ── pmMapBlkCnt consistency ────────────────────────────────────────────────

/// Entry `i` disagrees with the first entry's map count.
pub open spec fn map_count_item(parts: Seq<PartitionView>, i: int) -> Seq<KindView> {
    if parts[i].map_count != parts[0].map_count {
        seq![
            KindView::MapCountMismatch {
                index: i as usize,
                found: parts[i].map_count,
                expected: parts[0].map_count,
            },
        ]
    } else {
        Seq::empty()
    }
}

/// Map-count findings for entries `0..n`.
pub open spec fn map_count_upto(parts: Seq<PartitionView>, n: nat) -> Seq<KindView>
    decreases n,
{
    if n == 0 {
        Seq::empty()
    } else {
        map_count_upto(parts, (n - 1) as nat) + map_count_item(parts, n - 1)
    }
}

// ── Per-partition geometry ──────────────────────────────────────────────────

/// Zero-length and out-of-bounds findings for entry `i`, on a device of
/// `device_blocks` blocks (no out-of-bounds judgment when it is 0).
pub open spec fn geometry_item(parts: Seq<PartitionView>, device_blocks: u32, i: int) -> Seq<
    KindView,
> {
    let p = parts[i];
    let end = spec_end_block(p.start_block, p.block_count);
    let zero = if p.block_count == 0 {
        seq![KindView::ZeroLengthPartition { index: i as usize }]
    } else {
        Seq::empty()
    };
    let oob = if device_blocks > 0 && end > device_blocks - 1 {
        seq![
            KindView::PartitionOutOfBounds {
                index: i as usize,
                last_block: end,
                device_last_block: (device_blocks - 1) as u32,
            },
        ]
    } else {
        Seq::empty()
    };
    zero + oob
}

/// Geometry findings for entries `0..n`.
pub open spec fn geometry_upto(parts: Seq<PartitionView>, device_blocks: u32, n: nat) -> Seq<
    KindView,
>
    decreases n,
{
    if n == 0 {
        Seq::empty()
    } else {
        geometry_upto(parts, device_blocks, (n - 1) as nat) + geometry_item(
            parts,
            device_blocks,
            n - 1,
        )
    }
}

// ── Overlaps (non-empty partitions only) ───────────────────────────────────

/// The inclusive block ranges of two non-empty partitions intersect.
pub open spec fn overlaps(p: PartitionView, q: PartitionView) -> bool {
    &&& p.block_count > 0
    &&& q.block_count > 0
    &&& p.start_block <= spec_end_block(q.start_block, q.block_count)
    &&& q.start_block <= spec_end_block(p.start_block, p.block_count)
}

/// The overlap finding for the pair `a < b`.
pub open spec fn overlap_item(parts: Seq<PartitionView>, a: int, b: int) -> Seq<KindView> {
    if overlaps(parts[a], parts[b]) {
        seq![KindView::OverlappingPartitions { a: a as usize, b: b as usize }]
    } else {
        Seq::empty()
    }
}

/// Overlap findings for the pairs `(a, b)` with `a < b < m`.
pub open spec fn overlap_row(parts: Seq<PartitionView>, a: int, m: int) -> Seq<KindView>
    decreases m - a,
{
    if m <= a + 1 {
        Seq::empty()
    } else {
        overlap_row(parts, a, m - 1) + overlap_item(parts, a, m - 1)
    }
}

/// Overlap findings for the pairs `(a, b)` with `a < n` and `a < b < parts.len()`,
/// ordered by `a` then `b`.
pub open spec fn overlap_upto(parts: Seq<PartitionView>, n: nat) -> Seq<KindView>
    decreases n,
{
    if n == 0 {
        Seq::empty()
    } else {
        overlap_upto(parts, (n - 1) as nat) + overlap_row(parts, n - 1, parts.len() as int)
    }
}

// ── Partition types ───────────────────────────────────────────────────────

/// The missing self-describing entry: no entry has type `Apple_partition_map`.
pub open spec fn self_entry_finding(parts: Seq<PartitionView>) -> Seq<KindView> {
    if exists|i: int| 0 <= i < parts.len() && parts[i].part_type == partition_map_type_text() {
        Seq::empty()
    } else {
        seq![KindView::NoPartitionMapEntry]
    }
}

/// The unknown-type finding for entry `i`.
pub open spec fn unknown_item(parts: Seq<PartitionView>, i: int) -> Seq<KindView> {
    if !known_apm_type(parts[i].part_type) {
        seq![KindView::UnknownPartitionType { index: i as usize, part_type: parts[i].part_type }]
    } else {
        Seq::empty()
    }
}

/// Unknown-type findings for entries `0..n`.
pub open spec fn unknown_upto(parts: Seq<PartitionView>, n: nat) -> Seq<KindView>
    decreases n,
{
    if n == 0 {
        Seq::empty()
    } else {
        unknown_upto(parts, (n - 1) as nat) + unknown_item(parts, n - 1)
    }
}

// ── Unmapped interior regions ──────────────────────────────────────────────

/// The lexicographic order on `(start, end)` block extents.
pub open spec fn extent_le(x: (u32, u32), y: (u32, u32)) -> bool {
    x.0 < y.0 || (x.0 == y.0 && x.1 <= y.1)
}

/// `(start, end)` of the non-empty entries among `0..n`, in map order.
pub open spec fn extents_upto(parts: Seq<PartitionView>, n: nat) -> Seq<(u32, u32)>
    decreases n,
{
    if n == 0 {
        Seq::empty()
    } else {
        let p = parts[n - 1];
        extents_upto(parts, (n - 1) as nat) + if p.block_count > 0 {
            seq![(p.start_block, spec_end_block(p.start_block, p.block_count))]
        } else {
            Seq::empty()
        }
    }
}

/// The extents of the non-empty entries, sorted by start then end.
pub open spec fn sorted_extents(parts: Seq<PartitionView>) -> Seq<(u32, u32)> {
    extents_upto(parts, parts.len()).sort_by(|x: (u32, u32), y: (u32, u32)| extent_le(x, y))
}

/// The furthest last block among extents `0..=k`.
pub open spec fn max_end(s: Seq<(u32, u32)>, k: int) -> u32
    decreases k,
{
    if k <= 0 {
        s[0].1
    } else {
        let m = max_end(s, k - 1);
        if m < s[k].1 {
            s[k].1
        } else {
            m
        }
    }
}

/// The blocks after every extent among `0..=k` and before extent `k + 1`,
/// if there are any: a run that no extent up to `k + 1` covers.
pub open spec fn gap_item(s: Seq<(u32, u32)>, k: int) -> Seq<KindView> {
    let m = max_end(s, k);
    if s[k + 1].0 > m + 1 {
        seq![
            KindView::UnmappedRegion {
                start_block: (m + 1) as u32,
                end_block: (s[k + 1].0 - 1) as u32,
            },
        ]
    } else {
        Seq::empty()
    }
}

/// Gap findings before extents `1..=n`.
pub open spec fn gaps_upto(s: Seq<(u32, u32)>, n: nat) -> Seq<KindView>
    decreases n,
{
    if n == 0 {
        Seq::empty()
    } else {
        gaps_upto(s, (n - 1) as nat) + gap_item(s, n - 1)
    }
}

/// Gap findings before every sorted extent but the first.
pub open spec fn gap_findings(s: Seq<(u32, u32)>) -> Seq<KindView> {
    if s.len() <= 1 {
        Seq::empty()
    } else {
        gaps_upto(s, (s.len() - 1) as nat)
    }
}

// ── Residual entry ──────────────────────────────────────────────────────

/// A `PM` signature at block `1 + declared`, where `declared` is the first
/// entry's map count: an entry beyond the declared map.
pub open spec fn residual_finding(d: Seq<u8>, block_size: u32, parts: Seq<PartitionView>) -> Seq<
    KindView,
> {
    if parts.len() > 0 && sig_at(d, block_size * (1 + parts[0].map_count), 0x50, 0x4D) {
        seq![
            KindView::ResidualEntry {
                block: ((1 + parts[0].map_count) % 0x1_0000_0000) as u32,
            },
        ]
    } else {
        Seq::empty()
    }
}

/// Every finding for the map `m` decoded from `d`, in discovery order.
pub open spec fn spec_findings(d: Seq<u8>, m: MapView) -> Seq<KindView> {
    let parts = m.partitions;
    map_count_upto(parts, parts.len()) + geometry_upto(parts, m.device_block_count, parts.len())
        + overlap_upto(parts, parts.len()) + self_entry_finding(parts) + unknown_upto(
        parts,
        parts.len(),
    ) + gap_findings(sorted_extents(parts)) + residual_finding(d, m.block_size, parts)
}

/// The analysis of the map `m` decoded from `d`.
pub open spec fn spec_analysis(d: Seq<u8>, m: MapView) -> AnalysisView {
    AnalysisView {
        block_size: m.block_size,
        device_block_count: m.device_block_count,
        partitions: m.partitions,
        anomalies: anomalies_of(spec_findings(d, m)),
    }
}

/// What `analyse` returns for `d`.
pub open spec fn analyse_outcome(d: Seq<u8>) -> Result<AnalysisView, Error> {
    if d.len() < MIN_IMAGE_LEN as int {
        Err(Error::TooShort { need: MIN_IMAGE_LEN, got: d.len() as usize })
    } else {
        match spec_parse(d) {
            None => Err(Error::NotApm),
            Some(m) => Ok(spec_analysis(d, m)),
        }
    }
}

/// Appends the anomaly of `k`.
fn push_kind(out: &mut Vec<Anomaly>, k: AnomalyKind)
    ensures
        anomaly_views(final(out)@) == anomaly_views(old(out)@).push(anomaly_of(k@)),
{
    let ghost before = out@;
    out.push(Anomaly::new(k));
    proof {
        assert(anomaly_views(out@) =~= anomaly_views(before).push(anomaly_of(k@)));
    }
}

/// `anomalies_of` distributes over concatenation.
proof fn lemma_anomalies_of_add(a: Seq<KindView>, b: Seq<KindView>)
    ensures
        anomalies_of(a + b) == anomalies_of(a) + anomalies_of(b),
{
    assert(anomalies_of(a + b) =~= anomalies_of(a) + anomalies_of(b));
}

/// Appends the map-count findings.
fn check_map_counts(parts: &Vec<ApmPartition>, out: &mut Vec<Anomaly>)
    ensures
        anomaly_views(final(out)@) == anomaly_views(old(out)@) + anomalies_of(
            map_count_upto(views_of(parts@), parts@.len()),
        ),
{
    let ghost pv = views_of(parts@);
    let ghost start = anomaly_views(out@);
    if parts.len() == 0 {
        proof {
            assert(anomaly_views(out@) =~= start + anomalies_of(Seq::<KindView>::empty()));
        }
        return;
    }
    let expected: u32 = parts[0].map_count;
    let mut i: usize = 0;
    while i < parts.len()
        invariant
            i <= parts@.len(),
            parts@.len() > 0,
            pv == views_of(parts@),
            expected == pv[0].map_count,
            anomaly_views(out@) == start + anomalies_of(map_count_upto(pv, i as nat)),
        decreases parts@.len() - i,
    {
        let found: u32 = parts[i].map_count;
        if found != expected {
            push_kind(out, AnomalyKind::MapCountMismatch { index: i, found, expected });
        }
        proof {
            lemma_anomalies_of_add(map_count_upto(pv, i as nat), map_count_item(pv, i as int));
            assert(map_count_upto(pv, (i + 1) as nat) == map_count_upto(pv, i as nat) + map_count_item(pv, i as int));
            assert(anomaly_views(out@) =~= start + anomalies_of(map_count_upto(pv, (i + 1) as nat)));
        }
        i = i + 1;
    }
}

/// Appends the zero-length and out-of-bounds findings.
fn check_geometry(parts: &Vec<ApmPartition>, device_blocks: u32, out: &mut Vec<Anomaly>)
    ensures
        anomaly_views(final(out)@) == anomaly_views(old(out)@) + anomalies_of(
            geometry_upto(views_of(parts@), device_blocks, parts@.len()),
        ),
{
    let ghost pv = views_of(parts@);
    let ghost start = anomaly_views(out@);
    let mut i: usize = 0;
    while i < parts.len()
        invariant
            i <= parts@.len(),
            pv == views_of(parts@),
            anomaly_views(out@) == start + anomalies_of(geometry_upto(pv, device_blocks, i as nat)),
        decreases parts@.len() - i,
    {
        let p: &ApmPartition = &parts[i];
        let ghost before = anomaly_views(out@);
        if p.block_count == 0 {
            push_kind(out, AnomalyKind::ZeroLengthPartition { index: i });
        }
        if device_blocks > 0 {
            let last: u32 = device_blocks - 1;
            let end: u32 = p.end_block();
            if end > last {
                push_kind(
                    out,
                    AnomalyKind::PartitionOutOfBounds {
                        index: i,
                        last_block: end,
                        device_last_block: last,
                    },
                );
            }
        }
        proof {
            let item = geometry_item(pv, device_blocks, i as int);
            lemma_anomalies_of_add(geometry_upto(pv, device_blocks, i as nat), item);
            assert(anomaly_views(out@) =~= before + anomalies_of(item));
            assert(anomaly_views(out@) =~= start + anomalies_of(
                geometry_upto(pv, device_blocks, (i + 1) as nat),
            ));
        }
        i = i + 1;
    }
}

/// Appends the overlap findings of the pairs `(a, b)` with `a < b`.
fn check_overlaps(parts: &Vec<ApmPartition>, out: &mut Vec<Anomaly>)
    ensures
        anomaly_views(final(out)@) == anomaly_views(old(out)@) + anomalies_of(
            overlap_upto(views_of(parts@), parts@.len()),
        ),
{
    let ghost pv = views_of(parts@);
    let ghost start = anomaly_views(out@);
    let n: usize = parts.len();
    let mut a: usize = 0;
    while a < n
        invariant
            n == parts@.len(),
            a <= n,
            pv == views_of(parts@),
            anomaly_views(out@) == start + anomalies_of(overlap_upto(pv, a as nat)),
        decreases n - a,
    {
        let ghost row_start = anomaly_views(out@);
        let mut b: usize = a + 1;
        proof {
            assert(overlap_row(pv, a as int, b as int) =~= Seq::<KindView>::empty());
            assert(anomaly_views(out@) =~= row_start + anomalies_of(overlap_row(pv, a as int, b as int)));
        }
        while b < n
            invariant
                n == parts@.len(),
                a < n,
                a + 1 <= b <= n,
                pv == views_of(parts@),
                anomaly_views(out@) == row_start + anomalies_of(overlap_row(pv, a as int, b as int)),
            decreases n - b,
        {
            let pa: &ApmPartition = &parts[a];
            let pb: &ApmPartition = &parts[b];
            if pa.block_count != 0 && pb.block_count != 0 {
                if pa.start_block <= pb.end_block() && pb.start_block <= pa.end_block() {
                    push_kind(out, AnomalyKind::OverlappingPartitions { a, b });
                }
            }
            proof {
                lemma_anomalies_of_add(overlap_row(pv, a as int, b as int), overlap_item(pv, a as int, b as int));
                assert(overlap_row(pv, a as int, b + 1) == overlap_row(pv, a as int, b as int) + overlap_item(pv, a as int, b as int));
                assert(anomaly_views(out@) =~= row_start + anomalies_of(overlap_row(pv, a as int, b + 1)));
            }
            b = b + 1;
        }
        proof {
            lemma_anomalies_of_add(overlap_upto(pv, a as nat), overlap_row(pv, a as int, n as int));
            assert(anomaly_views(out@) =~= start + anomalies_of(overlap_upto(pv, (a + 1) as nat)));
        }
        a = a + 1;
    }
}

/// Appends the missing-self-entry finding and the unknown-type findings.
fn check_types(parts: &Vec<ApmPartition>, out: &mut Vec<Anomaly>)
    ensures
        anomaly_views(final(out)@) == anomaly_views(old(out)@) + anomalies_of(
            self_entry_finding(views_of(parts@)),
        ) + anomalies_of(unknown_upto(views_of(parts@), parts@.len())),
{
    let ghost pv = views_of(parts@);
    let ghost start = anomaly_views(out@);
    let pm_type: &str = partition_map_type();
    let mut found: bool = false;
    let mut i: usize = 0;
    while i < parts.len() && !found
        invariant
            i <= parts@.len(),
            pv == views_of(parts@),
            pm_type@ == partition_map_type_text(),
            found ==> exists|j: int| 0 <= j < parts@.len() && pv[j].part_type == partition_map_type_text(),
            !found ==> forall|j: int| 0 <= j < i ==> pv[j].part_type != partition_map_type_text(),
        decreases parts@.len() - i,
    {
        let t: String = String::from_str(pm_type);
        if parts[i].part_type == t {
            found = true;
            proof {
                assert(pv[i as int].part_type == partition_map_type_text());
            }
        }
        i = i + 1;
    }
    if !found {
        push_kind(out, AnomalyKind::NoPartitionMapEntry);
    }
    proof {
        if found {
            assert(self_entry_finding(pv) =~= Seq::<KindView>::empty());
            assert(anomaly_views(out@) =~= start + anomalies_of(self_entry_finding(pv)));
        } else {
            assert(self_entry_finding(pv) =~= seq![KindView::NoPartitionMapEntry]);
            assert(anomaly_views(out@) =~= start + anomalies_of(self_entry_finding(pv)));
        }
    }
    let ghost mid = anomaly_views(out@);
    let mut i: usize = 0;
    while i < parts.len()
        invariant
            i <= parts@.len(),
            pv == views_of(parts@),
            anomaly_views(out@) == mid + anomalies_of(unknown_upto(pv, i as nat)),
        decreases parts@.len() - i,
    {
        if !is_known_type(parts[i].part_type.as_str()) {
            push_kind(
                out,
                AnomalyKind::UnknownPartitionType { index: i, part_type: parts[i].part_type.clone() },
            );
        }
        proof {
            lemma_anomalies_of_add(unknown_upto(pv, i as nat), unknown_item(pv, i as int));
            assert(anomaly_views(out@) =~= mid + anomalies_of(unknown_upto(pv, (i + 1) as nat)));
        }
        i = i + 1;
    }
}

/// The order on block extents (start, then end) is a total order.
pub proof fn lemma_extent_le_total()
    ensures
        total_ordering(|x: (u32, u32), y: (u32, u32)| extent_le(x, y)),
{
}

/// The extents of the non-empty partitions, in map order.
fn collect_extents(parts: &Vec<ApmPartition>) -> (r: Vec<(u32, u32)>)
    ensures
        r@ == extents_upto(views_of(parts@), parts@.len()),
{
    let ghost pv = views_of(parts@);
    let mut r: Vec<(u32, u32)> = Vec::new();
    let mut i: usize = 0;
    while i < parts.len()
        invariant
            i <= parts@.len(),
            pv == views_of(parts@),
            r@ == extents_upto(pv, i as nat),
        decreases parts@.len() - i,
    {
        if parts[i].block_count > 0 {
            r.push((parts[i].start_block, parts[i].end_block()));
        }
        proof {
            assert(r@ =~= extents_upto(pv, (i + 1) as nat));
        }
        i = i + 1;
    }
    r
}

/// Inserting `x` at `i` adds one `x` to the multiset of a sequence.
proof fn lemma_insert_multiset(s: Seq<(u32, u32)>, i: int, x: (u32, u32))
    requires
        0 <= i <= s.len(),
    ensures
        s.insert(i, x).to_multiset() =~= s.to_multiset().insert(x),
{
    let t = s.insert(i, x);
    assert(t.remove(i) =~= s);
    assert(t[i] == x);
    assert(t.remove(i).to_multiset() == t.to_multiset().remove(x));
    assert(t.contains(x));
    assert(t.to_multiset().count(x) > 0);
}

/// The extents sorted by `extent_le` (insertion sort).
fn sort_extents(v: Vec<(u32, u32)>) -> (r: Vec<(u32, u32)>)
    ensures
        r@ == v@.sort_by(|x: (u32, u32), y: (u32, u32)| extent_le(x, y)),
{
    let ghost le = |x: (u32, u32), y: (u32, u32)| extent_le(x, y);
    let mut out: Vec<(u32, u32)> = Vec::new();
    let mut i: usize = 0;
    while i < v.len()
        invariant
            i <= v@.len(),
            sorted_by(out@, le),
            out@.to_multiset() == v@.take(i as int).to_multiset(),
            le == (|x: (u32, u32), y: (u32, u32)| extent_le(x, y)),
        decreases v@.len() - i,
    {
        let x: (u32, u32) = v[i];
        let mut pos: usize = 0;
        while pos < out.len() && (out[pos].0 < x.0 || (out[pos].0 == x.0 && out[pos].1 <= x.1))
            invariant
                pos <= out@.len(),
                forall|j: int| 0 <= j < pos ==> extent_le(#[trigger] out@[j], x),
            decreases out@.len() - pos,
        {
            pos = pos + 1;
        }
        let ghost before = out@;
        out.insert(pos, x);
        proof {
            assert forall|p: int, q: int| 0 <= p < q < out@.len() implies #[trigger] le(out@[p], out@[q]) by {
                if q < pos {
                } else if q == pos {
                    assert(extent_le(before[p], x));
                } else if p < pos {
                    assert(extent_le(before[p], x));
                    assert(!extent_le(before[pos as int], x));
                    assert(le(before[pos as int], before[q - 1]) || pos as int == q - 1);
                } else if p == pos {
                    assert(!extent_le(before[pos as int], x));
                    assert(le(before[pos as int], before[q - 1]) || pos as int == q - 1);
                } else {
                    assert(le(before[p - 1], before[q - 1]));
                }
            }
            lemma_insert_multiset(before, pos as int, x);
            assert(v@.take(i + 1) =~= v@.take(i as int).push(x));
        }
        i = i + 1;
    }
    proof {
        assert(v@.take(i as int) =~= v@);
        lemma_extent_le_total();
        v@.lemma_sort_by_ensures(le);
        vstd::seq_lib::lemma_sorted_unique(out@, v@.sort_by(le), le);
    }
    out
}

/// Appends an unmapped-region finding for each uncovered run of blocks that
/// follows the furthest end reached so far by the sorted extents.
fn check_unmapped(parts: &Vec<ApmPartition>, out: &mut Vec<Anomaly>)
    ensures
        anomaly_views(final(out)@) == anomaly_views(old(out)@) + anomalies_of(
            gap_findings(sorted_extents(views_of(parts@))),
        ),
{
    let ghost start = anomaly_views(out@);
    let ext: Vec<(u32, u32)> = collect_extents(parts);
    let s: Vec<(u32, u32)> = sort_extents(ext);
    let ghost sv = s@;
    if s.len() <= 1 {
        proof {
            assert(anomaly_views(out@) =~= start + anomalies_of(gap_findings(sv)));
        }
        return;
    }
    let mut m: u32 = s[0].1;
    let mut k: usize = 0;
    while k + 1 < s.len()
        invariant
            s@ == sv,
            sv.len() > 1,
            k + 1 <= sv.len(),
            m == max_end(sv, k as int),
            anomaly_views(out@) == start + anomalies_of(gaps_upto(sv, k as nat)),
        decreases sv.len() - k,
    {
        let next: (u32, u32) = s[k + 1];
        if m < u32::MAX && next.0 > m + 1 {
            push_kind(out, AnomalyKind::UnmappedRegion { start_block: m + 1, end_block: next.0 - 1 });
        }
        proof {
            lemma_anomalies_of_add(gaps_upto(sv, k as nat), gap_item(sv, k as int));
            assert(anomaly_views(out@) =~= start + anomalies_of(gaps_upto(sv, (k + 1) as nat)));
        }
        if m < next.1 {
            m = next.1;
        }
        k = k + 1;
    }
}

/// Appends the residual-entry finding.
fn check_residual(data: &[u8], block_size: u32, parts: &Vec<ApmPartition>, out: &mut Vec<Anomaly>)
    ensures
        anomaly_views(final(out)@) == anomaly_views(old(out)@) + anomalies_of(
            residual_finding(data@, block_size, views_of(parts@)),
        ),
{
    let ghost start = anomaly_views(out@);
    let ghost pv = views_of(parts@);
    if parts.len() == 0 {
        proof {
            assert(anomaly_views(out@) =~= start + anomalies_of(residual_finding(data@, block_size, pv)));
        }
        return;
    }
    let declared: u32 = parts[0].map_count;
    let blocks: u64 = 1 + declared as u64;
    proof {
        assert(block_size as u64 * blocks <= 0xffff_ffff * 0x1_0000_0000) by (nonlinear_arith)
            requires
                block_size <= 0xffff_ffff,
                blocks <= 0x1_0000_0000,
        ;
    }
    let off: u64 = block_size as u64 * blocks;
    if off + 2 <= data.len() as u64 {
        let o: usize = off as usize;
        if data[o] == 0x50 && data[o + 1] == 0x4D {
            let block: u32 = if declared == u32::MAX { 0 } else { declared + 1 };
            push_kind(out, AnomalyKind::ResidualEntry { block });
            proof {
                assert(anomaly_views(out@) =~= start + anomalies_of(residual_finding(data@, block_size, pv)));
            }
            return;
        }
    }
    proof {
        assert(anomaly_views(out@) =~= start + anomalies_of(residual_finding(data@, block_size, pv)));
    }
}

/// Grades a decoded map: every finding of the map-count, geometry, overlap,
/// type, unmapped-region and residual-entry passes, in that order. `data` is
/// the image the map was read from (block 0 first); the residual pass looks
/// in it for a `PM` signature past the declared map.
pub fn analyse_map(data: &[u8], map: ApplePartitionMap) -> (a: ApmAnalysis)
    ensures
        a@ == spec_analysis(data@, map@),
{
    let ghost m = map@;
    let ghost pv = m.partitions;
    let mut anomalies: Vec<Anomaly> = Vec::new();
    check_map_counts(&map.partitions, &mut anomalies);
    check_geometry(&map.partitions, map.device_block_count, &mut anomalies);
    check_overlaps(&map.partitions, &mut anomalies);
    check_types(&map.partitions, &mut anomalies);
    check_unmapped(&map.partitions, &mut anomalies);
    check_residual(data, map.block_size, &map.partitions, &mut anomalies);
    proof {
        let parts = pv;
        let n = parts.len();
        let k1 = map_count_upto(parts, n);
        let k2 = geometry_upto(parts, m.device_block_count, n);
        let k3 = overlap_upto(parts, n);
        let k4 = self_entry_finding(parts);
        let k5 = unknown_upto(parts, n);
        let k6 = gap_findings(sorted_extents(parts));
        let k7 = residual_finding(data@, m.block_size, parts);
        lemma_anomalies_of_add(k1, k2);
        lemma_anomalies_of_add(k1 + k2, k3);
        lemma_anomalies_of_add(k1 + k2 + k3, k4);
        lemma_anomalies_of_add(k1 + k2 + k3 + k4, k5);
        lemma_anomalies_of_add(k1 + k2 + k3 + k4 + k5, k6);
        lemma_anomalies_of_add(k1 + k2 + k3 + k4 + k5 + k6, k7);
        assert(anomaly_views(anomalies@) =~= anomalies_of(spec_findings(data@, m)));
    }
    ApmAnalysis {
        block_size: map.block_size,
        device_block_count: map.device_block_count,
        partitions: map.partitions,
        anomalies,
    }
}

/// Performs a full forensic analysis of an Apple Partition Map.
///
/// `data` must begin at the device start (block 0 = Driver Descriptor Map);
/// the device size comes from the map's own `sbBlkCount` field.
pub fn analyse(data: &[u8]) -> (r: Result<ApmAnalysis, Error>)
    ensures
        match r {
            Ok(a) => analyse_outcome(data@) == Ok::<AnalysisView, Error>(a@),
            Err(e) => analyse_outcome(data@) == Err::<AnalysisView, Error>(e),
        },
        r matches Ok(a) ==> forall|i: int|
            0 <= i < a.partitions@.len() ==> entry_text_decoded(
                data@,
                a.block_size * (1 + i),
                #[trigger] a.partitions@[i]@,
            ),
{
    if data.len() < MIN_IMAGE_LEN {
        return Err(Error::TooShort { need: MIN_IMAGE_LEN, got: data.len() });
    }
    match parse(data) {
        Some(map) => {
            let ghost before = map.partitions@;
            let a = analyse_map(data, map);
            proof {
                assert forall|i: int| 0 <= i < a.partitions@.len() implies #[trigger] a.partitions@[i]@
                    == before[i]@ by {
                    assert(views_of(a.partitions@)[i] == views_of(before)[i]);
                }
            }
            Ok(a)
        },
        None => Err(Error::NotApm),
    }
}

} // verus!
