//! Properties of the reader and the auditor that hold for every input.

use vstd::prelude::*;

use crate::analyse::{
    analyse_outcome, geometry_item, geometry_upto, gap_findings, gap_item,
    gaps_upto, map_count_item, map_count_upto, overlap_item, overlap_row, overlap_upto, overlaps,
    residual_finding, self_entry_finding, sorted_extents, spec_findings, unknown_item,
    unknown_upto, extent_le, extents_upto, max_end, Error,
};
use crate::findings::{kind_code, kind_note, kind_severity, AnalysisView, KindView};
use crate::map::{
    entries_from, entry_at, entry_present, spec_parse, PartitionView, MAX_PARTITIONS,
    MIN_IMAGE_LEN,
};
use crate::be::be16_at;
use crate::knowledge::{known_apm_type, partition_map_type_text};
use crate::map::sig_at;
use crate::map::spec_end_block;
use crate::map::MapView;
use crate::findings::{
    lemma_max_severity_is_maximum, rank, severity_label, spec_max_severity, AnomalyView, Severity,
};
use crate::report::{
    anomaly_section, partition_line, partition_lines, report_header, report_text, severity_section,
};
use crate::text::{dec, pad_left, pad_right};
use crate::volumes::spans_of;

verus! {

/// Entries read from `off` on: at most `k` of them, entry `i` decoded from the
/// `PM`-signed 92 bytes at `off + i * block_size`.
proof fn lemma_entries_from_shape(d: Seq<u8>, block_size: int, off: int, k: nat)
    ensures
        entries_from(d, block_size, off, k).len() <= k,
        forall|i: int|
            #![trigger entries_from(d, block_size, off, k)[i]]
            0 <= i < entries_from(d, block_size, off, k).len() ==> entries_from(
                d,
                block_size,
                off,
                k,
            )[i] == entry_at(d, off + i * block_size) && entry_present(d, off + i * block_size),
    decreases k,
{
    if k > 0 && entry_present(d, off) {
        lemma_entries_from_shape(d, block_size, off + block_size, (k - 1) as nat);
        let rest = entries_from(d, block_size, off + block_size, (k - 1) as nat);
        let all = entries_from(d, block_size, off, k);
        assert(all == seq![entry_at(d, off)] + rest);
        assert forall|i: int| 0 <= i < all.len() implies #[trigger] all[i] == entry_at(
            d,
            off + i * block_size,
        ) && entry_present(d, off + i * block_size) by {
            if i > 0 {
                assert(all[i] == rest[i - 1]);
                let j = off + i * block_size;
                let j2 = (off + block_size) + (i - 1) * block_size;
                assert(j == j2) by (nonlinear_arith)
                    requires
                        j == off + i * block_size,
                        j2 == (off + block_size) + (i - 1) * block_size,
                ;
                assert(entry_present(d, j2));
                assert(entry_present(d, j));
            } else {
                assert(i * block_size == 0) by (nonlinear_arith)
                    requires
                        i == 0,
                ;
            }
        }
    }
}

/// A decoded map has a non-zero 16-bit block size and at most
/// [`MAX_PARTITIONS`] entries, and entry `i` is the `PM`-signed entry at
/// block `1 + i`.
pub proof fn lemma_parse_shape(d: Seq<u8>)
    ensures
        spec_parse(d) matches Some(m) ==> {
            &&& 0 < m.block_size <= 0xffff
            &&& m.block_size == be16_at(d, 2)
            &&& m.partitions.len() <= MAX_PARTITIONS
            &&& forall|i: int|
                0 <= i < m.partitions.len() ==> #[trigger] m.partitions[i] == entry_at(
                    d,
                    m.block_size * (1 + i),
                ) && entry_present(d, m.block_size * (1 + i))
        },
{
    if spec_parse(d) is None {
        return;
    }
    let m = spec_parse(d).unwrap();
    let bs = be16_at(d, 2) as int;
    let k = crate::map::declared_entries(d, bs);
    lemma_entries_from_shape(d, bs, bs, k);
    let es = entries_from(d, bs, bs, k);
    assert(m.partitions == es);
    assert(m.block_size as int == bs);
    assert forall|i: int| 0 <= i < m.partitions.len() implies #[trigger] m.partitions[i] == entry_at(
        d,
        m.block_size * (1 + i),
    ) && entry_present(d, m.block_size * (1 + i)) by {
        let j = m.block_size * (1 + i);
        let j2 = bs + i * bs;
        assert(j == j2) by (nonlinear_arith)
            requires
                j == m.block_size * (1 + i),
                j2 == bs + i * bs,
                m.block_size as int == bs,
        ;
        assert(es[i] == entry_at(d, j2));
        assert(entry_present(d, j2));
    }
}

/// `analyse` fails with `TooShort` exactly on buffers under one 512-byte block,
/// with `NotApm` exactly on longer buffers that `parse` rejects, and succeeds
/// on every buffer that `parse` accepts, keeping the parsed geometry.
pub proof fn lemma_analyse_succeeds_exactly_on_apm(d: Seq<u8>)
    ensures
        analyse_outcome(d) is Err <==> (d.len() < MIN_IMAGE_LEN || spec_parse(d) is None),
        d.len() < MIN_IMAGE_LEN ==> analyse_outcome(d) == Err::<AnalysisView, Error>(
            Error::TooShort { need: MIN_IMAGE_LEN, got: d.len() as usize },
        ),
        d.len() >= MIN_IMAGE_LEN && spec_parse(d) is None ==> analyse_outcome(d) == Err::<
            AnalysisView,
            Error,
        >(Error::NotApm),
        analyse_outcome(d) matches Ok(a) ==> spec_parse(d) matches Some(m) && a.block_size
            == m.block_size && a.device_block_count == m.device_block_count && a.partitions
            == m.partitions,
{
    if d.len() >= MIN_IMAGE_LEN && spec_parse(d) is Some {
        assert(analyse_outcome(d) is Ok);
    }
}

/// Every anomaly of an analysis carries the severity, code and note that its
/// kind determines.
pub proof fn lemma_anomalies_follow_their_kind(d: Seq<u8>)
    ensures
        analyse_outcome(d) matches Ok(a) ==> forall|i: int|
            0 <= i < a.anomalies.len() ==> {
                let an = #[trigger] a.anomalies[i];
                &&& an.severity == kind_severity(an.kind)
                &&& an.code == kind_code(an.kind)
                &&& an.note == kind_note(an.kind)
            },
{
}

/// Which kinds each section of the analysis can produce.
proof fn lemma_section_kinds(d: Seq<u8>, block_size: u32, parts: Seq<PartitionView>, dev: u32, n: nat)
    ensures
        forall|i: int|
            0 <= i < map_count_upto(parts, n).len() ==> #[trigger] map_count_upto(parts, n)[i] is MapCountMismatch,
        forall|i: int|
            0 <= i < geometry_upto(parts, dev, n).len() ==> (#[trigger] geometry_upto(parts, dev, n)[i] is ZeroLengthPartition
                || geometry_upto(parts, dev, n)[i] is PartitionOutOfBounds),
        forall|i: int|
            0 <= i < overlap_upto(parts, n).len() ==> #[trigger] overlap_upto(parts, n)[i] is OverlappingPartitions,
        forall|i: int|
            0 <= i < self_entry_finding(parts).len() ==> #[trigger] self_entry_finding(parts)[i] is NoPartitionMapEntry,
        forall|i: int|
            0 <= i < unknown_upto(parts, n).len() ==> #[trigger] unknown_upto(parts, n)[i] is UnknownPartitionType,
        forall|i: int|
            0 <= i < gap_findings(sorted_extents(parts)).len() ==> #[trigger] gap_findings(sorted_extents(parts))[i] is UnmappedRegion,
        forall|i: int|
            0 <= i < residual_finding(d, block_size, parts).len() ==> #[trigger] residual_finding(d, block_size, parts)[i] is ResidualEntry,
    decreases n,
{
    if n > 0 {
        lemma_section_kinds(d, block_size, parts, dev, (n - 1) as nat);
        let m = (n - 1) as nat;
        assert(map_count_upto(parts, n) == map_count_upto(parts, m) + map_count_item(parts, m as int));
        assert(geometry_upto(parts, dev, n) == geometry_upto(parts, dev, m) + geometry_item(parts, dev, m as int));
        assert(unknown_upto(parts, n) == unknown_upto(parts, m) + unknown_item(parts, m as int));
        lemma_overlap_row_kinds(parts, m as int, parts.len() as int);
        assert(overlap_upto(parts, n) == overlap_upto(parts, m) + overlap_row(parts, m as int, parts.len() as int));
    }
    let s = sorted_extents(parts);
    if s.len() > 1 {
        lemma_gaps_kinds(s, (s.len() - 1) as nat);
    }
}

/// A row of the overlap pass holds only overlap findings.
proof fn lemma_overlap_row_kinds(parts: Seq<PartitionView>, a: int, m: int)
    ensures
        forall|i: int|
            0 <= i < overlap_row(parts, a, m).len() ==> #[trigger] overlap_row(parts, a, m)[i] is OverlappingPartitions,
    decreases m - a,
{
    if m > a + 1 {
        lemma_overlap_row_kinds(parts, a, m - 1);
        assert(overlap_row(parts, a, m) == overlap_row(parts, a, m - 1) + overlap_item(parts, a, m - 1));
    }
}

/// The gap pass holds only unmapped-region findings.
proof fn lemma_gaps_kinds(s: Seq<(u32, u32)>, n: nat)
    ensures
        forall|i: int| 0 <= i < gaps_upto(s, n).len() ==> #[trigger] gaps_upto(s, n)[i] is UnmappedRegion,
    decreases n,
{
    if n > 0 {
        lemma_gaps_kinds(s, (n - 1) as nat);
        assert(gaps_upto(s, n) == gaps_upto(s, (n - 1) as nat) + gap_item(s, n - 1));
    }
}

/// A map that declares no entries yields exactly one finding: the missing
/// self-describing `Apple_partition_map` entry.
pub proof fn lemma_empty_map_only_lacks_its_self_entry(d: Seq<u8>)
    requires
        spec_parse(d) matches Some(m) && m.partitions.len() == 0,
    ensures
        spec_findings(d, spec_parse(d).unwrap()) == seq![KindView::NoPartitionMapEntry],
{
    let m = spec_parse(d).unwrap();
    let parts = m.partitions;
    let e = extents_upto(parts, 0);
    let le = |x: (u32, u32), y: (u32, u32)| extent_le(x, y);
    crate::analyse::lemma_extent_le_total();
    e.lemma_sort_by_ensures(le);
    assert(e.sort_by(le).len() == 0) by {
        broadcast use vstd::seq_lib::group_to_multiset_ensures;
        assert(e.sort_by(le).to_multiset().len() == e.to_multiset().len());
    }
    assert(self_entry_finding(parts) == seq![KindView::NoPartitionMapEntry]);
    assert(spec_findings(d, m) =~= seq![KindView::NoPartitionMapEntry]);
}

/// A zero device block count means the device size is unknown: no
/// partition is ever judged out of bounds.
pub proof fn lemma_unknown_device_size_has_no_out_of_bounds(d: Seq<u8>)
    requires
        spec_parse(d) matches Some(m) && m.device_block_count == 0,
    ensures
        forall|i: int|
            0 <= i < spec_findings(d, spec_parse(d).unwrap()).len() ==> !(
            #[trigger] spec_findings(d, spec_parse(d).unwrap())[i] is PartitionOutOfBounds),
{
    let m = spec_parse(d).unwrap();
    let parts = m.partitions;
    let n = parts.len();
    lemma_section_kinds(d, m.block_size, parts, 0, n);
    lemma_geometry_unknown_size(parts, n);
    let f = spec_findings(d, m);
    let s1 = map_count_upto(parts, n);
    let s2 = geometry_upto(parts, 0, n);
    let s3 = overlap_upto(parts, n);
    let s4 = self_entry_finding(parts);
    let s5 = unknown_upto(parts, n);
    let s6 = gap_findings(sorted_extents(parts));
    let s7 = residual_finding(d, m.block_size, parts);
    lemma_no_oob_add(s1, s2);
    lemma_no_oob_add(s1 + s2, s3);
    lemma_no_oob_add(s1 + s2 + s3, s4);
    lemma_no_oob_add(s1 + s2 + s3 + s4, s5);
    lemma_no_oob_add(s1 + s2 + s3 + s4 + s5, s6);
    lemma_no_oob_add(s1 + s2 + s3 + s4 + s5 + s6, s7);
}

/// No finding of `s` is an out-of-bounds one.
spec fn no_oob(s: Seq<KindView>) -> bool {
    forall|i: int| 0 <= i < s.len() ==> !(#[trigger] s[i] is PartitionOutOfBounds)
}

proof fn lemma_no_oob_add(a: Seq<KindView>, b: Seq<KindView>)
    requires
        no_oob(a),
        no_oob(b),
    ensures
        no_oob(a + b),
{
    assert forall|i: int| 0 <= i < (a + b).len() implies !(#[trigger] (a + b)[i] is PartitionOutOfBounds) by {
        if i >= a.len() {
            assert((a + b)[i] == b[i - a.len()]);
        }
    }
}

/// With no device size, the geometry pass only reports zero-length entries.
proof fn lemma_geometry_unknown_size(parts: Seq<PartitionView>, n: nat)
    ensures
        forall|i: int|
            0 <= i < geometry_upto(parts, 0, n).len() ==> #[trigger] geometry_upto(parts, 0, n)[i] is ZeroLengthPartition,
    decreases n,
{
    if n > 0 {
        lemma_geometry_unknown_size(parts, (n - 1) as nat);
        assert(geometry_upto(parts, 0, n) == geometry_upto(parts, 0, (n - 1) as nat) + geometry_item(parts, 0, n - 1));
    }
}

/// A value occurs in a concatenation exactly when it occurs in one of the parts.
proof fn lemma_contains_add<A>(s: Seq<A>, t: Seq<A>, v: A)
    ensures
        (s + t).contains(v) <==> s.contains(v) || t.contains(v),
{
    if s.contains(v) {
        let i = choose|i: int| 0 <= i < s.len() && s[i] == v;
        assert((s + t)[i] == v);
    }
    if t.contains(v) {
        let i = choose|i: int| 0 <= i < t.len() && t[i] == v;
        assert((s + t)[s.len() + i] == v);
    }
    if (s + t).contains(v) {
        let i = choose|i: int| 0 <= i < (s + t).len() && (s + t)[i] == v;
        if i < s.len() {
            assert(s[i] == v);
        } else {
            assert(t[i - s.len()] == v);
        }
    }
}

/// Row `a` of the overlap pass reports `(a, y)` exactly for the `y` in
/// `a < y < m` whose partition overlaps partition `a`.
proof fn lemma_overlap_row_contents(parts: Seq<PartitionView>, a: int, m: int, x: usize, y: usize)
    requires
        0 <= a,
        m <= parts.len() <= MAX_PARTITIONS,
    ensures
        overlap_row(parts, a, m).contains(KindView::OverlappingPartitions { a: x, b: y }) <==> (
        x == a && a < y < m && overlaps(parts[a], parts[y as int])),
    decreases m - a,
{
    let v = KindView::OverlappingPartitions { a: x, b: y };
    if m > a + 1 {
        lemma_overlap_row_contents(parts, a, m - 1, x, y);
        let item = overlap_item(parts, a, m - 1);
        assert(overlap_row(parts, a, m) == overlap_row(parts, a, m - 1) + item);
        lemma_contains_add(overlap_row(parts, a, m - 1), item, v);
        if item.contains(v) {
            assert(item[0] == v);
        }
        if x == a && y == m - 1 && overlaps(parts[a], parts[y as int]) {
            assert(item[0] == v);
        }
    }
}

/// The overlap pass reports `(x, y)` exactly when `x < y` index two
/// overlapping non-empty partitions (for rows `x < n`).
proof fn lemma_overlap_upto_contents(parts: Seq<PartitionView>, n: nat, x: usize, y: usize)
    requires
        n <= parts.len() <= MAX_PARTITIONS,
    ensures
        overlap_upto(parts, n).contains(KindView::OverlappingPartitions { a: x, b: y }) <==> (x
            < n && x < y < parts.len() && overlaps(parts[x as int], parts[y as int])),
    decreases n,
{
    let v = KindView::OverlappingPartitions { a: x, b: y };
    if n > 0 {
        lemma_overlap_upto_contents(parts, (n - 1) as nat, x, y);
        let row = overlap_row(parts, n - 1, parts.len() as int);
        lemma_overlap_row_contents(parts, n - 1, parts.len() as int, x, y);
        assert(overlap_upto(parts, n) == overlap_upto(parts, (n - 1) as nat) + row);
        lemma_contains_add(overlap_upto(parts, (n - 1) as nat), row, v);
    }
}

/// No element of `s` is an overlap finding.
spec fn no_overlap_kind(s: Seq<KindView>) -> bool {
    forall|i: int| 0 <= i < s.len() ==> !(#[trigger] s[i] is OverlappingPartitions)
}

proof fn lemma_no_overlap_kind_excludes(s: Seq<KindView>, x: usize, y: usize)
    requires
        no_overlap_kind(s),
    ensures
        !s.contains(KindView::OverlappingPartitions { a: x, b: y }),
{
    if s.contains(KindView::OverlappingPartitions { a: x, b: y }) {
        let i = choose|i: int| 0 <= i < s.len() && s[i] == KindView::OverlappingPartitions { a: x, b: y };
        assert(s[i] is OverlappingPartitions);
    }
}

/// The analysis reports partitions `a` and `b` as overlapping exactly when
/// `a < b` and both are non-empty with intersecting inclusive block ranges;
/// in particular an empty partition is never part of an overlap.
pub proof fn lemma_overlap_findings_are_the_overlapping_pairs(d: Seq<u8>, a: usize, b: usize)
    requires
        spec_parse(d) is Some,
    ensures
        ({
            let m = spec_parse(d).unwrap();
            spec_findings(d, m).contains(KindView::OverlappingPartitions { a, b }) <==> (a < b
                < m.partitions.len() && overlaps(m.partitions[a as int], m.partitions[b as int]))
        }),
{
    let m = spec_parse(d).unwrap();
    lemma_parse_shape(d);
    let parts = m.partitions;
    let n = parts.len();
    let v = KindView::OverlappingPartitions { a, b };
    lemma_section_kinds(d, m.block_size, parts, m.device_block_count, n);
    let s1 = map_count_upto(parts, n);
    let s2 = geometry_upto(parts, m.device_block_count, n);
    let s3 = overlap_upto(parts, n);
    let s4 = self_entry_finding(parts);
    let s5 = unknown_upto(parts, n);
    let s6 = gap_findings(sorted_extents(parts));
    let s7 = residual_finding(d, m.block_size, parts);
    assert(no_overlap_kind(s1));
    assert(no_overlap_kind(s2));
    assert(no_overlap_kind(s4));
    assert(no_overlap_kind(s5));
    assert(no_overlap_kind(s6));
    assert(no_overlap_kind(s7));
    lemma_no_overlap_kind_excludes(s1, a, b);
    lemma_no_overlap_kind_excludes(s2, a, b);
    lemma_no_overlap_kind_excludes(s4, a, b);
    lemma_no_overlap_kind_excludes(s5, a, b);
    lemma_no_overlap_kind_excludes(s6, a, b);
    lemma_no_overlap_kind_excludes(s7, a, b);
    lemma_overlap_upto_contents(parts, n, a, b);
    lemma_contains_add(s1, s2, v);
    lemma_contains_add(s1 + s2, s3, v);
    lemma_contains_add(s1 + s2 + s3, s4, v);
    lemma_contains_add(s1 + s2 + s3 + s4, s5, v);
    lemma_contains_add(s1 + s2 + s3 + s4 + s5, s6, v);
    lemma_contains_add(s1 + s2 + s3 + s4 + s5 + s6, s7, v);
    assert(spec_findings(d, m) == s1 + s2 + s3 + s4 + s5 + s6 + s7);
}

/// The inclusive extent `(start, end)` of a partition.
spec fn extent_of(p: PartitionView) -> (u32, u32) {
    (p.start_block, spec_end_block(p.start_block, p.block_count))
}

/// Each collected extent is that of some non-empty partition among `0..n`,
/// and starts no later than it ends.
proof fn lemma_extents_come_from_partitions(parts: Seq<PartitionView>, n: nat)
    requires
        n <= parts.len(),
    ensures
        forall|i: int|
            0 <= i < extents_upto(parts, n).len() ==> (#[trigger] extents_upto(parts, n)[i]).0
                <= extents_upto(parts, n)[i].1 && exists|j: int|
                0 <= j < n && parts[j].block_count > 0 && extents_upto(parts, n)[i]
                    == extent_of(parts[j]),
    decreases n,
{
    if n > 0 {
        lemma_extents_come_from_partitions(parts, (n - 1) as nat);
        let prev = extents_upto(parts, (n - 1) as nat);
        let cur = extents_upto(parts, n);
        assert forall|i: int| 0 <= i < cur.len() implies (#[trigger] cur[i]).0 <= cur[i].1
            && exists|j: int| 0 <= j < n && parts[j].block_count > 0 && cur[i] == extent_of(parts[j]) by {
            if i < prev.len() {
                assert(cur[i] == prev[i]);
                let j = choose|j: int| 0 <= j < n - 1 && parts[j].block_count > 0 && prev[i] == extent_of(parts[j]);
                assert(0 <= j < n && parts[j].block_count > 0 && cur[i] == extent_of(parts[j]));
            } else {
                assert(cur[i] == extent_of(parts[n - 1]));
            }
        }
    }
}

/// Every non-empty partition among `0..n` has its extent collected.
proof fn lemma_partitions_have_extents(parts: Seq<PartitionView>, n: nat, j: int)
    requires
        n <= parts.len(),
        0 <= j < n,
        parts[j].block_count > 0,
    ensures
        extents_upto(parts, n).contains(extent_of(parts[j])),
    decreases n,
{
    let prev = extents_upto(parts, (n - 1) as nat);
    let cur = extents_upto(parts, n);
    if j < n - 1 {
        lemma_partitions_have_extents(parts, (n - 1) as nat, j);
        let i = choose|i: int| 0 <= i < prev.len() && prev[i] == extent_of(parts[j]);
        assert(cur[i] == prev[i]);
    } else {
        assert(cur[prev.len() as int] == extent_of(parts[j]));
    }
}

/// Block `x` lies inside the non-empty partition `p`.
pub open spec fn covers(p: PartitionView, x: int) -> bool {
    p.block_count > 0 && p.start_block <= x <= spec_end_block(p.start_block, p.block_count)
}

/// Some non-empty partition covers block `x`.
pub open spec fn block_covered(parts: Seq<PartitionView>, x: int) -> bool {
    exists|j: int| 0 <= j < parts.len() && #[trigger] covers(parts[j], x)
}

/// Some non-empty partition ends at block `b`.
pub open spec fn some_end_at(parts: Seq<PartitionView>, b: int) -> bool {
    exists|j: int|
        0 <= j < parts.len() && (#[trigger] parts[j]).block_count > 0 && spec_end_block(
            parts[j].start_block,
            parts[j].block_count,
        ) == b
}

/// Some non-empty partition starts at block `b`.
pub open spec fn some_start_at(parts: Seq<PartitionView>, b: int) -> bool {
    exists|j: int|
        0 <= j < parts.len() && (#[trigger] parts[j]).block_count > 0 && parts[j].start_block == b
}

/// The sorted extents are exactly the extents of the non-empty partitions,
/// ordered by start, each starting no later than it ends.
proof fn lemma_sorted_extents_members(parts: Seq<PartitionView>)
    ensures
        forall|x: (u32, u32)|
            #[trigger] sorted_extents(parts).contains(x) ==> exists|j: int|
                0 <= j < parts.len() && parts[j].block_count > 0 && x == extent_of(
                    #[trigger] parts[j],
                ),
        forall|j: int|
            0 <= j < parts.len() && (#[trigger] parts[j]).block_count > 0 ==> sorted_extents(
                parts,
            ).contains(extent_of(parts[j])),
        forall|t1: int, t2: int|
            0 <= t1 < t2 < sorted_extents(parts).len() ==> (#[trigger] sorted_extents(parts)[t1]).0
                <= (#[trigger] sorted_extents(parts)[t2]).0,
        forall|t: int|
            0 <= t < sorted_extents(parts).len() ==> (#[trigger] sorted_extents(parts)[t]).0
                <= sorted_extents(parts)[t].1,
{
    broadcast use vstd::seq_lib::group_to_multiset_ensures;

    let n = parts.len();
    let ex = extents_upto(parts, n);
    let le = |x: (u32, u32), y: (u32, u32)| extent_le(x, y);
    let sx = ex.sort_by(le);
    assert(sorted_extents(parts) == sx);
    crate::analyse::lemma_extent_le_total();
    ex.lemma_sort_by_ensures(le);
    lemma_extents_come_from_partitions(parts, n);
    assert forall|x: (u32, u32)| #[trigger] sx.contains(x) implies exists|j: int|
        0 <= j < parts.len() && parts[j].block_count > 0 && x == extent_of(#[trigger] parts[j]) by {
        assert(sx.to_multiset().count(x) > 0);
        assert(ex.contains(x));
        let i = choose|i: int| 0 <= i < ex.len() && ex[i] == x;
        assert(ex[i] == x);
    }
    assert forall|j: int| 0 <= j < parts.len() && (#[trigger] parts[j]).block_count > 0 implies sx.contains(
        extent_of(parts[j]),
    ) by {
        lemma_partitions_have_extents(parts, n, j);
        assert(ex.to_multiset().count(extent_of(parts[j])) > 0);
    }
    assert forall|t1: int, t2: int| 0 <= t1 < t2 < sx.len() implies (#[trigger] sx[t1]).0 <= (
    #[trigger] sx[t2]).0 by {
        assert(le(sx[t1], sx[t2]));
    }
    assert forall|t: int| 0 <= t < sx.len() implies (#[trigger] sx[t]).0 <= sx[t].1 by {
        assert(sx.contains(sx[t]));
        let j = choose|j: int| 0 <= j < parts.len() && parts[j].block_count > 0 && sx[t] == extent_of(
            #[trigger] parts[j],
        );
        assert(sx[t] == extent_of(parts[j]));
    }
}

/// `max_end(s, k)` is the last block of some extent among `0..=k`, and no
/// extent among them ends later.
proof fn lemma_max_end_bounds(s: Seq<(u32, u32)>, k: int)
    requires
        0 <= k < s.len(),
    ensures
        forall|t: int| 0 <= t <= k ==> (#[trigger] s[t]).1 <= max_end(s, k),
        exists|t: int| 0 <= t <= k && (#[trigger] s[t]).1 == max_end(s, k),
    decreases k,
{
    if k > 0 {
        lemma_max_end_bounds(s, k - 1);
        let t0 = choose|t: int| 0 <= t <= k - 1 && (#[trigger] s[t]).1 == max_end(s, k - 1);
        if max_end(s, k - 1) < s[k].1 {
            assert(s[k].1 == max_end(s, k));
        } else {
            assert(s[t0].1 == max_end(s, k));
        }
    } else {
        assert(s[0].1 == max_end(s, 0));
    }
}

/// The gap pass over extents `1..=n` reports `v` exactly when the gap before
/// some extent `k + 1` with `k < n` is `v`.
proof fn lemma_gaps_contents(s: Seq<(u32, u32)>, n: nat, v: KindView)
    requires
        n + 1 <= s.len(),
    ensures
        gaps_upto(s, n).contains(v) <==> exists|k: int| 0 <= k < n && #[trigger] gap_item(s, k).contains(v),
    decreases n,
{
    if n > 0 {
        lemma_gaps_contents(s, (n - 1) as nat, v);
        let item = gap_item(s, n - 1);
        assert(gaps_upto(s, n) == gaps_upto(s, (n - 1) as nat) + item);
        lemma_contains_add(gaps_upto(s, (n - 1) as nat), item, v);
        if exists|k: int| 0 <= k < n && #[trigger] gap_item(s, k).contains(v) {
            let k = choose|k: int| 0 <= k < n && #[trigger] gap_item(s, k).contains(v);
            if k < n - 1 {
                assert(gaps_upto(s, (n - 1) as nat).contains(v));
            }
        }
    }
}

/// The first sorted extent, among `0..=hi`, that starts at or after block `b`.
proof fn first_start_at_least(s: Seq<(u32, u32)>, b: int, hi: int) -> (i0: int)
    requires
        0 <= hi < s.len(),
        s[hi].0 >= b,
        forall|t1: int, t2: int| 0 <= t1 < t2 < s.len() ==> (#[trigger] s[t1]).0 <= (#[trigger] s[t2]).0,
    ensures
        0 <= i0 <= hi,
        s[i0].0 >= b,
        forall|t: int| 0 <= t < i0 ==> (#[trigger] s[t]).0 < b,
    decreases hi,
{
    if hi == 0 {
        0
    } else if s[hi - 1].0 >= b {
        first_start_at_least(s, b, hi - 1)
    } else {
        assert forall|t: int| 0 <= t < hi implies (#[trigger] s[t]).0 < b by {
            if t < hi - 1 {
                assert(s[t].0 <= s[hi - 1].0);
            }
        }
        hi
    }
}

/// An unmapped region is reported exactly for each maximal run of blocks
/// that no non-empty partition covers, lying between the last block of some
/// non-empty partition and the first block of another: the run `s..=e` is
/// non-empty, every block in it is uncovered, block `s - 1` ends a partition
/// and block `e + 1` starts one. Free space before the first or after the
/// last partition is never reported.
pub proof fn lemma_unmapped_regions_are_maximal_uncovered_runs(d: Seq<u8>, s: u32, e: u32)
    requires
        spec_parse(d) is Some,
    ensures
        ({
            let m = spec_parse(d).unwrap();
            let parts = m.partitions;
            spec_findings(d, m).contains(KindView::UnmappedRegion { start_block: s, end_block: e })
                <==> {
                &&& 1 <= s <= e
                &&& forall|x: int| s <= x <= e ==> !block_covered(parts, x)
                &&& some_end_at(parts, s - 1)
                &&& some_start_at(parts, e + 1)
            }
        }),
{
    let m = spec_parse(d).unwrap();
    let parts = m.partitions;
    let v = KindView::UnmappedRegion { start_block: s, end_block: e };
    lemma_findings_contains(d, v);
    lemma_sorted_extents_members(parts);
    let sx = sorted_extents(parts);
    let g = gap_findings(sx);
    if g.contains(v) {
        assert(sx.len() > 1);
        lemma_gaps_contents(sx, (sx.len() - 1) as nat, v);
        let k = choose|k: int| 0 <= k < sx.len() - 1 && #[trigger] gap_item(sx, k).contains(v);
        let mx = max_end(sx, k);
        assert(gap_item(sx, k)[0] == v);
        assert(sx[k + 1].0 > mx + 1 && s == mx + 1 && e == sx[k + 1].0 - 1);
        lemma_max_end_bounds(sx, k);
        let t0 = choose|t: int| 0 <= t <= k && (#[trigger] sx[t]).1 == mx;
        assert(sx.contains(sx[t0]));
        let j0 = choose|j: int| 0 <= j < parts.len() && parts[j].block_count > 0 && sx[t0] == extent_of(
            #[trigger] parts[j],
        );
        assert(parts[j0].block_count > 0);
        assert(some_end_at(parts, s - 1));
        assert(sx.contains(sx[k + 1]));
        let j1 = choose|j: int| 0 <= j < parts.len() && parts[j].block_count > 0 && sx[k + 1] == extent_of(
            #[trigger] parts[j],
        );
        assert(parts[j1].block_count > 0);
        assert(some_start_at(parts, e + 1));
        assert forall|x: int| s <= x <= e implies !block_covered(parts, x) by {
            if block_covered(parts, x) {
                let j = choose|j: int| 0 <= j < parts.len() && #[trigger] covers(parts[j], x);
                assert(parts[j].block_count > 0);
                assert(sx.contains(extent_of(parts[j])));
                let t = choose|t: int| 0 <= t < sx.len() && sx[t] == extent_of(parts[j]);
                if t <= k {
                    assert(sx[t].1 <= mx);
                } else if t > k + 1 {
                    assert(sx[k + 1].0 <= sx[t].0);
                }
            }
        }
    }
    if 1 <= s <= e && (forall|x: int| s <= x <= e ==> !block_covered(parts, x)) && some_end_at(parts, s - 1)
        && some_start_at(parts, e + 1) {
        let j0 = choose|j: int|
            0 <= j < parts.len() && (#[trigger] parts[j]).block_count > 0 && spec_end_block(
                parts[j].start_block,
                parts[j].block_count,
            ) == s - 1;
        let j1 = choose|j: int|
            0 <= j < parts.len() && (#[trigger] parts[j]).block_count > 0 && parts[j].start_block == e + 1;
        assert(sx.contains(extent_of(parts[j0])));
        assert(sx.contains(extent_of(parts[j1])));
        let tj = choose|t: int| 0 <= t < sx.len() && sx[t] == extent_of(parts[j0]);
        let tq = choose|t: int| 0 <= t < sx.len() && sx[t] == extent_of(parts[j1]);
        assert(sx[tj].1 == s - 1);
        assert(sx[tq].0 == e + 1);
        let i0 = first_start_at_least(sx, s as int, tq);
        assert(sx[tj].0 <= sx[tj].1);
        if tj >= i0 {
            if tj > i0 {
                assert(sx[i0].0 <= sx[tj].0);
            }
            assert(false);
        }
        let k = i0 - 1;
        lemma_max_end_bounds(sx, k);
        let mx = max_end(sx, k);
        assert(sx[tj].1 <= mx);
        let ts = choose|t: int| 0 <= t <= k && (#[trigger] sx[t]).1 == mx;
        if mx >= s {
            assert(sx[ts].0 < s);
            assert(sx.contains(sx[ts]));
            let js = choose|j: int| 0 <= j < parts.len() && parts[j].block_count > 0 && sx[ts] == extent_of(
                #[trigger] parts[j],
            );
            assert(covers(parts[js], s as int));
            assert(block_covered(parts, s as int));
            assert(false);
        }
        assert(mx == s - 1);
        if sx[i0].0 <= e {
            assert(sx.contains(sx[i0]));
            let ji = choose|j: int| 0 <= j < parts.len() && parts[j].block_count > 0 && sx[i0] == extent_of(
                #[trigger] parts[j],
            );
            assert(sx[i0].0 <= sx[i0].1);
            assert(covers(parts[ji], sx[i0].0 as int));
            assert(block_covered(parts, sx[i0].0 as int));
            assert(false);
        }
        if i0 < tq {
            assert(sx[i0].0 <= sx[tq].0);
        }
        assert(sx[i0].0 == e + 1);
        assert(gap_item(sx, k)[0] == v);
        assert(gap_item(sx, k).contains(v));
        lemma_gaps_contents(sx, (sx.len() - 1) as nat, v);
        assert(g.contains(v));
    }
}

/// When both are unmapped regions, `a` ends before `b` begins.
pub open spec fn regions_in_order(a: KindView, b: KindView) -> bool {
    match (a, b) {
        (
            KindView::UnmappedRegion { end_block: e1, .. },
            KindView::UnmappedRegion { start_block: s2, .. },
        ) => e1 < s2,
        _ => true,
    }
}

/// The gap pass over extents `1..=n` reports non-empty runs, each ending
/// before the furthest end reached by extents `0..=n`, in increasing order.
proof fn lemma_gaps_in_order(s: Seq<(u32, u32)>, n: nat)
    requires
        n + 1 <= s.len(),
        forall|t: int| 0 <= t < s.len() ==> (#[trigger] s[t]).0 <= s[t].1,
    ensures
        forall|i: int|
            0 <= i < gaps_upto(s, n).len() ==> (#[trigger] gaps_upto(s, n)[i] matches KindView::UnmappedRegion {
                start_block: a,
                end_block: b,
            } && a <= b && b < max_end(s, n as int)),
        forall|i: int, j: int|
            0 <= i < j < gaps_upto(s, n).len() ==> regions_in_order(
                #[trigger] gaps_upto(s, n)[i],
                #[trigger] gaps_upto(s, n)[j],
            ),
    decreases n,
{
    if n > 0 {
        lemma_gaps_in_order(s, (n - 1) as nat);
        let g0 = gaps_upto(s, (n - 1) as nat);
        let item = gap_item(s, n - 1);
        let g = gaps_upto(s, n);
        assert(g == g0 + item);
        let m0 = max_end(s, n - 1);
        assert(max_end(s, n as int) >= m0);
        assert(max_end(s, n as int) >= s[n as int].1);
        assert forall|i: int| 0 <= i < g.len() implies (#[trigger] g[i] matches KindView::UnmappedRegion {
            start_block: a,
            end_block: b,
        } && a <= b && b < max_end(s, n as int)) by {
            if i < g0.len() {
                assert(g[i] == g0[i]);
            } else {
                assert(g[i] == item[0]);
            }
        }
        assert forall|i: int, j: int| 0 <= i < j < g.len() implies regions_in_order(
            #[trigger] g[i],
            #[trigger] g[j],
        ) by {
            assert(g[i] == g0[i]);
            if j < g0.len() {
                assert(g[j] == g0[j]);
            } else {
                assert(g[j] == item[0]);
            }
        }
    }
}

/// Unmapped regions are reported in increasing block order, each ending
/// before the next one begins, so no uncovered run is reported twice.
pub proof fn lemma_unmapped_regions_in_block_order(d: Seq<u8>)
    requires
        spec_parse(d) is Some,
    ensures
        ({
            let f = spec_findings(d, spec_parse(d).unwrap());
            forall|i: int, j: int| 0 <= i < j < f.len() ==> regions_in_order(#[trigger] f[i], #[trigger] f[j])
        }),
{
    let m = spec_parse(d).unwrap();
    let parts = m.partitions;
    let f = spec_findings(d, m);
    lemma_pass_outputs(d);
    let ss = pass_outputs(d, m);
    let pre = ss[0] + ss[1] + ss[2] + ss[3] + ss[4];
    let g = ss[5];
    let r = ss[6];
    assert(f == pre + g + r);
    assert forall|i: int| 0 <= i < pre.len() implies !(#[trigger] pre[i] is UnmappedRegion) by {
        let v = pre[i];
        if v is UnmappedRegion {
            assert(pre.contains(v));
            assert forall|q: int| 0 <= q < 5 implies !(#[trigger] ss[q]).contains(v) by {
                lemma_other_pass_excludes(ss[q], q + 1, v);
            }
            lemma_contains_add(ss[0], ss[1], v);
            lemma_contains_add(ss[0] + ss[1], ss[2], v);
            lemma_contains_add(ss[0] + ss[1] + ss[2], ss[3], v);
            lemma_contains_add(ss[0] + ss[1] + ss[2] + ss[3], ss[4], v);
        }
    }
    assert forall|i: int| 0 <= i < r.len() implies !(#[trigger] r[i] is UnmappedRegion) by {
        let v = r[i];
        if v is UnmappedRegion {
            assert(r.contains(v));
            lemma_other_pass_excludes(r, 7, v);
        }
    }
    let sx = sorted_extents(parts);
    lemma_sorted_extents_members(parts);
    if sx.len() > 1 {
        lemma_gaps_in_order(sx, (sx.len() - 1) as nat);
    }
    assert forall|i: int, j: int| 0 <= i < j < f.len() implies regions_in_order(
        #[trigger] f[i],
        #[trigger] f[j],
    ) by {
        if f[i] is UnmappedRegion && f[j] is UnmappedRegion {
            if i < pre.len() {
                assert(f[i] == pre[i]);
            } else if j >= pre.len() + g.len() {
                assert(f[j] == r[j - pre.len() - g.len()]);
            } else {
                assert(f[i] == g[i - pre.len()]);
                assert(f[j] == g[j - pre.len()]);
            }
        }
    }
}

/// The pass of the analysis that produces a kind of finding.
spec fn pass_of(k: KindView) -> int {
    match k {
        KindView::MapCountMismatch { .. } => 1,
        KindView::ZeroLengthPartition { .. } => 2,
        KindView::PartitionOutOfBounds { .. } => 2,
        KindView::OverlappingPartitions { .. } => 3,
        KindView::NoPartitionMapEntry => 4,
        KindView::UnknownPartitionType { .. } => 5,
        KindView::UnmappedRegion { .. } => 6,
        KindView::ResidualEntry { .. } => 7,
    }
}

/// Every finding of `s` comes from pass `p`.
spec fn all_from_pass(s: Seq<KindView>, p: int) -> bool {
    forall|i: int| 0 <= i < s.len() ==> pass_of(#[trigger] s[i]) == p
}

proof fn lemma_other_pass_excludes(s: Seq<KindView>, p: int, v: KindView)
    requires
        all_from_pass(s, p),
        pass_of(v) != p,
    ensures
        !s.contains(v),
{
    if s.contains(v) {
        let i = choose|i: int| 0 <= i < s.len() && s[i] == v;
        assert(pass_of(s[i]) == p);
    }
}

/// The outputs of the seven passes, in the order the analysis runs them.
spec fn pass_outputs(d: Seq<u8>, m: MapView) -> Seq<Seq<KindView>> {
    let parts = m.partitions;
    let n = parts.len();
    seq![
        map_count_upto(parts, n),
        geometry_upto(parts, m.device_block_count, n),
        overlap_upto(parts, n),
        self_entry_finding(parts),
        unknown_upto(parts, n),
        gap_findings(sorted_extents(parts)),
        residual_finding(d, m.block_size, parts),
    ]
}

/// The findings are the pass outputs in order, and pass `q + 1` yields only
/// its own kinds.
proof fn lemma_pass_outputs(d: Seq<u8>)
    requires
        spec_parse(d) is Some,
    ensures
        ({
            let m = spec_parse(d).unwrap();
            let ss = pass_outputs(d, m);
            &&& ss.len() == 7
            &&& forall|q: int| 0 <= q < 7 ==> all_from_pass(#[trigger] ss[q], q + 1)
            &&& spec_findings(d, m) == ss[0] + ss[1] + ss[2] + ss[3] + ss[4] + ss[5] + ss[6]
        }),
{
    let m = spec_parse(d).unwrap();
    let parts = m.partitions;
    let n = parts.len();
    lemma_section_kinds(d, m.block_size, parts, m.device_block_count, n);
    let ss = pass_outputs(d, m);
    assert forall|q: int| 0 <= q < 7 implies all_from_pass(#[trigger] ss[q], q + 1) by {
        let t = ss[q];
        assert forall|i: int| 0 <= i < t.len() implies pass_of(#[trigger] t[i]) == q + 1 by {
            if q == 0 {
                assert(t[i] is MapCountMismatch);
            } else if q == 1 {
                assert(t[i] is ZeroLengthPartition || t[i] is PartitionOutOfBounds);
            } else if q == 2 {
                assert(t[i] is OverlappingPartitions);
            } else if q == 3 {
                assert(t[i] is NoPartitionMapEntry);
            } else if q == 4 {
                assert(t[i] is UnknownPartitionType);
            } else if q == 5 {
                assert(t[i] is UnmappedRegion);
            } else {
                assert(t[i] is ResidualEntry);
            }
        }
    }
    assert(spec_findings(d, m) == ss[0] + ss[1] + ss[2] + ss[3] + ss[4] + ss[5] + ss[6]);
}

/// A finding occurs in the analysis exactly when it occurs in the output of
/// the pass that produces its kind.
proof fn lemma_findings_contains(d: Seq<u8>, v: KindView)
    requires
        spec_parse(d) is Some,
    ensures
        ({
            let m = spec_parse(d).unwrap();
            let parts = m.partitions;
            let n = parts.len();
            spec_findings(d, m).contains(v) <==> match v {
                KindView::MapCountMismatch { .. } => map_count_upto(parts, n).contains(v),
                KindView::ZeroLengthPartition { .. } => geometry_upto(parts, m.device_block_count, n).contains(v),
                KindView::PartitionOutOfBounds { .. } => geometry_upto(parts, m.device_block_count, n).contains(v),
                KindView::OverlappingPartitions { .. } => overlap_upto(parts, n).contains(v),
                KindView::NoPartitionMapEntry => self_entry_finding(parts).contains(v),
                KindView::UnknownPartitionType { .. } => unknown_upto(parts, n).contains(v),
                KindView::UnmappedRegion { .. } => gap_findings(sorted_extents(parts)).contains(v),
                KindView::ResidualEntry { .. } => residual_finding(d, m.block_size, parts).contains(v),
            }
        }),
{
    let m = spec_parse(d).unwrap();
    lemma_pass_outputs(d);
    let ss = pass_outputs(d, m);
    let own = pass_of(v) - 1;
    assert forall|q: int| 0 <= q < 7 && q != own implies !(#[trigger] ss[q]).contains(v) by {
        lemma_other_pass_excludes(ss[q], q + 1, v);
    }
    lemma_contains_add(ss[0], ss[1], v);
    lemma_contains_add(ss[0] + ss[1], ss[2], v);
    lemma_contains_add(ss[0] + ss[1] + ss[2], ss[3], v);
    lemma_contains_add(ss[0] + ss[1] + ss[2] + ss[3], ss[4], v);
    lemma_contains_add(ss[0] + ss[1] + ss[2] + ss[3] + ss[4], ss[5], v);
    lemma_contains_add(ss[0] + ss[1] + ss[2] + ss[3] + ss[4] + ss[5], ss[6], v);
    assert(spec_findings(d, m) == ss[0] + ss[1] + ss[2] + ss[3] + ss[4] + ss[5] + ss[6]);
}

/// The map-count pass over entries `0..n` reports `(i, found, expected)`
/// exactly for the entries whose map count differs from the first entry's.
proof fn lemma_map_count_contents(parts: Seq<PartitionView>, n: nat, i: usize, found: u32, expected: u32)
    requires
        n <= parts.len() <= MAX_PARTITIONS,
    ensures
        map_count_upto(parts, n).contains(
            KindView::MapCountMismatch { index: i, found, expected },
        ) <==> (i < n && found == parts[i as int].map_count && expected == parts[0].map_count
            && found != expected),
    decreases n,
{
    let v = KindView::MapCountMismatch { index: i, found, expected };
    if n > 0 {
        lemma_map_count_contents(parts, (n - 1) as nat, i, found, expected);
        let item = map_count_item(parts, n - 1);
        assert(map_count_upto(parts, n) == map_count_upto(parts, (n - 1) as nat) + item);
        lemma_contains_add(map_count_upto(parts, (n - 1) as nat), item, v);
        if item.contains(v) {
            assert(item[0] == v);
        }
        if i == n - 1 && found == parts[i as int].map_count && expected == parts[0].map_count
            && found != expected {
            assert(item[0] == v);
        }
    }
}

/// Entry `i` is reported as disagreeing on `pmMapBlkCnt` exactly when its map
/// count differs from the first entry's.
pub proof fn lemma_map_count_findings(d: Seq<u8>, i: usize, found: u32, expected: u32)
    requires
        spec_parse(d) is Some,
    ensures
        ({
            let parts = spec_parse(d).unwrap().partitions;
            spec_findings(d, spec_parse(d).unwrap()).contains(
                KindView::MapCountMismatch { index: i, found, expected },
            ) <==> (i < parts.len() && found == parts[i as int].map_count && expected
                == parts[0].map_count && found != expected)
        }),
{
    lemma_parse_shape(d);
    let parts = spec_parse(d).unwrap().partitions;
    lemma_findings_contains(d, KindView::MapCountMismatch { index: i, found, expected });
    lemma_map_count_contents(parts, parts.len(), i, found, expected);
}

/// Geometry findings over entries `0..n`.
proof fn lemma_geometry_contents(parts: Seq<PartitionView>, dev: u32, n: nat, v: KindView)
    requires
        n <= parts.len() <= MAX_PARTITIONS,
    ensures
        v matches KindView::ZeroLengthPartition { index } ==> (geometry_upto(parts, dev, n).contains(v)
            <==> (index < n && parts[index as int].block_count == 0)),
        v matches KindView::PartitionOutOfBounds { index, last_block, device_last_block } ==> (
        geometry_upto(parts, dev, n).contains(v) <==> (index < n && dev > 0 && last_block
            == spec_end_block(parts[index as int].start_block, parts[index as int].block_count)
            && device_last_block == dev - 1 && last_block > device_last_block)),
    decreases n,
{
    if n > 0 {
        lemma_geometry_contents(parts, dev, (n - 1) as nat, v);
        let item = geometry_item(parts, dev, n - 1);
        assert(geometry_upto(parts, dev, n) == geometry_upto(parts, dev, (n - 1) as nat) + item);
        lemma_contains_add(geometry_upto(parts, dev, (n - 1) as nat), item, v);
        let p = parts[n - 1];
        let end = spec_end_block(p.start_block, p.block_count);
        let zero = if p.block_count == 0 {
            seq![KindView::ZeroLengthPartition { index: (n - 1) as usize }]
        } else {
            Seq::empty()
        };
        let oob = if dev > 0 && end > dev - 1 {
            seq![
                KindView::PartitionOutOfBounds {
                    index: (n - 1) as usize,
                    last_block: end,
                    device_last_block: (dev - 1) as u32,
                },
            ]
        } else {
            Seq::empty()
        };
        assert(item == zero + oob);
        lemma_contains_add(zero, oob, v);
        if zero.contains(v) {
            assert(zero[0] == v);
        }
        if oob.contains(v) {
            assert(oob[0] == v);
        }
        if v == (KindView::ZeroLengthPartition { index: (n - 1) as usize }) && p.block_count == 0 {
            assert(zero[0] == v);
        }
        if dev > 0 && end > dev - 1 && v == (KindView::PartitionOutOfBounds {
            index: (n - 1) as usize,
            last_block: end,
            device_last_block: (dev - 1) as u32,
        }) {
            assert(oob[0] == v);
        }
    }
}

/// Entry `i` is reported as zero-length exactly when its block count is 0.
pub proof fn lemma_zero_length_findings(d: Seq<u8>, i: usize)
    requires
        spec_parse(d) is Some,
    ensures
        ({
            let parts = spec_parse(d).unwrap().partitions;
            spec_findings(d, spec_parse(d).unwrap()).contains(
                KindView::ZeroLengthPartition { index: i },
            ) <==> (i < parts.len() && parts[i as int].block_count == 0)
        }),
{
    lemma_parse_shape(d);
    let m = spec_parse(d).unwrap();
    let v = KindView::ZeroLengthPartition { index: i };
    lemma_findings_contains(d, v);
    lemma_geometry_contents(m.partitions, m.device_block_count, m.partitions.len(), v);
}

/// Entry `i` is reported out of bounds exactly when the device size is known
/// (non-zero) and the entry's last block lies past the device's last block;
/// the finding carries both block numbers.
pub proof fn lemma_out_of_bounds_findings(d: Seq<u8>, i: usize, last_block: u32, device_last_block: u32)
    requires
        spec_parse(d) is Some,
    ensures
        ({
            let m = spec_parse(d).unwrap();
            let parts = m.partitions;
            spec_findings(d, m).contains(
                KindView::PartitionOutOfBounds { index: i, last_block, device_last_block },
            ) <==> (i < parts.len() && m.device_block_count > 0 && last_block == spec_end_block(
                parts[i as int].start_block,
                parts[i as int].block_count,
            ) && device_last_block == m.device_block_count - 1 && last_block > device_last_block)
        }),
{
    lemma_parse_shape(d);
    let m = spec_parse(d).unwrap();
    let v = KindView::PartitionOutOfBounds { index: i, last_block, device_last_block };
    lemma_findings_contains(d, v);
    lemma_geometry_contents(m.partitions, m.device_block_count, m.partitions.len(), v);
}

/// Unknown-type findings over entries `0..n`.
proof fn lemma_unknown_contents(parts: Seq<PartitionView>, n: nat, i: usize, t: Seq<char>)
    requires
        n <= parts.len() <= MAX_PARTITIONS,
    ensures
        unknown_upto(parts, n).contains(KindView::UnknownPartitionType { index: i, part_type: t })
            <==> (i < n && t == parts[i as int].part_type && !known_apm_type(t)),
    decreases n,
{
    let v = KindView::UnknownPartitionType { index: i, part_type: t };
    if n > 0 {
        lemma_unknown_contents(parts, (n - 1) as nat, i, t);
        let item = unknown_item(parts, n - 1);
        assert(unknown_upto(parts, n) == unknown_upto(parts, (n - 1) as nat) + item);
        lemma_contains_add(unknown_upto(parts, (n - 1) as nat), item, v);
        if item.contains(v) {
            assert(item[0] == v);
        }
        if i == n - 1 && t == parts[i as int].part_type && !known_apm_type(t) {
            assert(item[0] == v);
        }
    }
}

/// Entry `i` is reported as having an unknown type exactly when its type is
/// not in the knowledge base's table of APM partition types; the finding
/// carries the type string.
pub proof fn lemma_unknown_type_findings(d: Seq<u8>, i: usize, t: Seq<char>)
    requires
        spec_parse(d) is Some,
    ensures
        ({
            let parts = spec_parse(d).unwrap().partitions;
            spec_findings(d, spec_parse(d).unwrap()).contains(
                KindView::UnknownPartitionType { index: i, part_type: t },
            ) <==> (i < parts.len() && t == parts[i as int].part_type && !known_apm_type(t))
        }),
{
    lemma_parse_shape(d);
    let parts = spec_parse(d).unwrap().partitions;
    lemma_findings_contains(d, KindView::UnknownPartitionType { index: i, part_type: t });
    lemma_unknown_contents(parts, parts.len(), i, t);
}

/// The missing self-entry is reported exactly when no entry has type
/// `Apple_partition_map`.
pub proof fn lemma_self_entry_findings(d: Seq<u8>)
    requires
        spec_parse(d) is Some,
    ensures
        ({
            let parts = spec_parse(d).unwrap().partitions;
            spec_findings(d, spec_parse(d).unwrap()).contains(KindView::NoPartitionMapEntry) <==> (
            forall|i: int| 0 <= i < parts.len() ==> (#[trigger] parts[i]).part_type
                != partition_map_type_text())
        }),
{
    let parts = spec_parse(d).unwrap().partitions;
    let v = KindView::NoPartitionMapEntry;
    lemma_findings_contains(d, v);
    let f = self_entry_finding(parts);
    if f.contains(v) {
        assert(f.len() > 0);
    }
    if forall|i: int| 0 <= i < parts.len() ==> (#[trigger] parts[i]).part_type != partition_map_type_text() {
        assert(f[0] == v);
    }
}

/// A residual entry is reported exactly when the map has entries and a `PM`
/// signature sits at block `1 + declared`, where `declared` is the first
/// entry's map count; the finding names that block.
pub proof fn lemma_residual_findings(d: Seq<u8>, block: u32)
    requires
        spec_parse(d) is Some,
    ensures
        ({
            let m = spec_parse(d).unwrap();
            let parts = m.partitions;
            spec_findings(d, m).contains(KindView::ResidualEntry { block }) <==> (parts.len() > 0
                && sig_at(d, m.block_size * (1 + parts[0].map_count), 0x50, 0x4D) && block == (1
                + parts[0].map_count) % 0x1_0000_0000)
        }),
{
    let m = spec_parse(d).unwrap();
    let v = KindView::ResidualEntry { block };
    lemma_findings_contains(d, v);
    let f = residual_finding(d, m.block_size, m.partitions);
    if f.contains(v) {
        assert(f[0] == v);
    }
}

// ── Overlaps as shared blocks ──────────────────────────────────────────────

/// Block `x` is one of the `block_count` blocks from `start_block` on (and a
/// block number that fits in 32 bits).
pub open spec fn holds_block(p: PartitionView, x: int) -> bool {
    p.start_block <= x < p.start_block + p.block_count && x <= u32::MAX
}

/// Two partitions overlap exactly when some block belongs to both.
proof fn lemma_overlaps_iff_shared_block(p: PartitionView, q: PartitionView)
    ensures
        overlaps(p, q) <==> exists|x: int| holds_block(p, x) && holds_block(q, x),
{
    if overlaps(p, q) {
        let x: int = if p.start_block < q.start_block { q.start_block as int } else { p.start_block as int };
        assert(holds_block(p, x) && holds_block(q, x));
    }
    if exists|x: int| holds_block(p, x) && holds_block(q, x) {
        let x = choose|x: int| holds_block(p, x) && holds_block(q, x);
        assert(p.block_count > 0 && q.block_count > 0);
        assert(x <= spec_end_block(p.start_block, p.block_count));
        assert(x <= spec_end_block(q.start_block, q.block_count));
    }
}

/// Entries `a < b` are reported as overlapping exactly when some block lies
/// in both of them, whichever of the two comes first in the map: the test is
/// symmetric in the two entries.
pub proof fn lemma_overlap_findings_are_shared_blocks(d: Seq<u8>, a: usize, b: usize)
    requires
        spec_parse(d) is Some,
    ensures
        ({
            let ps = spec_parse(d).unwrap().partitions;
            spec_findings(d, spec_parse(d).unwrap()).contains(KindView::OverlappingPartitions { a, b })
                <==> (a < b < ps.len() && exists|x: int|
                holds_block(ps[a as int], x) && holds_block(ps[b as int], x))
        }),
{
    lemma_overlap_findings_are_the_overlapping_pairs(d, a, b);
    let ps = spec_parse(d).unwrap().partitions;
    if a < b < ps.len() {
        lemma_overlaps_iff_shared_block(ps[a as int], ps[b as int]);
    }
}

// ── The severity scale ─────────────────────────────────────────────────────

/// The documented severity scale, lowest first.
pub open spec fn severity_scale() -> Seq<Severity> {
    seq![Severity::Info, Severity::Low, Severity::Medium, Severity::High, Severity::Critical]
}

/// The labels of the scale, lowest first.
pub open spec fn scale_labels() -> Seq<Seq<char>> {
    seq!["INFO"@, "LOW"@, "MEDIUM"@, "HIGH"@, "CRITICAL"@]
}

/// Severity `a` comes no later than `b` on the scale.
pub open spec fn no_later_on_scale(a: Severity, b: Severity) -> bool {
    exists|i: int, j: int|
        0 <= i <= j < 5 && #[trigger] severity_scale()[i] == a && #[trigger] severity_scale()[j] == b
}

/// Ranks follow the scale: each severity's rank is its place on the scale,
/// so a severity later on the scale ranks strictly higher.
pub proof fn lemma_rank_follows_the_scale()
    ensures
        forall|s: Severity| rank(s) < 5 && #[trigger] severity_scale()[rank(s) as int] == s,
        forall|i: int, j: int|
            0 <= i < j < 5 ==> rank(#[trigger] severity_scale()[i]) < rank(#[trigger] severity_scale()[j]),
{
}

/// The highest severity of a list of findings is `None` only for an empty
/// list; otherwise it is the severity of one of them, and every finding's
/// severity comes no later than it on the scale.
pub proof fn lemma_max_severity_is_latest_on_the_scale(s: Seq<AnomalyView>)
    ensures
        spec_max_severity(s) is None <==> s.len() == 0,
        spec_max_severity(s) matches Some(m) ==> (exists|i: int| 0 <= i < s.len() && s[i].severity == m)
            && forall|i: int| 0 <= i < s.len() ==> no_later_on_scale(#[trigger] s[i].severity, m),
{
    lemma_max_severity_is_maximum(s);
    lemma_rank_follows_the_scale();
    if let Some(m) = spec_max_severity(s) {
        assert forall|i: int| 0 <= i < s.len() implies no_later_on_scale(#[trigger] s[i].severity, m) by {
            let a = s[i].severity;
            assert(rank(a) <= rank(m));
            assert(severity_scale()[rank(a) as int] == a);
            assert(severity_scale()[rank(m) as int] == m);
        }
    }
}

/// Each severity is rendered with the label of its own place on the scale,
/// and no two severities share a label, so a label names one severity.
pub proof fn lemma_labels_name_their_severity()
    ensures
        forall|k: int| 0 <= k < 5 ==> severity_label(#[trigger] severity_scale()[k]) == scale_labels()[k],
        forall|a: Severity, b: Severity| #[trigger] severity_label(a) == #[trigger] severity_label(b) ==> a == b,
{
    reveal_strlit("INFO");
    reveal_strlit("LOW");
    reveal_strlit("MEDIUM");
    reveal_strlit("HIGH");
    reveal_strlit("CRITICAL");
    assert forall|a: Severity, b: Severity| #[trigger] severity_label(a) == #[trigger] severity_label(b) implies a == b by {
        if a != b {
            let la = severity_label(a);
            let lb = severity_label(b);
            if la.len() == lb.len() {
                assert(la[0] != lb[0]);
            }
        }
    }
}

// ── The report's partition lines ───────────────────────────────────────────

/// The partition lines of entries `0..k` begin the lines of entries `0..n`;
/// the result is the rest.
proof fn lemma_partition_lines_prefix(ps: Seq<PartitionView>, k: nat, n: nat) -> (w: Seq<char>)
    requires
        k <= n,
    ensures
        partition_lines(ps, n) == partition_lines(ps, k) + w,
    decreases n,
{
    if n > k {
        let w0 = lemma_partition_lines_prefix(ps, k, (n - 1) as nat);
        let w = w0 + partition_line((n - 1) as nat, ps[n - 1]);
        assert(partition_lines(ps, n) =~= partition_lines(ps, k) + w);
        w
    } else {
        assert(partition_lines(ps, n) =~= partition_lines(ps, k) + Seq::<char>::empty());
        Seq::empty()
    }
}

/// `t` with `u` before it and `w` after it.
pub open spec fn surrounded(u: Seq<char>, t: Seq<char>, w: Seq<char>) -> Seq<char> {
    u + t + w
}

/// In the text report, entry `i` has its own line, and the block range on it
/// runs from its first block to its inclusive last block: for a non-empty
/// entry that stays within 32-bit block numbers, `start_block + block_count - 1`.
pub proof fn lemma_report_line_shows_the_block_range(a: AnalysisView, i: int)
    requires
        0 <= i < a.partitions.len(),
        a.partitions[i].block_count > 0,
        a.partitions[i].start_block + a.partitions[i].block_count - 1 <= u32::MAX,
    ensures
        exists|u: Seq<char>, w: Seq<char>|
            report_text(a) == #[trigger] surrounded(u, partition_line(i as nat, a.partitions[i]), w),
        ({
            let p = a.partitions[i];
            partition_line(i as nat, p) == "  ["@ + dec(i as nat) + "] "@ + pad_right(p.name, 20) + " "@
                + pad_right(p.part_type, 24) + " blocks "@ + pad_left(dec(p.start_block as nat), 10) + "..="@
                + pad_right(dec((p.start_block + p.block_count - 1) as nat), 10) + "\n"@
        }),
{
    let ps = a.partitions;
    let w = lemma_partition_lines_prefix(ps, (i + 1) as nat, ps.len());
    let u = report_header(a) + partition_lines(ps, i as nat);
    let rest = w + anomaly_section(a.anomalies) + severity_section(a.anomalies);
    assert(report_text(a) =~= surrounded(u, partition_line(i as nat, ps[i]), rest));
}

// ── The volume table ───────────────────────────────────────────────────────

/// The volume table lists every map entry once, in map order: one window per
/// entry, window `k` carrying index `k`, the entry's first byte
/// `start_block * block_size`, its byte length `block_count * block_size`,
/// and its type and name when they are not empty.
pub proof fn lemma_volume_table_lists_every_entry(d: Seq<u8>)
    requires
        spec_parse(d) is Some,
    ensures
        ({
            let m = spec_parse(d).unwrap();
            let v = spans_of(m);
            &&& v.len() == m.partitions.len()
            &&& forall|k: int|
                0 <= k < v.len() ==> {
                    let p = m.partitions[k];
                    &&& (#[trigger] v[k]).index == k
                    &&& v[k].start == p.start_block * m.block_size
                    &&& v[k].len == p.block_count * m.block_size
                    &&& v[k].type_hint == if p.part_type.len() == 0 { None } else { Some(p.part_type) }
                    &&& v[k].label == if p.name.len() == 0 { None } else { Some(p.name) }
                }
        }),
{
    let m = spec_parse(d).unwrap();
    lemma_parse_shape(d);
    let v = spans_of(m);
    assert(m.block_size <= 0xffff);
    assert forall|k: int| 0 <= k < v.len() implies {
        let p = m.partitions[k];
        &&& (#[trigger] v[k]).index == k
        &&& v[k].start == p.start_block * m.block_size
        &&& v[k].len == p.block_count * m.block_size
    } by {
        let p = m.partitions[k];
        let bs = m.block_size;
        assert(p.start_block * bs <= 0xffff_ffff * 0xffff) by (nonlinear_arith)
            requires
                bs <= 0xffff,
                p.start_block <= 0xffff_ffff,
        ;
        assert(p.block_count * bs <= 0xffff_ffff * 0xffff) by (nonlinear_arith)
            requires
                bs <= 0xffff,
                p.block_count <= 0xffff_ffff,
        ;
        assert(0 <= p.start_block * bs);
        assert(0 <= p.block_count * bs);
    }
}

} // verus!
