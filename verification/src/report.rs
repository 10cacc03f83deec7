//! Human-readable text rendering of an [`ApmAnalysis`].

use vstd::prelude::*;

use crate::findings::{
    anomaly_line, severity_label, spec_max_severity, AnalysisView, AnomalyView, ApmAnalysis,
};
use crate::map::{spec_end_block, ApmPartition, PartitionView};
use crate::text::{
    dec, pad_left, pad_right, push_dec, push_dec_padded_left, push_dec_padded_right,
    push_padded_right, push_str,
};

verus! {

/// The report header: title, block size, device block count and the
/// partition-map heading (with a placeholder line for an empty map).
pub open spec fn report_header(a: AnalysisView) -> Seq<char> {
    "APM Forensic Analysis\n"@ + "  block size     : "@ + dec(a.block_size as nat) + " bytes\n"@
        + "  device blocks  : "@ + dec(a.device_block_count as nat) + "\n"@
        + "\nPartition map ("@ + dec(a.partitions.len()) + " entries):\n"@ + if a.partitions.len()
        == 0 {
        "  (no partition entries)\n"@
    } else {
        Seq::empty()
    }
}

/// The line of partition `i`:
/// `  [i] name(left, 20) type(left, 24) blocks start(right, 10)..=end(left, 10)`.
pub open spec fn partition_line(i: nat, p: PartitionView) -> Seq<char> {
    "  ["@ + dec(i) + "] "@ + pad_right(p.name, 20) + " "@ + pad_right(p.part_type, 24)
        + " blocks "@ + pad_left(dec(p.start_block as nat), 10) + "..="@ + pad_right(
        dec(spec_end_block(p.start_block, p.block_count) as nat),
        10,
    ) + "\n"@
}

/// The lines of partitions `0..n`.
pub open spec fn partition_lines(ps: Seq<PartitionView>, n: nat) -> Seq<char>
    decreases n,
{
    if n == 0 {
        Seq::empty()
    } else {
        partition_lines(ps, (n - 1) as nat) + partition_line((n - 1) as nat, ps[n - 1])
    }
}

/// The lines of anomalies `0..n`, each `  [SEVERITY] code: note`.
pub open spec fn anomaly_lines(an: Seq<AnomalyView>, n: nat) -> Seq<char>
    decreases n,
{
    if n == 0 {
        Seq::empty()
    } else {
        anomaly_lines(an, (n - 1) as nat) + "  "@ + anomaly_line(an[n - 1]) + "\n"@
    }
}

/// The anomaly section: `Anomalies: none`, or a count heading and one line each.
pub open spec fn anomaly_section(an: Seq<AnomalyView>) -> Seq<char> {
    if an.len() == 0 {
        "\nAnomalies: none\n"@
    } else {
        "\nAnomalies ("@ + dec(an.len()) + "):\n"@ + anomaly_lines(an, an.len())
    }
}

/// The closing line naming the highest severity, or `none (clean)`.
pub open spec fn severity_section(an: Seq<AnomalyView>) -> Seq<char> {
    match spec_max_severity(an) {
        Some(s) => "\nHighest severity: "@ + severity_label(s) + "\n"@,
        None => "\nHighest severity: none (clean)\n"@,
    }
}

/// The whole text report of an analysis.
pub open spec fn report_text(a: AnalysisView) -> Seq<char> {
    report_header(a) + partition_lines(a.partitions, a.partitions.len()) + anomaly_section(
        a.anomalies,
    ) + severity_section(a.anomalies)
}

/// Appends the line of partition `i`.
fn push_partition_line(s: &mut String, i: usize, p: &ApmPartition)
    ensures
        final(s)@ == old(s)@ + partition_line(i as nat, p@),
{
    let ghost start = s@;
    push_str(s, "  [");
    push_dec(s, i as u64);
    push_str(s, "] ");
    push_padded_right(s, p.name.as_str(), 20);
    push_str(s, " ");
    push_padded_right(s, p.part_type.as_str(), 24);
    push_str(s, " blocks ");
    push_dec_padded_left(s, p.start_block as u64, 10);
    push_str(s, "..=");
    push_dec_padded_right(s, p.end_block() as u64, 10);
    push_str(s, "\n");
    proof {
        assert(s@ =~= start + partition_line(i as nat, p@));
    }
}

/// Renders an APM forensic analysis as a multi-line text report.
pub fn text_report(a: &ApmAnalysis) -> (s: String)
    ensures
        s@ == report_text(a@),
{
    let ghost av = a@;
    let mut s: String = String::new();
    push_str(&mut s, "APM Forensic Analysis\n");
    push_str(&mut s, "  block size     : ");
    push_dec(&mut s, a.block_size as u64);
    push_str(&mut s, " bytes\n");
    push_str(&mut s, "  device blocks  : ");
    push_dec(&mut s, a.device_block_count as u64);
    push_str(&mut s, "\n");
    push_str(&mut s, "\nPartition map (");
    push_dec(&mut s, a.partitions.len() as u64);
    push_str(&mut s, " entries):\n");
    if a.partitions.len() == 0 {
        push_str(&mut s, "  (no partition entries)\n");
    }
    proof {
        assert(s@ =~= report_header(av));
    }
    let ghost head = s@;
    let mut i: usize = 0;
    while i < a.partitions.len()
        invariant
            i <= a.partitions@.len(),
            av == a@,
            s@ == head + partition_lines(av.partitions, i as nat),
        decreases a.partitions@.len() - i,
    {
        push_partition_line(&mut s, i, &a.partitions[i]);
        proof {
            assert(av.partitions[i as int] == a.partitions@[i as int]@);
            assert(s@ =~= head + partition_lines(av.partitions, (i + 1) as nat));
        }
        i = i + 1;
    }
    let ghost parts_done = s@;
    if a.anomalies.len() == 0 {
        push_str(&mut s, "\nAnomalies: none\n");
        proof {
            assert(s@ =~= parts_done + anomaly_section(av.anomalies));
        }
    } else {
        push_str(&mut s, "\nAnomalies (");
        push_dec(&mut s, a.anomalies.len() as u64);
        push_str(&mut s, "):\n");
        let ghost lines_start = s@;
        let mut j: usize = 0;
        while j < a.anomalies.len()
            invariant
                j <= a.anomalies@.len(),
                av == a@,
                s@ == lines_start + anomaly_lines(av.anomalies, j as nat),
            decreases a.anomalies@.len() - j,
        {
            push_str(&mut s, "  ");
            let line: String = a.anomalies[j].render();
            push_str(&mut s, line.as_str());
            push_str(&mut s, "\n");
            proof {
                assert(av.anomalies[j as int] == a.anomalies@[j as int]@);
                assert(s@ =~= lines_start + anomaly_lines(av.anomalies, (j + 1) as nat));
            }
            j = j + 1;
        }
        proof {
            assert(s@ =~= parts_done + anomaly_section(av.anomalies));
        }
    }
    let ghost anoms_done = s@;
    match a.max_severity() {
        Some(sev) => {
            push_str(&mut s, "\nHighest severity: ");
            push_str(&mut s, sev.label());
            push_str(&mut s, "\n");
        },
        None => {
            push_str(&mut s, "\nHighest severity: none (clean)\n");
        },
    }
    proof {
        assert(s@ =~= anoms_done + severity_section(av.anomalies));
        assert(s@ =~= report_text(av));
    }
    s
}

} // verus!
