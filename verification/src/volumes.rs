//! The volume table of an APM disk: each partition as a byte window of the
//! parent image, in the map's own block units.

use vstd::prelude::*;

use crate::map::{parse, spec_parse, ApmPartition, MapView, PartitionView};

verus! {

/// Cap on the head of the parent read for the parser: the Driver Descriptor
/// Map and the partition map are a handful of blocks, so 1 MiB covers any real
/// APM while bounding the read against a hostile parent.
pub const APM_MAP_CAP: u64 = 1024 * 1024;

/// How many bytes of a parent of `parent_len` bytes to read for the parser.
pub fn head_read_len(parent_len: u64) -> (n: u64)
    ensures
        n == if parent_len < APM_MAP_CAP { parent_len } else { APM_MAP_CAP },
{
    if parent_len < APM_MAP_CAP {
        parent_len
    } else {
        APM_MAP_CAP
    }
}

/// One partition as a byte window of the parent image.
#[derive(Debug, Clone)]
pub struct VolumeSpan {
    /// Position of the partition in the map.
    pub index: usize,
    /// Byte offset of the window in the parent (`start_block * block_size`).
    pub start: u64,
    /// Byte length of the window (`block_count * block_size`).
    pub len: u64,
    /// The partition type, when not empty.
    pub type_hint: Option<String>,
    /// The partition name, when not empty.
    pub label: Option<String>,
}

/// The mathematical value of a [`VolumeSpan`].
pub struct VolumeSpanView {
    pub index: usize,
    pub start: u64,
    pub len: u64,
    pub type_hint: Option<Seq<char>>,
    pub label: Option<Seq<char>>,
}

/// `Some(t)` for non-empty text, `None` for empty text.
pub open spec fn non_empty(t: Seq<char>) -> Option<Seq<char>> {
    if t.len() == 0 {
        None
    } else {
        Some(t)
    }
}

/// The view of an optional string.
pub open spec fn opt_text(o: Option<String>) -> Option<Seq<char>> {
    match o {
        Some(s) => Some(s@),
        None => None,
    }
}

impl View for VolumeSpan {
    type V = VolumeSpanView;

    open spec fn view(&self) -> VolumeSpanView {
        VolumeSpanView {
            index: self.index,
            start: self.start,
            len: self.len,
            type_hint: opt_text(self.type_hint),
            label: opt_text(self.label),
        }
    }
}

/// The window of partition `i` of a map with blocks of `block_size` bytes.
pub open spec fn span_of(i: int, p: PartitionView, block_size: u32) -> VolumeSpanView {
    VolumeSpanView {
        index: i as usize,
        start: (p.start_block * block_size) as u64,
        len: (p.block_count * block_size) as u64,
        type_hint: non_empty(p.part_type),
        label: non_empty(p.name),
    }
}

/// The windows of every partition of `m`, in map order.
pub open spec fn spans_of(m: MapView) -> Seq<VolumeSpanView> {
    Seq::new(m.partitions.len(), |i: int| span_of(i, m.partitions[i], m.block_size))
}

/// `Some(t)` for non-empty `t`, `None` otherwise.
fn non_empty_text(t: &String) -> (r: Option<String>)
    ensures
        opt_text(r) == non_empty(t@),
{
    if t.as_str().unicode_len() == 0 {
        None
    } else {
        Some(t.clone())
    }
}

/// The window of partition `i`.
fn span(i: usize, p: &ApmPartition, block_size: u32) -> (v: VolumeSpan)
    requires
        block_size <= 0xffff,
    ensures
        v@ == span_of(i as int, p@, block_size),
{
    proof {
        assert(p.start_block * block_size <= 0xffff_ffff * 0xffff) by (nonlinear_arith)
            requires
                block_size <= 0xffff,
                p.start_block <= 0xffff_ffff,
        ;
        assert(p.block_count * block_size <= 0xffff_ffff * 0xffff) by (nonlinear_arith)
            requires
                block_size <= 0xffff,
                p.block_count <= 0xffff_ffff,
        ;
    }
    VolumeSpan {
        index: i,
        start: p.start_block as u64 * block_size as u64,
        len: p.block_count as u64 * block_size as u64,
        type_hint: non_empty_text(&p.part_type),
        label: non_empty_text(&p.name),
    }
}

/// Parses the APM at the head of a disk and returns its volume table, or
/// `None` when the head is not an APM.
pub fn volume_table(head: &[u8]) -> (r: Option<Vec<VolumeSpan>>)
    ensures
        match r {
            None => spec_parse(head@) is None,
            Some(v) => spec_parse(head@) matches Some(m) && v@.map_values(|s: VolumeSpan| s@)
                == spans_of(m),
        },
{
    let map = match parse(head) {
        Some(m) => m,
        None => {
            return None;
        },
    };
    let ghost m = map@;
    let mut out: Vec<VolumeSpan> = Vec::new();
    let mut i: usize = 0;
    while i < map.partitions.len()
        invariant
            i <= map.partitions@.len(),
            m == map@,
            map.block_size <= 0xffff,
            out@.len() == i,
            m.partitions.len() == map.partitions@.len(),
            out@.map_values(|s: VolumeSpan| s@) == spans_of(m).take(i as int),
        decreases map.partitions@.len() - i,
    {
        let ghost before = out@;
        let sp: VolumeSpan = span(i, &map.partitions[i], map.block_size);
        out.push(sp);
        proof {
            assert(m.partitions[i as int] == map.partitions@[i as int]@);
            assert(spans_of(m)[i as int] == sp@);
            assert(out@ == before.push(sp));
            let ov = out@.map_values(|s: VolumeSpan| s@);
            let bv = before.map_values(|s: VolumeSpan| s@);
            assert(m.partitions.len() == map.partitions@.len());
            assert forall|j: int| 0 <= j <= i implies ov[j] == spans_of(m).take(i + 1)[j] by {
                if j < i {
                    assert(bv[j] == spans_of(m).take(i as int)[j]);
                    assert(out@[j] == before[j]);
                }
            }
            assert(out@.map_values(|s: VolumeSpan| s@) =~= spans_of(m).take(i + 1));
        }
        i = i + 1;
    }
    proof {
        assert(spans_of(m).take(i as int) =~= spans_of(m));
    }
    Some(out)
}

} // verus!
