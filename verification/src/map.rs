//! The Apple Partition Map reader.
//!
//! Layout (all integers big-endian):
//! - block 0 is the Driver Descriptor Map: signature `ER`, the device block
//!   size at offset 2 (`u16`) and the device block count `sbBlkCount` at
//!   offset 4 (`u32`);
//! - blocks 1.. hold the partition entries, each at `block_size * (1 + i)`:
//!   signature `PM`, `pmMapBlkCnt` @4, `pmPyPartStart` @8, `pmPartBlkCnt` @12,
//!   `pmPartName` @16 (32 bytes, NUL-terminated), `pmPartType` @48 (32 bytes)
//!   and `pmPartStatus` @88 — 92 bytes in all.
//!
//! The first entry's `pmMapBlkCnt` gives the number of entries; it is capped at
//! [`MAX_PARTITIONS`] and the entry list stops early at the first entry that is
//! truncated or lacks its `PM` signature.

use vstd::prelude::*;
use vstd::slice::slice_subrange;

use crate::be::{be16, be16_at, be32, be32_at};

verus! {

/// The smallest buffer the reader accepts: one 512-byte block.
pub const MIN_IMAGE_LEN: usize = 512;

/// Cap on the number of partition entries read, against a corrupt `pmMapBlkCnt`.
pub const MAX_PARTITIONS: u32 = 256;

/// Size in bytes of one decoded partition entry.
pub const ENTRY_LEN: usize = 92;

/// Width in bytes of the `pmPartName` and `pmPartType` fields.
pub const NAME_FIELD_LEN: usize = 32;

/// The text of a byte string decoded as UTF-8, each invalid sequence replaced by
/// U+FFFD (what `String::from_utf8_lossy` computes).
pub uninterp spec fn utf8_lossy_text(bytes: Seq<u8>) -> Seq<char>;

/// Decodes bytes as UTF-8, replacing invalid sequences (std's `String::from_utf8_lossy`).
///
/// Trusted: std documents that the result is the decoded text, with U+FFFD in
/// place of each invalid sequence; the contract names that result and, for
/// valid UTF-8, equates it with vstd's `decode_utf8`.
#[verifier::external_body]
fn text_from_utf8_lossy(bytes: &[u8]) -> (s: String)
    ensures
        s@ == utf8_lossy_text(bytes@),
        vstd::utf8::valid_utf8(bytes@) ==> s@ == vstd::utf8::decode_utf8(bytes@),
{
    String::from_utf8_lossy(bytes).into_owned()
}

/// Whether `s` begins with `prefix`, compared character by character.
fn text_starts_with(s: &str, prefix: &str) -> (b: bool)
    ensures
        b == (prefix@.len() <= s@.len() && s@.subrange(0, prefix@.len() as int) == prefix@),
{
    let n: usize = prefix.unicode_len();
    if s.unicode_len() < n {
        return false;
    }
    let mut i: usize = 0;
    while i < n
        invariant
            n == prefix@.len(),
            n <= s@.len(),
            i <= n,
            forall|j: int| 0 <= j < i ==> s@[j] == prefix@[j],
        decreases n - i,
    {
        if s.get_char(i) != prefix.get_char(i) {
            return false;
        }
        i = i + 1;
    }
    assert(s@.subrange(0, n as int) =~= prefix@);
    true
}

/// The bytes of `s` before its first NUL (all of `s` when it holds none).
pub open spec fn until_nul(s: Seq<u8>) -> Seq<u8>
    decreases s.len(),
{
    if s.len() == 0 || s[0] == 0 {
        Seq::empty()
    } else {
        seq![s[0]] + until_nul(s.drop_first())
    }
}

/// The two-byte signature `a b` sits at `off` in `d`.
pub open spec fn sig_at(d: Seq<u8>, off: int, a: u8, b: u8) -> bool {
    0 <= off && off + 2 <= d.len() && d[off] == a && d[off + 1] == b
}

/// The bytes of the fixed-width, NUL-terminated field at `off`, up to its first NUL.
pub open spec fn field_bytes(d: Seq<u8>, off: int) -> Seq<u8> {
    until_nul(d.subrange(off, off + NAME_FIELD_LEN as int))
}

/// The text of the fixed-width, NUL-terminated name field at `off`.
pub open spec fn field_text(d: Seq<u8>, off: int) -> Seq<char> {
    utf8_lossy_text(field_bytes(d, off))
}

/// `t` is the text that the field at `off` decodes to wherever its bytes are
/// valid UTF-8 (ASCII names and types among them).
pub open spec fn decodes_field(d: Seq<u8>, off: int, t: Seq<char>) -> bool {
    vstd::utf8::valid_utf8(field_bytes(d, off)) ==> t == vstd::utf8::decode_utf8(field_bytes(d, off))
}

/// The entry read from `off` holds the UTF-8 decoding of its name and type
/// fields wherever those bytes are valid UTF-8.
pub open spec fn entry_text_decoded(d: Seq<u8>, off: int, p: PartitionView) -> bool {
    decodes_field(d, off + 16, p.name) && decodes_field(d, off + 48, p.part_type)
}

/// A whole, `PM`-signed partition entry starts at `off`.
pub open spec fn entry_present(d: Seq<u8>, off: int) -> bool {
    0 <= off && off + ENTRY_LEN as int <= d.len() && sig_at(d, off, 0x50, 0x4D)
}

/// The mathematical value of one partition entry.
pub struct PartitionView {
    pub name: Seq<char>,
    pub part_type: Seq<char>,
    pub start_block: u32,
    pub block_count: u32,
    pub map_count: u32,
    pub status: u32,
}

/// The mathematical value of a decoded map.
pub struct MapView {
    pub block_size: u32,
    pub device_block_count: u32,
    pub partitions: Seq<PartitionView>,
}

/// The entry decoded from the 92 bytes at `off`.
pub open spec fn entry_at(d: Seq<u8>, off: int) -> PartitionView {
    PartitionView {
        name: field_text(d, off + 16),
        part_type: field_text(d, off + 48),
        start_block: be32_at(d, off + 8),
        block_count: be32_at(d, off + 12),
        map_count: be32_at(d, off + 4),
        status: be32_at(d, off + 88),
    }
}

/// Up to `k` consecutive entries, the first at `off` and each next one
/// `block_size` bytes further, stopping at the first missing entry.
pub open spec fn entries_from(d: Seq<u8>, block_size: int, off: int, k: nat) -> Seq<PartitionView>
    decreases k,
{
    if k > 0 && entry_present(d, off) {
        seq![entry_at(d, off)] + entries_from(d, block_size, off + block_size, (k - 1) as nat)
    } else {
        Seq::empty()
    }
}

/// The entry count declared by the first entry, capped at [`MAX_PARTITIONS`].
pub open spec fn declared_entries(d: Seq<u8>, block_size: int) -> nat {
    let n = be32_at(d, block_size + 4);
    if n < MAX_PARTITIONS { n as nat } else { MAX_PARTITIONS as nat }
}

/// The map that `parse` reads from `d`, or `None` when `d` is not an APM:
/// shorter than one 512-byte block, no `ER` signature at block 0, a zero block
/// size, or no `PM` signature at block 1.
pub open spec fn spec_parse(d: Seq<u8>) -> Option<MapView> {
    let bs = be16_at(d, 2) as int;
    if d.len() < MIN_IMAGE_LEN as int || !sig_at(d, 0, 0x45, 0x52) || bs == 0 || !sig_at(
        d,
        bs,
        0x50,
        0x4D,
    ) {
        None
    } else {
        Some(
            MapView {
                block_size: bs as u32,
                device_block_count: be32_at(d, 4),
                partitions: entries_from(d, bs, bs, declared_entries(d, bs)),
            },
        )
    }
}

/// One Apple Partition Map entry.
#[derive(Debug, Clone)]
pub struct ApmPartition {
    /// `pmPartName`.
    pub name: String,
    /// `pmPartType`, e.g. `Apple_HFS`.
    pub part_type: String,
    /// `pmPyPartStart`: first block of the partition.
    pub start_block: u32,
    /// `pmPartBlkCnt`: number of blocks in the partition.
    pub block_count: u32,
    /// `pmMapBlkCnt`: number of map entries this entry declares.
    pub map_count: u32,
    /// `pmPartStatus`.
    pub status: u32,
}

impl View for ApmPartition {
    type V = PartitionView;

    open spec fn view(&self) -> PartitionView {
        PartitionView {
            name: self.name@,
            part_type: self.part_type@,
            start_block: self.start_block,
            block_count: self.block_count,
            map_count: self.map_count,
            status: self.status,
        }
    }
}

/// The last block of a partition starting at `start` with `count` blocks:
/// `start + count - 1`, saturating at `u32::MAX`, and `start` itself for an
/// empty partition.
pub open spec fn spec_end_block(start: u32, count: u32) -> u32 {
    if count == 0 {
        start
    } else if start as int + count as int - 1 > u32::MAX as int {
        u32::MAX
    } else {
        (start as int + count as int - 1) as u32
    }
}

impl ApmPartition {
    /// The last block this partition covers (inclusive).
    pub fn end_block(&self) -> (e: u32)
        ensures
            e == spec_end_block(self.start_block, self.block_count),
            self.block_count > 0 ==> e >= self.start_block,
    {
        if self.block_count == 0 {
            self.start_block
        } else {
            let last: u32 = self.block_count - 1;
            if self.start_block > u32::MAX - last {
                u32::MAX
            } else {
                self.start_block + last
            }
        }
    }
}

/// The views of a sequence of partitions.
pub open spec fn views_of(s: Seq<ApmPartition>) -> Seq<PartitionView> {
    s.map_values(|p: ApmPartition| p@)
}

/// A decoded Apple Partition Map.
#[derive(Debug, Clone)]
pub struct ApplePartitionMap {
    /// Device block size in bytes (from the Driver Descriptor Map).
    pub block_size: u32,
    /// Device block count `sbBlkCount` (from the Driver Descriptor Map).
    pub device_block_count: u32,
    /// Partition entries in map order.
    pub partitions: Vec<ApmPartition>,
}

impl View for ApplePartitionMap {
    type V = MapView;

    open spec fn view(&self) -> MapView {
        MapView {
            block_size: self.block_size,
            device_block_count: self.device_block_count,
            partitions: views_of(self.partitions@),
        }
    }
}

/// The type string that `hfs_partition` looks for at the start of `pmPartType`.
pub open spec fn hfs_prefix() -> Seq<char> {
    seq!['A', 'p', 'p', 'l', 'e', '_', 'H', 'F', 'S']
}

/// `t` is an HFS type string (`Apple_HFS`, `Apple_HFSX`, ...).
pub open spec fn is_hfs_type(t: Seq<char>) -> bool {
    hfs_prefix().len() <= t.len() && t.subrange(0, hfs_prefix().len() as int) == hfs_prefix()
}

impl ApplePartitionMap {
    /// The first partition whose type begins with `Apple_HFS`, if any.
    pub fn hfs_partition(&self) -> (r: Option<&ApmPartition>)
        ensures
            match r {
                Some(p) => exists|i: int|
                    0 <= i < self.partitions@.len() && self.partitions@[i] == *p && is_hfs_type(
                        p.part_type@,
                    ) && forall|j: int|
                        0 <= j < i ==> !is_hfs_type(#[trigger] self.partitions@[j].part_type@),
                None => forall|j: int|
                    0 <= j < self.partitions@.len() ==> !is_hfs_type(
                        #[trigger] self.partitions@[j].part_type@,
                    ),
            },
    {
        let prefix: &str = "Apple_HFS";
        proof {
            reveal_strlit("Apple_HFS");
            assert(prefix@ =~= hfs_prefix());
        }
        let mut i: usize = 0;
        while i < self.partitions.len()
            invariant
                i <= self.partitions@.len(),
                prefix@ == hfs_prefix(),
                forall|j: int| 0 <= j < i ==> !is_hfs_type(#[trigger] self.partitions@[j].part_type@),
            decreases self.partitions@.len() - i,
        {
            if text_starts_with(self.partitions[i].part_type.as_str(), prefix) {
                return Some(&self.partitions[i]);
            }
            i = i + 1;
        }
        None
    }
}

/// Index of the first NUL in the `len`-byte field at `off` (or `len`).
fn nul_index(d: &[u8], off: usize, len: usize) -> (k: usize)
    requires
        off + len <= d.len(),
    ensures
        k <= len,
        d@.subrange(off as int, off + k) == until_nul(d@.subrange(off as int, off + len)),
{
    let mut k: usize = 0;
    while k < len && d[off + k] != 0
        invariant
            k <= len,
            off + len <= d.len(),
            forall|j: int| off <= j < off + k ==> d@[j] != 0,
        decreases len - k,
    {
        k = k + 1;
    }
    proof {
        lemma_until_nul_prefix(d@.subrange(off as int, off + len), k as int);
    }
    k
}

/// When the first `k` bytes of `s` are non-zero and byte `k` is zero (or `k`
/// is the length), `until_nul(s)` is the first `k` bytes.
proof fn lemma_until_nul_prefix(s: Seq<u8>, k: int)
    requires
        0 <= k <= s.len(),
        forall|j: int| 0 <= j < k ==> s[j] != 0,
        k == s.len() || s[k] == 0,
    ensures
        until_nul(s) == s.subrange(0, k),
    decreases k,
{
    if k == 0 {
        assert(s.subrange(0, 0) =~= Seq::<u8>::empty());
    } else {
        lemma_until_nul_prefix(s.drop_first(), k - 1);
        assert(seq![s[0]] + s.drop_first().subrange(0, k - 1) =~= s.subrange(0, k));
    }
}

/// Decodes the fixed-width name field at `off`.
fn read_field_text(d: &[u8], off: usize) -> (s: String)
    requires
        off + NAME_FIELD_LEN <= d.len(),
    ensures
        s@ == field_text(d@, off as int),
        decodes_field(d@, off as int, s@),
{
    let k: usize = nul_index(d, off, NAME_FIELD_LEN);
    let bytes: &[u8] = slice_subrange(d, off, off + k);
    text_from_utf8_lossy(bytes)
}

/// Decodes the entry at `off`.
fn read_entry(d: &[u8], off: usize) -> (p: ApmPartition)
    requires
        entry_present(d@, off as int),
        off + ENTRY_LEN <= d.len(),
    ensures
        p@ == entry_at(d@, off as int),
        entry_text_decoded(d@, off as int, p@),
{
    ApmPartition {
        name: read_field_text(d, off + 16),
        part_type: read_field_text(d, off + 48),
        start_block: be32(d, off + 8),
        block_count: be32(d, off + 12),
        map_count: be32(d, off + 4),
        status: be32(d, off + 88),
    }
}

/// Whether the two bytes at `off` are the signature `a b`.
fn has_sig(d: &[u8], off: usize, a: u8, b: u8) -> (r: bool)
    ensures
        r == sig_at(d@, off as int, a, b),
{
    off <= d.len() && d.len() - off >= 2 && d[off] == a && d[off + 1] == b
}

/// Parses the Apple Partition Map at the start of `data` (block 0 = the
/// Driver Descriptor Map). Returns `None` when `data` is not an APM.
pub fn parse(data: &[u8]) -> (r: Option<ApplePartitionMap>)
    ensures
        match r {
            Some(m) => spec_parse(data@) == Some(m@),
            None => spec_parse(data@) is None,
        },
        r matches Some(m) ==> forall|i: int|
            0 <= i < m.partitions@.len() ==> entry_text_decoded(
                data@,
                m.block_size * (1 + i),
                #[trigger] m.partitions@[i]@,
            ),
{
    if data.len() < MIN_IMAGE_LEN || !has_sig(data, 0, 0x45, 0x52) {
        return None;
    }
    let bs16: u16 = be16(data, 2);
    let bs: usize = bs16 as usize;
    if bs == 0 || !has_sig(data, bs, 0x50, 0x4D) {
        return None;
    }
    let declared: u32 = be32(data, bs + 4);
    let n: u32 = if declared < MAX_PARTITIONS { declared } else { MAX_PARTITIONS };
    let ghost all = entries_from(data@, bs as int, bs as int, n as nat);
    let mut parts: Vec<ApmPartition> = Vec::new();
    let mut off: usize = bs;
    let mut k: u32 = n;
    proof {
        assert(bs * (1 + (n - k)) == bs) by (nonlinear_arith)
            requires
                k == n,
        ;
    }
    while k > 0 && off <= data.len() && data.len() - off >= ENTRY_LEN && has_sig(
        data,
        off,
        0x50,
        0x4D,
    )
        invariant
            bs == be16_at(data@, 2) as int,
            0 < bs <= 0xffff,
            k <= n <= MAX_PARTITIONS,
            off == bs * (1 + (n - k)),
            views_of(parts@) + entries_from(data@, bs as int, off as int, k as nat) == all,
            parts@.len() == n - k,
            forall|j: int|
                0 <= j < parts@.len() ==> entry_text_decoded(
                    data@,
                    bs * (1 + j),
                    #[trigger] parts@[j]@,
                ),
        decreases k,
    {
        proof {
            assert(entry_present(data@, off as int));
        }
        let p: ApmPartition = read_entry(data, off);
        let ghost before = parts@;
        parts.push(p);
        proof {
            assert(views_of(parts@) =~= views_of(before).push(p@));
            assert(views_of(parts@) + entries_from(data@, bs as int, (off + bs) as int, (k - 1) as nat)
                =~= views_of(before) + entries_from(data@, bs as int, off as int, k as nat));
            assert(bs * (1 + (n - k)) + bs == bs * (1 + (n - (k - 1)))) by (nonlinear_arith);
            assert(bs * (1 + (n - (k - 1))) <= bs * 257) by (nonlinear_arith)
                requires
                    0 < bs,
                    k >= 1,
                    n <= 256,
            ;
        }
        off = off + bs;
        k = k - 1;
    }
    proof {
        assert(!(k > 0 && entry_present(data@, off as int)));
        assert(entries_from(data@, bs as int, off as int, k as nat) =~= Seq::<PartitionView>::empty());
        assert(views_of(parts@) =~= all);
    }
    Some(ApplePartitionMap { block_size: bs16 as u32, device_block_count: be32(data, 4), partitions: parts })
}

} // verus!
