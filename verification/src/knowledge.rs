//! Partition-type knowledge from the `forensicnomicon` knowledge base.

use vstd::prelude::*;

verus! {

/// The type string of the entry that describes the partition map itself.
pub open spec fn partition_map_type_text() -> Seq<char> {
    "Apple_partition_map"@
}

/// `t` is one of the well-known APM `pmPartType` strings listed by
/// `forensicnomicon::apm::APM_PARTITION_TYPES`.
pub open spec fn known_apm_type(t: Seq<char>) -> bool {
    ||| t == "Apple_partition_map"@
    ||| t == "Apple_Driver"@
    ||| t == "Apple_Driver43"@
    ||| t == "Apple_Driver43_CD"@
    ||| t == "Apple_Driver_ATA"@
    ||| t == "Apple_Driver_ATAPI"@
    ||| t == "Apple_Driver_IOKit"@
    ||| t == "Apple_Patches"@
    ||| t == "Apple_Free"@
    ||| t == "Apple_HFS"@
    ||| t == "Apple_HFSX"@
    ||| t == "Apple_UFS"@
    ||| t == "Apple_UNIX_SVR2"@
    ||| t == "Apple_PRODOS"@
    ||| t == "Apple_Boot"@
    ||| t == "Apple_Bootstrap"@
    ||| t == "Apple_Loader"@
    ||| t == "Apple_Rhapsody_UFS"@
    ||| t == "Apple_Scratch"@
    ||| t == "Apple_Second"@
    ||| t == "Apple_Void"@
}

/// `forensicnomicon::apm::PARTITION_MAP_TYPE`.
///
/// Trusted: the crate's source defines the constant as `"Apple_partition_map"`.
#[verifier::external_body]
pub(crate) fn partition_map_type() -> (s: &'static str)
    ensures
        s@ == partition_map_type_text(),
{
    forensicnomicon::apm::PARTITION_MAP_TYPE
}

/// `forensicnomicon::apm::is_known_type`.
///
/// Trusted: the crate's source returns whether `t` equals one of the 21 strings
/// of its `APM_PARTITION_TYPES` table, which `known_apm_type` lists.
#[verifier::external_body]
pub(crate) fn is_known_type(t: &str) -> (b: bool)
    ensures
        b == known_apm_type(t@),
{
    forensicnomicon::apm::is_known_type(t)
}

} // verus!
