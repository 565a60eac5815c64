//! Addresses of the chip's memory map that come from the platform API crate.
use vstd::prelude::*;

verus! {

/// Start of the baremetal image in RRAM.
pub open spec fn baremetal_start_addr() -> int {
    0x6006_0000
}

/// Number of RRAM bytes usable for storage, counted from the start of RRAM.
pub open spec fn rram_storage_bytes() -> int {
    0x3D_A000
}

/// Reads `bao1x_api::BAREMETAL_START`; the crate's source defines it as
/// `LOADER_START`, which is `0x6006_0000`.
#[verifier::external_body]
pub(crate) fn baremetal_start() -> (r: usize)
    ensures
        r == baremetal_start_addr(),
{
    bao1x_api::BAREMETAL_START
}

/// Reads `bao1x_api::RRAM_STORAGE_LEN`; the crate's source defines it as `0x3D_A000`.
#[verifier::external_body]
pub(crate) fn rram_storage_len() -> (r: usize)
    ensures
        r == rram_storage_bytes(),
{
    bao1x_api::RRAM_STORAGE_LEN
}

} // verus!
