//! The values the device programs into its MMU: two 1 GiB block entries of
//! the level-1 table (device memory below 1 GiB, normal write-back memory
//! from 1 GiB), the memory attributes, the translation control, and the
//! system control bits that turn the MMU and the caches on. Writing them to
//! the system registers is the caller's.
use vstd::prelude::*;

verus! {

/// MAIR attribute 0: device nGnRnE memory.
pub const ATTR_DEVICE_NGNRNE: u64 = 0x00;
/// MAIR attribute 1: normal write-back memory.
pub const ATTR_NORMAL_WB: u64 = 0xFF;
/// Descriptor bit 0: valid.
pub const DESC_VALID: u64 = 1;
/// Descriptor bit 1 clear: a block entry at level 1.
pub const DESC_BLOCK: u64 = 0;
/// Descriptor bit 10: access flag.
pub const DESC_AF: u64 = 0x400;
/// Descriptor bits 8-9: inner shareable.
pub const DESC_INNER_SHAREABLE: u64 = 0x300;

/// The register and table values of the MMU set-up.
pub struct MmuSetup {
    /// Level-1 entry 0: `0x0000_0000..0x3FFF_FFFF`, device memory (attribute 0).
    pub l1_entry0: u64,
    /// Level-1 entry 1: `0x4000_0000..0x7FFF_FFFF`, normal memory (attribute 1).
    pub l1_entry1: u64,
    /// MAIR_EL1.
    pub mair: u64,
    /// TCR_EL1: 39-bit VA, 4 KiB granule, inner shareable, write-back walks, 32-bit PA.
    pub tcr: u64,
}

/// The MMU set-up values.
pub fn mmu_setup() -> (m: MmuSetup)
    ensures
        m.l1_entry0 == 0x401,
        m.l1_entry1 == 0x4000_0705,
        m.mair == 0xFF00,
        m.tcr == 0x3519,
{
    let l1_entry0 = 0x00000000u64 | DESC_VALID | DESC_BLOCK | DESC_AF | (0u64 << 2u64);
    let l1_entry1 = 0x40000000u64 | DESC_VALID | DESC_BLOCK | DESC_AF | DESC_INNER_SHAREABLE | (1u64
        << 2u64);
    let mair = ATTR_DEVICE_NGNRNE | (ATTR_NORMAL_WB << 8u64);
    let tcr = (25u64 << 0u64) | (0u64 << 14u64) | (3u64 << 12u64) | (1u64 << 10u64) | (1u64 << 8u64)
        | (0u64 << 32u64);
    assert(l1_entry0 == 0x401 && l1_entry1 == 0x4000_0705 && mair == 0xFF00 && tcr == 0x3519) by (bit_vector)
        requires
            l1_entry0 == 0x00000000u64 | 1u64 | 0u64 | 0x400u64 | (0u64 << 2u64),
            l1_entry1 == 0x40000000u64 | 1u64 | 0u64 | 0x400u64 | 0x300u64 | (1u64 << 2u64),
            mair == 0u64 | (0xFFu64 << 8u64),
            tcr == (25u64 << 0u64) | (0u64 << 14u64) | (3u64 << 12u64) | (1u64 << 10u64) | (1u64
                << 8u64) | (0u64 << 32u64),
    ;
    MmuSetup { l1_entry0, l1_entry1, mair, tcr }
}

/// SCTLR_EL1 with the MMU (bit 0), the data cache (bit 2) and the
/// instruction cache (bit 12) turned on, the other bits kept.
pub fn sctlr_enabled(sctlr: u64) -> (r: u64)
    ensures
        r == sctlr | 0x1005,
{
    let mut s = sctlr;
    s = s | (1u64 << 0u64);
    s = s | (1u64 << 2u64);
    s = s | (1u64 << 12u64);
    assert(s == sctlr | 0x1005) by (bit_vector)
        requires
            s == ((sctlr | (1u64 << 0u64)) | (1u64 << 2u64)) | (1u64 << 12u64),
    ;
    s
}

} // verus!
