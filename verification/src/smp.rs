//! AP trampoline layout: offsets, SIPI vector, timeouts. The trampoline
//! blob and INIT/SIPI live in the kernel binary. One AP at a time: they
//! share this page.

use vstd::prelude::*;

verus! {

/// SIPI vector `0x08` means physical `0x8000`. 4 KiB aligned, below 1 MiB.
pub const TRAMPOLINE_PHYS: u64 = 0x8000;
pub const SIPI_VECTOR: u8 = 0x08;
pub const TRAMPOLINE_PAGES: u64 = 1;

/// Param block. The blob must fit strictly below this.
pub const PARAM_OFF: usize = 0xD0;
pub const PARAM_CR3: usize = 0xD0;
pub const PARAM_STACK: usize = 0xD8;
pub const PARAM_ENTRY: usize = 0xE0;
pub const PARAM_IDT: usize = 0xE8;
pub const PARAM_IDT_LEN: usize = 10;

/// Intel minimum after INIT.
pub const INIT_WAIT_MS: u64 = 10;
/// Gap between the two SIPIs.
pub const SIPI_WAIT_MS: u64 = 1;
/// Ready-flag timeout. On expiry free the stack and per-CPU area.
pub const READY_TIMEOUT_MS: u64 = 3000;

pub fn blob_fits(len: usize) -> (r: bool)
    ensures
        r == (len <= PARAM_OFF),
{
    len <= PARAM_OFF
}

/// Byte `i` (little-endian) of `v`.
pub open spec fn le_byte(v: u64, i: int) -> u8 {
    ((v as int / vstd::arithmetic::power2::pow2((8 * i) as nat) as int) % 256) as u8
}

/// 10-byte IDTR image at [`PARAM_IDT`]: the limit then the base, both
/// little-endian.
pub fn pack_idtr(limit: u16, base: u64) -> (r: [u8; PARAM_IDT_LEN])
    ensures
        r@[0] == limit % 256,
        r@[1] == limit / 256,
        forall|i: int| 0 <= i < 8 ==> r@[2 + i] == #[trigger] ((base >> (8 * i) as u64) & 0xFF),
{
    let mut b = [0u8; PARAM_IDT_LEN];
    assert(limit as u8 == limit % 256 && (limit >> 8) as u8 == limit / 256) by (bit_vector);
    b[0] = limit as u8;
    b[1] = (limit >> 8) as u8;
    let mut i: usize = 0;
    while i < 8
        invariant
            i <= 8,
            b@[0] == limit % 256,
            b@[1] == limit / 256,
            forall|j: int| 0 <= j < i ==> b@[2 + j] == #[trigger] ((base >> (8 * j) as u64) & 0xFF),
        decreases 8 - i,
    {
        let sh: u64 = 8 * i as u64;
        let v: u64 = (base >> sh) & 0xFF;
        assert(v < 256) by (bit_vector)
            requires
                v == (base >> sh) & 0xFF,
        ;
        b[2 + i] = v as u8;
        i += 1;
    }
    b
}

} // verus!
