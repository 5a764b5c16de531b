//! Which BARs of a scanned PCI function the kernel maps, and how.
//! Config-space access and the mapping itself are the driver's.

use vstd::prelude::*;
use crate::pci::{Bar, FuncInfo, MAX_BAR_MAP, bar_map_allowed};

verus! {

/// What happens to one BAR.
#[derive(Clone, Copy, Debug, PartialEq, Eq, Structural)]
pub enum BarPlan {
    /// Not a memory BAR, or not programmed.
    Skip,
    /// A memory BAR too large to map at boot (logged and left alone).
    TooBig,
    /// Map `[addr, addr + size)`; `keep_wb` keeps it write-back (a
    /// display's scanout aperture), else it is mapped uncached.
    MapIt { addr: u64, size: u64, keep_wb: bool },
}

/// The plan for BAR `i` of `info`.
pub open spec fn spec_bar_plan(info: FuncInfo, i: int) -> BarPlan {
    let bar = info.bars@[i];
    if !(bar.kind is Mem32 || bar.kind is Mem64) || bar.addr == 0 || bar.size == 0 {
        BarPlan::Skip
    } else if !(0 < bar.size <= MAX_BAR_MAP) {
        BarPlan::TooBig
    } else {
        BarPlan::MapIt { addr: bar.addr, size: bar.size, keep_wb: i == 0 && info.class == 0x03 && info.subclass == 0x00 }
    }
}

/// What to do with each of the six BARs of `info`, in order.
pub fn bar_plans(info: &FuncInfo) -> (r: Vec<BarPlan>)
    ensures
        r@.len() == 6,
        forall|i: int| 0 <= i < 6 ==> #[trigger] r@[i] == spec_bar_plan(*info, i),
{
    let mut out: Vec<BarPlan> = Vec::new();
    let mut i: usize = 0;
    while i < 6
        invariant
            i <= 6,
            out@.len() == i,
            forall|q: int| 0 <= q < i ==> #[trigger] out@[q] == spec_bar_plan(*info, q),
        decreases 6 - i,
    {
        let bar: Bar = info.bars[i];
        let plan = if !bar.kind.is_mem() || bar.addr == 0 || bar.size == 0 {
            BarPlan::Skip
        } else if !bar_map_allowed(bar.size) {
            BarPlan::TooBig
        } else {
            BarPlan::MapIt { addr: bar.addr, size: bar.size, keep_wb: i == 0 && info.class == 0x03 && info.subclass == 0x00 }
        };
        out.push(plan);
        i += 1;
    }
    out
}

} // verus!
