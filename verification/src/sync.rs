//! Lock ownership token shared by the IRQ-aware spinlock.
//!
//! The spinlock itself (a compare-and-swap spin with owner tracking) lives
//! with the kernel glue: it spins without bound and panics on misuse.

use vstd::prelude::*;

verus! {

/// 0 means unlocked. Owners are never 0.
pub const UNLOCKED: usize = 0;

} // verus!
