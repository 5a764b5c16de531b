//! Sorted kernel symbol table lookup: binary search, no allocation. The
//! table itself is generated at link time into the kernel binary.

use vstd::prelude::*;

verus! {

#[derive(Clone, Copy, Debug, PartialEq, Eq)]
pub struct Entry {
    pub addr: u64,
    pub name: &'static str,
}

/// `table` is ordered by address.
pub open spec fn sorted_by_addr(table: Seq<Entry>) -> bool {
    forall|i: int, j: int| 0 <= i <= j < table.len() ==> (#[trigger] table[i]).addr <= (#[trigger] table[j]).addr
}

/// Entry `k` starts at or below `addr` and the next one (if any) above it.
pub open spec fn covers(table: Seq<Entry>, k: int, addr: u64) -> bool {
    &&& 0 <= k < table.len()
    &&& table[k].addr <= addr
    &&& (k + 1 == table.len() || table[k + 1].addr > addr)
}

/// The entry that covers `addr`. `None` if the table is empty or `addr`
/// is before the first symbol.
pub fn lookup(table: &[Entry], addr: u64) -> (r: Option<&Entry>)
    ensures
        (table@.len() == 0 || addr < table@[0].addr) ==> r is None,
        !(table@.len() == 0 || addr < table@[0].addr) ==> exists|k: int|
            covers(table@, k, addr) && r == Some(&table@[k]),
{
    if table.len() == 0 || addr < table[0].addr {
        return None;
    }
    let mut lo: usize = 0;
    let mut hi: usize = table.len();
    while lo + 1 < hi
        invariant
            lo < hi <= table@.len(),
            table@[lo as int].addr <= addr,
            hi == table@.len() || table@[hi as int].addr > addr,
        decreases hi - lo,
    {
        let mid = lo + (hi - lo) / 2;
        if table[mid].addr <= addr {
            lo = mid;
        } else {
            hi = mid;
        }
    }
    assert(covers(table@, lo as int, addr));
    Some(&table[lo])
}

/// In a sorted table the covering entry is the greatest one at or below
/// `addr`: every later entry starts above it.
pub proof fn lemma_covers_is_greatest(table: Seq<Entry>, k: int, addr: u64)
    requires
        sorted_by_addr(table),
        covers(table, k, addr),
    ensures
        forall|j: int| k < j < table.len() ==> (#[trigger] table[j]).addr > addr,
        forall|j: int| 0 <= j <= k ==> (#[trigger] table[j]).addr <= addr,
{
    assert forall|j: int| k < j < table.len() implies (#[trigger] table[j]).addr > addr by {
        assert(table[k + 1].addr <= table[j].addr);
    }
    assert forall|j: int| 0 <= j <= k implies (#[trigger] table[j]).addr <= addr by {
        assert(table[j].addr <= table[k].addr);
    }
}

/// Offset from the looked-up symbol (0 if `addr` is below it).
pub fn offset(entry: &Entry, addr: u64) -> (r: u64)
    ensures
        r == (if addr >= entry.addr { addr - entry.addr } else { 0 }),
{
    addr.saturating_sub(entry.addr)
}

} // verus!
