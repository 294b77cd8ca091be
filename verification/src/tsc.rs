//! Hardware cycle timestamps with core and NUMA node metadata.
use vstd::prelude::*;

verus! {

/// Hardware cycle timestamp with core and NUMA node metadata.
#[derive(Debug, Clone, Copy, PartialEq, Eq, Structural)]
pub struct CycleStamp {
    /// Raw CPU Time Stamp Counter (TSC) value
    pub tsc: u64,
    /// Logical CPU core ID executing this instruction
    pub core_id: u16,
    /// NUMA node ID of the executing core
    pub numa_node: u16,
}

impl Default for CycleStamp {
    fn default() -> (s: Self)
        ensures
            s == (CycleStamp { tsc: 0, core_id: 0, numa_node: 0 }),
    {
        CycleStamp { tsc: 0, core_id: 0, numa_node: 0 }
    }
}

impl CycleStamp {
    /// The stamp for a counter value and the processor's signature word: the low 12 bits
    /// name the core, the 8 bits above them the NUMA node.
    pub fn from_counter(tsc: u64, aux: u32) -> (s: Self)
        ensures
            s.tsc == tsc,
            s.core_id == aux % 4096,
            s.numa_node == (aux / 4096) % 256,
    {
        assert(aux & 0x0FFF == aux % 4096) by (bit_vector);
        assert((aux >> 12) & 0x00FF == (aux / 4096) % 256) by (bit_vector);
        CycleStamp {
            tsc,
            core_id: (aux & 0x0FFF) as u16,
            numa_node: ((aux >> 12) & 0x00FF) as u16,
        }
    }

    /// Cycles elapsed between this timestamp and `now`.
    pub fn elapsed_cycles(&self, now: &Self) -> (cycles: u64)
        ensures
            cycles == (if now.tsc >= self.tsc {
                now.tsc - self.tsc
            } else {
                0
            }),
    {
        now.diff_cycles(self)
    }

    /// Difference in cycles between two timestamps.
    pub fn diff_cycles(&self, earlier: &Self) -> (cycles: u64)
        ensures
            cycles == (if self.tsc >= earlier.tsc {
                self.tsc - earlier.tsc
            } else {
                0
            }),
    {
        self.tsc.saturating_sub(earlier.tsc)
    }
}

} // verus!
