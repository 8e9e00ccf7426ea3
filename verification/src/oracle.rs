//! Free-memory sensing: the live system query and a scripted stand-in.

use vstd::prelude::*;

verus! {

/// Calls `sysinfo::System::new`, `refresh_memory` and `free_memory`: the free
/// physical memory of the machine at this moment, in bytes. Nothing is claimed
/// of the value, which changes from one call to the next.
#[verifier::external_body]
pub(crate) fn system_free_memory() -> (free: u64) {
    let mut system = <sysinfo::System as sysinfo::SystemExt>::new();
    sysinfo::SystemExt::refresh_memory(&mut system);
    sysinfo::SystemExt::free_memory(&system)
}

/// Calls `sysinfo::System::new`, `refresh_memory` and `total_memory`: the
/// physical memory of the machine, in bytes. Nothing is claimed of the value.
#[verifier::external_body]
pub(crate) fn system_total_memory() -> (total: u64) {
    let mut system = <sysinfo::System as sysinfo::SystemExt>::new();
    sysinfo::SystemExt::refresh_memory(&mut system);
    sysinfo::SystemExt::total_memory(&system)
}

/// The reading a script gives at `position`: its entries in order, then its
/// last entry for ever; an empty script reads zero.
pub open spec fn scripted_reading(readings: Seq<u64>, position: int) -> u64 {
    if 0 <= position < readings.len() {
        readings[position]
    } else if readings.len() > 0 {
        readings[readings.len() - 1]
    } else {
        0
    }
}

/// A source of free-memory readings.
#[derive(Debug)]
pub enum MemoryOracle {
    /// The machine this process runs on.
    System,
    /// A fixed sequence of readings, for runs that must be repeatable.
    Scripted { readings: Vec<u64>, position: usize },
}

impl MemoryOracle {
    /// Whether the next query may answer `free`. The system may answer
    /// anything; a script answers its reading at the current position.
    pub open spec fn admits(&self, free: u64) -> bool {
        match self {
            MemoryOracle::System => true,
            MemoryOracle::Scripted { readings, position } => free == scripted_reading(
                readings@,
                *position as int,
            ),
        }
    }

    /// The oracle after one query: a script moves on by one reading until it
    /// is used up.
    pub open spec fn advanced(self) -> MemoryOracle {
        match self {
            MemoryOracle::System => MemoryOracle::System,
            MemoryOracle::Scripted { readings, position } => MemoryOracle::Scripted {
                readings,
                position: if position < readings@.len() {
                    (position + 1) as usize
                } else {
                    position
                },
            },
        }
    }

    /// An oracle that asks the operating system.
    pub fn system() -> (oracle: MemoryOracle)
        ensures
            oracle == MemoryOracle::System,
    {
        MemoryOracle::System
    }

    /// An oracle that replays `readings` from the first one.
    pub fn scripted(readings: Vec<u64>) -> (oracle: MemoryOracle)
        ensures
            oracle == (MemoryOracle::Scripted { readings, position: 0 }),
    {
        MemoryOracle::Scripted { readings, position: 0 }
    }

    /// Free physical memory in bytes, sensed anew on every call.
    pub fn free_memory(&mut self) -> (free: u64)
        ensures
            old(self).admits(free),
            *final(self) == old(self).advanced(),
    {
        match self {
            MemoryOracle::System => system_free_memory(),
            MemoryOracle::Scripted { readings, position } => {
                let length = readings.len();
                if *position < length {
                    let free = readings[*position];
                    *position = *position + 1;
                    free
                } else if length > 0 {
                    readings[length - 1]
                } else {
                    0
                }
            },
        }
    }
}

} // verus!
