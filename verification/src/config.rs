//! The configuration of a run and the budget policy derived from it.

use crate::oracle::{system_free_memory, system_total_memory};
use vstd::prelude::*;

verus! {

/// Bytes in one mebibyte.
pub const MEGABYTE: u64 = 1048576;

/// Free memory below which a run must not begin.
pub const MIN_MEMORY: u64 = 100 * MEGABYTE;

/// The margin used when neither an absolute value nor a percentage is given.
pub const DEFAULT_MARGIN: u64 = 7000 * MEGABYTE;

/// Why a run must not begin.
#[derive(Clone, Copy, Debug, PartialEq, Eq, Structural)]
pub enum StartupError {
    /// Free memory is below `MIN_MEMORY`.
    InsufficientMemory,
    /// The margin percentage lies outside 1..=100.
    InvalidPercent,
}

/// The immutable settings of one run.
#[derive(Clone, Copy, Debug, PartialEq, Eq, Structural)]
pub struct Config {
    /// Free memory that buffering must never consume.
    pub margin_bytes: u64,
    /// Largest file that may be buffered and largest chunk; 0 means unbounded.
    pub file_size_limit: u64,
}

/// Whether `percent` is an acceptable margin percentage.
pub open spec fn valid_percent(percent: u64) -> bool {
    1 <= percent <= 100
}

/// The margin that `percent` of `total_memory` amounts to, rounded down.
pub open spec fn percent_of(percent: u64, total_memory: u64) -> int {
    (percent as int * total_memory as int) / 100
}

/// The margin a set of options resolves to, provided the percentage is valid
/// where one is given: the absolute value wins over the percentage, and the
/// default applies when neither is present.
pub open spec fn resolved_margin(
    absolute: Option<u64>,
    percent: Option<u64>,
    total_memory: u64,
) -> int {
    match (absolute, percent) {
        (Some(a), _) => a as int,
        (None, Some(p)) => percent_of(p, total_memory),
        (None, None) => DEFAULT_MARGIN as int,
    }
}

/// What starting a run yields for the given options and memory readings.
pub open spec fn startup_outcome(
    absolute: Option<u64>,
    percent: Option<u64>,
    file_size_limit: u64,
    free_memory: u64,
    total_memory: u64,
) -> Result<Config, StartupError> {
    if free_memory < MIN_MEMORY {
        Err(StartupError::InsufficientMemory)
    } else if percent is Some && !valid_percent(percent->0) {
        Err(StartupError::InvalidPercent)
    } else {
        Ok(
            Config {
                margin_bytes: resolved_margin(absolute, percent, total_memory) as u64,
                file_size_limit,
            },
        )
    }
}

proof fn lemma_percent_of_bounded(percent: u64, total_memory: u64)
    requires
        percent <= 100,
    ensures
        0 <= percent_of(percent, total_memory) <= total_memory,
{
    assert(percent as int * total_memory as int <= 100 * total_memory as int)
        by (nonlinear_arith)
        requires
            percent <= 100,
            0 <= total_memory,
    ;
    assert(0 <= percent as int * total_memory as int) by (nonlinear_arith);
}

/// Rejects a run when free memory is below the minimum.
pub fn check_minimum_memory(free_memory: u64) -> (res: Result<(), StartupError>)
    ensures
        res is Ok <==> free_memory >= MIN_MEMORY,
        res is Err ==> res == Err::<(), StartupError>(StartupError::InsufficientMemory),
{
    if free_memory < MIN_MEMORY {
        Err(StartupError::InsufficientMemory)
    } else {
        Ok(())
    }
}

/// The margin for a percentage of total memory.
pub fn margin_from_percent(percent: u64, total_memory: u64) -> (res: Result<u64, StartupError>)
    ensures
        valid_percent(percent) ==> res is Ok && res->Ok_0 == percent_of(percent, total_memory),
        !valid_percent(percent) ==> res == Err::<u64, StartupError>(StartupError::InvalidPercent),
{
    if percent < 1 || percent > 100 {
        return Err(StartupError::InvalidPercent);
    }
    proof {
        lemma_percent_of_bounded(percent, total_memory);
        assert(percent as int * total_memory as int <= 100 * 0xffff_ffff_ffff_ffff)
            by (nonlinear_arith)
            requires
                percent <= 100,
                total_memory <= 0xffff_ffff_ffff_ffff,
        ;
    }
    let wide: u128 = (percent as u128) * (total_memory as u128) / 100;
    Ok(wide as u64)
}

/// The margin that the options resolve to. A percentage outside 1..=100 is
/// rejected even when an absolute value would take precedence over it.
pub fn resolve_margin(absolute: Option<u64>, percent: Option<u64>, total_memory: u64) -> (res:
    Result<u64, StartupError>)
    ensures
        percent is Some && !valid_percent(percent->0) ==> res == Err::<u64, StartupError>(
            StartupError::InvalidPercent,
        ),
        percent is None || valid_percent(percent->0) ==> res is Ok && res->Ok_0 == resolved_margin(
            absolute,
            percent,
            total_memory,
        ),
{
    let from_percent = match percent {
        Some(p) => {
            match margin_from_percent(p, total_memory) {
                Ok(m) => Some(m),
                Err(e) => {
                    return Err(e);
                },
            }
        },
        None => None,
    };
    match absolute {
        Some(a) => Ok(a),
        None => match from_percent {
            Some(m) => Ok(m),
            None => Ok(DEFAULT_MARGIN),
        },
    }
}

impl Config {
    /// A configuration from values that are already validated.
    pub fn new(margin_bytes: u64, file_size_limit: u64) -> (config: Config)
        ensures
            config == (Config { margin_bytes, file_size_limit }),
    {
        Config { margin_bytes, file_size_limit }
    }

    /// Validates the options against the two memory readings taken at startup.
    /// Too little free memory is reported before an invalid percentage.
    pub fn from_readings(
        absolute: Option<u64>,
        percent: Option<u64>,
        file_size_limit: u64,
        free_memory: u64,
        total_memory: u64,
    ) -> (res: Result<Config, StartupError>)
        ensures
            res == startup_outcome(absolute, percent, file_size_limit, free_memory, total_memory),
    {
        match check_minimum_memory(free_memory) {
            Err(e) => {
                return Err(e);
            },
            Ok(_) => {},
        }
        proof {
            if percent is Some && valid_percent(percent->0) {
                lemma_percent_of_bounded(percent->0, total_memory);
            }
        }
        match resolve_margin(absolute, percent, total_memory) {
            Ok(margin_bytes) => Ok(Config { margin_bytes, file_size_limit }),
            Err(e) => Err(e),
        }
    }

    /// Senses free and total memory once and validates the options against
    /// the two readings.
    pub fn from_system(absolute: Option<u64>, percent: Option<u64>, file_size_limit: u64) -> (res:
        Result<Config, StartupError>)
        ensures
            exists|free: u64, total: u64|
                res == #[trigger] startup_outcome(absolute, percent, file_size_limit, free, total),
    {
        let free = system_free_memory();
        let total = system_total_memory();
        Config::from_readings(absolute, percent, file_size_limit, free, total)
    }

    /// Memory that may be used right now: what is free beyond the margin,
    /// zero when free memory is already below the margin.
    pub open spec fn available(self, free_memory: u64) -> nat {
        if free_memory >= self.margin_bytes {
            (free_memory - self.margin_bytes) as nat
        } else {
            0
        }
    }

    /// Whether the buffer has to be flushed before a file of `entry_size`
    /// bytes is handled.
    pub open spec fn flush_needed(self, free_memory: u64, entry_size: u64) -> bool {
        free_memory < self.margin_bytes + entry_size
    }

    /// Whether a file of `entry_size` bytes may be read into memory whole.
    pub open spec fn may_buffer(self, free_memory: u64, entry_size: u64) -> bool {
        &&& entry_size + self.margin_bytes <= free_memory
        &&& (self.file_size_limit == 0 || entry_size <= self.file_size_limit)
    }

    /// The number of bytes one chunk of a big file may hold.
    pub open spec fn chunk_limit(self, free_memory: u64) -> nat {
        if self.file_size_limit == 0 {
            self.available(free_memory)
        } else if self.file_size_limit as nat <= self.available(free_memory) {
            self.file_size_limit as nat
        } else {
            self.available(free_memory)
        }
    }

    /// Free memory beyond the margin, clamped at zero.
    pub fn available_memory(&self, free_memory: u64) -> (available: u64)
        ensures
            available == self.available(free_memory),
    {
        free_memory.saturating_sub(self.margin_bytes)
    }

    /// True when `free_memory` is below the margin plus `entry_size`.
    pub fn should_flush_before(&self, free_memory: u64, entry_size: u64) -> (flush: bool)
        ensures
            flush == self.flush_needed(free_memory, entry_size),
    {
        match self.margin_bytes.checked_add(entry_size) {
            Some(needed) => free_memory < needed,
            None => true,
        }
    }

    /// True when the file fits into memory without breaching the margin and
    /// does not exceed a nonzero size limit.
    pub fn should_buffer(&self, free_memory: u64, entry_size: u64) -> (buffer: bool)
        ensures
            buffer == self.may_buffer(free_memory, entry_size),
            self.file_size_limit != 0 && entry_size > self.file_size_limit ==> !buffer,
    {
        free_memory >= self.margin_bytes && entry_size <= free_memory - self.margin_bytes && (
        self.file_size_limit == 0 || entry_size <= self.file_size_limit)
    }

    /// The chunk size for a big file: all available memory, capped by a
    /// nonzero size limit.
    pub fn chunk_size(&self, free_memory: u64) -> (size: u64)
        ensures
            size == self.chunk_limit(free_memory),
    {
        let available = self.available_memory(free_memory);
        if self.file_size_limit == 0 || available < self.file_size_limit {
            available
        } else {
            self.file_size_limit
        }
    }
}

} // verus!
