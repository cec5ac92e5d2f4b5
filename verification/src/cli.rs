use vstd::prelude::*;

verus! {

/// How much the node logs.
#[derive(Clone, Copy, Debug, PartialEq, Eq, Structural)]
pub enum LogLevel {
    Trace,
    Debug,
    Info,
    Warn,
    Error,
}

impl LogLevel {
    /// The level's name, as the command line and the log filter write it.
    pub fn as_str(&self) -> (r: &'static str)
        ensures
            r@ == match *self {
                LogLevel::Trace => "trace"@,
                LogLevel::Debug => "debug"@,
                LogLevel::Info => "info"@,
                LogLevel::Warn => "warn"@,
                LogLevel::Error => "error"@,
            },
    {
        match self {
            LogLevel::Trace => "trace",
            LogLevel::Debug => "debug",
            LogLevel::Info => "info",
            LogLevel::Warn => "warn",
            LogLevel::Error => "error",
        }
    }
}

/// The command line: the cluster secret, where to mount, how much to log
/// and how many megabytes of chunks to pin.
pub struct Args {
    pub secret: String,
    pub mountpoint: String,
    pub log_level: LogLevel,
    pub max_storage: u64,
}

/// Bytes in a megabyte.
pub const BYTES_PER_MEGABYTE: u64 = 1024 * 1024;

impl Args {
    /// The pinning capacity in bytes that the option asks for; `None` when
    /// it does not fit in the address space.
    pub fn capacity_bytes(&self) -> (r: Option<usize>)
        ensures
            match r {
                Some(n) => n == self.max_storage * BYTES_PER_MEGABYTE,
                None => self.max_storage * BYTES_PER_MEGABYTE > usize::MAX,
            },
    {
        match self.max_storage.checked_mul(BYTES_PER_MEGABYTE) {
            Some(n) => {
                if n <= usize::MAX as u64 {
                    Some(n as usize)
                } else {
                    None
                }
            },
            None => None,
        }
    }
}

} // verus!
