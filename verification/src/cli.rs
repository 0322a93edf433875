//! The choices of a run: which jobs, which container format, how much log.

use vstd::prelude::*;
use vstd::string::*;

verus! {

/// Log verbosity level.
#[derive(Debug, Copy, Clone, PartialEq, Eq, PartialOrd, Ord, Structural)]
pub enum LogLevel {
    /// Show extra log messages
    Debug,
    /// Show some messages and progress
    Info,
    /// Only show warnings
    Warn,
    /// Only show errors
    Error,
}

impl LogLevel {
    /// The level's name, as it is written on the command line.
    pub fn name(&self) -> (r: &'static str)
        ensures
            r@ == (match self {
                LogLevel::Debug => "debug"@,
                LogLevel::Info => "info"@,
                LogLevel::Warn => "warn"@,
                LogLevel::Error => "error"@,
            }),
    {
        match self {
            LogLevel::Debug => "debug",
            LogLevel::Info => "info",
            LogLevel::Warn => "warn",
            LogLevel::Error => "error",
        }
    }
}

/// Which job a run does.
#[derive(Debug, Copy, Clone, PartialEq, Eq, PartialOrd, Ord, Structural)]
pub enum BundleJob {
    /// Run the following jobs in order
    All,
    /// (Stage 1) Select and patch all files in this bundle
    Select,
    /// (Stage 2) Pack selected files into a bundle
    Pack,
}

impl BundleJob {
    /// The job's name, as it is written on the command line.
    pub fn name(&self) -> (r: &'static str)
        ensures
            r@ == (match self {
                BundleJob::All => "all"@,
                BundleJob::Select => "select"@,
                BundleJob::Pack => "pack"@,
            }),
    {
        match self {
            BundleJob::All => "all",
            BundleJob::Select => "select",
            BundleJob::Pack => "pack",
        }
    }

    /// Whether the run selects.
    pub fn do_select(&self) -> (r: bool)
        ensures
            r == (*self == BundleJob::All || *self == BundleJob::Select),
    {
        matches!(self, BundleJob::All | BundleJob::Select)
    }

    /// Whether the run packs.
    pub fn do_pack(&self) -> (r: bool)
        ensures
            r == (*self == BundleJob::All || *self == BundleJob::Pack),
    {
        matches!(self, BundleJob::All | BundleJob::Pack)
    }
}

/// What kind of bundle a run produces.
#[derive(Debug, Copy, Clone, PartialEq, Eq, PartialOrd, Ord, Structural)]
pub enum BundleFormat {
    BundleV1,
}

impl BundleFormat {
    /// The format's name, as it is written on the command line.
    pub fn name(&self) -> (r: &'static str)
        ensures
            r@ == "v1"@,
    {
        match self {
            BundleFormat::BundleV1 => "v1",
        }
    }
}

} // verus!
