//! The logging verbosity switch of the command line, and its mapping
//! to the logging facade's level filter.

use crate::text::str_eq;
use vstd::prelude::*;

verus! {

/// Declares the level filter enum of the `log` crate, a fieldless
/// enum, so that contracts can speak of its variants directly.
#[verifier::external_type_specification]
pub struct ExLevelFilter(log::LevelFilter);

/// A logging verbosity level.
#[derive(Clone, Copy, Debug, PartialEq, Eq, Structural)]
pub enum Verbosity {
    Debug,
    Error,
    Info,
    Trace,
    Warn,
}

impl Default for Verbosity {
    /// The default verbosity reports informational messages.
    fn default() -> (v: Verbosity)
        ensures
            v == Verbosity::Info,
    {
        Verbosity::Info
    }
}

/// The level filter that a verbosity selects.
pub open spec fn spec_levelfilter(v: Verbosity) -> log::LevelFilter {
    match v {
        Verbosity::Error => log::LevelFilter::Error,
        Verbosity::Warn => log::LevelFilter::Warn,
        Verbosity::Info => log::LevelFilter::Info,
        Verbosity::Debug => log::LevelFilter::Debug,
        Verbosity::Trace => log::LevelFilter::Trace,
    }
}

/// The lower-case name of a verbosity level.
pub open spec fn spec_verbosity_text(v: Verbosity) -> Seq<char> {
    match v {
        Verbosity::Error => "error"@,
        Verbosity::Warn => "warn"@,
        Verbosity::Info => "info"@,
        Verbosity::Debug => "debug"@,
        Verbosity::Trace => "trace"@,
    }
}

/// The verbosity that a lower-case name selects, if any.
pub open spec fn spec_verbosity_of(s: Seq<char>) -> Option<Verbosity> {
    if s == "error"@ {
        Some(Verbosity::Error)
    } else if s == "warn"@ {
        Some(Verbosity::Warn)
    } else if s == "info"@ {
        Some(Verbosity::Info)
    } else if s == "debug"@ {
        Some(Verbosity::Debug)
    } else if s == "trace"@ {
        Some(Verbosity::Trace)
    } else {
        None
    }
}

impl Verbosity {
    /// Convert the verbosity to the logging facade's level filter.
    pub fn to_levelfilter(self) -> (r: log::LevelFilter)
        ensures
            r == spec_levelfilter(self),
    {
        match self {
            Verbosity::Error => log::LevelFilter::Error,
            Verbosity::Warn => log::LevelFilter::Warn,
            Verbosity::Info => log::LevelFilter::Info,
            Verbosity::Debug => log::LevelFilter::Debug,
            Verbosity::Trace => log::LevelFilter::Trace,
        }
    }

    /// The lower-case name of the verbosity level.
    pub fn name(&self) -> (r: String)
        ensures
            r@ == spec_verbosity_text(*self),
    {
        match self {
            Verbosity::Error => "error".to_owned(),
            Verbosity::Warn => "warn".to_owned(),
            Verbosity::Info => "info".to_owned(),
            Verbosity::Debug => "debug".to_owned(),
            Verbosity::Trace => "trace".to_owned(),
        }
    }

    /// The verbosity named by a lower-case string, or nothing when
    /// the string names no level.
    pub fn from_str(verbosity: &str) -> (r: Option<Verbosity>)
        ensures
            r == spec_verbosity_of(verbosity@),
    {
        if str_eq(verbosity, "error") {
            Some(Verbosity::Error)
        } else if str_eq(verbosity, "warn") {
            Some(Verbosity::Warn)
        } else if str_eq(verbosity, "info") {
            Some(Verbosity::Info)
        } else if str_eq(verbosity, "debug") {
            Some(Verbosity::Debug)
        } else if str_eq(verbosity, "trace") {
            Some(Verbosity::Trace)
        } else {
            None
        }
    }
}

/// The verbosity names round-trip: parsing the name of any verbosity
/// yields that verbosity back.
pub proof fn lemma_verbosity_name_round_trip(v: Verbosity)
    ensures
        spec_verbosity_of(spec_verbosity_text(v)) == Some(v),
{
    reveal_strlit("error");
    reveal_strlit("warn");
    reveal_strlit("info");
    reveal_strlit("debug");
    reveal_strlit("trace");
    assert("error"@.len() == 5 && "warn"@.len() == 4 && "info"@.len() == 4 && "debug"@.len() == 5
        && "trace"@.len() == 5);
    assert("info"@[0] == 'i' && "warn"@[0] == 'w');
    assert("error"@[0] == 'e' && "debug"@[0] == 'd' && "trace"@[0] == 't');
}

} // verus!
