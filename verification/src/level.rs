//! Choosing the verbosity of the provers' log files from a command-line word.
use vstd::prelude::*;
use vstd::string::StrSliceExecFns;

verus! {

/// The verbosity levels of the log files, from most to least verbose.
#[derive(Debug, Clone, Copy, PartialEq, Eq, Structural)]
pub enum LogLevel {
    Trace,
    Debug,
    Info,
    Warn,
    Error,
}

/// The Unicode upper-case form of a string.
pub uninterp spec fn to_uppercase_spec(s: Seq<char>) -> Seq<char>;

/// std's `str::to_uppercase`: the contract names its result and says nothing
/// more of it (what Unicode's upper-case mapping gives is left unstated).
#[verifier::external_body]
fn to_uppercase(s: &str) -> (r: String)
    ensures
        r@ == to_uppercase_spec(s@),
{
    s.to_uppercase()
}

/// The level that an upper-case name selects; any other word selects `Info`.
pub open spec fn level_of(name: Seq<char>) -> LogLevel {
    if name == "TRACE"@ {
        LogLevel::Trace
    } else if name == "DEBUG"@ {
        LogLevel::Debug
    } else if name == "INFO"@ {
        LogLevel::Info
    } else if name == "WARN"@ {
        LogLevel::Warn
    } else if name == "ERROR"@ {
        LogLevel::Error
    } else {
        LogLevel::Info
    }
}

/// Compares two strings character by character.
pub fn str_eq(a: &str, b: &str) -> (r: bool)
    ensures
        r == (a@ == b@),
{
    let n = a.unicode_len();
    if n != b.unicode_len() {
        return false;
    }
    let mut i: usize = 0;
    while i < n
        invariant
            0 <= i <= n,
            n == a@.len(),
            n == b@.len(),
            forall|j: int| 0 <= j < i ==> a@[j] == b@[j],
        decreases n - i,
    {
        if a.get_char(i) != b.get_char(i) {
            return false;
        }
        i = i + 1;
    }
    assert(a@ =~= b@);
    true
}

/// The level that an already upper-cased name selects.
pub fn level_from_upper(name: &str) -> (r: LogLevel)
    ensures
        r == level_of(name@),
{
    if str_eq(name, "TRACE") {
        LogLevel::Trace
    } else if str_eq(name, "DEBUG") {
        LogLevel::Debug
    } else if str_eq(name, "INFO") {
        LogLevel::Info
    } else if str_eq(name, "WARN") {
        LogLevel::Warn
    } else if str_eq(name, "ERROR") {
        LogLevel::Error
    } else {
        LogLevel::Info
    }
}

/// The level named by a command-line word, in any letter case; `Info` for
/// any word that names no level.
pub fn get_log_level(level: &str) -> (r: LogLevel)
    ensures
        r == level_of(to_uppercase_spec(level@)),
{
    let upper = to_uppercase(level);
    level_from_upper(upper.as_str())
}

} // verus!
