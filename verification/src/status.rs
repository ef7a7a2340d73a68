use vstd::prelude::*;

verus! {

/// Outcome of a parse call.
#[derive(Debug, Copy, Clone, PartialEq, Eq, Structural)]
pub enum Status {
    /// No error was encountered.
    Success,
    /// A callback returned `Cancel`, stopping the parse.
    ClientCanceled,
    /// The input was not valid JSON (or the parser is in an error state).
    Error,
}

/// Major version of the library.
pub const YAJL_MAJOR: i32 = 2;

/// Minor version of the library.
pub const YAJL_MINOR: i32 = 1;

/// Micro version of the library.
pub const YAJL_MICRO: i32 = 2;

/// The version as one integer: major * 10000 + minor * 100 + micro.
pub fn yajl_version() -> (v: i32)
    ensures
        v == YAJL_MAJOR * 10000 + YAJL_MINOR * 100 + YAJL_MICRO,
        v == 20102,
{
    YAJL_MAJOR * 10000 + YAJL_MINOR * 100 + YAJL_MICRO
}

/// The human readable text of a status.
pub open spec fn spec_status_text(stat: Status) -> Seq<char> {
    match stat {
        Status::Success => "ok, no error"@,
        Status::ClientCanceled => "client canceled parse"@,
        Status::Error => "parse error"@,
    }
}

/// Describes a status in words.
pub fn yajl_status_to_string(stat: Status) -> (s: &'static str)
    ensures
        s@ == spec_status_text(stat),
{
    match stat {
        Status::Success => "ok, no error",
        Status::ClientCanceled => "client canceled parse",
        Status::Error => "parse error",
    }
}

} // verus!
