//! Version of the audio half.
use vstd::prelude::*;

verus! {

pub const LIBSWRESAMPLE_VERSION_MAJOR: u32 = 7;

pub const LIBSWRESAMPLE_VERSION_MINOR: u32 = 3;

pub const LIBSWRESAMPLE_VERSION_MICRO: u32 = 100;

/// The three parts of the version, eight bits to each of the lower two.
pub const LIBSWRESAMPLE_VERSION_INT: u32 = LIBSWRESAMPLE_VERSION_MAJOR * 65536
    + LIBSWRESAMPLE_VERSION_MINOR * 256 + LIBSWRESAMPLE_VERSION_MICRO;

/// The version as one number.
pub fn swresample_version() -> (r: u32)
    ensures
        r == LIBSWRESAMPLE_VERSION_INT,
        r == 459620,
{
    LIBSWRESAMPLE_VERSION_INT
}

/// How the library was configured: there is nothing to configure.
pub fn swresample_configuration() -> (r: &'static str)
    ensures
        r@ == ""@,
{
    ""
}

/// The license of the library.
pub fn swresample_license() -> (r: &'static str)
    ensures
        r@ == "LGPL version 2.1 or later"@,
{
    "LGPL version 2.1 or later"
}

} // verus!
