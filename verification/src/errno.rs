//! Error numbers and clocks of the operating system, as Android has them and Linux
//! on x86, Arm, RISC-V and most other processors.
use vstd::prelude::*;

verus! {

pub const EPERM: i32 = 1;

pub const ESRCH: i32 = 3;

pub const EINTR: i32 = 4;

pub const ENOMEM: i32 = 12;

pub const EFAULT: i32 = 14;

pub const EINVAL: i32 = 22;

pub const EOVERFLOW: i32 = 75;

pub const ETIMEDOUT: i32 = 110;

pub const ESTALE: i32 = 116;

pub const EOWNERDEAD: i32 = 130;

/// `libc::ENOMEM`: 12 on Linux and Android.
#[verifier::external_body]
pub(crate) fn os_enomem() -> (e: i32)
    ensures
        e == ENOMEM,
{
    libc::ENOMEM
}

/// `libc::ETIMEDOUT`: 110 on Android, and on Linux for every processor but MIPS and
/// SPARC, which this library does not run on.
#[verifier::external_body]
pub(crate) fn os_etimedout() -> (e: i32)
    ensures
        e == ETIMEDOUT,
{
    libc::ETIMEDOUT
}

/// `libc::ESRCH`: 3 on Linux and Android.
#[verifier::external_body]
pub(crate) fn os_esrch() -> (e: i32)
    ensures
        e == ESRCH,
{
    libc::ESRCH
}

/// `libc::EINVAL`: 22 on Linux and Android.
#[verifier::external_body]
pub(crate) fn os_einval() -> (e: i32)
    ensures
        e == EINVAL,
{
    libc::EINVAL
}

/// `libc::ESTALE`: 116 on Android, and on Linux for every processor but MIPS and
/// SPARC, which this library does not run on.
#[verifier::external_body]
pub(crate) fn os_estale() -> (e: i32)
    ensures
        e == ESTALE,
{
    libc::ESTALE
}

/// `libc::EINTR`: 4 on Linux and Android.
#[verifier::external_body]
pub(crate) fn os_eintr() -> (e: i32)
    ensures
        e == EINTR,
{
    libc::EINTR
}

/// `libc::EOWNERDEAD`: 130 on Android, and on Linux for every processor but MIPS and
/// SPARC, which this library does not run on.
#[verifier::external_body]
pub(crate) fn os_eownerdead() -> (e: i32)
    ensures
        e == EOWNERDEAD,
{
    libc::EOWNERDEAD
}

/// The clock that counts since the epoch.
pub const CLOCK_REALTIME: i32 = 0;

/// The clock that never jumps.
pub const CLOCK_MONOTONIC: i32 = 1;

/// `libc::CLOCK_REALTIME`: 0 on Linux and Android.
#[verifier::external_body]
pub(crate) fn os_clock_realtime() -> (clock: i32)
    ensures
        clock == CLOCK_REALTIME,
{
    libc::CLOCK_REALTIME
}

/// `libc::CLOCK_MONOTONIC`: 1 on Linux and Android.
#[verifier::external_body]
pub(crate) fn os_clock_monotonic() -> (clock: i32)
    ensures
        clock == CLOCK_MONOTONIC,
{
    libc::CLOCK_MONOTONIC
}

} // verus!
