//! Error categories of the library.
use vstd::prelude::*;
use crate::text::{append_vec, chars_of, contains_str, contains_text, string_of};
use crate::num::{radix_digits, radix_digits_exec};

verus! {

/// What kind of local I/O failure an [`AppError::Io`] reports.
#[derive(Debug, Clone, Copy, PartialEq, Eq, Structural)]
pub enum IoKind {
    PermissionDenied,
    NotFound,
    UnexpectedEof,
    Interrupted,
    Other,
}

/// All error types, categorized by source.
#[derive(Debug, Clone)]
pub enum AppError {
    Connection(String),
    NoDevice,
    MultipleDevices,
    Permission { path: String },
    Transfer { path: String, reason: String },
    NotFound { path: String },
    DiskFull { needed: u64, available: u64 },
    Protocol(String),
    StateCorrupted(String),
    ChecksumMismatch { path: String, expected: String, actual: String },
    Io { kind: IoKind, message: String },
    Other(String),
}

/// Result type alias using AppError.
pub type AppResult<T> = Result<T, AppError>;

/// Whether an error reports a permission denial that root access might bypass.
pub open spec fn spec_is_permission_denied(e: AppError) -> bool {
    match e {
        AppError::Permission { .. } => true,
        AppError::Transfer { reason, .. } => contains_text(reason@, "Permission denied"@)
            || contains_text(reason@, "Operation not permitted"@),
        AppError::Io { kind, .. } => kind == IoKind::PermissionDenied,
        _ => false,
    }
}

/// Returns `true` when the error indicates a permission denial that might
/// be bypassed with root access on the device.
pub fn is_permission_denied(e: &AppError) -> (b: bool)
    ensures
        b == spec_is_permission_denied(*e),
{
    match e {
        AppError::Permission { .. } => true,
        AppError::Transfer { reason, .. } => {
            let r = chars_of(reason.as_str());
            contains_str(&r, "Permission denied") || contains_str(&r, "Operation not permitted")
        },
        AppError::Io { kind, .. } => match kind {
            IoKind::PermissionDenied => true,
            _ => false,
        },
        _ => false,
    }
}

/// Minimum headroom to reserve on the destination filesystem (500 MiB).
pub const DISK_HEADROOM: u64 = 524288000;

/// Bytes a transfer of `required` bytes needs free, headroom included (saturating).
pub open spec fn needed_space(required: u64) -> u64 {
    if required + DISK_HEADROOM > u64::MAX {
        u64::MAX
    } else {
        (required + DISK_HEADROOM) as u64
    }
}

/// Decides the disk-space check once the free space of the destination is
/// known: `Err(DiskFull)` when `available < required + DISK_HEADROOM`.
pub fn check_disk_space_for(available: u64, required_bytes: u64) -> (r: AppResult<()>)
    ensures
        available >= needed_space(required_bytes) <==> r is Ok,
        r matches Err(e) ==> e == (AppError::DiskFull {
            needed: needed_space(required_bytes),
            available,
        }),
{
    let needed = required_bytes.saturating_add(DISK_HEADROOM);
    if available < needed {
        return Err(AppError::DiskFull { needed, available });
    }
    Ok(())
}

/// Decimal digits of a count.
pub open spec fn decimal_text(n: u64) -> Seq<char> {
    radix_digits(n as nat, 10)
}

/// The message that describes an error to the user.
pub open spec fn error_text(e: AppError) -> Seq<char> {
    match e {
        AppError::Connection(m) => "ADB connection failed: "@ + m@,
        AppError::NoDevice => "No ADB devices found. Is USB debugging enabled?"@,
        AppError::MultipleDevices => "Multiple devices found. Please select one."@,
        AppError::Permission { path } => "Permission denied: "@ + path@,
        AppError::Transfer { path, reason } => "File transfer failed: "@ + path@ + " — "@ + reason@,
        AppError::NotFound { path } => "File not found on device: "@ + path@,
        AppError::DiskFull { needed, available } => "Disk full: needed "@ + decimal_text(needed)
            + " bytes, only "@ + decimal_text(available) + " available"@,
        AppError::Protocol(m) => "ADB protocol error: "@ + m@,
        AppError::StateCorrupted(m) => "State file corrupted: "@ + m@,
        AppError::ChecksumMismatch { path, expected, actual } => "Checksum mismatch: "@ + path@
            + " — expected "@ + expected@ + ", got "@ + actual@,
        AppError::Io { message, .. } => "IO error: "@ + message@,
        AppError::Other(m) => "Unexpected error: "@ + m@,
    }
}

fn push_str(v: &mut Vec<char>, s: &str)
    ensures
        final(v)@ == old(v)@ + s@,
{
    append_vec(v, &chars_of(s));
}

fn push_count(v: &mut Vec<char>, n: u64)
    ensures
        final(v)@ == old(v)@ + decimal_text(n),
{
    append_vec(v, &radix_digits_exec(n as u128, 10));
}

impl AppError {
    /// The message that describes this error to the user.
    pub fn message(&self) -> (s: String)
        ensures
            s@ == error_text(*self),
    {
        let mut v: Vec<char> = Vec::new();
        match self {
            AppError::Connection(m) => {
                push_str(&mut v, "ADB connection failed: ");
                push_str(&mut v, m.as_str());
            },
            AppError::NoDevice => {
                push_str(&mut v, "No ADB devices found. Is USB debugging enabled?");
            },
            AppError::MultipleDevices => {
                push_str(&mut v, "Multiple devices found. Please select one.");
            },
            AppError::Permission { path } => {
                push_str(&mut v, "Permission denied: ");
                push_str(&mut v, path.as_str());
            },
            AppError::Transfer { path, reason } => {
                push_str(&mut v, "File transfer failed: ");
                push_str(&mut v, path.as_str());
                push_str(&mut v, " — ");
                push_str(&mut v, reason.as_str());
            },
            AppError::NotFound { path } => {
                push_str(&mut v, "File not found on device: ");
                push_str(&mut v, path.as_str());
            },
            AppError::DiskFull { needed, available } => {
                push_str(&mut v, "Disk full: needed ");
                push_count(&mut v, *needed);
                push_str(&mut v, " bytes, only ");
                push_count(&mut v, *available);
                push_str(&mut v, " available");
            },
            AppError::Protocol(m) => {
                push_str(&mut v, "ADB protocol error: ");
                push_str(&mut v, m.as_str());
            },
            AppError::StateCorrupted(m) => {
                push_str(&mut v, "State file corrupted: ");
                push_str(&mut v, m.as_str());
            },
            AppError::ChecksumMismatch { path, expected, actual } => {
                push_str(&mut v, "Checksum mismatch: ");
                push_str(&mut v, path.as_str());
                push_str(&mut v, " — expected ");
                push_str(&mut v, expected.as_str());
                push_str(&mut v, ", got ");
                push_str(&mut v, actual.as_str());
            },
            AppError::Io { message, .. } => {
                push_str(&mut v, "IO error: ");
                push_str(&mut v, message.as_str());
            },
            AppError::Other(m) => {
                push_str(&mut v, "Unexpected error: ");
                push_str(&mut v, m.as_str());
            },
        }
        assert(v@ =~= error_text(*self));
        string_of(&v)
    }
}

} // verus!
