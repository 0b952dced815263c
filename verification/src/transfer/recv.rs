//! Single-file pulls and their rooted fallback.
use vstd::prelude::*;
use crate::adb::client::{quote_shell, spec_quote_shell};
use crate::error::{is_permission_denied, spec_is_permission_denied, AppError, AppResult};
use crate::num::{radix_digits, radix_digits_exec};
use crate::text::{append_vec, chars_of, owned, string_of};

verus! {

/// Pulls individual files using ADB pull command.
/// This is the fallback when tar streaming isn't available or when
/// pulling individually selected files.
pub struct RecvPuller;

/// Decimal digits of a count.
pub open spec fn decimal(n: u64) -> Seq<char> {
    radix_digits(n as nat, 10)
}

impl RecvPuller {
    /// Whether a failed `adb pull` is retried through a rooted `cat`
    /// stream: only for a permission denial, and only where `su` works.
    pub fn should_try_rooted(error: &AppError, su_available: bool) -> (b: bool)
        ensures
            b == (spec_is_permission_denied(*error) && su_available),
    {
        is_permission_denied(error) && su_available
    }

    /// Whether a file has to be pulled, given the size of the local copy
    /// (if there is one): it is skipped only when that size is the expected one.
    pub fn needs_pull(local_size: Option<u64>, expected_size: u64) -> (b: bool)
        ensures
            b == !(local_size == Some(expected_size)),
    {
        match local_size {
            Some(n) => n != expected_size,
            None => true,
        }
    }

    /// The device command that streams a file as root.
    pub fn cat_command(remote_path: &str) -> (cmd: String)
        ensures
            cmd@ == "su -c 'cat "@ + spec_quote_shell(remote_path@) + "'"@,
    {
        let mut c = chars_of("su -c 'cat ");
        let q = quote_shell(remote_path);
        append_vec(&mut c, &chars_of(q.as_str()));
        append_vec(&mut c, &chars_of("'"));
        string_of(&c)
    }

    /// The check after a rooted pull: the local copy must have as many
    /// bytes as the remote file.
    pub fn check_size(remote_path: &str, expected: u64, actual: u64) -> (r: AppResult<()>)
        ensures
            expected == actual ==> r is Ok,
            expected != actual ==> (r matches Err(AppError::Transfer { path, reason }) && path@
                == remote_path@ && reason@ == "size mismatch: expected "@ + decimal(expected)
                + ", got "@ + decimal(actual)),
    {
        if expected == actual {
            return Ok(());
        }
        let mut m = chars_of("size mismatch: expected ");
        append_vec(&mut m, &radix_digits_exec(expected as u128, 10));
        append_vec(&mut m, &chars_of(", got "));
        append_vec(&mut m, &radix_digits_exec(actual as u128, 10));
        Err(AppError::Transfer { path: owned(remote_path), reason: string_of(&m) })
    }
}

} // verus!
