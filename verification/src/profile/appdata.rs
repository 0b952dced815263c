//! Best-effort app-data (`/data/data/<pkg>`) archive streaming via root.
use vstd::prelude::*;
use crate::adb::client::{quote_shell, spec_quote_shell};
use crate::error::{error_text, AppError, AppResult};
use crate::text::{append_vec, chars_of, string_of};

verus! {

/// The device command that streams `/data/data/<pkg>` as a tar archive on
/// standard output, run as root.
pub fn appdata_backup_command(pkg: &str) -> (cmd: String)
    ensures
        cmd@ == "su -c 'tar -cf - -C /data/data "@ + spec_quote_shell(pkg@) + "'"@,
{
    let mut c = chars_of("su -c 'tar -cf - -C /data/data ");
    let q = quote_shell(pkg);
    append_vec(&mut c, &chars_of(q.as_str()));
    append_vec(&mut c, &chars_of("'"));
    string_of(&c)
}

/// The device command that unpacks a tar archive from standard input into
/// `/data/data`, run as root.
pub const APPDATA_RESTORE_COMMAND: &'static str = "su -c 'tar -xf - -C /data/data'";

/// The device command that restores SELinux labels under `/data/data`.
pub const RESTORECON_COMMAND: &'static str = "su -c 'restorecon -R /data/data'";

/// How a best-effort app-data backup reports the result of streaming the
/// archive into the local file `target`: a byte count as it came; a local
/// I/O failure, the only hard error, as `Err` with its reason; any
/// device-side failure as `Ok(0)`, nothing usable to restore, with its
/// reason handed back as a warning.
pub fn best_effort_outcome(result: AppResult<u64>, target: &str) -> (r: (
    Result<u64, String>,
    Option<String>,
))
    ensures
        match result {
            Ok(n) => (r.0 matches Ok(k) && k == n) && r.1 is None,
            Err(AppError::Io { message, .. }) => (r.0 matches Err(m) && m@
                == "local I/O failure writing "@ + target@ + ": "@ + message@) && r.1 is None,
            Err(e) => (r.0 matches Ok(k) && k == 0) && (r.1 matches Some(w) && w@ == error_text(e)),
        },
{
    match result {
        Ok(n) => (Ok(n), None),
        Err(AppError::Io { message, .. }) => {
            let mut m = chars_of("local I/O failure writing ");
            append_vec(&mut m, &chars_of(target));
            append_vec(&mut m, &chars_of(": "));
            append_vec(&mut m, &chars_of(message.as_str()));
            (Err(string_of(&m)), None)
        },
        Err(e) => {
            let w = e.message();
            (Ok(0), Some(w))
        },
    }
}

} // verus!
