//! Restore planning: package/space preflight and restore order.
use vstd::prelude::*;
use crate::num::{parse_unsigned, parse_unsigned_exec};
use crate::profile::ProfileSpec;
use crate::text::{
    append_vec, chars_of, lines, lines_vec, owned, rscan, rscan_exec, slice_vec, split_ws_vec,
    starts_with, starts_with_str, string_of, trim, trim_vec, utf8_len, utf8_len_exec, views,
    ws_tokens, Stop,
};
use crate::adb::client::{quote_shell, spec_quote_shell};
use crate::error::AppResult;
use crate::profile::runner::{by_priority, profiles_of, sorted_by_priority, ProfileOutcome};
use crate::text::{trim_start_char, trim_start_char_vec};
use crate::transfer::plan::{join_path, join_path_exec};

verus! {

/// Result of the preflight checks performed before a restore.
#[derive(Debug, Clone)]
pub struct PreflightReport {
    pub package_installed: bool,
    pub free_bytes: u64,
    pub warnings: Vec<String>,
}

/// Whether one line of `pm path` output names an installed package.
pub open spec fn pm_line_installed(l: Seq<char>) -> bool {
    starts_with(trim(l), "package:"@) && utf8_len(trim(l)) > utf8_len("package:"@)
}

/// Whether some line of `pm path` output names an installed package.
pub open spec fn spec_parse_pm_path(output: Seq<char>) -> bool {
    exists|i: int| 0 <= i < lines(output).len() && pm_line_installed(#[trigger] lines(output)[i])
}

/// Parse `pm path <pkg>` output into an installed/not-installed verdict.
///
/// Installed output looks like `package:/data/app/.../base.apk`; not-installed
/// is empty (or contains a warning).
pub fn parse_pm_path(output: &str) -> (b: bool)
    ensures
        b == spec_parse_pm_path(output@),
{
    let v = chars_of(output);
    let ls = lines_vec(&v);
    let prefix_len = utf8_len_exec(&chars_of("package:"));
    let mut i: usize = 0;
    while i < ls.len()
        invariant
            i <= ls@.len(),
            views(ls@) == lines(output@),
            prefix_len == utf8_len("package:"@),
            forall|k: int| 0 <= k < i ==> !pm_line_installed(#[trigger] lines(output@)[k]),
        decreases ls@.len() - i,
    {
        let t = trim_vec(&ls[i]);
        assert(views(ls@)[i as int] == ls@[i as int]@);
        if starts_with_str(&t, "package:") && utf8_len_exec(&t) > prefix_len {
            return true;
        }
        i = i + 1;
    }
    false
}

/// The available kilobytes that a `df` line reports, if its fourth field is a number.
pub open spec fn df_line_kb(l: Seq<char>) -> Option<int> {
    if ws_tokens(l).len() >= 4 {
        parse_unsigned(ws_tokens(l)[3], 10, u64::MAX as int)
    } else {
        None
    }
}

/// The kilobytes of the last line of `ls` (before index `n`) that reports a number.
pub open spec fn df_last_kb(ls: Seq<Seq<char>>, n: int) -> Option<int>
    decreases n,
{
    if n <= 0 || n > ls.len() {
        None
    } else {
        match df_line_kb(ls[n - 1]) {
            Some(kb) => Some(kb),
            None => df_last_kb(ls, n - 1),
        }
    }
}

/// Whether every reported kilobyte count of `df` output fits in bytes as a `u64`.
pub open spec fn df_output_fits(output: Seq<char>) -> bool {
    forall|i: int|
        0 <= i < lines(output).len() ==> match df_line_kb(#[trigger] lines(output)[i]) {
            Some(kb) => kb * 1024 <= u64::MAX,
            None => true,
        }
}

/// The available bytes that `df` output reports: the last numeric fourth
/// column, scaled from 1K blocks, or 0.
pub open spec fn spec_parse_df_avail(output: Seq<char>) -> int {
    match df_last_kb(lines(output), lines(output).len() as int) {
        Some(kb) => kb * 1024,
        None => 0,
    }
}

proof fn lemma_df_last_kb_step(ls: Seq<Seq<char>>, n: int)
    requires
        0 <= n < ls.len(),
    ensures
        df_last_kb(ls, n + 1) == match df_line_kb(ls[n]) {
            Some(kb) => Some(kb),
            None => df_last_kb(ls, n),
        },
{
}

fn df_line_kb_exec(l: &Vec<char>) -> (r: Option<u64>)
    ensures
        r matches Some(kb) ==> df_line_kb(l@) == Some(kb as int),
        r is None ==> df_line_kb(l@) is None,
{
    let fields = split_ws_vec(l);
    if fields.len() >= 4 {
        assert(views(fields@)[3] == fields@[3]@);
        parse_unsigned_exec(&fields[3], 10, u64::MAX)
    } else {
        None
    }
}

/// Whether [`parse_df_avail`] can scale every reported count without overflow.
pub fn df_avail_fits(output: &str) -> (b: bool)
    ensures
        b == df_output_fits(output@),
{
    let v = chars_of(output);
    let ls = lines_vec(&v);
    let mut i: usize = 0;
    while i < ls.len()
        invariant
            i <= ls@.len(),
            views(ls@) == lines(output@),
            forall|k: int|
                0 <= k < i ==> match df_line_kb(#[trigger] lines(output@)[k]) {
                    Some(kb) => kb * 1024 <= u64::MAX,
                    None => true,
                },
        decreases ls@.len() - i,
    {
        assert(views(ls@)[i as int] == ls@[i as int]@);
        match df_line_kb_exec(&ls[i]) {
            Some(kb) => {
                if kb > u64::MAX / 1024 {
                    return false;
                }
            },
            None => {},
        }
        i = i + 1;
    }
    true
}

/// Parse the available-bytes column from `df <path>` output.
///
/// Handles both the toybox header (`Filesystem 1K-blocks Used Available Use% Mounted on`)
/// and busybox variants; returns bytes (df's 1K blocks are scaled x1024).
pub fn parse_df_avail(output: &str) -> (n: u64)
    requires
        df_output_fits(output@),
    ensures
        n == spec_parse_df_avail(output@),
{
    let v = chars_of(output);
    let ls = lines_vec(&v);
    let mut last: Option<u64> = None;
    let mut i: usize = 0;
    while i < ls.len()
        invariant
            i <= ls@.len(),
            views(ls@) == lines(output@),
            df_output_fits(output@),
            match last {
                Some(b) => df_last_kb(lines(output@), i as int) matches Some(kb) && b == kb * 1024,
                None => df_last_kb(lines(output@), i as int) is None,
            },
        decreases ls@.len() - i,
    {
        assert(views(ls@)[i as int] == ls@[i as int]@);
        proof {
            lemma_df_last_kb_step(lines(output@), i as int);
        }
        match df_line_kb_exec(&ls[i]) {
            Some(kb) => {
                assert(df_line_kb(lines(output@)[i as int]) == Some(kb as int));
                last = Some(kb * 1024);
            },
            None => {},
        }
        i = i + 1;
    }
    match last {
        Some(b) => b,
        None => 0,
    }
}

/// The directory part of a remote path, if it has one below the root.
pub open spec fn spec_remote_parent(remote: Seq<char>) -> Option<Seq<char>> {
    let k = rscan(remote, remote.len() as int, Stop::Char('/'));
    if k <= 1 {
        None
    } else {
        Some(remote.take(k - 1))
    }
}

/// The parent directory of a remote file path; `None` at the root or without a slash.
pub fn remote_parent(remote: &str) -> (r: Option<String>)
    ensures
        match r {
            Some(p) => spec_remote_parent(remote@) == Some(p@),
            None => spec_remote_parent(remote@) is None,
        },
{
    let v = chars_of(remote);
    let k = rscan_exec(&v, v.len(), Stop::Char('/'));
    if k <= 1 {
        return None;
    }
    let p = slice_vec(&v, 0, k - 1);
    assert(p@ =~= remote@.take(k - 1));
    Some(string_of(&p))
}

/// The shell command that asks the package manager where `pkg` is installed.
pub fn pm_path_command(pkg: &str) -> (cmd: String)
    ensures
        cmd@ == "pm path "@ + spec_quote_shell(pkg@),
{
    let mut c = chars_of("pm path ");
    let q = quote_shell(pkg);
    append_vec(&mut c, &chars_of(q.as_str()));
    string_of(&c)
}

/// The shell command that reports free space on shared storage.
pub const DF_COMMAND: &'static str = "df /sdcard 2>/dev/null";

/// The warning given when the package manager does not know `pkg`.
pub open spec fn not_installed_warning(pkg: Seq<char>) -> Seq<char> {
    "package "@ + pkg + " does not appear to be installed; media restore will still proceed"@
}

/// The warning given when the device has no `su`.
pub open spec fn no_root_warning() -> Seq<char> {
    "root (su) unavailable on device: app-data restore will be skipped even if requested"@
}

/// The warnings of a preflight, in order.
pub open spec fn preflight_warnings(pkg: Seq<char>, installed: bool, su_available: bool) -> Seq<
    Seq<char>,
> {
    (if installed {
        seq![]
    } else {
        seq![not_installed_warning(pkg)]
    }) + (if su_available {
        seq![]
    } else {
        seq![no_root_warning()]
    })
}

/// Whether the answer to `pm path` reports the package installed (a failed
/// command counts as not installed).
pub open spec fn pm_answer_installed(pm_answer: AppResult<String>) -> bool {
    match pm_answer {
        Ok(out) => spec_parse_pm_path(out@),
        Err(_) => false,
    }
}

/// The free bytes that the answer to `df` reports (a failed command counts as 0).
pub open spec fn df_answer_bytes(df_answer: AppResult<String>) -> int {
    match df_answer {
        Ok(out) => spec_parse_df_avail(out@),
        Err(_) => 0,
    }
}

/// Check whether a package is installed and how much free space exists on
/// /sdcard before starting a restore, from the device's answers to
/// [`pm_path_command`] and [`DF_COMMAND`] and whether `su` is available.
pub fn preflight_restore(
    pkg: &str,
    pm_answer: &AppResult<String>,
    df_answer: &AppResult<String>,
    su_available: bool,
) -> (r: PreflightReport)
    requires
        df_answer matches Ok(out) ==> df_output_fits(out@),
    ensures
        r.package_installed == pm_answer_installed(*pm_answer),
        r.free_bytes == df_answer_bytes(*df_answer),
        views_of_strings(r.warnings@) == preflight_warnings(
            pkg@,
            pm_answer_installed(*pm_answer),
            su_available,
        ),
{
    let mut warnings: Vec<String> = Vec::new();
    let package_installed = match pm_answer {
        Ok(out) => parse_pm_path(out.as_str()),
        Err(_) => false,
    };
    if !package_installed {
        let mut w = chars_of("package ");
        append_vec(&mut w, &chars_of(pkg));
        append_vec(
            &mut w,
            &chars_of(" does not appear to be installed; media restore will still proceed"),
        );
        warnings.push(string_of(&w));
    }
    let free_bytes = match df_answer {
        Ok(out) => parse_df_avail(out.as_str()),
        Err(_) => 0,
    };
    if !su_available {
        warnings.push(
            owned("root (su) unavailable on device: app-data restore will be skipped even if requested"),
        );
    }
    assert(views_of_strings(warnings@) =~= preflight_warnings(
        pkg@,
        package_installed,
        su_available,
    ));
    PreflightReport { package_installed, free_bytes, warnings }
}

/// The character sequences of a vector of strings.
pub open spec fn views_of_strings(v: Seq<String>) -> Seq<Seq<char>> {
    v.map_values(|s: String| s@)
}

/// The order in which profiles are restored: priority descending, so that
/// the most important profile (priority 0) lands last, just before any
/// app-data untar; equal priorities keep their given order.
pub fn restore_order<'a>(profiles: &'a [ProfileSpec]) -> (r: Vec<&'a ProfileSpec>)
    ensures
        profiles_of(r@) == by_priority(profiles@, true),
{
    sorted_by_priority(profiles, true)
}

/// `parts` joined with `sep` between consecutive parts.
pub open spec fn joined(parts: Seq<Seq<char>>, sep: Seq<char>) -> Seq<char>
    decreases parts.len(),
{
    if parts.len() == 0 {
        seq![]
    } else if parts.len() == 1 {
        parts[0]
    } else {
        joined(parts.drop_last(), sep) + sep + parts.last()
    }
}

/// The outcome of restoring one profile: named `<profile>:restore`,
/// successful exactly when no source failed, with the failures joined by `; `.
pub fn restore_outcome(profile_name: &str, transferred: u64, errors: &Vec<String>) -> (o:
    ProfileOutcome)
    ensures
        o.name@ == profile_name@ + ":restore"@,
        o.success == (errors@.len() == 0),
        errors@.len() == 0 ==> o.error is None,
        errors@.len() > 0 ==> (o.error matches Some(e) && e@ == joined(
            views_of_strings(errors@),
            "; "@,
        )),
        o.files_transferred == transferred,
{
    let mut name = chars_of(profile_name);
    append_vec(&mut name, &chars_of(":restore"));
    if errors.len() == 0 {
        return ProfileOutcome {
            name: string_of(&name),
            success: true,
            error: None,
            files_transferred: transferred,
        };
    }
    let ghost es = views_of_strings(errors@);
    let mut msg = chars_of(errors[0].as_str());
    let mut i: usize = 1;
    proof {
        assert(es.take(1) =~= seq![es[0]]);
    }
    while i < errors.len()
        invariant
            1 <= i <= errors@.len(),
            es == views_of_strings(errors@),
            msg@ == joined(es.take(i as int), "; "@),
        decreases errors@.len() - i,
    {
        append_vec(&mut msg, &chars_of("; "));
        append_vec(&mut msg, &chars_of(errors[i].as_str()));
        proof {
            assert(es.take(i + 1).drop_last() =~= es.take(i as int));
        }
        i = i + 1;
    }
    proof {
        assert(es.take(i as int) =~= es);
    }
    ProfileOutcome {
        name: string_of(&name),
        success: false,
        error: Some(string_of(&msg)),
        files_transferred: transferred,
    }
}

/// Name of the outcome of the app-data restore.
pub const APPDATA_OUTCOME_NAME: &'static str = "appdata:restore";

/// What happened at the last step of an app-data restore.
#[derive(Debug)]
pub enum AppdataEvent {
    /// The local archive was read: its length, or why it could not be.
    ArchiveRead(Result<usize, String>),
    /// Whether the device grants root.
    RootChecked(bool),
    /// The archive was streamed into the device's `tar`, or why that failed.
    Untarred(Result<(), String>),
}

/// What an app-data restore does next.
#[derive(Debug)]
pub enum AppdataAction {
    /// Ask whether the device grants root.
    CheckRoot,
    /// Stream the archive into [`APPDATA_RESTORE_COMMAND`], then relabel.
    Untar,
    /// Stop with this outcome.
    Finish(ProfileOutcome),
}

/// The outcome record of an app-data restore.
pub open spec fn appdata_finished(a: AppdataAction, success: bool, error: Option<Seq<char>>) -> bool {
    &&& a matches AppdataAction::Finish(o)
    &&& o.name@ == APPDATA_OUTCOME_NAME@
    &&& o.success == success
    &&& o.files_transferred == 0
    &&& match error {
        None => o.error is None,
        Some(e) => o.error matches Some(m) && m@ == e,
    }
}

fn appdata_outcome(success: bool, error: Option<String>) -> (o: ProfileOutcome)
    ensures
        o.name@ == APPDATA_OUTCOME_NAME@,
        o.success == success,
        o.error == error,
        o.files_transferred == 0,
{
    ProfileOutcome { name: owned(APPDATA_OUTCOME_NAME), success, error, files_transferred: 0 }
}

/// The decisions of an app-data restore. An unreadable archive fails the
/// restore with the reason; an empty one is nothing to restore and succeeds;
/// otherwise root is checked, and without it the restore fails; with it the
/// archive is untarred on the device, and the restore succeeds exactly when
/// that did.
pub fn appdata_restore_step(event: AppdataEvent) -> (a: AppdataAction)
    ensures
        match event {
            AppdataEvent::ArchiveRead(Err(e)) => appdata_finished(a, false, Some(e@)),
            AppdataEvent::ArchiveRead(Ok(n)) => if n == 0 {
                appdata_finished(a, true, None)
            } else {
                a is CheckRoot
            },
            AppdataEvent::RootChecked(su) => if su {
                a is Untar
            } else {
                appdata_finished(
                    a,
                    false,
                    Some("su unavailable; cannot restore app-data"@),
                )
            },
            AppdataEvent::Untarred(Ok(())) => appdata_finished(a, true, None),
            AppdataEvent::Untarred(Err(e)) => appdata_finished(a, false, Some(e@)),
        },
{
    match event {
        AppdataEvent::ArchiveRead(Err(e)) => AppdataAction::Finish(appdata_outcome(false, Some(e))),
        AppdataEvent::ArchiveRead(Ok(n)) => {
            if n == 0 {
                AppdataAction::Finish(appdata_outcome(true, None))
            } else {
                AppdataAction::CheckRoot
            }
        },
        AppdataEvent::RootChecked(su) => {
            if su {
                AppdataAction::Untar
            } else {
                AppdataAction::Finish(
                    appdata_outcome(false, Some(owned("su unavailable; cannot restore app-data"))),
                )
            }
        },
        AppdataEvent::Untarred(Ok(())) => AppdataAction::Finish(appdata_outcome(true, None)),
        AppdataEvent::Untarred(Err(e)) => AppdataAction::Finish(appdata_outcome(false, Some(e))),
    }
}

/// Where the files of a source lie in a backup: the source's device path,
/// its leading slashes dropped, below the backup directory.
pub fn backup_source_dir(backup_dir: &str, device_path: &str) -> (p: String)
    ensures
        p@ == join_path(backup_dir@, trim_start_char(device_path@, '/')),
{
    let rel = trim_start_char_vec(&chars_of(device_path), '/');
    join_path_exec(backup_dir, &rel)
}

/// `s` with every `\` turned into `/`.
pub open spec fn forward_slashes(s: Seq<char>) -> Seq<char> {
    s.map_values(|c: char| if c == '\\' { '/' } else { c })
}

/// Where a backed-up file goes back on the device, and the command that
/// creates its directory first: `rel`, the file's path below the backup of
/// a source (with `/` for every `\`), below the source's device path
/// `remote_root`; the command is `mkdir -p` of that path's parent, quoted,
/// when it has one below the root.
pub fn restore_target(remote_root: &str, rel: &str) -> (r: (String, Option<String>))
    ensures
        r.0@ == remote_root@ + "/"@ + forward_slashes(rel@),
        match spec_remote_parent(r.0@) {
            Some(p) => r.1 matches Some(c) && c@ == "mkdir -p "@ + spec_quote_shell(p),
            None => r.1 is None,
        },
{
    let mut v = chars_of(remote_root);
    v.push('/');
    let rv = chars_of(rel);
    let mut fixed: Vec<char> = Vec::new();
    let mut i: usize = 0;
    while i < rv.len()
        invariant
            i <= rv@.len(),
            fixed@ == forward_slashes(rv@.take(i as int)),
        decreases rv@.len() - i,
    {
        let c = rv[i];
        fixed.push(if c == '\\' {
            '/'
        } else {
            c
        });
        assert(forward_slashes(rv@.take(i + 1)) =~= forward_slashes(rv@.take(i as int)).push(
            if c == '\\' {
                '/'
            } else {
                c
            },
        ));
        i = i + 1;
    }
    assert(rv@.take(i as int) =~= rv@);
    append_vec(&mut v, &fixed);
    let remote = string_of(&v);
    assert(remote@ =~= remote_root@ + "/"@ + forward_slashes(rel@)) by {
        reveal_strlit("/");
    }
    let mkdir = match remote_parent(remote.as_str()) {
        Some(p) => {
            let mut c = chars_of("mkdir -p ");
            append_vec(&mut c, &chars_of(quote_shell(p.as_str()).as_str()));
            Some(string_of(&c))
        },
        None => None,
    };
    (remote, mkdir)
}

} // verus!
