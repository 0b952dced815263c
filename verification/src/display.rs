//! Text shown to the user: durations, file icons and outcome lines.
use vstd::prelude::*;
use crate::num::{radix_digits, radix_digits_exec};
use crate::profile::runner::ProfileOutcome;
use crate::text::{append_vec, chars_of, eq_str, last_piece, last_piece_vec, lowercase, string_of, to_lowercase};

verus! {

/// Decimal digits of a count.
pub open spec fn dec(n: int) -> Seq<char> {
    radix_digits(n as nat, 10)
}

/// A duration of `secs` seconds as `Hh Mm Ss`, `Mm Ss` or `Ss`.
pub open spec fn duration_text(secs: u64) -> Seq<char> {
    if secs >= 3600 {
        dec((secs / 3600) as int) + "h "@ + dec(((secs % 3600) / 60) as int) + "m "@ + dec(
            (secs % 60) as int,
        ) + "s"@
    } else if secs >= 60 {
        dec((secs / 60) as int) + "m "@ + dec((secs % 60) as int) + "s"@
    } else {
        dec(secs as int) + "s"@
    }
}

/// Format a duration of whole seconds into human-readable text.
pub fn format_duration(secs: u64) -> (s: String)
    ensures
        s@ == duration_text(secs),
{
    let mut v: Vec<char> = Vec::new();
    if secs >= 3600 {
        append_vec(&mut v, &radix_digits_exec((secs / 3600) as u128, 10));
        append_vec(&mut v, &chars_of("h "));
        append_vec(&mut v, &radix_digits_exec(((secs % 3600) / 60) as u128, 10));
        append_vec(&mut v, &chars_of("m "));
        append_vec(&mut v, &radix_digits_exec((secs % 60) as u128, 10));
        append_vec(&mut v, &chars_of("s"));
    } else if secs >= 60 {
        append_vec(&mut v, &radix_digits_exec((secs / 60) as u128, 10));
        append_vec(&mut v, &chars_of("m "));
        append_vec(&mut v, &radix_digits_exec((secs % 60) as u128, 10));
        append_vec(&mut v, &chars_of("s"));
    } else {
        append_vec(&mut v, &radix_digits_exec(secs as u128, 10));
        append_vec(&mut v, &chars_of("s"));
    }
    assert(v@ =~= duration_text(secs));
    string_of(&v)
}

/// The kind of file that an extension (lower-cased) names, for its icon.
pub open spec fn icon_kind(ext: Seq<char>) -> int {
    if ext == "jpg"@ || ext == "jpeg"@ || ext == "png"@ || ext == "gif"@ || ext == "bmp"@ || ext
        == "webp"@ || ext == "heic"@ || ext == "heif"@ || ext == "svg"@ || ext == "tiff"@ {
        0
    } else if ext == "mp4"@ || ext == "mkv"@ || ext == "avi"@ || ext == "mov"@ || ext == "wmv"@
        || ext == "flv"@ || ext == "webm"@ || ext == "3gp"@ {
        1
    } else if ext == "mp3"@ || ext == "wav"@ || ext == "flac"@ || ext == "aac"@ || ext == "ogg"@
        || ext == "wma"@ || ext == "m4a"@ || ext == "opus"@ {
        2
    } else if ext == "apk"@ {
        3
    } else if ext == "zip"@ || ext == "tar"@ || ext == "gz"@ || ext == "rar"@ || ext == "7z"@ {
        4
    } else {
        5
    }
}

/// The icon of each kind of file.
pub open spec fn icon_text(kind: int) -> Seq<char> {
    if kind == 0 {
        "🖼️"@
    } else if kind == 1 {
        "🎬"@
    } else if kind == 2 {
        "🎵"@
    } else if kind == 3 {
        "📦"@
    } else if kind == 4 {
        "🗜️"@
    } else {
        "📄"@
    }
}

fn icon_kind_exec(e: &Vec<char>) -> (k: u8)
    ensures
        k == icon_kind(e@),
{
    if eq_str(e, "jpg") || eq_str(e, "jpeg") || eq_str(e, "png") || eq_str(e, "gif") || eq_str(
        e,
        "bmp",
    ) || eq_str(e, "webp") || eq_str(e, "heic") || eq_str(e, "heif") || eq_str(e, "svg")
        || eq_str(e, "tiff") {
        0
    } else if eq_str(e, "mp4") || eq_str(e, "mkv") || eq_str(e, "avi") || eq_str(e, "mov")
        || eq_str(e, "wmv") || eq_str(e, "flv") || eq_str(e, "webm") || eq_str(e, "3gp") {
        1
    } else if eq_str(e, "mp3") || eq_str(e, "wav") || eq_str(e, "flac") || eq_str(e, "aac")
        || eq_str(e, "ogg") || eq_str(e, "wma") || eq_str(e, "m4a") || eq_str(e, "opus") {
        2
    } else if eq_str(e, "apk") {
        3
    } else if eq_str(e, "zip") || eq_str(e, "tar") || eq_str(e, "gz") || eq_str(e, "rar")
        || eq_str(e, "7z") {
        4
    } else {
        5
    }
}

/// The icon shown before a file name, chosen by its lower-cased extension
/// (the text after the last dot; the whole name when it has none).
pub fn file_icon(name: &str) -> (icon: &'static str)
    ensures
        icon@ == icon_text(icon_kind(lowercase(last_piece(name@, '.')))),
{
    let ext = string_of(&last_piece_vec(&chars_of(name), '.'));
    let lower = chars_of(to_lowercase(ext.as_str()).as_str());
    let k = icon_kind_exec(&lower);
    if k == 0 {
        "🖼️"
    } else if k == 1 {
        "🎬"
    } else if k == 2 {
        "🎵"
    } else if k == 3 {
        "📦"
    } else if k == 4 {
        "🗜️"
    } else {
        "📄"
    }
}

/// The report line of one profile outcome.
pub open spec fn outcome_line(o: ProfileOutcome) -> Seq<char> {
    if o.success {
        "[ok] "@ + o.name@ + ": "@ + dec(o.files_transferred as int) + " files"@
    } else {
        "[FAIL] "@ + o.name@ + ": "@ + match o.error {
            Some(e) => e@,
            None => "unknown error"@,
        }
    }
}

/// The report of a run: one line per outcome, and whether all succeeded.
pub fn report_outcomes(outcomes: &Vec<ProfileOutcome>) -> (r: (Vec<String>, bool))
    ensures
        r.0@.len() == outcomes@.len(),
        forall|i: int| 0 <= i < outcomes@.len() ==> (#[trigger] r.0@[i])@ == outcome_line(outcomes@[i]),
        r.1 == forall|i: int| 0 <= i < outcomes@.len() ==> (#[trigger] outcomes@[i]).success,
{
    let mut lines: Vec<String> = Vec::new();
    let mut all_ok = true;
    let mut i: usize = 0;
    while i < outcomes.len()
        invariant
            i <= outcomes@.len(),
            lines@.len() == i,
            forall|k: int| 0 <= k < i ==> (#[trigger] lines@[k])@ == outcome_line(outcomes@[k]),
            all_ok == forall|k: int| 0 <= k < i ==> (#[trigger] outcomes@[k]).success,
        decreases outcomes@.len() - i,
    {
        let o = &outcomes[i];
        let mut v: Vec<char> = Vec::new();
        if o.success {
            append_vec(&mut v, &chars_of("[ok] "));
            append_vec(&mut v, &chars_of(o.name.as_str()));
            append_vec(&mut v, &chars_of(": "));
            append_vec(&mut v, &radix_digits_exec(o.files_transferred as u128, 10));
            append_vec(&mut v, &chars_of(" files"));
        } else {
            all_ok = false;
            append_vec(&mut v, &chars_of("[FAIL] "));
            append_vec(&mut v, &chars_of(o.name.as_str()));
            append_vec(&mut v, &chars_of(": "));
            match &o.error {
                Some(e) => append_vec(&mut v, &chars_of(e.as_str())),
                None => append_vec(&mut v, &chars_of("unknown error")),
            }
        }
        assert(v@ =~= outcome_line(*o));
        lines.push(string_of(&v));
        i = i + 1;
    }
    (lines, all_ok)
}

/// The headline of a transfer summary: an icon and a text, from whether the
/// transfer was cancelled and how many files completed and failed.
pub fn summary_status(failed_files: u64, completed_files: u64, cancelled: bool) -> (r: (
    &'static str,
    &'static str,
))
    ensures
        r.0@ == (if failed_files == 0 {
            "✅"@
        } else if completed_files > 0 {
            "⚠️"@
        } else {
            "❌"@
        }),
        r.1@ == (if cancelled {
            "Transfer Cancelled"@
        } else if failed_files == 0 {
            "Transfer Complete!"@
        } else {
            "Transfer Complete (with errors)"@
        }),
{
    let icon = if failed_files == 0 {
        "✅"
    } else if completed_files > 0 {
        "⚠️"
    } else {
        "❌"
    };
    let text = if cancelled {
        "Transfer Cancelled"
    } else if failed_files == 0 {
        "Transfer Complete!"
    } else {
        "Transfer Complete (with errors)"
    };
    (icon, text)
}

/// Files transferred over a run's profile outcomes.
pub open spec fn outcome_files(os: Seq<ProfileOutcome>) -> int
    decreases os.len(),
{
    if os.len() == 0 {
        0
    } else {
        outcome_files(os.drop_last()) + os.last().files_transferred
    }
}

/// Number of failed profiles among a run's outcomes.
pub open spec fn outcome_failures(os: Seq<ProfileOutcome>) -> int
    decreases os.len(),
{
    if os.len() == 0 {
        0
    } else {
        outcome_failures(os.drop_last()) + if os.last().success {
            0int
        } else {
            1int
        }
    }
}

/// The totals of a profile run: the files all profiles transferred and how
/// many profiles failed.
pub fn profile_run_totals(outcomes: &Vec<ProfileOutcome>) -> (r: (u64, usize))
    requires
        outcome_files(outcomes@) <= u64::MAX,
    ensures
        r.0 == outcome_files(outcomes@),
        r.1 == outcome_failures(outcomes@),
{
    let mut files: u64 = 0;
    let mut failed: usize = 0;
    let mut i: usize = 0;
    while i < outcomes.len()
        invariant
            i <= outcomes@.len(),
            files == outcome_files(outcomes@.take(i as int)),
            failed == outcome_failures(outcomes@.take(i as int)),
            failed <= i,
            outcome_files(outcomes@) <= u64::MAX,
        decreases outcomes@.len() - i,
    {
        proof {
            assert(outcomes@.take(i + 1).drop_last() =~= outcomes@.take(i as int));
            lemma_outcome_files_prefix(outcomes@, i + 1);
        }
        files = files + outcomes[i].files_transferred;
        if !outcomes[i].success {
            failed = failed + 1;
        }
        i = i + 1;
    }
    assert(outcomes@.take(i as int) =~= outcomes@);
    (files, failed)
}

proof fn lemma_outcome_files_prefix(os: Seq<ProfileOutcome>, i: int)
    requires
        0 <= i <= os.len(),
    ensures
        outcome_files(os.take(i)) <= outcome_files(os),
    decreases os.len(),
{
    if i < os.len() {
        assert(os.drop_last().take(i) =~= os.take(i));
        lemma_outcome_files_prefix(os.drop_last(), i);
    } else {
        assert(os.take(i) =~= os);
    }
}

/// The headline of a profile run: an icon and a text, from how many of its
/// `total` profiles failed.
pub fn profile_run_status(failed: usize, total: usize) -> (r: (&'static str, &'static str))
    ensures
        r.0@ == (if failed == 0 {
            "✅"@
        } else if failed < total {
            "⚠️"@
        } else {
            "❌"@
        }),
        r.1@ == (if failed == 0 {
            "Profile Run Complete!"@
        } else if failed < total {
            "Profile Run Complete (with errors)"@
        } else {
            "Profile Run Failed"@
        }),
{
    if failed == 0 {
        ("✅", "Profile Run Complete!")
    } else if failed < total {
        ("⚠️", "Profile Run Complete (with errors)")
    } else {
        ("❌", "Profile Run Failed")
    }
}

/// How many errors the progress view lists.
pub const ERROR_LOG_LINES: usize = 20;

/// The error log of the progress view: the newest errors first, at most
/// [`ERROR_LOG_LINES`] of them, each with its path cut to the last
/// `/`-separated piece.
pub fn error_log(errors: &Vec<(String, String)>) -> (r: Vec<(String, String)>)
    ensures
        r@.len() == if errors@.len() < ERROR_LOG_LINES {
            errors@.len() as int
        } else {
            ERROR_LOG_LINES as int
        },
        forall|i: int|
            0 <= i < r@.len() ==> (#[trigger] r@[i]).0@ == last_piece(
                errors@[errors@.len() - 1 - i].0@,
                '/',
            ) && r@[i].1@ == errors@[errors@.len() - 1 - i].1@,
{
    let n = errors.len();
    let mut out: Vec<(String, String)> = Vec::new();
    let mut i: usize = 0;
    while i < n && i < ERROR_LOG_LINES
        invariant
            n == errors@.len(),
            i <= n,
            i <= ERROR_LOG_LINES,
            out@.len() == i,
            forall|k: int|
                0 <= k < i ==> (#[trigger] out@[k]).0@ == last_piece(errors@[n - 1 - k].0@, '/')
                    && out@[k].1@ == errors@[n - 1 - k].1@,
        decreases n - i,
    {
        let e = &errors[n - 1 - i];
        let name = string_of(&last_piece_vec(&chars_of(e.0.as_str()), '/'));
        let message = e.1.clone();
        out.push((name, message));
        i = i + 1;
    }
    out
}

} // verus!
