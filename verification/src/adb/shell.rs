//! Specialized device shell commands and the interpretation of their output.
use vstd::prelude::*;
use crate::error::{AppError, AppResult};
use crate::num::{parse_unsigned, parse_unsigned_exec};
use crate::text::{append_vec, chars_of, eq_str, owned, string_of, trim, trim_vec};

verus! {

/// Executes shell commands on the device for specialized operations.
pub struct ShellExecutor;

/// The decimal number that shell output holds once trimmed.
pub open spec fn trimmed_number(out: Seq<char>) -> Option<int> {
    parse_unsigned(trim(out), 10, u64::MAX as int)
}

pub(crate) fn trimmed_number_exec(out: &String) -> (r: Option<u64>)
    ensures
        match r {
            Some(n) => trimmed_number(out@) == Some(n as int),
            None => trimmed_number(out@) is None,
        },
{
    let t = trim_vec(&chars_of(out.as_str()));
    parse_unsigned_exec(&t, 10, u64::MAX)
}

/// The directories where Android devices commonly keep media.
pub open spec fn media_candidates() -> Seq<Seq<char>> {
    seq![
        "/sdcard/DCIM"@,
        "/sdcard/Pictures"@,
        "/sdcard/Movies"@,
        "/sdcard/Download"@,
        "/sdcard/Music"@,
        "/sdcard/Recordings"@,
        "/sdcard/Screenshots"@,
        "/sdcard/WhatsApp/Media"@,
        "/sdcard/Telegram"@,
    ]
}

/// Whether a probe for a directory answered that it exists.
pub open spec fn probe_says_yes(probe: AppResult<String>) -> bool {
    probe matches Ok(out) && trim(out@) == "yes"@
}

/// The candidates, in order, whose probes say they exist.
pub open spec fn present_dirs(probes: Seq<AppResult<String>>, n: int) -> Seq<Seq<char>>
    decreases n,
{
    if n <= 0 || n > probes.len() {
        seq![]
    } else if n > media_candidates().len() {
        present_dirs(probes, n - 1)
    } else if probe_says_yes(probes[n - 1]) {
        present_dirs(probes, n - 1).push(media_candidates()[n - 1])
    } else {
        present_dirs(probes, n - 1)
    }
}

impl ShellExecutor {
    /// The command that prints where `tar` lives on the device.
    pub fn has_tar_command() -> (cmd: String)
        ensures
            cmd@ == "which tar 2>/dev/null"@,
    {
        owned("which tar 2>/dev/null")
    }

    /// Whether tar is available on the device, given what `which tar` answered.
    pub fn has_tar(answer: &AppResult<String>) -> (b: bool)
        ensures
            b == (answer matches Ok(out) && trim(out@).len() > 0),
    {
        match answer {
            Ok(out) => trim_vec(&chars_of(out.as_str())).len() > 0,
            Err(_) => false,
        }
    }

    /// The command that prints the total size of a directory on the device.
    pub fn dir_size_command(path: &str) -> (cmd: String)
        ensures
            cmd@ == "du -sb '"@ + path@ + "' 2>/dev/null | cut -f1"@,
    {
        let mut c = chars_of("du -sb '");
        append_vec(&mut c, &chars_of(path));
        append_vec(&mut c, &chars_of("' 2>/dev/null | cut -f1"));
        string_of(&c)
    }

    /// Total size of a directory on the device, from what `du` answered.
    pub fn dir_size(path: &str, answer: AppResult<String>) -> (r: AppResult<u64>)
        ensures
            match answer {
                Err(e) => r == Err::<u64, AppError>(e),
                Ok(out) => match trimmed_number(out@) {
                    Some(n) => r == Ok::<u64, AppError>(n as u64),
                    None => r matches Err(AppError::Protocol(m)) && m@
                        == "Could not parse dir size for "@ + path@,
                },
            },
    {
        let out = answer?;
        match trimmed_number_exec(&out) {
            Some(n) => Ok(n),
            None => {
                let mut m = chars_of("Could not parse dir size for ");
                append_vec(&mut m, &chars_of(path));
                Err(AppError::Protocol(string_of(&m)))
            },
        }
    }

    /// The command that counts the files below a directory on the device.
    pub fn file_count_command(path: &str) -> (cmd: String)
        ensures
            cmd@ == "find '"@ + path@ + "' -type f 2>/dev/null | wc -l"@,
    {
        let mut c = chars_of("find '");
        append_vec(&mut c, &chars_of(path));
        append_vec(&mut c, &chars_of("' -type f 2>/dev/null | wc -l"));
        string_of(&c)
    }

    /// Number of files below a directory, from what `find | wc -l` answered.
    pub fn file_count(answer: AppResult<String>) -> (r: AppResult<u64>)
        ensures
            match answer {
                Err(e) => r == Err::<u64, AppError>(e),
                Ok(out) => match trimmed_number(out@) {
                    Some(n) => r == Ok::<u64, AppError>(n as u64),
                    None => r matches Err(AppError::Protocol(m)) && m@
                        == "Could not parse file count"@,
                },
            },
    {
        let out = answer?;
        match trimmed_number_exec(&out) {
            Some(n) => Ok(n),
            None => Err(AppError::Protocol(owned("Could not parse file count"))),
        }
    }

    /// The command that prints the available 1K blocks of the storage holding `path`.
    pub fn available_space_command(path: &str) -> (cmd: String)
        ensures
            cmd@ == "df '"@ + path@ + "' 2>/dev/null | tail -1 | awk '{print $4}'"@,
    {
        let mut c = chars_of("df '");
        append_vec(&mut c, &chars_of(path));
        append_vec(&mut c, &chars_of("' 2>/dev/null | tail -1 | awk '{print $4}'"));
        string_of(&c)
    }

    /// Available bytes on the device storage, from the 1K blocks that `df` answered.
    pub fn available_space(answer: AppResult<String>) -> (r: AppResult<u64>)
        requires
            answer matches Ok(out) ==> (trimmed_number(out@) matches Some(kb) ==> kb * 1024
                <= u64::MAX),
        ensures
            match answer {
                Err(e) => r == Err::<u64, AppError>(e),
                Ok(out) => match trimmed_number(out@) {
                    Some(kb) => r == Ok::<u64, AppError>((kb * 1024) as u64),
                    None => r matches Err(AppError::Protocol(m)) && m@
                        == "Could not parse available space"@,
                },
            },
    {
        let out = answer?;
        match trimmed_number_exec(&out) {
            Some(kb) => Ok(kb * 1024),
            None => Err(AppError::Protocol(owned("Could not parse available space"))),
        }
    }

    /// The common media directories, in the order they are probed.
    pub fn media_candidates() -> (r: Vec<String>)
        ensures
            r@.len() == 9,
            forall|i: int| 0 <= i < 9 ==> (#[trigger] r@[i])@ == media_candidates()[i],
    {
        let mut r: Vec<String> = Vec::new();
        r.push(owned("/sdcard/DCIM"));
        r.push(owned("/sdcard/Pictures"));
        r.push(owned("/sdcard/Movies"));
        r.push(owned("/sdcard/Download"));
        r.push(owned("/sdcard/Music"));
        r.push(owned("/sdcard/Recordings"));
        r.push(owned("/sdcard/Screenshots"));
        r.push(owned("/sdcard/WhatsApp/Media"));
        r.push(owned("/sdcard/Telegram"));
        r
    }

    /// The command that prints `yes` when `dir` exists on the device.
    pub fn dir_probe_command(dir: &str) -> (cmd: String)
        ensures
            cmd@ == "[ -d '"@ + dir@ + "' ] && echo yes"@,
    {
        let mut c = chars_of("[ -d '");
        append_vec(&mut c, &chars_of(dir));
        append_vec(&mut c, &chars_of("' ] && echo yes"));
        string_of(&c)
    }

    /// The common media directories present on the device, given the answer
    /// to the probe of each candidate (in the order of [`Self::media_candidates`]).
    pub fn media_directories(probes: &Vec<AppResult<String>>) -> (r: Vec<String>)
        ensures
            crate::profile::texts(r@) == present_dirs(probes@, probes@.len() as int),
    {
        let cands = Self::media_candidates();
        let mut r: Vec<String> = Vec::new();
        let mut i: usize = 0;
        while i < probes.len() && i < 9
            invariant
                i <= probes@.len(),
                i <= 9,
                cands@.len() == 9,
                forall|k: int| 0 <= k < 9 ==> (#[trigger] cands@[k])@ == media_candidates()[k],
                crate::profile::texts(r@) == present_dirs(probes@, i as int),
            decreases probes@.len() - i,
        {
            let yes = match &probes[i] {
                Ok(out) => eq_str(&trim_vec(&chars_of(out.as_str())), "yes"),
                Err(_) => false,
            };
            let ghost before = r@;
            if yes {
                r.push(crate::text::owned(cands[i].as_str()));
                assert(crate::profile::texts(r@) =~= crate::profile::texts(before).push(
                    cands@[i as int]@,
                ));
            }
            i = i + 1;
        }
        proof {
            if probes@.len() > 9 {
                lemma_present_dirs_saturates(probes@, probes@.len() as int);
            }
        }
        r
    }
}

proof fn lemma_present_dirs_saturates(probes: Seq<AppResult<String>>, n: int)
    requires
        9 <= n <= probes.len(),
    ensures
        present_dirs(probes, n) == present_dirs(probes, 9),
    decreases n,
{
    if n > 9 {
        lemma_present_dirs_saturates(probes, n - 1);
    }
}

} // verus!
