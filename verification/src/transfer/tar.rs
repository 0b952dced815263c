//! Streaming extraction of the tar archives that the device writes.
use vstd::prelude::*;
use crate::adb::client::{quote_shell, spec_quote_shell};
use crate::error::{AppError, AppResult};
use crate::num::{parse_unsigned, parse_unsigned_exec};
use crate::state::resume::{opt_text, StateManager};
use crate::transfer::plan::join_path_exec;
use crate::text::{
    append_vec, chars_of, ends_with, ends_with_str, eq_str, lossy_text, owned, remove_pair,
    remove_pair_vec, string_of, trim, trim_end_char, trim_end_char_vec, trim_start_char,
    trim_start_char_vec, trim_vec, utf8_lossy,
};

verus! {

/// Stats from a tar pull operation.
#[derive(Debug)]
pub struct TarPullStats {
    pub files_pulled: u64,
    pub bytes_transferred: u64,
}

/// Pulls an entire directory using tar streaming over ADB exec-out.
/// This is dramatically faster than individual file pulls because it
/// eliminates the per-file protocol overhead.
pub struct TarPuller;

/// Metadata about a single tar entry.
#[derive(Debug)]
pub struct TarEntryMeta {
    pub name: String,
    pub size: u64,
    pub is_dir: bool,
}

/// What a 512-byte tar header announces.
#[derive(Debug)]
pub enum TarHeader {
    /// The end of the archive: a zero block, or a header without a name.
    End,
    /// A GNU long-name pseudo entry: the real name follows as `size` bytes
    /// of data, then the real header.
    LongName { size: u64 },
    /// An ordinary entry, whose `size` bytes of data follow.
    Entry(TarEntryMeta),
}

/// Size of a tar block.
pub const BLOCK: u64 = 512;

/// The text of header bytes `a..b`, decoded leniently, without trailing NULs.
pub open spec fn field_text(h: Seq<u8>, a: int, b: int) -> Seq<char> {
    trim_end_char(lossy_text(h.subrange(a, b)), '\0')
}

/// The name field (bytes 0 to 99).
pub open spec fn header_name(h: Seq<u8>) -> Seq<char> {
    field_text(h, 0, 100)
}

/// The size field (bytes 124 to 135, octal); 0 when it does not parse.
pub open spec fn header_size(h: Seq<u8>) -> u64 {
    match parse_unsigned(trim(field_text(h, 124, 136)), 8, u64::MAX as int) {
        Some(n) => n as u64,
        None => 0,
    }
}

/// Whether the header announces a directory: type flag `5`, or a name ending in `/`.
pub open spec fn header_is_dir(h: Seq<u8>) -> bool {
    h[156] == 53u8 || ends_with(header_name(h), seq!['/'])
}

/// Whether a name marks a GNU long-name pseudo entry.
pub open spec fn is_long_link(name: Seq<char>) -> bool {
    name == "././@LongLink"@ || ends_with(name, "@LongLink"@)
}

/// The entry's path: the UStar prefix (bytes 345 to 499), if any, and the name.
pub open spec fn header_full_name(h: Seq<u8>) -> Seq<char> {
    let prefix = field_text(h, 345, 500);
    if prefix.len() == 0 {
        header_name(h)
    } else {
        prefix + seq!['/'] + header_name(h)
    }
}

/// An archive path as it is extracted: every `./` removed, then leading slashes.
pub open spec fn clean_entry_name(s: Seq<char>) -> Seq<char> {
    trim_start_char(remove_pair(s, '.', '/'), '/')
}

/// Whether every byte of the block is zero.
pub open spec fn all_zero(h: Seq<u8>) -> bool {
    forall|i: int| 0 <= i < h.len() ==> h[i] == 0u8
}

/// Bytes of zero padding after `size` bytes of data, up to a block boundary.
pub open spec fn padding_of(size: u64) -> u64 {
    ((512 - size % 512) % 512) as u64
}

fn header_bytes(h: &[u8; 512], a: usize, b: usize) -> (r: Vec<u8>)
    requires
        a <= b <= 512,
    ensures
        r@ == h@.subrange(a as int, b as int),
{
    let mut r: Vec<u8> = Vec::new();
    let mut i = a;
    while i < b
        invariant
            a <= i <= b <= 512,
            h@.len() == 512,
            r@ == h@.subrange(a as int, i as int),
        decreases b - i,
    {
        r.push(h[i]);
        i = i + 1;
        assert(r@ =~= h@.subrange(a as int, i as int));
    }
    r
}

fn field_text_exec(h: &[u8; 512], a: usize, b: usize) -> (r: Vec<char>)
    requires
        a <= b <= 512,
    ensures
        r@ == field_text(h@, a as int, b as int),
{
    let bytes = header_bytes(h, a, b);
    let s = utf8_lossy(bytes.as_slice());
    trim_end_char_vec(&chars_of(s.as_str()), '\0')
}

fn size_of_header(h: &[u8; 512]) -> (n: u64)
    ensures
        n == header_size(h@),
{
    let t = trim_vec(&field_text_exec(h, 124, 136));
    match parse_unsigned_exec(&t, 8, u64::MAX) {
        Some(n) => n,
        None => 0,
    }
}

fn clean_name_exec(s: &Vec<char>) -> (r: Vec<char>)
    ensures
        r@ == clean_entry_name(s@),
{
    trim_start_char_vec(&remove_pair_vec(s, '.', '/'), '/')
}

impl TarPuller {
    /// Reads what a header block announces: the end of the archive (a zero
    /// block or an empty name), a GNU long-name pseudo entry, or an entry
    /// with its cleaned path, size and kind.
    pub fn parse_header(header: &[u8; 512]) -> (r: TarHeader)
        ensures
            all_zero(header@) || header_name(header@).len() == 0 ==> r is End,
            !all_zero(header@) && header_name(header@).len() > 0 && is_long_link(
                header_name(header@),
            ) ==> r == (TarHeader::LongName { size: header_size(header@) }),
            !all_zero(header@) && header_name(header@).len() > 0 && !is_long_link(
                header_name(header@),
            ) ==> (r matches TarHeader::Entry(m) && m.name@ == clean_entry_name(
                header_full_name(header@),
            ) && m.size == header_size(header@) && m.is_dir == header_is_dir(header@)),
    {
        let mut zero = true;
        let mut i: usize = 0;
        while i < 512
            invariant
                i <= 512,
                header@.len() == 512,
                zero == forall|k: int| 0 <= k < i ==> header@[k] == 0u8,
            decreases 512 - i,
        {
            if header[i] != 0 {
                zero = false;
            }
            i = i + 1;
        }
        if zero {
            return TarHeader::End;
        }
        let name = field_text_exec(header, 0, 100);
        if name.len() == 0 {
            return TarHeader::End;
        }
        let size = size_of_header(header);
        let is_dir = header[156] == 53u8 || ends_with_str(&name, "/");
        proof {
            reveal_strlit("/");
            assert("/"@ =~= seq!['/']);
        }
        if eq_str(&name, "././@LongLink") || ends_with_str(&name, "@LongLink") {
            return TarHeader::LongName { size };
        }
        let prefix = field_text_exec(header, 345, 500);
        let full = if prefix.len() == 0 {
            name
        } else {
            let mut f = prefix;
            let ghost p0 = f@;
            f.push('/');
            append_vec(&mut f, &name);
            assert(f@ =~= p0 + seq!['/'] + name@);
            f
        };
        assert(full@ == header_full_name(header@));
        let cleaned = clean_name_exec(&full);
        TarHeader::Entry(TarEntryMeta { name: string_of(&cleaned), size, is_dir })
    }

    /// The entry that a GNU long name introduces: the name is the long-name
    /// data (decoded leniently, trailing NULs dropped, cleaned), the size and
    /// kind come from the real header that follows it.
    pub fn long_name_entry(long_name: &[u8], real_header: &[u8; 512]) -> (m: TarEntryMeta)
        ensures
            m.name@ == clean_entry_name(trim_end_char(lossy_text(long_name@), '\0')),
            m.size == header_size(real_header@),
            m.is_dir == header_is_dir(real_header@),
    {
        let real_name = field_text_exec(real_header, 0, 100);
        let size = size_of_header(real_header);
        let is_dir = real_header[156] == 53u8 || ends_with_str(&real_name, "/");
        proof {
            reveal_strlit("/");
            assert("/"@ =~= seq!['/']);
        }
        let s = utf8_lossy(long_name);
        let name = clean_name_exec(&trim_end_char_vec(&chars_of(s.as_str()), '\0'));
        TarEntryMeta { name: string_of(&name), size, is_dir }
    }

    /// Bytes of zero padding that follow `size` bytes of entry data.
    pub fn padding(size: u64) -> (p: u64)
        ensures
            p == padding_of(size),
            p < 512,
            (size + p) % 512 == 0,
    {
        (512 - size % 512) % 512
    }

    /// The device command that streams `remote_dir` as a tar archive.
    pub fn stream_command(remote_dir: &str) -> (cmd: String)
        ensures
            cmd@ == "cd '"@ + remote_dir@ + "' && tar cf - . 2>/dev/null"@,
    {
        let mut c = chars_of("cd '");
        append_vec(&mut c, &chars_of(remote_dir));
        append_vec(&mut c, &chars_of("' && tar cf - . 2>/dev/null"));
        string_of(&c)
    }

    /// The device command that streams `remote_dir` as a tar archive as root.
    pub fn rooted_stream_command(remote_dir: &str) -> (cmd: String)
        ensures
            cmd@ == "su -c 'cd "@ + spec_quote_shell(remote_dir@) + " && tar cf - .'"@,
    {
        let mut c = chars_of("su -c 'cd ");
        let q = quote_shell(remote_dir);
        append_vec(&mut c, &chars_of(q.as_str()));
        append_vec(&mut c, &chars_of(" && tar cf - .'"));
        string_of(&c)
    }

    /// The device path of an extracted entry: the pulled directory and the
    /// entry name, with one `/` between them.
    pub fn entry_remote_path(remote_dir: &str, name: &str) -> (p: String)
        ensures
            p@ == entry_path(remote_dir@, name@),
    {
        let mut c = chars_of(remote_dir);
        proof {
            reveal_strlit("/");
            assert("/"@ =~= seq!['/']);
        }
        if !ends_with_str(&c, "/") {
            c.push('/');
        }
        append_vec(&mut c, &chars_of(name));
        string_of(&c)
    }

    /// The outcome of a pull once the device process has exited: a non-zero
    /// exit is a hard error that names the directory; after a clean exit, the
    /// stats, unless bytes arrived without any extractable file (a truncated
    /// stream).
    pub fn finish(
        remote_dir: &str,
        exited_ok: bool,
        exit_detail: &str,
        files_pulled: u64,
        bytes_transferred: u64,
    ) -> (r: AppResult<TarPullStats>)
        ensures
            !exited_ok ==> (r matches Err(AppError::Transfer { path, reason }) && path@
                == remote_dir@ && reason@ == "device tar exited with "@ + exit_detail@),
            exited_ok && files_pulled == 0 && bytes_transferred > 0 ==> (r matches Err(
                AppError::Transfer { path, .. },
            ) && path@ == remote_dir@),
            exited_ok && !(files_pulled == 0 && bytes_transferred > 0) ==> (r matches Ok(s)
                && s.files_pulled == files_pulled && s.bytes_transferred == bytes_transferred),
    {
        if !exited_ok {
            let mut reason = chars_of("device tar exited with ");
            append_vec(&mut reason, &chars_of(exit_detail));
            return Err(AppError::Transfer { path: owned(remote_dir), reason: string_of(&reason) });
        }
        if files_pulled == 0 && bytes_transferred > 0 {
            let mut reason = chars_of("tar stream contained ");
            append_vec(&mut reason, &crate::num::radix_digits_exec(bytes_transferred as u128, 10));
            append_vec(&mut reason, &chars_of(" bytes but zero extractable files — possible truncation"));
            return Err(AppError::Transfer { path: owned(remote_dir), reason: string_of(&reason) });
        }
        Ok(TarPullStats { files_pulled, bytes_transferred })
    }
}

/// The device path of entry `name` extracted from `remote_dir`.
pub open spec fn entry_path(remote_dir: Seq<char>, name: Seq<char>) -> Seq<char> {
    if ends_with(remote_dir, seq!['/']) {
        remote_dir + name
    } else {
        remote_dir + seq!['/'] + name
    }
}

/// Counts one extracted entry and records it in the state: the entry's
/// device path counts as completed, and its sync record takes the entry's
/// size, no mtime (a tar header read this way gives none), the path it was
/// extracted to under `local_dir`, and no hash.
pub fn record_tar_entry(
    state: &mut StateManager,
    stats: TarPullStats,
    remote_dir: &str,
    local_dir: &str,
    entry: &TarEntryMeta,
) -> (r: TarPullStats)
    requires
        stats.files_pulled < u64::MAX,
        stats.bytes_transferred + entry.size <= u64::MAX,
    ensures
        r.files_pulled == stats.files_pulled + 1,
        r.bytes_transferred == stats.bytes_transferred + entry.size,
        final(state).completed() == old(state).completed().insert(
            entry_path(remote_dir@, entry.name@),
        ),
        final(state).synced() == old(state).synced().insert(
            entry_path(remote_dir@, entry.name@),
            (entry.size, 0u64, None::<Seq<char>>),
        ),
        final(state).model().completed_files@.len() == old(state).model().completed_files@.len()
            + 1,
        final(state).model().completed_files@.last().path@ == entry_path(
            remote_dir@,
            entry.name@,
        ),
        final(state).model().completed_files@.last().size == entry.size,
{
    let remote_path = TarPuller::entry_remote_path(remote_dir, entry.name.as_str());
    let local_path = join_path_exec(local_dir, &chars_of(entry.name.as_str()));
    state.mark_file_completed(remote_path.as_str(), entry.size, 0, None);
    state.update_sync_record(remote_path.as_str(), entry.size, local_path.as_str(), None, 0);
    proof {
        assert(opt_text(None::<String>) == None::<Seq<char>>);
    }
    TarPullStats {
        files_pulled: stats.files_pulled + 1,
        bytes_transferred: stats.bytes_transferred + entry.size,
    }
}

} // verus!
