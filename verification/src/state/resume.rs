//! Persisted transfer state for resume and delta sync.
use vstd::prelude::*;
use crate::state::index::PathMap;
use crate::clock::unix_now;
use crate::text::{append_vec, chars_of, eq_str, owned, string_of};

verus! {

/// A UTC instant: whole seconds since 1970 and the nanoseconds past them.
#[derive(Debug, Clone, Copy, PartialEq, Eq, Structural)]
pub struct Timestamp {
    pub secs: i64,
    pub nanos: u32,
}

/// The current time in UTC, as seconds and nanoseconds since 1970: a clock
/// set before 1970 reads as 1970 itself. Which time is read depends on the
/// call; only the ranges are stated.
fn utc_now() -> (t: Timestamp)
    ensures
        t.secs >= 0,
        t.nanos < 1_000_000_000,
{
    let (secs, nanos) = unix_now();
    Timestamp { secs, nanos }
}

/// A completed file record.
#[derive(Debug, Clone)]
pub struct CompletedFile {
    pub path: String,
    pub size: u64,
    pub mtime: u64,
    pub pulled_at: Timestamp,
    /// xxh3-128 hash of the pulled file (hex string). None for files pulled before hashing was added.
    pub hash: Option<String>,
}

/// A failed file record.
#[derive(Debug, Clone)]
pub struct FailedFile {
    pub path: String,
    pub error: String,
    pub attempts: u32,
    pub last_attempt: Timestamp,
}

/// A sync record for delta comparison: the file's size and modification time
/// at its last successful pull.
#[derive(Debug, Clone)]
pub struct SyncRecord {
    pub path: String,
    pub size: u64,
    /// Modification time on the device at the last sync (0 when unknown).
    pub mtime: u64,
    /// xxh3-128 hash at last sync (hex string). None for records created before hashing.
    pub hash: Option<String>,
    pub local_path: String,
    pub synced_at: Timestamp,
}

/// Persisted transfer state for resume support.
#[derive(Debug, Clone)]
pub struct TransferState {
    pub source: String,
    pub destination: String,
    pub started_at: Timestamp,
    pub last_updated: Timestamp,
    pub completed_files: Vec<CompletedFile>,
    pub completed_dirs: Vec<String>,
    pub failed_files: Vec<FailedFile>,
    /// Delta sync table — records what was last synced for change detection.
    pub synced_files: Vec<SyncRecord>,
}

impl TransferState {
    /// A fresh state: nothing done yet, started and updated now.
    pub fn new(source: &str, destination: &str) -> (s: Self)
        ensures
            s.source@ == source@,
            s.destination@ == destination@,
            s.started_at == s.last_updated,
            s.completed_files@.len() == 0,
            s.completed_dirs@.len() == 0,
            s.failed_files@.len() == 0,
            s.synced_files@.len() == 0,
    {
        let now = utc_now();
        TransferState {
            source: owned(source),
            destination: owned(destination),
            started_at: now,
            last_updated: now,
            completed_files: Vec::new(),
            completed_dirs: Vec::new(),
            failed_files: Vec::new(),
            synced_files: Vec::new(),
        }
    }
}

/// Name of the state file inside the destination directory.
pub const STATE_FILE_NAME: &'static str = ".andpull-state.json";

/// Number of attempts after which a failing file is no longer retried.
pub const MAX_RETRIES: u32 = 3;

/// `destination` joined with the state file name, as `Path::join` joins a
/// relative name: with a `/` between them unless `destination` is empty or
/// already ends with one.
pub open spec fn state_file_path(destination: Seq<char>) -> Seq<char> {
    if destination.len() == 0 {
        STATE_FILE_NAME@
    } else if destination.last() == '/' {
        destination + STATE_FILE_NAME@
    } else {
        destination + "/"@ + STATE_FILE_NAME@
    }
}

/// Where the state of a transfer into `destination` is saved.
pub fn state_file_for(destination: &str) -> (p: String)
    ensures
        p@ == state_file_path(destination@),
{
    let mut v = chars_of(destination);
    if v.len() > 0 && v[v.len() - 1] != '/' {
        v.push('/');
        proof {
            reveal_strlit("/");
            assert(v@ =~= destination@ + "/"@);
        }
    }
    append_vec(&mut v, &chars_of(STATE_FILE_NAME));
    proof {
        if destination@.len() == 0 {
            assert(v@ =~= STATE_FILE_NAME@);
        }
    }
    string_of(&v)
}

/// The paths of the completed files.
pub open spec fn completed_paths(cs: Seq<CompletedFile>) -> Set<Seq<char>> {
    Set::new(|p: Seq<char>| exists|i: int| 0 <= i < cs.len() && #[trigger] cs[i].path@ == p)
}

/// The delta sync table that a list of sync records describes: path to (size,
/// mtime, hash), a later record for a path overriding an earlier one.
pub open spec fn sync_table(rs: Seq<SyncRecord>) -> Map<Seq<char>, (u64, u64, Option<Seq<char>>)>
    decreases rs.len(),
{
    if rs.len() == 0 {
        Map::empty()
    } else {
        sync_table(rs.drop_last()).insert(
            rs.last().path@,
            (rs.last().size, rs.last().mtime, opt_text(rs.last().hash)),
        )
    }
}

/// The text of an optional string.
pub open spec fn opt_text(o: Option<String>) -> Option<Seq<char>> {
    match o {
        Some(s) => Some(s@),
        None => None,
    }
}

/// Index of the first failed record for `path` among the first `n`, if any.
pub open spec fn first_failed_from(fs: Seq<FailedFile>, path: Seq<char>, i: int) -> Option<int>
    decreases fs.len() - i,
{
    if i < 0 || i >= fs.len() {
        None
    } else if fs[i].path@ == path {
        Some(i)
    } else {
        first_failed_from(fs, path, i + 1)
    }
}

/// Index of the first failed record for `path`, if any.
pub open spec fn first_failed(fs: Seq<FailedFile>, path: Seq<char>) -> Option<int> {
    first_failed_from(fs, path, 0)
}

/// Whether a file with these failure records may be tried again: it has no
/// record, or its first record counts fewer than `max_retries` attempts.
pub open spec fn retry_allowed(fs: Seq<FailedFile>, path: Seq<char>, max_retries: u32) -> bool {
    match first_failed(fs, path) {
        Some(i) => fs[i].attempts < max_retries,
        None => true,
    }
}

/// `fs` without the records for `path`.
pub open spec fn without_path(fs: Seq<FailedFile>, path: Seq<char>) -> Seq<FailedFile> {
    fs.filter(not_for(path))
}

/// Whether a failure record is not about `path`.
pub open spec fn not_for(path: Seq<char>) -> spec_fn(FailedFile) -> bool {
    |f: FailedFile| f.path@ != path
}

proof fn lemma_first_failed_bounds(fs: Seq<FailedFile>, path: Seq<char>, i: int)
    requires
        0 <= i,
    ensures
        first_failed_from(fs, path, i) matches Some(k) ==> i <= k < fs.len() && fs[k].path@ == path
            && forall|j: int| i <= j < k ==> #[trigger] fs[j].path@ != path,
        first_failed_from(fs, path, i) is None ==> forall|j: int|
            i <= j < fs.len() ==> #[trigger] fs[j].path@ != path,
    decreases fs.len() - i,
{
    if i < fs.len() && fs[i].path@ != path {
        lemma_first_failed_bounds(fs, path, i + 1);
    }
}

/// A fresh copy of an optional string.
pub fn copy_text(o: &Option<String>) -> (r: Option<String>)
    ensures
        opt_text(r) == opt_text(*o),
{
    match o {
        Some(s) => Some(owned(s.as_str())),
        None => None,
    }
}

/// Manages transfer state persistence for resume and delta sync support.
pub struct StateManager {
    state: TransferState,
    state_file: String,
    completed_set: PathMap<()>,
    sync_map: PathMap<(u64, u64, Option<String>)>,
    max_retries: u32,
}

impl StateManager {
    /// The persisted state.
    pub closed spec fn model(&self) -> TransferState {
        self.state
    }

    /// The paths that count as completed.
    pub closed spec fn completed(&self) -> Set<Seq<char>> {
        self.completed_set@.dom()
    }

    /// The delta sync table consulted by [`StateManager::is_unchanged`].
    pub closed spec fn synced(&self) -> Map<Seq<char>, (u64, u64, Option<Seq<char>>)> {
        self.sync_map@.map_values(|v: (u64, u64, Option<String>)| (v.0, v.1, opt_text(v.2)))
    }

    /// The attempts after which a failing file is no longer retried.
    pub closed spec fn retries(&self) -> u32 {
        self.max_retries
    }

    /// Where the state is saved.
    pub closed spec fn file(&self) -> Seq<char> {
        self.state_file@
    }

    /// Create a new state manager for a transfer.
    pub fn new(source: &str, destination: &str) -> (m: Self)
        ensures
            m.model().source@ == source@,
            m.model().destination@ == destination@,
            m.model().completed_files@.len() == 0,
            m.model().completed_dirs@.len() == 0,
            m.model().failed_files@.len() == 0,
            m.model().synced_files@.len() == 0,
            m.completed() == Set::<Seq<char>>::empty(),
            m.synced() == Map::<Seq<char>, (u64, u64, Option<Seq<char>>)>::empty(),
            m.retries() == MAX_RETRIES,
            m.file() == state_file_path(destination@),
    {
        StateManager {
            state: TransferState::new(source, destination),
            state_file: state_file_for(destination),
            completed_set: PathMap::new(),
            sync_map: PathMap::new(),
            max_retries: MAX_RETRIES,
        }
    }

    /// A manager over a state loaded from the state file of `destination`:
    /// the completed paths and the delta sync table are indexed from it.
    pub fn from_state(destination: &str, state: TransferState) -> (m: Self)
        ensures
            m.model() == state,
            m.completed() == completed_paths(state.completed_files@),
            m.synced() == sync_table(state.synced_files@),
            m.retries() == MAX_RETRIES,
            m.file() == state_file_path(destination@),
    {
        let mut completed_set: PathMap<()> = PathMap::new();
        let mut i: usize = 0;
        while i < state.completed_files.len()
            invariant
                i <= state.completed_files@.len(),
                completed_set@.dom() == completed_paths(state.completed_files@.take(i as int)),
            decreases state.completed_files@.len() - i,
        {
            completed_set.insert(state.completed_files[i].path.as_str(), ());
            proof {
                let cs = state.completed_files@;
                assert(completed_paths(cs.take(i + 1)) =~= completed_paths(cs.take(i as int)).insert(
                    cs[i as int].path@,
                )) by {
                    assert forall|p: Seq<char>| completed_paths(cs.take(i + 1)).contains(p)
                        implies completed_paths(cs.take(i as int)).insert(cs[i as int].path@).contains(
                        p,
                    ) by {
                        let k = choose|k: int|
                            0 <= k < cs.take(i + 1).len() && #[trigger] cs.take(i + 1)[k].path@
                                == p;
                        if k < i {
                            assert(cs.take(i as int)[k].path@ == p);
                        }
                    }
                    assert forall|p: Seq<char>| completed_paths(cs.take(i as int)).insert(
                        cs[i as int].path@,
                    ).contains(p) implies completed_paths(cs.take(i + 1)).contains(p) by {
                        if p == cs[i as int].path@ {
                            assert(cs.take(i + 1)[i as int].path@ == p);
                        } else {
                            let k = choose|k: int|
                                0 <= k < cs.take(i as int).len() && #[trigger] cs.take(
                                    i as int,
                                )[k].path@ == p;
                            assert(cs.take(i + 1)[k].path@ == p);
                        }
                    }
                }
            }
            i = i + 1;
        }
        proof {
            assert(state.completed_files@.take(i as int) =~= state.completed_files@);
        }
        let mut sync_map: PathMap<(u64, u64, Option<String>)> = PathMap::new();
        let mut j: usize = 0;
        while j < state.synced_files.len()
            invariant
                j <= state.synced_files@.len(),
                sync_map@.map_values(|v: (u64, u64, Option<String>)| (v.0, v.1, opt_text(v.2)))
                    == sync_table(state.synced_files@.take(j as int)),
            decreases state.synced_files@.len() - j,
        {
            let r = &state.synced_files[j];
            let ghost before = sync_map@;
            sync_map.insert(r.path.as_str(), (r.size, r.mtime, copy_text(&r.hash)));
            proof {
                assert(state.synced_files@.take(j + 1).drop_last() =~= state.synced_files@.take(
                    j as int,
                ));
                assert(sync_map@.map_values(|v: (u64, u64, Option<String>)| (v.0, v.1, opt_text(v.2)))
                    =~= before.map_values(|v: (u64, u64, Option<String>)| (v.0, v.1, opt_text(v.2))).insert(
                    r.path@,
                    (r.size, r.mtime, opt_text(r.hash)),
                ));
            }
            j = j + 1;
        }
        proof {
            assert(state.synced_files@.take(j as int) =~= state.synced_files@);
        }
        StateManager {
            state,
            state_file: state_file_for(destination),
            completed_set,
            sync_map,
            max_retries: MAX_RETRIES,
        }
    }

    /// Check if a file path has already been completed.
    pub fn is_completed(&self, path: &str) -> (b: bool)
        ensures
            b == self.completed().contains(path@),
    {
        self.completed_set.contains_key(path)
    }

    /// Check if a directory has been fully completed via tar.
    pub fn is_dir_completed(&self, path: &str) -> (b: bool)
        ensures
            b == self.model().completed_dirs@.map_values(|d: String| d@).contains(path@),
    {
        let p = chars_of(path);
        let ghost ds = self.state.completed_dirs@.map_values(|d: String| d@);
        let mut i: usize = 0;
        while i < self.state.completed_dirs.len()
            invariant
                i <= self.state.completed_dirs@.len(),
                ds == self.state.completed_dirs@.map_values(|d: String| d@),
                p@ == path@,
                forall|k: int| 0 <= k < i ==> ds[k] != path@,
            decreases self.state.completed_dirs@.len() - i,
        {
            if eq_str(&chars_of(self.state.completed_dirs[i].as_str()), path) {
                assert(ds[i as int] == path@);
                return true;
            }
            i = i + 1;
        }
        false
    }

    /// Delta sync: check if a remote file is unchanged since last sync.
    /// Its size and modification time must match those recorded at the last
    /// sync; the hash is checked during integrity verification.
    pub fn is_unchanged(&self, path: &str, remote_size: u64, remote_mtime: u64) -> (b: bool)
        ensures
            b == (self.synced().dom().contains(path@) && self.synced()[path@].0 == remote_size
                && self.synced()[path@].1 == remote_mtime),
    {
        let r = self.sync_map.get(path);
        proof {
            assert(self.synced().dom() =~= self.sync_map@.dom());
        }
        match r {
            Some(entry) => entry.0 == remote_size && entry.1 == remote_mtime,
            None => false,
        }
    }

    /// Get the stored hash for a synced file (if available).
    pub fn get_sync_hash(&self, path: &str) -> (r: Option<&str>)
        ensures
            match r {
                Some(h) => self.synced().dom().contains(path@) && (self.synced()[path@].2 matches Some(
                    s,
                ) && h@ == s),
                None => !self.synced().dom().contains(path@) || self.synced()[path@].2 is None,
            },
    {
        let r = self.sync_map.get(path);
        proof {
            assert(self.synced().dom() =~= self.sync_map@.dom());
        }
        match r {
            Some(entry) => match &entry.2 {
                Some(h) => Some(h.as_str()),
                None => None,
            },
            None => None,
        }
    }
}

impl StateManager {
    /// Update the sync record after a successful pull, with optional hash
    /// and the file's modification time: the sync table maps `path` to the
    /// new size, mtime and hash, and the first persisted record for `path`
    /// is updated (or one is appended).
    pub fn update_sync_record(
        &mut self,
        path: &str,
        size: u64,
        local_path: &str,
        hash: Option<String>,
        mtime: u64,
    )
        ensures
            final(self).synced() == old(self).synced().insert(path@, (size, mtime, opt_text(hash))),
            final(self).completed() == old(self).completed(),
            final(self).retries() == old(self).retries(),
            final(self).file() == old(self).file(),
            final(self).model().completed_files == old(self).model().completed_files,
            final(self).model().completed_dirs == old(self).model().completed_dirs,
            final(self).model().failed_files == old(self).model().failed_files,
            synced_first(old(self).model().synced_files@, path@) matches Some(k) ==> {
                &&& final(self).model().synced_files@.len() == old(self).model().synced_files@.len()
                &&& forall|i: int|
                    0 <= i < old(self).model().synced_files@.len() && i != k ==> (#[trigger] final(self).model().synced_files@[i]) == old(self).model().synced_files@[i]
                &&& record_is(final(self).model().synced_files@[k], path@, size, mtime, local_path@, hash)
            },
            synced_first(old(self).model().synced_files@, path@) is None ==> {
                &&& final(self).model().synced_files@.drop_last() == old(self).model().synced_files@
                &&& final(self).model().synced_files@.len() == old(self).model().synced_files@.len()
                    + 1
                &&& record_is(final(self).model().synced_files@.last(), path@, size, mtime, local_path@, hash)
            },
    {
        let ghost before = self.sync_map@;
        self.sync_map.insert(path, (size, mtime, copy_text(&hash)));
        proof {
            assert(self.synced() =~= before.map_values(
                |v: (u64, u64, Option<String>)| (v.0, v.1, opt_text(v.2)),
            ).insert(path@, (size, mtime, opt_text(hash))));
        }
        let now = utc_now();
        match find_synced(&self.state.synced_files, path) {
            Some(i) => {
                let rec = SyncRecord {
                    path: owned(path),
                    size,
                    mtime,
                    hash,
                    local_path: owned(local_path),
                    synced_at: now,
                };
                self.state.synced_files.set(i, rec);
            },
            None => {
                self.state.synced_files.push(
                    SyncRecord {
                        path: owned(path),
                        size,
                        mtime,
                        hash,
                        local_path: owned(local_path),
                        synced_at: now,
                    },
                );
            },
        }
    }
}

impl StateManager {
    /// Whether a file should be tried (again): it has not failed, or its
    /// first failure record counts fewer attempts than the retry limit.
    pub fn should_retry(&self, path: &str) -> (b: bool)
        ensures
            b == retry_allowed(self.model().failed_files@, path@, self.retries()),
    {
        match find_failed(&self.state.failed_files, path) {
            Some(i) => self.state.failed_files[i].attempts < self.max_retries,
            None => true,
        }
    }

    /// Mark a file as completed, with optional hash for integrity tracking:
    /// it counts as completed from now on, a completion record is appended,
    /// and its failure records are dropped.
    pub fn mark_file_completed(&mut self, path: &str, size: u64, mtime: u64, hash: Option<String>)
        ensures
            final(self).completed() == old(self).completed().insert(path@),
            final(self).model().completed_files@.drop_last() == old(self).model().completed_files@,
            final(self).model().completed_files@.len() == old(self).model().completed_files@.len() + 1,
            final(self).model().completed_files@.last().path@ == path@,
            final(self).model().completed_files@.last().size == size,
            final(self).model().completed_files@.last().mtime == mtime,
            final(self).model().completed_files@.last().hash == hash,
            final(self).model().failed_files@ == without_path(old(self).model().failed_files@, path@),
            final(self).model().completed_dirs == old(self).model().completed_dirs,
            final(self).model().synced_files == old(self).model().synced_files,
            final(self).model().source == old(self).model().source,
            final(self).model().destination == old(self).model().destination,
            final(self).model().started_at == old(self).model().started_at,
            final(self).synced() == old(self).synced(),
            final(self).retries() == old(self).retries(),
            final(self).file() == old(self).file(),
    {
        let record = CompletedFile { path: owned(path), size, mtime, pulled_at: utc_now(), hash };
        self.completed_set.insert(path, ());
        self.state.completed_files.push(record);
        self.state.last_updated = utc_now();
        let mut kept: Vec<FailedFile> = Vec::new();
        let mut fs: Vec<FailedFile> = Vec::new();
        std::mem::swap(&mut fs, &mut self.state.failed_files);
        let ghost old_fs = fs@;
        for f in it: fs
            invariant
                it.seq() == old_fs,
                kept@ == without_path(old_fs.take(it.index() as int), path@),
        {
            let ghost k = it.index() as int;
            proof {
                assert(old_fs.take(k + 1).drop_last() =~= old_fs.take(k));
                assert(old_fs.take(k + 1).last() == f);
                old_fs.take(k).lemma_filter_push(f, not_for(path@));
                assert(old_fs.take(k + 1) =~= old_fs.take(k).push(f));
            }
            if !eq_str(&chars_of(f.path.as_str()), path) {
                kept.push(f);
            }
        }
        proof {
            assert(old_fs.take(old_fs.len() as int) =~= old_fs);
        }
        self.state.failed_files = kept;
    }

    /// Mark a directory as fully completed (via tar); a directory is recorded once.
    pub fn mark_dir_completed(&mut self, path: &str)
        ensures
            dir_recorded(
                old(self).model().completed_dirs@,
                final(self).model().completed_dirs@,
                path@,
            ),
            final(self).model().completed_files == old(self).model().completed_files,
            final(self).model().failed_files == old(self).model().failed_files,
            final(self).model().synced_files == old(self).model().synced_files,
            final(self).completed() == old(self).completed(),
            final(self).synced() == old(self).synced(),
            final(self).retries() == old(self).retries(),
    {
        proof {
            assert(texts_of(self.state.completed_dirs@) == self.state.completed_dirs@.map_values(
                |d: String| d@,
            ));
        }
        if !self.is_dir_completed(path) {
            let ghost before = self.state.completed_dirs@;
            self.state.completed_dirs.push(owned(path));
            assert(self.state.completed_dirs@.drop_last() =~= before);
        }
        self.state.last_updated = utc_now();
    }

    /// Mark a file as failed: its first failure record counts one more
    /// attempt and takes the new error, or a record of one attempt is appended.
    pub fn mark_file_failed(&mut self, path: &str, error: &str)
        requires
            first_failed(old(self).model().failed_files@, path@) matches Some(k) ==> old(
                self,
            ).model().failed_files@[k].attempts < u32::MAX,
        ensures
            failure_recorded(
                old(self).model().failed_files@,
                final(self).model().failed_files@,
                path@,
                error@,
            ),
            final(self).model().completed_files == old(self).model().completed_files,
            final(self).model().completed_dirs == old(self).model().completed_dirs,
            final(self).model().synced_files == old(self).model().synced_files,
            final(self).completed() == old(self).completed(),
            final(self).synced() == old(self).synced(),
            final(self).retries() == old(self).retries(),
    {
        let now = utc_now();
        match find_failed(&self.state.failed_files, path) {
            Some(i) => {
                let attempts = self.state.failed_files[i].attempts + 1;
                let rec = FailedFile {
                    path: owned(path),
                    error: owned(error),
                    attempts,
                    last_attempt: now,
                };
                let ghost before = self.state.failed_files@;
                self.state.failed_files.set(i, rec);
                assert(forall|j: int|
                    0 <= j < before.len() && j != i ==> (#[trigger] self.state.failed_files@[j])
                        == before[j]);
            },
            None => {
                let ghost before = self.state.failed_files@;
                self.state.failed_files.push(
                    FailedFile { path: owned(path), error: owned(error), attempts: 1, last_attempt: now },
                );
                assert(self.state.failed_files@.drop_last() =~= before);
            },
        }
        self.state.last_updated = utc_now();
    }

    /// Summary counts: completed files, failed files, completed directories.
    pub fn stats(&self) -> (r: (usize, usize, usize))
        ensures
            r.0 == self.model().completed_files@.len(),
            r.1 == self.model().failed_files@.len(),
            r.2 == self.model().completed_dirs@.len(),
    {
        (
            self.state.completed_files.len(),
            self.state.failed_files.len(),
            self.state.completed_dirs.len(),
        )
    }

    /// Get the state reference.
    pub fn state(&self) -> (r: &TransferState)
        ensures
            *r == self.model(),
    {
        &self.state
    }

    /// The attempts that the first failure record for `path` counts, if any.
    pub fn failed_attempts(&self, path: &str) -> (r: Option<u32>)
        ensures
            match first_failed(self.model().failed_files@, path@) {
                Some(k) => r == Some(self.model().failed_files@[k].attempts),
                None => r is None,
            },
    {
        match find_failed(&self.state.failed_files, path) {
            Some(i) => Some(self.state.failed_files[i].attempts),
            None => None,
        }
    }

    /// Get the source path.
    pub fn source(&self) -> (r: &str)
        ensures
            r@ == self.model().source@,
    {
        self.state.source.as_str()
    }

    /// Get the destination path.
    pub fn destination(&self) -> (r: &str)
        ensures
            r@ == self.model().destination@,
    {
        self.state.destination.as_str()
    }

    /// Where the state is saved.
    pub fn state_file(&self) -> (r: &str)
        ensures
            r@ == self.file(),
    {
        self.state_file.as_str()
    }
}

/// The texts of a list of strings.
pub open spec fn texts_of(v: Seq<String>) -> Seq<Seq<char>> {
    v.map_values(|d: String| d@)
}

/// `after` is the list of completed directories `before` once `path` is
/// recorded: unchanged when it is already there, else with `path` appended.
pub open spec fn dir_recorded(before: Seq<String>, after: Seq<String>, path: Seq<char>) -> bool {
    if texts_of(before).contains(path) {
        after == before
    } else {
        after.drop_last() == before && after.len() == before.len() + 1 && after.last()@ == path
    }
}

/// `after` is the failure list `before` once a failure of `path` with
/// `error` is recorded: the first record for `path` counts one more attempt
/// and takes the new error, or a record of one attempt is appended.
pub open spec fn failure_recorded(
    before: Seq<FailedFile>,
    after: Seq<FailedFile>,
    path: Seq<char>,
    error: Seq<char>,
) -> bool {
    match first_failed(before, path) {
        Some(k) => {
            &&& after.len() == before.len()
            &&& forall|i: int| 0 <= i < before.len() && i != k ==> (#[trigger] after[i]) == before[i]
            &&& after[k].path@ == path
            &&& after[k].error@ == error
            &&& after[k].attempts == before[k].attempts + 1
        },
        None => {
            &&& after.drop_last() == before
            &&& after.len() == before.len() + 1
            &&& after.last().path@ == path
            &&& after.last().error@ == error
            &&& after.last().attempts == 1
        },
    }
}

proof fn lemma_first_failed_at(fs: Seq<FailedFile>, path: Seq<char>, i: int)
    requires
        0 <= i < fs.len(),
        fs[i].path@ == path,
        forall|j: int| 0 <= j < i ==> (#[trigger] fs[j]).path@ != path,
    ensures
        first_failed(fs, path) == Some(i),
{
    lemma_first_failed_bounds(fs, path, 0);
    match first_failed(fs, path) {
        Some(k) => {
            if k < i {
                assert(fs[k].path@ != path);
            } else if k > i {
                assert(fs[i].path@ != path);
            }
        },
        None => {
            assert(fs[i].path@ != path);
        },
    }
}

proof fn lemma_failure_attempts(
    before: Seq<FailedFile>,
    after: Seq<FailedFile>,
    path: Seq<char>,
    error: Seq<char>,
)
    requires
        failure_recorded(before, after, path, error),
    ensures
        first_failed(after, path) matches Some(k) && after[k].attempts == match first_failed(
            before,
            path,
        ) {
            Some(j) => before[j].attempts + 1,
            None => 1,
        },
{
    lemma_first_failed_bounds(before, path, 0);
    match first_failed(before, path) {
        Some(k) => {
            assert forall|j: int| 0 <= j < k implies (#[trigger] after[j]).path@ != path by {
                assert(after[j] == before[j]);
            }
            lemma_first_failed_at(after, path, k);
        },
        None => {
            let n = before.len() as int;
            assert forall|j: int| 0 <= j < n implies (#[trigger] after[j]).path@ != path by {
                assert(after[j] == after.drop_last()[j]);
            }
            lemma_first_failed_at(after, path, n);
        },
    }
}

/// A file that keeps failing is tried again after its first and second
/// failure and no longer after its third (the retry limit).
pub proof fn lemma_retries_exhaust(
    f0: Seq<FailedFile>,
    f1: Seq<FailedFile>,
    f2: Seq<FailedFile>,
    f3: Seq<FailedFile>,
    path: Seq<char>,
    e1: Seq<char>,
    e2: Seq<char>,
    e3: Seq<char>,
)
    requires
        first_failed(f0, path) is None,
        failure_recorded(f0, f1, path, e1),
        failure_recorded(f1, f2, path, e2),
        failure_recorded(f2, f3, path, e3),
    ensures
        retry_allowed(f0, path, MAX_RETRIES),
        retry_allowed(f1, path, MAX_RETRIES),
        retry_allowed(f2, path, MAX_RETRIES),
        !retry_allowed(f3, path, MAX_RETRIES),
{
    lemma_failure_attempts(f0, f1, path, e1);
    lemma_failure_attempts(f1, f2, path, e2);
    lemma_failure_attempts(f2, f3, path, e3);
}

/// Completing a file clears its failures, so it counts as retryable again.
pub proof fn lemma_completion_clears_failures(fs: Seq<FailedFile>, path: Seq<char>, max_retries: u32)
    ensures
        first_failed(without_path(fs, path), path) is None,
        retry_allowed(without_path(fs, path), path, max_retries),
{
    let kept = without_path(fs, path);
    lemma_first_failed_bounds(kept, path, 0);
    if first_failed(kept, path) is Some {
        let k = first_failed(kept, path)->0;
        fs.filter_lemma(not_for(path));
        assert(not_for(path)(kept[k]));
    }
}

/// A file marked completed reports completed, whatever was marked before.
pub proof fn lemma_completed_after_mark(before: Set<Seq<char>>, after: Set<Seq<char>>, path: Seq<char>)
    requires
        after == before.insert(path),
    ensures
        after.contains(path),
        forall|p: Seq<char>| before.contains(p) ==> after.contains(p),
{
}

/// A directory is recorded once: recording it again leaves the list unchanged.
pub proof fn lemma_dir_record_idempotent(
    d0: Seq<String>,
    d1: Seq<String>,
    d2: Seq<String>,
    path: Seq<char>,
)
    requires
        dir_recorded(d0, d1, path),
        dir_recorded(d1, d2, path),
    ensures
        texts_of(d1).contains(path),
        d2 == d1,
{
    if !texts_of(d0).contains(path) {
        let n = d0.len() as int;
        assert(texts_of(d1)[n] == path);
    }
}

/// After a sync is recorded at a size and mtime, the file counts as
/// unchanged at exactly that size and mtime, and its recorded hash is the
/// one given.
pub proof fn lemma_sync_then_unchanged(
    before: Map<Seq<char>, (u64, u64, Option<Seq<char>>)>,
    after: Map<Seq<char>, (u64, u64, Option<Seq<char>>)>,
    path: Seq<char>,
    size: u64,
    mtime: u64,
    hash: Option<Seq<char>>,
    other_size: u64,
    other_mtime: u64,
)
    requires
        after == before.insert(path, (size, mtime, hash)),
    ensures
        after.dom().contains(path) && after[path].0 == size && after[path].1 == mtime,
        (other_size != size || other_mtime != mtime) ==> !(after.dom().contains(path)
            && after[path].0 == other_size && after[path].1 == other_mtime),
        after[path].2 == hash,
{
}

/// The position of the first failure record for `path`.
fn find_failed(fs: &Vec<FailedFile>, path: &str) -> (r: Option<usize>)
    ensures
        match r {
            Some(i) => first_failed(fs@, path@) == Some(i as int) && i < fs@.len(),
            None => first_failed(fs@, path@) is None,
        },
{
    let mut i: usize = 0;
    while i < fs.len()
        invariant
            i <= fs@.len(),
            first_failed(fs@, path@) == first_failed_from(fs@, path@, i as int),
        decreases fs@.len() - i,
    {
        if eq_str(&chars_of(fs[i].path.as_str()), path) {
            return Some(i);
        }
        i = i + 1;
    }
    None
}

/// The position of the first sync record for `path`.
fn find_synced(rs: &Vec<SyncRecord>, path: &str) -> (r: Option<usize>)
    ensures
        match r {
            Some(i) => synced_first(rs@, path@) == Some(i as int) && i < rs@.len(),
            None => synced_first(rs@, path@) is None,
        },
{
    let mut i: usize = 0;
    while i < rs.len()
        invariant
            i <= rs@.len(),
            forall|k: int| 0 <= k < i ==> (#[trigger] rs@[k]).path@ != path@,
        decreases rs@.len() - i,
    {
        if eq_str(&chars_of(rs[i].path.as_str()), path) {
            proof {
                lemma_synced_first_is(rs@, path@, i as int);
            }
            return Some(i);
        }
        i = i + 1;
    }
    proof {
        lemma_synced_first_none(rs@, path@);
    }
    None
}

/// Index of the first sync record for `path`, if any.
pub open spec fn synced_first(rs: Seq<SyncRecord>, path: Seq<char>) -> Option<int> {
    if exists|i: int| 0 <= i < rs.len() && #[trigger] rs[i].path@ == path {
        Some(
            choose|i: int|
                0 <= i < rs.len() && #[trigger] rs[i].path@ == path && forall|j: int|
                    0 <= j < i ==> (#[trigger] rs[j]).path@ != path,
        )
    } else {
        None
    }
}

/// `r` records a sync of `path` with these size, mtime, local path and hash.
pub open spec fn record_is(
    r: SyncRecord,
    path: Seq<char>,
    size: u64,
    mtime: u64,
    local_path: Seq<char>,
    hash: Option<String>,
) -> bool {
    r.path@ == path && r.size == size && r.mtime == mtime && r.local_path@ == local_path
        && r.hash == hash
}

proof fn lemma_synced_first_is(rs: Seq<SyncRecord>, path: Seq<char>, i: int)
    requires
        0 <= i < rs.len(),
        rs[i].path@ == path,
        forall|k: int| 0 <= k < i ==> (#[trigger] rs[k]).path@ != path,
    ensures
        synced_first(rs, path) == Some(i),
{
    let j = choose|j: int|
        0 <= j < rs.len() && #[trigger] rs[j].path@ == path && forall|k: int|
            0 <= k < j ==> (#[trigger] rs[k]).path@ != path;
    assert(rs[i].path@ == path);
    if j < i {
        assert(rs[j].path@ != path);
    }
    if j > i {
        assert(rs[i].path@ != path);
    }
}

proof fn lemma_synced_first_none(rs: Seq<SyncRecord>, path: Seq<char>)
    requires
        forall|k: int| 0 <= k < rs.len() ==> (#[trigger] rs[k]).path@ != path,
    ensures
        synced_first(rs, path) is None,
{
}

} // verus!
