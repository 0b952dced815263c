//! Jobs for the worker pool, its size, and how each finished job is recorded.
use vstd::prelude::*;
use crate::adb::client::DeviceInfo;
use crate::state::resume::{first_failed, opt_text, StateManager};
use crate::text::{
    append_vec, chars_of, eq_str, rscan, rscan_exec, slice_vec, string_of, trim_end_char,
    trim_end_char_vec, Stop,
};

verus! {

/// A file job to be pulled by a worker.
#[derive(Debug, Clone)]
pub struct FileJob {
    pub remote_path: String,
    pub local_path: String,
    pub name: String,
    pub size: u64,
    pub mtime: u64,
}

/// Worker pool that distributes file pull jobs across multiple ADB connections.
#[derive(Debug)]
pub struct WorkerPool {
    pub worker_count: usize,
}

impl WorkerPool {
    /// A pool of `worker_count` workers (at least one).
    pub fn new(worker_count: usize) -> (p: Self)
        ensures
            p.worker_count == if worker_count == 0 {
                1
            } else {
                worker_count
            },
    {
        WorkerPool { worker_count: if worker_count == 0 {
            1
        } else {
            worker_count
        } }
    }

    /// Auto-detect optimal worker count based on device connection type.
    /// USB connections get 8 workers, WiFi gets 2 (to avoid congestion).
    pub fn auto_detect(device: &DeviceInfo) -> (p: Self)
        ensures
            p.worker_count == if device.transport@ == "wifi"@ {
                2usize
            } else {
                8usize
            },
    {
        let count: usize = if eq_str(&chars_of(device.transport.as_str()), "wifi") {
            2
        } else {
            8
        };
        WorkerPool::new(count)
    }

    /// Whether the state is saved after a job: every fiftieth completed file.
    pub fn autosave_due(completed_files: u64) -> (b: bool)
        ensures
            b == (completed_files % 50 == 0),
    {
        completed_files % 50 == 0
    }

    /// Records the outcome of one job in the state: a pulled file counts as
    /// completed and its sync record takes its size, mtime, local path and
    /// hash; a failed one counts one more failed attempt with the error text.
    pub fn record_outcome(
        sm: &mut StateManager,
        job: &FileJob,
        outcome: Result<u64, String>,
        hash: Option<String>,
    )
        requires
            outcome is Err ==> (first_failed(old(sm).model().failed_files@, job.remote_path@) matches Some(
                k,
            ) ==> old(sm).model().failed_files@[k].attempts < u32::MAX),
        ensures
            outcome is Ok ==> {
                &&& final(sm).completed() == old(sm).completed().insert(job.remote_path@)
                &&& final(sm).synced() == old(sm).synced().insert(
                    job.remote_path@,
                    (job.size, job.mtime, opt_text(hash)),
                )
                &&& final(sm).model().completed_files@.len() == old(sm).model().completed_files@.len() + 1
            },
            outcome matches Err(e) ==> crate::state::resume::failure_recorded(
                old(sm).model().failed_files@,
                final(sm).model().failed_files@,
                job.remote_path@,
                e@,
            ) && final(sm).completed() == old(sm).completed() && final(sm).synced() == old(sm).synced(),
    {
        match outcome {
            Ok(_) => {
                let copy = crate::state::resume::copy_text(&hash);
                sm.mark_file_completed(job.remote_path.as_str(), job.size, job.mtime, copy);
                sm.update_sync_record(
                    job.remote_path.as_str(),
                    job.size,
                    job.local_path.as_str(),
                    hash,
                    job.mtime,
                );
            },
            Err(e) => {
                sm.mark_file_failed(job.remote_path.as_str(), e.as_str());
            },
        }
    }
}

/// Where the last `/` of a path ends (its index plus one); 0 without one.
pub open spec fn after_last_slash(path: Seq<char>) -> int {
    rscan(path, path.len() as int, Stop::Char('/'))
}

/// The shell command that creates the device directory of `remote_path`
/// before a file is pushed there: everything before its last `/`, in single
/// quotes; `None` when the path holds no `/`.
pub fn remote_dir_command(remote_path: &str) -> (r: Option<String>)
    ensures
        r is None <==> after_last_slash(remote_path@) == 0,
        r matches Some(c) ==> c@ == "mkdir -p '"@ + remote_path@.take(
            after_last_slash(remote_path@) - 1,
        ) + "'"@,
{
    let v = chars_of(remote_path);
    let k = rscan_exec(&v, v.len(), Stop::Char('/'));
    if k == 0 {
        return None;
    }
    let mut c = chars_of("mkdir -p '");
    append_vec(&mut c, &slice_vec(&v, 0, k - 1));
    append_vec(&mut c, &chars_of("'"));
    assert(v@.subrange(0, k - 1) =~= remote_path@.take(k - 1));
    Some(string_of(&c))
}

/// The job that pushes the local file of a planned job into the device
/// directory `destination`: read from the file's own path, it lands at
/// `<destination>/<name>` with the trailing slashes of `destination` dropped.
pub fn push_job(job: FileJob, destination: &str) -> (r: FileJob)
    ensures
        r.remote_path@ == trim_end_char(destination@, '/') + "/"@ + job.name@,
        r.local_path@ == job.remote_path@,
        r.name@ == job.name@,
        r.size == job.size,
        r.mtime == job.mtime,
{
    let mut target = trim_end_char_vec(&chars_of(destination), '/');
    append_vec(&mut target, &chars_of("/"));
    append_vec(&mut target, &chars_of(job.name.as_str()));
    FileJob {
        remote_path: string_of(&target),
        local_path: job.remote_path,
        name: job.name,
        size: job.size,
        mtime: job.mtime,
    }
}

} // verus!
