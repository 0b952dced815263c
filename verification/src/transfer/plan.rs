//! The transfer engine's decisions: where files land, which ones are
//! skipped on resume or delta sync, and which are pulled one by one.
use vstd::prelude::*;
use crate::adb::client::{strip_all_prefix, strip_all_prefix_exec};
use crate::scanner::tree::{derefs, FileNode};
use crate::state::resume::StateManager;
use crate::transfer::pool::FileJob;
use crate::text::{append_vec, chars_of, owned, starts_with, starts_with_exec, string_of};

verus! {

/// What the engine does with a selected file.
#[derive(Debug, Clone, Copy, PartialEq, Eq, Structural)]
pub enum FileAction {
    /// Pulled in an earlier, interrupted run.
    Resumed,
    /// Same size as at the last sync.
    Unchanged,
    /// To be pulled now.
    Pull,
}

/// `Path::join` of a relative or absolute path onto `base`: an absolute
/// `rel` replaces `base`; otherwise a `/` goes between them unless `base` is
/// empty or already ends with one.
pub open spec fn join_path(base: Seq<char>, rel: Seq<char>) -> Seq<char> {
    if rel.len() > 0 && rel[0] == '/' {
        rel
    } else if base.len() == 0 || base.last() == '/' {
        base + rel
    } else {
        base + seq!['/'] + rel
    }
}

/// Where a device path lands under `destination`: its path below
/// `/sdcard/` (every leading `/sdcard/` removed) joined onto the destination.
pub open spec fn local_target_of(destination: Seq<char>, remote: Seq<char>) -> Seq<char> {
    join_path(destination, strip_all_prefix(remote, "/sdcard/"@))
}

/// `Path::join` on text paths.
pub fn join_path_exec(base: &str, rel: &Vec<char>) -> (r: String)
    ensures
        r@ == join_path(base@, rel@),
{
    if rel.len() > 0 && rel[0] == '/' {
        return string_of(rel);
    }
    let mut v = chars_of(base);
    if v.len() > 0 && v[v.len() - 1] != '/' {
        v.push('/');
    }
    let ghost b = base@;
    append_vec(&mut v, rel);
    proof {
        if b.len() > 0 && b.last() != '/' {
            assert(v@ =~= b + seq!['/'] + rel@);
        } else {
            assert(v@ =~= b + rel@);
        }
    }
    string_of(&v)
}

/// The local path that a device path is pulled to under `destination`.
pub fn local_target(destination: &str, remote_path: &str) -> (p: String)
    ensures
        p@ == local_target_of(destination@, remote_path@),
{
    let rel = strip_all_prefix_exec(&chars_of(remote_path), &chars_of("/sdcard/"));
    join_path_exec(destination, &rel)
}

/// What the engine does with a file of this path, size and mtime, given the
/// state: skip it when it was completed before, skip it when both its size
/// and its mtime match the last sync, pull it otherwise.
pub open spec fn action_for(sm: StateManager, path: Seq<char>, size: u64, mtime: u64) -> FileAction {
    if sm.completed().contains(path) {
        FileAction::Resumed
    } else if sm.synced().dom().contains(path) && sm.synced()[path].0 == size
        && sm.synced()[path].1 == mtime {
        FileAction::Unchanged
    } else {
        FileAction::Pull
    }
}

/// Classifies one selected file.
pub fn classify(sm: &StateManager, path: &str, size: u64, mtime: u64) -> (a: FileAction)
    ensures
        a == action_for(*sm, path@, size, mtime),
{
    if sm.is_completed(path) {
        FileAction::Resumed
    } else if sm.is_unchanged(path, size, mtime) {
        FileAction::Unchanged
    } else {
        FileAction::Pull
    }
}

/// `job` pulls the file `f` to its place under `destination`.
pub open spec fn job_for(job: FileJob, f: FileNode, destination: Seq<char>) -> bool {
    &&& job.remote_path@ == f.path@
    &&& job.local_path@ == local_target_of(destination, f.path@)
    &&& job.name@ == f.name@
    &&& job.size == f.size
    &&& job.mtime == f.mtime
}

/// The files among `fs` that are to be pulled.
pub open spec fn pulled(sm: StateManager, fs: Seq<FileNode>) -> Seq<FileNode> {
    fs.filter(|f: FileNode| action_for(sm, f.path@, f.size, f.mtime) == FileAction::Pull)
}

/// The job that pulls `f` under `destination`.
pub fn job_of(f: &FileNode, destination: &str) -> (job: FileJob)
    ensures
        job_for(job, *f, destination@),
{
    FileJob {
        remote_path: owned(f.path.as_str()),
        local_path: local_target(destination, f.path.as_str()),
        name: owned(f.name.as_str()),
        size: f.size,
        mtime: f.mtime,
    }
}

/// Sorts the selected files before dispatch: the action for each file, in
/// order, and one job for each file to pull, in the same order.
pub fn plan_jobs(sm: &StateManager, files: &Vec<&FileNode>, destination: &str) -> (r: (
    Vec<FileAction>,
    Vec<FileJob>,
))
    ensures
        r.0@.len() == files@.len(),
        forall|i: int|
            0 <= i < files@.len() ==> r.0@[i] == action_for(
                *sm,
                (#[trigger] files@[i]).path@,
                files@[i].size,
                files@[i].mtime,
            ),
        r.1@.len() == pulled(*sm, derefs(files@)).len(),
        forall|j: int|
            0 <= j < r.1@.len() ==> job_for(
                #[trigger] r.1@[j],
                pulled(*sm, derefs(files@))[j],
                destination@,
            ),
{
    let ghost fs = derefs(files@);
    let ghost keep = |f: FileNode| action_for(*sm, f.path@, f.size, f.mtime) == FileAction::Pull;
    let mut actions: Vec<FileAction> = Vec::new();
    let mut jobs: Vec<FileJob> = Vec::new();
    let mut i: usize = 0;
    while i < files.len()
        invariant
            i <= files@.len(),
            fs == derefs(files@),
            keep == (|f: FileNode| action_for(*sm, f.path@, f.size, f.mtime) == FileAction::Pull),
            actions@.len() == i,
            forall|k: int|
                0 <= k < i ==> actions@[k] == action_for(
                    *sm,
                    (#[trigger] files@[k]).path@,
                    files@[k].size,
                    files@[k].mtime,
                ),
            jobs@.len() == fs.take(i as int).filter(keep).len(),
            forall|j: int|
                0 <= j < jobs@.len() ==> job_for(
                    #[trigger] jobs@[j],
                    fs.take(i as int).filter(keep)[j],
                    destination@,
                ),
        decreases files@.len() - i,
    {
        let f = files[i];
        let a = classify(sm, f.path.as_str(), f.size, f.mtime);
        actions.push(a);
        proof {
            assert(fs.take(i + 1) =~= fs.take(i as int).push(fs[i as int]));
            assert(fs[i as int] == *f);
            fs.take(i as int).lemma_filter_push(fs[i as int], keep);
        }
        if a == FileAction::Pull {
            let job = job_of(f, destination);
            jobs.push(job);
        }
        i = i + 1;
    }
    proof {
        assert(fs.take(i as int) =~= fs);
        assert(pulled(*sm, fs) == fs.filter(keep));
    }
    (actions, jobs)
}

/// Whether a file lies under one of the selected directories (by path prefix).
pub open spec fn under_some(f: FileNode, dirs: Seq<FileNode>) -> bool {
    exists|k: int| 0 <= k < dirs.len() && starts_with(f.path@, (#[trigger] dirs[k]).path@)
}

/// The selected files that no selected directory covers: those pulled on
/// their own after the directories.
pub fn standalone_files<'a>(files: &Vec<&'a FileNode>, dirs: &Vec<&FileNode>) -> (r: Vec<
    &'a FileNode,
>)
    ensures
        derefs(r@) == derefs(files@).filter(|f: FileNode| !under_some(f, derefs(dirs@))),
{
    let ghost fs = derefs(files@);
    let ghost ds = derefs(dirs@);
    let ghost keep = |f: FileNode| !under_some(f, ds);
    let mut out: Vec<&FileNode> = Vec::new();
    let mut i: usize = 0;
    while i < files.len()
        invariant
            i <= files@.len(),
            fs == derefs(files@),
            ds == derefs(dirs@),
            keep == (|f: FileNode| !under_some(f, ds)),
            derefs(out@) == fs.take(i as int).filter(keep),
        decreases files@.len() - i,
    {
        let f = files[i];
        let p = chars_of(f.path.as_str());
        let mut covered = false;
        let mut k: usize = 0;
        while k < dirs.len()
            invariant
                k <= dirs@.len(),
                ds == derefs(dirs@),
                p@ == f.path@,
                covered == exists|m: int| 0 <= m < k && starts_with(f.path@, (#[trigger] ds[m]).path@),
            decreases dirs@.len() - k,
        {
            let d = chars_of(dirs[k].path.as_str());
            if starts_with_exec(&p, &d) {
                covered = true;
            }
            proof {
                assert(ds[k as int] == *dirs@[k as int]);
                if covered {
                    if starts_with(f.path@, ds[k as int].path@) {
                        assert(exists|m: int| 0 <= m < k + 1 && starts_with(f.path@, (#[trigger] ds[m]).path@));
                    }
                }
            }
            k = k + 1;
        }
        proof {
            assert(fs.take(i + 1) =~= fs.take(i as int).push(fs[i as int]));
            assert(fs[i as int] == *f);
            fs.take(i as int).lemma_filter_push(fs[i as int], keep);
        }
        if !covered {
            let ghost before = out@;
            out.push(f);
            assert(derefs(out@) =~= derefs(before).push(*f));
        }
        i = i + 1;
    }
    proof {
        assert(fs.take(i as int) =~= fs);
    }
    out
}

/// Resume: a file recorded as completed is skipped, whatever its size.
pub proof fn lemma_completed_is_skipped(sm: StateManager, path: Seq<char>, size: u64, mtime: u64)
    requires
        sm.completed().contains(path),
    ensures
        action_for(sm, path, size, mtime) == FileAction::Resumed,
{
}

/// Delta sync: a file synced before at the same size and mtime, and not
/// completed in this run, is skipped as unchanged; at any other size or any
/// other mtime it is pulled.
pub proof fn lemma_synced_size_decides(
    sm: StateManager,
    path: Seq<char>,
    size: u64,
    mtime: u64,
    other_size: u64,
    other_mtime: u64,
)
    requires
        !sm.completed().contains(path),
        sm.synced().dom().contains(path),
        sm.synced()[path].0 == size,
        sm.synced()[path].1 == mtime,
        other_size != size || other_mtime != mtime,
    ensures
        action_for(sm, path, size, mtime) == FileAction::Unchanged,
        action_for(sm, path, other_size, other_mtime) == FileAction::Pull,
{
}

/// Only files that are to be pulled get a job, and each keeps its place.
pub proof fn lemma_jobs_are_pulled_files(sm: StateManager, fs: Seq<FileNode>, j: int)
    requires
        0 <= j < pulled(sm, fs).len(),
    ensures
        action_for(sm, pulled(sm, fs)[j].path@, pulled(sm, fs)[j].size, pulled(sm, fs)[j].mtime) == FileAction::Pull,
        fs.contains(pulled(sm, fs)[j]),
{
    let keep = |f: FileNode| action_for(sm, f.path@, f.size, f.mtime) == FileAction::Pull;
    fs.filter_lemma(keep);
    assert(pulled(sm, fs) == fs.filter(keep));
    assert(fs.filter(keep).contains(fs.filter(keep)[j]));
    fs.lemma_filter_contains_rev(keep, fs.filter(keep)[j]);
}

} // verus!
