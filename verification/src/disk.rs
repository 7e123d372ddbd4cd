//! A model of the directory tree that the store keeps its files in, and the
//! file-system steps that the store's plans are made of.

use vstd::prelude::*;

use crate::paths::is_mapping_name;

verus! {

/// The part of a file system that the store reads and writes: the
/// directories that exist, and the files with their contents.
pub struct Disk {
    pub dirs: Set<Seq<char>>,
    pub files: Map<Seq<char>, Seq<char>>,
}

/// Something exists at `path`: a directory or a file.
pub open spec fn exists_at(d: Disk, path: Seq<char>) -> bool {
    d.dirs.contains(path) || d.files.contains_key(path)
}

/// `path` names an entry inside directory `dir`, at any depth.
pub open spec fn is_under(path: Seq<char>, dir: Seq<char>) -> bool {
    &&& path.len() > dir.len() + 1
    &&& path.subrange(0, dir.len() + 1int) == dir + seq!['/']
}

/// `path` names an entry directly inside directory `dir`.
pub open spec fn is_child(path: Seq<char>, dir: Seq<char>) -> bool {
    &&& is_under(path, dir)
    &&& forall|i: int| dir.len() + 1 <= i < path.len() ==> path[i] != '/'
}

/// Directory `dir` holds a key file or a value file, or an entry named like
/// one.
pub open spec fn holds_mapping_files(d: Disk, dir: Seq<char>) -> bool {
    exists|p: Seq<char>| #[trigger] is_child(p, dir) && exists_at(d, p) && is_mapping_name(p)
}

/// A disk shaped like a directory tree: no path is both a directory and a
/// file, and every path that holds an entry below it is a directory.
pub open spec fn is_tree(d: Disk) -> bool {
    &&& forall|p: Seq<char>| !(#[trigger] d.dirs.contains(p) && d.files.contains_key(p))
    &&& forall|p: Seq<char>, q: Seq<char>|
        #![trigger exists_at(d, p), is_under(p, q)]
        exists_at(d, p) && is_under(p, q) ==> d.dirs.contains(q)
}

/// One step on the file system, as the model sees it.
pub enum FsStep {
    CreateDir(Seq<char>),
    WriteFile(Seq<char>, Seq<char>),
    ReadFile(Seq<char>),
    RemoveFile(Seq<char>),
    RemoveDirAll(Seq<char>),
}

/// One step on the file system that a plan of the store asks for.
///
/// `CreateDir` creates one directory, `WriteFile` writes a whole file,
/// `ReadFile` reads a whole file and hands its contents back, `RemoveFile`
/// removes one file, and `RemoveDirAll` removes a directory with everything
/// in it.
#[derive(Debug)]
pub enum FsOp {
    CreateDir(String),
    WriteFile(String, String),
    ReadFile(String),
    RemoveFile(String),
    RemoveDirAll(String),
}

impl View for FsOp {
    type V = FsStep;

    open spec fn view(&self) -> FsStep {
        match self {
            FsOp::CreateDir(p) => FsStep::CreateDir(p@),
            FsOp::WriteFile(p, c) => FsStep::WriteFile(p@, c@),
            FsOp::ReadFile(p) => FsStep::ReadFile(p@),
            FsOp::RemoveFile(p) => FsStep::RemoveFile(p@),
            FsOp::RemoveDirAll(p) => FsStep::RemoveDirAll(p@),
        }
    }
}

/// The steps that a list of operations stands for.
pub open spec fn steps_of(ops: Seq<FsOp>) -> Seq<FsStep> {
    ops.map_values(|o: FsOp| o@)
}

/// Whether a step succeeds on `d`: a directory is created where nothing is
/// and every directory above it exists; a file is written where no
/// directory is and every directory above it exists; a file is read or
/// removed where it is a file; a directory is removed where it is one.
pub open spec fn step_ok(d: Disk, s: FsStep) -> bool {
    match s {
        FsStep::CreateDir(p) => !exists_at(d, p) && forall|q: Seq<char>| #[trigger]
            is_under(p, q) ==> d.dirs.contains(q),
        FsStep::WriteFile(p, _) => !d.dirs.contains(p) && forall|q: Seq<char>| #[trigger]
            is_under(p, q) ==> d.dirs.contains(q),
        FsStep::ReadFile(p) => d.files.contains_key(p),
        FsStep::RemoveFile(p) => d.files.contains_key(p),
        FsStep::RemoveDirAll(p) => d.dirs.contains(p),
    }
}

/// Whether all of `steps` succeed, in order, from `d`.
pub open spec fn all_steps_ok(d: Disk, steps: Seq<FsStep>) -> bool
    decreases steps.len(),
{
    if steps.len() == 0 {
        true
    } else {
        step_ok(d, steps[0]) && all_steps_ok(apply_step(d, steps[0]), steps.drop_first())
    }
}

/// The disk after one step that succeeded.
pub open spec fn apply_step(d: Disk, s: FsStep) -> Disk {
    match s {
        FsStep::CreateDir(p) => Disk { dirs: d.dirs.insert(p), files: d.files },
        FsStep::WriteFile(p, c) => Disk { dirs: d.dirs, files: d.files.insert(p, c) },
        FsStep::ReadFile(_) => d,
        FsStep::RemoveFile(p) => Disk { dirs: d.dirs, files: d.files.remove(p) },
        FsStep::RemoveDirAll(p) => Disk {
            dirs: d.dirs.filter(|q: Seq<char>| q != p && !is_under(q, p)),
            files: d.files.restrict(d.files.dom().filter(|q: Seq<char>| !is_under(q, p))),
        },
    }
}

/// The disk after all of `steps` succeeded, in order.
pub open spec fn apply_steps(d: Disk, steps: Seq<FsStep>) -> Disk
    decreases steps.len(),
{
    if steps.len() == 0 {
        d
    } else {
        apply_steps(apply_step(d, steps[0]), steps.drop_first())
    }
}

/// What the first `ReadFile` among `steps` reads, the steps before it having
/// succeeded; `None` where there is no such step or its file does not exist.
pub open spec fn first_read(d: Disk, steps: Seq<FsStep>) -> Option<Seq<char>>
    decreases steps.len(),
{
    if steps.len() == 0 {
        None
    } else {
        match steps[0] {
            FsStep::ReadFile(p) => if d.files.contains_key(p) {
                Some(d.files[p])
            } else {
                None
            },
            _ => first_read(apply_step(d, steps[0]), steps.drop_first()),
        }
    }
}

} // verus!
