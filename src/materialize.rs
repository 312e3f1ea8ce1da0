//! The package materializer's paths and decisions: where an archive and its
//! extracted tree are cached, where a node's working tree lives, when to
//! download again, and how a copy of the tree is judged.
use crate::paths::{join, join_path, package_stem, stem};
use vstd::prelude::*;

verus! {

/// Attempts at fetching and extracting one package.
pub const FETCH_ATTEMPTS: u32 = 3;

/// Attempts at copying an extracted tree into a working tree.
pub const COPY_ATTEMPTS: u32 = 3;

/// A package at a version, materialized in the scratch directory of one
/// traversal node.
pub struct Krate {
    pub name: String,
    pub version: String,
    pub ws_idx: usize,
    pub dir_idx: usize,
    pub working_dir: String,
}

impl Krate {
    pub fn new(name: String, version: String, ws_idx: usize, dir_idx: usize, working_dir: String) -> (r: Self)
        ensures
            r.name == name && r.version == version && r.ws_idx == ws_idx && r.dir_idx == dir_idx && r.working_dir
                == working_dir,
    {
        Krate { name, version, ws_idx, dir_idx, working_dir }
    }

    /// `base/name`: the cache directory of every version of the package.
    pub fn get_download_crate_dir_path(&self, base: &str) -> (r: String)
        ensures
            r@ == join(base@, self.name@),
    {
        join_path(base, self.name.as_str())
    }

    /// `base/name/name-version.crate`: the cached archive.
    pub fn get_download_crate_file_path(&self, base: &str) -> (r: String)
        ensures
            r@ == join(join(base@, self.name@), stem(self.name@, self.version@) + ".crate"@),
    {
        let dir = self.get_download_crate_dir_path(base);
        let mut file = package_stem(self.name.as_str(), self.version.as_str());
        file.append(".crate");
        join_path(dir.as_str(), file.as_str())
    }

    /// `base/name/name-version`: the cached extracted tree.
    pub fn get_extract_crate_dir_path(&self, base: &str) -> (r: String)
        ensures
            r@ == join(join(base@, self.name@), stem(self.name@, self.version@)),
    {
        let dir = self.get_download_crate_dir_path(base);
        let file = package_stem(self.name.as_str(), self.version.as_str());
        join_path(dir.as_str(), file.as_str())
    }

    pub fn get_working_dir(&self) -> (r: String)
        ensures
            r == self.working_dir,
    {
        self.working_dir.clone()
    }

    pub fn get_cargo_toml_path(&self) -> (r: String)
        ensures
            r@ == join(self.working_dir@, "Cargo.toml"@),
    {
        join_path(self.working_dir.as_str(), "Cargo.toml")
    }

    /// Where the analyzer writes its output and the build its artifacts.
    pub fn get_target_dir(&self) -> (r: String)
        ensures
            r@ == join(self.working_dir@, "target"@),
    {
        join_path(self.working_dir.as_str(), "target")
    }

    pub fn get_src_dir(&self) -> (r: String)
        ensures
            r@ == join(self.working_dir@, "src"@),
    {
        join_path(self.working_dir.as_str(), "src")
    }
}

/// Whether attempt `attempt` (from 0) of fetching is made, and whether it
/// forces a new download: the first reuses the cache, the later ones do not.
pub fn fetch_attempt(attempt: u32) -> (r: Option<bool>)
    ensures
        attempt >= FETCH_ATTEMPTS ==> r.is_none(),
        attempt < FETCH_ATTEMPTS ==> r == Some(attempt > 0),
{
    if attempt >= FETCH_ATTEMPTS {
        None
    } else {
        Some(attempt > 0)
    }
}

/// An archive is downloaded unless it is cached and no new download is forced.
pub fn needs_download(archive_exists: bool, force: bool) -> (r: bool)
    ensures
        r == (!archive_exists || force),
{
    !archive_exists || force
}

/// A download is usable only when it is not empty.
pub fn download_usable(size: u64) -> (r: bool)
    ensures
        r == (size > 0),
{
    size > 0
}

/// What to do about the extracted tree before extracting.
#[derive(Debug, Clone, Copy, PartialEq, Eq, Structural)]
pub enum UnzipStep {
    /// The tree is cached: use it.
    Reuse,
    /// Remove the cached tree, then extract.
    Replace,
    /// Extract.
    Extract,
}

pub fn unzip_step(extracted_exists: bool, force: bool) -> (r: UnzipStep)
    ensures
        extracted_exists && !force ==> r == UnzipStep::Reuse,
        extracted_exists && force ==> r == UnzipStep::Replace,
        !extracted_exists ==> r == UnzipStep::Extract,
{
    if extracted_exists {
        if force {
            UnzipStep::Replace
        } else {
            UnzipStep::Reuse
        }
    } else {
        UnzipStep::Extract
    }
}

/// A copy is complete when every critical file that the source has is in the
/// destination, given as `(in source, in destination)` pairs, and the
/// destination holds at least half as many entries as the source.
pub open spec fn copy_complete(critical: Seq<(bool, bool)>, from_count: u64, to_count: u64) -> bool {
    &&& forall|k: int| 0 <= k < critical.len() ==> (#[trigger] critical[k]).0 ==> critical[k].1
    &&& to_count >= from_count / 2
}

pub fn validate_copied_files(critical: &Vec<(bool, bool)>, from_count: u64, to_count: u64) -> (r: bool)
    ensures
        r == copy_complete(critical@, from_count, to_count),
{
    let mut i: usize = 0;
    while i < critical.len()
        invariant
            0 <= i <= critical.len(),
            forall|k: int| 0 <= k < i ==> (#[trigger] critical@[k]).0 ==> critical@[k].1,
        decreases critical.len() - i,
    {
        if critical[i].0 && !critical[i].1 {
            return false;
        }
        i = i + 1;
    }
    to_count >= from_count / 2
}

/// What one attempt at copying a tree came to.
#[derive(Debug, Clone, Copy, PartialEq, Eq, Structural)]
pub enum CopyStep {
    Done,
    Retry,
    Fail,
}

/// Exit code of the mirroring tool that means some files vanished while it
/// copied.
pub const PARTIAL_TRANSFER: i32 = 24;

/// The step after copy attempt `attempt` (from 0) ended with `exit_code`: a
/// copy is done only when its validation passed and the tool succeeded or
/// only reported vanished files; anything else is tried again while attempts
/// remain.
pub fn copy_step(exit_code: i32, validated: bool, attempt: u32) -> (r: CopyStep)
    ensures
        r == CopyStep::Done <==> validated && (exit_code == 0 || exit_code == PARTIAL_TRANSFER),
        r != CopyStep::Done ==> (r == CopyStep::Retry <==> attempt + 1 < COPY_ATTEMPTS),
{
    if validated && (exit_code == 0 || exit_code == PARTIAL_TRANSFER) {
        CopyStep::Done
    } else if attempt < COPY_ATTEMPTS - 1 {
        CopyStep::Retry
    } else {
        CopyStep::Fail
    }
}

} // verus!
