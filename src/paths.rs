//! The on-disk and network names the analysis uses: scratch directories,
//! caches, archive URLs, analyzer outputs and artifacts.
use vstd::prelude::*;

verus! {

pub open spec fn join(dir: Seq<char>, entry: Seq<char>) -> Seq<char> {
    dir + "/"@ + entry
}

/// `name-version`, the name of a package at a version in file names.
pub open spec fn stem(name: Seq<char>, version: Seq<char>) -> Seq<char> {
    name + "-"@ + version
}

/// `dir/entry`.
pub fn join_path(dir: &str, entry: &str) -> (r: String)
    ensures
        r@ == join(dir@, entry@),
{
    let mut s = dir.to_owned();
    s.append("/");
    s.append(entry);
    s
}

/// `name-version`.
pub fn package_stem(name: &str, version: &str) -> (r: String)
    ensures
        r@ == stem(name@, version@),
{
    let mut s = name.to_owned();
    s.append("-");
    s.append(version);
    s
}

/// The directory that holds every version of one package under a workspace
/// or cache: `dir/name-workspace`.
pub open spec fn workspace_dir(dir: Seq<char>, name: Seq<char>) -> Seq<char> {
    join(dir, name + "-workspace"@)
}

pub fn workspace_dir_path(dir: &str, name: &str) -> (r: String)
    ensures
        r@ == workspace_dir(dir@, name@),
{
    let mut entry = name.to_owned();
    entry.append("-workspace");
    join_path(dir, entry.as_str())
}

/// The registry's download URL of a package archive.
pub open spec fn download_url(name: Seq<char>, version: Seq<char>) -> Seq<char> {
    "https://crates.io/api/v1/crates/"@ + name + "/"@ + version + "/download"@
}

pub fn download_url_of(name: &str, version: &str) -> (r: String)
    ensures
        r@ == download_url(name@, version@),
{
    let mut s = "https://crates.io/api/v1/crates/".to_owned();
    s.append(name);
    s.append("/");
    s.append(version);
    s.append("/download");
    s
}

/// Where the artifact of a reached node goes:
/// `root/cve_id/name-version.txt`.
pub open spec fn artifact_path(root: Seq<char>, cve_id: Seq<char>, name: Seq<char>, version: Seq<char>) -> Seq<
    char,
> {
    join(join(root, cve_id), stem(name, version) + ".txt"@)
}

pub fn artifact_path_of(root: &str, cve_id: &str, name: &str, version: &str) -> (r: String)
    ensures
        r@ == artifact_path(root@, cve_id@, name@, version@),
{
    let dir = join_path(root, cve_id);
    let mut file = package_stem(name, version);
    file.append(".txt");
    join_path(dir.as_str(), file.as_str())
}

/// The analyzer's standard output and standard error logs of one node:
/// `dir/cg4rs_name_version.log` and `dir/cg4rs_name_version_error.log`.
pub open spec fn analyzer_log_paths(dir: Seq<char>, name: Seq<char>, version: Seq<char>) -> (Seq<char>, Seq<char>) {
    let base = "cg4rs_"@ + name + "_"@ + version;
    (join(dir, base + ".log"@), join(dir, base + "_error.log"@))
}

pub fn analyzer_log_paths_of(dir: &str, name: &str, version: &str) -> (r: (String, String))
    ensures
        (r.0@, r.1@) == analyzer_log_paths(dir@, name@, version@),
{
    let mut base = "cg4rs_".to_owned();
    base.append(name);
    base.append("_");
    base.append(version);
    let mut out = base.clone();
    out.append(".log");
    let mut err = base;
    err.append("_error.log");
    (join_path(dir, out.as_str()), join_path(dir, err.as_str()))
}

} // verus!
