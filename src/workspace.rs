//! The workspace manager: an append-only table of scratch directories, one
//! per traversal node, nested as the traversal is.
use crate::error::TrackerError;
use crate::paths::{join, join_path, stem, package_stem, workspace_dir, workspace_dir_path};
use vstd::prelude::*;

verus! {

/// The scratch directory of a node named `name` at `version` whose parent's
/// scratch directory is `parent`.
pub open spec fn node_dir(parent: Seq<char>, name: Seq<char>, version: Seq<char>) -> Seq<char> {
    join(workspace_dir(parent, name), stem(name, version))
}

/// Entry 0 is the pseudo-root under which root-level nodes sit; every other
/// entry is the scratch directory of exactly one node. No path is handed out
/// twice.
pub struct CrateWorkspaceFileSystemManager {
    workspaces: Vec<String>,
    version_dirs: Vec<String>,
}

impl View for CrateWorkspaceFileSystemManager {
    type V = Seq<Seq<char>>;

    /// The version directories, by index.
    closed spec fn view(&self) -> Seq<Seq<char>> {
        self.version_dirs@.map_values(|s: String| s@)
    }
}

impl CrateWorkspaceFileSystemManager {
    /// The workspace directories, by index.
    pub closed spec fn workspaces(&self) -> Seq<Seq<char>> {
        self.workspaces@.map_values(|s: String| s@)
    }

    pub closed spec fn wf(&self) -> bool {
        &&& self.version_dirs.len() >= 1
        &&& self.workspaces.len() + 1 == self.version_dirs.len()
        &&& self@.no_duplicates()
    }

    /// A manager whose pseudo-root is `root/cve_id`.
    pub fn new(root: &str, cve_id: &str) -> (r: Self)
        ensures
            r.wf(),
            r@ == seq![join(root@, cve_id@)],
            r.workspaces().len() == 0,
    {
        let mut version_dirs: Vec<String> = Vec::new();
        version_dirs.push(join_path(root, cve_id));
        let r = CrateWorkspaceFileSystemManager { workspaces: Vec::new(), version_dirs };
        assert(r@ =~= seq![join(root@, cve_id@)]);
        assert(r.workspaces() =~= Seq::<Seq<char>>::empty());
        r
    }

    pub fn len(&self) -> (r: usize)
        ensures
            r == self@.len(),
    {
        self.version_dirs.len()
    }

    fn contains_dir(&self, path: &String) -> (r: bool)
        ensures
            r == self@.contains(path@),
    {
        let mut i: usize = 0;
        while i < self.version_dirs.len()
            invariant
                0 <= i <= self.version_dirs.len(),
                forall|k: int| 0 <= k < i ==> self@[k] != path@,
            decreases self.version_dirs.len() - i,
        {
            if self.version_dirs[i] == *path {
                assert(self@[i as int] == path@);
                return true;
            }
            i = i + 1;
        }
        false
    }

    /// Allocates the scratch directory of a node named `crate_name` at
    /// `crate_version` under the directory of entry `parent`; returns the
    /// indices of the new workspace and version directory.
    pub fn create_krate_working_dir(&mut self, parent: usize, crate_name: &str, crate_version: &str) -> (r:
        Result<(usize, usize), TrackerError>)
        requires
            old(self).wf(),
        ensures
            final(self).wf(),
            r.is_err() ==> final(self).workspaces() == old(self).workspaces(),
            r.is_ok() ==> r.unwrap().0 as int == old(self).workspaces().len() && final(self).workspaces() == old(
                self,
            ).workspaces().push(workspace_dir(old(self)@[parent as int], crate_name@)) && final(self)@[r.unwrap().1 as int]
                == join(final(self).workspaces()[r.unwrap().0 as int], stem(crate_name@, crate_version@)),
            parent >= old(self)@.len() ==> r == Err::<(usize, usize), TrackerError>(TrackerError::WorkspaceMissing)
                && final(self)@ == old(self)@,
            parent < old(self)@.len() && old(self)@.contains(node_dir(old(self)@[parent as int], crate_name@, crate_version@))
                ==> r == Err::<(usize, usize), TrackerError>(TrackerError::DuplicateWorkspace) && final(self)@ == old(self)@,
            parent < old(self)@.len() && !old(self)@.contains(node_dir(old(self)@[parent as int], crate_name@, crate_version@))
                ==> r.is_ok() && r.unwrap().0 as int == old(self)@.len() - 1 && r.unwrap().1 as int == old(self)@.len()
                && final(self)@ == old(self)@.push(node_dir(old(self)@[parent as int], crate_name@, crate_version@)),
    {
        if parent >= self.version_dirs.len() {
            return Err(TrackerError::WorkspaceMissing);
        }
        let ws = workspace_dir_path(self.version_dirs[parent].as_str(), crate_name);
        let file = package_stem(crate_name, crate_version);
        let dir = join_path(ws.as_str(), file.as_str());
        if self.contains_dir(&dir) {
            return Err(TrackerError::DuplicateWorkspace);
        }
        let ghost before = self@;
        let ghost before_ws = self.workspaces();
        self.workspaces.push(ws);
        self.version_dirs.push(dir);
        assert(self@ =~= before.push(dir@));
        assert(self.workspaces() =~= before_ws.push(workspace_dir(before[parent as int], crate_name@)));
        Ok((self.workspaces.len() - 1, self.version_dirs.len() - 1))
    }

    /// The path of version directory `index`.
    pub fn get_krate_working_dir(&self, index: usize) -> (r: String)
        requires
            index < self@.len(),
        ensures
            r@ == self@[index as int],
    {
        self.version_dirs[index].clone()
    }
}

} // verus!
