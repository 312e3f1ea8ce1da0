//! The level-synchronous traversal over reverse dependents, as a state
//! machine. The caller drains one level at a time, does the outside work of
//! each node (materialize, pin, analyze) and hands the outcome back; the
//! traversal decides what is written and which children come next.
use crate::error::TrackerError;
use crate::model::ReverseDependency;
use crate::paths::{artifact_path, artifact_path_of};
use crate::select::{endpoints_of, select_two_end_vers};
use crate::version::semver_requirement_valid;
use crate::workspace::{node_dir, CrateWorkspaceFileSystemManager};
use vstd::prelude::*;

verus! {

/// A node: a package at a version, the node it was reached from (none for the
/// vulnerable package itself), its scratch directory and its level.
pub struct TraversalNode {
    pub name: String,
    pub version: String,
    pub parent: Option<usize>,
    pub dir_idx: usize,
    pub level: usize,
}

pub ghost struct NodeModel {
    pub name: Seq<char>,
    pub version: Seq<char>,
    pub parent: Option<usize>,
    pub dir: int,
    pub level: int,
}

pub open spec fn node_model(n: TraversalNode) -> NodeModel {
    NodeModel { name: n.name@, version: n.version@, parent: n.parent, dir: n.dir_idx as int, level: n.level as int }
}

/// Every node ever enqueued, in order; the scratch directories; the nodes
/// `level_begin..queue_begin` are the level being processed, the nodes from
/// `queue_begin` on the level that waits; `next_level` is the level of the
/// waiting nodes.
pub ghost struct TraversalModel {
    pub nodes: Seq<NodeModel>,
    pub dirs: Seq<Seq<char>>,
    pub level_begin: int,
    pub queue_begin: int,
    pub next_level: int,
}

pub open spec fn has_key(nodes: Seq<NodeModel>, name: Seq<char>, version: Seq<char>) -> bool {
    exists|i: int| 0 <= i < nodes.len() && (#[trigger] nodes[i]).name == name && nodes[i].version == version
}

/// Offering a child: it is enqueued unless its `(name, version)` was seen
/// before or its scratch directory cannot be allocated.
pub open spec fn offer_model(m: TraversalModel, parent: Option<usize>, name: Seq<char>, version: Seq<char>) -> TraversalModel {
    let pdir = match parent {
        Some(p) => m.nodes[p as int].dir,
        None => 0,
    };
    let path = node_dir(m.dirs[pdir], name, version);
    if has_key(m.nodes, name, version) || m.dirs.contains(path) {
        m
    } else {
        TraversalModel {
            nodes: m.nodes.push(
                NodeModel { name, version, parent, dir: m.dirs.len() as int, level: m.next_level },
            ),
            dirs: m.dirs.push(path),
            level_begin: m.level_begin,
            queue_begin: m.queue_begin,
            next_level: m.next_level,
        }
    }
}

/// Offering a sequence of `(name, version)` children in order.
pub open spec fn offers_model(m: TraversalModel, parent: Option<usize>, children: Seq<(Seq<char>, Seq<char>)>) -> TraversalModel
    decreases children.len(),
{
    if children.len() == 0 {
        m
    } else {
        let init = offers_model(m, parent, children.drop_last());
        offer_model(init, parent, children.last().0, children.last().1)
    }
}

pub open spec fn model_wf(m: TraversalModel) -> bool {
    &&& m.dirs.len() >= 1
    &&& m.dirs.no_duplicates()
    &&& 0 <= m.level_begin <= m.queue_begin <= m.nodes.len()
    &&& 0 <= m.next_level <= m.queue_begin
    &&& m.nodes.len() < m.dirs.len()
    &&& forall|a: int, b: int|
        0 <= a < b < m.nodes.len() ==> !(m.nodes[a].name == m.nodes[b].name && m.nodes[a].version
            == m.nodes[b].version)
    &&& forall|a: int, b: int|
        0 <= a < b < m.nodes.len() ==> (#[trigger] m.nodes[a]).dir != (#[trigger] m.nodes[b]).dir
    &&& forall|i: int| 0 <= i < m.nodes.len() ==> 1 <= (#[trigger] m.nodes[i]).dir < m.dirs.len()
    &&& forall|i: int|
        #![trigger m.nodes[i]]
        0 <= i < m.nodes.len() ==> match m.nodes[i].parent {
            Some(p) => p < i && m.nodes[p as int].level + 1 == m.nodes[i].level
                && m.dirs[m.nodes[i].dir] == node_dir(
                m.dirs[m.nodes[p as int].dir],
                m.nodes[i].name,
                m.nodes[i].version,
            ),
            None => m.nodes[i].level == 0 && m.dirs[m.nodes[i].dir] == node_dir(
                m.dirs[0],
                m.nodes[i].name,
                m.nodes[i].version,
            ),
        }
    &&& forall|i: int|
        #![trigger m.nodes[i]]
        m.queue_begin <= i < m.nodes.len() ==> m.nodes[i].level == m.next_level
    &&& forall|i: int|
        #![trigger m.nodes[i]]
        0 <= i < m.queue_begin ==> m.nodes[i].level < m.next_level
    &&& forall|i: int|
        #![trigger m.nodes[i]]
        m.level_begin <= i < m.queue_begin ==> m.nodes[i].level + 1 == m.next_level
}

/// The `(name, version)` pairs of a list of dependents.
pub open spec fn keys_of(children: Seq<ReverseDependency>) -> Seq<(Seq<char>, Seq<char>)> {
    children.map_values(|d: ReverseDependency| (d.name@, d.version@))
}

/// The root package at each selected version.
pub open spec fn seeds_of(name: Seq<char>, selected: Seq<(usize, String)>) -> Seq<(Seq<char>, Seq<char>)> {
    selected.map_values(|e: (usize, String)| (name, e.1@))
}

/// The children of every group of an expansion, group after group.
pub open spec fn flatten(groups: Seq<(String, Vec<ReverseDependency>)>) -> Seq<ReverseDependency>
    decreases groups.len(),
{
    if groups.len() == 0 {
        seq![]
    } else {
        flatten(groups.drop_last()) + groups.last().1@
    }
}

/// What to do with a node that was taken from the queue.
#[derive(Debug)]
pub enum NodePlan {
    /// The vulnerable package itself: reached without analysis.
    Expand,
    /// Materialize the node in `working_dir`, pin its dependency on
    /// `parent_name` to `parent_version`, and analyze it.
    Analyze { working_dir: String, parent_name: String, parent_version: String },
}

/// The node's plan is the one `plan` gives for node `id` of `m`.
pub open spec fn is_plan_for(m: TraversalModel, id: int, plan: NodePlan) -> bool {
    match m.nodes[id].parent {
        None => plan is Expand,
        Some(p) => match plan {
            NodePlan::Expand => false,
            NodePlan::Analyze { working_dir, parent_name, parent_version } => working_dir@ == m.dirs[m.nodes[id].dir]
                && parent_name@ == m.nodes[p as int].name && parent_version@ == m.nodes[p as int].version,
        },
    }
}

/// What the outside work on a node came to.
#[derive(Debug, Clone, PartialEq, Eq)]
pub enum AnalysisOutcome {
    /// The analyzer reported callers; the report to keep.
    Reached(String),
    /// The prefilter or the analyzer found no caller.
    NotReached,
    /// Materializing, pinning or analyzing failed.
    Failed(TrackerError),
}

/// The decision on a processed node: the artifact to write (its path and
/// contents), and whether the node's reverse dependents are expanded.
pub struct Conclusion {
    pub artifact: Option<(String, String)>,
    pub expand: bool,
}

/// The traversal state.
pub struct Traversal {
    nodes: Vec<TraversalNode>,
    level_begin: usize,
    queue_begin: usize,
    next_level: usize,
    workspace: CrateWorkspaceFileSystemManager,
}

impl View for Traversal {
    type V = TraversalModel;

    closed spec fn view(&self) -> TraversalModel {
        TraversalModel {
            nodes: self.nodes@.map_values(|n: TraversalNode| node_model(n)),
            dirs: self.workspace@,
            level_begin: self.level_begin as int,
            queue_begin: self.queue_begin as int,
            next_level: self.next_level as int,
        }
    }
}

proof fn lemma_node_dir_longer(parent: Seq<char>, name: Seq<char>, version: Seq<char>)
    ensures
        node_dir(parent, name, version).len() > parent.len(),
{
    reveal_strlit("/");
}

proof fn lemma_offer_wf(m: TraversalModel, parent: Option<usize>, name: Seq<char>, version: Seq<char>)
    requires
        model_wf(m),
        parent.is_some() ==> m.level_begin <= parent.unwrap() < m.queue_begin,
        parent.is_none() ==> m.next_level == 0,
    ensures
        model_wf(offer_model(m, parent, name, version)),
{
    let n = offer_model(m, parent, name, version);
    if n != m {
        let pdir = match parent {
            Some(p) => m.nodes[p as int].dir,
            None => 0,
        };
        let path = node_dir(m.dirs[pdir], name, version);
        let last = m.nodes.len() as int;
        assert(n.nodes[last].dir == m.dirs.len());
        assert forall|a: int, b: int| 0 <= a < b < n.nodes.len() implies !(n.nodes[a].name == n.nodes[b].name
            && n.nodes[a].version == n.nodes[b].version) by {
            if b == last {
                assert(m.nodes[a] == n.nodes[a]);
            }
        }
        assert forall|a: int, b: int| 0 <= a < b < n.nodes.len() implies (#[trigger] n.nodes[a]).dir
            != (#[trigger] n.nodes[b]).dir by {
            assert(m.nodes[a] == n.nodes[a]);
            if b < last {
                assert(m.nodes[b] == n.nodes[b]);
            }
        }
        assert forall|i: int| 0 <= i < n.nodes.len() implies 1 <= (#[trigger] n.nodes[i]).dir < n.dirs.len() by {
            if i < last {
                assert(m.nodes[i] == n.nodes[i]);
            }
        }
        assert forall|i: int|
            #![trigger n.nodes[i]]
            0 <= i < n.nodes.len() implies match n.nodes[i].parent {
                Some(p) => p < i && n.nodes[p as int].level + 1 == n.nodes[i].level && n.dirs[n.nodes[i].dir]
                    == node_dir(n.dirs[n.nodes[p as int].dir], n.nodes[i].name, n.nodes[i].version),
                None => n.nodes[i].level == 0 && n.dirs[n.nodes[i].dir] == node_dir(
                    n.dirs[0],
                    n.nodes[i].name,
                    n.nodes[i].version,
                ),
            } by {
            if i < last {
                assert(m.nodes[i] == n.nodes[i]);
                match m.nodes[i].parent {
                    Some(p) => {
                        assert(m.nodes[p as int] == n.nodes[p as int]);
                    },
                    None => {},
                }
            } else {
                match parent {
                    Some(p) => {
                        assert(m.nodes[p as int] == n.nodes[p as int]);
                        assert(m.nodes[p as int].level + 1 == m.next_level);
                    },
                    None => {},
                }
            }
        }
        assert forall|i: int|
            #![trigger n.nodes[i]]
            0 <= i < n.queue_begin implies n.nodes[i].level < n.next_level by {
            assert(m.nodes[i] == n.nodes[i]);
        }
        assert forall|i: int|
            #![trigger n.nodes[i]]
            n.level_begin <= i < n.queue_begin implies n.nodes[i].level + 1 == n.next_level by {
            assert(m.nodes[i] == n.nodes[i]);
        }
        assert forall|i: int|
            #![trigger n.nodes[i]]
            n.queue_begin <= i < n.nodes.len() implies n.nodes[i].level == n.next_level by {
            if i < last {
                assert(m.nodes[i] == n.nodes[i]);
            }
        }
    }
}

/// The children of an expansion, group after group.
pub fn flatten_groups(groups: &Vec<(String, Vec<ReverseDependency>)>) -> (r: Vec<ReverseDependency>)
    ensures
        r@ == flatten(groups@),
{
    let mut out: Vec<ReverseDependency> = Vec::new();
    let mut i: usize = 0;
    while i < groups.len()
        invariant
            0 <= i <= groups.len(),
            out@ == flatten(groups@.subrange(0, i as int)),
        decreases groups.len() - i,
    {
        let group = &groups[i].1;
        let ghost before = out@;
        let mut k: usize = 0;
        while k < group.len()
            invariant
                0 <= k <= group.len(),
                out@ == before + group@.subrange(0, k as int),
            decreases group.len() - k,
        {
            out.push(group[k].duplicate());
            assert(out@ =~= before + group@.subrange(0, k + 1));
            k = k + 1;
        }
        assert(groups@.subrange(0, i + 1).drop_last() =~= groups@.subrange(0, i as int));
        assert(group@.subrange(0, group.len() as int) =~= group@);
        i = i + 1;
    }
    assert(groups@.subrange(0, groups.len() as int) =~= groups@);
    out
}

impl Traversal {
    pub closed spec fn wf(&self) -> bool {
        &&& self.workspace.wf()
        &&& model_wf(self@)
    }

    /// An empty traversal whose scratch directories sit under `root/cve_id`.
    pub fn new(root: &str, cve_id: &str) -> (r: Self)
        ensures
            r.wf(),
            r@.nodes.len() == 0,
            r@.dirs.len() == 1,
            r@.level_begin == 0 && r@.queue_begin == 0 && r@.next_level == 0,
    {
        let r = Traversal {
            nodes: Vec::new(),
            level_begin: 0,
            queue_begin: 0,
            next_level: 0,
            workspace: CrateWorkspaceFileSystemManager::new(root, cve_id),
        };
        assert(r@.nodes =~= Seq::<NodeModel>::empty());
        r
    }

    pub fn len(&self) -> (r: usize)
        ensures
            r == self@.nodes.len(),
    {
        self.nodes.len()
    }

    /// No level waits: the traversal is over.
    pub fn is_done(&self) -> (r: bool)
        ensures
            r == (self@.queue_begin == self@.nodes.len()),
    {
        self.queue_begin == self.nodes.len()
    }

    pub fn node(&self, id: usize) -> (r: &TraversalNode)
        requires
            id < self@.nodes.len(),
        ensures
            node_model(*r) == self@.nodes[id as int],
    {
        &self.nodes[id]
    }

    /// The scratch directory of node `id`.
    pub fn working_dir(&self, id: usize) -> (r: String)
        requires
            self.wf(),
            id < self@.nodes.len(),
        ensures
            r@ == self@.dirs[self@.nodes[id as int].dir],
    {
        self.workspace.get_krate_working_dir(self.nodes[id].dir_idx)
    }

    /// Takes the waiting level out of the queue: its node ids, in order.
    /// Where no level waits, the level is empty and nothing changes.
    pub fn pop_level(&mut self) -> (r: Vec<usize>)
        requires
            old(self).wf(),
        ensures
            final(self).wf(),
            r@.len() == old(self)@.nodes.len() - old(self)@.queue_begin,
            forall|k: int| 0 <= k < r@.len() ==> r@[k] == old(self)@.queue_begin + k,
            old(self)@.queue_begin == old(self)@.nodes.len() ==> final(self)@ == old(self)@,
            old(self)@.queue_begin < old(self)@.nodes.len() ==> final(self)@ == (TraversalModel {
                nodes: old(self)@.nodes,
                dirs: old(self)@.dirs,
                level_begin: old(self)@.queue_begin,
                queue_begin: old(self)@.nodes.len() as int,
                next_level: old(self)@.next_level + 1,
            }),
    {
        let mut r: Vec<usize> = Vec::new();
        if self.queue_begin == self.nodes.len() {
            return r;
        }
        let mut i: usize = self.queue_begin;
        while i < self.nodes.len()
            invariant
                self.queue_begin <= i <= self.nodes.len(),
                r@.len() == i - self.queue_begin,
                forall|k: int| 0 <= k < r@.len() ==> r@[k] == self.queue_begin + k,
            decreases self.nodes.len() - i,
        {
            r.push(i);
            i = i + 1;
        }
        self.level_begin = self.queue_begin;
        self.queue_begin = self.nodes.len();
        self.next_level = self.next_level + 1;
        r
    }

    /// Seeds the traversal with the oldest and newest versions of the root
    /// package among `versions` that satisfy `range`; returns the selection.
    pub fn seed(&mut self, root_name: &String, versions: &Vec<String>, range: &str) -> (r: Result<
        Vec<(usize, String)>,
        TrackerError,
    >)
        requires
            old(self).wf(),
            old(self)@.nodes.len() == 0,
            old(self)@.next_level == 0,
        ensures
            final(self).wf(),
            r.is_err() <==> !semver_requirement_valid(range@),
            r.is_err() ==> r == Err::<Vec<(usize, String)>, TrackerError>(TrackerError::RangeUnparseable)
                && final(self)@ == old(self)@,
            r.is_ok() ==> endpoints_of(versions@, range@, r.unwrap()@) && final(self)@ == offers_model(
                old(self)@,
                None,
                seeds_of(root_name@, r.unwrap()@),
            ),
    {
        let selected = select_two_end_vers(versions, range)?;
        let ghost m0 = self@;
        let mut k: usize = 0;
        while k < selected.len()
            invariant
                self.wf(),
                0 <= k <= selected.len(),
                self@.next_level == 0,
                self@ == offers_model(m0, None, seeds_of(root_name@, selected@.subrange(0, k as int))),
            decreases selected.len() - k,
        {
            self.offer(None, root_name, &selected[k].1);
            assert(seeds_of(root_name@, selected@.subrange(0, k + 1)).drop_last() =~= seeds_of(
                root_name@,
                selected@.subrange(0, k as int),
            ));
            k = k + 1;
        }
        assert(selected@.subrange(0, selected.len() as int) =~= selected@);
        Ok(selected)
    }

    /// Offers the children of `parent`, in order.
    pub fn offer_children(&mut self, parent: usize, children: &Vec<ReverseDependency>)
        requires
            old(self).wf(),
            old(self)@.level_begin <= parent < old(self)@.queue_begin,
        ensures
            final(self).wf(),
            final(self)@ == offers_model(old(self)@, Some(parent), keys_of(children@)),
    {
        let ghost m0 = self@;
        let mut k: usize = 0;
        while k < children.len()
            invariant
                self.wf(),
                0 <= k <= children.len(),
                m0.level_begin <= parent < m0.queue_begin,
                self@.level_begin == m0.level_begin,
                self@.queue_begin == m0.queue_begin,
                self@ == offers_model(m0, Some(parent), keys_of(children@.subrange(0, k as int))),
            decreases children.len() - k,
        {
            self.offer(Some(parent), &children[k].name, &children[k].version);
            assert(keys_of(children@.subrange(0, k + 1)).drop_last() =~= keys_of(children@.subrange(0, k as int)));
            k = k + 1;
        }
        assert(children@.subrange(0, children.len() as int) =~= children@);
    }

    /// What to do with node `id`.
    pub fn plan(&self, id: usize) -> (r: NodePlan)
        requires
            self.wf(),
            id < self@.nodes.len(),
        ensures
            is_plan_for(self@, id as int, r),
    {
        proof {
            let i = id as int;
            assert(1 <= self@.nodes[i].dir < self@.dirs.len());
        }
        match self.nodes[id].parent {
            None => NodePlan::Expand,
            Some(p) => NodePlan::Analyze {
                working_dir: self.workspace.get_krate_working_dir(self.nodes[id].dir_idx),
                parent_name: self.nodes[p].name.clone(),
                parent_version: self.nodes[p].version.clone(),
            },
        }
    }

    /// The decision on node `id` once its outside work came to `outcome`: a
    /// root is expanded and writes nothing; another node writes its report to
    /// `root/cve_id/name-version.txt` and is expanded exactly when it was
    /// reached.
    pub fn conclude(&self, id: usize, outcome: &AnalysisOutcome, artifact_root: &str, cve_id: &str) -> (r:
        Conclusion)
        requires
            id < self@.nodes.len(),
        ensures
            r.expand == (self@.nodes[id as int].parent is None || outcome is Reached),
            r.artifact.is_some() == (self@.nodes[id as int].parent is Some && outcome is Reached),
            r.artifact.is_some() ==> r.artifact.unwrap().0@ == artifact_path(
                artifact_root@,
                cve_id@,
                self@.nodes[id as int].name,
                self@.nodes[id as int].version,
            ) && outcome == AnalysisOutcome::Reached(r.artifact.unwrap().1),
    {
        let node = &self.nodes[id];
        match node.parent {
            None => Conclusion { artifact: None, expand: true },
            Some(_) => match outcome {
                AnalysisOutcome::Reached(report) => {
                    let path = artifact_path_of(artifact_root, cve_id, node.name.as_str(), node.version.as_str());
                    Conclusion { artifact: Some((path, report.clone())), expand: true }
                },
                _ => Conclusion { artifact: None, expand: false },
            },
        }
    }

    fn has_node(&self, name: &String, version: &String) -> (r: bool)
        ensures
            r == has_key(self@.nodes, name@, version@),
    {
        let mut i: usize = 0;
        while i < self.nodes.len()
            invariant
                0 <= i <= self.nodes.len(),
                forall|k: int| 0 <= k < i ==> !(self@.nodes[k].name == name@ && self@.nodes[k].version == version@),
            decreases self.nodes.len() - i,
        {
            if self.nodes[i].name == *name && self.nodes[i].version == *version {
                assert(self@.nodes[i as int].name == name@);
                return true;
            }
            i = i + 1;
        }
        false
    }

    /// Enqueues `name @ version` in the waiting level as a child of `parent`
    /// (a root where there is none), unless it was seen before or its scratch
    /// directory cannot be allocated.
    pub fn offer(&mut self, parent: Option<usize>, name: &String, version: &String) -> (r: bool)
        requires
            old(self).wf(),
            parent.is_some() ==> old(self)@.level_begin <= parent.unwrap() < old(self)@.queue_begin,
            parent.is_none() ==> old(self)@.next_level == 0,
        ensures
            final(self).wf(),
            final(self)@ == offer_model(old(self)@, parent, name@, version@),
            r == (final(self)@.nodes.len() > old(self)@.nodes.len()),
    {
        let ghost m = self@;
        let pdir: usize = match parent {
            Some(p) => self.nodes[p].dir_idx,
            None => 0,
        };
        proof {
            lemma_offer_wf(m, parent, name@, version@);
        }
        if self.has_node(name, version) {
            return false;
        }
        proof {
            match parent {
                Some(p) => {
                    assert(1 <= m.nodes[p as int].dir < m.dirs.len());
                },
                None => {},
            }
        }
        assert(pdir < m.dirs.len());
        let allocated = self.workspace.create_krate_working_dir(pdir, name.as_str(), version.as_str());
        match allocated {
            Ok((_, dir_idx)) => {
                let node = TraversalNode {
                    name: name.clone(),
                    version: version.clone(),
                    parent,
                    dir_idx,
                    level: self.next_level,
                };
                self.nodes.push(node);
                let ghost path = node_dir(m.dirs[pdir as int], name@, version@);
                assert(self@.nodes =~= m.nodes.push(
                    NodeModel { name: name@, version: version@, parent, dir: dir_idx as int, level: self.next_level as int },
                ));
                assert(self@.dirs == m.dirs.push(path));
                assert(self@ == offer_model(m, parent, name@, version@));
                assert(forall|i: int| 0 <= i < m.nodes.len() ==> self@.nodes[i] == m.nodes[i]);
                true
            },
            Err(_) => false,
        }
    }
}

} // verus!

verus! {

/// No `(name, version)` pair is enqueued twice, however many expansions
/// name it; as `pop_level` hands each node id out once, each pair is
/// processed at most once.
pub proof fn lemma_no_double_visit(t: &Traversal)
    requires
        t.wf(),
    ensures
        forall|a: int, b: int|
            0 <= a < b < t@.nodes.len() ==> !(t@.nodes[a].name == t@.nodes[b].name && t@.nodes[a].version
                == t@.nodes[b].version),
{
}

/// A node's parent was enqueued before it and sits one level above it, so it
/// is processed in an earlier level.
pub proof fn lemma_parent_before_child(t: &Traversal, id: int)
    requires
        t.wf(),
        0 <= id < t@.nodes.len(),
        t@.nodes[id].parent is Some,
    ensures
        t@.nodes[id].parent.unwrap() < id,
        t@.nodes[t@.nodes[id].parent.unwrap() as int].level < t@.nodes[id].level,
{
    assert(t@.nodes[id] == t@.nodes[id]);
}

/// Two nodes never share a scratch directory.
pub proof fn lemma_scratch_isolation(t: &Traversal, a: int, b: int)
    requires
        t.wf(),
        0 <= a < t@.nodes.len(),
        0 <= b < t@.nodes.len(),
        a != b,
    ensures
        t@.dirs[t@.nodes[a].dir] != t@.dirs[t@.nodes[b].dir],
{
    assert(1 <= t@.nodes[a].dir < t@.dirs.len());
    assert(1 <= t@.nodes[b].dir < t@.dirs.len());
    if a < b {
        assert(t@.nodes[a].dir != t@.nodes[b].dir);
    } else {
        assert(t@.nodes[b].dir != t@.nodes[a].dir);
    }
}

/// A range that no version satisfies seeds nothing: the traversal is over at
/// once.
pub proof fn lemma_empty_range_seeds_nothing(
    m: TraversalModel,
    name: Seq<char>,
    versions: Seq<String>,
    range: Seq<char>,
    selected: Seq<(usize, String)>,
)
    requires
        endpoints_of(versions, range, selected),
        forall|j: int| !crate::select::is_candidate(versions, range, j),
    ensures
        offers_model(m, None, seeds_of(name, selected)) == m,
{
    if selected.len() > 0 {
        assert(crate::select::is_candidate(versions, range, selected[0].0 as int));
    }
    assert(seeds_of(name, selected).len() == 0);
}

/// A range that exactly one version satisfies gives exactly one seed node.
pub proof fn lemma_single_version_single_seed(
    m: TraversalModel,
    name: Seq<char>,
    versions: Seq<String>,
    range: Seq<char>,
    selected: Seq<(usize, String)>,
    only: int,
)
    requires
        model_wf(m),
        m.nodes.len() == 0,
        m.dirs.len() == 1,
        endpoints_of(versions, range, selected),
        crate::select::is_candidate(versions, range, only),
        forall|j: int| crate::select::is_candidate(versions, range, j) ==> j == only,
    ensures
        offers_model(m, None, seeds_of(name, selected)).nodes.len() == 1,
{
    assert(selected.len() == 1) by {
        if selected.len() == 2 {
            assert(crate::select::is_candidate(versions, range, selected[0].0 as int));
            assert(crate::select::is_candidate(versions, range, selected[1].0 as int));
        }
    }
    let seeds = seeds_of(name, selected);
    assert(seeds.drop_last() =~= Seq::<(Seq<char>, Seq<char>)>::empty());
    assert(offers_model(m, None, seeds.drop_last()) == m);
    assert(offers_model(m, None, seeds) == offer_model(m, None, seeds.last().0, seeds.last().1));
    lemma_node_dir_longer(m.dirs[0], seeds[0].0, seeds[0].1);
    assert(!m.dirs.contains(node_dir(m.dirs[0], seeds[0].0, seeds[0].1)));
    assert(!has_key(m.nodes, seeds[0].0, seeds[0].1));
}

} // verus!
