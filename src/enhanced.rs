//! The graph builder behind the extended statistics: packages keyed by
//! `name:version`, dependency edges, and the packages known to reach a
//! vulnerable function.
use crate::text::text_eq;
use vstd::prelude::*;

verus! {

/// A package at a version.
#[derive(Debug, Clone, PartialEq, Eq, PartialOrd, Ord, Hash)]
pub struct PackageVersion {
    pub name: String,
    pub version: String,
}

/// `from` depends on `to`; `dependency_type` is `direct`, `dev` or `build`.
#[derive(Debug, Clone)]
pub struct DependencyInfo {
    pub from: PackageVersion,
    pub to: PackageVersion,
    pub dependency_type: String,
}

/// One step of a propagation path.
#[derive(Debug, Clone)]
pub struct PropagationNode {
    pub package: PackageVersion,
    pub function_calls: Vec<String>,
    pub depth: usize,
    pub is_direct_dependency: bool,
}

/// A path along which a vulnerability travels from `source` to `target`.
#[derive(Debug, Clone)]
pub struct PropagationPath {
    pub id: String,
    pub source: PackageVersion,
    pub target: PackageVersion,
    pub path: Vec<PropagationNode>,
    pub total_depth: usize,
    pub vulnerability_functions: Vec<String>,
}

/// The packages of one dependency layer.
#[derive(Debug)]
pub struct DependencyLayerStats {
    pub layer: usize,
    pub package_count: usize,
    pub function_call_count: usize,
    pub packages: Vec<PackageVersion>,
}

/// How the callers of one vulnerable function spread.
#[derive(Debug)]
pub struct FunctionPropagationStats {
    pub function_name: String,
    pub total_callers: usize,
    pub direct_callers: usize,
    pub indirect_callers: usize,
    pub max_call_depth: usize,
    pub propagation_paths: Vec<PropagationPath>,
    pub affected_domains: Vec<String>,
}

/// `name:version`, the key of a package.
pub open spec fn node_key(p: PackageVersion) -> Seq<char> {
    p.name@ + ":"@ + p.version@
}

pub fn package_key_of(p: &PackageVersion) -> (r: String)
    ensures
        r@ == node_key(*p),
{
    let mut s = p.name.clone();
    s.append(":");
    s.append(p.version.as_str());
    s
}

/// The position of the first node with key `key`, if any.
pub open spec fn key_position(nodes: Seq<PackageVersion>, key: Seq<char>) -> Option<int> {
    if exists|i: int| 0 <= i < nodes.len() && node_key(#[trigger] nodes[i]) == key {
        Some(choose|i: int| 0 <= i < nodes.len() && node_key(#[trigger] nodes[i]) == key)
    } else {
        None
    }
}

/// Packages with pairwise distinct keys, the edges between them, and the
/// distinct keys of the packages that reach a vulnerable function.
pub struct DependencyGraphBuilder {
    pub nodes: Vec<PackageVersion>,
    pub edges: Vec<DependencyInfo>,
    pub vulnerability_sources: Vec<String>,
}

impl DependencyGraphBuilder {
    pub open spec fn wf(&self) -> bool {
        &&& forall|a: int, b: int|
            0 <= a < b < self.nodes@.len() ==> node_key(self.nodes@[a]) != node_key(self.nodes@[b])
        &&& self.vulnerability_sources@.map_values(|s: String| s@).no_duplicates()
    }

    pub fn new() -> (r: Self)
        ensures
            r.wf(),
            r.nodes@.len() == 0,
            r.edges@.len() == 0,
            r.vulnerability_sources@.len() == 0,
    {
        let r = DependencyGraphBuilder { nodes: Vec::new(), edges: Vec::new(), vulnerability_sources: Vec::new() };
        assert(r.vulnerability_sources@.map_values(|s: String| s@) =~= Seq::<Seq<char>>::empty());
        r
    }

    fn position_of(&self, key: &String) -> (r: Option<usize>)
        requires
            self.wf(),
        ensures
            match r {
                Some(i) => i < self.nodes@.len() && node_key(self.nodes@[i as int]) == key@,
                None => forall|i: int| 0 <= i < self.nodes@.len() ==> node_key(self.nodes@[i]) != key@,
            },
    {
        let mut i: usize = 0;
        while i < self.nodes.len()
            invariant
                0 <= i <= self.nodes@.len(),
                forall|k: int| 0 <= k < i ==> node_key(self.nodes@[k]) != key@,
            decreases self.nodes.len() - i,
        {
            let k = package_key_of(&self.nodes[i]);
            if text_eq(k.as_str(), key.as_str()) {
                return Some(i);
            }
            i = i + 1;
        }
        None
    }

    /// Adds a package, replacing the one with the same key if there is one.
    pub fn add_package(&mut self, package: PackageVersion)
        requires
            old(self).wf(),
        ensures
            final(self).wf(),
            final(self).edges@ == old(self).edges@,
            final(self).vulnerability_sources@ == old(self).vulnerability_sources@,
            match key_position(old(self).nodes@, node_key(package)) {
                Some(i) => final(self).nodes@ == old(self).nodes@.update(i, package),
                None => final(self).nodes@ == old(self).nodes@.push(package),
            },
    {
        let key = package_key_of(&package);
        match self.position_of(&key) {
            Some(i) => {
                let ghost before = self.nodes@;
                proof {
                    assert(node_key(before[i as int]) == node_key(package));
                    let j = choose|j: int| 0 <= j < before.len() && node_key(#[trigger] before[j]) == node_key(package);
                    if j != i as int {
                        if j < i {
                            assert(node_key(before[j]) != node_key(before[i as int]));
                        } else {
                            assert(node_key(before[i as int]) != node_key(before[j]));
                        }
                    }
                }
                self.nodes.set(i, package);
                assert forall|a: int, b: int| 0 <= a < b < self.nodes@.len() implies node_key(self.nodes@[a])
                    != node_key(self.nodes@[b]) by {
                    if a != i && b != i {
                        assert(self.nodes@[a] == before[a] && self.nodes@[b] == before[b]);
                    } else if a == i {
                        assert(self.nodes@[b] == before[b]);
                    } else {
                        assert(self.nodes@[a] == before[a]);
                    }
                }
            },
            None => {
                let ghost before = self.nodes@;
                self.nodes.push(package);
                assert forall|a: int, b: int| 0 <= a < b < self.nodes@.len() implies node_key(self.nodes@[a])
                    != node_key(self.nodes@[b]) by {
                    assert(self.nodes@[a] == before[a]);
                    if b < before.len() {
                        assert(self.nodes@[b] == before[b]);
                    }
                }
            },
        }
    }

    /// Records that `from` depends on `to`.
    pub fn add_dependency(&mut self, from: PackageVersion, to: PackageVersion, dep_type: &str)
        requires
            old(self).wf(),
        ensures
            final(self).wf(),
            final(self).nodes@ == old(self).nodes@,
            final(self).vulnerability_sources@ == old(self).vulnerability_sources@,
            final(self).edges@.len() == old(self).edges@.len() + 1,
            final(self).edges@.subrange(0, old(self).edges@.len() as int) == old(self).edges@,
            final(self).edges@.last().from == from,
            final(self).edges@.last().to == to,
            final(self).edges@.last().dependency_type@ == dep_type@,
    {
        let ghost before = self.edges@;
        self.edges.push(DependencyInfo { from, to, dependency_type: dep_type.to_owned() });
        assert(self.edges@.subrange(0, before.len() as int) =~= before);
    }

    /// Records that `package` reaches a vulnerable function.
    pub fn mark_vulnerability_source(&mut self, package: &PackageVersion)
        requires
            old(self).wf(),
        ensures
            final(self).wf(),
            final(self).nodes@ == old(self).nodes@,
            final(self).edges@ == old(self).edges@,
            old(self).vulnerability_sources@.map_values(|s: String| s@).contains(node_key(*package))
                ==> final(self).vulnerability_sources@ == old(self).vulnerability_sources@,
            !old(self).vulnerability_sources@.map_values(|s: String| s@).contains(node_key(*package))
                ==> final(self).vulnerability_sources@.map_values(|s: String| s@) == old(
                self,
            ).vulnerability_sources@.map_values(|s: String| s@).push(node_key(*package)),
    {
        let key = package_key_of(package);
        let ghost sv = self.vulnerability_sources@.map_values(|s: String| s@);
        let mut i: usize = 0;
        while i < self.vulnerability_sources.len()
            invariant
                0 <= i <= self.vulnerability_sources@.len(),
                self.wf(),
                self.nodes@ == old(self).nodes@,
                self.edges@ == old(self).edges@,
                self.vulnerability_sources@ == old(self).vulnerability_sources@,
                sv == self.vulnerability_sources@.map_values(|s: String| s@),
                key@ == node_key(*package),
                forall|k: int| 0 <= k < i ==> sv[k] != key@,
            decreases self.vulnerability_sources.len() - i,
        {
            if text_eq(self.vulnerability_sources[i].as_str(), key.as_str()) {
                assert(sv[i as int] == key@);
                assert(key@ == node_key(*package));
                assert(sv.contains(node_key(*package)));
                return;
            }
            i = i + 1;
        }
        self.vulnerability_sources.push(key);
        assert(self.vulnerability_sources@.map_values(|s: String| s@) =~= sv.push(key@));
    }
}

} // verus!

verus! {

/// Some edge says that `from` depends on a package with the key of `to`.
pub open spec fn edge_into(edges: Seq<DependencyInfo>, to: PackageVersion, from: PackageVersion) -> bool {
    exists|e: int| 0 <= e < edges.len() && node_key(#[trigger] edges[e].to) == node_key(to) && edges[e].from == from
}

/// `path` leads from `source` along reverse edges, one level per step.
pub open spec fn is_chain(edges: Seq<DependencyInfo>, source: PackageVersion, path: Seq<PropagationNode>) -> bool {
    &&& path.len() >= 1
    &&& path[0].package == source
    &&& forall|k: int| 0 <= k < path.len() ==> (#[trigger] path[k]).depth == k && path[k].is_direct_dependency == (k <= 1)
    &&& forall|k: int| 0 <= k < path.len() - 1 ==> edge_into(edges, (#[trigger] path[k]).package, path[k + 1].package)
}

/// A propagation path from `source`, as the builder records it.
pub open spec fn is_propagation_path(edges: Seq<DependencyInfo>, source: PackageVersion, p: PropagationPath) -> bool {
    &&& p.source == source
    &&& p.path@.len() >= 2
    &&& is_chain(edges, source, p.path@)
    &&& p.target == p.path@.last().package
    &&& p.total_depth == p.path@.len() - 1
    &&& p.id@ == node_key(source) + "->"@ + node_key(p.target)
}

/// The number of edges whose dependent's key is not among `visited`.
pub open spec fn unvisited(edges: Seq<DependencyInfo>, visited: Seq<Seq<char>>) -> nat
    decreases edges.len(),
{
    if edges.len() == 0 {
        0
    } else {
        unvisited(edges.drop_last(), visited) + if visited.contains(node_key(edges.last().from)) {
            0nat
        } else {
            1nat
        }
    }
}

proof fn lemma_unvisited_shrinks(edges: Seq<DependencyInfo>, visited: Seq<Seq<char>>, key: Seq<char>)
    ensures
        unvisited(edges, visited.push(key)) <= unvisited(edges, visited),
        !visited.contains(key) && (exists|e: int| 0 <= e < edges.len() && node_key(#[trigger] edges[e].from) == key)
            ==> unvisited(edges, visited.push(key)) < unvisited(edges, visited),
    decreases edges.len(),
{
    if edges.len() > 0 {
        lemma_unvisited_shrinks(edges.drop_last(), visited, key);
        let pushed = visited.push(key);
        assert(visited.contains(node_key(edges.last().from)) ==> pushed.contains(node_key(edges.last().from))) by {
            if visited.contains(node_key(edges.last().from)) {
                let i = choose|i: int| 0 <= i < visited.len() && visited[i] == node_key(edges.last().from);
                assert(pushed[i] == visited[i]);
            }
        }
        if !visited.contains(key) && (exists|e: int| 0 <= e < edges.len() && node_key(#[trigger] edges[e].from) == key) {
            let e = choose|e: int| 0 <= e < edges.len() && node_key(#[trigger] edges[e].from) == key;
            if e == edges.len() - 1 {
                assert(pushed[visited.len() as int] == key);
            } else {
                assert(edges.drop_last()[e] == edges[e]);
            }
        }
    }
}

pub fn copy_version(p: &PackageVersion) -> (r: PackageVersion)
    ensures
        r == *p,
{
    PackageVersion { name: p.name.clone(), version: p.version.clone() }
}

/// A copy of a path's steps, without the calls they record.
fn copy_path(path: &Vec<PropagationNode>) -> (r: Vec<PropagationNode>)
    ensures
        r@.len() == path@.len(),
        forall|k: int|
            0 <= k < path@.len() ==> (#[trigger] r@[k]).package == path@[k].package && r@[k].depth == path@[k].depth
                && r@[k].is_direct_dependency == path@[k].is_direct_dependency,
{
    let mut out: Vec<PropagationNode> = Vec::new();
    let mut i: usize = 0;
    while i < path.len()
        invariant
            0 <= i <= path@.len(),
            out@.len() == i,
            forall|k: int|
                0 <= k < i ==> (#[trigger] out@[k]).package == path@[k].package && out@[k].depth == path@[k].depth
                    && out@[k].is_direct_dependency == path@[k].is_direct_dependency,
        decreases path.len() - i,
    {
        let n = &path[i];
        out.push(
            PropagationNode {
                package: copy_version(&n.package),
                function_calls: Vec::new(),
                depth: n.depth,
                is_direct_dependency: n.is_direct_dependency,
            },
        );
        i = i + 1;
    }
    out
}

fn contains_key(visited: &Vec<String>, key: &String) -> (r: bool)
    ensures
        r == visited@.map_values(|s: String| s@).contains(key@),
{
    let ghost vv = visited@.map_values(|s: String| s@);
    let mut i: usize = 0;
    while i < visited.len()
        invariant
            0 <= i <= visited@.len(),
            vv == visited@.map_values(|s: String| s@),
            forall|k: int| 0 <= k < i ==> vv[k] != key@,
        decreases visited.len() - i,
    {
        if text_eq(visited[i].as_str(), key.as_str()) {
            assert(vv[i as int] == key@);
            return true;
        }
        i = i + 1;
    }
    false
}

/// The state of a breadth-first search from one source: the keys seen, the
/// queue of packages with the path that reached each, and the paths found.
struct Search {
    visited: Vec<String>,
    queue: Vec<(PackageVersion, Vec<PropagationNode>)>,
    paths: Vec<PropagationPath>,
}

impl Search {
    spec fn keys(&self) -> Seq<Seq<char>> {
        self.visited@.map_values(|s: String| s@)
    }

    #[verifier::opaque]
    spec fn inv(&self, edges: Seq<DependencyInfo>, source: PackageVersion) -> bool {
        &&& self.queue@.len() >= 1
        &&& self.paths@.len() + 1 == self.queue@.len()
        &&& self.visited@.len() == self.queue@.len()
        &&& self.queue@[0].0 == source
        &&& self.keys().no_duplicates()
        &&& forall|q: int| 0 <= q < self.queue@.len() ==> (#[trigger] self.visited@[q])@ == node_key(self.queue@[q].0)
        &&& forall|q: int|
            0 <= q < self.queue@.len() ==> is_chain(edges, source, (#[trigger] self.queue@[q]).1@)
                && self.queue@[q].1@.last().package == self.queue@[q].0
        &&& forall|i: int|
            0 <= i < self.paths@.len() ==> is_propagation_path(edges, source, #[trigger] self.paths@[i])
                && self.paths@[i].target == self.queue@[i + 1].0 && self.paths@[i].path@.len() == self.queue@[i
                + 1].1@.len()
        &&& self.queue@[0].1@.len() == 1
    }

    /// Records that `from` was reached through `edge` from the package
    /// whose path is `path`.
    fn discover(
        &mut self,
        Ghost(edges): Ghost<Seq<DependencyInfo>>,
        Ghost(e): Ghost<int>,
        source: &PackageVersion,
        source_key: &String,
        path: &Vec<PropagationNode>,
        from: &PackageVersion,
        from_key: &String,
    )
        requires
            old(self).inv(edges, *source),
            source_key@ == node_key(*source),
            from_key@ == node_key(*from),
            !old(self).keys().contains(from_key@),
            is_chain(edges, *source, path@),
            0 <= e < edges.len(),
            edges[e].from == *from,
            node_key(edges[e].to) == node_key(path@.last().package),
            layered_search(old(self).queue@),
            old(self).queue@.len() >= 1 ==> old(self).queue@.last().1@.len() <= path@.len() + 1,
        ensures
            final(self).inv(edges, *source),
            final(self).keys() == old(self).keys().push(from_key@),
            final(self).queue@.len() == old(self).queue@.len() + 1,
            forall|q: int| 0 <= q < old(self).queue@.len() ==> final(self).queue@[q] == old(self).queue@[q],
            final(self).queue@.last().0 == *from,
            final(self).queue@.last().1@.len() == path@.len() + 1,
            layered_search(final(self).queue@),
    {
        reveal(Search::inv);
        let depth: usize = path.len() - 1;
        let mut new_path = copy_path(path);
        new_path.push(
            PropagationNode {
                package: copy_version(from),
                function_calls: Vec::new(),
                depth: path.len(),
                is_direct_dependency: path.len() == 1,
            },
        );
        assert(edge_into(edges, path@[depth as int].package, *from));
        assert(is_chain(edges, *source, new_path@)) by {
            assert forall|k: int| 0 <= k < new_path@.len() - 1 implies edge_into(
                edges,
                (#[trigger] new_path@[k]).package,
                new_path@[k + 1].package,
            ) by {
                if k < depth {
                    assert(edge_into(edges, path@[k].package, path@[k + 1].package));
                }
            }
            assert forall|k: int| 0 <= k < new_path@.len() implies (#[trigger] new_path@[k]).depth == k
                && new_path@[k].is_direct_dependency == (k <= 1) by {
                if k <= depth {
                    assert(path@[k].depth == k);
                }
            }
        }
        let mut id = source_key.clone();
        id.append("->");
        id.append(from_key.as_str());
        let found = PropagationPath {
            id,
            source: copy_version(source),
            target: copy_version(from),
            path: copy_path(&new_path),
            total_depth: path.len(),
            vulnerability_functions: Vec::new(),
        };
        assert(is_chain(edges, *source, found.path@)) by {
            assert forall|k: int| 0 <= k < found.path@.len() - 1 implies edge_into(
                edges,
                (#[trigger] found.path@[k]).package,
                found.path@[k + 1].package,
            ) by {
                assert(edge_into(edges, new_path@[k].package, new_path@[k + 1].package));
            }
            assert forall|k: int| 0 <= k < found.path@.len() implies (#[trigger] found.path@[k]).depth == k
                && found.path@[k].is_direct_dependency == (k <= 1) by {
                assert(new_path@[k].depth == k);
            }
        }
        assert(found.path@.len() == new_path@.len());
        let ghost old_keys = self.keys();
        let ghost old_queue = self.queue@;
        let ghost old_paths = self.paths@;
        self.paths.push(found);
        self.visited.push(from_key.clone());
        self.queue.push((copy_version(from), new_path));
        assert(self.keys() =~= old_keys.push(from_key@));
        assert forall|q: int| 0 <= q < self.queue@.len() implies (#[trigger] self.visited@[q])@ == node_key(
            self.queue@[q].0,
        ) by {
            if q < old_queue.len() {
                assert(self.queue@[q] == old_queue[q]);
            }
        }
        assert forall|q: int| 0 <= q < self.queue@.len() implies is_chain(edges, *source, (#[trigger] self.queue@[q]).1@)
            && self.queue@[q].1@.last().package == self.queue@[q].0 by {
            if q < old_queue.len() {
                assert(self.queue@[q] == old_queue[q]);
            }
        }
        assert forall|i: int| 0 <= i < self.paths@.len() implies is_propagation_path(
            edges,
            *source,
            #[trigger] self.paths@[i],
        ) && self.paths@[i].target == self.queue@[i + 1].0 && self.paths@[i].path@.len() == self.queue@[i + 1].1@.len() by {
            if i < old_paths.len() {
                assert(self.paths@[i] == old_paths[i]);
                assert(self.queue@[i + 1] == old_queue[i + 1]);
            }
        }
        assert(self.queue@[0] == old_queue[0]);
        assert(layered_search(self.queue@)) by {
            reveal(layered_search);
            assert forall|a: int, b: int| 0 <= a < b < self.queue@.len() implies (#[trigger] self.queue@[a]).1@.len()
                <= (#[trigger] self.queue@[b]).1@.len() by {
                assert(self.queue@[a] == old_queue[a]);
                if b < old_queue.len() {
                    assert(self.queue@[b] == old_queue[b]);
                } else {
                    assert(old_queue[a].1@.len() <= old_queue.last().1@.len()) by {
                        if a < old_queue.len() - 1 {
                        }
                    }
                }
            }
        }
    }
}

/// The paths in the queue never get shorter.
#[verifier::opaque]
spec fn layered_search(queue: Seq<(PackageVersion, Vec<PropagationNode>)>) -> bool {
    forall|a: int, b: int|
        0 <= a < b < queue.len() ==> (#[trigger] queue[a]).1@.len() <= (#[trigger] queue[b]).1@.len()
}

/// Consecutive packages of `c` are joined by an edge from the next to the
/// previous one, by key; `c` starts at `source`.
pub open spec fn is_version_chain(edges: Seq<DependencyInfo>, source: PackageVersion, c: Seq<PackageVersion>) -> bool {
    &&& c.len() >= 1
    &&& node_key(c[0]) == node_key(source)
    &&& forall|k: int|
        #![trigger c[k]]
        0 <= k < c.len() - 1 ==> exists|e: int|
            0 <= e < edges.len() && node_key(#[trigger] edges[e].to) == node_key(c[k]) && node_key(edges[e].from)
                == node_key(c[k + 1])
}

/// Every dependent of the first `head` queued packages is queued with a path
/// at most one step longer than theirs.
#[verifier::opaque]
spec fn reached_by(edges: Seq<DependencyInfo>, queue: Seq<(PackageVersion, Vec<PropagationNode>)>, head: int) -> bool {
    forall|h: int, e: int|
        0 <= h < head && 0 <= e < edges.len() && node_key((#[trigger] edges[e]).to) == node_key((#[trigger] queue[h]).0)
            ==> exists|j: int|
            0 <= j < queue.len() && node_key((#[trigger] queue[j]).0) == node_key(edges[e].from) && queue[j].1@.len()
                <= queue[h].1@.len() + 1
}

#[verifier::opaque]
spec fn reached_through(
    edges: Seq<DependencyInfo>,
    queue: Seq<(PackageVersion, Vec<PropagationNode>)>,
    len: int,
    current: PackageVersion,
    f: int,
) -> bool {
    forall|e: int|
        0 <= e < f && node_key((#[trigger] edges[e]).to) == node_key(current) ==> exists|j: int|
            0 <= j < queue.len() && node_key((#[trigger] queue[j]).0) == node_key(edges[e].from) && queue[j].1@.len() <= len + 1
}

proof fn lemma_reached_by_grows(
    edges: Seq<DependencyInfo>,
    queue0: Seq<(PackageVersion, Vec<PropagationNode>)>,
    queue1: Seq<(PackageVersion, Vec<PropagationNode>)>,
    len: int,
    current: PackageVersion,
    head: int,
    f: int,
)
    requires
        reached_by(edges, queue0, head),
        reached_through(edges, queue0, len, current, f),
        head <= queue0.len() <= queue1.len(),
        forall|q: int| 0 <= q < queue0.len() ==> queue1[q] == queue0[q],
    ensures
        reached_by(edges, queue1, head),
        reached_through(edges, queue1, len, current, f),
{
    reveal(reached_by);
    reveal(reached_through);
    assert forall|h: int, e: int|
        0 <= h < head && 0 <= e < edges.len() && node_key((#[trigger] edges[e]).to) == node_key((#[trigger] queue1[h]).0)
            implies exists|j: int|
        0 <= j < queue1.len() && node_key((#[trigger] queue1[j]).0) == node_key(edges[e].from) && queue1[j].1@.len()
            <= queue1[h].1@.len() + 1 by {
        assert(queue1[h] == queue0[h]);
        let j = choose|j: int|
            0 <= j < queue0.len() && node_key((#[trigger] queue0[j]).0) == node_key(edges[e].from) && queue0[j].1@.len()
                <= queue0[h].1@.len() + 1;
        assert(queue1[j] == queue0[j]);
    }
    assert forall|e: int| 0 <= e < f && node_key((#[trigger] edges[e]).to) == node_key(current) implies exists|j: int|
        0 <= j < queue1.len() && node_key((#[trigger] queue1[j]).0) == node_key(edges[e].from) && queue1[j].1@.len() <= len
            + 1 by {
        let j = choose|j: int|
            0 <= j < queue0.len() && node_key((#[trigger] queue0[j]).0) == node_key(edges[e].from) && queue0[j].1@.len()
                <= len + 1;
        assert(queue1[j] == queue0[j]);
    }
}

proof fn lemma_reached_through_step(
    edges: Seq<DependencyInfo>,
    queue: Seq<(PackageVersion, Vec<PropagationNode>)>,
    len: int,
    current: PackageVersion,
    f: int,
    j: int,
)
    requires
        reached_through(edges, queue, len, current, f),
        0 <= f < edges.len(),
        node_key(edges[f].to) == node_key(current) ==> 0 <= j < queue.len() && node_key(queue[j].0) == node_key(
            edges[f].from,
        ) && queue[j].1@.len() <= len + 1,
    ensures
        reached_through(edges, queue, len, current, f + 1),
{
    reveal(reached_through);
    assert forall|e: int| 0 <= e < f + 1 && node_key((#[trigger] edges[e]).to) == node_key(current) implies exists|k: int|
        0 <= k < queue.len() && node_key((#[trigger] queue[k]).0) == node_key(edges[e].from) && queue[k].1@.len() <= len + 1 by {
        if e == f {
            assert(node_key(queue[j].0) == node_key(edges[e].from));
        }
    }
}

proof fn lemma_reached_by_done(edges: Seq<DependencyInfo>, queue: Seq<(PackageVersion, Vec<PropagationNode>)>, head: int)
    requires
        reached_by(edges, queue, head),
        0 <= head < queue.len(),
        reached_through(edges, queue, queue[head].1@.len() as int, queue[head].0, edges.len() as int),
    ensures
        reached_by(edges, queue, head + 1),
{
    reveal(reached_by);
    reveal(reached_through);
    assert forall|h: int, e: int|
        0 <= h < head + 1 && 0 <= e < edges.len() && node_key((#[trigger] edges[e]).to) == node_key((#[trigger] queue[h]).0)
            implies exists|j: int|
        0 <= j < queue.len() && node_key((#[trigger] queue[j]).0) == node_key(edges[e].from) && queue[j].1@.len()
            <= queue[h].1@.len() + 1 by {
        if h == head {
        }
    }
}

proof fn lemma_search_layer_bound(queue: Seq<(PackageVersion, Vec<PropagationNode>)>, k: int)
    requires
        layered_search(queue),
        0 <= k < queue.len(),
    ensures
        queue[k].1@.len() <= queue.last().1@.len(),
{
    reveal(layered_search);
    if k < queue.len() - 1 {
        assert(queue[k].1@.len() <= queue[queue.len() - 1].1@.len());
    }
}

proof fn lemma_search_shortest(
    edges: Seq<DependencyInfo>,
    source: PackageVersion,
    queue: Seq<(PackageVersion, Vec<PropagationNode>)>,
    c: Seq<PackageVersion>,
)
    requires
        reached_by(edges, queue, queue.len() as int),
        queue.len() >= 1,
        queue[0].0 == source,
        queue[0].1@.len() == 1,
        is_version_chain(edges, source, c),
    ensures
        exists|j: int| 0 <= j < queue.len() && node_key((#[trigger] queue[j]).0) == node_key(c.last()) && queue[j].1@.len() <= c.len(),
    decreases c.len(),
{
    if c.len() == 1 {
        assert(node_key(queue[0].0) == node_key(c.last()));
    } else {
        let p = c.drop_last();
        assert(is_version_chain(edges, source, p)) by {
            assert forall|k: int|
                #![trigger p[k]]
                0 <= k < p.len() - 1 implies exists|e: int|
                0 <= e < edges.len() && node_key(#[trigger] edges[e].to) == node_key(p[k]) && node_key(edges[e].from)
                    == node_key(p[k + 1]) by {
                assert(p[k] == c[k] && p[k + 1] == c[k + 1]);
            }
        }
        lemma_search_shortest(edges, source, queue, p);
        let i = choose|i: int| 0 <= i < queue.len() && node_key((#[trigger] queue[i]).0) == node_key(p.last()) && queue[i].1@.len() <= p.len();
        let n = c.len() - 2;
        let e = choose|e: int|
            0 <= e < edges.len() && node_key(#[trigger] edges[e].to) == node_key(c[n]) && node_key(edges[e].from) == node_key(c[n + 1]);
        reveal(reached_by);
        assert(node_key(edges[e].to) == node_key(queue[i].0));
        let j = choose|j: int|
            0 <= j < queue.len() && node_key((#[trigger] queue[j]).0) == node_key(edges[e].from) && queue[j].1@.len()
                <= queue[i].1@.len() + 1;
        assert(node_key(queue[j].0) == node_key(c.last()));
    }
}

proof fn lemma_contains_push(s: Seq<Seq<char>>, x: Seq<char>, y: Seq<char>)
    requires
        s.contains(y),
    ensures
        s.push(x).contains(y),
{
    let i = choose|i: int| 0 <= i < s.len() && s[i] == y;
    assert(s.push(x)[i] == y);
}

/// Every edge into one of the first `head` queued packages comes from a
/// package already seen.
#[verifier::opaque]
spec fn closed_upto(
    edges: Seq<DependencyInfo>,
    queue: Seq<(PackageVersion, Vec<PropagationNode>)>,
    keys: Seq<Seq<char>>,
    head: int,
) -> bool {
    forall|h: int, f: int|
        0 <= h < head && 0 <= f < edges.len() && node_key((#[trigger] edges[f]).to) == node_key((#[trigger] queue[h]).0)
            ==> keys.contains(node_key(edges[f].from))
}

/// Every one of the first `e` edges into `current` comes from a package
/// already seen.
#[verifier::opaque]
spec fn scanned(edges: Seq<DependencyInfo>, current: PackageVersion, keys: Seq<Seq<char>>, e: int) -> bool {
    forall|f: int|
        0 <= f < e && node_key((#[trigger] edges[f]).to) == node_key(current) ==> keys.contains(node_key(edges[f].from))
}

proof fn lemma_seen_grows(
    edges: Seq<DependencyInfo>,
    queue0: Seq<(PackageVersion, Vec<PropagationNode>)>,
    queue1: Seq<(PackageVersion, Vec<PropagationNode>)>,
    keys0: Seq<Seq<char>>,
    x: Seq<char>,
    current: PackageVersion,
    head: int,
    e: int,
)
    requires
        closed_upto(edges, queue0, keys0, head),
        scanned(edges, current, keys0, e),
        head <= queue0.len() <= queue1.len(),
        forall|q: int| 0 <= q < queue0.len() ==> queue1[q] == queue0[q],
    ensures
        closed_upto(edges, queue1, keys0.push(x), head),
        scanned(edges, current, keys0.push(x), e),
{
    reveal(closed_upto);
    reveal(scanned);
    assert forall|h: int, f: int|
        0 <= h < head && 0 <= f < edges.len() && node_key((#[trigger] edges[f]).to) == node_key((#[trigger] queue1[h]).0)
            implies keys0.push(x).contains(node_key(edges[f].from)) by {
        assert(queue1[h] == queue0[h]);
        lemma_contains_push(keys0, x, node_key(edges[f].from));
    }
    assert forall|f: int| 0 <= f < e && node_key((#[trigger] edges[f]).to) == node_key(current) implies keys0.push(
        x,
    ).contains(node_key(edges[f].from)) by {
        lemma_contains_push(keys0, x, node_key(edges[f].from));
    }
}

proof fn lemma_scan_step(edges: Seq<DependencyInfo>, current: PackageVersion, keys: Seq<Seq<char>>, e: int)
    requires
        scanned(edges, current, keys, e),
        0 <= e < edges.len(),
        node_key(edges[e].to) == node_key(current) ==> keys.contains(node_key(edges[e].from)),
    ensures
        scanned(edges, current, keys, e + 1),
{
    reveal(scanned);
}

proof fn lemma_scan_done(
    edges: Seq<DependencyInfo>,
    queue: Seq<(PackageVersion, Vec<PropagationNode>)>,
    keys: Seq<Seq<char>>,
    head: int,
)
    requires
        closed_upto(edges, queue, keys, head),
        0 <= head < queue.len(),
        scanned(edges, queue[head].0, keys, edges.len() as int),
    ensures
        closed_upto(edges, queue, keys, head + 1),
{
    reveal(closed_upto);
    reveal(scanned);
    assert forall|h: int, f: int|
        0 <= h < head + 1 && 0 <= f < edges.len() && node_key((#[trigger] edges[f]).to) == node_key((#[trigger] queue[h]).0)
            implies keys.contains(node_key(edges[f].from)) by {
        if h == head {
        }
    }
}

impl DependencyGraphBuilder {
    /// The propagation paths from `source`: breadth first along reverse
    /// edges, one path to every package that reaches `source`, each reached
    /// through the first edge found.
    pub fn bfs_from_source(&self, source: &PackageVersion) -> (r: Vec<PropagationPath>)
        ensures
            forall|i: int| 0 <= i < r@.len() ==> is_propagation_path(self.edges@, *source, #[trigger] r@[i]),
            forall|i: int, j: int|
                0 <= i < j < r@.len() ==> node_key((#[trigger] r@[i]).target) != node_key((#[trigger] r@[j]).target),
            forall|i: int| 0 <= i < r@.len() ==> node_key((#[trigger] r@[i]).target) != node_key(*source),
            forall|i: int, e: int|
                0 <= i < r@.len() && 0 <= e < self.edges@.len() && node_key((#[trigger] self.edges@[e]).to)
                    == node_key((#[trigger] r@[i]).target) ==> node_key(self.edges@[e].from) == node_key(*source)
                    || exists|j: int| 0 <= j < r@.len() && node_key((#[trigger] r@[j]).target) == node_key(self.edges@[e].from),
            forall|e: int|
                0 <= e < self.edges@.len() && node_key((#[trigger] self.edges@[e]).to) == node_key(*source)
                    ==> node_key(self.edges@[e].from) == node_key(*source)
                    || exists|j: int| 0 <= j < r@.len() && node_key((#[trigger] r@[j]).target) == node_key(self.edges@[e].from),
            forall|c: Seq<PackageVersion>|
                is_version_chain(self.edges@, *source, c) && node_key(c.last()) != node_key(*source) ==> exists|j: int|
                    0 <= j < r@.len() && node_key((#[trigger] r@[j]).target) == node_key(c.last()) && r@[j].path@.len() <= c.len(),
    {
        let ghost edges = self.edges@;
        let source_key = package_key_of(source);
        let mut start: Vec<PropagationNode> = Vec::new();
        start.push(
            PropagationNode { package: copy_version(source), function_calls: Vec::new(), depth: 0, is_direct_dependency: true },
        );
        let mut st = Search { visited: Vec::new(), queue: Vec::new(), paths: Vec::new() };
        st.visited.push(source_key.clone());
        st.queue.push((copy_version(source), start));
        assert(st.keys() =~= seq![node_key(*source)]);
        assert(st.inv(edges, *source)) by {
            reveal(Search::inv);
        }
        assert(closed_upto(edges, st.queue@, st.keys(), 0)) by {
            reveal(closed_upto);
        }
        assert(reached_by(edges, st.queue@, 0)) by {
            reveal(reached_by);
        }
        assert(layered_search(st.queue@)) by {
            reveal(layered_search);
        }
        let mut head: usize = 0;
        while head < st.queue.len()
            invariant
                edges == self.edges@,
                source_key@ == node_key(*source),
                st.inv(edges, *source),
                head <= st.queue@.len(),
                closed_upto(edges, st.queue@, st.keys(), head as int),
                reached_by(edges, st.queue@, head as int),
                layered_search(st.queue@),
                head < st.queue@.len() ==> st.queue@.last().1@.len() <= st.queue@[head as int].1@.len() + 1,
            decreases 2 * unvisited(self.edges@, st.keys()) + st.queue@.len() - head,
        {
            let current_key = package_key_of(&st.queue[head].0);
            let current_path = copy_path(&st.queue[head].1);
            let ghost current = st.queue@[head as int].0;
            let ghost measure0 = 2 * unvisited(edges, st.keys()) + st.queue@.len();
            proof {
                reveal(Search::inv);
                let qp = st.queue@[head as int].1@;
                assert(is_chain(edges, *source, current_path@)) by {
                    assert forall|k: int| 0 <= k < current_path@.len() - 1 implies edge_into(
                        edges,
                        (#[trigger] current_path@[k]).package,
                        current_path@[k + 1].package,
                    ) by {
                        assert(edge_into(edges, qp[k].package, qp[k + 1].package));
                    }
                    assert forall|k: int| 0 <= k < current_path@.len() implies (#[trigger] current_path@[k]).depth == k
                        && current_path@[k].is_direct_dependency == (k <= 1) by {
                        assert(qp[k].depth == k);
                    }
                }
                assert(current_path@.last().package == current);
                assert(current_path@.last().depth == current_path@.len() - 1);
            }
            let mut e: usize = 0;
            assert(scanned(edges, current, st.keys(), 0)) by {
                reveal(scanned);
            }
            let ghost clen = current_path@.len() as int;
            assert(clen == st.queue@[head as int].1@.len());
            assert(reached_through(edges, st.queue@, clen, current, 0)) by {
                reveal(reached_through);
            }
            while e < self.edges.len()
                invariant
                    edges == self.edges@,
                    source_key@ == node_key(*source),
                    st.inv(edges, *source),
                    head < st.queue@.len(),
                    current == st.queue@[head as int].0,
                    current_key@ == node_key(current),
                    is_chain(edges, *source, current_path@),
                    current_path@.last().package == current,
                    current_path@.last().depth == current_path@.len() - 1,
                    0 <= e <= edges.len(),
                    closed_upto(edges, st.queue@, st.keys(), head as int),
                    scanned(edges, current, st.keys(), e as int),
                    reached_by(edges, st.queue@, head as int),
                    reached_through(edges, st.queue@, clen, current, e as int),
                    layered_search(st.queue@),
                    clen == current_path@.len(),
                    clen == st.queue@[head as int].1@.len(),
                    st.queue@.last().1@.len() <= clen + 1,
                    2 * unvisited(edges, st.keys()) + st.queue@.len() <= measure0,
                decreases self.edges.len() - e,
            {
                let to_key = package_key_of(&self.edges[e].to);
                let ghost witness: int = 0;
                if text_eq(to_key.as_str(), current_key.as_str()) {
                    let from_key = package_key_of(&self.edges[e].from);
                    if !contains_key(&st.visited, &from_key) {
                        let ghost keys0 = st.keys();
                        let ghost queue0 = st.queue@;
                        proof {
                            lemma_unvisited_shrinks(edges, keys0, from_key@);
                            assert(node_key(edges[e as int].from) == from_key@);
                        }
                        st.discover(
                            Ghost(edges),
                            Ghost(e as int),
                            source,
                            &source_key,
                            &current_path,
                            &self.edges[e].from,
                            &from_key,
                        );
                        proof {
                            lemma_seen_grows(edges, queue0, st.queue@, keys0, from_key@, current, head as int, e as int);
                            lemma_reached_by_grows(edges, queue0, st.queue@, clen, current, head as int, e as int);
                            assert(st.keys()[keys0.len() as int] == from_key@);
                            assert(st.keys().contains(from_key@));
                            assert(st.queue@[head as int] == queue0[head as int]);
                            witness = queue0.len() as int;
                        }
                    } else {
                        proof {
                            assert(node_key(edges[e as int].from) == from_key@);
                            reveal(Search::inv);
                            let k = choose|k: int| 0 <= k < st.keys().len() && st.keys()[k] == from_key@;
                            assert(st.keys()[k] == st.visited@[k]@);
                            lemma_search_layer_bound(st.queue@, k);
                            witness = k;
                        }
                    }
                }
                proof {
                    lemma_scan_step(edges, current, st.keys(), e as int);
                    lemma_reached_through_step(edges, st.queue@, clen, current, e as int, witness);
                }
                e = e + 1;
            }
            proof {
                lemma_scan_done(edges, st.queue@, st.keys(), head as int);
                lemma_reached_by_done(edges, st.queue@, head as int);
                if head + 1 < st.queue@.len() {
                    reveal(layered_search);
                    assert(st.queue@[head as int].1@.len() <= st.queue@[head + 1].1@.len());
                }
            }
            head = head + 1;
        }
        proof {
            reveal(Search::inv);
            reveal(closed_upto);
            let n = st.paths@.len();
            assert forall|c: Seq<PackageVersion>|
                is_version_chain(edges, *source, c) && node_key(c.last()) != node_key(*source) implies exists|j: int|
                0 <= j < n && node_key((#[trigger] st.paths@[j]).target) == node_key(c.last()) && st.paths@[j].path@.len()
                    <= c.len() by {
                lemma_search_shortest(edges, *source, st.queue@, c);
                let q = choose|q: int| 0 <= q < st.queue@.len() && node_key((#[trigger] st.queue@[q]).0) == node_key(c.last())
                    && st.queue@[q].1@.len() <= c.len();
                assert(q != 0);
                assert(st.paths@[q - 1].target == st.queue@[q].0);
            }
            assert forall|i: int, j: int| 0 <= i < j < n implies node_key((#[trigger] st.paths@[i]).target) != node_key(
                (#[trigger] st.paths@[j]).target,
            ) by {
                assert(st.keys()[i + 1] == st.visited@[i + 1]@);
                assert(st.keys()[j + 1] == st.visited@[j + 1]@);
            }
            assert forall|i: int| 0 <= i < n implies node_key((#[trigger] st.paths@[i]).target) != node_key(*source) by {
                assert(st.keys()[i + 1] == st.visited@[i + 1]@);
                assert(st.keys()[0] == st.visited@[0]@);
            }
            assert forall|i: int, f: int|
                0 <= i < n && 0 <= f < edges.len() && node_key((#[trigger] edges[f]).to) == node_key(
                    (#[trigger] st.paths@[i]).target,
                ) implies node_key(edges[f].from) == node_key(*source) || exists|j: int|
                0 <= j < n && node_key((#[trigger] st.paths@[j]).target) == node_key(edges[f].from) by {
                assert(st.queue@[i + 1].0 == st.paths@[i].target);
                let k = choose|k: int| 0 <= k < st.keys().len() && st.keys()[k] == node_key(edges[f].from);
                assert(st.keys()[k] == st.visited@[k]@);
                if k > 0 {
                    assert(st.queue@[k].0 == st.paths@[k - 1].target);
                }
            }
            assert forall|f: int|
                0 <= f < edges.len() && node_key((#[trigger] edges[f]).to) == node_key(*source) implies node_key(
                    edges[f].from,
                ) == node_key(*source) || exists|j: int|
                0 <= j < n && node_key((#[trigger] st.paths@[j]).target) == node_key(edges[f].from) by {
                assert(st.queue@[0].0 == *source);
                let k = choose|k: int| 0 <= k < st.keys().len() && st.keys()[k] == node_key(edges[f].from);
                assert(st.keys()[k] == st.visited@[k]@);
                if k > 0 {
                    assert(st.queue@[k].0 == st.paths@[k - 1].target);
                }
            }
        }
        st.paths
    }

    /// Every path recorded: its source is a package of the graph marked as
    /// a source, and it is a propagation path from there.
    pub open spec fn paths_sound(&self, r: Seq<PropagationPath>) -> bool {
        forall|i: int|
            0 <= i < r.len() ==> self.nodes@.contains((#[trigger] r[i]).source)
                && self.vulnerability_sources@.map_values(|s: String| s@).contains(node_key(r[i].source))
                && is_propagation_path(self.edges@, r[i].source, r[i])
    }

    /// The packages reached from a source are closed under reverse edges:
    /// whatever depends on a target is the source or a target of the same
    /// source.
    pub open spec fn paths_closed(&self, r: Seq<PropagationPath>) -> bool {
        forall|i: int, e: int|
            0 <= i < r.len() && 0 <= e < self.edges@.len() && node_key((#[trigger] self.edges@[e]).to) == node_key(
                (#[trigger] r[i]).target,
            ) ==> node_key(self.edges@[e].from) == node_key(r[i].source) || exists|j: int|
                0 <= j < r.len() && (#[trigger] r[j]).source == r[i].source && node_key(r[j].target) == node_key(
                    self.edges@[e].from,
                )
    }

    /// The propagation paths from every vulnerability source that is a
    /// package of the graph, source after source.
    pub fn compute_propagation_paths(&self) -> (r: Vec<PropagationPath>)
        requires
            self.wf(),
        ensures
            self.paths_sound(r@),
            self.paths_closed(r@),
            forall|n: int, e: int|
                0 <= n < self.nodes@.len() && self.vulnerability_sources@.map_values(|s: String| s@).contains(
                    node_key(#[trigger] self.nodes@[n]),
                ) && 0 <= e < self.edges@.len() && node_key((#[trigger] self.edges@[e]).to) == node_key(self.nodes@[n])
                    && node_key(self.edges@[e].from) != node_key(self.nodes@[n]) ==> exists|j: int|
                    0 <= j < r@.len() && (#[trigger] r@[j]).source == self.nodes@[n] && node_key(r@[j].target) == node_key(
                        self.edges@[e].from,
                    ),
            forall|n: int, c: Seq<PackageVersion>|
                0 <= n < self.nodes@.len() && self.vulnerability_sources@.map_values(|s: String| s@).contains(
                    node_key(self.nodes@[n]),
                ) && #[trigger] is_version_chain(self.edges@, self.nodes@[n], c) && node_key(c.last()) != node_key(self.nodes@[n])
                    ==> exists|j: int|
                    0 <= j < r@.len() && (#[trigger] r@[j]).source == self.nodes@[n] && node_key(r@[j].target) == node_key(
                        c.last(),
                    ) && r@[j].path@.len() <= c.len(),
    {
        let ghost sv = self.vulnerability_sources@.map_values(|s: String| s@);
        let mut out: Vec<PropagationPath> = Vec::new();
        let mut i: usize = 0;
        while i < self.vulnerability_sources.len()
            invariant
                self.wf(),
                sv == self.vulnerability_sources@.map_values(|s: String| s@),
                0 <= i <= sv.len(),
                self.paths_sound(out@),
                self.paths_closed(out@),
                forall|n: int, e: int|
                    0 <= n < self.nodes@.len() && sv.subrange(0, i as int).contains(node_key(#[trigger] self.nodes@[n]))
                        && 0 <= e < self.edges@.len() && node_key((#[trigger] self.edges@[e]).to) == node_key(
                        self.nodes@[n],
                    ) && node_key(self.edges@[e].from) != node_key(self.nodes@[n]) ==> exists|j: int|
                        0 <= j < out@.len() && (#[trigger] out@[j]).source == self.nodes@[n] && node_key(out@[j].target)
                            == node_key(self.edges@[e].from),
                forall|n: int, c: Seq<PackageVersion>|
                    0 <= n < self.nodes@.len() && sv.subrange(0, i as int).contains(node_key(self.nodes@[n]))
                        && #[trigger] is_version_chain(self.edges@, self.nodes@[n], c) && node_key(c.last()) != node_key(self.nodes@[n])
                        ==> exists|j: int|
                        0 <= j < out@.len() && (#[trigger] out@[j]).source == self.nodes@[n] && node_key(out@[j].target)
                            == node_key(c.last()) && out@[j].path@.len() <= c.len(),
            decreases self.vulnerability_sources.len() - i,
        {
            let ghost before = out@;
            match self.position_of(&self.vulnerability_sources[i]) {
                Some(n) => {
                    let source = &self.nodes[n];
                    let mut found = self.bfs_from_source(source);
                    let ghost fv = found@;
                    out.append(&mut found);
                    proof {
                        assert(sv[i as int] == node_key(*source));
                        assert(self.nodes@[n as int] == *source);
                        assert forall|k: int| 0 <= k < out@.len() implies self.nodes@.contains((#[trigger] out@[k]).source)
                            && sv.contains(node_key(out@[k].source)) && is_propagation_path(
                            self.edges@,
                            out@[k].source,
                            out@[k],
                        ) by {
                            if k >= before.len() {
                                assert(out@[k] == fv[k - before.len()]);
                            } else {
                                assert(out@[k] == before[k]);
                            }
                        }
                        assert forall|a: int, e: int|
                            0 <= a < out@.len() && 0 <= e < self.edges@.len() && node_key((#[trigger] self.edges@[e]).to)
                                == node_key((#[trigger] out@[a]).target) implies node_key(self.edges@[e].from) == node_key(
                            out@[a].source,
                        ) || exists|j: int|
                            0 <= j < out@.len() && (#[trigger] out@[j]).source == out@[a].source && node_key(out@[j].target)
                                == node_key(self.edges@[e].from) by {
                            if a >= before.len() {
                                let fa = a - before.len();
                                assert(out@[a] == fv[fa]);
                                if node_key(self.edges@[e].from) != node_key(*source) {
                                    let j = choose|j: int| 0 <= j < fv.len() && node_key((#[trigger] fv[j]).target) == node_key(self.edges@[e].from);
                                    assert(out@[before.len() + j] == fv[j]);
                                }
                            } else {
                                assert(out@[a] == before[a]);
                                if node_key(self.edges@[e].from) != node_key(before[a].source) {
                                    let j = choose|j: int| 0 <= j < before.len() && (#[trigger] before[j]).source == before[a].source && node_key(before[j].target) == node_key(self.edges@[e].from);
                                    assert(out@[j] == before[j]);
                                }
                            }
                        }
                        assert forall|m: int, e: int|
                            0 <= m < self.nodes@.len() && sv.subrange(0, i + 1).contains(node_key(#[trigger] self.nodes@[m]))
                                && 0 <= e < self.edges@.len() && node_key((#[trigger] self.edges@[e]).to) == node_key(
                                self.nodes@[m],
                            ) && node_key(self.edges@[e].from) != node_key(self.nodes@[m]) implies exists|j: int|
                            0 <= j < out@.len() && (#[trigger] out@[j]).source == self.nodes@[m] && node_key(out@[j].target)
                                == node_key(self.edges@[e].from) by {
                            let pre = sv.subrange(0, i + 1);
                            let t = choose|t: int| 0 <= t < pre.len() && #[trigger] pre[t] == node_key(self.nodes@[m]);
                            if t == i {
                                if m != n {
                                    if m < n {
                                        assert(node_key(self.nodes@[m]) != node_key(self.nodes@[n as int]));
                                    } else {
                                        assert(node_key(self.nodes@[n as int]) != node_key(self.nodes@[m]));
                                    }
                                }
                                let j = choose|j: int| 0 <= j < fv.len() && node_key((#[trigger] fv[j]).target) == node_key(self.edges@[e].from);
                                assert(out@[before.len() + j] == fv[j]);
                            } else {
                                assert(sv.subrange(0, i as int)[t] == node_key(self.nodes@[m]));
                                let j = choose|j: int| 0 <= j < before.len() && (#[trigger] before[j]).source == self.nodes@[m] && node_key(before[j].target) == node_key(self.edges@[e].from);
                                assert(out@[j] == before[j]);
                            }
                        }
                    }
                    proof {
                        assert forall|m: int, c: Seq<PackageVersion>|
                            0 <= m < self.nodes@.len() && sv.subrange(0, i + 1).contains(node_key(self.nodes@[m]))
                                && #[trigger] is_version_chain(self.edges@, self.nodes@[m], c) && node_key(c.last()) != node_key(self.nodes@[m])
                                implies exists|j: int|
                            0 <= j < out@.len() && (#[trigger] out@[j]).source == self.nodes@[m] && node_key(out@[j].target)
                                == node_key(c.last()) && out@[j].path@.len() <= c.len() by {
                            let pre = sv.subrange(0, i + 1);
                            let t = choose|t: int| 0 <= t < pre.len() && #[trigger] pre[t] == node_key(self.nodes@[m]);
                            if t == i {
                                if m != n {
                                    if m < n {
                                        assert(node_key(self.nodes@[m]) != node_key(self.nodes@[n as int]));
                                    } else {
                                        assert(node_key(self.nodes@[n as int]) != node_key(self.nodes@[m]));
                                    }
                                }
                                let j = choose|j: int| 0 <= j < fv.len() && node_key((#[trigger] fv[j]).target) == node_key(c.last()) && fv[j].path@.len() <= c.len();
                                assert(out@[before.len() + j] == fv[j]);
                            } else {
                                assert(sv.subrange(0, i as int)[t] == node_key(self.nodes@[m]));
                                let j = choose|j: int| 0 <= j < before.len() && (#[trigger] before[j]).source == self.nodes@[m] && node_key(before[j].target) == node_key(c.last()) && before[j].path@.len() <= c.len();
                                assert(out@[j] == before[j]);
                            }
                        }
                    }
                },
                None => {
                    proof {
                        assert forall|m: int, e: int|
                            0 <= m < self.nodes@.len() && sv.subrange(0, i + 1).contains(node_key(#[trigger] self.nodes@[m]))
                                && 0 <= e < self.edges@.len() && node_key((#[trigger] self.edges@[e]).to) == node_key(
                                self.nodes@[m],
                            ) && node_key(self.edges@[e].from) != node_key(self.nodes@[m]) implies exists|j: int|
                            0 <= j < out@.len() && (#[trigger] out@[j]).source == self.nodes@[m] && node_key(out@[j].target)
                                == node_key(self.edges@[e].from) by {
                            let pre = sv.subrange(0, i + 1);
                            let t = choose|t: int| 0 <= t < pre.len() && #[trigger] pre[t] == node_key(self.nodes@[m]);
                            if t == i {
                                assert(sv[i as int] == self.vulnerability_sources@[i as int]@);
                            } else {
                                assert(sv.subrange(0, i as int)[t] == node_key(self.nodes@[m]));
                            }
                        }
                    }
                    proof {
                        assert forall|m: int, c: Seq<PackageVersion>|
                            0 <= m < self.nodes@.len() && sv.subrange(0, i + 1).contains(node_key(self.nodes@[m]))
                                && #[trigger] is_version_chain(self.edges@, self.nodes@[m], c) && node_key(c.last()) != node_key(self.nodes@[m])
                                implies exists|j: int|
                            0 <= j < out@.len() && (#[trigger] out@[j]).source == self.nodes@[m] && node_key(out@[j].target)
                                == node_key(c.last()) && out@[j].path@.len() <= c.len() by {
                            let pre = sv.subrange(0, i + 1);
                            let t = choose|t: int| 0 <= t < pre.len() && #[trigger] pre[t] == node_key(self.nodes@[m]);
                            if t == i {
                                assert(sv[i as int] == self.vulnerability_sources@[i as int]@);
                            } else {
                                assert(sv.subrange(0, i as int)[t] == node_key(self.nodes@[m]));
                            }
                        }
                    }
                },
            }
            i = i + 1;
        }
        assert(sv.subrange(0, sv.len() as int) =~= sv);
        out
    }
}

} // verus!
