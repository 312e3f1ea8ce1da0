//! The dependency graph that the statistics are drawn from: packages, the
//! edges between them, and the packages that call a vulnerable function.
use crate::paths::{join, join_path};
use crate::text::text_eq;
use crate::version::{chars_cmp, lemma_chars_antisym, lemma_chars_trans};
use std::cmp::Ordering;
use vstd::prelude::*;

verus! {

/// A package at a version.
#[derive(Debug, Clone, PartialEq, Eq, Hash)]
pub struct PackageId {
    pub name: String,
    pub version: String,
}

/// The kind of a dependency as `cargo metadata` writes it: `dev`, `build`,
/// or none for a normal one.
pub fn dependency_kind(kind: Option<&str>) -> (r: DependencyType)
    ensures
        kind.is_some() && kind.unwrap()@ == "dev"@ ==> r == DependencyType::Dev,
        kind.is_some() && kind.unwrap()@ == "build"@ ==> r == DependencyType::Build,
        !(kind.is_some() && (kind.unwrap()@ == "dev"@ || kind.unwrap()@ == "build"@)) ==> r == DependencyType::Normal,
{
    proof {
        reveal_strlit("dev");
        reveal_strlit("build");
        assert("dev"@.len() != "build"@.len());
    }
    match kind {
        Some(k) => if text_eq(k, "dev") {
            DependencyType::Dev
        } else if text_eq(k, "build") {
            DependencyType::Build
        } else {
            DependencyType::Normal
        },
        None => DependencyType::Normal,
    }
}

/// `name:version`, the key of a package in the graph.
pub open spec fn package_key(name: Seq<char>, version: Seq<char>) -> Seq<char> {
    name + ":"@ + version
}

impl PackageId {
    pub fn key(&self) -> (r: String)
        ensures
            r@ == package_key(self.name@, self.version@),
    {
        let mut s = self.name.clone();
        s.append(":");
        s.append(self.version.as_str());
        s
    }
}

#[derive(Debug, Clone, Copy, PartialEq, Eq, Structural)]
pub enum DependencyType {
    Normal,
    Dev,
    Build,
    Optional,
}

/// `from` depends on `to` with the given requirement.
#[derive(Debug, Clone)]
pub struct DependencyEdge {
    pub from: PackageId,
    pub to: PackageId,
    pub dependency_type: DependencyType,
    pub version_requirement: String,
}

#[derive(Debug, Clone)]
pub struct PackageMetadata {
    pub id: PackageId,
    pub categories: Vec<String>,
    pub downloads: Option<u64>,
    pub is_vulnerability_source: bool,
    pub vulnerability_functions: Vec<String>,
    pub ecosystem_domain: String,
}

/// Packages (one per key), the edges between them, and the keys of the
/// packages that call a vulnerable function.
pub struct DependencyGraph {
    pub packages: Vec<PackageMetadata>,
    pub dependencies: Vec<DependencyEdge>,
    pub vulnerability_sources: Vec<String>,
}

/// The domain a registry category belongs to, if it is one of the known ones.
pub open spec fn domain_of(c: Seq<char>) -> Option<Seq<char>> {
    if c == "web-programming"@ || c == "web"@ || c == "http"@ {
        Some("web"@)
    } else if c == "command-line-utilities"@ || c == "cli"@ {
        Some("cli"@)
    } else if c == "cryptography"@ || c == "crypto"@ {
        Some("crypto"@)
    } else if c == "network-programming"@ || c == "network"@ {
        Some("network"@)
    } else if c == "database"@ || c == "database-implementations"@ {
        Some("database"@)
    } else if c == "game-development"@ || c == "games"@ {
        Some("games"@)
    } else if c == "gui"@ || c == "graphics"@ {
        Some("gui"@)
    } else if c == "science"@ || c == "mathematics"@ {
        Some("science"@)
    } else {
        None
    }
}

/// The domain of the first category that has one; `other` where none has.
pub open spec fn ecosystem_domain(categories: Seq<String>) -> Seq<char>
    decreases categories.len(),
{
    if categories.len() == 0 {
        "other"@
    } else {
        match domain_of(categories[0]@) {
            Some(d) => d,
            None => ecosystem_domain(categories.drop_first()),
        }
    }
}

fn domain_of_category(c: &str) -> (r: Option<String>)
    ensures
        match r {
            Some(s) => domain_of(c@) == Some(s@),
            None => domain_of(c@).is_none(),
        },
{
    if text_eq(c, "web-programming") || text_eq(c, "web") || text_eq(c, "http") {
        Some("web".to_owned())
    } else if text_eq(c, "command-line-utilities") || text_eq(c, "cli") {
        Some("cli".to_owned())
    } else if text_eq(c, "cryptography") || text_eq(c, "crypto") {
        Some("crypto".to_owned())
    } else if text_eq(c, "network-programming") || text_eq(c, "network") {
        Some("network".to_owned())
    } else if text_eq(c, "database") || text_eq(c, "database-implementations") {
        Some("database".to_owned())
    } else if text_eq(c, "game-development") || text_eq(c, "games") {
        Some("games".to_owned())
    } else if text_eq(c, "gui") || text_eq(c, "graphics") {
        Some("gui".to_owned())
    } else if text_eq(c, "science") || text_eq(c, "mathematics") {
        Some("science".to_owned())
    } else {
        None
    }
}

/// The file name of a per-symbol result, `callers-<symbol>.json`, gives the
/// symbol.
pub open spec fn function_of_file(file_name: Seq<char>) -> Option<Seq<char>> {
    if file_name.len() >= 13 && file_name.subrange(0, 8) == "callers-"@ && file_name.subrange(
        file_name.len() - 5,
        file_name.len() as int,
    ) == ".json"@ {
        Some(file_name.subrange(8, file_name.len() - 5))
    } else {
        None
    }
}

/// The symbol of a per-symbol result file, if the name has that form.
pub fn extract_function_name(file_name: &str) -> (r: Option<String>)
    ensures
        match r {
            Some(s) => function_of_file(file_name@) == Some(s@),
            None => function_of_file(file_name@).is_none(),
        },
{
    let n = file_name.unicode_len();
    if n < 13 {
        return None;
    }
    let head = file_name.substring_char(0, 8);
    let tail = file_name.substring_char(n - 5, n);
    if text_eq(head, "callers-") && text_eq(tail, ".json") {
        Some(file_name.substring_char(8, n - 5).to_owned())
    } else {
        None
    }
}

impl DependencyGraph {
    pub fn new() -> (r: Self)
        ensures
            r.packages@.len() == 0,
            r.dependencies@.len() == 0,
            r.vulnerability_sources@.len() == 0,
    {
        DependencyGraph { packages: Vec::new(), dependencies: Vec::new(), vulnerability_sources: Vec::new() }
    }

    /// The domain of a package from its registry categories.
    pub fn classify_ecosystem_domain(&self, categories: &Vec<String>) -> (r: String)
        ensures
            r@ == ecosystem_domain(categories@),
    {
        let mut i: usize = 0;
        assert(categories@.subrange(0, categories.len() as int) =~= categories@);
        while i < categories.len()
            invariant
                0 <= i <= categories.len(),
                ecosystem_domain(categories@) == ecosystem_domain(categories@.subrange(i as int, categories.len() as int)),
            decreases categories.len() - i,
        {
            let ghost rest = categories@.subrange(i as int, categories.len() as int);
            assert(rest.drop_first() =~= categories@.subrange(i + 1, categories.len() as int));
            match domain_of_category(categories[i].as_str()) {
                Some(d) => return d,
                None => {},
            }
            i = i + 1;
        }
        "other".to_owned()
    }

    /// `base/name/version`: where a package's working tree is looked for.
    pub fn get_package_working_dir(&self, base: &str, package_id: &PackageId) -> (r: String)
        ensures
            r@ == join(join(base@, package_id.name@), package_id.version@),
    {
        let dir = join_path(base, package_id.name.as_str());
        join_path(dir.as_str(), package_id.version.as_str())
    }
}

/// A path along which a vulnerability travels from `source` to `target`.
#[derive(Debug, Clone)]
pub struct PropagationPath {
    pub id: String,
    pub source: PackageId,
    pub target: PackageId,
    pub path: Vec<PackageId>,
    pub total_depth: usize,
    pub vulnerability_functions: Vec<String>,
}

pub open spec fn id_key(p: PackageId) -> Seq<char> {
    package_key(p.name@, p.version@)
}

/// Some package of the graph has the key.
pub open spec fn is_package(packages: Seq<PackageMetadata>, key: Seq<char>) -> bool {
    exists|i: int| 0 <= i < packages.len() && id_key((#[trigger] packages[i]).id) == key
}

/// Some edge says that the package keyed `from` depends on the one keyed `to`.
pub open spec fn depends_on(deps: Seq<DependencyEdge>, to: Seq<char>, from: Seq<char>) -> bool {
    exists|d: int| 0 <= d < deps.len() && id_key((#[trigger] deps[d]).to) == to && id_key(deps[d].from) == from
}

/// `path` starts at a package keyed like `source` and each next step is a
/// package of the graph that depends on the previous one.
pub open spec fn is_key_chain(
    packages: Seq<PackageMetadata>,
    deps: Seq<DependencyEdge>,
    source: Seq<char>,
    path: Seq<PackageId>,
) -> bool {
    &&& path.len() >= 1
    &&& id_key(path[0]) == source
    &&& forall|k: int|
        0 <= k < path.len() - 1 ==> depends_on(deps, id_key(#[trigger] path[k]), id_key(path[k + 1])) && is_package(
            packages,
            id_key(path[k + 1]),
        )
}

pub fn copy_id(p: &PackageId) -> (r: PackageId)
    ensures
        r == *p,
{
    PackageId { name: p.name.clone(), version: p.version.clone() }
}

fn copy_ids(ids: &Vec<PackageId>) -> (r: Vec<PackageId>)
    ensures
        r@ == ids@,
{
    let mut out: Vec<PackageId> = Vec::new();
    let mut i: usize = 0;
    while i < ids.len()
        invariant
            0 <= i <= ids.len(),
            out@ == ids@.subrange(0, i as int),
        decreases ids.len() - i,
    {
        out.push(copy_id(&ids[i]));
        assert(out@ =~= ids@.subrange(0, i + 1));
        i = i + 1;
    }
    assert(ids@.subrange(0, ids.len() as int) =~= ids@);
    out
}

fn seen(visited: &Vec<String>, key: &String) -> (r: bool)
    ensures
        r == visited@.map_values(|s: String| s@).contains(key@),
{
    let ghost vv = visited@.map_values(|s: String| s@);
    let mut i: usize = 0;
    while i < visited.len()
        invariant
            0 <= i <= visited@.len(),
            vv == visited@.map_values(|s: String| s@),
            forall|k: int| 0 <= k < i ==> vv[k] != key@,
        decreases visited.len() - i,
    {
        if text_eq(visited[i].as_str(), key.as_str()) {
            assert(vv[i as int] == key@);
            return true;
        }
        i = i + 1;
    }
    false
}

proof fn lemma_contains_push_key(s: Seq<Seq<char>>, x: Seq<char>, y: Seq<char>)
    requires
        s.contains(y),
    ensures
        s.push(x).contains(y),
{
    let i = choose|i: int| 0 <= i < s.len() && s[i] == y;
    assert(s.push(x)[i] == y);
}

/// The number of edges whose dependent's key is not among `visited`.
pub open spec fn pending_edges(deps: Seq<DependencyEdge>, visited: Seq<Seq<char>>) -> nat
    decreases deps.len(),
{
    if deps.len() == 0 {
        0
    } else {
        pending_edges(deps.drop_last(), visited) + if visited.contains(id_key(deps.last().from)) {
            0nat
        } else {
            1nat
        }
    }
}

proof fn lemma_unreached_shrinks(deps: Seq<DependencyEdge>, visited: Seq<Seq<char>>, key: Seq<char>)
    ensures
        pending_edges(deps, visited.push(key)) <= pending_edges(deps, visited),
        !visited.contains(key) && (exists|d: int| 0 <= d < deps.len() && id_key(#[trigger] deps[d].from) == key)
            ==> pending_edges(deps, visited.push(key)) < pending_edges(deps, visited),
    decreases deps.len(),
{
    if deps.len() > 0 {
        lemma_unreached_shrinks(deps.drop_last(), visited, key);
        let pushed = visited.push(key);
        if visited.contains(id_key(deps.last().from)) {
            lemma_contains_push_key(visited, key, id_key(deps.last().from));
        }
        if !visited.contains(key) && (exists|d: int| 0 <= d < deps.len() && id_key(#[trigger] deps[d].from) == key) {
            let d = choose|d: int| 0 <= d < deps.len() && id_key(#[trigger] deps[d].from) == key;
            if d == deps.len() - 1 {
                assert(pushed[visited.len() as int] == key);
            } else {
                assert(deps.drop_last()[d] == deps[d]);
            }
        }
    }
}

/// A breadth-first walk from one package: the keys seen, and the queue of
/// packages reached with the path that reached each.
struct Walk {
    visited: Vec<String>,
    queue: Vec<(PackageId, Vec<PackageId>)>,
}

impl Walk {
    spec fn keys(&self) -> Seq<Seq<char>> {
        self.visited@.map_values(|s: String| s@)
    }

    #[verifier::opaque]
    spec fn inv(&self, packages: Seq<PackageMetadata>, deps: Seq<DependencyEdge>, source: Seq<char>) -> bool {
        &&& self.queue@.len() >= 1
        &&& self.visited@.len() == self.queue@.len()
        &&& self.keys().no_duplicates()
        &&& forall|q: int| 0 <= q < self.queue@.len() ==> (#[trigger] self.visited@[q])@ == id_key(self.queue@[q].0)
        &&& forall|q: int|
            0 <= q < self.queue@.len() ==> is_key_chain(packages, deps, source, (#[trigger] self.queue@[q]).1@)
                && self.queue@[q].1@.last() == self.queue@[q].0 && (q == 0 <==> self.queue@[q].1@.len() == 1)
    }

    fn discover(
        &mut self,
        Ghost(packages): Ghost<Seq<PackageMetadata>>,
        Ghost(deps): Ghost<Seq<DependencyEdge>>,
        Ghost(source): Ghost<Seq<char>>,
        path: &Vec<PackageId>,
        next: &PackageId,
        next_key: &String,
    )
        requires
            old(self).inv(packages, deps, source),
            next_key@ == id_key(*next),
            !old(self).keys().contains(next_key@),
            is_key_chain(packages, deps, source, path@),
            depends_on(deps, id_key(path@.last()), next_key@),
            is_package(packages, next_key@),
            layered(old(self).queue@),
            old(self).queue@.len() >= 1 ==> old(self).queue@.last().1@.len() <= path@.len() + 1,
        ensures
            final(self).inv(packages, deps, source),
            final(self).keys() == old(self).keys().push(next_key@),
            final(self).queue@.len() == old(self).queue@.len() + 1,
            forall|q: int| 0 <= q < old(self).queue@.len() ==> final(self).queue@[q] == old(self).queue@[q],
            final(self).queue@.last().0 == *next,
            final(self).queue@.last().1@.len() == path@.len() + 1,
            layered(final(self).queue@),
    {
        reveal(Walk::inv);
        let mut new_path = copy_ids(path);
        new_path.push(copy_id(next));
        assert(is_key_chain(packages, deps, source, new_path@)) by {
            assert forall|k: int| 0 <= k < new_path@.len() - 1 implies depends_on(
                deps,
                id_key(#[trigger] new_path@[k]),
                id_key(new_path@[k + 1]),
            ) && is_package(packages, id_key(new_path@[k + 1])) by {
                if k < path@.len() - 1 {
                    assert(new_path@[k] == path@[k] && new_path@[k + 1] == path@[k + 1]);
                } else {
                    assert(new_path@[k] == path@.last());
                }
            }
        }
        let ghost old_keys = self.keys();
        let ghost old_queue = self.queue@;
        self.visited.push(next_key.clone());
        self.queue.push((copy_id(next), new_path));
        assert(self.keys() =~= old_keys.push(next_key@));
        assert forall|q: int| 0 <= q < self.queue@.len() implies (#[trigger] self.visited@[q])@ == id_key(
            self.queue@[q].0,
        ) by {
            if q < old_queue.len() {
                assert(self.queue@[q] == old_queue[q]);
            }
        }
        assert forall|q: int| 0 <= q < self.queue@.len() implies is_key_chain(
            packages,
            deps,
            source,
            (#[trigger] self.queue@[q]).1@,
        ) && self.queue@[q].1@.last() == self.queue@[q].0 && (q == 0 <==> self.queue@[q].1@.len() == 1) by {
            if q < old_queue.len() {
                assert(self.queue@[q] == old_queue[q]);
            }
        }
        assert(layered(self.queue@)) by {
            reveal(layered);
            assert forall|a: int, b: int| 0 <= a < b < self.queue@.len() implies (#[trigger] self.queue@[a]).1@.len()
                <= (#[trigger] self.queue@[b]).1@.len() by {
                assert(self.queue@[a] == old_queue[a]);
                if b < old_queue.len() {
                    assert(self.queue@[b] == old_queue[b]);
                } else {
                    assert(old_queue[a].1@.len() <= old_queue.last().1@.len()) by {
                        if a < old_queue.len() - 1 {
                        }
                    }
                }
            }
        }
    }
}

/// The paths in the queue never get shorter.
#[verifier::opaque]
spec fn layered(queue: Seq<(PackageId, Vec<PackageId>)>) -> bool {
    forall|a: int, b: int|
        0 <= a < b < queue.len() ==> (#[trigger] queue[a]).1@.len() <= (#[trigger] queue[b]).1@.len()
}

/// Every dependent of the first `head` queued packages is queued with a path
/// at most one step longer than theirs.
#[verifier::opaque]
spec fn reached_upto(
    packages: Seq<PackageMetadata>,
    deps: Seq<DependencyEdge>,
    queue: Seq<(PackageId, Vec<PackageId>)>,
    head: int,
) -> bool {
    forall|h: int, d: int|
        0 <= h < head && 0 <= d < deps.len() && id_key((#[trigger] deps[d]).to) == id_key((#[trigger] queue[h]).0)
            && is_package(packages, id_key(deps[d].from)) ==> exists|j: int|
            0 <= j < queue.len() && id_key((#[trigger] queue[j]).0) == id_key(deps[d].from) && queue[j].1@.len()
                <= queue[h].1@.len() + 1
}

/// Every dependent among the first `e` edges into `current`, whose path is
/// `len` long, is queued with a path at most `len + 1` long.
#[verifier::opaque]
spec fn reached_edges(
    packages: Seq<PackageMetadata>,
    deps: Seq<DependencyEdge>,
    queue: Seq<(PackageId, Vec<PackageId>)>,
    len: int,
    current: PackageId,
    e: int,
) -> bool {
    forall|d: int|
        0 <= d < e && id_key((#[trigger] deps[d]).to) == id_key(current) && is_package(packages, id_key(deps[d].from))
            ==> exists|j: int|
            0 <= j < queue.len() && id_key((#[trigger] queue[j]).0) == id_key(deps[d].from) && queue[j].1@.len() <= len + 1
}

proof fn lemma_reached_grows(
    packages: Seq<PackageMetadata>,
    deps: Seq<DependencyEdge>,
    queue0: Seq<(PackageId, Vec<PackageId>)>,
    queue1: Seq<(PackageId, Vec<PackageId>)>,
    len: int,
    current: PackageId,
    head: int,
    e: int,
)
    requires
        reached_upto(packages, deps, queue0, head),
        reached_edges(packages, deps, queue0, len, current, e),
        head <= queue0.len() <= queue1.len(),
        forall|q: int| 0 <= q < queue0.len() ==> queue1[q] == queue0[q],
    ensures
        reached_upto(packages, deps, queue1, head),
        reached_edges(packages, deps, queue1, len, current, e),
{
    reveal(reached_upto);
    reveal(reached_edges);
    assert forall|h: int, d: int|
        0 <= h < head && 0 <= d < deps.len() && id_key((#[trigger] deps[d]).to) == id_key((#[trigger] queue1[h]).0)
            && is_package(packages, id_key(deps[d].from)) implies exists|j: int|
        0 <= j < queue1.len() && id_key((#[trigger] queue1[j]).0) == id_key(deps[d].from) && queue1[j].1@.len()
            <= queue1[h].1@.len() + 1 by {
        assert(queue1[h] == queue0[h]);
        let j = choose|j: int|
            0 <= j < queue0.len() && id_key((#[trigger] queue0[j]).0) == id_key(deps[d].from) && queue0[j].1@.len()
                <= queue0[h].1@.len() + 1;
        assert(queue1[j] == queue0[j]);
    }
    assert forall|d: int|
        0 <= d < e && id_key((#[trigger] deps[d]).to) == id_key(current) && is_package(packages, id_key(deps[d].from))
            implies exists|j: int|
        0 <= j < queue1.len() && id_key((#[trigger] queue1[j]).0) == id_key(deps[d].from) && queue1[j].1@.len() <= len
            + 1 by {
        let j = choose|j: int|
            0 <= j < queue0.len() && id_key((#[trigger] queue0[j]).0) == id_key(deps[d].from) && queue0[j].1@.len()
                <= len + 1;
        assert(queue1[j] == queue0[j]);
    }
}

proof fn lemma_reached_step(
    packages: Seq<PackageMetadata>,
    deps: Seq<DependencyEdge>,
    queue: Seq<(PackageId, Vec<PackageId>)>,
    len: int,
    current: PackageId,
    e: int,
    j: int,
)
    requires
        reached_edges(packages, deps, queue, len, current, e),
        0 <= e < deps.len(),
        id_key(deps[e].to) == id_key(current) && is_package(packages, id_key(deps[e].from)) ==> 0 <= j < queue.len()
            && id_key(queue[j].0) == id_key(deps[e].from) && queue[j].1@.len() <= len + 1,
    ensures
        reached_edges(packages, deps, queue, len, current, e + 1),
{
    reveal(reached_edges);
    assert forall|d: int|
        0 <= d < e + 1 && id_key((#[trigger] deps[d]).to) == id_key(current) && is_package(packages, id_key(deps[d].from))
            implies exists|k: int|
        0 <= k < queue.len() && id_key((#[trigger] queue[k]).0) == id_key(deps[d].from) && queue[k].1@.len() <= len + 1 by {
        if d == e {
            assert(id_key(queue[j].0) == id_key(deps[d].from));
        }
    }
}

proof fn lemma_reached_done(
    packages: Seq<PackageMetadata>,
    deps: Seq<DependencyEdge>,
    queue: Seq<(PackageId, Vec<PackageId>)>,
    head: int,
)
    requires
        reached_upto(packages, deps, queue, head),
        0 <= head < queue.len(),
        reached_edges(packages, deps, queue, queue[head].1@.len() as int, queue[head].0, deps.len() as int),
    ensures
        reached_upto(packages, deps, queue, head + 1),
{
    reveal(reached_upto);
    reveal(reached_edges);
    assert forall|h: int, d: int|
        0 <= h < head + 1 && 0 <= d < deps.len() && id_key((#[trigger] deps[d]).to) == id_key((#[trigger] queue[h]).0)
            && is_package(packages, id_key(deps[d].from)) implies exists|j: int|
        0 <= j < queue.len() && id_key((#[trigger] queue[j]).0) == id_key(deps[d].from) && queue[j].1@.len()
            <= queue[h].1@.len() + 1 by {
        if h == head {
        }
    }
}

proof fn lemma_layer_bound(queue: Seq<(PackageId, Vec<PackageId>)>, k: int)
    requires
        layered(queue),
        0 <= k < queue.len(),
    ensures
        queue[k].1@.len() <= queue.last().1@.len(),
{
    reveal(layered);
    if k < queue.len() - 1 {
        assert(queue[k].1@.len() <= queue[queue.len() - 1].1@.len());
    }
}

/// Once every queued package is processed, no chain from the source is
/// shorter than the path that reached the package it ends at.
proof fn lemma_shortest(
    packages: Seq<PackageMetadata>,
    deps: Seq<DependencyEdge>,
    source: Seq<char>,
    queue: Seq<(PackageId, Vec<PackageId>)>,
    c: Seq<PackageId>,
)
    requires
        reached_upto(packages, deps, queue, queue.len() as int),
        queue.len() >= 1,
        id_key(queue[0].0) == source,
        queue[0].1@.len() == 1,
        is_key_chain(packages, deps, source, c),
    ensures
        exists|j: int| 0 <= j < queue.len() && id_key((#[trigger] queue[j]).0) == id_key(c.last()) && queue[j].1@.len() <= c.len(),
    decreases c.len(),
{
    if c.len() == 1 {
        assert(id_key(queue[0].0) == id_key(c.last()));
    } else {
        let p = c.drop_last();
        assert(is_key_chain(packages, deps, source, p)) by {
            assert forall|k: int| 0 <= k < p.len() - 1 implies depends_on(deps, id_key(#[trigger] p[k]), id_key(p[k + 1]))
                && is_package(packages, id_key(p[k + 1])) by {
                assert(p[k] == c[k] && p[k + 1] == c[k + 1]);
                assert(depends_on(deps, id_key(c[k]), id_key(c[k + 1])));
            }
        }
        lemma_shortest(packages, deps, source, queue, p);
        let i = choose|i: int| 0 <= i < queue.len() && id_key((#[trigger] queue[i]).0) == id_key(p.last()) && queue[i].1@.len() <= p.len();
        let n = c.len() - 2;
        assert(depends_on(deps, id_key(c[n]), id_key(c[n + 1])));
        assert(is_package(packages, id_key(c[n + 1])));
        let d = choose|d: int| 0 <= d < deps.len() && id_key((#[trigger] deps[d]).to) == id_key(c[n]) && id_key(deps[d].from)
            == id_key(c[n + 1]);
        reveal(reached_upto);
        assert(id_key(deps[d].to) == id_key(queue[i].0));
        let j = choose|j: int|
            0 <= j < queue.len() && id_key((#[trigger] queue[j]).0) == id_key(deps[d].from) && queue[j].1@.len()
                <= queue[i].1@.len() + 1;
        assert(id_key(queue[j].0) == id_key(c.last()));
    }
}

#[verifier::opaque]
spec fn walked_upto(
    packages: Seq<PackageMetadata>,
    deps: Seq<DependencyEdge>,
    queue: Seq<(PackageId, Vec<PackageId>)>,
    keys: Seq<Seq<char>>,
    head: int,
) -> bool {
    forall|h: int, d: int|
        0 <= h < head && 0 <= d < deps.len() && id_key((#[trigger] deps[d]).to) == id_key((#[trigger] queue[h]).0)
            && is_package(packages, id_key(deps[d].from)) ==> keys.contains(id_key(deps[d].from))
}

#[verifier::opaque]
spec fn walked_edges(
    packages: Seq<PackageMetadata>,
    deps: Seq<DependencyEdge>,
    current: PackageId,
    keys: Seq<Seq<char>>,
    e: int,
) -> bool {
    forall|d: int|
        0 <= d < e && id_key((#[trigger] deps[d]).to) == id_key(current) && is_package(packages, id_key(deps[d].from))
            ==> keys.contains(id_key(deps[d].from))
}

proof fn lemma_walk_grows(
    packages: Seq<PackageMetadata>,
    deps: Seq<DependencyEdge>,
    queue0: Seq<(PackageId, Vec<PackageId>)>,
    queue1: Seq<(PackageId, Vec<PackageId>)>,
    keys0: Seq<Seq<char>>,
    x: Seq<char>,
    current: PackageId,
    head: int,
    e: int,
)
    requires
        walked_upto(packages, deps, queue0, keys0, head),
        walked_edges(packages, deps, current, keys0, e),
        head <= queue0.len() <= queue1.len(),
        forall|q: int| 0 <= q < queue0.len() ==> queue1[q] == queue0[q],
    ensures
        walked_upto(packages, deps, queue1, keys0.push(x), head),
        walked_edges(packages, deps, current, keys0.push(x), e),
{
    reveal(walked_upto);
    reveal(walked_edges);
    assert forall|h: int, d: int|
        0 <= h < head && 0 <= d < deps.len() && id_key((#[trigger] deps[d]).to) == id_key((#[trigger] queue1[h]).0)
            && is_package(packages, id_key(deps[d].from)) implies keys0.push(x).contains(id_key(deps[d].from)) by {
        assert(queue1[h] == queue0[h]);
        lemma_contains_push_key(keys0, x, id_key(deps[d].from));
    }
    assert forall|d: int|
        0 <= d < e && id_key((#[trigger] deps[d]).to) == id_key(current) && is_package(packages, id_key(deps[d].from))
            implies keys0.push(x).contains(id_key(deps[d].from)) by {
        lemma_contains_push_key(keys0, x, id_key(deps[d].from));
    }
}

proof fn lemma_walk_step(
    packages: Seq<PackageMetadata>,
    deps: Seq<DependencyEdge>,
    current: PackageId,
    keys: Seq<Seq<char>>,
    e: int,
)
    requires
        walked_edges(packages, deps, current, keys, e),
        0 <= e < deps.len(),
        id_key(deps[e].to) == id_key(current) && is_package(packages, id_key(deps[e].from)) ==> keys.contains(
            id_key(deps[e].from),
        ),
    ensures
        walked_edges(packages, deps, current, keys, e + 1),
{
    reveal(walked_edges);
}

proof fn lemma_walk_done(
    packages: Seq<PackageMetadata>,
    deps: Seq<DependencyEdge>,
    queue: Seq<(PackageId, Vec<PackageId>)>,
    keys: Seq<Seq<char>>,
    head: int,
)
    requires
        walked_upto(packages, deps, queue, keys, head),
        0 <= head < queue.len(),
        walked_edges(packages, deps, queue[head].0, keys, deps.len() as int),
    ensures
        walked_upto(packages, deps, queue, keys, head + 1),
{
    reveal(walked_upto);
    reveal(walked_edges);
    assert forall|h: int, d: int|
        0 <= h < head + 1 && 0 <= d < deps.len() && id_key((#[trigger] deps[d]).to) == id_key((#[trigger] queue[h]).0)
            && is_package(packages, id_key(deps[d].from)) implies keys.contains(id_key(deps[d].from)) by {
        if h == head {
        }
    }
}

impl DependencyGraph {
    fn package_position(&self, key: &String) -> (r: Option<usize>)
        ensures
            match r {
                Some(i) => i < self.packages@.len() && id_key(self.packages@[i as int].id) == key@,
                None => !is_package(self.packages@, key@),
            },
    {
        let mut i: usize = 0;
        while i < self.packages.len()
            invariant
                0 <= i <= self.packages@.len(),
                forall|k: int| 0 <= k < i ==> id_key((#[trigger] self.packages@[k]).id) != key@,
            decreases self.packages.len() - i,
        {
            let k = self.packages[i].id.key();
            if text_eq(k.as_str(), key.as_str()) {
                return Some(i);
            }
            i = i + 1;
        }
        None
    }

    /// Every package that reaches `source` through the graph's reverse
    /// edges, breadth first, with the path that reached it; the first entry
    /// is `source` itself.
    pub fn reach_from(&self, source: &PackageId) -> (r: Vec<(PackageId, Vec<PackageId>)>)
        ensures
            r@.len() >= 1,
            r@[0].0 == *source,
            forall|q: int|
                0 <= q < r@.len() ==> is_key_chain(self.packages@, self.dependencies@, id_key(*source), (#[trigger] r@[q]).1@)
                    && r@[q].1@.last() == r@[q].0 && (q == 0 <==> r@[q].1@.len() == 1),
            forall|a: int, b: int| 0 <= a < b < r@.len() ==> id_key((#[trigger] r@[a]).0) != id_key((#[trigger] r@[b]).0),
            forall|q: int, d: int|
                0 <= q < r@.len() && 0 <= d < self.dependencies@.len() && id_key((#[trigger] self.dependencies@[d]).to)
                    == id_key((#[trigger] r@[q]).0) && is_package(self.packages@, id_key(self.dependencies@[d].from))
                    ==> exists|j: int| 0 <= j < r@.len() && id_key((#[trigger] r@[j]).0) == id_key(self.dependencies@[d].from),
            forall|c: Seq<PackageId>|
                is_key_chain(self.packages@, self.dependencies@, id_key(*source), c) ==> exists|j: int|
                    0 <= j < r@.len() && id_key((#[trigger] r@[j]).0) == id_key(c.last()) && r@[j].1@.len() <= c.len(),
    {
        let ghost packages = self.packages@;
        let ghost deps = self.dependencies@;
        let ghost skey = id_key(*source);
        let mut start: Vec<PackageId> = Vec::new();
        start.push(copy_id(source));
        let mut w = Walk { visited: Vec::new(), queue: Vec::new() };
        w.visited.push(source.key());
        w.queue.push((copy_id(source), start));
        assert(w.keys() =~= seq![skey]);
        assert(w.inv(packages, deps, skey)) by {
            reveal(Walk::inv);
        }
        assert(walked_upto(packages, deps, w.queue@, w.keys(), 0)) by {
            reveal(walked_upto);
        }
        assert(reached_upto(packages, deps, w.queue@, 0)) by {
            reveal(reached_upto);
        }
        assert(layered(w.queue@)) by {
            reveal(layered);
        }
        let mut head: usize = 0;
        while head < w.queue.len()
            invariant
                packages == self.packages@,
                deps == self.dependencies@,
                skey == id_key(*source),
                w.queue@[0].0 == *source,
                w.inv(packages, deps, skey),
                head <= w.queue@.len(),
                walked_upto(packages, deps, w.queue@, w.keys(), head as int),
                reached_upto(packages, deps, w.queue@, head as int),
                layered(w.queue@),
                w.queue@[0].1@.len() == 1,
                head < w.queue@.len() ==> w.queue@.last().1@.len() <= w.queue@[head as int].1@.len() + 1,
            decreases 2 * pending_edges(self.dependencies@, w.keys()) + w.queue@.len() - head,
        {
            let current = copy_id(&w.queue[head].0);
            let current_key = current.key();
            let current_path = copy_ids(&w.queue[head].1);
            let ghost measure0 = 2 * pending_edges(deps, w.keys()) + w.queue@.len();
            proof {
                reveal(Walk::inv);
            }
            assert(walked_edges(packages, deps, current, w.keys(), 0)) by {
                reveal(walked_edges);
            }
            let ghost clen = current_path@.len() as int;
            assert(reached_edges(packages, deps, w.queue@, clen, current, 0)) by {
                reveal(reached_edges);
            }
            let mut d: usize = 0;
            while d < self.dependencies.len()
                invariant
                    packages == self.packages@,
                    deps == self.dependencies@,
                    skey == id_key(*source),
                    w.queue@[0].0 == *source,
                    w.inv(packages, deps, skey),
                    head < w.queue@.len(),
                    current == w.queue@[head as int].0,
                    current_key@ == id_key(current),
                    is_key_chain(packages, deps, skey, current_path@),
                    current_path@.last() == current,
                    0 <= d <= deps.len(),
                    walked_upto(packages, deps, w.queue@, w.keys(), head as int),
                    walked_edges(packages, deps, current, w.keys(), d as int),
                    reached_upto(packages, deps, w.queue@, head as int),
                    reached_edges(packages, deps, w.queue@, clen, current, d as int),
                    layered(w.queue@),
                    w.queue@[0].1@.len() == 1,
                    clen == current_path@.len(),
                    current_path@ == w.queue@[head as int].1@,
                    w.queue@.last().1@.len() <= clen + 1,
                    2 * pending_edges(deps, w.keys()) + w.queue@.len() <= measure0,
                decreases self.dependencies.len() - d,
            {
                let to_key = self.dependencies[d].to.key();
                let ghost witness: int = 0;
                if text_eq(to_key.as_str(), current_key.as_str()) {
                    let from_key = self.dependencies[d].from.key();
                    if !seen(&w.visited, &from_key) {
                        match self.package_position(&from_key) {
                            Some(pi) => {
                                let ghost keys0 = w.keys();
                                let ghost queue0 = w.queue@;
                                proof {
                                    lemma_unreached_shrinks(deps, keys0, from_key@);
                                    assert(id_key(deps[d as int].from) == from_key@);
                                    assert(depends_on(deps, id_key(current_path@.last()), from_key@));
                                }
                                let next = copy_id(&self.packages[pi].id);
                                w.discover(Ghost(packages), Ghost(deps), Ghost(skey), &current_path, &next, &from_key);
                                proof {
                                    lemma_walk_grows(packages, deps, queue0, w.queue@, keys0, from_key@, current, head as int, d as int);
                                    lemma_reached_grows(packages, deps, queue0, w.queue@, clen, current, head as int, d as int);
                                    assert(w.keys()[keys0.len() as int] == from_key@);
                                    assert(w.queue@[0] == queue0[0]);
                                    assert(w.queue@[head as int] == queue0[head as int]);
                                    witness = queue0.len() as int;
                                }
                            },
                            None => {},
                        }
                    } else {
                        proof {
                            reveal(Walk::inv);
                            let k = choose|k: int| 0 <= k < w.keys().len() && w.keys()[k] == from_key@;
                            assert(w.keys()[k] == w.visited@[k]@);
                            lemma_layer_bound(w.queue@, k);
                            witness = k;
                        }
                    }
                }
                proof {
                    lemma_reached_step(packages, deps, w.queue@, clen, current, d as int, witness);
                }
                proof {
                    lemma_walk_step(packages, deps, current, w.keys(), d as int);
                }
                d = d + 1;
            }
            proof {
                lemma_walk_done(packages, deps, w.queue@, w.keys(), head as int);
                lemma_reached_done(packages, deps, w.queue@, head as int);
                if head + 1 < w.queue@.len() {
                    reveal(layered);
                    assert(w.queue@[head as int].1@.len() <= w.queue@[head + 1].1@.len());
                }
            }
            head = head + 1;
        }
        proof {
            reveal(Walk::inv);
            assert(w.queue@.len() >= 1);
            assert(id_key(w.queue@[0].0) == skey);
            assert forall|c: Seq<PackageId>| is_key_chain(packages, deps, skey, c) implies exists|j: int|
                0 <= j < w.queue@.len() && id_key((#[trigger] w.queue@[j]).0) == id_key(c.last()) && w.queue@[j].1@.len()
                    <= c.len() by {
                lemma_shortest(packages, deps, skey, w.queue@, c);
            }
            reveal(Walk::inv);
            reveal(walked_upto);
            let n = w.queue@.len();
            assert forall|a: int, b: int| 0 <= a < b < n implies id_key((#[trigger] w.queue@[a]).0) != id_key(
                (#[trigger] w.queue@[b]).0,
            ) by {
                assert(w.keys()[a] == w.visited@[a]@);
                assert(w.keys()[b] == w.visited@[b]@);
            }
            assert forall|q: int, d: int|
                0 <= q < n && 0 <= d < deps.len() && id_key((#[trigger] deps[d]).to) == id_key((#[trigger] w.queue@[q]).0)
                    && is_package(packages, id_key(deps[d].from)) implies exists|j: int|
                0 <= j < n && id_key((#[trigger] w.queue@[j]).0) == id_key(deps[d].from) by {
                let k = choose|k: int| 0 <= k < w.keys().len() && w.keys()[k] == id_key(deps[d].from);
                assert(w.keys()[k] == w.visited@[k]@);
            }
        }
        w.queue
    }

    /// The vulnerable functions recorded for the first package keyed like
    /// `package_id`; none where there is no such package.
    pub fn get_vulnerability_functions(&self, package_id: &PackageId) -> (r: Vec<String>)
        ensures
            !is_package(self.packages@, id_key(*package_id)) ==> r@.len() == 0,
            is_package(self.packages@, id_key(*package_id)) ==> exists|i: int|
                0 <= i < self.packages@.len() && id_key((#[trigger] self.packages@[i]).id) == id_key(*package_id)
                    && r@ == self.packages@[i].vulnerability_functions@,
    {
        match self.package_position(&package_id.key()) {
            Some(i) => {
                let fns = &self.packages[i].vulnerability_functions;
                let mut out: Vec<String> = Vec::new();
                let mut k: usize = 0;
                while k < fns.len()
                    invariant
                        0 <= k <= fns.len(),
                        out@ == fns@.subrange(0, k as int),
                    decreases fns.len() - k,
                {
                    out.push(fns[k].clone());
                    assert(out@ =~= fns@.subrange(0, k + 1));
                    k = k + 1;
                }
                assert(fns@.subrange(0, fns.len() as int) =~= fns@);
                out
            },
            None => Vec::new(),
        }
    }

    /// The path from `source` to `target` through the graph's reverse edges
    /// that a breadth-first walk finds, if it is at most `max_depth` steps long.
    fn bfs_propagation(&self, source: &PackageId, target: &PackageId, max_depth: usize) -> (r: Vec<PropagationPath>)
        ensures
            r@.len() <= 1,
            r@.len() == 1 ==> is_found_path(self.packages@, self.dependencies@, *source, *target, max_depth, r@[0]),
            r@.len() == 1 ==> no_shorter_chain(self.packages@, self.dependencies@, id_key(*source), id_key(*target), r@[0].path@.len() as int),
            r@.len() == 0 && id_key(*source) != id_key(*target) ==> no_shorter_chain(
                self.packages@,
                self.dependencies@,
                id_key(*source),
                id_key(*target),
                max_depth + 2,
            ),
    {
        let reach = self.reach_from(source);
        let target_key = target.key();
        let mut q: usize = 1;
        while q < reach.len()
            invariant
                1 <= q <= reach@.len(),
                target_key@ == id_key(*target),
                forall|j: int|
                    0 <= j < reach@.len() ==> is_key_chain(self.packages@, self.dependencies@, id_key(*source), (#[trigger] reach@[j]).1@)
                        && reach@[j].1@.last() == reach@[j].0 && (j == 0 <==> reach@[j].1@.len() == 1),
                reach@[0].0 == *source,
                forall|a: int, b: int| 0 <= a < b < reach@.len() ==> id_key((#[trigger] reach@[a]).0) != id_key((#[trigger] reach@[b]).0),
                forall|c: Seq<PackageId>|
                    is_key_chain(self.packages@, self.dependencies@, id_key(*source), c) ==> exists|j: int|
                        0 <= j < reach@.len() && id_key((#[trigger] reach@[j]).0) == id_key(c.last()) && reach@[j].1@.len() <= c.len(),
                forall|j: int| 1 <= j < q && id_key((#[trigger] reach@[j]).0) == id_key(*target) ==> reach@[j].1@.len() > max_depth + 1,
            decreases reach.len() - q,
        {
            let k = reach[q].0.key();
            if text_eq(k.as_str(), target_key.as_str()) && reach[q].1.len() - 1 <= max_depth {
                let mut id = source.key();
                id.append("->");
                id.append(target_key.as_str());
                let path = copy_ids(&reach[q].1);
                let found = PropagationPath {
                    id,
                    source: copy_id(source),
                    target: copy_id(target),
                    total_depth: path.len() - 1,
                    path,
                    vulnerability_functions: self.get_vulnerability_functions(source),
                };
                proof {
                    assert forall|c2: Seq<PackageId>|
                        #![trigger is_key_chain(self.packages@, self.dependencies@, id_key(*source), c2)]
                        is_key_chain(self.packages@, self.dependencies@, id_key(*source), c2) && id_key(c2.last()) == id_key(*target)
                            implies c2.len() >= found.path@.len() by {
                        let j = choose|j: int|
                            0 <= j < reach@.len() && id_key((#[trigger] reach@[j]).0) == id_key(c2.last()) && reach@[j].1@.len() <= c2.len();
                        if j != q {
                            if j < q {
                                assert(id_key(reach@[j].0) != id_key(reach@[q as int].0));
                            } else {
                                assert(id_key(reach@[q as int].0) != id_key(reach@[j].0));
                            }
                        }
                    }
                }
                let mut out: Vec<PropagationPath> = Vec::new();
                out.push(found);
                return out;
            }
            q = q + 1;
        }
        proof {
            assert forall|c2: Seq<PackageId>|
                #![trigger is_key_chain(self.packages@, self.dependencies@, id_key(*source), c2)]
                is_key_chain(self.packages@, self.dependencies@, id_key(*source), c2) && id_key(c2.last()) == id_key(*target)
                    && id_key(*source) != id_key(*target) implies c2.len() >= max_depth + 2 by {
                let j = choose|j: int|
                    0 <= j < reach@.len() && id_key((#[trigger] reach@[j]).0) == id_key(c2.last()) && reach@[j].1@.len() <= c2.len();
                if j == 0 {
                    assert(id_key(reach@[0].0) == id_key(*source));
                }
            }
        }
        Vec::new()
    }

    /// The paths from every vulnerability source of the graph to `target`
    /// that are at most `max_depth` steps long, source after source.
    pub fn find_propagation_paths(&self, target: &PackageId, max_depth: usize) -> (r: Vec<PropagationPath>)
        ensures
            forall|i: int|
                0 <= i < r@.len() ==> self.vulnerability_sources@.map_values(|s: String| s@).contains(id_key((#[trigger] r@[i]).source))
                    && is_package(self.packages@, id_key(r@[i].source))
                    && is_found_path(self.packages@, self.dependencies@, r@[i].source, *target, max_depth, r@[i]),
            forall|p: int|
                0 <= p < self.packages@.len() && self.vulnerability_sources@.map_values(|s: String| s@).contains(
                    id_key((#[trigger] self.packages@[p]).id),
                ) && id_key(self.packages@[p].id) != id_key(*target) && !no_shorter_chain(
                    self.packages@,
                    self.dependencies@,
                    id_key(self.packages@[p].id),
                    id_key(*target),
                    max_depth + 2,
                ) ==> exists|k: int| 0 <= k < r@.len() && id_key((#[trigger] r@[k]).source) == id_key(self.packages@[p].id),
    {
        let ghost sv = self.vulnerability_sources@.map_values(|s: String| s@);
        let mut out: Vec<PropagationPath> = Vec::new();
        let mut i: usize = 0;
        while i < self.vulnerability_sources.len()
            invariant
                0 <= i <= self.vulnerability_sources@.len(),
                sv == self.vulnerability_sources@.map_values(|s: String| s@),
                forall|k: int|
                    0 <= k < out@.len() ==> sv.contains(id_key((#[trigger] out@[k]).source)) && is_package(self.packages@, id_key(out@[k].source))
                        && is_found_path(self.packages@, self.dependencies@, out@[k].source, *target, max_depth, out@[k]),
                forall|p: int|
                    0 <= p < self.packages@.len() && sv.subrange(0, i as int).contains(id_key((#[trigger] self.packages@[p]).id))
                        && id_key(self.packages@[p].id) != id_key(*target) && !no_shorter_chain(
                        self.packages@,
                        self.dependencies@,
                        id_key(self.packages@[p].id),
                        id_key(*target),
                        max_depth + 2,
                    ) ==> exists|k: int| 0 <= k < out@.len() && id_key((#[trigger] out@[k]).source) == id_key(self.packages@[p].id),
            decreases self.vulnerability_sources.len() - i,
        {
            let ghost pre = sv.subrange(0, i as int);
            let ghost post = sv.subrange(0, i + 1);
            let ghost out0 = out@;
            match self.package_position(&self.vulnerability_sources[i]) {
                Some(pi) => {
                    let source = &self.packages[pi].id;
                    let ghost before = out@;
                    let mut found = self.bfs_propagation(source, target, max_depth);
                    let ghost fv = found@;
                    out.append(&mut found);
                    proof {
                        assert(sv[i as int] == id_key(*source));
                        assert forall|k: int| 0 <= k < out@.len() implies sv.contains(id_key((#[trigger] out@[k]).source))
                            && is_package(self.packages@, id_key(out@[k].source))
                            && is_found_path(self.packages@, self.dependencies@, out@[k].source, *target, max_depth, out@[k]) by {
                            if k >= before.len() {
                                assert(out@[k] == fv[k - before.len()]);
                            } else {
                                assert(out@[k] == before[k]);
                            }
                        }
                        assert forall|p: int|
                            0 <= p < self.packages@.len() && post.contains(id_key((#[trigger] self.packages@[p]).id))
                                && id_key(self.packages@[p].id) != id_key(*target) && !no_shorter_chain(
                                self.packages@,
                                self.dependencies@,
                                id_key(self.packages@[p].id),
                                id_key(*target),
                                max_depth + 2,
                            ) implies exists|k: int| 0 <= k < out@.len() && id_key((#[trigger] out@[k]).source) == id_key(self.packages@[p].id) by {
                            let t = choose|t: int| 0 <= t < post.len() && #[trigger] post[t] == id_key(self.packages@[p].id);
                            if t == i {
                                assert(id_key(self.packages@[p].id) == id_key(*source));
                                assert(fv.len() == 1);
                                assert(out@[before.len() as int] == fv[0]);
                            } else {
                                assert(pre[t] == id_key(self.packages@[p].id));
                                assert(pre.contains(id_key(self.packages@[p].id)));
                                let k = choose|k: int| 0 <= k < out0.len() && id_key((#[trigger] out0[k]).source) == id_key(self.packages@[p].id);
                                assert(out@[k] == out0[k]);
                            }
                        }
                    }
                },
                None => {
                    proof {
                        assert forall|p: int|
                            0 <= p < self.packages@.len() && post.contains(id_key((#[trigger] self.packages@[p]).id))
                                && id_key(self.packages@[p].id) != id_key(*target) && !no_shorter_chain(
                                self.packages@,
                                self.dependencies@,
                                id_key(self.packages@[p].id),
                                id_key(*target),
                                max_depth + 2,
                            ) implies exists|k: int| 0 <= k < out@.len() && id_key((#[trigger] out@[k]).source) == id_key(self.packages@[p].id) by {
                            let t = choose|t: int| 0 <= t < post.len() && #[trigger] post[t] == id_key(self.packages@[p].id);
                            if t == i {
                                assert(sv[i as int] == self.vulnerability_sources@[i as int]@);
                                assert(is_package(self.packages@, id_key(self.packages@[p].id)));
                            } else {
                                assert(pre[t] == id_key(self.packages@[p].id));
                                assert(pre.contains(id_key(self.packages@[p].id)));
                            }
                        }
                    }
                },
            }
            i = i + 1;
        }
        assert(sv.subrange(0, sv.len() as int) =~= sv);
        out
    }

    /// The number of steps from `from` to `to` along the graph's reverse
    /// edges that a breadth-first walk finds: 0 for the same package, the
    /// largest `usize` where `to` cannot be reached.
    #[verifier::rlimit(60)]
    fn calculate_depth(&self, from: &PackageId, to: &PackageId) -> (r: usize)
        ensures
            id_key(*from) == id_key(*to) ==> r == 0,
            id_key(*from) != id_key(*to) && r != usize::MAX ==> exists|c: Seq<PackageId>|
                is_key_chain(self.packages@, self.dependencies@, id_key(*from), c) && c.len() == r + 1 && id_key(c.last())
                    == id_key(*to),
            r != usize::MAX ==> no_shorter_chain(self.packages@, self.dependencies@, id_key(*from), id_key(*to), r + 1),
            r == usize::MAX ==> exists|keys: Seq<Seq<char>>|
                keys.contains(id_key(*from)) && !keys.contains(id_key(*to)) && closed_under_dependents(
                    self.packages@,
                    self.dependencies@,
                    keys,
                ),
    {
        let from_key = from.key();
        let to_key = to.key();
        if text_eq(from_key.as_str(), to_key.as_str()) {
            return 0;
        }
        assert(from_key@ != to_key@);
        let reach = self.reach_from(from);
        let mut q: usize = 1;
        while q < reach.len()
            invariant
                1 <= q <= reach@.len(),
                to_key@ == id_key(*to),
                from_key@ == id_key(*from),
                from_key@ != to_key@,
                reach@.len() >= 1,
                reach@[0].0 == *from,
                forall|j: int|
                    0 <= j < reach@.len() ==> is_key_chain(self.packages@, self.dependencies@, id_key(*from), (#[trigger] reach@[j]).1@)
                        && reach@[j].1@.last() == reach@[j].0 && (j == 0 <==> reach@[j].1@.len() == 1),
                forall|j: int, d: int|
                    0 <= j < reach@.len() && 0 <= d < self.dependencies@.len() && id_key((#[trigger] self.dependencies@[d]).to)
                        == id_key((#[trigger] reach@[j]).0) && is_package(self.packages@, id_key(self.dependencies@[d].from))
                        ==> exists|m: int| 0 <= m < reach@.len() && id_key((#[trigger] reach@[m]).0) == id_key(self.dependencies@[d].from),
                forall|j: int| 1 <= j < q ==> id_key((#[trigger] reach@[j]).0) != id_key(*to),
                forall|a: int, b: int| 0 <= a < b < reach@.len() ==> id_key((#[trigger] reach@[a]).0) != id_key((#[trigger] reach@[b]).0),
                forall|c: Seq<PackageId>|
                    is_key_chain(self.packages@, self.dependencies@, id_key(*from), c) ==> exists|j: int|
                        0 <= j < reach@.len() && id_key((#[trigger] reach@[j]).0) == id_key(c.last()) && reach@[j].1@.len() <= c.len(),
            decreases reach.len() - q,
        {
            let k = reach[q].0.key();
            if text_eq(k.as_str(), to_key.as_str()) {
                let depth = reach[q].1.len() - 1;
                proof {
                    let c = reach@[q as int].1@;
                    assert(is_key_chain(self.packages@, self.dependencies@, id_key(*from), c));
                    assert(c.len() == depth + 1);
                    assert forall|c2: Seq<PackageId>|
                        #![trigger is_key_chain(self.packages@, self.dependencies@, id_key(*from), c2)]
                        is_key_chain(self.packages@, self.dependencies@, id_key(*from), c2) && id_key(c2.last()) == id_key(*to)
                            implies c2.len() >= depth + 1 by {
                        let j = choose|j: int|
                            0 <= j < reach@.len() && id_key((#[trigger] reach@[j]).0) == id_key(c2.last()) && reach@[j].1@.len() <= c2.len();
                        if j != q {
                            if j < q {
                                assert(id_key(reach@[j].0) != id_key(reach@[q as int].0));
                            } else {
                                assert(id_key(reach@[q as int].0) != id_key(reach@[j].0));
                            }
                        }
                    }
                }
                return depth;
            }
            q = q + 1;
        }
        proof {
            let keys = reach@.map_values(|e: (PackageId, Vec<PackageId>)| id_key(e.0));
            assert(keys[0] == id_key(*from));
            assert forall|d: int|
                0 <= d < self.dependencies@.len() && keys.contains(id_key((#[trigger] self.dependencies@[d]).to)) && is_package(
                    self.packages@,
                    id_key(self.dependencies@[d].from),
                ) implies keys.contains(id_key(self.dependencies@[d].from)) by {
                let j = choose|j: int| 0 <= j < keys.len() && keys[j] == id_key(self.dependencies@[d].to);
                assert(id_key(self.dependencies@[d].to) == id_key(reach@[j].0));
                let m = choose|m: int| 0 <= m < reach@.len() && id_key((#[trigger] reach@[m]).0) == id_key(self.dependencies@[d].from);
                assert(keys[m] == id_key(self.dependencies@[d].from));
            }
            assert(!keys.contains(id_key(*to))) by {
                if keys.contains(id_key(*to)) {
                    let j = choose|j: int| 0 <= j < keys.len() && keys[j] == id_key(*to);
                    assert(keys[j] == id_key(reach@[j].0));
                    if j == 0 {
                        assert(id_key(reach@[0].0) == id_key(*from));
                    }
                }
            }
        }
        usize::MAX
    }

    /// The greatest of the depths from the graph's vulnerability sources to
    /// `package_id`, 0 where there is no source.
    pub fn calculate_dependency_depth(&self, package_id: &PackageId) -> (r: usize)
        ensures
            r == 0 || exists|i: int|
                0 <= i < self.packages@.len() && self.vulnerability_sources@.map_values(|s: String| s@).contains(
                    id_key((#[trigger] self.packages@[i]).id),
                ) && depth_from(self.packages@, self.dependencies@, self.packages@[i].id, *package_id, r),
            forall|i: int|
                0 <= i < self.packages@.len() && self.vulnerability_sources@.map_values(|s: String| s@).contains(
                    id_key((#[trigger] self.packages@[i]).id),
                ) ==> exists|d: usize| d <= r && depth_from(self.packages@, self.dependencies@, self.packages@[i].id, *package_id, d),
    {
        let ghost sv = self.vulnerability_sources@.map_values(|s: String| s@);
        let mut best: usize = 0;
        let mut i: usize = 0;
        while i < self.vulnerability_sources.len()
            invariant
                0 <= i <= self.vulnerability_sources@.len(),
                sv == self.vulnerability_sources@.map_values(|s: String| s@),
                best == 0 || exists|p: int|
                    0 <= p < self.packages@.len() && sv.contains(id_key((#[trigger] self.packages@[p]).id)) && depth_from(
                        self.packages@,
                        self.dependencies@,
                        self.packages@[p].id,
                        *package_id,
                        best,
                    ),
                forall|p: int|
                    0 <= p < self.packages@.len() && sv.subrange(0, i as int).contains(id_key((#[trigger] self.packages@[p]).id))
                        ==> exists|d: usize| d <= best && depth_from(self.packages@, self.dependencies@, self.packages@[p].id, *package_id, d),
            decreases self.vulnerability_sources.len() - i,
        {
            let ghost old_best = best;
            let ghost pre = sv.subrange(0, i as int);
            let ghost post = sv.subrange(0, i + 1);
            match self.package_position(&self.vulnerability_sources[i]) {
                Some(pi) => {
                    let depth = self.calculate_depth(&self.packages[pi].id, package_id);
                    proof {
                        assert(sv[i as int] == id_key(self.packages@[pi as int].id));
                        assert(depth_from(self.packages@, self.dependencies@, self.packages@[pi as int].id, *package_id, depth));
                    }
                    if depth > best {
                        best = depth;
                    }
                    proof {
                        assert forall|p: int|
                            0 <= p < self.packages@.len() && post.contains(id_key((#[trigger] self.packages@[p]).id))
                                implies exists|d: usize| d <= best && depth_from(self.packages@, self.dependencies@, self.packages@[p].id, *package_id, d) by {
                            let t = choose|t: int| 0 <= t < post.len() && #[trigger] post[t] == id_key(self.packages@[p].id);
                            if t == i {
                                assert(id_key(self.packages@[p].id) == id_key(self.packages@[pi as int].id));
                                assert(depth_from(self.packages@, self.dependencies@, self.packages@[p].id, *package_id, depth));
                            } else {
                                assert(pre[t] == id_key(self.packages@[p].id));
                                assert(pre.contains(id_key(self.packages@[p].id)));
                                let d = choose|d: usize| d <= old_best && depth_from(self.packages@, self.dependencies@, self.packages@[p].id, *package_id, d);
                                assert(d <= best);
                            }
                        }
                    }
                },
                None => {
                    proof {
                        assert forall|p: int|
                            0 <= p < self.packages@.len() && post.contains(id_key((#[trigger] self.packages@[p]).id))
                                implies exists|d: usize| d <= best && depth_from(self.packages@, self.dependencies@, self.packages@[p].id, *package_id, d) by {
                            let t = choose|t: int| 0 <= t < post.len() && #[trigger] post[t] == id_key(self.packages@[p].id);
                            if t == i {
                                assert(sv[i as int] == self.vulnerability_sources@[i as int]@);
                                assert(is_package(self.packages@, id_key(self.packages@[p].id)));
                            } else {
                                assert(pre[t] == id_key(self.packages@[p].id));
                                assert(pre.contains(id_key(self.packages@[p].id)));
                            }
                        }
                    }
                },
            }
            i = i + 1;
        }
        assert(sv.subrange(0, sv.len() as int) =~= sv);
        best
    }
}

/// `p` is the path from `source` to `target` that was found: it starts at
/// `source`, follows reverse edges, ends at a package keyed like `target`,
/// and is at most `max_depth` steps long.
pub open spec fn is_found_path(
    packages: Seq<PackageMetadata>,
    deps: Seq<DependencyEdge>,
    source: PackageId,
    target: PackageId,
    max_depth: usize,
    p: PropagationPath,
) -> bool {
    &&& p.source == source
    &&& p.target == target
    &&& is_key_chain(packages, deps, id_key(source), p.path@)
    &&& p.path@.len() >= 2
    &&& id_key(p.path@.last()) == id_key(target)
    &&& p.total_depth == p.path@.len() - 1
    &&& p.total_depth <= max_depth
    &&& p.id@ == id_key(source) + "->"@ + id_key(target)
}

/// Whatever depends on a package keyed in `keys` and is a package of the
/// graph is keyed in `keys` too.
pub open spec fn closed_under_dependents(packages: Seq<PackageMetadata>, deps: Seq<DependencyEdge>, keys: Seq<Seq<char>>) -> bool {
    forall|d: int|
        0 <= d < deps.len() && keys.contains(id_key((#[trigger] deps[d]).to)) && is_package(packages, id_key(deps[d].from))
            ==> keys.contains(id_key(deps[d].from))
}

/// No chain from `from` to a package keyed like `to` is shorter than
/// `len` packages.
pub open spec fn no_shorter_chain(
    packages: Seq<PackageMetadata>,
    deps: Seq<DependencyEdge>,
    from: Seq<char>,
    to: Seq<char>,
    len: int,
) -> bool {
    forall|c: Seq<PackageId>|
        #![trigger is_key_chain(packages, deps, from, c)]
        is_key_chain(packages, deps, from, c) && id_key(c.last()) == to ==> c.len() >= len
}

/// `depth` steps lead from `from` to `to` along reverse edges and no fewer
/// do, or `to` cannot
/// be reached from `from` and `depth` is the largest `usize`.
pub open spec fn depth_from(
    packages: Seq<PackageMetadata>,
    deps: Seq<DependencyEdge>,
    from: PackageId,
    to: PackageId,
    depth: usize,
) -> bool {
    ||| depth == 0 && id_key(from) == id_key(to)
    ||| depth != usize::MAX && (exists|c: Seq<PackageId>|
        is_key_chain(packages, deps, id_key(from), c) && c.len() == depth + 1 && id_key(c.last()) == id_key(to))
        && no_shorter_chain(packages, deps, id_key(from), id_key(to), depth + 1)
    ||| depth == usize::MAX && exists|keys: Seq<Seq<char>>|
        keys.contains(id_key(from)) && !keys.contains(id_key(to)) && closed_under_dependents(packages, deps, keys)
}

/// How many edges have `key` as their dependent, and as their dependency.
pub open spec fn degree(deps: Seq<DependencyEdge>, key: Seq<char>) -> nat
    decreases deps.len(),
{
    if deps.len() == 0 {
        0
    } else {
        degree(deps.drop_last(), key) + (if id_key(deps.last().from) == key {
            1nat
        } else {
            0nat
        }) + (if id_key(deps.last().to) == key {
            1nat
        } else {
            0nat
        })
    }
}

/// `a` ranks before `b`: more edges, or as many and a smaller key.
pub open spec fn ranks_before(deps: Seq<DependencyEdge>, a: PackageId, b: PackageId) -> bool {
    degree(deps, id_key(a)) > degree(deps, id_key(b)) || (degree(deps, id_key(a)) == degree(deps, id_key(b))
        && chars_cmp(id_key(a), id_key(b), 0) == Ordering::Less)
}

proof fn lemma_ranks_trans(deps: Seq<DependencyEdge>, a: PackageId, b: PackageId, c: PackageId)
    requires
        ranks_before(deps, a, b),
        ranks_before(deps, b, c),
    ensures
        ranks_before(deps, a, c),
{
    if degree(deps, id_key(a)) == degree(deps, id_key(b)) && degree(deps, id_key(b)) == degree(deps, id_key(c)) {
        lemma_chars_trans(id_key(a), id_key(b), id_key(c), 0);
        if chars_cmp(id_key(a), id_key(c), 0) == Ordering::Equal {
            lemma_chars_antisym(id_key(a), id_key(b), 0);
        }
    }
}

proof fn lemma_ranks_asym(deps: Seq<DependencyEdge>, a: PackageId, b: PackageId)
    ensures
        !(ranks_before(deps, a, b) && ranks_before(deps, b, a)),
{
    lemma_chars_antisym(id_key(a), id_key(b), 0);
}

/// Character-wise comparison of two texts.
pub fn text_cmp(a: &str, b: &str) -> (r: Ordering)
    ensures
        r == chars_cmp(a@, b@, 0),
{
    let n = a.unicode_len();
    let m = b.unicode_len();
    let mut i: usize = 0;
    while i < n && i < m
        invariant
            n == a@.len(),
            m == b@.len(),
            0 <= i <= n,
            i <= m,
            chars_cmp(a@, b@, 0) == chars_cmp(a@, b@, i as int),
        decreases n - i,
    {
        let x = a.get_char(i);
        let y = b.get_char(i);
        if x != y {
            return if (x as u32) < (y as u32) {
                Ordering::Less
            } else {
                Ordering::Greater
            };
        }
        i = i + 1;
    }
    if i < m {
        Ordering::Less
    } else if i < n {
        Ordering::Greater
    } else {
        Ordering::Equal
    }
}

impl DependencyGraph {
    fn degree_of(&self, key: &String) -> (r: u128)
        ensures
            r == degree(self.dependencies@, key@),
    {
        let mut count: u128 = 0;
        let mut d: usize = 0;
        while d < self.dependencies.len()
            invariant
                0 <= d <= self.dependencies@.len(),
                count == degree(self.dependencies@.subrange(0, d as int), key@),
                count <= 2 * d,
            decreases self.dependencies.len() - d,
        {
            assert(self.dependencies@.subrange(0, d + 1).drop_last() =~= self.dependencies@.subrange(0, d as int));
            if text_eq(self.dependencies[d].from.key().as_str(), key.as_str()) {
                count = count + 1;
            }
            if text_eq(self.dependencies[d].to.key().as_str(), key.as_str()) {
                count = count + 1;
            }
            d = d + 1;
        }
        assert(self.dependencies@.subrange(0, self.dependencies.len() as int) =~= self.dependencies@);
        count
    }

    fn ranks_before_exec(&self, a: &PackageId, b: &PackageId) -> (r: bool)
        ensures
            r == ranks_before(self.dependencies@, *a, *b),
    {
        let ka = a.key();
        let kb = b.key();
        let da = self.degree_of(&ka);
        let db = self.degree_of(&kb);
        da > db || (da == db && matches!(text_cmp(ka.as_str(), kb.as_str()), Ordering::Less))
    }

    /// The (at most) ten packages with the most edges, most first; among
    /// packages with as many edges, the smaller key first.
    pub fn identify_critical_nodes(&self) -> (r: Vec<PackageId>)
        ensures
            r@.len() == if self.packages@.len() < 10 { self.packages@.len() } else { 10 },
            exists|sel: Seq<int>|
                #![trigger sel.len()]
                sel.len() == r@.len() && sel.no_duplicates() && (forall|k: int|
                    0 <= k < sel.len() ==> 0 <= sel[k] < self.packages@.len() && r@[k] == self.packages@[sel[k]].id)
                    && (forall|k: int, m: int|
                    0 <= k < m < sel.len() ==> !ranks_before(self.dependencies@, self.packages@[sel[m]].id, self.packages@[sel[k]].id))
                    && (forall|k: int, j: int|
                    0 <= k < sel.len() && 0 <= j < self.packages@.len() && !sel.contains(j) ==> !ranks_before(
                        self.dependencies@,
                        self.packages@[j].id,
                        self.packages@[sel[k]].id,
                    )),
    {
        let ghost deps = self.dependencies@;
        let ghost pk = self.packages@;
        let n = self.packages.len();
        let limit: usize = if n < 10 { n } else { 10 };
        let mut chosen: Vec<usize> = Vec::new();
        let mut taken: Vec<bool> = Vec::new();
        let mut t: usize = 0;
        while t < n
            invariant
                t <= n,
                taken@.len() == t,
                forall|j: int| 0 <= j < t ==> !taken@[j],
            decreases n - t,
        {
            taken.push(false);
            t = t + 1;
        }
        while chosen.len() < limit
            invariant
                n == pk.len(),
                pk == self.packages@,
                deps == self.dependencies@,
                limit <= n,
                chosen@.len() <= limit,
                taken@.len() == n,
                as_ints(chosen@).no_duplicates(),
                forall|k: int| 0 <= k < chosen@.len() ==> chosen@[k] < n && taken@[chosen@[k] as int],
                forall|j: int| 0 <= j < n && taken@[j] ==> as_ints(chosen@).contains(j),
                forall|k: int, m: int|
                    0 <= k < m < chosen@.len() ==> !ranks_before(deps, pk[chosen@[m] as int].id, pk[chosen@[k] as int].id),
                forall|k: int, j: int|
                    0 <= k < chosen@.len() && 0 <= j < n && !taken@[j] ==> !ranks_before(deps, pk[j].id, pk[chosen@[k] as int].id),
            decreases limit - chosen@.len(),
        {
            let mut best: usize = n;
            let mut j: usize = 0;
            while j < n
                invariant
                    n == pk.len(),
                    pk == self.packages@,
                    deps == self.dependencies@,
                    taken@.len() == n,
                    j <= n,
                    best == n || (best < j && !taken@[best as int]),
                    forall|i: int| 0 <= i < j && !taken@[i] ==> best < n && !ranks_before(deps, pk[i].id, pk[best as int].id),
                decreases n - j,
            {
                if !taken[j] {
                    if best == n {
                        proof {
                            lemma_ranks_asym(deps, pk[j as int].id, pk[j as int].id);
                        }
                        best = j;
                    } else if self.ranks_before_exec(&self.packages[j].id, &self.packages[best].id) {
                        proof {
                            assert forall|i: int| 0 <= i < j && !taken@[i] implies !ranks_before(deps, pk[i].id, pk[j as int].id) by {
                                if ranks_before(deps, pk[i].id, pk[j as int].id) {
                                    lemma_ranks_trans(deps, pk[i].id, pk[j as int].id, pk[best as int].id);
                                }
                            }
                            lemma_ranks_asym(deps, pk[j as int].id, pk[j as int].id);
                        }
                        best = j;
                    }
                }
                j = j + 1;
            }
            proof {
                assert(chosen@.len() < limit);
                if best == n {
                    // some package is still untaken: fewer are chosen than there are
                    let cv = as_ints(chosen@);
                    assert(forall|i: int| 0 <= i < n ==> taken@[i]);
                    assert forall|i: int| 0 <= i < n implies cv.contains(i) by {
                        assert(taken@[i]);
                    }
                    assert forall|k: int| 0 <= k < cv.len() implies 0 <= #[trigger] cv[k] < n by {
                        assert(chosen@[k] < n);
                    }
                    lemma_all_indices_chosen(cv, n as int);
                }
            }
            let ghost old_chosen = chosen@;
            let ghost old_taken = taken@;
            taken.set(best, true);
            chosen.push(best);
            proof {
                let cv = as_ints(chosen@);
                let ov = as_ints(old_chosen);
                assert(cv =~= ov.push(best as int));
                assert(!ov.contains(best as int)) by {
                    if ov.contains(best as int) {
                        let k = choose|k: int| 0 <= k < ov.len() && ov[k] == best as int;
                        assert(old_taken[old_chosen[k] as int]);
                    }
                }
                assert forall|j: int| 0 <= j < n && taken@[j] implies cv.contains(j) by {
                    if j != best as int {
                        assert(old_taken[j]);
                        let k = choose|k: int| 0 <= k < ov.len() && ov[k] == j;
                        assert(cv[k] == j);
                    } else {
                        assert(cv[ov.len() as int] == j);
                    }
                }
            }
        }
        let mut out: Vec<PackageId> = Vec::new();
        let mut k: usize = 0;
        while k < chosen.len()
            invariant
                k <= chosen@.len(),
                out@.len() == k,
                forall|m: int| 0 <= m < chosen@.len() ==> chosen@[m] < self.packages@.len(),
                forall|m: int| 0 <= m < k ==> out@[m] == self.packages@[chosen@[m] as int].id,
            decreases chosen.len() - k,
        {
            out.push(copy_id(&self.packages[chosen[k]].id));
            k = k + 1;
        }
        proof {
            let sel = as_ints(chosen@);
            assert forall|k: int, j: int|
                0 <= k < sel.len() && 0 <= j < self.packages@.len() && !sel.contains(j) implies !ranks_before(
                self.dependencies@,
                self.packages@[j].id,
                self.packages@[sel[k]].id,
            ) by {
                if taken@[j] {
                }
            }
            assert(sel.len() == out@.len());
        }
        out
    }
}

pub open spec fn as_ints(s: Seq<usize>) -> Seq<int> {
    s.map_values(|c: usize| c as int)
}

/// Distinct indices below `n` that include all of them are `n` in number.
proof fn lemma_all_indices_chosen(s: Seq<int>, n: int)
    requires
        s.no_duplicates(),
        n >= 0,
        forall|i: int| 0 <= i < n ==> s.contains(i),
        forall|k: int| 0 <= k < s.len() ==> 0 <= #[trigger] s[k] < n,
    ensures
        s.len() == n,
{
    let set_s = s.to_set();
    let full = Set::new(|i: int| 0 <= i < n);
    assert(set_s =~= full);
    s.unique_seq_to_set();
    lemma_range_set_len(n);
}

proof fn lemma_range_set_len(n: int)
    requires
        n >= 0,
    ensures
        Set::new(|i: int| 0 <= i < n).finite(),
        Set::new(|i: int| 0 <= i < n).len() == n,
    decreases n,
{
    if n > 0 {
        lemma_range_set_len(n - 1);
        assert(Set::new(|i: int| 0 <= i < n) =~= Set::new(|i: int| 0 <= i < n - 1).insert(n - 1));
    } else {
        assert(Set::new(|i: int| 0 <= i < n) =~= Set::<int>::empty());
    }
}

/// The registry categories that mark critical infrastructure.
pub open spec fn is_critical_category(c: Seq<char>) -> bool {
    c == "network-programming"@ || c == "cryptography"@ || c == "database"@ || c == "web"@
}

pub open spec fn has_critical_category(p: PackageMetadata) -> bool {
    exists|k: int| 0 <= k < p.categories@.len() && is_critical_category((#[trigger] p.categories@[k])@)
}

/// How many of `packages` are in a critical infrastructure category.
pub open spec fn critical_count(packages: Seq<PackageMetadata>) -> nat
    decreases packages.len(),
{
    if packages.len() == 0 {
        0
    } else {
        critical_count(packages.drop_last()) + if has_critical_category(packages.last()) {
            1nat
        } else {
            0nat
        }
    }
}

/// The downloads of `packages` added up, where known.
pub open spec fn downloads_total(packages: Seq<PackageMetadata>) -> nat
    decreases packages.len(),
{
    if packages.len() == 0 {
        0
    } else {
        downloads_total(packages.drop_last()) + match packages.last().downloads {
            Some(d) => d as nat,
            None => 0nat,
        }
    }
}

proof fn lemma_critical_count_bound(packages: Seq<PackageMetadata>)
    ensures
        critical_count(packages) <= packages.len(),
    decreases packages.len(),
{
    if packages.len() > 0 {
        lemma_critical_count_bound(packages.drop_last());
    }
}

fn critical_category(c: &str) -> (r: bool)
    ensures
        r == is_critical_category(c@),
{
    text_eq(c, "network-programming") || text_eq(c, "cryptography") || text_eq(c, "database") || text_eq(c, "web")
}

impl DependencyGraph {
    /// How many packages are in a critical infrastructure category.
    pub fn assess_infrastructure_impact(&self) -> (r: usize)
        ensures
            r == critical_count(self.packages@),
    {
        let mut count: usize = 0;
        let mut i: usize = 0;
        while i < self.packages.len()
            invariant
                0 <= i <= self.packages@.len(),
                count == critical_count(self.packages@.subrange(0, i as int)),
            decreases self.packages.len() - i,
        {
            let p = &self.packages[i];
            let mut hit = false;
            let mut k: usize = 0;
            while k < p.categories.len()
                invariant
                    0 <= k <= p.categories@.len(),
                    hit == exists|j: int| 0 <= j < k && is_critical_category((#[trigger] p.categories@[j])@),
                decreases p.categories.len() - k,
            {
                if critical_category(p.categories[k].as_str()) {
                    hit = true;
                }
                k = k + 1;
            }
            assert(self.packages@.subrange(0, i + 1).drop_last() =~= self.packages@.subrange(0, i as int));
            proof {
                lemma_critical_count_bound(self.packages@.subrange(0, i as int));
            }
            if hit {
                count = count + 1;
            }
            i = i + 1;
        }
        assert(self.packages@.subrange(0, self.packages.len() as int) =~= self.packages@);
        count
    }

    /// The known downloads of all packages added up, or the largest `u64`
    /// where that is more.
    pub fn estimate_potential_users(&self) -> (r: u64)
        ensures
            r == (if downloads_total(self.packages@) > u64::MAX {
                u64::MAX
            } else {
                downloads_total(self.packages@) as u64
            }),
    {
        let mut total: u64 = 0;
        let mut i: usize = 0;
        while i < self.packages.len()
            invariant
                0 <= i <= self.packages@.len(),
                total == (if downloads_total(self.packages@.subrange(0, i as int)) > u64::MAX {
                    u64::MAX
                } else {
                    downloads_total(self.packages@.subrange(0, i as int)) as u64
                }),
            decreases self.packages.len() - i,
        {
            assert(self.packages@.subrange(0, i + 1).drop_last() =~= self.packages@.subrange(0, i as int));
            match self.packages[i].downloads {
                Some(d) => {
                    total = total.saturating_add(d);
                },
                None => {},
            }
            i = i + 1;
        }
        assert(self.packages@.subrange(0, self.packages.len() as int) =~= self.packages@);
        total
    }
}

} // verus!
