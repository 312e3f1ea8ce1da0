//! Expansion of a reached node: the reverse dependents whose requirement
//! admits the node's version, grouped by name, each group cut down to its
//! oldest and newest version.
use crate::error::TrackerError;
use crate::model::ReverseDependency;
use crate::select::{endpoints_of, select_endpoints};
use crate::version::{
    parse_requirement, parse_version, requirement_matches, semver_matches, semver_parse,
    semver_requirement_valid, Requirement,
};
use vstd::prelude::*;

verus! {

/// The requirement that every parsed release satisfies.
pub const ANY_RELEASE: &'static str = ">=0.0.0";

/// `d` declares a requirement that parses and admits the version written `version`.
pub open spec fn admits(d: ReverseDependency, version: Seq<char>) -> bool {
    semver_requirement_valid(d.req@) && semver_matches(d.req@, version)
}

/// The entries of `deps` that admit `version`, in their order.
pub open spec fn admitting(deps: Seq<ReverseDependency>, version: Seq<char>) -> Seq<ReverseDependency>
    decreases deps.len(),
{
    if deps.len() == 0 {
        seq![]
    } else {
        let init = admitting(deps.drop_last(), version);
        if admits(deps.last(), version) {
            init.push(deps.last())
        } else {
            init
        }
    }
}

/// The names that occur in `deps`, each once, in order of first occurrence.
pub open spec fn distinct_names(deps: Seq<ReverseDependency>) -> Seq<Seq<char>>
    decreases deps.len(),
{
    if deps.len() == 0 {
        seq![]
    } else {
        let init = distinct_names(deps.drop_last());
        if init.contains(deps.last().name@) {
            init
        } else {
            init.push(deps.last().name@)
        }
    }
}

/// The entries of `deps` with the given name, in their order.
pub open spec fn named(deps: Seq<ReverseDependency>, name: Seq<char>) -> Seq<ReverseDependency>
    decreases deps.len(),
{
    if deps.len() == 0 {
        seq![]
    } else {
        let init = named(deps.drop_last(), name);
        if deps.last().name@ == name {
            init.push(deps.last())
        } else {
            init
        }
    }
}

pub open spec fn versions_of(deps: Seq<ReverseDependency>) -> Seq<String> {
    deps.map_values(|d: ReverseDependency| d.version)
}

/// `chosen` holds the oldest and newest release among `group`, as the
/// selector picks them.
pub open spec fn chosen_from(group: Seq<ReverseDependency>, chosen: Seq<ReverseDependency>) -> bool {
    exists|sel: Seq<(usize, String)>|
        #![trigger endpoints_of(versions_of(group), ANY_RELEASE@, sel)]
        endpoints_of(versions_of(group), ANY_RELEASE@, sel) && chosen.len() == sel.len() && (forall|k: int|
            0 <= k < sel.len() ==> chosen[k] == group[sel[k].0 as int])
}

proof fn lemma_named_names(deps: Seq<ReverseDependency>, name: Seq<char>)
    ensures
        forall|k: int| 0 <= k < named(deps, name).len() ==> (#[trigger] named(deps, name)[k]).name@ == name,
    decreases deps.len(),
{
    if deps.len() > 0 {
        lemma_named_names(deps.drop_last(), name);
        let init = named(deps.drop_last(), name);
        assert forall|k: int| 0 <= k < named(deps, name).len() implies (#[trigger] named(deps, name)[k]).name@
            == name by {
            if k < init.len() {
                assert(init[k].name@ == name);
            }
        }
    }
}

proof fn lemma_distinct_names_unique(deps: Seq<ReverseDependency>)
    ensures
        distinct_names(deps).no_duplicates(),
    decreases deps.len(),
{
    if deps.len() > 0 {
        lemma_distinct_names_unique(deps.drop_last());
    }
}

proof fn lemma_admitting_admits(deps: Seq<ReverseDependency>, version: Seq<char>)
    ensures
        forall|k: int|
            0 <= k < admitting(deps, version).len() ==> admits(#[trigger] admitting(deps, version)[k], version),
    decreases deps.len(),
{
    if deps.len() > 0 {
        lemma_admitting_admits(deps.drop_last(), version);
        let init = admitting(deps.drop_last(), version);
        assert forall|k: int| 0 <= k < admitting(deps, version).len() implies admits(
            #[trigger] admitting(deps, version)[k],
            version,
        ) by {
            if k < init.len() {
                assert(admits(init[k], version));
            }
        }
    }
}

proof fn lemma_named_within(deps: Seq<ReverseDependency>, name: Seq<char>)
    ensures
        forall|k: int| 0 <= k < named(deps, name).len() ==> deps.contains(#[trigger] named(deps, name)[k]),
    decreases deps.len(),
{
    if deps.len() > 0 {
        lemma_named_within(deps.drop_last(), name);
        let init = named(deps.drop_last(), name);
        assert forall|k: int| 0 <= k < named(deps, name).len() implies deps.contains(
            #[trigger] named(deps, name)[k],
        ) by {
            if k < init.len() {
                let j = choose|j: int| 0 <= j < deps.drop_last().len() && deps.drop_last()[j] == init[k];
                assert(deps[j] == init[k]);
            } else {
                assert(deps[deps.len() - 1] == named(deps, name)[k]);
            }
        }
    }
}

/// Every entry chosen from a group of `deps` is an entry of `deps`.
proof fn lemma_chosen_within(deps: Seq<ReverseDependency>, name: Seq<char>, chosen: Seq<ReverseDependency>)
    requires
        chosen_from(named(deps, name), chosen),
    ensures
        forall|m: int| 0 <= m < chosen.len() ==> deps.contains(#[trigger] chosen[m]),
{
    let group = named(deps, name);
    let sel = choose|sel: Seq<(usize, String)>|
        #![trigger endpoints_of(versions_of(group), ANY_RELEASE@, sel)]
        endpoints_of(versions_of(group), ANY_RELEASE@, sel) && chosen.len() == sel.len() && (forall|k: int|
            0 <= k < sel.len() ==> chosen[k] == group[sel[k].0 as int]);
    lemma_named_within(deps, name);
    assert forall|m: int| 0 <= m < chosen.len() implies deps.contains(#[trigger] chosen[m]) by {
        if m == 1 {
            assert(crate::select::is_newest(versions_of(group), ANY_RELEASE@, sel[1].0 as int));
        } else {
            assert(crate::select::is_oldest(versions_of(group), ANY_RELEASE@, sel[0].0 as int));
        }
        assert(0 <= sel[m].0 < group.len());
    }
}

/// At most two entries are chosen from a group, all of the group's name.
pub proof fn lemma_chosen_bound(deps: Seq<ReverseDependency>, name: Seq<char>, chosen: Seq<ReverseDependency>)
    requires
        chosen_from(named(deps, name), chosen),
    ensures
        chosen.len() <= 2,
        forall|m: int| 0 <= m < chosen.len() ==> (#[trigger] chosen[m]).name@ == name,
{
    let group = named(deps, name);
    let sel = choose|sel: Seq<(usize, String)>|
        #![trigger endpoints_of(versions_of(group), ANY_RELEASE@, sel)]
        endpoints_of(versions_of(group), ANY_RELEASE@, sel) && chosen.len() == sel.len() && (forall|k: int|
            0 <= k < sel.len() ==> chosen[k] == group[sel[k].0 as int]);
    lemma_named_names(deps, name);
    assert forall|m: int| 0 <= m < chosen.len() implies (#[trigger] chosen[m]).name@ == name by {
        if m == 1 {
            assert(crate::select::is_newest(versions_of(group), ANY_RELEASE@, sel[1].0 as int));
        } else {
            assert(crate::select::is_oldest(versions_of(group), ANY_RELEASE@, sel[0].0 as int));
        }
        assert(0 <= sel[m].0 < group.len());
    }
}

/// Each group of an expansion holds at most two entries, all of the group's
/// name, and no name heads two groups: at most two versions of any one
/// dependent come out of one expansion.
pub open spec fn two_per_name(groups: Seq<(String, Vec<ReverseDependency>)>) -> bool {
    &&& forall|a: int, b: int| 0 <= a < b < groups.len() ==> groups[a].0@ != groups[b].0@
    &&& forall|k: int|
        0 <= k < groups.len() ==> groups[k].1.len() <= 2 && (forall|m: int|
            0 <= m < groups[k].1.len() ==> (#[trigger] groups[k].1@[m]).name@ == groups[k].0@)
}

/// The dependents that admit the version written `version`.
pub fn filter_dependents_by_version_req(dependents: &Vec<ReverseDependency>, version: &str) -> (r: Result<
    Vec<ReverseDependency>,
    TrackerError,
>)
    ensures
        r.is_err() <==> semver_parse(version@).is_none(),
        r.is_err() ==> r == Err::<Vec<ReverseDependency>, TrackerError>(TrackerError::VersionUnparseable),
        r.is_ok() ==> r.unwrap()@ == admitting(dependents@, version@),
{
    let v = match parse_version(version) {
        Some(v) => v,
        None => return Err(TrackerError::VersionUnparseable),
    };
    let mut out: Vec<ReverseDependency> = Vec::new();
    let mut i: usize = 0;
    while i < dependents.len()
        invariant
            0 <= i <= dependents.len(),
            v.source() == version@,
            out@ == admitting(dependents@.subrange(0, i as int), version@),
        decreases dependents.len() - i,
    {
        let d = &dependents[i];
        let keep = match parse_requirement(d.req.as_str()) {
            Some(req) => requirement_matches(&req, &v),
            None => false,
        };
        assert(dependents@.subrange(0, i + 1).drop_last() =~= dependents@.subrange(0, i as int));
        if keep {
            out.push(d.duplicate());
        }
        i = i + 1;
    }
    assert(dependents@.subrange(0, dependents.len() as int) =~= dependents@);
    Ok(out)
}

fn contains_name(names: &Vec<String>, name: &String) -> (r: bool)
    ensures
        r == names@.map_values(|s: String| s@).contains(name@),
{
    let mut i: usize = 0;
    while i < names.len()
        invariant
            0 <= i <= names.len(),
            forall|k: int| 0 <= k < i ==> names@[k]@ != name@,
        decreases names.len() - i,
    {
        if names[i] == *name {
            assert(names@.map_values(|s: String| s@)[i as int] == name@);
            return true;
        }
        i = i + 1;
    }
    proof {
        if names@.map_values(|s: String| s@).contains(name@) {
            let view = names@.map_values(|s: String| s@);
            let k = choose|k: int| 0 <= k < view.len() && #[trigger] view[k] == name@;
            assert(names@[k]@ == name@);
        }
    }
    false
}

/// The names of `deps`, each once, in order of first occurrence.
pub fn dependent_names(deps: &Vec<ReverseDependency>) -> (r: Vec<String>)
    ensures
        r@.map_values(|s: String| s@) == distinct_names(deps@),
{
    let mut names: Vec<String> = Vec::new();
    let mut i: usize = 0;
    while i < deps.len()
        invariant
            0 <= i <= deps.len(),
            names@.map_values(|s: String| s@) == distinct_names(deps@.subrange(0, i as int)),
        decreases deps.len() - i,
    {
        assert(deps@.subrange(0, i + 1).drop_last() =~= deps@.subrange(0, i as int));
        if !contains_name(&names, &deps[i].name) {
            names.push(deps[i].name.clone());
            assert(names@.map_values(|s: String| s@) =~= distinct_names(deps@.subrange(0, i as int)).push(
                deps@[i as int].name@,
            ));
        }
        i = i + 1;
    }
    assert(deps@.subrange(0, deps.len() as int) =~= deps@);
    names
}

/// The entries of `deps` named `name`, in their order.
pub fn entries_named(deps: &Vec<ReverseDependency>, name: &String) -> (r: Vec<ReverseDependency>)
    ensures
        r@ == named(deps@, name@),
{
    let mut out: Vec<ReverseDependency> = Vec::new();
    let mut i: usize = 0;
    while i < deps.len()
        invariant
            0 <= i <= deps.len(),
            out@ == named(deps@.subrange(0, i as int), name@),
        decreases deps.len() - i,
    {
        assert(deps@.subrange(0, i + 1).drop_last() =~= deps@.subrange(0, i as int));
        if deps[i].name == *name {
            out.push(deps[i].duplicate());
        }
        i = i + 1;
    }
    assert(deps@.subrange(0, deps.len() as int) =~= deps@);
    out
}

/// The oldest and newest releases among `group`.
pub fn choose_endpoints(group: &Vec<ReverseDependency>, any: &Requirement) -> (r: Vec<ReverseDependency>)
    requires
        any.source() == ANY_RELEASE@,
    ensures
        chosen_from(group@, r@),
{
    let mut versions: Vec<String> = Vec::new();
    let mut i: usize = 0;
    while i < group.len()
        invariant
            0 <= i <= group.len(),
            versions@ == versions_of(group@.subrange(0, i as int)),
        decreases group.len() - i,
    {
        versions.push(group[i].version.clone());
        assert(versions@ =~= versions_of(group@.subrange(0, i + 1)));
        i = i + 1;
    }
    assert(group@.subrange(0, group.len() as int) =~= group@);
    let sel = select_endpoints(&versions, any);
    let mut chosen: Vec<ReverseDependency> = Vec::new();
    let mut k: usize = 0;
    while k < sel.len()
        invariant
            0 <= k <= sel.len(),
            versions@ == versions_of(group@),
            endpoints_of(versions@, any.source(), sel@),
            chosen.len() == k,
            forall|m: int| 0 <= m < k ==> chosen@[m] == group@[sel@[m].0 as int],
        decreases sel.len() - k,
    {
        let e = sel[k].0;
        chosen.push(group[e].duplicate());
        k = k + 1;
    }
    assert(endpoints_of(versions_of(group@), ANY_RELEASE@, sel@));
    chosen
}

/// The children of a node at the version written `version`: for each name
/// among the dependents that admit that version, in order of first
/// occurrence, the oldest and newest of its versions.
pub fn expand_dependents(dependents: &Vec<ReverseDependency>, version: &str) -> (r: Result<
    Vec<(String, Vec<ReverseDependency>)>,
    TrackerError,
>)
    ensures
        semver_parse(version@).is_none() ==> r == Err::<Vec<(String, Vec<ReverseDependency>)>, TrackerError>(
            TrackerError::VersionUnparseable),
        semver_parse(version@).is_some() && !semver_requirement_valid(ANY_RELEASE@) ==> r == Err::<
            Vec<(String, Vec<ReverseDependency>)>,
            TrackerError,
        >(TrackerError::RangeUnparseable),
        semver_parse(version@).is_some() && semver_requirement_valid(ANY_RELEASE@) ==> r.is_ok(),
        r.is_ok() ==> ({
            let groups = r.unwrap()@;
            let kept = admitting(dependents@, version@);
            &&& groups.map_values(|g: (String, Vec<ReverseDependency>)| g.0@) == distinct_names(kept)
            &&& forall|k: int|
                0 <= k < groups.len() ==> chosen_from(named(kept, groups[k].0@), groups[k].1@)
        }),
        r.is_ok() ==> two_per_name(r.unwrap()@),
        r.is_ok() ==> forall|k: int, m: int|
            0 <= k < r.unwrap()@.len() && 0 <= m < r.unwrap()@[k].1.len() ==> admits(
                #[trigger] r.unwrap()@[k].1@[m],
                version@,
            ),
{
    let kept = filter_dependents_by_version_req(dependents, version)?;
    let any = match parse_requirement(ANY_RELEASE) {
        Some(q) => q,
        None => return Err(TrackerError::RangeUnparseable),
    };
    let names = dependent_names(&kept);
    let mut groups: Vec<(String, Vec<ReverseDependency>)> = Vec::new();
    let mut i: usize = 0;
    while i < names.len()
        invariant
            0 <= i <= names.len(),
            kept@ == admitting(dependents@, version@),
            semver_parse(version@).is_some(),
            any.source() == ANY_RELEASE@,
            names@.map_values(|s: String| s@) == distinct_names(kept@),
            groups.len() == i,
            forall|k: int| 0 <= k < i ==> groups@[k].0 == names@[k],
            forall|k: int| 0 <= k < i ==> chosen_from(named(kept@, groups@[k].0@), groups@[k].1@),
        decreases names.len() - i,
    {
        let group = entries_named(&kept, &names[i]);
        let chosen = choose_endpoints(&group, &any);
        groups.push((names[i].clone(), chosen));
        i = i + 1;
    }
    assert(groups@.map_values(|g: (String, Vec<ReverseDependency>)| g.0@) =~= names@.map_values(
        |s: String| s@,
    ));
    proof {
        lemma_distinct_names_unique(kept@);
        let names_view = names@.map_values(|s: String| s@);
        assert forall|a: int, b: int| 0 <= a < b < groups.len() implies groups@[a].0@ != groups@[b].0@ by {
            assert(names_view[a] != names_view[b]);
        }
        assert forall|k: int| 0 <= k < groups.len() implies groups@[k].1.len() <= 2 && (forall|m: int|
            0 <= m < groups@[k].1.len() ==> (#[trigger] groups@[k].1@[m]).name@ == groups@[k].0@) by {
            lemma_chosen_bound(kept@, groups@[k].0@, groups@[k].1@);
        }
        lemma_admitting_admits(dependents@, version@);
        assert forall|k: int, m: int| 0 <= k < groups.len() && 0 <= m < groups@[k].1.len() implies admits(
            #[trigger] groups@[k].1@[m],
            version@,
        ) by {
            lemma_chosen_within(kept@, groups@[k].0@, groups@[k].1@);
            let j = choose|j: int| 0 <= j < kept@.len() && kept@[j] == groups@[k].1@[m];
            assert(admits(kept@[j], version@));
        }
    }
    Ok(groups)
}

} // verus!
