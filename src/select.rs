//! The two-endpoint version selector: among the versions that parse and
//! satisfy a range, the oldest and the newest by precedence.
use crate::error::TrackerError;
use crate::version::{
    cmp_precedence, parse_requirement, parse_version, precedence, requirement_matches,
    lemma_precedence_antisym, lemma_precedence_trans, semver_matches, semver_parse,
    semver_requirement_valid, ParsedVersion, Requirement, VersionModel,
};
use std::cmp::Ordering;
use vstd::prelude::*;

verus! {

/// Entry `i` of `versions` parses and satisfies the range written `range`.
pub open spec fn is_candidate(versions: Seq<String>, range: Seq<char>, i: int) -> bool {
    &&& 0 <= i < versions.len()
    &&& semver_parse(versions[i]@).is_some()
    &&& semver_matches(range, versions[i]@)
}

pub open spec fn model_at(versions: Seq<String>, i: int) -> VersionModel {
    semver_parse(versions[i]@).unwrap()
}

/// Entry `i` is the first candidate of least precedence.
pub open spec fn is_oldest(versions: Seq<String>, range: Seq<char>, i: int) -> bool {
    &&& is_candidate(versions, range, i)
    &&& forall|j: int|
        #![trigger is_candidate(versions, range, j)]
        is_candidate(versions, range, j) ==> precedence(model_at(versions, j), model_at(versions, i))
            != Ordering::Less && (j < i ==> precedence(model_at(versions, j), model_at(versions, i))
            == Ordering::Greater)
}

/// Entry `i` is the last candidate of greatest precedence.
pub open spec fn is_newest(versions: Seq<String>, range: Seq<char>, i: int) -> bool {
    &&& is_candidate(versions, range, i)
    &&& forall|j: int|
        #![trigger is_candidate(versions, range, j)]
        is_candidate(versions, range, j) ==> precedence(model_at(versions, j), model_at(versions, i))
            != Ordering::Greater && (j > i ==> precedence(model_at(versions, j), model_at(versions, i))
            == Ordering::Less)
}

/// `r` lists the oldest and then the newest candidate, with their indices;
/// one entry where there is a single candidate, none where there is none.
pub open spec fn endpoints_of(versions: Seq<String>, range: Seq<char>, r: Seq<(usize, String)>) -> bool {
    &&& r.len() <= 2
    &&& r.len() == 0 <==> (forall|j: int| !is_candidate(versions, range, j))
    &&& r.len() >= 1 ==> is_oldest(versions, range, r[0].0 as int)
    &&& r.len() == 1 ==> (forall|j: int| is_candidate(versions, range, j) ==> j == r[0].0)
    &&& r.len() == 2 ==> is_newest(versions, range, r[1].0 as int) && r[0].0 != r[1].0
    &&& forall|k: int| 0 <= k < r.len() ==> r[k].1 == versions[r[k].0 as int]
}

/// The oldest and newest entries of `versions` that satisfy `req`, each with
/// its index in `versions`; entries that do not parse are passed over.
pub fn select_endpoints(versions: &Vec<String>, req: &Requirement) -> (r: Vec<(usize, String)>)
    ensures
        endpoints_of(versions@, req.source(), r@),
{
    let ghost vs = versions@;
    let ghost rg = req.source();
    let mut cands: Vec<ParsedVersion> = Vec::new();
    let mut cidx: Vec<usize> = Vec::new();
    let mut o: usize = 0;
    let mut n: usize = 0;
    let mut i: usize = 0;
    while i < versions.len()
        invariant
            vs == versions@,
            rg == req.source(),
            0 <= i <= versions.len(),
            cands.len() == cidx.len(),
            forall|k: int|
                0 <= k < cands.len() ==> cidx[k] < i && is_candidate(vs, rg, cidx[k] as int)
                    && cands[k]@ == model_at(vs, cidx[k] as int),
            cands.len() == 0 ==> forall|j: int| 0 <= j < i ==> !is_candidate(vs, rg, j),
            cands.len() > 0 ==> o < cands.len() && n < cands.len(),
            cands.len() > 0 ==> forall|j: int|
                #![trigger is_candidate(vs, rg, j)]
                0 <= j < i && is_candidate(vs, rg, j) ==> precedence(
                    model_at(vs, j),
                    model_at(vs, cidx[o as int] as int),
                ) != Ordering::Less && (j < cidx[o as int] ==> precedence(
                    model_at(vs, j),
                    model_at(vs, cidx[o as int] as int),
                ) == Ordering::Greater),
            cands.len() > 0 ==> forall|j: int|
                #![trigger is_candidate(vs, rg, j)]
                0 <= j < i && is_candidate(vs, rg, j) ==> precedence(
                    model_at(vs, j),
                    model_at(vs, cidx[n as int] as int),
                ) != Ordering::Greater && (j > cidx[n as int] ==> precedence(
                    model_at(vs, j),
                    model_at(vs, cidx[n as int] as int),
                ) == Ordering::Less),
        decreases versions.len() - i,
    {
        let parsed = parse_version(versions[i].as_str());
        match parsed {
            Some(v) => {
                if requirement_matches(req, &v) {
                    let ghost mi = model_at(vs, i as int);
                    assert(is_candidate(vs, rg, i as int));
                    assert(v@ == mi);
                    proof {
                        lemma_precedence_antisym(mi, mi);
                    }
                    if cands.len() == 0 {
                        o = 0;
                        n = 0;
                    } else {
                        let ghost mo = model_at(vs, cidx[o as int] as int);
                        let ghost mn = model_at(vs, cidx[n as int] as int);
                        if matches!(cmp_precedence(&v, &cands[o]), Ordering::Less) {
                            assert forall|j: int|
                                0 <= j < i && is_candidate(vs, rg, j) implies precedence(
                                    model_at(vs, j),
                                    mi,
                                ) == Ordering::Greater by {
                                let mj = model_at(vs, j);
                                lemma_precedence_antisym(mj, mo);
                                lemma_precedence_trans(mi, mo, mj);
                                lemma_precedence_antisym(mi, mj);
                            }
                            o = cands.len();
                        }
                        if !matches!(cmp_precedence(&v, &cands[n]), Ordering::Less) {
                            assert forall|j: int|
                                0 <= j < i && is_candidate(vs, rg, j) implies precedence(
                                    model_at(vs, j),
                                    mi,
                                ) != Ordering::Greater by {
                                let mj = model_at(vs, j);
                                lemma_precedence_antisym(mi, mn);
                                lemma_precedence_trans(mj, mn, mi);
                            }
                            n = cands.len();
                        } else {
                            proof {
                                lemma_precedence_antisym(mi, mn);
                            }
                        }
                    }
                    let ghost old_cidx = cidx@;
                    cands.push(v);
                    cidx.push(i);
                    assert(forall|k: int| 0 <= k < old_cidx.len() ==> cidx@[k] == old_cidx[k]);
                    assert(cidx@[cidx.len() - 1] == i);
                }
            },
            None => {},
        }
        i = i + 1;
    }
    let mut r: Vec<(usize, String)> = Vec::new();
    if cands.len() > 0 {
        let oi = cidx[o];
        let ni = cidx[n];
        r.push((oi, versions[oi].clone()));
        if oi != ni {
            r.push((ni, versions[ni].clone()));
        }
    }
    r
}

/// The oldest and newest entries of `versions` that satisfy the range written
/// `version_range`, each with its index; an error where the range does not
/// parse.
pub fn select_two_end_vers(versions: &Vec<String>, version_range: &str) -> (r: Result<
    Vec<(usize, String)>,
    TrackerError,
>)
    ensures
        r.is_err() <==> !semver_requirement_valid(version_range@),
        r.is_err() ==> r == Err::<Vec<(usize, String)>, TrackerError>(TrackerError::RangeUnparseable),
        r.is_ok() ==> endpoints_of(versions@, version_range@, r.unwrap()@),
{
    match parse_requirement(version_range) {
        Some(req) => Ok(select_endpoints(versions, &req)),
        None => Err(TrackerError::RangeUnparseable),
    }
}

} // verus!
