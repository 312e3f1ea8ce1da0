//! Records of the per-node artifacts that the statistics read.
use crate::graph::{extract_function_name, function_of_file};
use crate::text::text_eq;
use crate::paths::{join, join_path};
use vstd::prelude::*;

verus! {

/// One caller of a vulnerable function in one analyzed package.
#[derive(Debug, Clone)]
pub struct CallerSample {
    pub subject: String,
    pub caller_path: String,
    pub path_constraints: i64,
    pub path_package_num: Option<i64>,
}

/// The callers found in one analyzed package (`name-version`), in total and
/// per function.
#[derive(Debug)]
pub struct SubjectStats {
    pub subject: String,
    pub total_callers: usize,
    pub per_function_callers: Vec<(String, usize)>,
}

/// `base/analysis_results`: the root of the artifact tree.
pub fn analysis_results_dir(base: &str) -> (r: String)
    ensures
        r@ == join(base@, "analysis_results"@),
{
    join_path(base, "analysis_results")
}

/// The function a result file is about: the symbol of `callers-<symbol>.json`,
/// else the file key itself.
pub fn function_from_file_key(file_key: &str) -> (r: String)
    ensures
        r@ == match function_of_file(file_key@) {
            Some(f) => f,
            None => file_key@,
        },
{
    match extract_function_name(file_key) {
        Some(f) => f,
        None => file_key.to_owned(),
    }
}

/// One caller listed in a result file: its call path, the number of path
/// constraints and the number of packages on the path, where given.
#[derive(Debug, Clone)]
pub struct CallerEntry {
    pub path: Option<String>,
    pub path_constraints: Option<i64>,
    pub path_package_num: Option<i64>,
}

/// One result file of an artifact: the function it is about and its callers.
#[derive(Debug, Clone)]
pub struct FunctionResult {
    pub function: String,
    pub callers: Vec<CallerEntry>,
}

/// How often `x` occurs among `values`.
pub open spec fn occurrences(values: Seq<i64>, x: i64) -> nat
    decreases values.len(),
{
    if values.len() == 0 {
        0
    } else {
        occurrences(values.drop_last(), x) + if values.last() == x {
            1nat
        } else {
            0nat
        }
    }
}

/// `h` lists every value that occurs, in increasing order, with its count.
pub open spec fn is_histogram(values: Seq<i64>, h: Seq<(i64, usize)>) -> bool {
    &&& forall|a: int, b: int| 0 <= a < b < h.len() ==> h[a].0 < h[b].0
    &&& forall|k: int| 0 <= k < h.len() ==> (#[trigger] h[k]).1 == occurrences(values, h[k].0) && h[k].1 > 0
    &&& forall|x: i64| occurrences(values, x) > 0 ==> exists|k: int| 0 <= k < h.len() && (#[trigger] h[k]).0 == x
}

proof fn lemma_occurrences_bound(values: Seq<i64>, x: i64)
    ensures
        occurrences(values, x) <= values.len(),
    decreases values.len(),
{
    if values.len() > 0 {
        lemma_occurrences_bound(values.drop_last(), x);
    }
}

/// The histogram of `values`: each value that occurs, in increasing order,
/// with the number of its occurrences.
pub fn histogram(values: &Vec<i64>) -> (r: Vec<(i64, usize)>)
    ensures
        is_histogram(values@, r@),
{
    let mut h: Vec<(i64, usize)> = Vec::new();
    let mut i: usize = 0;
    while i < values.len()
        invariant
            0 <= i <= values.len(),
            is_histogram(values@.subrange(0, i as int), h@),
        decreases values.len() - i,
    {
        let x = values[i];
        let ghost pre = values@.subrange(0, i as int);
        let ghost post = values@.subrange(0, i + 1);
        assert(post.drop_last() =~= pre);
        assert(forall|y: i64| occurrences(post, y) == occurrences(pre, y) + if y == x { 1nat } else { 0nat });
        let mut p: usize = 0;
        while p < h.len() && h[p].0 < x
            invariant
                0 <= p <= h.len(),
                forall|k: int| 0 <= k < p ==> (#[trigger] h@[k]).0 < x,
            decreases h.len() - p,
        {
            p = p + 1;
        }
        let ghost old_h = h@;
        if p < h.len() && h[p].0 == x {
            proof {
                lemma_occurrences_bound(pre, x);
            }
            let c = h[p].1;
            h.set(p, (x, c + 1));
            assert forall|y: i64| occurrences(post, y) > 0 implies exists|k: int| 0 <= k < h@.len() && (#[trigger] h@[k]).0 == y by {
                if y != x {
                    let k = choose|k: int| 0 <= k < old_h.len() && (#[trigger] old_h[k]).0 == y;
                    assert(h@[k] == old_h[k]);
                } else {
                    assert(h@[p as int].0 == x);
                }
            }
            assert forall|k: int| 0 <= k < h@.len() implies (#[trigger] h@[k]).1 == occurrences(post, h@[k].0) && h@[k].1 > 0 by {
                if k != p {
                    assert(h@[k] == old_h[k]);
                    assert(old_h[k].0 != x) by {
                        if k < p {
                        } else {
                            assert(old_h[p as int].0 < old_h[k].0);
                        }
                    }
                }
            }
        } else {
            h.insert(p, (x, 1));
            assert forall|y: i64| occurrences(post, y) > 0 implies exists|k: int| 0 <= k < h@.len() && (#[trigger] h@[k]).0 == y by {
                if y != x {
                    let k = choose|k: int| 0 <= k < old_h.len() && (#[trigger] old_h[k]).0 == y;
                    if k < p {
                        assert(h@[k] == old_h[k]);
                    } else {
                        assert(h@[k + 1] == old_h[k]);
                    }
                } else {
                    assert(h@[p as int].0 == x);
                }
            }
            assert forall|k: int| 0 <= k < h@.len() implies (#[trigger] h@[k]).1 == occurrences(post, h@[k].0) && h@[k].1 > 0 by {
                if k < p {
                    assert(h@[k] == old_h[k]);
                } else if k > p {
                    assert(h@[k] == old_h[k - 1]);
                    if p < old_h.len() {
                        assert(old_h[p as int].0 != x);
                        assert(old_h[p as int].0 > x);
                        if k - 1 > p {
                            assert(old_h[p as int].0 < old_h[k - 1].0);
                        }
                    }
                } else {
                    if occurrences(pre, x) > 0 {
                        let j = choose|j: int| 0 <= j < old_h.len() && (#[trigger] old_h[j]).0 == x;
                        if j < p {
                        } else if j > p {
                            assert(old_h[p as int].0 < old_h[j].0);
                        }
                    }
                }
            }
            assert forall|a: int, b: int| 0 <= a < b < h@.len() implies h@[a].0 < h@[b].0 by {
                if b < p {
                    assert(h@[a] == old_h[a] && h@[b] == old_h[b]);
                } else if b == p {
                    assert(h@[a] == old_h[a]);
                } else if a < p {
                    assert(h@[a] == old_h[a] && h@[b] == old_h[b - 1]);
                    if b - 1 > p {
                        assert(old_h[p as int].0 < old_h[b - 1].0);
                    }
                    assert(old_h[p as int].0 > x);
                } else if a == p {
                    assert(h@[b] == old_h[b - 1]);
                    if b - 1 > p {
                        assert(old_h[p as int].0 < old_h[b - 1].0);
                    }
                } else {
                    assert(h@[a] == old_h[a - 1] && h@[b] == old_h[b - 1]);
                }
            }
        }
        i = i + 1;
    }
    assert(values@.subrange(0, values.len() as int) =~= values@);
    h
}

/// The least and the greatest of `values`; none where there are none.
pub fn min_max(values: &Vec<i64>) -> (r: Option<(i64, i64)>)
    ensures
        r.is_none() <==> values@.len() == 0,
        r.is_some() ==> values@.contains(r.unwrap().0) && values@.contains(r.unwrap().1),
        r.is_some() ==> forall|k: int| 0 <= k < values@.len() ==> r.unwrap().0 <= #[trigger] values@[k] <= r.unwrap().1,
{
    if values.len() == 0 {
        return None;
    }
    let mut lo = values[0];
    let mut hi = values[0];
    let mut i: usize = 1;
    while i < values.len()
        invariant
            1 <= i <= values.len(),
            values@.contains(lo),
            values@.contains(hi),
            forall|k: int| 0 <= k < i ==> lo <= #[trigger] values@[k] <= hi,
        decreases values.len() - i,
    {
        if values[i] < lo {
            lo = values[i];
        }
        if values[i] > hi {
            hi = values[i];
        }
        i = i + 1;
    }
    Some((lo, hi))
}

pub open spec fn saturated(x: nat) -> usize {
    if x > usize::MAX {
        usize::MAX
    } else {
        x as usize
    }
}

/// The number of callers over all result files.
pub open spec fn callers_in(results: Seq<FunctionResult>) -> nat
    decreases results.len(),
{
    if results.len() == 0 {
        0
    } else {
        callers_in(results.drop_last()) + results.last().callers@.len()
    }
}

/// The number of callers over the result files about `function`.
pub open spec fn callers_of(results: Seq<FunctionResult>, function: Seq<char>) -> nat
    decreases results.len(),
{
    if results.len() == 0 {
        0
    } else {
        callers_of(results.drop_last(), function) + if results.last().function@ == function {
            results.last().callers@.len()
        } else {
            0
        }
    }
}

/// The functions of the result files, each once, in order of first occurrence.
pub open spec fn functions_of(results: Seq<FunctionResult>) -> Seq<Seq<char>>
    decreases results.len(),
{
    if results.len() == 0 {
        seq![]
    } else {
        let init = functions_of(results.drop_last());
        if init.contains(results.last().function@) {
            init
        } else {
            init.push(results.last().function@)
        }
    }
}

/// The number of callers over all result files, or the largest `usize`
/// where that is more.
pub fn total_callers(results: &Vec<FunctionResult>) -> (r: usize)
    ensures
        r == saturated(callers_in(results@)),
{
    let mut acc: usize = 0;
    let mut i: usize = 0;
    while i < results.len()
        invariant
            0 <= i <= results.len(),
            acc == saturated(callers_in(results@.subrange(0, i as int))),
        decreases results.len() - i,
    {
        assert(results@.subrange(0, i + 1).drop_last() =~= results@.subrange(0, i as int));
        acc = acc.saturating_add(results[i].callers.len());
        i = i + 1;
    }
    assert(results@.subrange(0, results.len() as int) =~= results@);
    acc
}

fn callers_of_function(results: &Vec<FunctionResult>, function: &String) -> (r: usize)
    ensures
        r == saturated(callers_of(results@, function@)),
{
    let mut acc: usize = 0;
    let mut i: usize = 0;
    while i < results.len()
        invariant
            0 <= i <= results.len(),
            acc == saturated(callers_of(results@.subrange(0, i as int), function@)),
        decreases results.len() - i,
    {
        assert(results@.subrange(0, i + 1).drop_last() =~= results@.subrange(0, i as int));
        if text_eq(results[i].function.as_str(), function.as_str()) {
            acc = acc.saturating_add(results[i].callers.len());
        }
        i = i + 1;
    }
    assert(results@.subrange(0, results.len() as int) =~= results@);
    acc
}

fn listed(names: &Vec<String>, name: &String) -> (r: bool)
    ensures
        r == names@.map_values(|s: String| s@).contains(name@),
{
    let ghost view = names@.map_values(|s: String| s@);
    let mut i: usize = 0;
    while i < names.len()
        invariant
            0 <= i <= names.len(),
            view == names@.map_values(|s: String| s@),
            forall|k: int| 0 <= k < i ==> view[k] != name@,
        decreases names.len() - i,
    {
        if text_eq(names[i].as_str(), name.as_str()) {
            assert(view[i as int] == name@);
            return true;
        }
        i = i + 1;
    }
    false
}

/// For each function of the result files, in order of first occurrence, its
/// number of callers.
pub fn per_function_callers(results: &Vec<FunctionResult>) -> (r: Vec<(String, usize)>)
    ensures
        r@.map_values(|e: (String, usize)| e.0@) == functions_of(results@),
        forall|k: int| 0 <= k < r@.len() ==> (#[trigger] r@[k]).1 == saturated(callers_of(results@, r@[k].0@)),
{
    let mut names: Vec<String> = Vec::new();
    let mut i: usize = 0;
    while i < results.len()
        invariant
            0 <= i <= results.len(),
            names@.map_values(|s: String| s@) == functions_of(results@.subrange(0, i as int)),
        decreases results.len() - i,
    {
        assert(results@.subrange(0, i + 1).drop_last() =~= results@.subrange(0, i as int));
        if !listed(&names, &results[i].function) {
            names.push(results[i].function.clone());
            assert(names@.map_values(|s: String| s@) =~= functions_of(results@.subrange(0, i as int)).push(
                results@[i as int].function@,
            ));
        }
        i = i + 1;
    }
    assert(results@.subrange(0, results.len() as int) =~= results@);
    let mut out: Vec<(String, usize)> = Vec::new();
    let mut k: usize = 0;
    while k < names.len()
        invariant
            0 <= k <= names.len(),
            names@.map_values(|s: String| s@) == functions_of(results@),
            out@.len() == k,
            forall|m: int| 0 <= m < k ==> (#[trigger] out@[m]).0@ == names@[m]@,
            forall|m: int| 0 <= m < k ==> (#[trigger] out@[m]).1 == saturated(callers_of(results@, out@[m].0@)),
        decreases names.len() - k,
    {
        let n = callers_of_function(results, &names[k]);
        out.push((names[k].clone(), n));
        k = k + 1;
    }
    assert(out@.map_values(|e: (String, usize)| e.0@) =~= names@.map_values(|s: String| s@));
    out
}

/// The call paths of `callers`, each once, in order of first occurrence.
pub open spec fn distinct_paths(callers: Seq<CallerEntry>) -> Seq<Seq<char>>
    decreases callers.len(),
{
    if callers.len() == 0 {
        seq![]
    } else {
        let init = distinct_paths(callers.drop_last());
        match callers.last().path {
            Some(p) => if init.contains(p@) {
                init
            } else {
                init.push(p@)
            },
            None => init,
        }
    }
}

/// The number of distinct call paths among `callers`.
pub fn unique_call_paths(callers: &Vec<CallerEntry>) -> (r: usize)
    ensures
        r == distinct_paths(callers@).len(),
{
    let mut seen: Vec<String> = Vec::new();
    let mut i: usize = 0;
    while i < callers.len()
        invariant
            0 <= i <= callers.len(),
            seen@.map_values(|s: String| s@) == distinct_paths(callers@.subrange(0, i as int)),
        decreases callers.len() - i,
    {
        assert(callers@.subrange(0, i + 1).drop_last() =~= callers@.subrange(0, i as int));
        match &callers[i].path {
            Some(p) => {
                if !listed(&seen, p) {
                    seen.push(p.clone());
                    assert(seen@.map_values(|s: String| s@) =~= distinct_paths(callers@.subrange(0, i as int)).push(
                        p@,
                    ));
                }
            },
            None => {},
        }
        i = i + 1;
    }
    assert(callers@.subrange(0, callers.len() as int) =~= callers@);
    seen.len()
}

/// The callers found in one analyzed package, in total and per function.
pub fn subject_stats(subject: String, results: &Vec<FunctionResult>) -> (r: SubjectStats)
    ensures
        r.subject == subject,
        r.total_callers == saturated(callers_in(results@)),
        r.per_function_callers@.map_values(|e: (String, usize)| e.0@) == functions_of(results@),
        forall|k: int|
            0 <= k < r.per_function_callers@.len() ==> (#[trigger] r.per_function_callers@[k]).1 == saturated(
                callers_of(results@, r.per_function_callers@[k].0@),
            ),
{
    SubjectStats { subject, total_callers: total_callers(results), per_function_callers: per_function_callers(results) }
}

/// Whether any result file lists a caller.
pub fn contains_vulnerability_functions(results: &Vec<FunctionResult>) -> (r: bool)
    ensures
        r == exists|i: int| 0 <= i < results@.len() && (#[trigger] results@[i]).callers@.len() > 0,
{
    let mut i: usize = 0;
    while i < results.len()
        invariant
            0 <= i <= results@.len(),
            forall|k: int| 0 <= k < i ==> (#[trigger] results@[k]).callers@.len() == 0,
        decreases results.len() - i,
    {
        if results[i].callers.len() > 0 {
            return true;
        }
        i = i + 1;
    }
    false
}

/// The position of the last `-` in `s.subrange(0, i)`, if any.
pub open spec fn last_dash(s: Seq<char>, i: int) -> Option<int>
    decreases i,
{
    if i <= 0 || i > s.len() {
        None
    } else if s[i - 1] == '-' {
        Some(i - 1)
    } else {
        last_dash(s, i - 1)
    }
}

/// The package name and version of an artifact subject `name-version`, split
/// at its last `-`.
pub fn subject_package(subject: &str) -> (r: Option<(String, String)>)
    ensures
        match last_dash(subject@, subject@.len() as int) {
            None => r.is_none(),
            Some(p) => r.is_some() && r.unwrap().0@ == subject@.subrange(0, p) && r.unwrap().1@ == subject@.subrange(
                p + 1,
                subject@.len() as int,
            ),
        },
{
    let n = subject.unicode_len();
    let mut i: usize = n;
    while i > 0 && subject.get_char(i - 1) != '-'
        invariant
            n == subject@.len(),
            i <= n,
            last_dash(subject@, n as int) == last_dash(subject@, i as int),
        decreases i,
    {
        i = i - 1;
    }
    if i == 0 {
        None
    } else {
        Some((subject.substring_char(0, i - 1).to_owned(), subject.substring_char(i, n).to_owned()))
    }
}

} // verus!
