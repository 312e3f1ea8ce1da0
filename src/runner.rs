//! The decisions around the external call-graph analyzer: which leaf names
//! the prefilter searches for, which output files count, how the report is
//! put together, when the analyzer is told to stop and when it is killed.
use crate::error::TrackerError;
use crate::text::{leaf, leaf_name, split_on, split_text, trim_text, trimmed};
use crate::traversal::AnalysisOutcome;
use vstd::prelude::*;

verus! {

/// Seconds the analyzer may run.
pub const ANALYZER_TIMEOUT_SECS: u64 = 240;

/// Seconds between the polite termination signal and the forceful kill.
pub const GRACE_SECS: u64 = 10;

/// The leaf names to search for, from the comma-separated symbol pieces
/// `parts`: each piece trimmed, empty ones passed over.
pub open spec fn needles(parts: Seq<Seq<char>>) -> Seq<Seq<char>>
    decreases parts.len(),
{
    if parts.len() == 0 {
        seq![]
    } else {
        let init = needles(parts.drop_last());
        let t = trimmed(parts.last());
        if t.len() == 0 {
            init
        } else {
            init.push(leaf(t))
        }
    }
}

/// The leaf names of the comma-separated fully qualified symbols in
/// `target_function_paths`, in order.
pub fn target_leaf_names(target_function_paths: &str) -> (r: Vec<String>)
    ensures
        r@.map_values(|s: String| s@) == needles(split_on(target_function_paths@, ',')),
{
    let parts = split_text(target_function_paths, ',');
    let ghost pv = parts@.map_values(|s: String| s@);
    let mut out: Vec<String> = Vec::new();
    let mut i: usize = 0;
    while i < parts.len()
        invariant
            0 <= i <= parts.len(),
            pv == parts@.map_values(|s: String| s@),
            out@.map_values(|s: String| s@) == needles(pv.subrange(0, i as int)),
        decreases parts.len() - i,
    {
        let t = trim_text(parts[i].as_str());
        assert(pv.subrange(0, i + 1).drop_last() =~= pv.subrange(0, i as int));
        assert(pv.subrange(0, i + 1).last() == parts@[i as int]@);
        if t.unicode_len() > 0 {
            let l = leaf_name(t.as_str());
            let ghost before = out@.map_values(|s: String| s@);
            out.push(l);
            assert(out@.map_values(|s: String| s@) =~= before.push(leaf(t@)));
        }
        i = i + 1;
    }
    assert(pv.subrange(0, parts.len() as int) =~= pv);
    out
}

/// What one search of the source tree for a leaf name came to.
#[derive(Debug, Clone, Copy, PartialEq, Eq, Structural)]
pub enum SearchResult {
    Hit,
    Miss,
    Failed,
}

/// Reads a text search's exit: success is a hit, exit code 1 with no output a
/// clean miss, anything else an error of the search itself.
pub fn classify_search(exit_code: Option<i32>, output_empty: bool) -> (r: SearchResult)
    ensures
        exit_code == Some(0i32) ==> r == SearchResult::Hit,
        exit_code == Some(1i32) && output_empty ==> r == SearchResult::Miss,
        exit_code != Some(0i32) && !(exit_code == Some(1i32) && output_empty) ==> r == SearchResult::Failed,
{
    match exit_code {
        Some(0) => SearchResult::Hit,
        Some(1) if output_empty => SearchResult::Miss,
        _ => SearchResult::Failed,
    }
}

/// The prefilter's verdict from the searches made so far, in order: the
/// first that is not a miss decides; none means no hit.
pub open spec fn prefilter_spec(results: Seq<SearchResult>) -> Result<bool, TrackerError>
    decreases results.len(),
{
    if results.len() == 0 {
        Ok(false)
    } else if results[0] == SearchResult::Hit {
        Ok(true)
    } else if results[0] == SearchResult::Failed {
        Err(TrackerError::SearchFailed)
    } else {
        prefilter_spec(results.drop_first())
    }
}

pub fn prefilter_verdict(results: &Vec<SearchResult>) -> (r: Result<bool, TrackerError>)
    ensures
        r == prefilter_spec(results@),
{
    let mut i: usize = 0;
    assert(results@.subrange(0, results.len() as int) =~= results@);
    while i < results.len()
        invariant
            0 <= i <= results.len(),
            prefilter_spec(results@) == prefilter_spec(results@.subrange(i as int, results.len() as int)),
        decreases results.len() - i,
    {
        let ghost rest = results@.subrange(i as int, results.len() as int);
        assert(rest.drop_first() =~= results@.subrange(i + 1, results.len() as int));
        match results[i] {
            SearchResult::Hit => return Ok(true),
            SearchResult::Failed => return Err(TrackerError::SearchFailed),
            SearchResult::Miss => {},
        }
        i = i + 1;
    }
    Ok(false)
}

pub open spec fn starts_with(s: Seq<char>, p: Seq<char>) -> bool {
    p.len() <= s.len() && s.subrange(0, p.len() as int) == p
}

pub open spec fn ends_with(s: Seq<char>, p: Seq<char>) -> bool {
    p.len() <= s.len() && s.subrange(s.len() - p.len(), s.len() as int) == p
}

/// The analyzer's per-symbol output files are named `callers-*.json`.
pub open spec fn is_callers_name(name: Seq<char>) -> bool {
    starts_with(name, "callers-"@) && ends_with(name, ".json"@)
}

fn has_prefix(s: &str, p: &str) -> (r: bool)
    ensures
        r == starts_with(s@, p@),
{
    let n = s.unicode_len();
    let m = p.unicode_len();
    if m > n {
        return false;
    }
    let mut i: usize = 0;
    while i < m
        invariant
            n == s@.len(),
            m == p@.len(),
            m <= n,
            0 <= i <= m,
            forall|k: int| 0 <= k < i ==> s@[k] == p@[k],
        decreases m - i,
    {
        if s.get_char(i) != p.get_char(i) {
            assert(s@.subrange(0, m as int)[i as int] != p@[i as int]);
            return false;
        }
        i = i + 1;
    }
    assert(s@.subrange(0, m as int) =~= p@);
    true
}

fn has_suffix(s: &str, p: &str) -> (r: bool)
    ensures
        r == ends_with(s@, p@),
{
    let n = s.unicode_len();
    let m = p.unicode_len();
    if m > n {
        return false;
    }
    let off = n - m;
    let mut i: usize = 0;
    while i < m
        invariant
            n == s@.len(),
            m == p@.len(),
            off == n - m,
            0 <= i <= m,
            forall|k: int| 0 <= k < i ==> s@[off + k] == p@[k],
        decreases m - i,
    {
        if s.get_char(off + i) != p.get_char(i) {
            assert(s@.subrange(off as int, n as int)[i as int] != p@[i as int]);
            return false;
        }
        i = i + 1;
    }
    assert(s@.subrange(off as int, n as int) =~= p@);
    true
}

/// Whether a file of the analyzer's output directory holds callers of one
/// target symbol.
pub fn is_callers_file(name: &str) -> (r: bool)
    ensures
        r == is_callers_name(name@),
{
    has_prefix(name, "callers-") && has_suffix(name, ".json")
}

/// Whether `serde_json` reads the text as a JSON value.
pub uninterp spec fn json_valid(text: Seq<char>) -> bool;

/// How `serde_json` writes one character inside a string literal: quote and
/// backslash escaped, the five short escapes, other control characters as
/// `\u00xx` in lower-case hex, everything else as it is.
pub open spec fn json_escape(c: char) -> Seq<char> {
    let u = c as u32;
    if c == '"' {
        "\\\""@
    } else if c == '\\' {
        "\\\\"@
    } else if u == 8 {
        "\\b"@
    } else if u == 9 {
        "\\t"@
    } else if u == 10 {
        "\\n"@
    } else if u == 12 {
        "\\f"@
    } else if u == 13 {
        "\\r"@
    } else if u < 32 {
        "\\u00"@ + seq!["0123456789abcdef"@[(u / 16) as int], "0123456789abcdef"@[(u % 16) as int]]
    } else {
        seq![c]
    }
}

pub open spec fn json_escaped(text: Seq<char>) -> Seq<char>
    decreases text.len(),
{
    if text.len() == 0 {
        Seq::empty()
    } else {
        json_escaped(text.drop_last()) + json_escape(text.last())
    }
}

/// The JSON string literal that `serde_json` writes for the text.
pub open spec fn json_quoted(text: Seq<char>) -> Seq<char> {
    "\""@ + json_escaped(text) + "\""@
}

/// Relies on `serde_json::from_str`: whether the text parses as a JSON value.
#[verifier::external_body]
fn is_json(text: &str) -> (r: bool)
    ensures
        r == json_valid(text@),
{
    serde_json::from_str::<serde_json::Value>(text).is_ok()
}

/// Relies on `serde_json::to_string` applied to a string: its JSON literal,
/// escaped by `format_escaped_str_contents` and its `ESCAPE` table. It does
/// not fail on a string.
#[verifier::external_body]
fn json_string(text: &str) -> (r: String)
    ensures
        r@ == json_quoted(text@),
{
    serde_json::to_string(text).unwrap_or_default()
}

/// A file's contents as JSON: the contents themselves where they parse,
/// else the contents as a JSON string.
pub open spec fn content_json(content: Seq<char>) -> Seq<char> {
    if json_valid(content) {
        content
    } else {
        json_quoted(content)
    }
}

/// `{"file":<quoted name>,"file-content":<contents>}`.
pub open spec fn caller_record(quoted_name: Seq<char>, content: Seq<char>) -> Seq<char> {
    "{\"file\":"@ + quoted_name + ",\"file-content\":"@ + content + "}"@
}

pub open spec fn joined(items: Seq<Seq<char>>) -> Seq<char>
    decreases items.len(),
{
    if items.len() == 0 {
        Seq::empty()
    } else if items.len() == 1 {
        items[0]
    } else {
        joined(items.drop_last()) + ","@ + items.last()
    }
}

/// A JSON array of already serialized items.
pub open spec fn json_array(items: Seq<Seq<char>>) -> Seq<char> {
    "["@ + joined(items) + "]"@
}

/// The records of the output files that hold callers, in order.
pub open spec fn records(files: Seq<(String, String)>) -> Seq<Seq<char>>
    decreases files.len(),
{
    if files.len() == 0 {
        seq![]
    } else {
        let init = records(files.drop_last());
        let (name, content) = files.last();
        if is_callers_name(name@) {
            init.push(caller_record(json_quoted(name@), content_json(content@)))
        } else {
            init
        }
    }
}

/// The record of one caller file, from its quoted name and its contents as
/// JSON.
pub fn caller_record_of(quoted_name: &str, content: &str) -> (r: String)
    ensures
        r@ == caller_record(quoted_name@, content@),
{
    let mut s = "{\"file\":".to_owned();
    s.append(quoted_name);
    s.append(",\"file-content\":");
    s.append(content);
    s.append("}");
    s
}

/// The JSON array of already serialized items.
pub fn json_array_of(items: &Vec<String>) -> (r: String)
    ensures
        r@ == json_array(items@.map_values(|s: String| s@)),
{
    let ghost iv = items@.map_values(|s: String| s@);
    let mut s = "[".to_owned();
    let mut i: usize = 0;
    while i < items.len()
        invariant
            0 <= i <= items.len(),
            iv == items@.map_values(|s: String| s@),
            s@ == "["@ + joined(iv.subrange(0, i as int)),
        decreases items.len() - i,
    {
        assert(iv.subrange(0, i + 1).drop_last() =~= iv.subrange(0, i as int));
        if i > 0 {
            s.append(",");
        }
        s.append(items[i].as_str());
        proof {
            if i == 0 {
                assert(iv.subrange(0, 0) =~= Seq::<Seq<char>>::empty());
            }
        }
        assert(s@ =~= "["@ + joined(iv.subrange(0, i + 1)));
        i = i + 1;
    }
    s.append("]");
    assert(iv.subrange(0, items.len() as int) =~= iv);
    s
}

proof fn lemma_records_empty(files: Seq<(String, String)>)
    ensures
        records(files).len() == 0 <==> forall|i: int| 0 <= i < files.len() ==> !is_callers_name(#[trigger] files[i].0@),
    decreases files.len(),
{
    if files.len() > 0 {
        lemma_records_empty(files.drop_last());
        assert(forall|i: int| 0 <= i < files.len() - 1 ==> files.drop_last()[i] == files[i]);
    }
}

/// The analyzer's result from the files of its output directory (name and
/// contents): nothing where no file is a callers file, else the JSON array of
/// their records.
pub fn assemble_report(files: &Vec<(String, String)>) -> (r: Option<String>)
    ensures
        r.is_none() <==> forall|i: int| 0 <= i < files@.len() ==> !is_callers_name(#[trigger] files@[i].0@),
        r.is_some() ==> r.unwrap()@ == json_array(records(files@)),
{
    let mut items: Vec<String> = Vec::new();
    let mut i: usize = 0;
    while i < files.len()
        invariant
            0 <= i <= files.len(),
            items@.map_values(|s: String| s@) == records(files@.subrange(0, i as int)),
        decreases files.len() - i,
    {
        let (name, content) = (&files[i].0, &files[i].1);
        assert(files@.subrange(0, i + 1).drop_last() =~= files@.subrange(0, i as int));
        if is_callers_file(name.as_str()) {
            let quoted = json_string(name.as_str());
            let body = if is_json(content.as_str()) {
                content.clone()
            } else {
                json_string(content.as_str())
            };
            let record = caller_record_of(quoted.as_str(), body.as_str());
            let ghost before = items@.map_values(|s: String| s@);
            items.push(record);
            assert(items@.map_values(|s: String| s@) =~= before.push(record@));
        }
        i = i + 1;
    }
    assert(files@.subrange(0, files.len() as int) =~= files@);
    proof {
        lemma_records_empty(files@);
    }
    if items.len() == 0 {
        None
    } else {
        Some(json_array_of(&items))
    }
}

/// What the runner does next about a running analyzer.
#[derive(Debug, Clone, Copy, PartialEq, Eq, Structural)]
pub enum RunnerAction {
    /// Wait for the process to exit, at most until this second.
    WaitUntil(u64),
    /// Send the polite termination signal.
    Terminate,
    /// Kill the process and reap it.
    Kill,
}

pub open spec fn deadline_spec(started: u64, terminated_at: Option<u64>, now: u64) -> RunnerAction {
    match terminated_at {
        None => if now < started + ANALYZER_TIMEOUT_SECS {
            RunnerAction::WaitUntil((started + ANALYZER_TIMEOUT_SECS) as u64)
        } else {
            RunnerAction::Terminate
        },
        Some(t) => if now < t + GRACE_SECS {
            RunnerAction::WaitUntil((t + GRACE_SECS) as u64)
        } else {
            RunnerAction::Kill
        },
    }
}

/// The runner's next step for an analyzer started at second `started`, told
/// to terminate at second `terminated_at` if it was, at second `now`.
pub fn deadline_action(started: u64, terminated_at: Option<u64>, now: u64) -> (r: RunnerAction)
    requires
        started <= u64::MAX - ANALYZER_TIMEOUT_SECS - GRACE_SECS,
        terminated_at.is_some() ==> terminated_at.unwrap() <= u64::MAX - GRACE_SECS,
    ensures
        r == deadline_spec(started, terminated_at, now),
{
    match terminated_at {
        None => if now < started + ANALYZER_TIMEOUT_SECS {
            RunnerAction::WaitUntil(started + ANALYZER_TIMEOUT_SECS)
        } else {
            RunnerAction::Terminate
        },
        Some(t) => if now < t + GRACE_SECS {
            RunnerAction::WaitUntil(t + GRACE_SECS)
        } else {
            RunnerAction::Kill
        },
    }
}

/// A runner that acts when it is told to wait until the deadline never lets
/// the analyzer outlive it by more than the grace period: it waits no later
/// than `started + 250` and, from then on, kills.
pub proof fn lemma_deadline_containment(started: u64, terminated_at: Option<u64>, now: u64)
    requires
        terminated_at.is_some() ==> terminated_at.unwrap() <= started + ANALYZER_TIMEOUT_SECS,
        started <= u64::MAX - ANALYZER_TIMEOUT_SECS - GRACE_SECS,
    ensures
        deadline_spec(started, terminated_at, now) matches RunnerAction::WaitUntil(u) ==> u <= started
            + ANALYZER_TIMEOUT_SECS + GRACE_SECS,
        now >= started + ANALYZER_TIMEOUT_SECS && terminated_at is None ==> deadline_spec(
            started,
            terminated_at,
            now,
        ) == RunnerAction::Terminate,
        now >= started + ANALYZER_TIMEOUT_SECS + GRACE_SECS && terminated_at is Some ==> deadline_spec(
            started,
            terminated_at,
            now,
        ) == RunnerAction::Kill,
{
}

/// How the analyzer process ended.
#[derive(Debug, Clone, Copy, PartialEq, Eq, Structural)]
pub enum ExitKind {
    Success,
    Failure,
    TimedOut,
}

/// A node's outcome from how its analyzer ended and the report assembled
/// from its output directory.
pub fn analysis_outcome(exit: ExitKind, report: Option<String>) -> (r: AnalysisOutcome)
    ensures
        exit == ExitKind::TimedOut ==> r == AnalysisOutcome::Failed(TrackerError::AnalyzerTimeout),
        exit == ExitKind::Failure ==> r == AnalysisOutcome::Failed(TrackerError::AnalyzerExitedNonZero),
        exit == ExitKind::Success && report.is_none() ==> r == AnalysisOutcome::NotReached,
        exit == ExitKind::Success && report.is_some() ==> r == AnalysisOutcome::Reached(report.unwrap()),
{
    match exit {
        ExitKind::TimedOut => AnalysisOutcome::Failed(TrackerError::AnalyzerTimeout),
        ExitKind::Failure => AnalysisOutcome::Failed(TrackerError::AnalyzerExitedNonZero),
        ExitKind::Success => match report {
            Some(text) => AnalysisOutcome::Reached(text),
            None => AnalysisOutcome::NotReached,
        },
    }
}

} // verus!
