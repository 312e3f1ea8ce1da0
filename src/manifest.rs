//! Pinning a package's manifest so that its dependency on the parent node
//! resolves to exactly the parent's version, or taking the parent from a
//! vendored copy instead. The manifest is read and written with `toml_edit`,
//! which keeps its formatting.
use crate::error::TrackerError;
use vstd::prelude::*;

verus! {

#[verifier::external_type_specification]
#[verifier::external_body]
pub struct ExDocumentMut(toml_edit::DocumentMut);

/// How a dependency is declared, as far as pinning is concerned.
pub ghost enum DependencyModel {
    /// `name = "<requirement>"`.
    Version(Seq<char>),
    /// `name = { version = "<requirement>", ... }` or a `[section.name]`
    /// table, with its `version` field if it has one as a string.
    Table(Option<Seq<char>>),
    /// Any other value.
    Other,
}

/// The entries of the manifest's top-level tables, keyed by table and name
/// (the declarations of the dependency tables among them).
pub uninterp spec fn manifest_entries(doc: toml_edit::DocumentMut) -> Map<(Seq<char>, Seq<char>), DependencyModel>;

/// The manifest's top-level keys, each with whether it holds a table.
pub uninterp spec fn manifest_tops(doc: toml_edit::DocumentMut) -> Map<Seq<char>, bool>;

/// The `path` strings two tables deep: `(table, subtable, name)` to the
/// `path` field of entry `name`, where that entry is a table with one.
pub uninterp spec fn manifest_paths(doc: toml_edit::DocumentMut) -> Map<(Seq<char>, Seq<char>, Seq<char>), Seq<char>>;

/// Whether `toml_edit` reads the text as a document.
pub uninterp spec fn toml_document_valid(text: Seq<char>) -> bool;

/// What `manifest_entries` is of the document `toml_edit` reads in the text.
pub uninterp spec fn parsed_manifest(text: Seq<char>) -> Map<(Seq<char>, Seq<char>), DependencyModel>;

/// What `manifest_tops` is of the document `toml_edit` reads in the text.
pub uninterp spec fn parsed_tops(text: Seq<char>) -> Map<Seq<char>, bool>;

/// What `manifest_paths` is of the document `toml_edit` reads in the text.
pub uninterp spec fn parsed_paths(text: Seq<char>) -> Map<(Seq<char>, Seq<char>, Seq<char>), Seq<char>>;

/// The field that holds a dependency's requirement.
pub const VERSION_FIELD: &'static str = "version";

/// The field that holds a dependency's local path.
pub const PATH_FIELD: &'static str = "path";

/// A character a TOML comment may hold: no control character but tab.
pub open spec fn comment_char(c: char) -> bool {
    c == '\t' || ((c as u32) >= 32 && (c as u32) != 127)
}

/// A text that fits in a TOML comment.
pub open spec fn comment_safe(s: Seq<char>) -> bool {
    forall|k: int| 0 <= k < s.len() ==> comment_char(#[trigger] s[k])
}

/// `s` without the characters a comment may not hold.
pub open spec fn comment_text(s: Seq<char>) -> Seq<char>
    decreases s.len(),
{
    if s.len() == 0 {
        s
    } else if comment_char(s.last()) {
        comment_text(s.drop_last()).push(s.last())
    } else {
        comment_text(s.drop_last())
    }
}

proof fn lemma_comment_text_safe(s: Seq<char>)
    ensures
        comment_safe(comment_text(s)),
    decreases s.len(),
{
    if s.len() > 0 {
        lemma_comment_text_safe(s.drop_last());
    }
}

fn is_comment_char(c: char) -> (r: bool)
    ensures
        r == comment_char(c),
{
    c == '\t' || ((c as u32) >= 32 && (c as u32) != 127)
}

/// `s` without the characters a comment may not hold, so that it stays on
/// one line.
pub fn comment_line(s: &str) -> (r: String)
    ensures
        r@ == comment_text(s@),
        comment_safe(r@),
{
    let n = s.unicode_len();
    let mut out = String::new();
    let mut start: usize = 0;
    let mut i: usize = 0;
    while i < n
        invariant
            n == s@.len(),
            start <= i <= n,
            comment_text(s@.subrange(0, i as int)) == out@ + s@.subrange(start as int, i as int),
        decreases n - i,
    {
        let c = s.get_char(i);
        assert(s@.subrange(0, i + 1).drop_last() =~= s@.subrange(0, i as int));
        if is_comment_char(c) {
            assert(out@ + s@.subrange(start as int, i + 1) =~= (out@ + s@.subrange(start as int, i as int)).push(c));
        } else {
            out.append(s.substring_char(start, i));
            start = i + 1;
            assert(s@.subrange(start as int, i + 1) =~= Seq::<char>::empty());
            assert(out@ + s@.subrange(start as int, i + 1) =~= out@);
        }
        i = i + 1;
    }
    out.append(s.substring_char(start, n));
    assert(s@.subrange(0, n as int) =~= s@);
    proof {
        lemma_comment_text_safe(s@);
    }
    out
}

/// A declaration read from a manifest.
pub enum DependencySpec {
    Absent,
    Version(String),
    Table(Option<String>),
    Other,
}

pub open spec fn spec_model(d: DependencySpec) -> Option<DependencyModel> {
    match d {
        DependencySpec::Absent => None,
        DependencySpec::Version(v) => Some(DependencyModel::Version(v@)),
        DependencySpec::Table(v) => Some(
            DependencyModel::Table(
                match v {
                    Some(s) => Some(s@),
                    None => None,
                },
            ),
        ),
        DependencySpec::Other => Some(DependencyModel::Other),
    }
}

/// No entry sits in the table `key`, nor any `path` below it.
pub open spec fn no_entries_under(
    entries: Map<(Seq<char>, Seq<char>), DependencyModel>,
    paths: Map<(Seq<char>, Seq<char>, Seq<char>), Seq<char>>,
    key: Seq<char>,
) -> bool {
    &&& forall|n: Seq<char>| !entries.contains_key((key, n))
    &&& forall|s: Seq<char>, n: Seq<char>| !paths.contains_key((key, s, n))
}

/// No `path` sits below the entry `name` of table `section`.
pub open spec fn no_paths_under(paths: Map<(Seq<char>, Seq<char>, Seq<char>), Seq<char>>, section: Seq<char>, name: Seq<char>) -> bool {
    forall|n: Seq<char>| !paths.contains_key((section, name, n))
}

/// The entries of every table but `table` agree.
pub open spec fn same_outside(
    a: Map<(Seq<char>, Seq<char>), DependencyModel>,
    b: Map<(Seq<char>, Seq<char>), DependencyModel>,
    table: Seq<char>,
) -> bool {
    forall|s: Seq<char>, n: Seq<char>|
        #![trigger a.contains_key((s, n))]
        #![trigger b.contains_key((s, n))]
        #![trigger a[(s, n)]]
        #![trigger b[(s, n)]]
        s != table ==> (a.contains_key((s, n)) == b.contains_key((s, n))) && a[(s, n)] == b[(s, n)]
}

/// What the top-level key holds, by `tops`.
pub open spec fn top_kind(tops: Map<Seq<char>, bool>, key: Seq<char>) -> TopKind {
    if !tops.contains_key(key) {
        TopKind::Absent
    } else if tops[key] {
        TopKind::Table
    } else {
        TopKind::Other
    }
}

/// What a top-level key holds.
#[derive(Debug, Clone, Copy, PartialEq, Eq, Structural)]
pub enum TopKind {
    Absent,
    Table,
    Other,
}

/// Relies on `str::parse::<toml_edit::DocumentMut>`.
#[verifier::external_body]
fn parse_manifest(text: &str) -> (r: Option<toml_edit::DocumentMut>)
    ensures
        r.is_some() == toml_document_valid(text@),
        r.is_some() ==> manifest_entries(r.unwrap()) == parsed_manifest(text@) && manifest_tops(r.unwrap())
            == parsed_tops(text@) && manifest_paths(r.unwrap()) == parsed_paths(text@),
{
    text.parse::<toml_edit::DocumentMut>().ok()
}

/// Relies on `toml_edit::DocumentMut`'s `Display`, which writes the document
/// back as text that `toml_edit` reads as the same document. The library only
/// ever sets comments that stay on one line (`comment_safe`), so the text
/// written keeps every entry where it was.
#[verifier::external_body]
fn render_manifest(doc: &toml_edit::DocumentMut) -> (r: String)
    ensures
        toml_document_valid(r@),
        parsed_manifest(r@) == manifest_entries(*doc),
        parsed_tops(r@) == manifest_tops(*doc),
        parsed_paths(r@) == manifest_paths(*doc),
{
    doc.to_string()
}

/// Relies on `toml_edit`'s `Table::get` and `Item::is_table_like`: what the
/// top-level key holds.
#[verifier::external_body]
fn read_top(doc: &toml_edit::DocumentMut, key: &str) -> (r: TopKind)
    ensures
        r == top_kind(manifest_tops(*doc), key@),
        r == TopKind::Absent ==> no_entries_under(manifest_entries(*doc), manifest_paths(*doc), key@),
{
    match doc.get(key) {
        None => TopKind::Absent,
        Some(item) => match item.is_table_like() {
            true => TopKind::Table,
            false => TopKind::Other,
        },
    }
}

/// Relies on `toml_edit`'s `Table::get`, `Item::as_table_like`,
/// `TableLike::get` and `Item::as_str`: the entry `name` of the table
/// `section`, told apart by kind, with its `field` string for a table.
#[verifier::external_body]
fn read_entry(doc: &toml_edit::DocumentMut, section: &str, name: &str, field: &str) -> (r: DependencySpec)
    requires
        field@ == VERSION_FIELD@,
    ensures
        spec_model(r) == (if manifest_entries(*doc).contains_key((section@, name@)) {
            Some(manifest_entries(*doc)[(section@, name@)])
        } else {
            None
        }),
        r is Absent ==> no_paths_under(manifest_paths(*doc), section@, name@),
{
    let item = doc.get(section).and_then(|s| s.as_table_like()).and_then(|t| t.get(name));
    match item {
        None => DependencySpec::Absent,
        Some(item) => match (item.as_str(), item.as_table_like()) {
            (Some(s), _) => DependencySpec::Version(s.to_string()),
            (None, Some(t)) => DependencySpec::Table(t.get(field).and_then(|v| v.as_str()).map(|s| s.to_string())),
            (None, None) => DependencySpec::Other,
        },
    }
}

/// Relies on `toml_edit`'s `Table::get_mut`, `Item::as_table_like_mut`,
/// `TableLike::get_mut`, `Item::as_value_mut` and `Value::decor_mut`: replaces
/// an entry written as a string by `version`, with `comment` after it where
/// the table is a standard one (an inline table holds no comments).
#[verifier::external_body]
fn write_version_string(doc: &mut toml_edit::DocumentMut, section: &str, name: &str, version: &str, comment: &str)
    requires
        manifest_entries(*old(doc)).contains_key((section@, name@)),
        manifest_entries(*old(doc))[(section@, name@)] is Version,
        comment_safe(comment@),
    ensures
        manifest_entries(*final(doc)) == manifest_entries(*old(doc)).insert(
            (section@, name@),
            DependencyModel::Version(version@),
        ),
        manifest_tops(*final(doc)) == manifest_tops(*old(doc)),
{
    let in_table = doc.get(section).map(|s| s.is_table()).unwrap_or(false);
    if let Some(item) = doc.get_mut(section).and_then(|s| s.as_table_like_mut()).and_then(|t| t.get_mut(name)) {
        if let Some(val) = item.as_value_mut() {
            *val = toml_edit::Value::from(version);
            if in_table {
                val.decor_mut().set_suffix(comment);
            }
        }
    }
}

/// Relies on `toml_edit`'s `Table::get_mut`, `Item::as_table_like_mut`,
/// `TableLike::get_mut`, `TableLike::insert` and the decor of tables and
/// inline tables: sets the `field` string of an entry written as a table,
/// leaving its other fields, with `comment` after it where the enclosing
/// table is a standard one.
#[verifier::external_body]
fn write_table_version(
    doc: &mut toml_edit::DocumentMut,
    section: &str,
    name: &str,
    field: &str,
    version: &str,
    comment: &str,
)
    requires
        field@ == VERSION_FIELD@,
        manifest_entries(*old(doc)).contains_key((section@, name@)),
        manifest_entries(*old(doc))[(section@, name@)] is Table,
        comment_safe(comment@),
    ensures
        manifest_entries(*final(doc)) == manifest_entries(*old(doc)).insert(
            (section@, name@),
            DependencyModel::Table(Some(version@)),
        ),
        manifest_tops(*final(doc)) == manifest_tops(*old(doc)),
{
    let in_table = doc.get(section).map(|s| s.is_table()).unwrap_or(false);
    if let Some(item) = doc.get_mut(section).and_then(|s| s.as_table_like_mut()).and_then(|t| t.get_mut(name)) {
        if let Some(t) = item.as_table_like_mut() {
            t.insert(field, toml_edit::value(version));
        }
        match item {
            toml_edit::Item::Table(t) if in_table && !t.is_dotted() => t.decor_mut().set_suffix(comment),
            toml_edit::Item::Value(v) if in_table => v.decor_mut().set_suffix(comment),
            _ => {},
        }
    }
}

/// Relies on `toml_edit`'s `Table::insert` and `Table::new`: adds an empty
/// top-level table `key`, which nothing held before.
#[verifier::external_body]
fn insert_top_table(doc: &mut toml_edit::DocumentMut, key: &str)
    requires
        !manifest_tops(*old(doc)).contains_key(key@),
    ensures
        manifest_tops(*final(doc)) == manifest_tops(*old(doc)).insert(key@, true),
        manifest_entries(*final(doc)) == manifest_entries(*old(doc)),
        manifest_paths(*final(doc)) == manifest_paths(*old(doc)),
{
    doc.insert(key, toml_edit::Item::Table(toml_edit::Table::new()));
}

/// Relies on `toml_edit`'s `Table::get_mut`, `Item::as_table_like_mut` and
/// `TableLike::insert` (which turns a table into an inline table inside an
/// inline table): adds an empty table `sub` to the top-level table `top`.
#[verifier::external_body]
fn insert_sub_table(doc: &mut toml_edit::DocumentMut, top: &str, sub: &str)
    requires
        manifest_tops(*old(doc)).contains_key(top@),
        manifest_tops(*old(doc))[top@],
        !manifest_entries(*old(doc)).contains_key((top@, sub@)),
    ensures
        manifest_tops(*final(doc)) == manifest_tops(*old(doc)),
        manifest_entries(*final(doc)) == manifest_entries(*old(doc)).insert((top@, sub@), DependencyModel::Table(None)),
        manifest_paths(*final(doc)) == manifest_paths(*old(doc)),
{
    if let Some(t) = doc.get_mut(top).and_then(|i| i.as_table_like_mut()) {
        t.insert(sub, toml_edit::Item::Table(toml_edit::Table::new()));
    }
}

/// Relies on `toml_edit`'s `Table::get_mut`, `Item::as_table_like_mut`,
/// `TableLike::get_mut`, `InlineTable::insert`, `Value::decor_mut` and
/// `TableLike::insert`: sets entry `name` of table `top.sub` to the inline
/// table `{ <field> = "<value>" }`, with `comment` after it where `top.sub`
/// is a standard table.
#[verifier::external_body]
fn write_sub_entry_path(
    doc: &mut toml_edit::DocumentMut,
    top: &str,
    sub: &str,
    name: &str,
    field: &str,
    value: &str,
    comment: &str,
)
    requires
        field@ == PATH_FIELD@,
        manifest_tops(*old(doc)).contains_key(top@),
        manifest_tops(*old(doc))[top@],
        manifest_entries(*old(doc)).contains_key((top@, sub@)),
        manifest_entries(*old(doc))[(top@, sub@)] is Table,
        comment_safe(comment@),
    ensures
        manifest_tops(*final(doc)) == manifest_tops(*old(doc)),
        same_outside(manifest_entries(*old(doc)), manifest_entries(*final(doc)), top@),
        manifest_entries(*final(doc)).contains_key((top@, sub@)),
        manifest_entries(*final(doc))[(top@, sub@)] is Table,
        manifest_paths(*final(doc)) == manifest_paths(*old(doc)).insert((top@, sub@, name@), value@),
{
    let sub_item = doc.get_mut(top).and_then(|i| i.as_table_like_mut()).and_then(|t| t.get_mut(sub));
    if let Some(sub_item) = sub_item {
        let in_table = sub_item.is_table();
        if let Some(t) = sub_item.as_table_like_mut() {
            let mut inline = toml_edit::InlineTable::new();
            inline.insert(field, toml_edit::Value::from(value));
            let mut entry = toml_edit::Value::InlineTable(inline);
            if in_table {
                entry.decor_mut().set_suffix(comment);
            }
            t.insert(name, toml_edit::Item::Value(entry));
        }
    }
}

/// A declaration once pinned to `version`.
pub open spec fn pin_entry(d: DependencyModel, version: Seq<char>) -> DependencyModel {
    match d {
        DependencyModel::Version(_) => DependencyModel::Version(version),
        DependencyModel::Table(_) => DependencyModel::Table(Some(version)),
        DependencyModel::Other => DependencyModel::Other,
    }
}

/// The declarations once the one of `name` in `section`, if any, is pinned.
pub open spec fn pin_section(
    m: Map<(Seq<char>, Seq<char>), DependencyModel>,
    section: Seq<char>,
    name: Seq<char>,
    version: Seq<char>,
) -> Map<(Seq<char>, Seq<char>), DependencyModel> {
    if m.contains_key((section, name)) {
        m.insert((section, name), pin_entry(m[(section, name)], version))
    } else {
        m
    }
}

pub const NORMAL_DEPENDENCIES: &'static str = "dependencies";
pub const DEV_DEPENDENCIES: &'static str = "dev-dependencies";
pub const BUILD_DEPENDENCIES: &'static str = "build-dependencies";

/// The declarations once `name` is pinned in the normal, dev and build
/// dependency tables.
pub open spec fn pin_all(
    m: Map<(Seq<char>, Seq<char>), DependencyModel>,
    name: Seq<char>,
    version: Seq<char>,
) -> Map<(Seq<char>, Seq<char>), DependencyModel> {
    pin_section(
        pin_section(pin_section(m, NORMAL_DEPENDENCIES@, name, version), DEV_DEPENDENCIES@, name, version),
        BUILD_DEPENDENCIES@,
        name,
        version,
    )
}

/// The requirement that admits exactly `version`.
pub open spec fn exact_requirement(version: Seq<char>) -> Seq<char> {
    "="@ + version
}

/// The comment left after a rewritten declaration, kept on one line.
pub fn pin_comment(old: &Option<String>, new: &str) -> (r: String)
    ensures
        r@ == comment_text(
            " # auto lock the dependency version, from "@ + (match old {
                Some(s) => s@,
                None => "<none>"@,
            }) + " to "@ + new@,
        ),
        comment_safe(r@),
{
    let mut s = " # auto lock the dependency version, from ".to_owned();
    match old {
        Some(o) => s.append(o.as_str()),
        None => s.append("<none>"),
    }
    s.append(" to ");
    s.append(new);
    comment_line(s.as_str())
}

fn pin_in_section(doc: &mut toml_edit::DocumentMut, section: &str, name: &str, version: &str)
    ensures
        manifest_entries(*final(doc)) == pin_section(manifest_entries(*old(doc)), section@, name@, version@),
        manifest_tops(*final(doc)) == manifest_tops(*old(doc)),
{
    match read_entry(doc, section, name, VERSION_FIELD) {
        DependencySpec::Version(old) => {
            let comment = pin_comment(&Some(old), version);
            write_version_string(doc, section, name, version, comment.as_str());
        },
        DependencySpec::Table(old) => {
            let comment = pin_comment(&old, version);
            write_table_version(doc, section, name, VERSION_FIELD, version, comment.as_str());
        },
        DependencySpec::Other => {
            assert(manifest_entries(*doc).insert((section@, name@), DependencyModel::Other) =~= manifest_entries(
                *doc,
            ));
        },
        DependencySpec::Absent => {},
    }
}

/// Pins every declaration of `parent_name` among the normal, dev and build
/// dependencies to exactly `parent_version`.
pub fn pin_parent(doc: &mut toml_edit::DocumentMut, parent_name: &str, parent_version: &str)
    ensures
        manifest_entries(*final(doc)) == pin_all(
            manifest_entries(*old(doc)),
            parent_name@,
            exact_requirement(parent_version@),
        ),
        manifest_tops(*final(doc)) == manifest_tops(*old(doc)),
{
    let mut exact = "=".to_owned();
    exact.append(parent_version);
    pin_in_section(doc, NORMAL_DEPENDENCIES, parent_name, exact.as_str());
    pin_in_section(doc, DEV_DEPENDENCIES, parent_name, exact.as_str());
    pin_in_section(doc, BUILD_DEPENDENCIES, parent_name, exact.as_str());
}

/// The manifest text with `parent_name` pinned to exactly `parent_version`;
/// an error where the text is no TOML document. The text returned reads as
/// the same document but for the pinned declarations.
pub fn pin_manifest(text: &str, parent_name: &str, parent_version: &str) -> (r: Result<String, TrackerError>)
    ensures
        r.is_err() <==> !toml_document_valid(text@),
        r.is_err() ==> r == Err::<String, TrackerError>(TrackerError::PatchFailed),
        r.is_ok() ==> toml_document_valid(r.unwrap()@) && parsed_manifest(r.unwrap()@) == pin_all(
            parsed_manifest(text@),
            parent_name@,
            exact_requirement(parent_version@),
        ) && parsed_tops(r.unwrap()@) == parsed_tops(text@),
{
    match parse_manifest(text) {
        Some(mut doc) => {
            pin_parent(&mut doc, parent_name, parent_version);
            Ok(render_manifest(&doc))
        },
        None => Err(TrackerError::PatchFailed),
    }
}

proof fn lemma_pin_entry_idempotent(d: DependencyModel, version: Seq<char>)
    ensures
        pin_entry(pin_entry(d, version), version) == pin_entry(d, version),
{
}

proof fn lemma_pin_section_idempotent(
    m: Map<(Seq<char>, Seq<char>), DependencyModel>,
    section: Seq<char>,
    name: Seq<char>,
    version: Seq<char>,
)
    ensures
        pin_section(pin_section(m, section, name, version), section, name, version) == pin_section(
            m,
            section,
            name,
            version,
        ),
{
    if m.contains_key((section, name)) {
        lemma_pin_entry_idempotent(m[(section, name)], version);
        assert(pin_section(pin_section(m, section, name, version), section, name, version) =~= pin_section(
            m,
            section,
            name,
            version,
        ));
    }
}

proof fn lemma_pin_section_commute(
    m: Map<(Seq<char>, Seq<char>), DependencyModel>,
    first: Seq<char>,
    second: Seq<char>,
    name: Seq<char>,
    version: Seq<char>,
)
    ensures
        pin_section(pin_section(m, first, name, version), second, name, version) == pin_section(
            pin_section(m, second, name, version),
            first,
            name,
            version,
        ),
{
    if first == second {
    } else {
        assert(pin_section(pin_section(m, first, name, version), second, name, version) =~= pin_section(
            pin_section(m, second, name, version),
            first,
            name,
            version,
        ));
    }
}

/// Pinning is idempotent: pinning an already pinned manifest to the same
/// version leaves its declarations as they are.
pub proof fn lemma_pin_idempotent(
    m: Map<(Seq<char>, Seq<char>), DependencyModel>,
    name: Seq<char>,
    version: Seq<char>,
)
    ensures
        pin_all(pin_all(m, name, version), name, version) == pin_all(m, name, version),
{
    let n = NORMAL_DEPENDENCIES@;
    let d = DEV_DEPENDENCIES@;
    let b = BUILD_DEPENDENCIES@;
    let a1 = pin_section(m, n, name, version);
    let a2 = pin_section(a1, d, name, version);
    let a3 = pin_section(a2, b, name, version);
    // pin_all(a3) = b(d(n(a3))); move the second n, d, b next to their twins.
    lemma_pin_section_commute(a2, b, n, name, version);
    lemma_pin_section_commute(a1, d, n, name, version);
    lemma_pin_section_idempotent(m, n, name, version);
    let c1 = pin_section(a3, n, name, version);
    assert(c1 == a3);
    lemma_pin_section_commute(a1, b, d, name, version);
    lemma_pin_section_idempotent(a1, d, name, version);
    let c2 = pin_section(c1, d, name, version);
    assert(c2 == a3);
    lemma_pin_section_idempotent(a2, b, name, version);
}

/// Pinning the text twice gives the declarations of pinning it once.
pub proof fn lemma_pin_text_idempotent(text: Seq<char>, once: Seq<char>, twice: Seq<char>, name: Seq<char>, version: Seq<char>)
    requires
        parsed_manifest(once) == pin_all(parsed_manifest(text), name, exact_requirement(version)),
        parsed_manifest(twice) == pin_all(parsed_manifest(once), name, exact_requirement(version)),
    ensures
        parsed_manifest(twice) == parsed_manifest(once),
{
    lemma_pin_idempotent(parsed_manifest(text), name, exact_requirement(version));
}

pub const PATCH_TABLE: &'static str = "patch";
pub const CRATES_IO: &'static str = "crates-io";

/// `vendor/name-version`: where a vendored copy of a dependency is kept,
/// relative to the manifest.
pub open spec fn vendor_path(name: Seq<char>, version: Seq<char>) -> Seq<char> {
    "vendor/"@ + name + "-"@ + version
}

/// The manifest can take an override: `patch` is a table or missing, and
/// `patch.crates-io` is a table or missing.
pub open spec fn patch_ready(tops: Map<Seq<char>, bool>, entries: Map<(Seq<char>, Seq<char>), DependencyModel>) -> bool {
    &&& tops.contains_key(PATCH_TABLE@) ==> tops[PATCH_TABLE@]
    &&& entries.contains_key((PATCH_TABLE@, CRATES_IO@)) ==> entries[(PATCH_TABLE@, CRATES_IO@)] is Table
}

/// The entries of every table but `patch` agree.
pub open spec fn same_outside_patch(
    a: Map<(Seq<char>, Seq<char>), DependencyModel>,
    b: Map<(Seq<char>, Seq<char>), DependencyModel>,
) -> bool {
    same_outside(a, b, PATCH_TABLE@)
}

/// The override of `name` by its vendored copy at `version` was added: the
/// top-level tables are those before plus `patch`, every table but `patch`
/// is as before, and the `path` overrides are those before plus this one.
pub open spec fn vendored(
    tops0: Map<Seq<char>, bool>,
    entries0: Map<(Seq<char>, Seq<char>), DependencyModel>,
    paths0: Map<(Seq<char>, Seq<char>, Seq<char>), Seq<char>>,
    tops1: Map<Seq<char>, bool>,
    entries1: Map<(Seq<char>, Seq<char>), DependencyModel>,
    paths1: Map<(Seq<char>, Seq<char>, Seq<char>), Seq<char>>,
    name: Seq<char>,
    version: Seq<char>,
) -> bool {
    &&& tops1 == tops0.insert(PATCH_TABLE@, true)
    &&& same_outside_patch(entries0, entries1)
    &&& entries1.contains_key((PATCH_TABLE@, CRATES_IO@))
    &&& entries1[(PATCH_TABLE@, CRATES_IO@)] is Table
    &&& paths1 == paths0.insert((PATCH_TABLE@, CRATES_IO@, name), vendor_path(name, version))
}

/// Takes `dep_name` from its vendored copy at `dep_version` instead of the
/// registry, for a version the registry no longer serves: adds
/// `[patch.crates-io]` where it is missing and sets the entry there.
pub fn vendor_and_patch_dep(doc: &mut toml_edit::DocumentMut, dep_name: &str, dep_version: &str) -> (r: Result<
    (),
    TrackerError,
>)
    ensures
        r.is_err() <==> !patch_ready(manifest_tops(*old(doc)), manifest_entries(*old(doc))),
        r.is_err() ==> r == Err::<(), TrackerError>(TrackerError::PatchFailed) && *final(doc) == *old(doc),
        r.is_ok() ==> vendored(
            manifest_tops(*old(doc)),
            manifest_entries(*old(doc)),
            manifest_paths(*old(doc)),
            manifest_tops(*final(doc)),
            manifest_entries(*final(doc)),
            manifest_paths(*final(doc)),
            dep_name@,
            dep_version@,
        ),
{
    let ghost tops0 = manifest_tops(*doc);
    let ghost entries0 = manifest_entries(*doc);
    let ghost paths0 = manifest_paths(*doc);
    match read_top(doc, PATCH_TABLE) {
        TopKind::Other => return Err(TrackerError::PatchFailed),
        TopKind::Absent => {
            insert_top_table(doc, PATCH_TABLE);
        },
        TopKind::Table => {},
    }
    assert(manifest_tops(*doc) =~= tops0.insert(PATCH_TABLE@, true));
    match read_entry(doc, PATCH_TABLE, CRATES_IO, VERSION_FIELD) {
        DependencySpec::Table(_) => {},
        DependencySpec::Absent => {
            insert_sub_table(doc, PATCH_TABLE, CRATES_IO);
        },
        _ => {
            assert(!patch_ready(tops0, entries0));
            return Err(TrackerError::PatchFailed);
        },
    }
    let ghost entries1 = manifest_entries(*doc);
    let ghost paths1 = manifest_paths(*doc);
    assert(paths1 == paths0);
    assert(same_outside(entries0, entries1, PATCH_TABLE@));
    let mut path = "vendor/".to_owned();
    path.append(dep_name);
    path.append("-");
    path.append(dep_version);
    let mut raw = " # auto use vendored ".to_owned();
    raw.append(dep_name);
    raw.append(":");
    raw.append(dep_version);
    raw.append(" to avoid yanked resolution");
    let comment = comment_line(raw.as_str());
    write_sub_entry_path(doc, PATCH_TABLE, CRATES_IO, dep_name, PATH_FIELD, path.as_str(), comment.as_str());
    proof {
        let entries2 = manifest_entries(*doc);
        assert forall|s: Seq<char>, n: Seq<char>| s != PATCH_TABLE@ implies (entries0.contains_key((s, n))
            == entries2.contains_key((s, n))) && entries0[(s, n)] == entries2[(s, n)] by {
            assert(entries1.contains_key((s, n)) == entries0.contains_key((s, n)) && entries1[(s, n)] == entries0[(s, n)]);
            assert(entries2.contains_key((s, n)) == entries1.contains_key((s, n)) && entries2[(s, n)] == entries1[(s, n)]);
        }
        assert(same_outside(entries0, entries2, PATCH_TABLE@));
        assert(manifest_paths(*doc) == paths0.insert((PATCH_TABLE@, CRATES_IO@, dep_name@), path@));
    }
    Ok(())
}

/// The manifest text with `dep_name` taken from `vendor/dep_name-dep_version`;
/// an error where the text is no TOML document or its `patch` table cannot
/// take the override. The text returned reads as the same document plus the
/// override.
pub fn vendor_manifest(text: &str, dep_name: &str, dep_version: &str) -> (r: Result<String, TrackerError>)
    ensures
        r.is_err() <==> !toml_document_valid(text@) || !patch_ready(parsed_tops(text@), parsed_manifest(text@)),
        r.is_err() ==> r == Err::<String, TrackerError>(TrackerError::PatchFailed),
        r.is_ok() ==> toml_document_valid(r.unwrap()@) && vendored(
            parsed_tops(text@),
            parsed_manifest(text@),
            parsed_paths(text@),
            parsed_tops(r.unwrap()@),
            parsed_manifest(r.unwrap()@),
            parsed_paths(r.unwrap()@),
            dep_name@,
            dep_version@,
        ),
{
    match parse_manifest(text) {
        Some(mut doc) => {
            vendor_and_patch_dep(&mut doc, dep_name, dep_version)?;
            Ok(render_manifest(&doc))
        },
        None => Err(TrackerError::PatchFailed),
    }
}

/// Vendoring the text twice gives the document of vendoring it once.
pub proof fn lemma_vendor_text_idempotent(
    text: Seq<char>,
    once: Seq<char>,
    twice: Seq<char>,
    name: Seq<char>,
    version: Seq<char>,
)
    requires
        vendored(
            parsed_tops(text),
            parsed_manifest(text),
            parsed_paths(text),
            parsed_tops(once),
            parsed_manifest(once),
            parsed_paths(once),
            name,
            version,
        ),
        vendored(
            parsed_tops(once),
            parsed_manifest(once),
            parsed_paths(once),
            parsed_tops(twice),
            parsed_manifest(twice),
            parsed_paths(twice),
            name,
            version,
        ),
    ensures
        parsed_tops(twice) == parsed_tops(once),
        same_outside_patch(parsed_manifest(once), parsed_manifest(twice)),
        parsed_paths(twice) == parsed_paths(once),
{
    assert(parsed_tops(twice) =~= parsed_tops(once));
    assert(parsed_paths(twice) =~= parsed_paths(once));
}

} // verus!
