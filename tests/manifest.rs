use cvetracker::error::TrackerError;
use cvetracker::manifest::{comment_line, pin_comment, pin_manifest, vendor_manifest};

fn version_of(text: &str, section: &str, name: &str) -> Option<String> {
    let doc: toml_edit::DocumentMut = text.parse().unwrap();
    let item = doc.get(section)?.as_table_like()?.get(name)?;
    if let Some(s) = item.as_str() {
        return Some(s.to_string());
    }
    item.as_table_like()?.get("version")?.as_str().map(|s| s.to_string())
}

const MANIFEST: &str = r#"[package]
name = "libB"
version = "0.1.0"

[dependencies]
libA = "1"
serde = { version = "1", features = ["derive"] }

[dev-dependencies]
libA = { version = "0.9", default-features = false }

[build-dependencies.libA]
path = "../libA"
"#;

#[test]
fn pins_every_declaration() {
    let out = pin_manifest(MANIFEST, "libA", "1.0.0").unwrap();
    assert_eq!(version_of(&out, "dependencies", "libA").as_deref(), Some("=1.0.0"));
    assert_eq!(version_of(&out, "dev-dependencies", "libA").as_deref(), Some("=1.0.0"));
    assert_eq!(version_of(&out, "build-dependencies", "libA").as_deref(), Some("=1.0.0"));
    assert_eq!(version_of(&out, "dependencies", "serde").as_deref(), Some("1"));
    let doc: toml_edit::DocumentMut = out.parse().unwrap();
    assert_eq!(doc["dev-dependencies"]["libA"]["default-features"].as_bool(), Some(false));
    assert_eq!(doc["build-dependencies"]["libA"]["path"].as_str(), Some("../libA"));
    assert!(out.contains("# auto lock the dependency version, from 1 to =1.0.0"));
    assert!(out.contains("from <none> to =1.0.0"));
}

#[test]
fn pinning_twice_changes_nothing_more() {
    let once = pin_manifest(MANIFEST, "libA", "1.0.0").unwrap();
    let twice = pin_manifest(&once, "libA", "1.0.0").unwrap();
    for section in ["dependencies", "dev-dependencies", "build-dependencies"] {
        assert_eq!(version_of(&once, section, "libA"), version_of(&twice, section, "libA"));
    }
    let strip = |s: &str| s.lines().map(|l| l.split('#').next().unwrap().trim_end().to_string()).collect::<Vec<_>>();
    assert_eq!(strip(&once), strip(&twice));
}

#[test]
fn absent_dependency_leaves_manifest() {
    let text = "[dependencies]\nother = \"2\"\n";
    assert_eq!(pin_manifest(text, "libA", "1.0.0").unwrap(), text);
}

#[test]
fn broken_manifest_is_patch_failure() {
    assert_eq!(pin_manifest("[dependencies\nlibA = ", "libA", "1.0.0"), Err(TrackerError::PatchFailed));
}

#[test]
fn comment_names_old_and_new() {
    assert_eq!(pin_comment(&Some("^1".to_string()), "=1.2.0"), " # auto lock the dependency version, from ^1 to =1.2.0");
    assert_eq!(pin_comment(&None, "=1.2.0"), " # auto lock the dependency version, from <none> to =1.2.0");
}

#[test]
fn vendoring_adds_a_patch_override() {
    let out = vendor_manifest(MANIFEST, "libA", "1.0.0").unwrap();
    let doc: toml_edit::DocumentMut = out.parse().unwrap();
    assert_eq!(doc["patch"]["crates-io"]["libA"]["path"].as_str(), Some("vendor/libA-1.0.0"));
    assert_eq!(version_of(&out, "dependencies", "libA").as_deref(), Some("1"));
    assert!(out.contains("# auto use vendored libA:1.0.0 to avoid yanked resolution"));
    let twice = vendor_manifest(&out, "libA", "1.0.0").unwrap();
    let doc2: toml_edit::DocumentMut = twice.parse().unwrap();
    assert_eq!(doc2["patch"]["crates-io"]["libA"]["path"].as_str(), Some("vendor/libA-1.0.0"));
    assert_eq!(vendor_manifest("[x", "libA", "1.0.0"), Err(TrackerError::PatchFailed));
}

#[test]
fn vendoring_into_inline_patch_table() {
    let text = "[dependencies]\nlibA = \"1\"\n\n[patch]\ncrates-io = { other = { path = \"x\" } }\n";
    let out = vendor_manifest(text, "libA", "1.0.0").unwrap();
    let doc: toml_edit::DocumentMut = out.parse().unwrap();
    assert_eq!(doc["patch"]["crates-io"]["libA"]["path"].as_str(), Some("vendor/libA-1.0.0"));
    assert_eq!(doc["patch"]["crates-io"]["other"]["path"].as_str(), Some("x"));
    let inline_top = "patch = { crates-io = {} }\n[dependencies]\nlibA = \"1\"\n";
    let out = vendor_manifest(inline_top, "libA", "1.0.0").unwrap();
    let doc: toml_edit::DocumentMut = out.parse().unwrap();
    assert_eq!(doc["patch"]["crates-io"]["libA"]["path"].as_str(), Some("vendor/libA-1.0.0"));
    assert_eq!(vendor_manifest("patch = 3\n", "libA", "1.0.0"), Err(TrackerError::PatchFailed));
    assert_eq!(vendor_manifest("[patch]\ncrates-io = 3\n", "libA", "1.0.0"), Err(TrackerError::PatchFailed));
}

#[test]
fn comments_stay_on_one_line() {
    let text = "[dependencies]\nlibA = \"1\\n\\r2\"\n";
    let out = pin_manifest(text, "libA", "1.0.0\nx").unwrap();
    let doc: toml_edit::DocumentMut = out.parse().unwrap();
    assert_eq!(doc["dependencies"]["libA"].as_str(), Some("=1.0.0\nx"));
    assert_eq!(comment_line("a\nb\tc\u{7f}d"), "ab\tcd");
}

#[test]
fn pins_inside_inline_dependency_table() {
    let text = "dependencies = { libA = \"1\", other = { version = \"2\" } }\n";
    let out = pin_manifest(text, "libA", "1.0.0").unwrap();
    let doc: toml_edit::DocumentMut = out.parse().unwrap();
    assert_eq!(doc["dependencies"]["libA"].as_str(), Some("=1.0.0"));
    let text = "dependencies = { libA = { version = \"1\", optional = true } }\n";
    let out = pin_manifest(text, "libA", "1.0.0").unwrap();
    let doc: toml_edit::DocumentMut = out.parse().unwrap();
    assert_eq!(doc["dependencies"]["libA"]["version"].as_str(), Some("=1.0.0"));
    assert_eq!(doc["dependencies"]["libA"]["optional"].as_bool(), Some(true));
}
