use gam::export::{iso8601_now, iso8601_of, FileService};
use gam::aliases::GitAlias;
use gam::repos::KnownReposService;
use gam::settings::SettingsService;

fn alias(name: &str, command: &str, scope: &str) -> GitAlias {
    GitAlias {
        name: name.to_string(),
        command: command.to_string(),
        scope: scope.to_string(),
        local_path: None,
        score: None,
    }
}

#[test]
fn iso8601_now_format() {
    let ts = iso8601_now();
    // Should match YYYY-MM-DDTHH:MM:SSZ
    assert!(ts.ends_with('Z'));
    assert_eq!(ts.len(), 20);
    assert_eq!(&ts[4..5], "-");
    assert_eq!(&ts[7..8], "-");
    assert_eq!(&ts[10..11], "T");
    assert_eq!(&ts[13..14], ":");
    assert_eq!(&ts[16..17], ":");
}

#[test]
fn iso8601_exact_values() {
    assert_eq!(iso8601_of(0), "1970-01-01T00:00:00Z");
    assert_eq!(iso8601_of(1700000000), "2023-11-14T22:13:20Z");
    assert_eq!(iso8601_of(951854402), "2000-02-29T20:00:02Z");
    // the last second the 20-character shape is guaranteed for
    assert_eq!(iso8601_of(253402300799), "9999-12-31T23:59:59Z");
}

#[test]
fn known_repo_add_is_idempotent() {
    let mut repos = KnownReposService::new();
    let mut writes = 0;
    if repos.add("/tmp/repo") {
        writes += 1;
    }
    if repos.add("/tmp/repo") {
        writes += 1;
    }
    assert_eq!(writes, 1);
    assert_eq!(repos.get_all(), vec!["/tmp/repo".to_string()]);
}

#[test]
fn known_repo_remove_reports_membership() {
    let mut repos = KnownReposService::from_paths(vec![
        "/a".to_string(),
        "/b".to_string(),
        "/a".to_string(),
    ]);
    assert_eq!(repos.get_all().len(), 2);
    assert!(repos.remove("/a"));
    assert!(!repos.remove("/a"));
    assert_eq!(repos.get_all(), vec!["/b".to_string()]);
}

#[test]
fn registry_json_round_trips() {
    let mut repos = KnownReposService::new();
    repos.add("/tmp/one");
    repos.add("/tmp/two");
    let text = repos.to_json();
    let decoded: Vec<String> = serde_json::from_str(&text).unwrap();
    assert_eq!(decoded, vec!["/tmp/one".to_string(), "/tmp/two".to_string()]);
    let reloaded = KnownReposService::paths_from_json(&text);
    assert_eq!(reloaded, decoded);
    assert_eq!(KnownReposService::paths_from_json("not json"), Vec::<String>::new());
}

#[test]
fn settings_store_and_overwrite() {
    let mut s = SettingsService::new();
    assert_eq!(s.get("theme"), None);
    s.set("theme", "dark");
    assert_eq!(s.get("theme").as_deref(), Some("dark"));
    s.set("theme", "light");
    assert_eq!(s.get("theme").as_deref(), Some("light"));
    assert_eq!(s.entries.len(), 1);
}

#[test]
fn import_refuses_nameless_record() {
    let err = FileService::import_aliases(vec![alias("", "checkout", "global")]).unwrap_err();
    assert!(err.contains("missing or invalid \"name\""));
}

#[test]
fn import_refuses_commandless_record() {
    let err = FileService::import_aliases(vec![alias("co", "", "global")]).unwrap_err();
    assert_eq!(err, "Invalid alias \"co\": missing or invalid \"command\" field");
}

#[test]
fn import_defaults_missing_scope_to_global() {
    let ok = FileService::import_aliases(vec![alias("co", "checkout", "")]).unwrap();
    assert_eq!(ok[0].scope, "global");
}

#[test]
fn export_payload_carries_version_and_timestamp() {
    let data = FileService::export_aliases(vec![alias("co", "checkout", "global")]);
    assert_eq!(data.version, "1.0.0");
    assert!(data.exported_at.ends_with('Z'));
    assert_eq!(data.aliases.len(), 1);
    assert_eq!(data.aliases[0].name, "co");
}
