use std::path::PathBuf;

use surf_fed::{
    guess_kind, info_from_manifest, init_registry, kind_from_lowercase, list_info,
    manifest_from_json, sort_by_key,
    remove_extension, set_enabled, ExtensionInfo, ExtensionRegistry, Manifest, PersistedState,
    RegistryEntry, ToggleState,
};

fn manifest(name: Option<&str>) -> Manifest {
    Manifest { name: name.map(|s| s.to_string()), version: None, description: None }
}

fn entry(id: &str, name: &str, builtin: bool) -> RegistryEntry {
    let mut info = info_from_manifest(id, &manifest(Some(name)), builtin);
    info.enabled = true;
    RegistryEntry { info, path: PathBuf::from(format!("/ext/{id}")) }
}

fn strings(v: &[&str]) -> Vec<String> {
    v.iter().map(|s| s.to_string()).collect()
}

#[test]
fn kinds_are_guessed_from_id_and_name() {
    assert_eq!(guess_kind("Ad-Blocker", &manifest(None)), "ad-blocker");
    assert_eq!(guess_kind("x", &manifest(Some("My Ad Block"))), "ad-blocker");
    assert_eq!(guess_kind("dark-reader", &manifest(None)), "dark-reader");
    assert_eq!(guess_kind("x", &manifest(Some("Dark Reader"))), "dark-reader");
    assert_eq!(guess_kind("page-info", &manifest(None)), "page-info");
    assert_eq!(guess_kind("x", &manifest(Some("Page Info"))), "page-info");
    assert_eq!(guess_kind("fed-gram", &manifest(None)), "fed-gram");
    assert_eq!(guess_kind("x", &manifest(Some("Instagram saver"))), "fed-gram");
    assert_eq!(guess_kind("x", &manifest(Some("Something"))), "custom");
}

#[test]
fn record_fields_fall_back_to_defaults() {
    let info = info_from_manifest("my-ext", &manifest(None), true);
    assert_eq!(info.id, "my-ext");
    assert_eq!(info.name, "my-ext");
    assert_eq!(info.version, "1.0.0");
    assert_eq!(info.description, "");
    assert!(info.enabled && info.builtin && info.load_error.is_none());
    assert_eq!(info.kind, "custom");
    let full = Manifest {
        name: Some("Dark Reader".into()),
        version: Some("4.9".into()),
        description: Some("night".into()),
    };
    let info = info_from_manifest("dr", &full, false);
    assert_eq!((info.name.as_str(), info.version.as_str(), info.description.as_str()), ("Dark Reader", "4.9", "night"));
    assert_eq!(info.kind, "dark-reader");
}

#[test]
fn descriptor_text_is_read() {
    let m = manifest_from_json(r#"{"name": "Ad Blocker", "version": 2, "description": "x"}"#)
        .unwrap();
    assert_eq!(m.name.as_deref(), Some("Ad Blocker"));
    assert_eq!(m.version, None);
    assert_eq!(m.description.as_deref(), Some("x"));
    let bare = manifest_from_json("[1, 2]").unwrap();
    assert!(bare.name.is_none() && bare.version.is_none() && bare.description.is_none());
    assert!(manifest_from_json("{not json").is_none());
}

#[test]
fn startup_applies_disabled_ids_and_user_overrides() {
    let reg = init_registry(
        vec![entry("ad-blocker", "Ad Blocker", true), entry("dark-reader", "Dark Reader", true)],
        vec![entry("dark-reader", "My Dark", false), entry("zed", "zed tool", false)],
        &strings(&["ad-blocker", "zed"]),
    );
    let list = list_info(&reg);
    let names: Vec<&str> = list.iter().map(|i| i.name.as_str()).collect();
    assert_eq!(names, vec!["Ad Blocker", "My Dark", "zed tool"]);
    assert!(!list[0].enabled);
    assert!(list[1].enabled && !list[1].builtin);
    assert!(!list[2].enabled);
}

#[test]
fn listing_is_sorted_ignoring_case() {
    let reg = init_registry(
        vec![entry("b", "beta", true), entry("a", "Alpha", true), entry("c", "GAMMA", true)],
        vec![],
        &vec![],
    );
    let list = list_info(&reg);
    let ids: Vec<&str> = list.iter().map(|i: &ExtensionInfo| i.id.as_str()).collect();
    assert_eq!(ids, vec!["a", "b", "c"]);
}

#[test]
fn enabling_and_disabling_updates_registry_and_state() {
    let mut reg = init_registry(vec![entry("x", "X", true)], vec![], &vec![]);
    let mut state = PersistedState::default();
    assert!(set_enabled(&mut reg, &mut state, "x", false).is_ok());
    assert!(!reg.get("x").unwrap().info.enabled);
    let listed = list_info(&reg);
    assert_eq!(listed.len(), 1);
    assert!(!listed[0].enabled);
    assert_eq!(state.disabled, strings(&["x"]));
    assert!(set_enabled(&mut reg, &mut state, "x", false).is_ok());
    assert_eq!(state.disabled, strings(&["x"]));
    assert!(set_enabled(&mut reg, &mut state, "x", true).is_ok());
    assert!(reg.get("x").unwrap().info.enabled);
    assert!(state.disabled.is_empty());
    let err = set_enabled(&mut reg, &mut state, "nope", true).unwrap_err();
    assert_eq!(err, "Extension not found: nope");
}

#[test]
fn removal_rules() {
    let mut reg = init_registry(
        vec![entry("builtin", "B", true)],
        vec![entry("user", "U", false)],
        &vec![],
    );
    let mut state = PersistedState {
        disabled: strings(&["user", "other", "user"]),
        adblock_enabled: true,
        darkreader_enabled: false,
    };
    assert_eq!(
        remove_extension(&mut reg, &mut state, "builtin").unwrap_err(),
        "Built-in extensions cannot be removed"
    );
    assert_eq!(
        remove_extension(&mut reg, &mut state, "ghost").unwrap_err(),
        "Extension not found: ghost"
    );
    assert_eq!(remove_extension(&mut reg, &mut state, "user").unwrap(), PathBuf::from("/ext/user"));
    assert!(!reg.contains_id("user"));
    assert!(reg.contains_id("builtin"));
    assert_eq!(state.disabled, strings(&["other"]));
    assert!(state.adblock_enabled);
}

#[test]
fn rescan_adds_only_new_ids() {
    let mut reg = init_registry(vec![], vec![entry("a", "A", false)], &vec![]);
    let added = reg.register_new_entries(
        vec![entry("a", "changed", false), entry("b", "B", false), entry("b", "B2", false)],
        &strings(&["b"]),
    );
    assert_eq!(added, 1);
    assert_eq!(reg.get("a").unwrap().info.name, "A");
    let b = reg.get("b").unwrap();
    assert_eq!(b.info.name, "B");
    assert!(!b.info.enabled);
}

#[test]
fn added_extension_replaces_same_id() {
    let mut reg = init_registry(vec![], vec![entry("e", "Old", false)], &vec![]);
    let info = reg.register_added("e", PathBuf::from("/new/e"), &manifest(Some("New")));
    assert_eq!(info.name, "New");
    assert!(info.enabled && !info.builtin);
    let e = reg.get("e").unwrap();
    assert_eq!(e.path, PathBuf::from("/new/e"));
    assert_eq!(list_info(&reg).len(), 1);
}

#[test]
fn toggles_are_persisted() {
    let mut state = PersistedState::default();
    assert!(!state.adblock_enabled && !state.darkreader_enabled);
    state.save_toggles(true, false);
    let t = ToggleState::from_persisted(&state);
    assert!(t.adblock && !t.darkreader);
    state.record_enabled("z", false);
    state.forget("z");
    assert!(state.disabled.is_empty());
}

#[test]
fn empty_registry() {
    let reg = ExtensionRegistry::new();
    assert!(list_info(&reg).is_empty());
    assert!(reg.get("x").is_none());
}

#[test]
fn kinds_from_lowercase_text() {
    assert_eq!(kind_from_lowercase("my-ad-blocker", ""), "ad-blocker");
    assert_eq!(kind_from_lowercase("x", "super dark reader"), "dark-reader");
    assert_eq!(kind_from_lowercase("page-info", "ad block"), "ad-blocker");
    assert_eq!(kind_from_lowercase("y", "instagram saver"), "fed-gram");
    assert_eq!(kind_from_lowercase("Ad-Blocker", "Page Info"), "custom");
}

#[test]
fn items_are_sorted_by_key() {
    let item = |k: &str, id: &str| (k.to_string(), info_from_manifest(id, &manifest(None), false));
    let sorted = sort_by_key(vec![item("b", "2"), item("a", "1"), item("c", "3"), item("", "0")]);
    let keys: Vec<&str> = sorted.iter().map(|(k, _)| k.as_str()).collect();
    let ids: Vec<&str> = sorted.iter().map(|(_, i)| i.id.as_str()).collect();
    assert_eq!(keys, vec!["", "a", "b", "c"]);
    assert_eq!(ids, vec!["0", "1", "2", "3"]);
}

#[test]
fn descriptor_fields_are_read_from_their_keys() {
    let m = manifest_from_json(r#"{"description": "d", "version": "2.1", "name": "N"}"#).unwrap();
    assert_eq!(m.name.as_deref(), Some("N"));
    assert_eq!(m.version.as_deref(), Some("2.1"));
    assert_eq!(m.description.as_deref(), Some("d"));
}
