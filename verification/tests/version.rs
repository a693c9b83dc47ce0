use boilmaster::text::IntErrorKind;
use boilmaster::version::registry::{same_version, Registry};
use boilmaster::version::thaliak::{
    latest_versions, patch_list, text_less_than, Error as ThaliakError, RepositoryData, RepositoryPatch,
    RepositoryVersion,
};
use boilmaster::version::{Patch, Repository, Version, VersionKey, VersionMessage};

fn patch(name: &str) -> Patch {
    Patch { name: name.to_string(), path: format!("/patches/{name}") }
}

fn repository(name: &str, patches: &[&str]) -> Repository {
    Repository::new(name.to_string(), patches.iter().map(|p| patch(p)).collect()).expect("non-empty")
}

fn version(repositories: Vec<Repository>) -> Version {
    Version { repositories }
}

#[test]
fn version_key_text_has_sixteen_digits() {
    assert_eq!(VersionKey(0).to_string(), "0000000000000000");
    assert_eq!(VersionKey(0x1234_abcd).to_string(), "000000001234abcd");
    assert_eq!(VersionKey(u64::MAX).to_string(), "ffffffffffffffff");
}

#[test]
fn version_key_text_roundtrip() {
    for value in [0u64, 1, 0xdead_beef, 0x0123_4567_89ab_cdef, u64::MAX] {
        let key = VersionKey(value);
        assert_eq!(VersionKey::from_str(&key.to_string()), Ok(key));
    }
}

#[test]
fn version_key_parse_accepts_what_from_str_radix_accepts() {
    assert_eq!(VersionKey::from_str("ff"), Ok(VersionKey(0xff)));
    assert_eq!(VersionKey::from_str("FF"), Ok(VersionKey(0xff)));
    assert_eq!(VersionKey::from_str("+1a"), Ok(VersionKey(0x1a)));
    assert_eq!(VersionKey::from_str("").unwrap_err().kind, IntErrorKind::Empty);
    assert_eq!(VersionKey::from_str("+").unwrap_err().kind, IntErrorKind::InvalidDigit);
    assert_eq!(VersionKey::from_str("-1").unwrap_err().kind, IntErrorKind::InvalidDigit);
    assert_eq!(VersionKey::from_str("12g4").unwrap_err().kind, IntErrorKind::InvalidDigit);
    assert_eq!(VersionKey::from_str("10000000000000000").unwrap_err().kind, IntErrorKind::PosOverflow);
    // The first failing position decides.
    assert_eq!(VersionKey::from_str("fffffffffffffffffz").unwrap_err().kind, IntErrorKind::PosOverflow);
    assert_eq!(VersionKey::from_str("z0000000000000000000").unwrap_err().kind, IntErrorKind::InvalidDigit);
    for text in ["", "+", "12g4", "10000000000000000", "ff", "+1a"] {
        let ours = VersionKey::from_str(text).map(|k| k.0).map_err(|e| e.kind);
        let std = u64::from_str_radix(text, 16).map_err(|e| match e.kind() {
            std::num::IntErrorKind::Empty => IntErrorKind::Empty,
            std::num::IntErrorKind::InvalidDigit => IntErrorKind::InvalidDigit,
            _ => IntErrorKind::PosOverflow,
        });
        assert_eq!(ours, std, "{text}");
    }
}

#[test]
fn parse_error_descriptions() {
    assert_eq!(VersionKey::from_str("").unwrap_err().description(), "cannot parse integer from empty string");
    assert_eq!(VersionKey::from_str("x").unwrap_err().description(), "invalid digit found in string");
    assert_eq!(
        VersionKey::from_str("1ffffffffffffffff").unwrap_err().description(),
        "number too large to fit in target type"
    );
}

#[test]
fn version_key_hashes_latest_patch_names() {
    let v = version(vec![repository("ffxiv", &["a", "b"]), repository("ex1", &["c"])]);
    let expected = seahash::hash(b"b\xffc\xff");
    assert_eq!(VersionKey::from_version(&v), VersionKey(expected));
    // Only the latest patches count.
    let w = version(vec![repository("ffxiv", &["x", "b"]), repository("ex1", &["c"])]);
    assert_eq!(VersionKey::from_version(&v), VersionKey::from_version(&w));
    let u = version(vec![repository("ffxiv", &["b"]), repository("ex1", &["d"])]);
    assert_ne!(VersionKey::from_version(&v), VersionKey::from_version(&u));
}

#[test]
fn nonempty_patch_lists() {
    assert!(Repository::new("r".to_string(), vec![]).is_none());
    let list = Repository::new("r".to_string(), vec![patch("a"), patch("b"), patch("c")]).unwrap();
    assert_eq!(list.patch_count(), 3);
    assert_eq!(list.latest().name, "c");
    assert_eq!(list.patch(0).unwrap().name, "a");
    assert_eq!(list.patch(2).unwrap().name, "c");
    assert!(list.patch(3).is_none());
    assert_eq!(repository("r", &["x", "y"]).latest().name, "y");
}

#[test]
fn same_version_compares_contents() {
    let a = version(vec![repository("ffxiv", &["a", "b"])]);
    let b = version(vec![repository("ffxiv", &["a", "b"])]);
    let c = version(vec![repository("ffxiv", &["a"])]);
    let d = version(vec![repository("other", &["a", "b"])]);
    assert!(same_version(&a, &b));
    assert!(!same_version(&a, &c));
    assert!(!same_version(&a, &d));
}

#[test]
fn registry_update_tags_latest() {
    let mut registry = Registry::new();
    assert!(!registry.ready());
    assert_eq!(registry.resolve(None), None);
    let v1 = version(vec![repository("ffxiv", &["a"])]);
    let k1 = VersionKey::from_version(&v1);
    assert_eq!(registry.update(v1), Some(k1));
    assert!(registry.ready());
    assert_eq!(registry.resolve(None), Some(k1));
    assert_eq!(registry.resolve(Some("latest")), Some(k1));
    assert_eq!(registry.keys(), vec![k1]);
    // The same version again changes nothing.
    assert_eq!(registry.update(version(vec![repository("ffxiv", &["a"])])), None);
    let v2 = version(vec![repository("ffxiv", &["a", "b"])]);
    let k2 = VersionKey::from_version(&v2);
    assert_eq!(registry.update(v2), Some(k2));
    assert_eq!(registry.resolve(None), Some(k2));
    assert_eq!(registry.keys(), vec![k1, k2]);
    assert_eq!(registry.version(k2).unwrap().repositories.len(), 1);
    assert!(registry.version(VersionKey(7)).is_none());
}

#[test]
fn registry_update_replaces_changed_version_under_same_key() {
    let mut registry = Registry::new();
    let v1 = version(vec![repository("ffxiv", &["a", "b"])]);
    let k1 = VersionKey::from_version(&v1);
    registry.update(v1);
    // Same latest patch, different history: same key, changed version.
    let v2 = version(vec![repository("ffxiv", &["x", "b"])]);
    assert_eq!(VersionKey::from_version(&v2), k1);
    assert_eq!(registry.update(v2), Some(k1));
    assert_eq!(registry.keys(), vec![k1]);
    assert_eq!(registry.version(k1).unwrap().repositories[0].patch(0).unwrap().name, "x");
}

#[test]
fn registry_set_names() {
    let mut registry = Registry::new();
    let v1 = version(vec![repository("ffxiv", &["a"])]);
    let k1 = VersionKey::from_version(&v1);
    let v2 = version(vec![repository("ffxiv", &["b"])]);
    let k2 = VersionKey::from_version(&v2);
    registry.update(v1);
    registry.update(v2);
    registry.set_names(k1, vec!["6.58".to_string(), "old".to_string()]);
    assert_eq!(registry.resolve(Some("6.58")), Some(k1));
    assert_eq!(registry.resolve(Some("old")), Some(k1));
    assert_eq!(registry.resolve(None), Some(k2));
    assert_eq!(registry.names(k1), Some(vec!["6.58".to_string(), "old".to_string()]));
    // Setting the names of a key drops its other names, latest included.
    registry.set_names(k2, vec!["old".to_string()]);
    assert_eq!(registry.resolve(None), None);
    assert_eq!(registry.resolve(Some("old")), Some(k2));
    assert_eq!(registry.names(k1), Some(vec!["6.58".to_string()]));
    assert_eq!(registry.names(k2), Some(vec!["old".to_string()]));
    assert_eq!(registry.names(VersionKey(3)), None);
    let mut all = registry.all_names();
    all.sort();
    assert_eq!(all, vec!["6.58".to_string(), "old".to_string()]);
}

#[test]
fn registry_hydrate_drops_names_of_unknown_keys() {
    let mut registry = Registry::new();
    let v1 = version(vec![repository("ffxiv", &["a"])]);
    let k1 = VersionKey::from_version(&v1);
    let message = registry.hydrate(
        vec![(k1, v1)],
        vec![("latest".to_string(), k1), ("gone".to_string(), VersionKey(99))],
    );
    match message {
        VersionMessage::Hydrate(keys) => assert_eq!(keys, vec![k1]),
        VersionMessage::Changed(_) => panic!("expected a hydrate message"),
    }
    assert_eq!(registry.resolve(None), Some(k1));
    assert_eq!(registry.resolve(Some("gone")), None);
}

fn thaliak_version(name: &str, active: bool, prerequisites: &[&str]) -> RepositoryVersion {
    RepositoryVersion {
        version_string: name.to_string(),
        is_active: active,
        patches: vec![RepositoryPatch { url: format!("http://patches/{name}.patch"), size: 10 }],
        prerequisite_versions: prerequisites.iter().map(|p| p.to_string()).collect(),
    }
}

#[test]
fn patch_list_follows_newest_active_prerequisites() {
    let versions = vec![
        thaliak_version("2024.01", true, &[]),
        thaliak_version("2024.02", true, &["2024.01"]),
        thaliak_version("2024.02b", false, &["2024.01"]),
        thaliak_version("2024.03", true, &["2024.01", "2024.02", "2024.02b"]),
    ];
    let patches = patch_list(&versions, "2024.03").expect("resolvable");
    let names: Vec<&str> = patches.iter().map(|p| p.name.as_str()).collect();
    assert_eq!(names, vec!["2024.01", "2024.02", "2024.03"]);
    assert_eq!(patches[2].url, "http://patches/2024.03.patch");
    assert_eq!(patches[2].size, 10);
}

#[test]
fn patch_list_breaks_cycles() {
    let versions = vec![thaliak_version("a", true, &["b"]), thaliak_version("b", true, &["a"])];
    let patches = patch_list(&versions, "a").expect("resolvable");
    let names: Vec<&str> = patches.iter().map(|p| p.name.as_str()).collect();
    assert_eq!(names, vec!["b", "a"]);
}

#[test]
fn patch_list_refuses_inactive_or_unknown_patches() {
    let versions = vec![thaliak_version("a", false, &[])];
    match patch_list(&versions, "a") {
        Err(ThaliakError::UnresolvablePatch(message)) => assert_eq!(message, "patch \"a\" is inactive"),
        _ => panic!("expected an unresolvable patch"),
    }
    let error = patch_list(&versions, "zz").err().expect("unknown patch");
    assert_eq!(error.message(), "patch cannot be resolved: patch \"zz\" is inactive");
}

#[test]
fn version_strings_order_by_characters() {
    assert!(text_less_than(&"2024.01".to_string(), &"2024.02".to_string()));
    assert!(text_less_than(&"2024".to_string(), &"2024.01".to_string()));
    assert!(!text_less_than(&"b".to_string(), &"a".to_string()));
    assert!(!text_less_than(&"a".to_string(), &"a".to_string()));
}

#[test]
fn latest_versions_per_repository() {
    let data = vec![
        RepositoryData { latest_version: "1".to_string(), versions: vec![] },
        RepositoryData { latest_version: "2".to_string(), versions: vec![] },
    ];
    assert_eq!(latest_versions(&data), vec!["1".to_string(), "2".to_string()]);
}
