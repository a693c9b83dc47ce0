use boilmaster::http::admin::auth::BasicAuth;
use boilmaster::http::admin::error::Error;
use boilmaster::http::admin::version::{join_names, orphaned_paths, parse_names, patch_lists, trim_text};
use boilmaster::version::registry::Registry;
use boilmaster::version::{Patch, Repository, Version, VersionKey};

fn version(patches: &[(&str, &str)]) -> Version {
    Version {
        repositories: vec![Repository::new(
            "ffxiv".to_string(),
            patches.iter().map(|(n, p)| Patch { name: n.to_string(), path: p.to_string() }).collect(),
        )
        .unwrap()],
    }
}

#[test]
fn basic_auth() {
    let auth = BasicAuth { username: "admin".to_string(), password: "SECRET-REDACTED".to_string() };
    assert!(auth.authenticated(Some(("admin", "SECRET-REDACTED"))));
    assert!(!auth.authenticated(Some(("admin", "wrong"))));
    assert!(!auth.authenticated(Some(("other", "SECRET-REDACTED"))));
    assert!(!auth.authenticated(None));
    assert_eq!(BasicAuth::challenge(), "Basic realm=\"boilmaster\", charset=\"UTF-8\"");
}

#[test]
fn admin_errors() {
    let error = Error("unknown version".to_string());
    assert_eq!(error.response_text(), "error: unknown version");
    assert_eq!(error.status_code(), 500);
}

#[test]
fn form_names() {
    assert_eq!(parse_names(" 6.58 , latest,x"), vec!["6.58".to_string(), "latest".to_string(), "x".to_string()]);
    assert_eq!(parse_names(""), vec!["".to_string()]);
    assert_eq!(trim_text("\t a b \u{3000}"), "a b");
    assert_eq!(trim_text("   "), "");
    assert_eq!(join_names(&vec!["a".to_string(), "b".to_string()]), "a, b");
    assert_eq!(join_names(&vec![]), "");
}

#[test]
fn patch_lists_are_newest_first() {
    let v = version(&[("a", "/a"), ("b", "/b"), ("c", "/c")]);
    let lists = patch_lists(&v);
    assert_eq!(lists.len(), 1);
    assert_eq!(lists[0].0, "ffxiv");
    assert_eq!(lists[0].1, vec!["c".to_string(), "b".to_string(), "a".to_string()]);
}

#[test]
fn orphaned_patch_files() {
    let mut registry = Registry::new();
    let old = version(&[("a", "/a"), ("b", "/b")]);
    let new = version(&[("a", "/a"), ("c", "/c")]);
    let old_key = registry.update(old).unwrap();
    let new_key = registry.update(new).unwrap();
    assert_eq!(orphaned_paths(&registry, old_key), Some(vec!["/b".to_string()]));
    assert_eq!(orphaned_paths(&registry, new_key), Some(vec!["/c".to_string()]));
    assert_eq!(orphaned_paths(&registry, VersionKey(1)), None);
}

#[test]
fn health_probes() {
    assert_eq!(boilmaster::http::health::live(), (200, "LIVE"));
    assert_eq!(boilmaster::http::health::ready(true, true, true, true, true), (200, "READY"));
    assert_eq!(boilmaster::http::health::ready(true, true, false, true, true), (503, "PENDING"));
}
