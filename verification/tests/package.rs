use typm::git::cache::Checkout;
use typm::git::GitSourceSpec;
use typm::lockfile::{LockedPackage, LockedSource, Lockfile};
use typm::manifest::Dependency;
use typm::package::{
    check_entry, check_manifest, describe, discover, is_manifest, is_searched, manifest_path,
    package_label, read, Description, Package,
};
use typm::sources::{
    confirm, local_identity, normalize_git_location, GitSource, Place, RefreshPolicy, SourceId,
    SourceMap,
};

fn manifest(name: &str, version: &str, entrypoint: &str) -> String {
    format!("[package]\nname = \"{name}\"\nversion = \"{version}\"\nentrypoint = \"{entrypoint}\"\n")
}

fn package(root: &str, name: &str) -> Package {
    Package {
        root: root.to_owned(),
        name: name.to_owned(),
        version: "1.0.0".to_owned(),
    }
}

fn specification(branch: Option<&str>) -> GitSourceSpec {
    GitSourceSpec {
        git: "https://example.invalid/repo".to_owned(),
        branch: branch.map(str::to_owned),
        tag: None,
        rev: None,
    }
}

fn git_source() -> GitSource {
    GitSource {
        specification: specification(Some("main")),
        checkout: Checkout {
            root: "/checkouts/abc".to_owned(),
            commit: "a".repeat(40),
        },
    }
}

fn hashed(parts: &[&str]) -> String {
    let mut message: Vec<u8> = Vec::new();
    for part in parts {
        message.extend((part.len() as u64).to_le_bytes());
        message.extend(part.as_bytes());
    }
    blake3::hash(&message).to_hex().to_string()
}

#[test]
fn a_package_is_read_from_its_manifest() {
    let described = read("/p", "typm", &manifest("alpha", "1.2.3", "src/lib.typ")).unwrap();
    assert_eq!(described.package.root, "/p");
    assert_eq!(described.package.name, "alpha");
    assert_eq!(described.package.version, "1.2.3");
    assert_eq!(described.entry, "/p/src/lib.typ");
    let package = check_entry(described, "/p/src/lib.typ", true).unwrap();
    assert_eq!(package.name, "alpha");
    assert_eq!(manifest_path("/p"), "/p/typst.toml");
    assert_eq!(package_label("typm", "alpha", "1.2.3"), "@typm/alpha:1.2.3");
}

#[test]
fn packages_are_refused_by_the_first_fault() {
    let message = |text: &str, namespace: &str| read("/p", namespace, text).unwrap_err().message();
    assert_eq!(
        message("[package]\nname = 'a'\n", "typm"),
        "invalid package manifest /p/typst.toml"
    );
    assert_eq!(
        message(&manifest("not a name", "1.0.0", "lib.typ"), "typm"),
        "invalid Typst package identity `@typm/not a name:1.0.0`"
    );
    assert_eq!(
        message(&manifest("a", "1.0.0", "lib.typ"), "not a name"),
        "invalid Typst package identity `@not a name/a:1.0.0`"
    );
    assert_eq!(
        message(&manifest("a", "1.0.0", "/lib.typ"), "typm"),
        "package `a` entrypoint must be relative to its package directory"
    );
    for (target, is_file) in [("/q/lib.typ", true), ("/p/lib.typ", false)] {
        let described = read("/p", "typm", &manifest("a", "1.0.0", "lib.typ")).unwrap();
        assert_eq!(
            check_entry(described, target, is_file).unwrap_err().message(),
            "package `a` entrypoint must be a file inside its package directory"
        );
    }
    assert!(check_manifest("/p", "/p/typst.toml").is_ok());
    assert_eq!(
        check_manifest("/p", "/px/typst.toml").unwrap_err().message(),
        "package manifest escapes its package directory: /p/typst.toml"
    );
    let description = Description {
        name: "a".to_owned(),
        version: "1.0.0".to_owned(),
        entrypoint: "lib.typ".to_owned(),
    };
    assert!(describe("/p", "typm", Some(description), false).is_err());
}

#[test]
fn one_package_of_a_checkout_is_chosen() {
    let packages = vec![package("/c/alpha", "alpha"), package("/c/beta", "beta")];
    assert_eq!(
        discover("/c", Some("beta"), &packages, &vec![]).unwrap().root,
        "/c/beta"
    );
    assert_eq!(
        discover("/c", None, &packages, &vec![]).unwrap_err(),
        "ambiguous Git package; specify a unique package name; candidates: alpha (alpha), beta (beta)"
    );
    assert_eq!(
        discover("/c", Some("gamma"), &packages, &vec!["/c/x: broken".to_owned()]).unwrap_err(),
        "no matching package `gamma` in Git repository; candidates: alpha (alpha), beta (beta)\n/c/x: broken"
    );
    assert_eq!(
        discover("/c", None, &vec![], &vec![]).unwrap_err(),
        "no matching package in Git repository; candidates: none"
    );
    assert!(is_searched("src") && !is_searched(".git") && !is_searched(".typm"));
    assert!(is_manifest("typst.toml", true));
    assert!(!is_manifest("typst.toml", false) && !is_manifest("typm.toml", true));
}

#[test]
fn git_path_dependencies_cannot_escape_pinned_checkouts() {
    let source = git_source();
    assert!(source.check_path("../b", "/checkouts/abc/b").is_ok());
    assert_eq!(
        source.check_path("../../b", "/checkouts/b").unwrap_err().message(),
        "path dependency `../../b` escapes the pinned Git repository; use a Git dependency for packages outside the checkout"
    );
    assert_eq!(
        source
            .check_manifest("/checkouts/abc/a", "/elsewhere/typm.toml")
            .unwrap_err()
            .message(),
        "dependency manifest escapes the pinned Git repository: /checkouts/abc/a/typm.toml"
    );
    assert!(source
        .check_manifest("/checkouts/abc/a", "/checkouts/abc/shared.toml")
        .is_ok());
    assert_eq!(
        source.identity("/checkouts/abcd").unwrap_err().message(),
        "Git package directory escapes its checkout"
    );
}

#[test]
fn identities_are_digests_of_framed_parts() {
    let source = git_source();
    let commit = "a".repeat(40);
    let identity = source.identity("/checkouts/abc/packages/x").unwrap();
    let location = hashed(&["https://example.invalid/repo", &commit, "packages/x"]);
    assert_eq!(identity.location_id, location);
    let source_id = source.specification.id();
    assert_eq!(identity.source_key, hashed(&[&source_id, &location]));
    assert_eq!(
        identity.package_id("typm"),
        hashed(&[&identity.source_key, "typm"])
    );
    let pin = identity.pin.unwrap();
    assert_eq!(pin.directory, "packages/x");
    assert_eq!(pin.source_id, source_id);
    assert_eq!(pin.source.commit, commit);
    let local = local_identity("/p");
    assert_eq!(local.location_id, hashed(&["local", "/p"]));
    assert!(local.pin.is_none());
}

#[test]
fn repositories_on_this_machine_are_located_against_their_manifest() {
    assert_eq!(
        normalize_git_location("../repo", "/work/project"),
        "/work/project/../repo"
    );
    assert_eq!(normalize_git_location("./a//b", "/w"), "/w/a/b");
    for location in ["../repo", "./a//b/", "//host/./a", "///a", ".", "git@host:a", "//."] {
        let once = normalize_git_location(location, "/w/x");
        assert_eq!(normalize_git_location(&once, "/other"), once);
    }
    assert_eq!(normalize_git_location("/repo", "/w"), "/repo");
    assert_eq!(
        normalize_git_location("git@example.invalid:repo", "/w"),
        "git@example.invalid:repo"
    );
}

#[test]
fn sources_are_brought_once_and_at_their_pin() {
    let source = specification(Some("main"));
    let mut lock = Lockfile::default();
    lock.sources.insert(
        source.id(),
        LockedSource {
            source: source.clone(),
            commit: "b".repeat(40),
        },
    );
    let refresh = RefreshPolicy::Source(specification(None).id());
    let mut sources = SourceMap::new(lock.sources, refresh);
    let pinned = sources.load_git(&source).unwrap();
    assert_eq!(pinned.locked.unwrap(), "b".repeat(40));
    assert!(!pinned.refresh);
    let unpinned = sources.load_git(&specification(None)).unwrap();
    assert!(unpinned.locked.is_none() && unpinned.refresh);
    let id = sources.register(
        source.clone(),
        Checkout {
            root: "/c".to_owned(),
            commit: "b".repeat(40),
        },
    );
    assert_eq!(id, source.id());
    assert!(sources.load_git(&source).is_none());
    assert!(RefreshPolicy::All.refreshes("x") && !RefreshPolicy::Preserve.refreshes("x"));
}

#[test]
fn dependencies_are_placed_by_what_depends_on_them() {
    let sources = SourceMap::new(Lockfile::default().sources, RefreshPolicy::Preserve);
    let dependency = |path: &str| Dependency {
        git: None,
        path: Some(path.to_owned()),
        branch: None,
        tag: None,
        rev: None,
        namespace: "typm".to_owned(),
    };
    let git = SourceId::Git("id".to_owned());
    match sources.locate(&dependency("../b"), "/c/a", Some(&git), Some("b")) {
        Ok(Place::Inside { id, declared, path }) => {
            assert_eq!((id.as_str(), declared.as_str()), ("id", "../b"));
            assert_eq!(path, "/c/a/../b");
        }
        _ => panic!("another place"),
    }
    assert_eq!(
        sources
            .locate(&dependency("/b"), "/c/a", Some(&git), Some("b"))
            .unwrap_err()
            .message(),
        "Git package declares an absolute local dependency path `/b`; use a relative path inside the repository or a Git dependency"
    );
    let local = SourceId::Path("/p".to_owned());
    match sources.locate(&dependency("/b"), "/p", Some(&local), None) {
        Ok(Place::Local(path)) => assert_eq!(path, "/b"),
        _ => panic!("another place"),
    }
    assert_eq!(
        confirm(package("/b", "other"), local, Some("b"))
            .unwrap_err()
            .message(),
        "dependency `b` points to package `other`"
    );
}

fn lock() -> Lockfile {
    let source = specification(None);
    let id = source.id();
    let mut lock = Lockfile::default();
    lock.sources.insert(
        id.clone(),
        LockedSource {
            source,
            commit: "C".repeat(40),
        },
    );
    lock.packages.insert(
        "p".to_owned(),
        LockedPackage {
            source: id,
            directory: "".to_owned(),
            name: "a".to_owned(),
            version: "1.0.0".to_owned(),
            namespace: "typm".to_owned(),
            dependencies: vec![],
        },
    );
    lock.roots.insert("a".to_owned(), vec!["p".to_owned()]);
    lock
}

#[test]
fn pins_are_refused_by_the_first_fault() {
    let message = |lock: Lockfile| match typm::lockfile::read(Some(lock)) {
        Ok(_) => "whole".to_owned(),
        Err(error) => error.message(),
    };
    assert_eq!(message(lock()), "whole");
    let mut other = lock();
    other.version = 12;
    assert_eq!(message(other), "unsupported typm.lock format version 12");
    let mut other = lock();
    other.sources.insert(
        "x".to_owned(),
        LockedSource {
            source: specification(Some("a..b")),
            commit: "c".repeat(40),
        },
    );
    assert_eq!(message(other), "invalid Git heads name: a..b");
    let mut other = lock();
    other.sources.insert(
        "x".to_owned(),
        LockedSource {
            source: specification(None),
            commit: "c".repeat(40),
        },
    );
    assert_eq!(message(other), "invalid source identity in typm.lock");
    let mut other = lock();
    other.sources.insert(
        specification(None).id(),
        LockedSource {
            source: specification(None),
            commit: "c".repeat(41),
        },
    );
    assert_eq!(
        message(other),
        format!("invalid locked Git commit `{}`", "c".repeat(41))
    );
    let mut other = lock();
    other.sources.remove(&specification(None).id());
    assert_eq!(message(other), "typm.lock references an unknown Git source");
    let mut other = lock();
    other
        .roots
        .insert("b".to_owned(), vec!["p".to_owned(), "q".to_owned()]);
    assert_eq!(
        message(other),
        "typm.lock references an unknown package `q`"
    );
    let mut other = lock();
    let mut package = other.packages.remove(&"p".to_owned()).unwrap();
    package.dependencies.push("r".to_owned());
    other.packages.insert("p".to_owned(), package);
    assert_eq!(
        message(other),
        "typm.lock references an unknown package `r`"
    );
    let empty = match typm::lockfile::read(None) {
        Ok(empty) => empty,
        Err(error) => panic!("{}", error.message()),
    };
    assert!(empty.version == 1 && empty.packages.is_empty());
}
