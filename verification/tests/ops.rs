use typm::commands::{run, Command, Task};
use typm::context::{Config, Context};
use typm::manifest::{Dependency, Manifest, ManifestDocument};
use typm::ops::{
    add, directory_to_find, links, needs_view, prepare_dependency, record_dependency, remove,
    report, run_typst, sync, update, AddOptions, RemoveOptions, Report,
};
use typm::package::Package;
use typm::project::Project;
use typm::resolver::imports::ResolvedImport;
use typm::shell::Shell;
use typm::sources::RefreshPolicy;

fn context() -> Context {
    Context {
        cwd: "/work/project/documents".to_owned(),
        home: "/home/me/.typm".to_owned(),
        cache_root: "/home/me/.typm".to_owned(),
        config: Config::default(),
        shell: Shell::new(false, false),
    }
}

fn project() -> Project {
    Project::new("/work/project", true, "typm.toml").unwrap()
}

fn local(path: &str) -> Dependency {
    Dependency {
        git: None,
        path: Some(path.to_owned()),
        branch: None,
        tag: None,
        rev: None,
        namespace: "typm".to_owned(),
    }
}

fn git(git: &str) -> Dependency {
    Dependency {
        git: Some(git.to_owned()),
        path: None,
        ..local("")
    }
}

fn import(name: &str, version: &str, import_version: &str) -> ResolvedImport {
    ResolvedImport {
        package: Package {
            root: format!("/p/{name}"),
            name: name.to_owned(),
            version: version.to_owned(),
        },
        namespace: "typm".to_owned(),
        version: import_version.to_owned(),
        roots: vec!["root".to_owned()],
    }
}

#[test]
fn a_local_dependency_is_recorded_relative_to_the_project() {
    let context = context();
    assert_eq!(
        directory_to_find(&context, &local("../../lib")).unwrap(),
        "/work/project/documents/../../lib"
    );
    assert!(directory_to_find(&context, &git("../lib")).is_none());
    let recorded = prepare_dependency(&context, &local("../../lib"), "/work/project", "/work/lib");
    assert_eq!(recorded.path.unwrap(), "../lib");
    let recorded = record_dependency(&context, &local("x"), "/found", None);
    assert_eq!(recorded.path.unwrap(), "/found");
}

#[test]
fn a_git_dependency_is_recorded_by_its_location_and_refreshed() {
    let options = AddOptions {
        name: Some("alpha".to_owned()),
        dependency: git("../repo"),
    };
    let addition = match add(&context(), &project(), &options, "") {
        Ok(addition) => addition,
        Err(error) => panic!("{}", error.message()),
    };
    assert_eq!(
        addition.dependency.git.as_deref(),
        Some("/work/project/documents/../repo")
    );
    let id = addition.dependency.git_source().unwrap().id();
    match addition.work.refresh {
        RefreshPolicy::Source(source) => assert_eq!(source, id),
        _ => panic!("another policy"),
    }
    assert!(addition.work.writes_manifest && !addition.work.required);

    let options = AddOptions {
        name: None,
        dependency: local("../../lib"),
    };
    let addition = match add(&context(), &project(), &options, "/work/lib") {
        Ok(addition) => addition,
        Err(error) => panic!("{}", error.message()),
    };
    assert!(matches!(addition.work.refresh, RefreshPolicy::Preserve));

    let options = AddOptions {
        name: Some("not a name".to_owned()),
        dependency: local("../../lib"),
    };
    match add(&context(), &project(), &options, "/work/lib") {
        Ok(_) => panic!("added"),
        Err(error) => assert_eq!(
            error.message(),
            "invalid dependency identity `@typm/not a name`"
        ),
    }
}

#[test]
fn removal_takes_each_name_once_and_in_order() {
    let text = "[dependencies]\na = { path = '../a' }\nb = { path = '../b' }\nc = { path = '../c' }\n";
    let mut manifest = Manifest::default();
    for name in ["a", "b", "c"] {
        manifest
            .dependencies
            .insert(name.to_owned(), local(&format!("../{name}")));
    }
    let mut document = match ManifestDocument::parse(manifest, text) {
        Ok(document) => document,
        Err(error) => panic!("{}", error.message("")),
    };
    let names = |names: &[&str]| RemoveOptions {
        names: names.iter().map(|name| (*name).to_owned()).collect(),
    };
    let removal = match remove(&mut document, &names(&["c", "a", "c"])) {
        Ok(removal) => removal,
        Err(error) => panic!("{}", error.message("")),
    };
    assert_eq!(removal.names, vec!["a", "c"]);
    assert!(matches!(removal.work.refresh, RefreshPolicy::Preserve));
    assert!(removal.work.writes_manifest && !removal.work.required);
    assert_eq!(document.text(), "[dependencies]\nb = { path = '../b' }\n");
    match remove(&mut document, &names(&["z", "b", "a"])) {
        Ok(_) => panic!("removed"),
        Err(error) => assert_eq!(
            error.message(""),
            "dependency `a` is not in the manifest"
        ),
    }
}

#[test]
fn sync_preserves_and_update_refreshes() {
    let work = sync();
    assert!(matches!(work.refresh, RefreshPolicy::Preserve));
    assert!(work.required && !work.writes_manifest);
    let work = update();
    assert!(matches!(work.refresh, RefreshPolicy::All));
    assert!(work.required && !work.writes_manifest);
}

#[test]
fn typst_runs_without_a_manifest_unless_one_was_named() {
    assert!(run_typst(false, false, "/p/typm.toml").unwrap().is_none());
    assert!(run_typst(true, false, "/p/typm.toml").unwrap().is_some());
    assert!(run_typst(true, true, "/p/typm.toml").unwrap().is_some());
    match run_typst(false, true, "/p/typm.toml") {
        Ok(_) => panic!("accepted"),
        Err(error) => assert_eq!(error, "manifest does not exist: /p/typm.toml"),
    }
}

#[test]
fn what_was_done_is_told() {
    let shell = Shell::new(false, false);
    let told = |done: Report| report(&shell, &done);
    assert_eq!(
        told(Report::Added {
            name: "alpha".to_owned(),
            count: 12
        })
        .unwrap(),
        "       Added alpha (12 packages linked)"
    );
    assert_eq!(
        told(Report::Removed(vec!["a".to_owned(), "b".to_owned()])).unwrap(),
        "     Removed a, b"
    );
    assert_eq!(told(Report::Synced(0)).unwrap(), "      Synced 0 packages linked");
    assert_eq!(told(Report::Updated(3)).unwrap(), "     Updated 3 packages linked");
    assert_eq!(told(Report::Ready(3)).unwrap(), "       Ready 3 packages");
    assert!(told(Report::Ready(0)).is_none());
    assert!(report(&Shell::new(true, false), &Report::Synced(1)).is_none());
}

#[test]
fn imports_are_linked_to_packages_or_views() {
    let imports = vec![
        import("a", "1.0.0", "0.0.0"),
        import("a", "1.0.0", "1.0.0"),
        import("zero", "0.0.0", "0.0.0"),
    ];
    assert!(needs_view(&imports[0]));
    assert!(!needs_view(&imports[1]) && !needs_view(&imports[2]));
    let views = vec!["/v".to_owned(), String::new(), String::new()];
    let made = links(&imports, &views);
    let told: Vec<(&str, &str)> = made
        .iter()
        .map(|link| (link.path.as_str(), link.target.as_str()))
        .collect();
    assert_eq!(
        told,
        vec![
            ("typm/a/0.0.0", "/v"),
            ("typm/a/1.0.0", "/p/a"),
            ("typm/zero/0.0.0", "/p/zero"),
        ]
    );
    assert_eq!(made[0].roots, vec!["root"]);
}

#[test]
fn commands_become_tasks() {
    match run(
        Command::Add {
            name: Some("a".to_owned()),
            git: None,
            path: Some("../a".to_owned()),
            branch: None,
            tag: None,
            rev: None,
            namespace: "local".to_owned(),
        },
        false,
    ) {
        Task::Add(options) => {
            assert_eq!(options.name.as_deref(), Some("a"));
            assert_eq!(options.dependency.path.as_deref(), Some("../a"));
            assert_eq!(options.dependency.namespace, "local");
        }
        _ => panic!("another task"),
    }
    match run(
        Command::Remove {
            names: vec!["a".to_owned()],
        },
        false,
    ) {
        Task::Remove(options) => assert_eq!(options.names, vec!["a"]),
        _ => panic!("another task"),
    }
    assert!(matches!(
        run(Command::Typst, true),
        Task::Typst {
            explicit_manifest: true
        }
    ));
    assert!(matches!(run(Command::Update, true), Task::Update));
}

#[test]
fn forwarded_commands_do_not_shadow_native_ones() {
    let names = |list: &[&[&str]]| -> Vec<Vec<String>> {
        list.iter()
            .map(|names| names.iter().map(|name| (*name).to_owned()).collect())
            .collect()
    };
    let native = names(&[&["add"], &["remove", "rm"], &["update"]]);
    let forwarded = names(&[&["compile", "c"], &["update"], &["fonts", "rm"], &["query"]]);
    assert_eq!(
        typm::completions::command(&native, &forwarded),
        vec![0, 3]
    );
}
