use typm::git::cache::Checkout;
use typm::git::submodules::{initialize_submodule_url, Reply, Request, Submodule};
use typm::lockfile::Lockfile;
use typm::manifest::{Dependency, Manifest};
use typm::ops::{links, needs_view};
use typm::package::{discover, Package};
use typm::project::ManagedLink;
use typm::resolver::imports::ResolvedImport;
use typm::resolver::visit::{Demand, Resolver};
use typm::resolver::Resolution;
use typm::sources::{Place, RefreshPolicy, SourceId};

fn path(path: &str) -> Dependency {
    Dependency {
        git: None,
        path: Some(path.to_owned()),
        branch: None,
        tag: None,
        rev: None,
        namespace: "typm".to_owned(),
    }
}

fn git(url: &str) -> Dependency {
    Dependency {
        git: Some(url.to_owned()),
        path: None,
        branch: Some("main".to_owned()),
        ..path("")
    }
}

fn rev(url: &str, rev: &str) -> Dependency {
    Dependency {
        branch: None,
        rev: Some(rev.to_owned()),
        ..git(url)
    }
}

fn declared(entries: &[(&str, Dependency)]) -> Manifest {
    let mut manifest = Manifest::default();
    for (name, dependency) in entries {
        manifest
            .dependencies
            .insert((*name).to_owned(), dependency.clone());
    }
    manifest
}

/// The directory that a path leads to.
fn canonical(path: &str) -> String {
    let mut parts: Vec<&str> = Vec::new();
    for part in path.split('/') {
        match part {
            "" | "." => {}
            ".." => {
                parts.pop();
            }
            name => parts.push(name),
        }
    }
    format!("/{}", parts.join("/"))
}

/// Packages in directories, and the commits that repositories are at.
struct World {
    packages: Vec<(String, String, String, Vec<(String, Dependency)>)>,
    tips: Vec<(String, String)>,
    fetched: Vec<String>,
}

impl World {
    fn new() -> World {
        World {
            packages: Vec::new(),
            tips: Vec::new(),
            fetched: Vec::new(),
        }
    }

    fn package(&mut self, root: &str, name: &str, version: &str, deps: &[(&str, Dependency)]) {
        self.packages.retain(|(known, _, _, _)| known != root);
        self.packages.push((
            root.to_owned(),
            name.to_owned(),
            version.to_owned(),
            deps.iter()
                .map(|(name, dependency)| ((*name).to_owned(), dependency.clone()))
                .collect(),
        ));
    }

    fn local(&mut self, name: &str, deps: &[(&str, Dependency)]) {
        self.package(&format!("/local/{name}"), name, "1.0.0", deps);
    }

    /// Commits one package to the root of a repository.
    fn commit(&mut self, url: &str, commit: &str, name: &str, version: &str, deps: &[(&str, Dependency)]) {
        self.package(&format!("/cache/{commit}"), name, version, deps);
        self.tip(url, commit);
    }

    fn tip(&mut self, url: &str, commit: &str) {
        self.tips.retain(|(known, _)| known != url);
        self.tips.push((url.to_owned(), commit.to_owned()));
    }

    fn at(&self, root: &str) -> Option<Package> {
        self.packages
            .iter()
            .find(|(known, _, _, _)| known == root)
            .map(|(root, name, version, _)| Package {
                root: root.clone(),
                name: name.clone(),
                version: version.clone(),
            })
    }

    fn under(&self, root: &str) -> Vec<Package> {
        self.packages
            .iter()
            .filter(|(known, _, _, _)| known == root || known.starts_with(&format!("{root}/")))
            .map(|(known, _, _, _)| self.at(known).unwrap())
            .collect()
    }

    fn find(&mut self, resolver: &mut Resolver, place: &Place, name: Option<&str>) -> Result<Package, String> {
        match place {
            Place::Git(source) => {
                if let Some(acquisition) = resolver.sources.load_git(source) {
                    let tip = self
                        .tips
                        .iter()
                        .find(|(url, _)| *url == source.git)
                        .map(|(_, commit)| commit.clone());
                    let commit = match (acquisition.locked, acquisition.refresh) {
                        (Some(commit), false) => commit,
                        _ => {
                            self.fetched.push(source.git.clone());
                            match &source.rev {
                                Some(rev) => rev.clone(),
                                None => tip.ok_or(format!("no repository {}", source.git))?,
                            }
                        }
                    };
                    let short = commit.trim_start_matches('0');
                    let checkout = Checkout {
                        root: format!("/cache/{short}"),
                        commit: format!("{short:0>40}"),
                    };
                    resolver.register(source.clone(), checkout);
                }
                let root = &resolver.sources.providers.get(&source.id()).unwrap().checkout.root;
                discover(root, name, &self.under(root), &vec![])
            }
            Place::Inside { id, declared, path } => {
                let target = canonical(path);
                let source = resolver.sources.providers.get(id).unwrap();
                source
                    .check_path(declared, &target)
                    .map_err(|error| error.message())?;
                self.at(&target).ok_or(format!("no package {target}"))
            }
            Place::Local(path) => {
                let target = canonical(path);
                self.at(&target).ok_or(format!("no package {target}"))
            }
        }
    }

    fn resolve(&mut self, manifest: &Manifest, lock: Lockfile, refresh: RefreshPolicy) -> Result<Resolution, String> {
        let mut resolver = Resolver::new(lock.sources, refresh);
        resolver.begin(manifest, "/project");
        loop {
            let context = resolver.context();
            let demand = match resolver.demand() {
                Ok(demand) => demand,
                Err(error) => return Err(format!("{}: {}", context.join(": "), error.message())),
            };
            match demand {
                Demand::Find { place, name, .. } => {
                    let package = self
                        .find(&mut resolver, &place, Some(&name))
                        .map_err(|error| format!("{}: {error}", context.join(": ")))?;
                    resolver
                        .found(package)
                        .map_err(|error| format!("{}: {}", context.join(": "), error.message()))?;
                }
                Demand::Manifest { source, root } => {
                    assert!(matches!(source, SourceId::Git(_)) == root.starts_with("/cache/"));
                    let (_, _, _, deps) = self
                        .packages
                        .iter()
                        .find(|(known, _, _, _)| *known == root)
                        .unwrap();
                    let entries: Vec<(&str, Dependency)> = deps
                        .iter()
                        .map(|(name, dependency)| (name.as_str(), dependency.clone()))
                        .collect();
                    resolver.described(&declared(&entries));
                }
                Demand::Done => return resolver.resolve(),
            }
        }
    }

    fn sync(&mut self, entries: &[(&str, Dependency)]) -> Result<Resolution, String> {
        self.resolve(&declared(entries), Lockfile::default(), RefreshPolicy::Preserve)
    }

    fn error(&mut self, entries: &[(&str, Dependency)]) -> String {
        match self.sync(entries) {
            Ok(_) => panic!("resolved"),
            Err(error) => error,
        }
    }
}

/// What is linked: the path, the package's directory and whether a view stands for it.
fn linked(imports: &Vec<ResolvedImport>) -> Vec<(String, String)> {
    let views: Vec<String> = imports
        .iter()
        .map(|import| {
            if needs_view(import) {
                format!("/view{}", import.package.root)
            } else {
                String::new()
            }
        })
        .collect();
    links(imports, &views)
        .into_iter()
        .map(|link: ManagedLink| (link.path, link.target))
        .collect()
}

fn pairs(entries: &[(&str, &str)]) -> Vec<(String, String)> {
    entries
        .iter()
        .map(|(path, target)| ((*path).to_owned(), (*target).to_owned()))
        .collect()
}

fn commits(lock: &Lockfile) -> Vec<String> {
    let mut commits: Vec<String> = (0..lock.sources.len())
        .map(|i| {
            let commit = &lock.sources.value_at(i).commit;
            commit.trim_start_matches('0').to_owned()
        })
        .collect();
    commits.sort();
    commits
}

#[test]
fn monorepo_paths_share_the_pinned_checkout() {
    let url = "file:///repositories/monorepo";
    let mut world = World::new();
    world.package("/cache/c0/alpha", "alpha", "1.0.0", &[("beta", path("../beta"))]);
    world.package("/cache/c0/beta", "beta", "1.0.0", &[]);
    world.tip(url, "c0");
    let unselected = Dependency {
        branch: None,
        ..git(url)
    };

    let mut resolver = Resolver::new(Lockfile::default().sources, RefreshPolicy::Preserve);
    let place = resolver.infer_name(&unselected, "/project", None).unwrap();
    let error = world.find(&mut resolver, &place, None).unwrap_err();
    assert!(error.contains("alpha") && error.contains("beta"));

    let resolution = world.sync(&[("alpha", unselected)]).unwrap();
    assert!(commits(&resolution.lock).contains(&"c0".to_owned()));
    assert_eq!(
        linked(&resolution.imports),
        pairs(&[
            ("typm/alpha/0.0.0", "/view/cache/c0/alpha"),
            ("typm/beta/1.0.0", "/cache/c0/beta"),
        ])
    );
    assert_eq!(resolution.lock.sources.len(), 1);
}

#[test]
fn relative_git_submodules_are_available_to_transitive_paths() {
    let url = "file:///repositories/parent";
    let nested = initialize_submodule_url("../leaf", url).unwrap().unwrap();
    assert_eq!(nested, "file:///repositories/leaf");
    let mut world = World::new();
    world.package("/cache/c0", "parent", "1.0.0", &[("leaf", path("vendor/leaf"))]);
    world.tip(url, "c0");

    // The parent lies on this machine, so the repository nested in it may, too.
    let mut work = Submodule::begin("vendor/leaf", &nested, Some("1eaf"), true, 0).unwrap();
    let mut has = false;
    loop {
        match work.request() {
            Request::Open => work.reply(Reply::NotFound),
            Request::Has(_) => work.reply(Reply::Answer(has)),
            Request::Fetch { url, .. } => {
                assert_eq!(url, "file:///repositories/leaf");
                has = true;
                work.reply(Reply::Fetched(true));
            }
            Request::CheckOut(commit) => {
                assert_eq!(commit, "1eaf");
                world.package("/cache/c0/vendor/leaf", "leaf", "1.0.0", &[]);
                work.reply(Reply::Done);
            }
            Request::Done => break,
            Request::OpenFailed | Request::FetchFailed => panic!("failed"),
            _ => work.reply(Reply::Done),
        }
    }

    let resolution = world.sync(&[("parent", Dependency { branch: None, ..git(url) })]).unwrap();
    assert!(linked(&resolution.imports).contains(&(
        "typm/leaf/1.0.0".to_owned(),
        "/cache/c0/vendor/leaf".to_owned()
    )));
    assert!(commits(&resolution.lock).contains(&"c0".to_owned()));
}

#[test]
fn direct_dependencies_are_linked_at_the_stable_version() {
    for version in ["1.0.0", "0.0.0"] {
        let mut world = World::new();
        world.package("/local/shared", "shared", version, &[]);
        world.local("front", &[("shared", path("../shared"))]);
        let front = ("front", path("../local/front"));
        let shared = ("shared", path("../local/shared"));
        let transitive = format!("typm/shared/{version}");
        let expected = (transitive, "/local/shared".to_owned());

        let promoted = world.sync(&[front.clone()]).unwrap();
        assert!(linked(&promoted.imports).contains(&expected));
        assert_eq!(promoted.imports.len(), 2);

        let both = world.sync(&[front, shared.clone()]).unwrap();
        assert!(linked(&both.imports).contains(&expected));
        let direct = both
            .imports
            .iter()
            .find(|import| import.package.name == "shared" && import.version == "0.0.0")
            .unwrap();
        assert_eq!(direct.package.root, "/local/shared");
        assert_eq!(both.imports.len(), if version == "0.0.0" { 2 } else { 3 });

        let alone = world.sync(&[shared]).unwrap();
        assert_eq!(alone.imports.len(), 1);
        assert!(alone.lock.packages.is_empty());
    }
}

#[test]
fn recursive_git_and_local_dependencies_are_found() {
    let (leaf, front) = ("file:///r/leaf", "file:///r/front");
    let mut world = World::new();
    world.commit(leaf, "1eaf", "leaf", "1.0.0", &[]);
    world.commit(front, "f0", "front", "1.0.0", &[("leaf", git(leaf))]);
    world.local("local-leaf", &[]);
    world.local(
        "helpers",
        &[("leaf", git(leaf)), ("local-leaf", path("../local-leaf"))],
    );
    let entries = [("front", git(front)), ("helpers", path("../local/helpers"))];
    let resolution = world.sync(&entries).unwrap();
    assert_eq!(
        linked(&resolution.imports),
        pairs(&[
            ("typm/front/0.0.0", "/view/cache/f0"),
            ("typm/helpers/0.0.0", "/view/local/helpers"),
            ("typm/leaf/1.0.0", "/cache/1eaf"),
            ("typm/local-leaf/1.0.0", "/local/local-leaf"),
        ])
    );
    let shared = resolution
        .imports
        .iter()
        .find(|import| import.package.name == "leaf")
        .unwrap();
    assert_eq!(shared.roots, vec!["front", "helpers"]);
    assert_eq!(commits(&resolution.lock), vec!["1eaf", "f0"]);
    assert_eq!(world.fetched.len(), 2);

    // The pins name the Git packages, what they depend on, and where each root first meets one.
    let lock = resolution.lock;
    assert_eq!(lock.packages.len(), 2);
    let named = |name: &str| {
        (0..lock.packages.len())
            .find(|i| lock.packages.value_at(*i).name == name)
            .unwrap()
    };
    let leaf_id = lock.packages.key_at(named("leaf")).clone();
    let front_id = lock.packages.key_at(named("front")).clone();
    assert_eq!(
        lock.packages.value_at(named("front")).dependencies,
        vec![leaf_id.clone()]
    );
    assert_eq!(lock.roots.get(&"front".to_owned()).unwrap(), &vec![front_id]);
    assert_eq!(lock.roots.get(&"helpers".to_owned()).unwrap(), &vec![leaf_id]);

    // Nothing is fetched for what is pinned.
    world.commit(leaf, "2eaf", "leaf", "2.0.0", &[]);
    world.fetched.clear();
    let again = world
        .resolve(&declared(&entries), lock, RefreshPolicy::Preserve)
        .unwrap();
    assert!(world.fetched.is_empty());
    assert_eq!(commits(&again.lock), vec!["1eaf", "f0"]);

    // An update follows every branch.
    let updated = world
        .resolve(&declared(&entries), again.lock, RefreshPolicy::All)
        .unwrap();
    assert_eq!(commits(&updated.lock), vec!["2eaf", "f0"]);
}

#[test]
fn refreshing_one_source_keeps_the_other_pins() {
    let (leaf, front) = ("file:///r/leaf", "file:///r/front");
    let mut world = World::new();
    world.commit(leaf, "1eaf", "leaf", "1.0.0", &[]);
    world.commit(front, "f0", "front", "1.0.0", &[("leaf", git(leaf))]);
    let entries = [("front", git(front))];
    let first = world.sync(&entries).unwrap();
    world.commit(leaf, "2eaf", "leaf", "1.0.0", &[]);
    world.commit(front, "f1", "front", "1.0.0", &[("leaf", git(leaf))]);
    let refresh = RefreshPolicy::Source(git(front).git_source().unwrap().id());
    let resolution = world
        .resolve(&declared(&entries), first.lock, refresh)
        .unwrap();
    assert_eq!(commits(&resolution.lock), vec!["1eaf", "f1"]);
}

#[test]
fn a_second_sync_over_its_own_lock_is_the_first() {
    let (leaf, front) = ("file:///r/leaf", "file:///r/front");
    let mut world = World::new();
    world.commit(leaf, "1eaf", "leaf", "1.0.0", &[]);
    world.commit(front, "f0", "front", "1.0.0", &[("leaf", git(leaf))]);
    world.local("helpers", &[("leaf", git(leaf))]);
    let entries = [("front", git(front)), ("helpers", path("../local/helpers"))];
    let first = world.sync(&entries).unwrap();
    assert!(first.lock.validate().is_ok());
    let (pins, written) = (commits(&first.lock), linked(&first.imports));
    let packages: Vec<String> = (0..first.lock.packages.len())
        .map(|i| first.lock.packages.key_at(i).clone())
        .collect();

    world.commit(leaf, "2eaf", "leaf", "2.0.0", &[]);
    world.commit(front, "f1", "front", "2.0.0", &[]);
    let second = world
        .resolve(&declared(&entries), first.lock, RefreshPolicy::Preserve)
        .unwrap();
    assert!(second.lock.validate().is_ok());
    assert_eq!(commits(&second.lock), pins);
    assert_eq!(linked(&second.imports), written);
    let again: Vec<String> = (0..second.lock.packages.len())
        .map(|i| second.lock.packages.key_at(i).clone())
        .collect();
    assert_eq!(again, packages);
}

#[test]
fn adding_again_moves_only_the_pin_of_what_is_added() {
    let (leaf, front) = ("file:///r/leaf", "file:///r/front");
    let mut world = World::new();
    world.commit(leaf, "1eaf", "leaf", "1.0.0", &[]);
    world.commit(front, "f0", "front", "1.0.0", &[]);
    let entries = [("front", git(front)), ("leaf", git(leaf))];
    let first = world.sync(&entries).unwrap();
    assert_eq!(commits(&first.lock), vec!["1eaf", "f0"]);

    world.commit(leaf, "2eaf", "leaf", "2.0.0", &[]);
    world.commit(front, "f1", "front", "2.0.0", &[]);
    let refresh = |url: &str| RefreshPolicy::Source(git(url).git_source().unwrap().id());
    let second = world
        .resolve(&declared(&entries), first.lock, refresh(front))
        .unwrap();
    assert_eq!(commits(&second.lock), vec!["1eaf", "f1"]);
    let third = world
        .resolve(&declared(&entries), second.lock, refresh(front))
        .unwrap();
    assert_eq!(commits(&third.lock), vec!["1eaf", "f1"]);
    let last = world
        .resolve(&declared(&entries), third.lock, refresh(leaf))
        .unwrap();
    assert_eq!(commits(&last.lock), vec!["2eaf", "f1"]);
}

#[test]
fn path_dependencies_cannot_leave_their_repository() {
    let url = "file:///r/bad";
    for (declared_path, told) in [
        ("/local/outside", "absolute local dependency path"),
        ("../outside", "escapes the pinned Git repository"),
    ] {
        let mut world = World::new();
        world.local("outside", &[]);
        world.commit(url, "bad", "bad", "1.0.0", &[("outside", path(declared_path))]);
        let error = world.error(&[("bad", git(url))]);
        assert!(error.contains(told) && error.contains("outside"));
        assert!(error.starts_with(
            "while resolving direct dependency `bad`: @typm/bad:1.0.0 depends on `outside`: "
        ));
    }
}

#[test]
fn conflicting_sources_are_told_with_their_chains() {
    for second_is_git in [true, false] {
        let mut world = World::new();
        world.commit("file:///r/first", "f0", "shared", "1.0.0", &[]);
        world.commit("file:///r/second", "50", "shared", "1.0.0", &[]);
        world.package("/local/other", "shared", "1.0.0", &[]);
        world.local("left", &[("shared", git("file:///r/first"))]);
        let second = if second_is_git {
            git("file:///r/second")
        } else {
            path("../other")
        };
        world.local("right", &[("shared", second)]);
        assert_eq!(
            world.error(&[
                ("left", path("../local/left")),
                ("right", path("../local/right")),
            ]),
            "conflicting sources for @typm/shared:1.0.0:\n  @typm/left:1.0.0 -> @typm/shared:1.0.0\n  @typm/right:1.0.0 -> @typm/shared:1.0.0\nPackages with the same namespace, name, and import version must use the same source"
        );
    }
}

#[test]
fn a_stable_version_clashes_with_a_package_of_that_very_version() {
    let mut world = World::new();
    world.local("shared", &[]);
    world.package("/zero-version", "shared", "0.0.0", &[]);
    world.local("front", &[("shared", path("/zero-version"))]);
    let error = world.error(&[
        ("front", path("../local/front")),
        ("shared", path("../local/shared")),
    ]);
    assert!(error.starts_with("conflicting sources for @typm/shared:0.0.0:\n"));
    assert!(error.contains("@typm/front:1.0.0 -> @typm/shared:0.0.0"));
}

#[test]
fn one_source_under_two_selectors_does_not_clash() {
    let url = "file:///r/shared";
    let mut world = World::new();
    world.commit(url, "c0", "shared", "1.0.0", &[]);
    world.local("left", &[("shared", git(url))]);
    world.local("right", &[("shared", rev(url, "c0"))]);
    let resolution = world
        .sync(&[
            ("left", path("../local/left")),
            ("right", path("../local/right")),
        ])
        .unwrap();
    assert_eq!(resolution.imports.len(), 3);
    assert_eq!(resolution.lock.packages.len(), 2);
}

#[test]
fn versions_coexist_and_cycles_are_told() {
    let mut world = World::new();
    world.package("/version-one", "shared", "1.0.0", &[]);
    world.package("/version-two", "shared", "2.0.0", &[]);
    world.local("first", &[("shared", path("/version-one"))]);
    world.local("second", &[("shared", path("/version-two"))]);
    let entries = [
        ("first", path("../local/first")),
        ("second", path("../local/second")),
    ];
    let resolution = world.sync(&entries).unwrap();
    let found = linked(&resolution.imports);
    assert!(found.contains(&("typm/shared/1.0.0".to_owned(), "/version-one".to_owned())));
    assert!(found.contains(&("typm/shared/2.0.0".to_owned(), "/version-two".to_owned())));
    assert_eq!(found.len(), 4);

    world.local("first", &[("second", path("../second"))]);
    world.local("second", &[("first", path("../first"))]);
    let error = world.error(&entries);
    let (a, b) = ("@typm/first:1.0.0", "@typm/second:1.0.0");
    assert!(
        error == format!("dependency cycle: {a} -> {b} -> {a}")
            || error == format!("dependency cycle: {b} -> {a} -> {b}")
    );
    world.local("first", &[("first", path("../first"))]);
    assert_eq!(
        world.error(&[("first", path("../local/first"))]),
        format!("dependency cycle: {a} -> {a}")
    );
}

#[test]
fn namespaces_keep_packages_apart() {
    let mut world = World::new();
    world.package("/first-shared", "shared", "1.0.0", &[]);
    world.package("/second-shared", "shared", "1.0.0", &[]);
    let elsewhere = Dependency {
        namespace: "local".to_owned(),
        ..path("/first-shared")
    };
    world.local("legacy", &[("shared", elsewhere)]);
    world.local("current", &[("shared", path("/second-shared"))]);
    let resolution = world
        .sync(&[
            ("current", path("../local/current")),
            ("legacy", path("../local/legacy")),
        ])
        .unwrap();
    assert_eq!(
        linked(&resolution.imports),
        pairs(&[
            ("local/shared/1.0.0", "/first-shared"),
            ("typm/current/0.0.0", "/view/local/current"),
            ("typm/legacy/0.0.0", "/view/local/legacy"),
            ("typm/shared/1.0.0", "/second-shared"),
        ])
    );
}

#[test]
fn a_package_of_another_name_is_refused() {
    let mut world = World::new();
    world.local("other", &[]);
    assert_eq!(
        world.error(&[("wanted", path("../local/other"))]),
        "while resolving direct dependency `wanted`: dependency `wanted` points to package `other`"
    );
}

#[test]
fn packages_may_not_be_nested_too_deep() {
    let mut world = World::new();
    for i in 0..257 {
        let next = path(&format!("../p{}", i + 1));
        world.local(&format!("p{i}"), &[(format!("p{}", i + 1).as_str(), next)]);
    }
    world.local("p257", &[]);
    let error = world.error(&[("p0", path("../local/p0"))]);
    assert!(error.ends_with("dependency graph exceeds 256 nested packages"));
    assert!(world.sync(&[("p1", path("../local/p1"))]).is_ok());
}
