use typm::files::{
    atomic_write, ensure_directory, link_failure, require_directory_if_present,
    require_regular_file_if_present, same_bytes, EntryKind, Replacement,
};
use typm::link_path::read_link_path;
use typm::project::{
    affected_places, index_links, manifest_place, read_links, require_link_target,
    validate_existing_link, LinkState, ManagedLink, Observed, Project,
};
use typm::transaction::{
    incomplete_rollback, next_step, preflight_links, restore_snapshot, rollback_failure,
    writes_lockfile, AppliedLinkChanges, LinkUpdate, Restore, Step, Undo,
};

fn project() -> Project {
    Project::new("/work/project", true, "typm.toml").unwrap()
}

fn link(name: &str) -> ManagedLink {
    ManagedLink {
        path: format!("local/{name}/1.0.0"),
        target: format!("/work/project/source-{name}"),
        roots: vec![name.to_owned()],
    }
}

/// The links on disk, by location.
struct Disk {
    links: Vec<(String, String)>,
}

impl Disk {
    fn observed(&self, location: &str) -> Observed {
        match self.links.iter().find(|(known, _)| known == location) {
            Some((_, target)) => Observed::Symlink(target.clone()),
            None => Observed::Missing,
        }
    }

    fn remove(&mut self, location: &str) {
        self.links.retain(|(known, _)| known != location);
    }
}

fn location(link: &ManagedLink) -> String {
    project().link_location(&read_link_path(&link.path).unwrap())
}

fn plan(disk: &Disk, previous: &Vec<ManagedLink>, desired: &Vec<ManagedLink>) -> Result<LinkUpdate, String> {
    let project = project();
    let message = |error: typm::project::LinkError| error.message(&project.state_path());
    let previous = index_links(previous).map_err(message)?;
    let desired = index_links(desired).map_err(message)?;
    let places = affected_places(&previous, &desired);
    let mut exists = Vec::new();
    for place in &places {
        let location = project.link_location(place);
        let observed = disk.observed(&location);
        exists.push(
            validate_existing_link(&location, previous.get(place), &observed).map_err(message)?,
        );
    }
    Ok(preflight_links(&places, &previous, &desired, &exists))
}

/// Makes the changes, up to a number of them; tells what was made.
fn apply(disk: &mut Disk, update: &LinkUpdate, limit: usize) -> (AppliedLinkChanges, bool) {
    let mut applied = AppliedLinkChanges::new();
    let mut made = 0;
    for link in &update.removals {
        if made == limit {
            return (applied, false);
        }
        disk.remove(&location(link));
        applied.removed.push(link.clone());
        made += 1;
    }
    for link in &update.creations {
        if made == limit {
            return (applied, false);
        }
        disk.links.push((location(link), link.target.clone()));
        applied.created.push(link.clone());
        made += 1;
    }
    (applied, true)
}

#[test]
fn rejects_traversal_before_creating_directories() {
    let mut desired = link("example");
    desired.path = "../outside/version".to_owned();
    assert_eq!(
        plan(&Disk { links: vec![] }, &vec![], &vec![desired]).err().unwrap(),
        "invalid package link path ../outside/version: expected namespace/name/version"
    );
}

#[test]
fn refuses_changed_links_and_preserves_state() {
    let desired = link("example");
    let mut disk = Disk { links: vec![] };
    let update = plan(&disk, &vec![], &vec![desired.clone()]).unwrap();
    assert!(apply(&mut disk, &update, usize::MAX).1);
    let destination = location(&desired);
    disk.remove(&destination);
    disk.links
        .push((destination.clone(), "/work/project/user-package".to_owned()));
    assert_eq!(
        plan(&disk, &vec![desired], &vec![]).err().unwrap(),
        "managed package link was changed: /work/project/.typm/packages/local/example/1.0.0 (expected /work/project/source-example, found /work/project/user-package)"
    );
}

#[test]
fn refuses_unmanaged_symlink_even_when_its_target_matches() {
    let desired = link("example");
    let disk = Disk {
        links: vec![(location(&desired), desired.target.clone())],
    };
    assert_eq!(
        plan(&disk, &vec![], &vec![desired]).err().unwrap(),
        "refusing to replace unmanaged package path /work/project/.typm/packages/local/example/1.0.0"
    );
}

#[test]
fn rolls_back_removal_when_new_link_cannot_be_created() {
    let before = link("before");
    let mut disk = Disk { links: vec![] };
    let update = plan(&disk, &vec![], &vec![before.clone()]).unwrap();
    apply(&mut disk, &update, usize::MAX);
    let update = plan(&disk, &vec![before.clone()], &vec![link("after"), link("z-invalid")]).unwrap();
    assert_eq!(update.removals.len(), 1);
    assert_eq!(update.creations.len(), 2);
    for limit in 0..4 {
        let mut trial = Disk {
            links: disk.links.clone(),
        };
        let (applied, done) = apply(&mut trial, &update, limit);
        assert_eq!(done, limit == 3);
        for undo in applied.rollback_links() {
            match undo {
                Undo::Remove(link) => trial.remove(&location(&link)),
                Undo::Create(link) => trial.links.push((location(&link), link.target)),
            }
        }
        assert_eq!(trial.links, vec![(location(&before), before.target.clone())]);
    }
}

#[test]
fn links_are_brought_to_the_desired_ones() {
    let mut disk = Disk { links: vec![] };
    let previous = vec![link("gone"), link("kept"), link("moved"), link("lost")];
    let update = plan(&disk, &vec![], &previous).unwrap();
    assert_eq!(update.next.links.len(), 4);
    apply(&mut disk, &update, usize::MAX);
    disk.remove(&location(&link("lost")));
    let mut moved = link("moved");
    moved.target = "/elsewhere".to_owned();
    let desired = vec![link("new"), link("kept"), moved.clone(), link("lost")];
    let update = plan(&disk, &previous, &desired).unwrap();
    let names = |links: &Vec<ManagedLink>| -> Vec<String> {
        links.iter().map(|link| link.path.clone()).collect()
    };
    assert_eq!(
        names(&update.removals),
        vec!["local/gone/1.0.0", "local/moved/1.0.0"]
    );
    assert_eq!(
        names(&update.creations),
        vec!["local/lost/1.0.0", "local/moved/1.0.0", "local/new/1.0.0"]
    );
    apply(&mut disk, &update, usize::MAX);
    for link in &desired {
        assert!(disk.links.contains(&(location(link), link.target.clone())));
    }
    assert_eq!(disk.links.len(), 4);
    assert_eq!(update.next.version, 1);
    assert_eq!(
        names(&update.next.links),
        vec![
            "local/kept/1.0.0",
            "local/lost/1.0.0",
            "local/moved/1.0.0",
            "local/new/1.0.0"
        ]
    );
    assert_eq!(update.next.links[2].target, "/elsewhere");
}

#[test]
fn link_states_are_refused_by_the_first_fault() {
    let message = |links: Vec<ManagedLink>, version: u32| match read_links(Some(LinkState {
        version,
        links,
    })) {
        Ok(_) => "accepted".to_owned(),
        Err(error) => error.message("/p/.typm/state.toml"),
    };
    assert_eq!(message(vec![link("a")], 1), "accepted");
    assert_eq!(
        message(vec![link("a")], 7),
        "unsupported link state version 7 in /p/.typm/state.toml"
    );
    for path in ["a/b", "a/b/c/d", "/a/b/c", "a/../c", "./a/b/c", ""] {
        let wrong = ManagedLink {
            path: path.to_owned(),
            ..link("a")
        };
        assert_eq!(
            message(vec![wrong], 1),
            format!("invalid package link path {path}: expected namespace/name/version")
        );
    }
    let relative = ManagedLink {
        target: "source".to_owned(),
        ..link("a")
    };
    assert_eq!(
        message(vec![relative], 1),
        "package link target must be absolute: source"
    );
    let again = ManagedLink {
        path: "local/a//1.0.0".to_owned(),
        ..link("a")
    };
    assert_eq!(
        message(vec![link("a"), again], 1),
        "duplicate package link path local/a//1.0.0"
    );
    match read_links(None) {
        Ok(state) => assert!(state.links.is_empty() && state.version == 1),
        Err(error) => panic!("{}", error.message("")),
    }
}

#[test]
fn managed_links_must_stay_links() {
    let owned = link("a");
    assert_eq!(
        validate_existing_link("/l", Some(&owned), &Observed::Other)
            .err()
            .unwrap()
            .message(""),
        "managed package link was replaced by a file or directory: /l"
    );
    assert!(!validate_existing_link("/l", Some(&owned), &Observed::Missing).unwrap());
    assert!(require_link_target("/l", "/t", "/t").is_ok());
    assert!(require_link_target("/l", "/t", "/u").is_err());
}

#[test]
fn a_project_is_the_directory_of_its_manifest() {
    let place = manifest_place("sub/typm.toml", "/work").unwrap();
    assert_eq!(place.path, "/work/sub/typm.toml");
    assert_eq!(place.directory, "/work/sub");
    assert_eq!(place.file, "typm.toml");
    assert_eq!(
        manifest_place("/work/..", "/").err().unwrap(),
        "invalid manifest path: /work/.."
    );
    assert_eq!(
        Project::new("/work/file", false, "typm.toml").err().unwrap(),
        "project directory is not a directory: /work/file"
    );
    let project = project();
    assert_eq!(project.manifest_path, "/work/project/typm.toml");
    assert_eq!(project.control(), "/work/project/.typm");
    assert_eq!(project.packages(), "/work/project/.typm/packages");
    assert_eq!(project.state_path(), "/work/project/.typm/state.toml");
    assert_eq!(project.lockfile_path(), "/work/project/typm.lock");
    assert_eq!(project.lock_path(), "/work/project/.typm/project.lock");
    assert_eq!(project.ignore_path(), "/work/project/.typm/.gitignore");
    let place = read_link_path("typm/a/0.0.0").unwrap();
    assert_eq!(place.text(), "typm/a/0.0.0");
    assert_eq!(
        project.link_parents(&place),
        vec![
            "/work/project/.typm",
            "/work/project/.typm/packages",
            "/work/project/.typm/packages/typm",
            "/work/project/.typm/packages/typm/a",
        ]
    );
}

#[test]
fn a_change_goes_through_its_steps_and_is_taken_back() {
    assert_eq!(next_step(Step::Reconcile, true, true), Step::WriteLockfile);
    assert_eq!(next_step(Step::Reconcile, false, true), Step::WriteManifest);
    assert_eq!(next_step(Step::Reconcile, false, false), Step::Done);
    assert_eq!(next_step(Step::WriteLockfile, true, true), Step::WriteManifest);
    assert_eq!(next_step(Step::WriteLockfile, true, false), Step::Done);
    assert_eq!(next_step(Step::WriteManifest, true, true), Step::Done);
    assert!(writes_lockfile(true, false) && writes_lockfile(false, true));
    assert!(!writes_lockfile(false, false));
    assert_eq!(restore_snapshot(Step::Reconcile, true), vec![]);
    assert_eq!(restore_snapshot(Step::WriteLockfile, true), vec![Restore::Links]);
    assert_eq!(
        restore_snapshot(Step::WriteManifest, true),
        vec![Restore::Lockfile, Restore::Links]
    );
    assert_eq!(restore_snapshot(Step::WriteManifest, false), vec![Restore::Links]);
    let failures = vec!["a".to_owned(), "b".to_owned()];
    assert_eq!(incomplete_rollback(&failures), "rollback incomplete: a; b");
    assert_eq!(
        rollback_failure("no space", &failures),
        "no space; could not fully restore package links: a; b"
    );
}

#[test]
fn created_directories_are_removed_in_reverse() {
    let mut applied = AppliedLinkChanges::new();
    applied.directories.push("/a".to_owned());
    applied.directories.push("/a/b".to_owned());
    assert_eq!(applied.created_directories(), vec!["/a/b", "/a"]);
}

#[test]
fn atomic_write_refuses_symlinks() {
    for kind in [EntryKind::Symlink, EntryKind::Directory, EntryKind::Other] {
        assert_eq!(
            atomic_write("/d/linked", kind, b"", b"replacement").err().unwrap().message(),
            "refusing to replace a symlink or non-file at /d/linked"
        );
    }
    assert!(matches!(
        atomic_write("/d/f", EntryKind::File, b"same", b"same"),
        Ok(Replacement::Unchanged)
    ));
    match atomic_write("/d/f", EntryKind::File, b"old", b"new") {
        Ok(Replacement::Write {
            directory,
            keep_permissions,
        }) => assert!(directory == "/d" && keep_permissions),
        _ => panic!("not written"),
    }
    match atomic_write("f", EntryKind::Missing, b"", b"") {
        Ok(Replacement::Write {
            directory,
            keep_permissions,
        }) => assert!(directory == "." && !keep_permissions),
        _ => panic!("not written"),
    }
    assert!(same_bytes(b"ab", b"ab") && !same_bytes(b"ab", b"a"));
}

#[test]
fn entries_of_another_kind_are_not_followed() {
    let told = "refusing to follow a symlink or non-directory at /d";
    for kind in [EntryKind::Symlink, EntryKind::File, EntryKind::Other] {
        assert_eq!(
            require_directory_if_present("/d", kind).err().unwrap().message(),
            told
        );
        assert_eq!(ensure_directory("/d", false, kind).err().unwrap().message(), told);
    }
    assert!(require_directory_if_present("/d", EntryKind::Missing).is_ok());
    assert!(ensure_directory("/d", true, EntryKind::Directory).unwrap());
    assert!(!ensure_directory("/d", false, EntryKind::Directory).unwrap());
    assert!(require_regular_file_if_present("/f", EntryKind::File).unwrap());
    assert!(!require_regular_file_if_present("/f", EntryKind::Missing).unwrap());
    assert!(require_regular_file_if_present("/f", EntryKind::Symlink).is_err());
    assert_eq!(link_failure("/l", "/t", false), "could not link /l to /t");
    assert_eq!(
        link_failure("/l", "/t", true),
        "could not link /l to /t; enable Windows Developer Mode or run with permission to create symbolic links"
    );
}
