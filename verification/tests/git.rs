use typm::files::EntryKind;
use typm::git::cache::{
    directories, fetch_advertised, head_path, marker_path, Cache, Reply, Request, Retrieval,
};
use typm::git::{
    checkout_complete, commit_query, head_is_text, is_commit_prefix, is_full_commit,
    reject_sha256_repository, reject_sha256_revision, remove_incomplete, resolve_commit,
    validate_locked_commit, GitSourceSpec, Lookup,
};
use typm::shell::Shell;

const FIRST: &str = "1111111111111111111111111111111111111111";
const SECOND: &str = "2222222222222222222222222222222222222222";

fn source(branch: Option<&str>, tag: Option<&str>, rev: Option<&str>) -> GitSourceSpec {
    GitSourceSpec {
        git: "https://example.invalid/repo.git".to_owned(),
        branch: branch.map(str::to_owned),
        tag: tag.map(str::to_owned),
        rev: rev.map(str::to_owned),
    }
}

fn cache() -> Cache {
    Cache::configured("/cache", Shell::new(true, false), false)
}

/// A repository that answers requests: the commit of a revision now, the commits that each fetch
/// brings, and which fetches fail.
struct World {
    known: Vec<(String, String)>,
    brought: Vec<(String, String)>,
    failing: Vec<String>,
    finished: Vec<String>,
    log: Vec<String>,
}

impl World {
    fn new() -> World {
        World {
            known: Vec::new(),
            brought: Vec::new(),
            failing: Vec::new(),
            finished: Vec::new(),
            log: Vec::new(),
        }
    }

    fn run(&mut self, mut work: Retrieval) -> Result<(String, String), Option<String>> {
        loop {
            match work.request() {
                Request::Check { root, commit } => {
                    self.log.push(format!("check {commit}"));
                    work.reply(Reply::Answer(self.finished.contains(&root)));
                }
                Request::Open => {
                    self.log.push("open".to_owned());
                    work.reply(Reply::Done);
                }
                Request::Look(revision) => {
                    self.log.push(format!("look {revision}"));
                    let answer = self
                        .known
                        .iter()
                        .find(|(name, _)| *name == revision)
                        .map_or(Lookup::NotFound, |(_, commit)| {
                            Lookup::Commit(commit.clone())
                        });
                    work.reply(Reply::Looked(answer));
                }
                Request::Announce(message) => {
                    self.log.push(message);
                    work.reply(Reply::Done);
                }
                Request::Invalidate(reference) => {
                    self.known.retain(|(name, _)| *name != reference);
                    work.reply(Reply::Done);
                }
                Request::Fetch(refspecs) => {
                    self.log.push(format!("fetch {}", refspecs.join(" ")));
                    let fails = refspecs.iter().any(|refspec| self.failing.contains(refspec));
                    if !fails {
                        for refspec in &refspecs {
                            for (from, commit) in &self.brought {
                                let taken = refspec
                                    .strip_prefix(&format!("+{from}:"))
                                    .map(str::to_owned)
                                    .or((refspec == from).then_some(from.clone()));
                                if let Some(reference) = taken {
                                    self.known.push((reference, commit.clone()));
                                }
                            }
                        }
                    }
                    work.reply(Reply::Fetched(!fails));
                }
                Request::Point { reference, commit } => {
                    self.log.push(format!("point {reference}"));
                    self.known.push((reference, commit));
                    work.reply(Reply::Done);
                }
                Request::Create { root, commit } => {
                    self.log.push(format!("create {commit}"));
                    self.finished.push(root);
                    work.reply(Reply::Done);
                }
                Request::Done(checkout) => return Ok((checkout.root, checkout.commit)),
                Request::Fail(error) => return Err(error.map(|error| error.message())),
            }
        }
    }
}

#[test]
fn selectors_have_distinct_identities_and_invalid_refspecs_are_rejected() {
    let mut source = source(None, None, None);
    let head = source.id();
    source.branch = Some("main".to_owned());
    let branch = source.id();
    source.branch = None;
    source.tag = Some("main".to_owned());
    assert_ne!(head, branch);
    assert_ne!(branch, source.id());
    source.tag = Some("bad:refs/heads/injected".to_owned());
    assert!(source.validate().is_err());
}

#[test]
fn an_identity_is_the_digest_of_the_marked_fields() {
    let source = source(Some("main"), None, None);
    let mut message: Vec<u8> = Vec::new();
    for field in [Some("https://example.invalid/repo.git"), Some("main"), None, None] {
        match field {
            Some(text) => {
                message.push(1);
                message.extend((text.len() as u64).to_le_bytes());
                message.extend(text.as_bytes());
            }
            None => message.push(0),
        }
    }
    assert_eq!(source.id(), blake3::hash(&message).to_hex().to_string());
    assert_eq!(source.id().len(), 64);
}

#[test]
fn sources_are_refused_by_the_first_fault() {
    let with_git = |git: &str| GitSourceSpec {
        git: git.to_owned(),
        branch: None,
        tag: None,
        rev: None,
    };
    for git in ["", "-option", "a\nb"] {
        assert_eq!(
            with_git(git).validate().unwrap_err().message(),
            "Git source must be a nonempty URL or filesystem path"
        );
    }
    assert_eq!(
        source(Some("a"), Some("b"), None)
            .validate()
            .unwrap_err()
            .message(),
        "a Git dependency accepts only one of branch, tag, or rev"
    );
    for rev in ["", "a\u{7f}"] {
        assert_eq!(
            source(None, None, Some(rev)).validate().unwrap_err().message(),
            "Git branch, tag, and rev selectors must be nonempty and contain no control characters"
        );
    }
    assert_eq!(
        source(Some("a..b"), None, None)
            .validate()
            .unwrap_err()
            .message(),
        "invalid Git heads name: a..b"
    );
    assert_eq!(
        source(None, Some("a b"), None)
            .validate()
            .unwrap_err()
            .message(),
        "invalid Git tags name: a b"
    );
    assert!(source(Some("feature/x"), None, None).validate().is_ok());
    assert!(source(None, None, Some("refs/pull/7/head")).validate().is_ok());
}

#[test]
fn requested_references_follow_the_selector() {
    assert_eq!(source(None, None, None).requested_ref(), "HEAD");
    assert_eq!(source(Some("main"), None, None).requested_ref(), "refs/heads/main");
    assert_eq!(source(None, Some("v1"), None).requested_ref(), "refs/tags/v1");
    assert_eq!(source(None, None, Some("abc")).requested_ref(), "abc");
    let main = source(Some("main"), None, None);
    assert_eq!(main.cache_ref(), format!("refs/typm/sources/{}", main.id()));
    assert_eq!(
        main.refspec(),
        format!("+refs/heads/main:refs/typm/sources/{}", main.id())
    );
    assert!(!main.allows_local_submodules());
    let local = GitSourceSpec {
        git: "/repos/x".to_owned(),
        branch: None,
        tag: None,
        rev: None,
    };
    assert!(local.allows_local_submodules());
}

#[test]
fn commits_are_recognised_by_their_digits() {
    assert!(is_full_commit(FIRST));
    assert!(is_full_commit(&"a".repeat(64)));
    assert!(!is_full_commit(&"A".repeat(40)));
    assert!(!is_full_commit(&"a".repeat(41)));
    assert!(is_commit_prefix("AbC1"));
    assert!(!is_commit_prefix("abc"));
    assert!(!is_commit_prefix("main"));
    assert!(!is_commit_prefix(&"a".repeat(65)));
    assert_eq!(
        validate_locked_commit(Some("nope")).unwrap_err().message(),
        "invalid locked Git commit: nope"
    );
    assert!(validate_locked_commit(None).is_ok());
    assert!(reject_sha256_revision(Some(&"a".repeat(40))).is_ok());
    assert_eq!(
        reject_sha256_revision(Some(&"a".repeat(41))).unwrap_err().message(),
        "SHA-256 Git repositories are not supported by typm's git2 backend"
    );
    assert!(reject_sha256_repository(Some("SHA256")).is_err());
    assert!(reject_sha256_repository(Some("sha1")).is_ok());
    assert_eq!(commit_query("main"), "main^{commit}");
    assert_eq!(resolve_commit(Lookup::Ambiguous).unwrap(), None);
    assert_eq!(
        resolve_commit(Lookup::Failed).unwrap_err().message(),
        "could not inspect the cached Git revision"
    );
}

#[test]
fn checkouts_are_finished_by_marker_and_head() {
    assert!(checkout_complete(FIRST, Some(FIRST), None, Some(FIRST)));
    assert!(!checkout_complete(FIRST, Some(FIRST), None, Some(SECOND)));
    assert!(!checkout_complete(FIRST, Some(FIRST), None, None));
    assert!(!checkout_complete(FIRST, None, None, Some(FIRST)));
    assert!(!checkout_complete(FIRST, Some("x"), None, Some(FIRST)));
    let long = "a".repeat(64);
    assert!(head_is_text(&long) && !head_is_text(FIRST));
    let head = format!("{long}\n");
    assert!(checkout_complete(&long, Some(&long), Some(&head), None));
    assert!(!checkout_complete(&long, Some(&long), None, Some(&long)));
    assert_eq!(marker_path("/c"), "/c/.git/typm-complete");
    assert_eq!(head_path("/c"), "/c/.git/HEAD");
}

#[test]
fn only_directories_are_removed_from_the_cache() {
    assert!(remove_incomplete("/c", EntryKind::Directory).unwrap());
    assert!(!remove_incomplete("/c", EntryKind::Missing).unwrap());
    for kind in [EntryKind::File, EntryKind::Symlink, EntryKind::Other] {
        assert_eq!(
            remove_incomplete("/c", kind).unwrap_err().message(),
            "refusing to replace unexpected cache entry /c"
        );
    }
}

#[test]
fn a_repository_is_kept_under_the_digest_of_its_location() {
    let id = blake3::hash(b"/repos/x").to_hex().to_string();
    let layout = cache().layout("/repos/x");
    assert_eq!(layout.database, format!("/cache/git/db/{id}"));
    assert_eq!(layout.checkouts, format!("/cache/git/checkouts/{id}"));
    assert_eq!(layout.lock, format!("/cache/git/locks/{id}.lock"));
    assert_eq!(
        directories("/cache"),
        vec!["/cache/git/db", "/cache/git/checkouts", "/cache/git/locks"]
    );
    assert_eq!(fetch_advertised()[1], "+refs/tags/*:refs/tags/*");
}

#[test]
fn a_locked_commit_is_kept_and_a_refresh_follows_the_branch() {
    let source = source(Some("main"), None, None);
    let mut world = World::new();
    world.brought.push(("refs/heads/main".to_owned(), FIRST.to_owned()));
    let (_, commit) = world
        .run(cache().resolve(&source, None, false).unwrap())
        .unwrap();
    assert_eq!(commit, FIRST);
    world.known.push((FIRST.to_owned(), FIRST.to_owned()));

    world.brought = vec![("refs/heads/main".to_owned(), SECOND.to_owned())];
    let (_, commit) = world
        .run(cache().resolve(&source, None, false).unwrap())
        .unwrap();
    assert_eq!(commit, SECOND);
    world.log.clear();
    let (root, commit) = world
        .run(cache().resolve(&source, Some(FIRST), false).unwrap())
        .unwrap();
    assert_eq!(commit, FIRST);
    assert!(root.ends_with(FIRST));
    assert_eq!(world.log, vec![format!("check {FIRST}")]);
    let (_, commit) = world
        .run(cache().resolve(&source, Some(FIRST), true).unwrap())
        .unwrap();
    assert_eq!(commit, SECOND);

    // A missing checkout of a locked commit is made again without a fetch.
    world.finished.clear();
    world.log.clear();
    world
        .run(cache().resolve(&source, Some(FIRST), false).unwrap())
        .unwrap();
    assert!(!world.log.iter().any(|line| line.starts_with("fetch")));
}

#[test]
fn refreshing_a_deleted_branch_does_not_reuse_its_cached_tip() {
    let source = source(Some("temporary"), None, None);
    let mut world = World::new();
    world
        .brought
        .push(("refs/heads/temporary".to_owned(), FIRST.to_owned()));
    world
        .run(cache().resolve(&source, None, false).unwrap())
        .unwrap();
    world.known.push((FIRST.to_owned(), FIRST.to_owned()));
    world.brought.clear();
    assert_eq!(
        world
            .run(cache().resolve(&source, Some(FIRST), true).unwrap())
            .unwrap_err()
            .unwrap(),
        "Git reference refs/heads/temporary in https://example.invalid/repo.git does not identify a commit"
    );
    let (_, commit) = world
        .run(cache().resolve(&source, Some(FIRST), false).unwrap())
        .unwrap();
    assert_eq!(commit, FIRST);
}

#[test]
fn abbreviated_revisions_are_found_without_a_fetch() {
    let source = source(None, None, Some("1111"));
    let mut world = World::new();
    world.known.push(("1111".to_owned(), FIRST.to_owned()));
    let (_, commit) = world
        .run(cache().resolve(&source, None, true).unwrap())
        .unwrap();
    assert_eq!(commit, FIRST);
    assert!(world.log.contains(&format!("point {}", source.cache_ref())));
    assert!(!world.log.iter().any(|line| line.starts_with("fetch")));

    // A branch of that name stands for another commit.
    let mut world = World::new();
    world.known.push(("1111".to_owned(), SECOND.to_owned()));
    world.brought.push(("1111".to_owned(), FIRST.to_owned()));
    let (_, commit) = world
        .run(cache().resolve(&source, None, true).unwrap())
        .unwrap();
    assert_eq!(commit, FIRST);
}

#[test]
fn revisions_that_cannot_be_fetched_alone_come_with_what_is_advertised() {
    let source = source(None, None, Some("abcd1234"));
    let mut world = World::new();
    world.failing.push(source.refspec());
    assert_eq!(
        world
            .run(cache().resolve(&source, None, false).unwrap())
            .unwrap_err()
            .unwrap(),
        "could not resolve Git revision abcd1234 in https://example.invalid/repo.git"
    );
    world.failing.push("+refs/tags/*:refs/tags/*".to_owned());
    assert_eq!(
        world.run(cache().resolve(&source, None, false).unwrap()),
        Err(None)
    );
}

#[test]
fn unavailable_locked_commits_are_told() {
    let source = source(Some("main"), None, None);
    let mut world = World::new();
    assert_eq!(
        world
            .run(cache().resolve(&source, Some(FIRST), false).unwrap())
            .unwrap_err()
            .unwrap(),
        format!(
            "locked Git commit {FIRST} is unavailable in https://example.invalid/repo.git; the lockfile was not changed"
        )
    );
    assert!(world
        .log
        .contains(&"git repository `https://example.invalid/repo.git`".to_owned()));
    world.failing.push("+HEAD:refs/typm/default".to_owned());
    assert_eq!(
        world
            .run(cache().resolve(&source, Some(FIRST), false).unwrap())
            .unwrap_err()
            .unwrap(),
        format!(
            "could not download locked commit {FIRST} from https://example.invalid/repo.git"
        )
    );
}

#[test]
fn sha256_commits_are_used_from_finished_checkouts_only() {
    let source = source(Some("main"), None, None);
    let long = "a".repeat(64);
    let mut world = World::new();
    assert_eq!(
        world
            .run(cache().resolve(&source, Some(&long), false).unwrap())
            .unwrap_err()
            .unwrap(),
        "SHA-256 Git repositories are not supported by typm's git2 backend"
    );
    world
        .finished
        .push(format!("{}/{long}", cache().layout(&source.git).checkouts));
    let (_, commit) = world
        .run(cache().resolve(&source, Some(&long), false).unwrap())
        .unwrap();
    assert_eq!(commit, long);
}
