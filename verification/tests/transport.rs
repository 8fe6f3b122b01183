use typm::git::submodules::{
    check_depth, declared_url, initialize_submodule_url, is_relative_url, relative_base, url_key,
    wanted_name, Reply, Request, Submodule,
};
use typm::git::transport::{
    authentication_failed, cleared_variables, cli_failure, is_local_url, library_failure, username,
    Allowed, Authentication, Means, Offer, Transport,
};
use typm::shell::Shell;

const NOTHING: Allowed = Allowed {
    username: false,
    ssh_key: false,
    user_pass_plaintext: false,
    default: false,
};

#[test]
fn credentials_are_not_repeated_after_rejection() {
    let mut authentication = Authentication::new();
    let url = "ssh://git@example.invalid/repo.git";
    let allowed = Allowed {
        username: true,
        ..NOTHING
    };
    assert!(authentication.begin());
    assert_eq!(
        authentication.credentials(url, "git", allowed, None),
        Some(Offer::Username)
    );
    assert!(authentication.begin());
    assert_eq!(authentication.credentials(url, "git", allowed, None), None);
    assert_eq!(
        authentication.credentials(url, "other", allowed, None),
        Some(Offer::Username)
    );
}

#[test]
fn credential_helpers_are_used_only_for_allowed_password_credentials() {
    let mut authentication = Authentication::new();
    let url = "https://example.invalid/repo.git";
    let name = username(None, Some("typm-test"));
    assert_eq!(name, "typm-test");
    assert_eq!(authentication.credentials(url, &name, NOTHING, None), None);
    let allowed = Allowed {
        user_pass_plaintext: true,
        ..NOTHING
    };
    assert_eq!(
        authentication.credentials(url, &name, allowed, None),
        Some(Offer::Helper)
    );
    assert_eq!(authentication.credentials(url, &name, allowed, None), None);
}

#[test]
fn ways_to_authenticate_are_tried_in_order_and_not_too_often() {
    let mut authentication = Authentication::new();
    let all = Allowed {
        username: false,
        ssh_key: true,
        user_pass_plaintext: true,
        default: true,
    };
    let mut after = None;
    for expected in [Offer::Agent, Offer::Helper, Offer::Default] {
        after = authentication.credentials("u", "git", all, after);
        assert_eq!(after, Some(expected));
    }
    assert_eq!(authentication.credentials("u", "git", all, after), None);
    for _ in 0..8 {
        assert!(authentication.begin());
    }
    assert!(!authentication.begin());
    assert_eq!(username(None, None), "git");
    assert_eq!(username(Some("me"), Some("helper")), "me");
    assert!(authentication_failed().starts_with("Git authentication failed; "));
}

#[test]
fn network_repositories_cannot_fetch_local_submodules() {
    let transport = Transport::new(Shell::new(true, false), false);
    for url in ["file:///tmp/repo", "/tmp/repo", "../repo"] {
        assert!(transport.validate_url(url, false).is_err());
        assert!(transport.validate_url(url, true).is_ok());
        assert!(is_local_url(url));
    }
    for url in [
        "https://example.invalid/repo",
        "ssh://git@example.invalid/repo",
        "git@example.invalid:repo",
    ] {
        assert!(transport.validate_url(url, false).is_ok());
    }
    assert_eq!(
        transport.fetch("/tmp/repo", false).unwrap_err().message(),
        "refusing local Git submodule URL `/tmp/repo` in a network repository"
    );
    assert_eq!(transport.fetch("/tmp/repo", true).unwrap(), Means::Library);
    let cli = Transport::new(Shell::new(true, false), true);
    assert_eq!(cli.fetch("/tmp/repo", true).unwrap(), Means::Cli);
}

#[test]
fn the_git_program_gets_exact_arguments() {
    let refspecs = vec!["+HEAD:refs/typm/default".to_owned()];
    let quiet = Transport::new(Shell::new(true, true), true);
    assert_eq!(
        quiet.fetch_cli("/db", "url", &refspecs),
        vec![
            "--git-dir",
            "/db",
            "-c",
            "gc.auto=0",
            "fetch",
            "--force",
            "--no-tags",
            "--no-recurse-submodules",
            "--quiet",
            "--",
            "url",
            "+HEAD:refs/typm/default",
        ]
    );
    let shown = Transport::new(Shell::new(false, true), true);
    assert_eq!(shown.fetch_cli("/db", "url", &refspecs)[8], "--progress");
    assert!(shown.shows_errors() && !quiet.shows_errors());
    let plain = Transport::new(Shell::new(false, false), true);
    assert_eq!(plain.fetch_cli("/db", "url", &refspecs)[8], "--");
    assert_eq!(cleared_variables().len(), 16);
    assert!(cleared_variables().contains(&"GIT_INDEX_FILE".to_owned()));
}

#[test]
fn failed_fetches_are_told() {
    let sha256 = "SHA-256 Git repositories are not supported by typm's git2 backend";
    assert_eq!(library_failure("unknown ObjectFormat", "u"), sha256);
    assert_eq!(library_failure("Sha256 not supported", "u"), sha256);
    assert_eq!(
        library_failure("network unreachable", "u"),
        "Git fetch failed for u; for system Git authentication, set net.git-fetch-with-cli = true"
    );
    assert_eq!(
        cli_failure("exit status: 128", "  fatal: no\n"),
        "Git fetch failed (exit status: 128): fatal: no"
    );
}

#[test]
fn relative_submodules_of_file_repositories_are_resolved() {
    assert_eq!(
        initialize_submodule_url("../leaf", "file:///repos/parent")
            .unwrap()
            .unwrap(),
        "file:///repos/leaf"
    );
    assert_eq!(
        initialize_submodule_url("./leaf", "file:///repos/parent/")
            .unwrap()
            .unwrap(),
        "file:///repos/parent/leaf"
    );
    assert_eq!(
        initialize_submodule_url("../leaf", "https://example.invalid/parent").unwrap(),
        None
    );
    assert_eq!(
        initialize_submodule_url("https://example.invalid/leaf", "file:///repos/parent").unwrap(),
        None
    );
    assert_eq!(
        initialize_submodule_url("../leaf", "file://[bad")
            .unwrap_err()
            .message(),
        "invalid parent repository file URL"
    );
    assert!(is_relative_url("./x") && is_relative_url("../x") && !is_relative_url(".x"));
    assert_eq!(url_key("vendor/leaf"), "submodule.vendor/leaf.url");
}

#[test]
fn the_base_of_a_relative_submodule_ends_in_a_slash() {
    let base = |path: Option<&str>, extended: Option<&str>| {
        relative_base("../leaf", "file:///p", path, extended)
    };
    assert_eq!(
        base(Some("/p"), Some("file:///p/")).unwrap().unwrap(),
        "file:///p/"
    );
    assert_eq!(base(Some("/p/"), None).unwrap().unwrap(), "file:///p");
    assert_eq!(
        base(Some("/p"), None).unwrap_err().message(),
        "could not resolve relative Git submodule URL"
    );
    assert_eq!(
        base(None, None).unwrap_err().message(),
        "invalid parent repository file URL"
    );
}

fn run_submodule(
    mut work: Submodule,
    opened: Reply,
    has: &mut Vec<bool>,
    fetches: &mut Vec<bool>,
) -> Vec<String> {
    let mut log = Vec::new();
    loop {
        match work.request() {
            Request::Open => {
                log.push("open".to_owned());
                work.reply(opened);
            }
            Request::Initialize => {
                log.push("initialize".to_owned());
                work.reply(Reply::Done);
            }
            Request::Configure(url) => {
                log.push(format!("origin {url}"));
                work.reply(Reply::Done);
            }
            Request::Has(_) => work.reply(Reply::Answer(has.remove(0))),
            Request::Announce(message) => {
                log.push(message);
                work.reply(Reply::Done);
            }
            Request::Fetch { refspecs, .. } => {
                log.push(format!("fetch {}", refspecs.len()));
                work.reply(Reply::Fetched(fetches.remove(0)));
            }
            Request::CheckOut(commit) => {
                log.push(format!("check out {commit}"));
                work.reply(Reply::Done);
            }
            Request::Descend { allow_local, depth } => {
                log.push(format!("descend {allow_local} {depth}"));
                work.reply(Reply::Done);
            }
            Request::Done => {
                log.push("done".to_owned());
                return log;
            }
            Request::OpenFailed => {
                log.push("open failed".to_owned());
                return log;
            }
            Request::FetchFailed => {
                log.push("fetch failed".to_owned());
                return log;
            }
        }
    }
}

#[test]
fn nested_repositories_are_brought_to_their_pinned_commit() {
    let begin = || Submodule::begin("leaf", "/repos/leaf", Some("c0ffee"), true, 3).unwrap();
    assert_eq!(
        run_submodule(begin(), Reply::NotFound, &mut vec![false, true], &mut vec![true]),
        vec![
            "open",
            "initialize",
            "origin /repos/leaf",
            "git submodule `leaf`",
            "fetch 1",
            "check out c0ffee",
            "descend true 4",
            "done",
        ]
    );
    assert_eq!(
        run_submodule(begin(), Reply::Done, &mut vec![true], &mut vec![]),
        vec![
            "open",
            "origin /repos/leaf",
            "check out c0ffee",
            "descend true 4",
            "done"
        ]
    );
    let log = run_submodule(begin(), Reply::Done, &mut vec![false], &mut vec![false, false]);
    assert_eq!(&log[3..], ["fetch 1", "fetch 3", "fetch failed"]);
    let log = run_submodule(begin(), Reply::Failed, &mut vec![], &mut vec![]);
    assert_eq!(log, vec!["open", "open failed"]);
}

#[test]
fn nested_repositories_are_refused_by_the_first_fault() {
    assert_eq!(
        Submodule::begin("leaf", "/repos/leaf", None, false, 0)
            .unwrap_err()
            .message(),
        "refusing local Git submodule URL `/repos/leaf` in a network repository"
    );
    assert_eq!(
        Submodule::begin("leaf", "https://example.invalid/leaf", None, false, 0)
            .unwrap_err()
            .message(),
        "Git submodule `leaf` has no pinned commit"
    );
    let network = Submodule::begin("leaf", "https://e.invalid/l", Some("c"), true, 0).unwrap();
    let log = run_submodule(network, Reply::Done, &mut vec![true], &mut vec![]);
    assert!(log.contains(&"descend false 1".to_owned()));
    assert!(check_depth(256).is_ok());
    assert_eq!(
        check_depth(257).unwrap_err().message(),
        "Git submodules exceed 256 nested repositories"
    );
    assert_eq!(wanted_name(true, None).unwrap(), None);
    assert_eq!(
        wanted_name(false, None).unwrap_err().message(),
        "Git submodule name is not valid UTF-8"
    );
    assert_eq!(
        declared_url(true, None).unwrap_err().message(),
        "Git submodule has no repository URL"
    );
    assert_eq!(
        declared_url(false, None).unwrap_err().message(),
        "Git submodule URL is not valid UTF-8"
    );
    assert_eq!(declared_url(true, Some("u")).unwrap(), "u");
}
