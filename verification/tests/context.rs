use typm::context::{
    config_paths, invalid_configuration, legacy_storage, Config, Context, ContextError,
    Environment, Reading,
};
use typm::shell::{Phase, Shell, TransferCounts};

fn environment(home: Option<&str>, cache_root: Option<&str>) -> Environment {
    Environment {
        home: home.map(str::to_owned),
        cache_root: cache_root.map(str::to_owned),
        git_fetch_with_cli: None,
    }
}

fn context(environment: &Environment, legacy_has_storage: bool) -> Result<Context, ContextError> {
    Context::from_environment(
        "/w/workspace/nested",
        environment,
        Some("/w/user/.typm"),
        Some("/w/legacy-cache"),
        legacy_has_storage,
        Shell::new(true, false),
    )
}

fn reading(identity: &str, setting: Option<bool>) -> Reading {
    Reading {
        identity: identity.to_owned(),
        git_fetch_with_cli: setting,
    }
}

#[test]
fn initialization_does_not_create_home_or_cache() {
    let context = context(&environment(None, None), false).unwrap();
    assert_eq!(context.home, "/w/user/.typm");
    assert_eq!(context.cache_root, "/w/user/.typm");
    assert_eq!(context.cache_lock(), "/w/user/.typm/.package-cache");
    assert!(!context.config.net.git_fetch_with_cli);
}

#[test]
fn explicit_paths_are_relative_to_invocation_and_override_legacy_cache() {
    let found = context(&environment(Some("typm-home"), None), true).unwrap();
    assert_eq!(found.home, "/w/workspace/nested/typm-home");
    assert_eq!(found.cache_root, found.home);
    let found = context(&environment(Some("typm-home"), Some("custom-cache")), true).unwrap();
    assert_eq!(found.cache_root, "/w/workspace/nested/custom-cache");
    let found = context(&environment(Some("/elsewhere"), None), true).unwrap();
    assert_eq!(found.home, "/elsewhere");
}

#[test]
fn explicit_cache_keeps_default_home_configuration() {
    let context = context(&environment(None, Some("custom-cache")), false).unwrap();
    assert_eq!(context.home, "/w/user/.typm");
    assert_eq!(context.cache_root, "/w/workspace/nested/custom-cache");
    assert_eq!(
        config_paths(&context.home, &context.cwd)[0],
        "/w/user/.typm/config.toml"
    );
    let config = Config::load(
        &vec![reading("/w/user/.typm/config.toml", Some(true))],
        None,
    )
    .unwrap();
    assert!(config.net.git_fetch_with_cli);
}

#[test]
fn reuses_only_legacy_caches_with_git_storage() {
    assert_eq!(legacy_storage("/w/legacy-cache"), "/w/legacy-cache/git/db");
    let without = context(&environment(None, None), false).unwrap();
    assert_eq!(without.cache_root, "/w/user/.typm");
    let with = context(&environment(None, None), true).unwrap();
    assert_eq!(with.cache_root, "/w/legacy-cache");
}

#[test]
fn rejects_empty_home_and_cache_overrides() {
    let home = context(&environment(Some(""), None), false).unwrap_err();
    assert_eq!(home.message(), "TYPM_HOME must not be empty");
    let cache = context(&environment(None, Some("")), false).unwrap_err();
    assert_eq!(cache.message(), "TYPM_CACHE_DIR must not be empty");
}

#[test]
fn a_home_directory_must_be_known() {
    let error = Context::from_environment(
        "/w",
        &environment(None, None),
        None,
        None,
        false,
        Shell::new(true, false),
    )
    .unwrap_err();
    assert_eq!(
        error.message(),
        "could not find a home directory; set TYPM_HOME"
    );
}

#[test]
fn configuration_is_looked_for_from_the_home_directory_to_the_nearest() {
    assert_eq!(
        config_paths("/home/me/.typm", "/work/a"),
        vec![
            "/home/me/.typm/config.toml",
            "/.typm/config.toml",
            "/work/.typm/config.toml",
            "/work/a/.typm/config.toml",
        ]
    );
}

#[test]
fn nearer_configuration_and_environment_override_global_values() {
    let mut readings = vec![
        reading("/w/user/.typm/config.toml", Some(true)),
        reading("/w/workspace/.typm/config.toml", Some(false)),
    ];
    assert!(!Config::load(&readings, None).unwrap().net.git_fetch_with_cli);
    readings.push(reading("/w/workspace/nested/.typm/config.toml", Some(true)));
    assert!(Config::load(&readings, None).unwrap().net.git_fetch_with_cli);
    assert!(
        !Config::load(&readings, Some("false"))
            .unwrap()
            .net
            .git_fetch_with_cli
    );
    assert!(
        Config::load(&Vec::new(), Some("true"))
            .unwrap()
            .net
            .git_fetch_with_cli
    );
}

#[test]
fn unspecified_settings_do_not_reset_inherited_values() {
    let readings = vec![
        reading("/w/user/.typm/config.toml", Some(true)),
        reading("/w/workspace/nested/.typm/config.toml", None),
    ];
    assert!(Config::load(&readings, None).unwrap().net.git_fetch_with_cli);
}

#[test]
fn invalid_configuration_reports_its_path() {
    let path = "/w/workspace/nested/.typm/config.toml";
    assert!(invalid_configuration(path).contains(path));
    for value in ["yes", "1", "", "TRUE"] {
        let error = Config::load(&Vec::new(), Some(value)).unwrap_err();
        assert_eq!(
            error.message(),
            "TYPM_NET_GIT_FETCH_WITH_CLI must be `true` or `false`"
        );
    }
}

#[test]
fn global_configuration_is_not_reapplied_as_an_ancestor() {
    let global = "/w/workspace/.typm/config.toml";
    let readings = vec![
        reading(global, Some(true)),
        reading("/w/.typm/config.toml", Some(false)),
        reading(global, Some(true)),
    ];
    assert!(!Config::load(&readings, None).unwrap().net.git_fetch_with_cli);
}

#[test]
fn status_lines_are_flush_right_and_silent_when_quiet() {
    let shell = Shell::new(false, true);
    assert_eq!(
        shell.status("Added", "x (1 packages linked)").unwrap(),
        "       Added x (1 packages linked)"
    );
    assert_eq!(
        shell.status("AVeryLongAction", "m").unwrap(),
        "AVeryLongAction m"
    );
    assert!(shell.progress() && shell.is_terminal() && !shell.is_quiet());
    let quiet = Shell::new(true, true);
    assert!(quiet.status("Added", "x").is_none());
    assert!(!quiet.progress() && quiet.is_quiet());
    assert!(!Shell::new(false, false).progress());
}

#[test]
fn transfer_progress_shows_receiving_then_indexing() {
    let mut counts = TransferCounts {
        received_objects: 3,
        total_objects: 10,
        indexed_objects: 2,
        indexed_deltas: 0,
        total_deltas: 0,
    };
    let state = counts.update().unwrap();
    assert_eq!(
        (state.phase, state.completed, state.total, state.redraw),
        (Phase::Receiving, 3, 10, false)
    );
    counts.received_objects = 10;
    let state = counts.update().unwrap();
    assert_eq!(
        (state.phase, state.completed, state.total, state.redraw),
        (Phase::Indexing, 2, 10, false)
    );
    counts.total_deltas = 4;
    counts.indexed_deltas = 4;
    let state = counts.update().unwrap();
    assert_eq!(
        (state.phase, state.completed, state.total, state.redraw),
        (Phase::Indexing, 4, 4, true)
    );
    let nothing = TransferCounts {
        received_objects: 0,
        total_objects: 0,
        indexed_objects: 0,
        indexed_deltas: 0,
        total_deltas: 0,
    };
    assert!(nothing.update().is_none());
}
