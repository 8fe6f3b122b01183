//! Where the program keeps its things, and how it is configured.

use vstd::prelude::*;

use crate::ordered::Table;
use crate::path::{chain, chain_texts, join_path, joined_path};
use crate::shell::Shell;
use crate::text::{lemma_texts_push, opt_str, plus, same, texts};

verus! {

broadcast use vstd::string::group_string_axioms;

/// The surroundings of one run.
#[derive(Debug)]
pub struct Context {
    pub cwd: String,
    pub home: String,
    pub cache_root: String,
    pub config: Config,
    pub shell: Shell,
}

/// The configuration.
#[derive(Clone, Copy, Debug, PartialEq, Eq, Structural)]
pub struct Config {
    pub net: NetConfig,
}

/// The configuration of network access.
#[derive(Clone, Copy, Debug, PartialEq, Eq, Structural)]
pub struct NetConfig {
    pub git_fetch_with_cli: bool,
}

impl Default for Config {
    fn default() -> (r: Self)
        ensures
            r == (Config { net: NetConfig { git_fetch_with_cli: false } }),
    {
        Config { net: NetConfig { git_fetch_with_cli: false } }
    }
}

/// The environment variables that count, each as its text where it is set.
#[derive(Debug)]
pub struct Environment {
    pub home: Option<String>,
    pub cache_root: Option<String>,
    pub git_fetch_with_cli: Option<String>,
}

/// What is wrong with the surroundings.
#[derive(Clone, Copy, Debug, PartialEq, Eq, Structural)]
pub enum ContextError {
    EmptyHome,
    EmptyCacheRoot,
    NoHome,
    FetchSetting,
}

/// The text shown for an error.
pub open spec fn error_text(error: ContextError) -> Seq<char> {
    match error {
        ContextError::EmptyHome => "TYPM_HOME must not be empty"@,
        ContextError::EmptyCacheRoot => "TYPM_CACHE_DIR must not be empty"@,
        ContextError::NoHome => "could not find a home directory; set TYPM_HOME"@,
        ContextError::FetchSetting => "TYPM_NET_GIT_FETCH_WITH_CLI must be `true` or `false`"@,
    }
}

impl ContextError {
    /// The text shown to the user.
    pub fn message(&self) -> (r: String)
        ensures
            r@ == error_text(*self),
    {
        match self {
            ContextError::EmptyHome => "TYPM_HOME must not be empty".to_owned(),
            ContextError::EmptyCacheRoot => "TYPM_CACHE_DIR must not be empty".to_owned(),
            ContextError::NoHome => "could not find a home directory; set TYPM_HOME".to_owned(),
            ContextError::FetchSetting =>
                "TYPM_NET_GIT_FETCH_WITH_CLI must be `true` or `false`".to_owned(),
        }
    }
}

/// The home directory that the surroundings give.
pub open spec fn home_of(
    cwd: Seq<char>,
    explicit: Option<Seq<char>>,
    default_home: Option<Seq<char>>,
) -> Result<Seq<char>, ContextError> {
    match (explicit, default_home) {
        (Some(path), _) => if path.len() == 0 {
            Err(ContextError::EmptyHome)
        } else {
            Ok(joined_path(cwd, path))
        },
        (None, Some(path)) => Ok(path),
        (None, None) => Err(ContextError::NoHome),
    }
}

/// The cache directory beside a home directory. An earlier cache is used only where neither
/// directory is given and it holds Git storage.
pub open spec fn cache_of(
    cwd: Seq<char>,
    home: Seq<char>,
    explicit_home: bool,
    explicit: Option<Seq<char>>,
    legacy: Option<Seq<char>>,
    legacy_has_storage: bool,
) -> Result<Seq<char>, ContextError> {
    match explicit {
        Some(path) => if path.len() == 0 {
            Err(ContextError::EmptyCacheRoot)
        } else {
            Ok(joined_path(cwd, path))
        },
        None => if !explicit_home && legacy is Some && legacy_has_storage {
            Ok(legacy->0)
        } else {
            Ok(home)
        },
    }
}

/// The path in an environment variable, which is relative to the working directory.
fn environment_path(value: &str, cwd: &str) -> (r: Option<String>)
    ensures
        match r {
            Some(path) => value@.len() > 0 && path@ == joined_path(cwd@, value@),
            None => value@.len() == 0,
        },
{
    if value.is_empty() {
        None
    } else {
        Some(join_path(cwd, value))
    }
}

/// Where an earlier cache must hold a directory to be used again.
pub fn legacy_storage(legacy_cache: &str) -> (r: String)
    ensures
        r@ == joined_path(legacy_cache@, "git/db"@),
{
    join_path(legacy_cache, "git/db")
}

impl Context {
    /// The surroundings, with the default configuration. `default_home` and `legacy_cache` are
    /// the directories used where the environment gives none; `legacy_has_storage` tells whether
    /// the latter holds Git storage.
    pub fn from_environment(
        cwd: &str,
        environment: &Environment,
        default_home: Option<&str>,
        legacy_cache: Option<&str>,
        legacy_has_storage: bool,
        shell: Shell,
    ) -> (r: Result<Context, ContextError>)
        ensures
            match home_of(
                cwd@,
                crate::text::opt_text(environment.home),
                opt_str(default_home),
            ) {
                Err(e) => r == Err::<Context, ContextError>(e),
                Ok(home) => match cache_of(
                    cwd@,
                    home,
                    environment.home is Some,
                    crate::text::opt_text(environment.cache_root),
                    opt_str(legacy_cache),
                    legacy_has_storage,
                ) {
                    Err(e) => r == Err::<Context, ContextError>(e),
                    Ok(cache_root) => {
                        &&& r is Ok
                        &&& r->Ok_0.cwd@ == cwd@
                        &&& r->Ok_0.home@ == home
                        &&& r->Ok_0.cache_root@ == cache_root
                        &&& !r->Ok_0.config.net.git_fetch_with_cli
                        &&& r->Ok_0.shell == shell
                    },
                },
            },
    {
        let home = match &environment.home {
            Some(path) => match environment_path(path.as_str(), cwd) {
                Some(home) => home,
                None => return Err(ContextError::EmptyHome),
            },
            None => match default_home {
                Some(home) => home.to_owned(),
                None => return Err(ContextError::NoHome),
            },
        };
        let cache_root = match &environment.cache_root {
            Some(path) => match environment_path(path.as_str(), cwd) {
                Some(root) => root,
                None => return Err(ContextError::EmptyCacheRoot),
            },
            None => match legacy_cache {
                Some(legacy) => if environment.home.is_none() && legacy_has_storage {
                    legacy.to_owned()
                } else {
                    home.clone()
                },
                None => home.clone(),
            },
        };
        Ok(Context { cwd: cwd.to_owned(), home, cache_root, config: Config::default(), shell })
    }

    /// The file whose lock guards the shared Git storage.
    pub fn cache_lock(&self) -> (r: String)
        ensures
            r@ == joined_path(self.cache_root@, ".package-cache"@),
    {
        join_path(self.cache_root.as_str(), ".package-cache")
    }
}

/// The configuration files that count, from the least to the most specific: the one in the home
/// directory, then those beside the working directory and its ancestors, outermost first.
pub open spec fn config_paths_of(home: Seq<char>, cwd: Seq<char>) -> Seq<Seq<char>> {
    seq![joined_path(home, "config.toml"@)] + chain_texts(cwd).map_values(
        |directory: Seq<char>| joined_path(directory, ".typm/config.toml"@),
    )
}

/// The configuration files that count, from the least to the most specific.
pub fn config_paths(home: &str, cwd: &str) -> (r: Vec<String>)
    ensures
        texts(r@) == config_paths_of(home@, cwd@),
{
    let mut paths: Vec<String> = Vec::new();
    paths.push(join_path(home, "config.toml"));
    let directories = chain(cwd);
    let ghost wanted = config_paths_of(home@, cwd@);
    let mut i: usize = 0;
    assert(texts(paths@) =~= wanted.take(1));
    while i < directories.len()
        invariant
            i <= directories@.len(),
            texts(directories@) == chain_texts(cwd@),
            wanted == config_paths_of(home@, cwd@),
            texts(paths@) == wanted.take(1 + i),
        decreases directories@.len() - i,
    {
        let path = join_path(directories[i].as_str(), ".typm/config.toml");
        proof {
            lemma_texts_push(paths@, path);
            assert(texts(directories@)[i as int] == directories@[i as int]@);
            assert(wanted.take(2 + i) =~= wanted.take(1 + i).push(path@));
        }
        paths.push(path);
        i = i + 1;
    }
    proof {
        assert(texts(directories@).len() == directories@.len());
        assert(wanted.take(1 + i) =~= wanted);
    }
    paths
}

/// What was read from one configuration file: which file it is, links followed, and the setting
/// it holds.
#[derive(Debug)]
pub struct Reading {
    pub identity: String,
    pub git_fetch_with_cli: Option<bool>,
}

/// The file was read earlier on.
pub open spec fn read_before(readings: Seq<Reading>, identity: Seq<char>) -> bool {
    exists|i: int| 0 <= i < readings.len() && (#[trigger] readings[i]).identity@ == identity
}

/// The setting that the files give: that of the last one that has it, where a file that comes a
/// second time does not count again, and `false` where none has it.
pub open spec fn inherited(readings: Seq<Reading>) -> bool
    decreases readings.len(),
{
    if readings.len() == 0 {
        false
    } else {
        let last = readings.last();
        let earlier = readings.drop_last();
        match last.git_fetch_with_cli {
            Some(value) => if read_before(earlier, last.identity@) {
                inherited(earlier)
            } else {
                value
            },
            None => inherited(earlier),
        }
    }
}

/// The value that the environment variable gives, or the error.
pub open spec fn overridden(value: bool, setting: Option<Seq<char>>) -> Result<bool, ContextError> {
    match setting {
        Some(text) => if text == "true"@ {
            Ok(true)
        } else if text == "false"@ {
            Ok(false)
        } else {
            Err(ContextError::FetchSetting)
        },
        None => Ok(value),
    }
}

impl Config {
    /// The configuration that the files, from the least to the most specific, and the
    /// environment variable give.
    pub fn load(readings: &Vec<Reading>, setting: Option<&str>) -> (r: Result<Config, ContextError>)
        ensures
            match overridden(inherited(readings@), opt_str(setting)) {
                Ok(value) => r == Ok::<Config, ContextError>(
                    Config { net: NetConfig { git_fetch_with_cli: value } },
                ),
                Err(e) => r == Err::<Config, ContextError>(e),
            },
    {
        let mut config = Config::default();
        let mut loaded: Table<String, ()> = Table::new();
        let mut i: usize = 0;
        assert(readings@.take(0) =~= Seq::<Reading>::empty());
        while i < readings.len()
            invariant
                i <= readings@.len(),
                config.net.git_fetch_with_cli == inherited(readings@.take(i as int)),
                forall|id: Seq<char>| #[trigger]
                    loaded@.dom().contains(id) <==> read_before(readings@.take(i as int), id),
            decreases readings@.len() - i,
        {
            let reading = &readings[i];
            let ghost before = readings@.take(i as int);
            let ghost after = readings@.take(i + 1);
            proof {
                assert(after.drop_last() =~= before);
                assert(after.last() == *reading);
                assert forall|id: Seq<char>|
                    read_before(after, id) <==> read_before(before, id) || id
                        == reading.identity@ by {
                    if read_before(before, id) {
                        let k = choose|k: int|
                            0 <= k < before.len() && (#[trigger] before[k]).identity@ == id;
                        assert(after[k] == before[k]);
                    }
                    if id == reading.identity@ {
                        assert(after[i as int].identity@ == id);
                    }
                    if read_before(after, id) && id != reading.identity@ {
                        let k = choose|k: int|
                            0 <= k < after.len() && (#[trigger] after[k]).identity@ == id;
                        assert(before[k] == after[k]);
                    }
                }
            }
            let again = loaded.insert(reading.identity.clone(), ());
            if !again {
                match reading.git_fetch_with_cli {
                    Some(value) => {
                        config.net.git_fetch_with_cli = value;
                    },
                    None => {},
                }
            }
            i = i + 1;
        }
        assert(readings@.take(i as int) =~= readings@);
        match setting {
            Some(text) => {
                if same(text, "true") {
                    config.net.git_fetch_with_cli = true;
                } else if same(text, "false") {
                    config.net.git_fetch_with_cli = false;
                } else {
                    return Err(ContextError::FetchSetting);
                }
            },
            None => {},
        }
        Ok(config)
    }
}

/// The text for a configuration file that cannot be read as one.
pub fn invalid_configuration(path: &str) -> (r: String)
    ensures
        r@ == "invalid configuration "@ + path@,
{
    plus("invalid configuration ", path)
}

/// A file without the setting changes nothing that was inherited.
pub proof fn lemma_unspecified_is_inherited(readings: Seq<Reading>, added: Reading)
    requires
        added.git_fetch_with_cli is None,
    ensures
        inherited(readings.push(added)) == inherited(readings),
{
    assert(readings.push(added).drop_last() =~= readings);
}

/// A file that was read already changes nothing when it comes again.
pub proof fn lemma_repeated_file_is_not_reapplied(readings: Seq<Reading>, added: Reading)
    requires
        read_before(readings, added.identity@),
    ensures
        inherited(readings.push(added)) == inherited(readings),
{
    assert(readings.push(added).drop_last() =~= readings);
}

/// A more specific file with the setting wins over everything read before.
pub proof fn lemma_nearer_file_wins(readings: Seq<Reading>, added: Reading)
    requires
        !read_before(readings, added.identity@),
        added.git_fetch_with_cli is Some,
    ensures
        inherited(readings.push(added)) == added.git_fetch_with_cli->0,
{
    assert(readings.push(added).drop_last() =~= readings);
}

} // verus!
