//! Surroundings: where the manifest, the home, the cache and the configuration are looked for, and which
//! setting counts.

use vstd::prelude::*;

use crate::context::{
    config_paths, inherited, read_before, Config, Context, ContextError, Environment, Reading,
};
use crate::laws::paths::lemma_chain;
use crate::manifest::{candidates, discover, first_present, manifest_candidates};
use crate::path::{
    absolute, body, chain_texts, joined_path, lemma_joined_parts, lemma_name_body, lemma_name_then,
    parts_of, plain_name, Part,
};
use crate::shell::Shell;
use crate::text::texts;

verus! {

broadcast use vstd::string::group_string_axioms;

pub(crate) proof fn lemma_file_in(directory: Seq<char>, name: Seq<char>)
    requires
        absolute(directory),
        plain_name(name),
    ensures
        parts_of(joined_path(directory, name)) == parts_of(directory).push(Part::Name(name)),
{
    assert(name.contains(name[0]));
    lemma_joined_parts(directory, name);
    lemma_name_body(name);
    assert(parts_of(directory) + seq![Part::Name(name)] =~= parts_of(directory).push(
        Part::Name(name),
    ));
}

pub(crate) proof fn lemma_plain(name: Seq<char>)
    requires
        name.len() > 2,
        forall|i: int| 0 <= i < name.len() ==> (#[trigger] name[i]) != '/',
    ensures
        plain_name(name),
{
    assert(name != seq!['.']) by {
        assert(seq!['.'].len() == 1);
    }
    assert(name != seq!['.', '.']) by {
        assert(seq!['.', '.'].len() == 2);
    }
}

/// The files in which a manifest is looked for are named `typm.toml`: first the one in the working
/// directory, then the one in each directory above, up to the root.
pub proof fn lemma_manifest_candidates(cwd: &str, r: Vec<String>)
    requires
        cwd@.len() > 0 && cwd@[0] == '/',
        call_ensures(candidates, (cwd,), r),
    ensures
        r@.len() == parts_of(cwd@).len(),
        forall|i: int|
            0 <= i < r@.len() ==> parts_of((#[trigger] r@[i])@) == parts_of(cwd@).take(
                r@.len() - i,
            ).push(Part::Name("typm.toml"@)),
{
    lemma_candidates(cwd@);
    assert(texts(r@).len() == r@.len());
    assert forall|i: int| 0 <= i < r@.len() implies parts_of((#[trigger] r@[i])@) == parts_of(
        cwd@,
    ).take(r@.len() - i).push(Part::Name("typm.toml"@)) by {
        assert(texts(r@)[i] == r@[i]@);
    }
}

proof fn lemma_candidates(cwd: Seq<char>)
    requires
        absolute(cwd),
    ensures
        manifest_candidates(cwd).len() == parts_of(cwd).len(),
        forall|i: int|
            0 <= i < parts_of(cwd).len() ==> parts_of(#[trigger] manifest_candidates(cwd)[i])
                == parts_of(cwd).take(parts_of(cwd).len() - i).push(Part::Name("typm.toml"@)),
{
    reveal_strlit("typm.toml");
    lemma_plain("typm.toml"@);
    lemma_chain(cwd);
    let n = parts_of(cwd).len();
    assert forall|i: int| 0 <= i < n implies parts_of(#[trigger] manifest_candidates(cwd)[i])
        == parts_of(cwd).take(n - i).push(Part::Name("typm.toml"@)) by {
        let directory = chain_texts(cwd)[n - 1 - i];
        assert(chain_texts(cwd).reverse()[i] == directory);
        lemma_file_in(directory, "typm.toml"@);
    }
}

proof fn lemma_first_present(present: Seq<bool>, i: int)
    requires
        0 <= i < present.len(),
        present[i],
        forall|j: int| 0 <= j < i ==> !#[trigger] present[j],
    ensures
        first_present(present) == Some(i),
    decreases i,
{
    if i > 0 {
        assert(!present[0]);
        assert forall|j: int| 0 <= j < i - 1 implies !#[trigger] present.skip(1)[j] by {
            assert(present.skip(1)[j] == present[j + 1]);
        }
        lemma_first_present(present.skip(1), i - 1);
    }
}

proof fn lemma_none_present(present: Seq<bool>)
    requires
        forall|j: int| 0 <= j < present.len() ==> !#[trigger] present[j],
    ensures
        first_present(present) is None,
    decreases present.len(),
{
    if present.len() > 0 {
        assert(!present[0]);
        assert forall|j: int| 0 <= j < present.skip(1).len() implies !#[trigger] present.skip(1)[j] by {
            assert(present.skip(1)[j] == present[j + 1]);
        }
        lemma_none_present(present.skip(1));
    }
}

/// The manifest that is given is used, read against the working directory; else that of the nearest
/// directory that has one, and that of the working directory where none has.
pub proof fn lemma_nearest_manifest(
    explicit: Option<&str>,
    cwd: &str,
    present: &Vec<bool>,
    r: String,
    nearest: int,
)
    requires
        cwd@.len() > 0 && cwd@[0] == '/',
        call_ensures(discover, (explicit, cwd, present), r),
    ensures
        explicit matches Some(path) ==> (if path@.len() > 0 && path@[0] == '/' {
            r@ == path@
        } else {
            parts_of(r@) == parts_of(cwd@) + body(path@)
        }),
        explicit is None && 0 <= nearest < present@.len() && nearest < parts_of(cwd@).len()
            && present@[nearest] && (forall|j: int| 0 <= j < nearest ==> !#[trigger] present@[j])
            ==> parts_of(r@) == parts_of(cwd@).take(parts_of(cwd@).len() - nearest).push(
            Part::Name("typm.toml"@),
        ),
        explicit is None && (forall|j: int| 0 <= j < present@.len() ==> !#[trigger] present@[j])
            ==> parts_of(r@) == parts_of(cwd@).push(Part::Name("typm.toml"@)),
{
    match explicit {
        Some(path) => {
            lemma_joined_parts(cwd@, path@);
        },
        None => {
            lemma_candidates(cwd@);
            if 0 <= nearest < present@.len() && nearest < parts_of(cwd@).len() && present@[nearest] && (
            forall|j: int| 0 <= j < nearest ==> !#[trigger] present@[j]) {
                lemma_first_present(present@, nearest);
            }
            if forall|j: int| 0 <= j < present@.len() ==> !#[trigger] present@[j] {
                lemma_none_present(present@);
                reveal_strlit("typm.toml");
                lemma_plain("typm.toml"@);
                lemma_file_in(cwd@, "typm.toml"@);
            }
        },
    }
}

/// The configuration is read first from `config.toml` in the home directory, then from
/// `.typm/config.toml` in each directory from the root down to the working directory.
pub proof fn lemma_configuration_files(home: &str, cwd: &str, r: Vec<String>)
    requires
        home@.len() > 0 && home@[0] == '/',
        cwd@.len() > 0 && cwd@[0] == '/',
        call_ensures(config_paths, (home, cwd), r),
    ensures
        r@.len() == parts_of(cwd@).len() + 1,
        parts_of(r@[0]@) == parts_of(home@).push(Part::Name("config.toml"@)),
        forall|i: int|
            1 <= i < r@.len() ==> parts_of((#[trigger] r@[i])@) == parts_of(cwd@).take(i).push(
                Part::Name(".typm"@),
            ).push(Part::Name("config.toml"@)),
{
    reveal_strlit("config.toml");
    reveal_strlit(".typm");
    reveal_strlit(".typm/config.toml");
    lemma_plain("config.toml"@);
    lemma_plain(".typm"@);
    lemma_chain(cwd@);
    lemma_file_in(home@, "config.toml"@);
    assert(texts(r@).len() == r@.len());
    assert(texts(r@)[0] == r@[0]@);
    assert(".typm/config.toml"@ =~= ".typm"@ + seq!['/'] + "config.toml"@);
    lemma_name_then(".typm"@, "config.toml"@);
    lemma_name_body("config.toml"@);
    assert forall|i: int| 1 <= i < r@.len() implies parts_of((#[trigger] r@[i])@) == parts_of(
        cwd@,
    ).take(i).push(Part::Name(".typm"@)).push(Part::Name("config.toml"@)) by {
        assert(texts(r@)[i] == r@[i]@);
        let directory = chain_texts(cwd@)[i - 1];
        lemma_joined_parts(directory, ".typm/config.toml"@);
        assert(parts_of(r@[i]@) =~= parts_of(cwd@).take(i).push(Part::Name(".typm"@)).push(
            Part::Name("config.toml"@),
        ));
    }
}

/// A file gives the setting, and was not read before.
pub open spec fn sets(readings: Seq<Reading>, i: int) -> bool {
    &&& 0 <= i < readings.len()
    &&& readings[i].git_fetch_with_cli is Some
    &&& forall|j: int| 0 <= j < i ==> (#[trigger] readings[j]).identity@ != readings[i].identity@
}

proof fn lemma_sets_earlier(readings: Seq<Reading>, k: int)
    requires
        0 <= k < readings.len() - 1,
    ensures
        sets(readings.drop_last(), k) == sets(readings, k),
{
    let front = readings.drop_last();
    assert(front[k] == readings[k]);
    if sets(front, k) {
        assert forall|j: int| 0 <= j < k implies (#[trigger] readings[j]).identity@
            != readings[k].identity@ by {
            assert(front[j] == readings[j]);
        }
    }
    if sets(readings, k) {
        assert forall|j: int| 0 <= j < k implies (#[trigger] front[j]).identity@
            != front[k].identity@ by {
            assert(front[j] == readings[j]);
        }
    }
}

proof fn lemma_sets_last(readings: Seq<Reading>)
    requires
        readings.len() > 0,
    ensures
        sets(readings, readings.len() - 1) <==> readings.last().git_fetch_with_cli is Some
            && !read_before(readings.drop_last(), readings.last().identity@),
{
    let front = readings.drop_last();
    let last = readings.len() - 1;
    if read_before(front, readings[last].identity@) {
        let j = choose|j: int|
            0 <= j < front.len() && (#[trigger] front[j]).identity@ == readings[last].identity@;
        assert(readings[j].identity@ == readings[last].identity@);
    } else {
        assert forall|j: int| 0 <= j < last implies (#[trigger] readings[j]).identity@
            != readings[last].identity@ by {
            assert(front[j] == readings[j]);
        }
    }
}

proof fn lemma_last_setting(readings: Seq<Reading>, i: int)
    requires
        sets(readings, i),
        forall|k: int| i < k < readings.len() ==> !#[trigger] sets(readings, k),
    ensures
        inherited(readings) == readings[i].git_fetch_with_cli->0,
    decreases readings.len(),
{
    let front = readings.drop_last();
    let last = readings.len() - 1;
    lemma_sets_last(readings);
    if i < last {
        assert(!sets(readings, last));
        lemma_sets_earlier(readings, i);
        assert forall|k: int| i < k < front.len() implies !#[trigger] sets(front, k) by {
            lemma_sets_earlier(readings, k);
            assert(!sets(readings, k));
        }
        lemma_last_setting(front, i);
        assert(front[i] == readings[i]);
    }
}

proof fn lemma_no_setting(readings: Seq<Reading>)
    requires
        forall|k: int| !#[trigger] sets(readings, k),
    ensures
        !inherited(readings),
    decreases readings.len(),
{
    if readings.len() > 0 {
        let front = readings.drop_last();
        lemma_sets_last(readings);
        assert(!sets(readings, readings.len() - 1));
        assert forall|k: int| !#[trigger] sets(front, k) by {
            if 0 <= k < front.len() {
                lemma_sets_earlier(readings, k);
                assert(!sets(readings, k));
            }
        }
        lemma_no_setting(front);
    }
}

/// The environment variable counts before every file, and must say `true` or `false`. Without it the
/// last file counts that gives the setting and was not read before, and without any the setting is off.
pub proof fn lemma_setting_that_counts(
    readings: &Vec<Reading>,
    setting: Option<&str>,
    r: Result<Config, ContextError>,
    i: int,
)
    requires
        call_ensures(Config::load, (readings, setting), r),
    ensures
        setting matches Some(text) ==> (r is Ok <==> text@ == "true"@ || text@ == "false"@),
        setting matches Some(text) ==> (r matches Ok(config) ==> (config.net.git_fetch_with_cli <==> text@
            == "true"@)),
        r matches Err(e) ==> e == ContextError::FetchSetting,
        setting is None ==> r is Ok,
        setting is None && sets(readings@, i) && (forall|k: int|
            i < k < readings@.len() ==> !#[trigger] sets(readings@, k)) ==> (r matches Ok(config)
            && config.net.git_fetch_with_cli == readings@[i].git_fetch_with_cli->0),
        setting is None && (forall|k: int| !#[trigger] sets(readings@, k)) ==> (r matches Ok(config)
            && !config.net.git_fetch_with_cli),
{
    if sets(readings@, i) && (forall|k: int|
        i < k < readings@.len() ==> !#[trigger] sets(readings@, k)) {
        lemma_last_setting(readings@, i);
    }
    if forall|k: int| !#[trigger] sets(readings@, k) {
        lemma_no_setting(readings@);
    }
    reveal_strlit("true");
    reveal_strlit("false");
    assert("true"@.len() != "false"@.len());
}

/// The home is the one that the environment gives, read against the working directory, else the default;
/// the cache is the one that the environment gives, else an earlier one that holds storage where no home
/// is given, else the home. An empty path is refused, the home's first.
pub proof fn lemma_home_and_cache(
    cwd: &str,
    environment: &Environment,
    default_home: Option<&str>,
    legacy_cache: Option<&str>,
    legacy_has_storage: bool,
    shell: Shell,
    r: Result<Context, ContextError>,
)
    requires
        cwd@.len() > 0 && cwd@[0] == '/',
        call_ensures(
            Context::from_environment,
            (cwd, environment, default_home, legacy_cache, legacy_has_storage, shell),
            r,
        ),
    ensures
        environment.home matches Some(path) && path@.len() == 0 ==> r == Err::<
            Context,
            ContextError,
        >(ContextError::EmptyHome),
        environment.home is None && default_home is None ==> r == Err::<Context, ContextError>(
            ContextError::NoHome,
        ),
        (environment.home matches Some(path) ==> path@.len() > 0) && (environment.home is Some
            || default_home is Some) && (environment.cache_root matches Some(path) && path@.len()
            == 0) ==> r == Err::<Context, ContextError>(ContextError::EmptyCacheRoot),
        (environment.home matches Some(path) ==> path@.len() > 0) && (environment.home is Some
            || default_home is Some) && (environment.cache_root matches Some(path) ==> path@.len()
            > 0) ==> r is Ok,
        r matches Ok(context) ==> {
            &&& context.cwd@ == cwd@
            &&& context.shell == shell
            &&& !context.config.net.git_fetch_with_cli
            &&& environment.home matches Some(path) ==> (if path@[0] == '/' {
                context.home@ == path@
            } else {
                parts_of(context.home@) == parts_of(cwd@) + body(path@)
            })
            &&& environment.home is None ==> context.home@ == default_home->0@
            &&& environment.cache_root matches Some(path) ==> (if path@[0] == '/' {
                context.cache_root@ == path@
            } else {
                parts_of(context.cache_root@) == parts_of(cwd@) + body(path@)
            })
            &&& environment.cache_root is None && environment.home is None && legacy_has_storage ==> (
            legacy_cache matches Some(earlier) ==> context.cache_root@ == earlier@)
            &&& environment.cache_root is None && (environment.home is Some || !legacy_has_storage
                || legacy_cache is None) ==> context.cache_root@ == context.home@
        },
{
    if environment.home is Some {
        lemma_joined_parts(cwd@, environment.home->0@);
    }
    if environment.cache_root is Some {
        lemma_joined_parts(cwd@, environment.cache_root->0@);
    }
}

/// The lock of the cache and the storage that makes an earlier cache count lie in the cache itself.
pub proof fn lemma_in_the_cache(context: &Context, lock: String, earlier: &str, storage: String)
    requires
        context.cache_root@.len() > 0 && context.cache_root@[0] == '/',
        earlier@.len() > 0 && earlier@[0] == '/',
        call_ensures(Context::cache_lock, (context,), lock),
        call_ensures(crate::context::legacy_storage, (earlier,), storage),
    ensures
        parts_of(lock@) == parts_of(context.cache_root@).push(Part::Name(".package-cache"@)),
        parts_of(storage@) == parts_of(earlier@).push(Part::Name("git"@)).push(Part::Name("db"@)),
{
    reveal_strlit(".package-cache");
    reveal_strlit("git");
    reveal_strlit("db");
    reveal_strlit("git/db");
    lemma_plain(".package-cache"@);
    lemma_file_in(context.cache_root@, ".package-cache"@);
    lemma_plain("git"@);
    assert("db"@ != seq!['.', '.']) by {
        assert("db"@[0] == 'd');
    }
    assert("db"@ != seq!['.']) by {
        assert("db"@.len() == 2);
    }
    assert("git/db"@ =~= "git"@ + seq!['/'] + "db"@);
    lemma_name_then("git"@, "db"@);
    lemma_name_body("db"@);
    lemma_joined_parts(earlier@, "git/db"@);
    assert(parts_of(storage@) =~= parts_of(earlier@).push(Part::Name("git"@)).push(
        Part::Name("db"@),
    ));
}

} // verus!
