//! What each command does: how a dependency is recorded, which Git sources are asked for anew, and
//! which links the resolved packages get.

use vstd::prelude::*;

use crate::context::Context;
use crate::git::source_id;
use crate::link_path::{lemma_link_path_reads_back, link_text, LinkPath};
use crate::lists::{lemma_all_none, lemma_push_contains};
use crate::manifest::{
    decors_with_table, decors_without_entry, dependency_fault, git_source_of, identity_text,
    lemma_other_comments_stay, missing_manifest, none_empty, valid_identity, Dependency,
    DependencyError, DependencyModel, ManifestDocument, ManifestError, DEPENDENCIES,
};
use crate::ordered::{ascending, Table};
use crate::path::{absolute, join_path, joined_path, parts_of, path_text, plain_name, Part};
use crate::project::{
    link_fault, link_faults, link_models, stands_at, LinkModel, ManagedLink, Project,
};
use crate::resolver::imports::{places, ResolvedImport};
use crate::resolver::same_import;
use crate::shell::{status_text, Shell};
use crate::sources::{git_location, normalize_git_location, RefreshModel, RefreshPolicy};
use crate::text::{
    copy_opt, copy_texts, decimal, decimal_text, join, joined, opt_str, opt_text, plus, plus3,
    same, texts,
};

verus! {

broadcast use vstd::string::group_string_axioms;

/// What is to be added.
#[derive(Debug)]
pub struct AddOptions {
    pub name: Option<String>,
    pub dependency: Dependency,
}

/// What is to be removed.
#[derive(Debug)]
pub struct RemoveOptions {
    pub names: Vec<String>,
}

/// How the packages of a project are resolved: which Git sources are asked for anew, whether the
/// manifest must be there, and whether it is written.
#[derive(Debug)]
pub struct Work {
    pub refresh: RefreshPolicy,
    pub required: bool,
    pub writes_manifest: bool,
}

/// All parts of an absolute path but the root are names.
pub open spec fn plain_absolute(path: Seq<char>) -> bool {
    &&& absolute(path)
    &&& forall|i: int| 1 <= i < parts_of(path).len() ==> (#[trigger] parts_of(path)[i]) is Name
}

/// How many parts two paths have in common at their front.
pub open spec fn common(a: Seq<Part>, b: Seq<Part>) -> nat
    decreases a.len(),
{
    if a.len() == 0 || b.len() == 0 || a[0] != b[0] {
        0
    } else {
        1 + common(a.skip(1), b.skip(1))
    }
}

/// So many steps up.
pub open spec fn ups(n: nat) -> Seq<Part> {
    Seq::new(n, |i: int| Part::Up)
}

/// The parts of the way from a directory to a path: up to what they have in common, then down.
pub open spec fn way_parts(path: Seq<Part>, base: Seq<Part>) -> Seq<Part> {
    let n = common(path, base);
    ups((base.len() - n) as nat) + path.skip(n as int)
}

/// The way from a directory to a path, as `pathdiff::diff_paths` gives it.
pub uninterp spec fn relative_path(path: Seq<char>, base: Seq<char>) -> Option<Seq<char>>;

/// Calls `pathdiff::diff_paths`. The contract claims that the result is a function of the two
/// paths, and that for absolute paths without `..` it goes up to the last directory they have in
/// common and from there down.
#[verifier::external_body]
fn diff_paths(path: &str, base: &str) -> (r: Option<String>)
    ensures
        opt_text(r) == relative_path(path@, base@),
        plain_absolute(path@) && plain_absolute(base@) ==> opt_text(r) == Some(
            path_text(way_parts(parts_of(path@), parts_of(base@))),
        ),
{
    pathdiff::diff_paths(path, base).map(|way| way.to_string_lossy().into_owned())
}

/// The directory that a dependency on a path means, read against the working directory.
pub fn directory_to_find(context: &Context, dependency: &Dependency) -> (r: Option<String>)
    ensures
        opt_text(r) == (match dependency@.path {
            Some(path) => Some(joined_path(context.cwd@, path)),
            None => None,
        }),
{
    match &dependency.path {
        Some(path) => Some(join_path(context.cwd.as_str(), path.as_str())),
        None => None,
    }
}

/// How a dependency is recorded: a repository by its location read against the working directory,
/// a directory by the way to it, or by itself where there is none. `found` is where the directory
/// is, links followed, and `way` the way to it from the project.
pub open spec fn recorded(
    m: DependencyModel,
    cwd: Seq<char>,
    found: Seq<char>,
    way: Option<Seq<char>>,
) -> DependencyModel {
    DependencyModel {
        git: match m.git {
            Some(git) => Some(git_location(git, cwd)),
            None => None,
        },
        path: match m.path {
            Some(_) => Some(
                match way {
                    Some(way) => way,
                    None => found,
                },
            ),
            None => None,
        },
        ..m
    }
}

/// How a dependency is recorded, where the way to its directory is known.
pub fn record_dependency(
    context: &Context,
    dependency: &Dependency,
    found: &str,
    way: Option<&str>,
) -> (r: Dependency)
    requires
        absolute(context.cwd@),
    ensures
        r@ == recorded(dependency@, context.cwd@, found@, opt_str(way)),
{
    let git = match &dependency.git {
        Some(git) => Some(normalize_git_location(git.as_str(), context.cwd.as_str())),
        None => None,
    };
    let path = match &dependency.path {
        Some(_) => match way {
            Some(way) => Some(way.to_owned()),
            None => Some(found.to_owned()),
        },
        None => None,
    };
    Dependency {
        git,
        path,
        branch: copy_opt(&dependency.branch),
        tag: copy_opt(&dependency.tag),
        rev: copy_opt(&dependency.rev),
        namespace: dependency.namespace.clone(),
    }
}

/// How a dependency is recorded in the project. `found` is where its directory is, links followed.
pub fn prepare_dependency(
    context: &Context,
    dependency: &Dependency,
    project_root: &str,
    found: &str,
) -> (r: Dependency)
    requires
        absolute(context.cwd@),
    ensures
        r@ == recorded(
            dependency@,
            context.cwd@,
            found@,
            relative_path(found@, project_root@),
        ),
        dependency@.path is Some && plain_absolute(found@) && plain_absolute(project_root@)
            ==> r@.path == Some(path_text(way_parts(parts_of(found@), parts_of(project_root@)))),
{
    let way = diff_paths(found, project_root);
    record_dependency(context, dependency, found, crate::git::opt_slice(&way))
}

/// A path without its steps up: each takes away the name before it.
pub open spec fn without_ups(parts: Seq<Part>) -> Seq<Part>
    decreases parts.len(),
{
    if parts.len() == 0 {
        Seq::empty()
    } else {
        let front = without_ups(parts.drop_last());
        if parts.last() is Up && front.len() > 0 && front.last() is Name {
            front.drop_last()
        } else {
            front.push(parts.last())
        }
    }
}

/// Names lead on.
proof fn lemma_names_stay(front: Seq<Part>, rest: Seq<Part>)
    requires
        forall|i: int| 0 <= i < rest.len() ==> !((#[trigger] rest[i]) is Up),
    ensures
        without_ups(front + rest) == without_ups(front) + rest,
    decreases rest.len(),
{
    if rest.len() == 0 {
        assert(front + rest =~= front);
        assert(without_ups(front) + rest =~= without_ups(front));
    } else {
        let shorter = rest.drop_last();
        assert((front + rest).drop_last() =~= front + shorter);
        assert((front + rest).last() == rest.last());
        assert forall|i: int| 0 <= i < shorter.len() implies !((#[trigger] shorter[i]) is Up) by {
            assert(shorter[i] == rest[i]);
        }
        lemma_names_stay(front, shorter);
        assert(rest[rest.len() - 1] == rest.last());
        assert(without_ups(front + rest) =~= without_ups(front) + rest);
    }
}

/// Steps up lead back over as many names.
proof fn lemma_ups_lead_back(base: Seq<Part>, n: nat)
    requires
        n <= base.len(),
        forall|i: int| base.len() - n <= i < base.len() ==> (#[trigger] base[i]) is Name,
        without_ups(base) == base,
    ensures
        without_ups(base + ups(n)) == base.take(base.len() - n),
    decreases n,
{
    if n == 0 {
        assert(base + ups(0) =~= base);
        assert(base.take(base.len() as int) =~= base);
    } else {
        let m = (n - 1) as nat;
        lemma_ups_lead_back(base, m);
        assert((base + ups(n)).drop_last() =~= base + ups(m));
        assert((base + ups(n)).last() == Part::Up);
        let front = base.take(base.len() - m);
        assert(front.last() == base[base.len() - n]);
        assert(front.drop_last() =~= base.take(base.len() - n));
    }
}

/// What two paths have in common is the same in both.
pub proof fn lemma_common(a: Seq<Part>, b: Seq<Part>)
    ensures
        common(a, b) <= a.len(),
        common(a, b) <= b.len(),
        a.take(common(a, b) as int) == b.take(common(a, b) as int),
    decreases a.len(),
{
    if a.len() == 0 || b.len() == 0 || a[0] != b[0] {
        assert(a.take(0) =~= b.take(0));
    } else {
        lemma_common(a.skip(1), b.skip(1));
        let n = common(a.skip(1), b.skip(1)) as int;
        assert(a.take(n + 1) =~= seq![a[0]] + a.skip(1).take(n));
        assert(b.take(n + 1) =~= seq![b[0]] + b.skip(1).take(n));
    }
}

/// The way that is recorded for a directory leads from the project back to it.
pub proof fn lemma_recorded_way_leads_back(path: Seq<char>, base: Seq<char>)
    requires
        plain_absolute(path),
        plain_absolute(base),
    ensures
        without_ups(parts_of(base) + way_parts(parts_of(path), parts_of(base))) == parts_of(path),
{
    let p = parts_of(path);
    let b = parts_of(base);
    let n = common(p, b);
    lemma_common(p, b);
    assert(p[0] is Root && b[0] is Root);
    assert(n >= 1);
    assert forall|i: int| 0 <= i < b.len() implies !((#[trigger] b[i]) is Up) by {
        if i >= 1 {
            assert(b[i] is Name);
        }
    }
    let none = Seq::<Part>::empty();
    lemma_names_stay(none, b);
    assert(none + b =~= b);
    assert(without_ups(none) + b =~= b);
    let up = ups((b.len() - n) as nat);
    lemma_ups_lead_back(b, (b.len() - n) as nat);
    let down = p.skip(n as int);
    assert forall|i: int| 0 <= i < down.len() implies !((#[trigger] down[i]) is Up) by {
        assert(down[i] == p[n + i]);
        assert(p[n + i] is Name);
    }
    lemma_names_stay(b + up, down);
    assert(b + (up + down) =~= (b + up) + down);
    assert(p =~= p.take(n as int) + down);
}

/// Which Git sources are asked for anew when a dependency is added: its own.
pub open spec fn refresh_for(m: DependencyModel) -> RefreshModel {
    match git_source_of(m) {
        Some(source) => RefreshModel::Source(source_id(source)),
        None => RefreshModel::Preserve,
    }
}

/// What adding a dependency begins with.
#[derive(Debug)]
pub struct Addition {
    pub dependency: Dependency,
    pub work: Work,
}

/// Begins to add a dependency. `found` is where its directory is, links followed, if it has one.
pub fn add(context: &Context, project: &Project, options: &AddOptions, found: &str) -> (r: Result<
    Addition,
    DependencyError,
>)
    requires
        absolute(context.cwd@),
    ensures
        ({
            let m = recorded(
                options.dependency@,
                context.cwd@,
                found@,
                relative_path(found@, project.root@),
            );
            let name = opt_text(options.name);
            let fault = dependency_fault(
                m,
                name,
                valid_identity(identity_text(m.namespace, name)),
            );
            match r {
                Ok(addition) => {
                    &&& fault is None
                    &&& addition.dependency@ == m
                    &&& m.path is Some && plain_absolute(found@) && plain_absolute(project.root@)
                        ==> m.path == Some(
                        path_text(way_parts(parts_of(found@), parts_of(project.root@))),
                    )
                    &&& addition.work.refresh@ == refresh_for(m)
                    &&& !addition.work.required
                    &&& addition.work.writes_manifest
                },
                Err(e) => fault == Some(e@),
            }
        }),
{
    let dependency = prepare_dependency(
        context,
        &options.dependency,
        project.root.as_str(),
        found,
    );
    match dependency.validate(crate::git::opt_slice(&options.name)) {
        Ok(()) => {},
        Err(e) => return Err(e),
    }
    let refresh = match dependency.git_source() {
        Some(source) => RefreshPolicy::Source(source.id()),
        None => RefreshPolicy::Preserve,
    };
    Ok(Addition { dependency, work: Work { refresh, required: false, writes_manifest: true } })
}

/// What removing dependencies comes to.
#[derive(Debug)]
pub struct Removal {
    pub names: Vec<String>,
    pub work: Work,
}

/// The names are those that are wanted, in order and each once.
pub open spec fn name_set(names: Seq<Seq<char>>, wanted: Seq<Seq<char>>) -> bool {
    &&& ascending::<String>(names)
    &&& forall|name: Seq<char>| #[trigger] names.contains(name) <==> wanted.contains(name)
}

/// The dependencies that are left after some were removed.
pub open spec fn left_without(
    dependencies: Map<Seq<char>, DependencyModel>,
    names: Seq<Seq<char>>,
) -> Map<Seq<char>, DependencyModel> {
    dependencies.remove_keys(names.to_set())
}

/// The first of the names that is not declared.
pub open spec fn first_missing(
    dependencies: Map<Seq<char>, DependencyModel>,
    names: Seq<Seq<char>>,
    k: int,
) -> bool {
    &&& 0 <= k < names.len()
    &&& !dependencies.contains_key(names[k])
    &&& forall|j: int| 0 <= j < k ==> dependencies.contains_key(#[trigger] names[j])
}

/// The keys lead to nothing in the entries of these names.
pub open spec fn beside(names: Seq<Seq<char>>, keys: Seq<Seq<char>>) -> bool {
    forall|name: Seq<char>| #[trigger]
        names.contains(name) ==> !seq![DEPENDENCIES@, name].is_prefix_of(keys)
}

/// What stands round anything that is not in the entries of these names, comments among it, is the
/// same before and after.
pub open spec fn comments_stay(
    before: Map<Seq<Seq<char>>, (Option<Seq<char>>, Option<Seq<char>>)>,
    after: Map<Seq<Seq<char>>, (Option<Seq<char>>, Option<Seq<char>>)>,
    names: Seq<Seq<char>>,
) -> bool {
    forall|keys: Seq<Seq<char>>| #[trigger]
        before.contains_key(keys) && beside(names, keys) ==> after.contains_key(keys) && after[keys]
            == before[keys]
}

/// Comments stay when one more entry is removed.
proof fn lemma_comments_stay_on(
    before: Map<Seq<Seq<char>>, (Option<Seq<char>>, Option<Seq<char>>)>,
    now: Map<Seq<Seq<char>>, (Option<Seq<char>>, Option<Seq<char>>)>,
    names: Seq<Seq<char>>,
    name: Seq<char>,
)
    requires
        comments_stay(before, now, names),
        names.contains(name),
    ensures
        comments_stay(
            before,
            decors_without_entry(decors_with_table(now, DEPENDENCIES@), DEPENDENCIES@, name),
            names,
        ),
        comments_stay(before, decors_without_entry(now, DEPENDENCIES@, name), names),
{
    let after = decors_without_entry(decors_with_table(now, DEPENDENCIES@), DEPENDENCIES@, name);
    let keys_after = decors_without_entry(now, DEPENDENCIES@, name);
    assert forall|keys: Seq<Seq<char>>| #[trigger]
        before.contains_key(keys) && beside(names, keys) implies after.contains_key(keys)
        && after[keys] == before[keys] && keys_after.contains_key(keys) && keys_after[keys]
        == before[keys] by {
        assert(!seq![DEPENDENCIES@, name].is_prefix_of(keys));
        lemma_other_comments_stay(now, name, keys);
    }
}

/// Removes dependencies from the manifest, in the order of their names and each once, up to the
/// first that is not declared.
pub fn remove(document: &mut ManifestDocument, options: &RemoveOptions) -> (r: Result<
    Removal,
    ManifestError,
>)
    requires
        old(document).valid(),
    ensures
        final(document).valid(),
        old(document).agrees() ==> final(document).agrees(),
        none_empty(old(document).entries()) ==> none_empty(final(document).entries()),
        comments_stay(old(document).decors(), final(document).decors(), texts(options.names@)),
        comments_stay(
            old(document).key_decors(),
            final(document).key_decors(),
            texts(options.names@),
        ),
        match r {
            Ok(removal) => {
                &&& name_set(texts(removal.names@), texts(options.names@))
                &&& removal.work.refresh@ == RefreshModel::Preserve
                &&& !removal.work.required
                &&& removal.work.writes_manifest
                &&& forall|name: Seq<char>|
                    texts(options.names@).contains(name) ==> #[trigger] old(
                        document,
                    ).manifest@.contains_key(name)
                &&& final(document).manifest@ == left_without(
                    old(document).manifest@,
                    texts(options.names@),
                )
                &&& final(document).entries() == old(document).entries().remove_keys(
                    texts(options.names@).to_set(),
                )
            },
            Err(e) => exists|names: Seq<Seq<char>>, k: int|
                {
                    &&& name_set(names, texts(options.names@))
                    &&& #[trigger] first_missing(old(document).manifest@, names, k)
                    &&& e matches ManifestError::NotInManifest(missing)
                    &&& missing@ == names[k]
                    &&& final(document).manifest@ == left_without(
                        old(document).manifest@,
                        names.take(k),
                    )
                },
        },
{
    let mut table: Table<String, ()> = Table::new();
    let ghost wanted = texts(options.names@);
    let mut i: usize = 0;
    while i < options.names.len()
        invariant
            i <= options.names@.len(),
            wanted == texts(options.names@),
            forall|name: Seq<char>| #[trigger]
                table@.contains_key(name) <==> wanted.take(i as int).contains(name),
        decreases options.names@.len() - i,
    {
        let name = options.names[i].clone();
        let ghost before = table@;
        let ghost added = name@;
        let again = table.insert(name, ());
        proof {
            assert(wanted.take(i + 1) =~= wanted.take(i as int).push(added));
            assert forall|other: Seq<char>| #[trigger]
                table@.contains_key(other) <==> wanted.take(i + 1).contains(other) by {
                lemma_push_contains(wanted.take(i as int), added, other);
                assert(before.contains_key(other) <==> wanted.take(i as int).contains(other));
            }
        }
        i = i + 1;
    }
    assert(wanted.take(i as int) =~= wanted);
    let count = table.len();
    let ghost keys = table.keys();
    let ghost start = document.manifest@;
    let ghost written = document.entries();
    let mut names: Vec<String> = Vec::new();
    let mut k: usize = 0;
    proof {
        assert(texts(names@) =~= keys.take(0));
        assert(keys.take(0).to_set() =~= Set::<Seq<char>>::empty());
        assert(start =~= left_without(start, keys.take(0)));
        assert(written =~= written.remove_keys(keys.take(0).to_set()));
    }
    while k < count
        invariant
            k <= count,
            keys == table.keys(),
            count == keys.len(),
            keys.no_duplicates(),
            ascending::<String>(keys),
            start == old(document).manifest@,
            written == old(document).entries(),
            wanted == texts(options.names@),
            forall|name: Seq<char>| #[trigger] keys.contains(name) <==> wanted.contains(name),
            document.valid(),
            old(document).agrees() ==> document.agrees(),
            none_empty(written) ==> none_empty(document.entries()),
            comments_stay(old(document).decors(), document.decors(), wanted),
            comments_stay(old(document).key_decors(), document.key_decors(), wanted),
            texts(names@) == keys.take(k as int),
            document.manifest@ == left_without(start, keys.take(k as int)),
            document.entries() == written.remove_keys(keys.take(k as int).to_set()),
            forall|j: int| 0 <= j < k ==> start.contains_key(#[trigger] keys[j]),
        decreases count - k,
    {
        let name = table.key_at(k).clone();
        let ghost at = name@;
        proof {
            assert(keys[k as int] == at);
            assert(keys.contains(at));
            assert(!keys.take(k as int).contains(at)) by {
                if keys.take(k as int).contains(at) {
                    let j = choose|j: int|
                        0 <= j < keys.take(k as int).len() && keys.take(k as int)[j] == at;
                    assert(keys[j] == keys[k as int]);
                }
            }
            assert(!keys.take(k as int).to_set().contains(at));
        }
        let ghost round = document.decors();
        let ghost key_round = document.key_decors();
        match document.remove(name.as_str()) {
            Ok(()) => {},
            Err(e) => {
                assert(first_missing(start, keys, k as int));
                return Err(e);
            },
        }
        proof {
            lemma_comments_stay_on(old(document).decors(), round, wanted, at);
            lemma_comments_stay_on(old(document).key_decors(), key_round, wanted, at);
            crate::text::lemma_texts_push(names@, name);
            assert(keys.take(k + 1) =~= keys.take(k as int).push(at));
            assert forall|other: Seq<char>| #[trigger] keys.take(k + 1).to_set().contains(other)
                <==> keys.take(k as int).to_set().contains(other) || other == at by {
                lemma_push_contains(keys.take(k as int), at, other);
            }
            assert(document.manifest@ =~= left_without(start, keys.take(k + 1)));
            assert(document.entries() =~= written.remove_keys(keys.take(k + 1).to_set()));
        }
        names.push(name);
        k = k + 1;
    }
    proof {
        assert(keys.take(k as int) =~= keys);
        assert(keys.to_set() =~= wanted.to_set());
        assert forall|name: Seq<char>| wanted.contains(name) implies #[trigger] start.contains_key(
            name,
        ) by {
            assert(keys.contains(name));
            let j = choose|j: int| 0 <= j < keys.len() && keys[j] == name;
            assert(start.contains_key(keys[j]));
        }
    }
    Ok(
        Removal {
            names,
            work: Work {
                refresh: RefreshPolicy::Preserve,
                required: false,
                writes_manifest: true,
            },
        },
    )
}

/// Downloads what is missing and repairs links, with every locked commit preserved.
pub fn sync() -> (r: Work)
    ensures
        r.refresh@ == RefreshModel::Preserve,
        r.required,
        !r.writes_manifest,
{
    Work { refresh: RefreshPolicy::Preserve, required: true, writes_manifest: false }
}

/// Asks for every Git source anew within its declared reference.
pub fn update() -> (r: Work)
    ensures
        r.refresh@ == RefreshModel::All,
        r.required,
        !r.writes_manifest,
{
    Work { refresh: RefreshPolicy::All, required: true, writes_manifest: false }
}

/// What is done before Typst is run: the packages are prepared where there is a manifest; a
/// manifest that was named must be there.
pub fn run_typst(manifest_present: bool, explicit_manifest: bool, manifest_path: &str) -> (r: Result<
    Option<Work>,
    String,
>)
    ensures
        match r {
            Ok(Some(work)) => {
                &&& manifest_present
                &&& work.refresh@ == RefreshModel::Preserve
                &&& work.required
                &&& !work.writes_manifest
            },
            Ok(None) => !manifest_present && !explicit_manifest,
            Err(text) => !manifest_present && explicit_manifest && text@
                == "manifest does not exist: "@ + manifest_path@,
        },
{
    if manifest_present {
        Ok(Some(sync()))
    } else if explicit_manifest {
        Err(missing_manifest(manifest_path))
    } else {
        Ok(None)
    }
}

/// What the user is told once a command is done.
#[derive(Debug)]
pub enum Report {
    Added { name: String, count: usize },
    Removed(Vec<String>),
    Synced(usize),
    Updated(usize),
    Ready(usize),
}

/// The action that is told.
pub open spec fn report_action(report: Report) -> Seq<char> {
    match report {
        Report::Added { .. } => "Added"@,
        Report::Removed(_) => "Removed"@,
        Report::Synced(_) => "Synced"@,
        Report::Updated(_) => "Updated"@,
        Report::Ready(_) => "Ready"@,
    }
}

/// What is told of it.
pub open spec fn report_message(report: Report) -> Seq<char> {
    match report {
        Report::Added { name, count } => name@ + " ("@ + decimal_text(count as nat)
            + " packages linked)"@,
        Report::Removed(names) => joined(texts(names@), ", "@),
        Report::Synced(count) | Report::Updated(count) => decimal_text(count as nat)
            + " packages linked"@,
        Report::Ready(count) => decimal_text(count as nat) + " packages"@,
    }
}

/// The line that tells the user that a command is done; nothing is told before Typst runs where
/// there is no package.
pub fn report(shell: &Shell, done: &Report) -> (r: Option<String>)
    ensures
        match r {
            Some(line) => {
                &&& !shell.quiet
                &&& *done != Report::Ready(0)
                &&& line@ == status_text(report_action(*done), report_message(*done))
            },
            None => shell.quiet || *done == Report::Ready(0),
        },
{
    match done {
        Report::Added { name, count } => {
            let mut message = plus3(name.as_str(), " (", decimal(*count as u64).as_str());
            message.append(" packages linked)");
            shell.status("Added", message.as_str())
        },
        Report::Removed(names) => shell.status("Removed", join(names, ", ").as_str()),
        Report::Synced(count) => shell.status(
            "Synced",
            plus(decimal(*count as u64).as_str(), " packages linked").as_str(),
        ),
        Report::Updated(count) => shell.status(
            "Updated",
            plus(decimal(*count as u64).as_str(), " packages linked").as_str(),
        ),
        Report::Ready(count) => if *count == 0 {
            None
        } else {
            shell.status("Ready", plus(decimal(*count as u64).as_str(), " packages").as_str())
        },
    }
}

/// Whether an import leads to a view of its package: where it is imported under another version
/// than its own.
pub fn needs_view(import: &ResolvedImport) -> (r: bool)
    ensures
        r == (import.version@ != import.package@.version),
{
    !same(import.version.as_str(), import.package.version.as_str())
}

/// The link for an import, to its package or to the view of it.
pub open spec fn link_for(import: ResolvedImport, view: Seq<char>) -> LinkModel {
    LinkModel {
        path: link_text(import.place()),
        target: if import.version@ == import.package@.version {
            import.package@.root
        } else {
            view
        },
        roots: texts(import.roots@),
    }
}

/// The links for the imports. `views` holds for each the view of its package, which counts only
/// where one is needed.
pub fn links(imports: &Vec<ResolvedImport>, views: &Vec<String>) -> (r: Vec<ManagedLink>)
    requires
        views@.len() == imports@.len(),
    ensures
        link_models(r@) == Seq::new(
            imports@.len(),
            |i: int| link_for(imports@[i], views@[i]@),
        ),
{
    let ghost wanted = Seq::new(imports@.len(), |i: int| link_for(imports@[i], views@[i]@));
    let mut r: Vec<ManagedLink> = Vec::new();
    let mut i: usize = 0;
    assert(link_models(r@) =~= wanted.take(0));
    while i < imports.len()
        invariant
            i <= imports@.len(),
            views@.len() == imports@.len(),
            wanted == Seq::new(imports@.len(), |i: int| link_for(imports@[i], views@[i]@)),
            link_models(r@) == wanted.take(i as int),
        decreases imports@.len() - i,
    {
        let import = &imports[i];
        let place = LinkPath {
            namespace: import.namespace.clone(),
            name: import.package.name.clone(),
            version: import.version.clone(),
        };
        let target = if needs_view(import) {
            views[i].clone()
        } else {
            import.package.root.clone()
        };
        let link = ManagedLink { path: place.text(), target, roots: copy_texts(&import.roots) };
        proof {
            assert(wanted[i as int] == link@);
            assert(wanted.take(i + 1) =~= wanted.take(i as int).push(link@));
            assert(link_models(r@.push(link)) =~= link_models(r@).push(link@));
        }
        r.push(link);
        i = i + 1;
    }
    assert(wanted.take(i as int) =~= wanted);
    r
}

/// The same imports have the same links.
pub proof fn lemma_same_imports_same_links(a: ResolvedImport, b: ResolvedImport, view: Seq<char>)
    requires
        same_import(a, b),
    ensures
        link_for(a, view) == link_for(b, view),
        (a.version@ != a.package@.version) == (b.version@ != b.package@.version),
{
    assert(a.place().version == b.place().version);
}

/// The links for imports at different places, whose namespaces, names and versions can stand in a
/// path, can all be made: each stands at the place of its import, and none at that of another.
pub proof fn lemma_links_stand_at_their_places(
    imports: Seq<ResolvedImport>,
    views: Seq<String>,
    links: Seq<LinkModel>,
)
    requires
        links == Seq::new(imports.len(), |i: int| link_for(imports[i], views[i]@)),
        views.len() == imports.len(),
        places(imports).no_duplicates(),
        forall|i: int|
            0 <= i < imports.len() ==> plain_name((#[trigger] imports[i]).place().namespace)
                && plain_name(imports[i].place().name) && plain_name(imports[i].place().version),
        forall|i: int|
            0 <= i < imports.len() ==> absolute((#[trigger] imports[i]).package@.root) && absolute(
                views[i]@,
            ),
    ensures
        forall|i: int|
            0 <= i < links.len() ==> stands_at(#[trigger] links[i], imports[i].place()),
        crate::lists::first_some(link_faults(links)) is None,
{
    assert forall|i: int| 0 <= i < links.len() implies stands_at(
        #[trigger] links[i],
        imports[i].place(),
    ) by {
        lemma_link_path_reads_back(imports[i].place());
    }
    let faults = link_faults(links);
    assert forall|k: int| 0 <= k < faults.len() implies (#[trigger] faults[k]) is None by {
        assert(stands_at(links[k], imports[k].place()));
        assert(absolute(links[k].target));
        if exists|j: int| 0 <= j < k && stands_at(#[trigger] links[j], imports[k].place()) {
            let j = choose|j: int| 0 <= j < k && stands_at(#[trigger] links[j], imports[k].place());
            assert(places(imports)[j] == imports[j].place());
            assert(places(imports)[k] == imports[k].place());
            assert(places(imports)[j] == places(imports)[k]);
        }
        assert(faults[k] == link_fault(links, k));
    }
    lemma_all_none(faults);
}

} // verus!
