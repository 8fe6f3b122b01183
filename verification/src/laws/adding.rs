//! Adding, removing and syncing: what is recorded, which sources are asked for anew, and which links
//! are made.

use vstd::prelude::*;

use crate::context::Context;
use crate::git::{source_id, GitSourceModel};
use crate::manifest::{DependencyError, DependencyModel};
use crate::ops::{
    add, common, left_without, lemma_recorded_way_leads_back, links, needs_view, plain_absolute,
    run_typst, sync, update, ups, way_parts, without_ups, AddOptions, Addition, Work,
};
use crate::path::{
    absolute, body, joined_path, lemma_absolute_steps, lemma_joined_parts, lemma_steps_read_back,
    parts_of, path_text, Part,
};
use crate::project::{ManagedLink, Project};
use crate::resolver::imports::ResolvedImport;
use crate::sources::{RefreshModel, RefreshPolicy};
use crate::text::texts;

verus! {

broadcast use vstd::string::group_string_axioms;

/// What is added is recorded with the branch, the tag, the revision and the namespace that were given,
/// from a repository or a directory as was given; the location of a repository that holds a `:` is
/// recorded as it is. The manifest is written and need not be there yet.
pub proof fn lemma_added_as_given(
    context: &Context,
    project: &Project,
    options: &AddOptions,
    found: &str,
    r: Result<Addition, DependencyError>,
)
    requires
        call_ensures(add, (context, project, options, found), r),
        r is Ok,
    ensures
        r->Ok_0.dependency@.branch == options.dependency@.branch,
        r->Ok_0.dependency@.tag == options.dependency@.tag,
        r->Ok_0.dependency@.rev == options.dependency@.rev,
        r->Ok_0.dependency@.namespace == options.dependency@.namespace,
        r->Ok_0.dependency@.git is Some <==> options.dependency@.git is Some,
        r->Ok_0.dependency@.path is Some <==> options.dependency@.path is Some,
        options.dependency@.git is Some && options.dependency@.git->0.contains(':')
            ==> r->Ok_0.dependency@.git == options.dependency@.git,
        r->Ok_0.work.writes_manifest,
        !r->Ok_0.work.required,
{
}

/// The directory of a repository on this machine that is added is recorded absolute, and names the
/// directory that was given, read against the working directory.
pub proof fn lemma_added_repository_is_absolute(
    context: &Context,
    project: &Project,
    options: &AddOptions,
    found: &str,
    r: Result<Addition, DependencyError>,
)
    requires
        call_ensures(add, (context, project, options, found), r),
        r is Ok,
        absolute(context.cwd@),
        options.dependency@.git is Some,
        !options.dependency@.git->0.contains(':'),
    ensures
        ({
            let given = options.dependency@.git->0;
            let git = r->Ok_0.dependency@.git->0;
            &&& git.len() > 0 && git[0] == '/'
            &&& given.len() > 0 && given[0] == '/' ==> parts_of(git) == parts_of(given)
            &&& !(given.len() > 0 && given[0] == '/') ==> parts_of(git) == parts_of(context.cwd@)
                + body(given)
        }),
{
    let given = options.dependency@.git->0;
    lemma_joined_parts(context.cwd@, given);
    crate::path::lemma_tidied_is_tidy(joined_path(context.cwd@, given));
}

/// The directory that is added is recorded by a path that leads from the project to where the directory
/// was found.
pub proof fn lemma_added_directory_is_found_again(
    context: &Context,
    project: &Project,
    options: &AddOptions,
    found: &str,
    r: Result<Addition, DependencyError>,
)
    requires
        call_ensures(add, (context, project, options, found), r),
        r is Ok,
        options.dependency@.path is Some,
        plain_absolute(found@),
        plain_absolute(project.root@),
    ensures
        ({
            let path = r->Ok_0.dependency@.path->0;
            &&& !absolute(path)
            &&& without_ups(parts_of(joined_path(project.root@, path))) == parts_of(found@)
        }),
{
    let p = parts_of(found@);
    let b = parts_of(project.root@);
    let way = way_parts(p, b);
    let n = common(p, b);
    lemma_recorded_way_leads_back(found@, project.root@);
    lemma_absolute_steps(found@);
    lemma_absolute_steps(project.root@);
    crate::ops::lemma_common(p, b);
    assert(n >= 1) by {
        assert(p[0] == Part::Root && b[0] == Part::Root);
    }
    assert forall|i: int| 0 <= i < way.len() implies crate::path::is_step(#[trigger] way[i]) by {
        let up = ups((b.len() - n) as nat);
        if i < up.len() {
            assert(way[i] == up[i]);
        } else {
            assert(way[i] == p[n + (i - up.len())]);
        }
    }
    lemma_steps_read_back(way);
    lemma_joined_parts(project.root@, path_text(way));
}

/// Adding a dependency asks anew for its own Git source, with the selectors that were given, and for no
/// other source; adding a directory asks anew for none.
pub proof fn lemma_adding_refreshes_only_its_own(
    context: &Context,
    project: &Project,
    options: &AddOptions,
    found: &str,
    r: Result<Addition, DependencyError>,
    id: &str,
    refreshes: bool,
)
    requires
        call_ensures(add, (context, project, options, found), r),
        r is Ok,
        call_ensures(RefreshPolicy::refreshes, (&r->Ok_0.work.refresh, id), refreshes),
    ensures
        refreshes <==> options.dependency@.git is Some && id@ == source_id(
            GitSourceModel {
                git: r->Ok_0.dependency@.git->0,
                branch: options.dependency@.branch,
                tag: options.dependency@.tag,
                rev: options.dependency@.rev,
            },
        ),
{
}

/// A sync asks for no source anew, an update for every one; both need a manifest and leave it as it is,
/// and so does what is done before Typst runs, if there is a manifest.
pub proof fn lemma_sync_and_update(
    synced: Work,
    updated: Work,
    present: bool,
    explicit: bool,
    path: &str,
    ran: Result<Option<Work>, String>,
    id: &str,
    in_sync: bool,
    in_update: bool,
)
    requires
        call_ensures(sync, (), synced),
        call_ensures(update, (), updated),
        call_ensures(run_typst, (present, explicit, path), ran),
        call_ensures(RefreshPolicy::refreshes, (&synced.refresh, id), in_sync),
        call_ensures(RefreshPolicy::refreshes, (&updated.refresh, id), in_update),
    ensures
        !in_sync,
        in_update,
        synced.required && !synced.writes_manifest,
        updated.required && !updated.writes_manifest,
        present ==> (ran matches Ok(Some(work)) && work.refresh@ == RefreshModel::Preserve
            && work.required && !work.writes_manifest),
        !present && !explicit ==> (ran matches Ok(None)),
        !present && explicit ==> ran is Err,
{
}

/// After dependencies were removed, exactly those are left that were declared and not named, each as it
/// was.
pub proof fn lemma_others_are_left(
    dependencies: Map<Seq<char>, DependencyModel>,
    names: Seq<Seq<char>>,
    name: Seq<char>,
)
    ensures
        left_without(dependencies, names).contains_key(name) <==> dependencies.contains_key(name)
            && !names.contains(name),
        left_without(dependencies, names).contains_key(name) ==> left_without(
            dependencies,
            names,
        )[name] == dependencies[name],
{
    assert(names.to_set().contains(name) <==> names.contains(name));
}

/// Every import has one link, in order: at its namespace, its package's name and its version. It leads
/// to the package itself where that is imported under its own version, else to the view made of it.
pub proof fn lemma_link_of_import(
    imports: &Vec<ResolvedImport>,
    views: &Vec<String>,
    r: Vec<ManagedLink>,
    i: int,
    viewed: bool,
)
    requires
        call_ensures(links, (imports, views), r),
        views@.len() == imports@.len(),
        0 <= i < imports@.len(),
        call_ensures(needs_view, (&imports@[i],), viewed),
    ensures
        r@.len() == imports@.len(),
        r@[i].path@ == imports@[i].namespace@ + "/"@ + imports@[i].package.name@ + "/"@
            + imports@[i].version@,
        imports@[i].version@ == imports@[i].package.version@ ==> !viewed && r@[i].target@
            == imports@[i].package.root@,
        imports@[i].version@ != imports@[i].package.version@ ==> viewed && r@[i].target@
            == views@[i]@,
        texts(r@[i].roots@) == texts(imports@[i].roots@),
{
    let models = crate::project::link_models(r@);
    assert(models.len() == r@.len());
    assert(models[i] == r@[i]@);
    reveal_strlit("/");
    assert("/"@ =~= seq!['/']);
}

} // verus!
