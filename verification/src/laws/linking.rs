//! Linking: how the links of a project become the ones it should have, what is never touched, and how a
//! change that failed is taken back.

use vstd::prelude::*;

use crate::laws::surroundings::{lemma_file_in, lemma_plain};
use crate::link_path::{link_path_of, read_link_path, LinkPath, LinkPathModel};
use crate::lists::{lemma_all_none, lemma_none_is_some, lemma_present_from};
use crate::ordered::Table;
use crate::path::{
    absolute, body, joined_path, lemma_absolute_steps, lemma_joined_parts, lemma_name_body,
    lemma_name_then, parts_of, path_text, plain_name, Part,
};
use crate::project::{
    affected_places, index_links, link_faults, link_models, manifest_place, place_models,
    read_links, stands_at, validate_existing_link, LinkError, LinkFault, LinkModel, LinkState,
    ManagedLink, ManifestPlace, Observed, Project,
};
use crate::text::texts;
use crate::transaction::{
    any_at, at_their_places, before_step, creation_list, lemma_change_at,
    lemma_failed_change_is_taken_back, lemma_rollback_restores, lemma_update_reaches_desired,
    next_step, observed_right, preflight_links, removal_list, restore_snapshot, restored,
    undo_models, undone, with, without, writes_lockfile, AppliedLinkChanges, LinkUpdate,
    ProjectFiles, Restore, Step, Undo,
};

verus! {

broadcast use vstd::string::group_string_axioms;

/// Once the links to remove are removed and those to make are made, every desired link stands, no
/// other link of the project does, and nothing else was touched.
pub proof fn lemma_links_become_the_desired(
    disk: Map<LinkPathModel, Seq<char>>,
    places: &Vec<LinkPath>,
    previous: &Table<LinkPath, ManagedLink>,
    desired: &Table<LinkPath, ManagedLink>,
    exists: &Vec<bool>,
    r: LinkUpdate,
    place: LinkPathModel,
)
    requires
        call_ensures(affected_places, (previous, desired), *places),
        call_ensures(preflight_links, (places, previous, desired, exists), r),
        exists@.len() == places@.len(),
        at_their_places(previous@),
        at_their_places(desired@),
        observed_right(disk, place_models(places@), previous@, exists@),
    ensures
        ({
            let after = with(
                without(disk, link_models(r.removals@)),
                link_models(r.creations@),
            );
            &&& desired@.contains_key(place) ==> after.contains_key(place) && parts_of(after[place])
                == parts_of(desired@[place].target@)
            &&& previous@.contains_key(place) && !desired@.contains_key(place)
                ==> !after.contains_key(place)
            &&& !previous@.contains_key(place) && !desired@.contains_key(place) ==> (
            after.contains_key(place) <==> disk.contains_key(place)) && (disk.contains_key(place)
                ==> after[place] == disk[place])
        }),
{
    let all = place_models(places@);
    lemma_update_reaches_desired(disk, all, previous@, desired@, exists@);
    assert(all.contains(place) <==> previous@.contains_key(place) || desired@.contains_key(place));
}

/// A link is one of those in a table.
pub open spec fn is_among(index: Map<LinkPathModel, ManagedLink>, link: LinkModel) -> bool {
    exists|at: LinkPathModel| #[trigger] index.contains_key(at) && index[at]@ == link
}

/// A link that stands as it should is neither removed nor made again; only a link that the project had
/// and that stands is removed; and only a desired link is made.
pub proof fn lemma_no_needless_change(
    places: &Vec<LinkPath>,
    previous: &Table<LinkPath, ManagedLink>,
    desired: &Table<LinkPath, ManagedLink>,
    exists: &Vec<bool>,
    r: LinkUpdate,
    k: int,
)
    requires
        call_ensures(affected_places, (previous, desired), *places),
        call_ensures(preflight_links, (places, previous, desired, exists), r),
        exists@.len() == places@.len(),
        at_their_places(previous@),
        at_their_places(desired@),
        0 <= k < places@.len(),
    ensures
        ({
            let place = places@[k]@;
            let removed = any_at(link_models(r.removals@), place);
            let made = any_at(link_models(r.creations@), place);
            &&& removed ==> exists@[k] && previous@.contains_key(place)
            &&& made ==> desired@.contains_key(place)
            &&& exists@[k] && previous@.contains_key(place) && desired@.contains_key(place)
                && parts_of(previous@[place].target@) == parts_of(desired@[place].target@)
                ==> !removed && !made
            &&& exists@[k] && previous@.contains_key(place) && !desired@.contains_key(place)
                ==> removed
            &&& !exists@[k] && desired@.contains_key(place) ==> made
        }),
        forall|i: int|
            0 <= i < r.removals@.len() ==> is_among(previous@, (#[trigger] r.removals@[i])@),
        forall|i: int|
            0 <= i < r.creations@.len() ==> is_among(desired@, (#[trigger] r.creations@[i])@),
{
    let all = place_models(places@);
    let gone = removal_list(all, previous@, desired@, exists@);
    let made = creation_list(all, previous@, desired@, exists@);
    assert(all[k] == places@[k]@);
    lemma_change_at(all, previous@, desired@, exists@, k);
    assert forall|i: int| 0 <= i < r.removals@.len() implies is_among(
        previous@,
        (#[trigger] r.removals@[i])@,
    ) by {
        assert(link_models(r.removals@)[i] == r.removals@[i]@);
        let j = lemma_present_from(gone, i);
        assert(previous@.contains_key(all[j]));
    }
    assert forall|i: int| 0 <= i < r.creations@.len() implies is_among(
        desired@,
        (#[trigger] r.creations@[i])@,
    ) by {
        assert(link_models(r.creations@)[i] == r.creations@[i]@);
        let j = lemma_present_from(made, i);
        assert(desired@.contains_key(all[j]));
    }
}

/// The state that is written afterwards has version 1 and records the desired links as they are, one
/// for each place and in the places' order.
pub proof fn lemma_recorded_links(
    places: &Vec<LinkPath>,
    previous: &Table<LinkPath, ManagedLink>,
    desired: &Table<LinkPath, ManagedLink>,
    exists: &Vec<bool>,
    r: LinkUpdate,
)
    requires
        call_ensures(preflight_links, (places, previous, desired, exists), r),
    ensures
        r.next.version == 1,
        r.next.links@.len() == desired.keys().len(),
        forall|i: int|
            0 <= i < r.next.links@.len() ==> (#[trigger] r.next.links@[i]).path@
                == desired@[desired.keys()[i]].path@ && r.next.links@[i].target@
                == desired@[desired.keys()[i]].target@ && texts(r.next.links@[i].roots@) == texts(
                desired@[desired.keys()[i]].roots@,
            ),
{
    let wanted = desired.keys().map_values(|place: LinkPathModel| desired@[place]@);
    assert(link_models(r.next.links@).len() == r.next.links@.len());
    assert forall|i: int| 0 <= i < r.next.links@.len() implies (#[trigger] r.next.links@[i]).path@
        == desired@[desired.keys()[i]].path@ && r.next.links@[i].target@
        == desired@[desired.keys()[i]].target@ && texts(r.next.links@[i].roots@) == texts(
        desired@[desired.keys()[i]].roots@,
    ) by {
        assert(link_models(r.next.links@)[i] == wanted[i]);
    }
}

/// What stands at the place of a link is the project's own only where it is a link whose target is the
/// recorded one. Nothing else is ever touched: what the project does not own, what is no link, and a
/// link that leads elsewhere are each refused.
pub proof fn lemma_only_its_own(
    location: &str,
    owned: Option<&ManagedLink>,
    observed: &Observed,
    r: Result<bool, LinkError>,
)
    requires
        call_ensures(validate_existing_link, (location, owned, observed), r),
    ensures
        r matches Ok(false) <==> observed is Missing,
        r matches Ok(true) <==> (owned matches Some(link) && (observed matches Observed::Symlink(
            found,
        ) && parts_of(found@) == parts_of(link.target@))),
        !(observed is Missing) && owned is None ==> (r matches Err(e) && e@ == LinkFault::Unmanaged(
            location@,
        )),
        observed is Other && owned is Some ==> (r matches Err(e) && e@ == LinkFault::Replaced(
            location@,
        )),
        (owned matches Some(link) && (observed matches Observed::Symlink(found) && parts_of(found@)
            != parts_of(link.target@))) ==> r is Err && r->Err_0@ is Changed,
{
}

/// A path of exactly three names.
pub open spec fn three_names(path: Seq<char>) -> bool {
    parts_of(path).len() == 3 && parts_of(path)[0] is Name && parts_of(path)[1] is Name && parts_of(
        path,
    )[2] is Name
}

/// Links are accepted exactly where each stands at a path of three names, has an absolute target, and
/// shares its path with no other; then each is found at its path.
pub proof fn lemma_links_that_can_be(
    links: &Vec<ManagedLink>,
    r: Result<Table<LinkPath, ManagedLink>, LinkError>,
)
    requires
        call_ensures(index_links, (links,), r),
    ensures
        r is Ok <==> {
            &&& forall|k: int|
                0 <= k < links@.len() ==> three_names((#[trigger] links@[k]).path@)
                    && links@[k].target@.len() > 0 && links@[k].target@[0] == '/'
            &&& forall|j: int, k: int|
                0 <= j < k < links@.len() ==> parts_of((#[trigger] links@[j]).path@) != parts_of(
                    (#[trigger] links@[k]).path@,
                )
        },
        r matches Ok(index) ==> {
            &&& at_their_places(index@)
            &&& forall|k: int|
                0 <= k < links@.len() ==> {
                    let all = parts_of((#[trigger] links@[k]).path@);
                    let place = LinkPathModel {
                        namespace: all[0]->0,
                        name: all[1]->0,
                        version: all[2]->0,
                    };
                    index@.contains_key(place) && index@[place]@ == links@[k]@
                }
        },
{
    let models = link_models(links@);
    let faults = link_faults(models);
    assert(models.len() == links@.len());
    assert forall|j: int, k: int| 0 <= j < models.len() && 0 <= k < models.len() && three_names(
        models[j].path,
    ) && three_names(models[k].path) implies (#[trigger] link_path_of(models[j].path)
        == #[trigger] link_path_of(models[k].path) <==> parts_of(models[j].path) == parts_of(
        models[k].path,
    )) by {
        let a = parts_of(models[j].path);
        let b = parts_of(models[k].path);
        if link_path_of(models[j].path) == link_path_of(models[k].path) {
            assert(a =~= b);
        }
    }
    if r is Ok {
        assert forall|k: int| 0 <= k < links@.len() implies three_names(
            (#[trigger] links@[k]).path@,
        ) && links@[k].target@.len() > 0 && links@[k].target@[0] == '/' by {
            lemma_none_is_some(faults, k);
            assert(models[k] == links@[k]@);
        }
        assert forall|j: int, k: int| 0 <= j < k < links@.len() implies parts_of(
            (#[trigger] links@[j]).path@,
        ) != parts_of((#[trigger] links@[k]).path@) by {
            lemma_none_is_some(faults, k);
            assert(models[k] == links@[k]@ && models[j] == links@[j]@);
            if parts_of(models[j].path) == parts_of(models[k].path) {
                assert(stands_at(models[j], link_path_of(models[k].path)->0));
            }
        }
        assert forall|k: int| 0 <= k < links@.len() implies {
            let all = parts_of((#[trigger] links@[k]).path@);
            let place = LinkPathModel {
                namespace: all[0]->0,
                name: all[1]->0,
                version: all[2]->0,
            };
            r->Ok_0@.contains_key(place) && r->Ok_0@[place]@ == links@[k]@
        } by {
            assert(models[k] == links@[k]@);
            assert(link_path_of(models[k].path) is Some);
        }
    }
    if {
        &&& forall|k: int|
            0 <= k < links@.len() ==> three_names((#[trigger] links@[k]).path@)
                && links@[k].target@.len() > 0 && links@[k].target@[0] == '/'
        &&& forall|j: int, k: int|
            0 <= j < k < links@.len() ==> parts_of((#[trigger] links@[j]).path@) != parts_of(
                (#[trigger] links@[k]).path@,
            )
    } {
        assert forall|k: int| 0 <= k < faults.len() implies (#[trigger] faults[k]) is None by {
            assert(models[k] == links@[k]@);
            assert(three_names(links@[k].path@));
            let place = link_path_of(models[k].path)->0;
            assert forall|j: int| 0 <= j < k implies !stands_at(#[trigger] models[j], place) by {
                assert(models[j] == links@[j]@);
                assert(three_names(links@[j].path@));
                assert(parts_of(links@[j].path@) != parts_of(links@[k].path@));
                assert(link_path_of(models[j].path) != link_path_of(models[k].path));
            }
        }
        lemma_all_none(faults);
    }
}

/// The recorded links are given back as they stand; a state of another version than 1 is refused
/// before anything else, and there are none where nothing is recorded.
pub proof fn lemma_recorded_before(written: Option<LinkState>, r: Result<LinkState, LinkError>)
    requires
        call_ensures(read_links, (written,), r),
    ensures
        written is None ==> (r matches Ok(state) && state.version == 1 && state.links@.len() == 0),
        written matches Some(state) ==> (r matches Ok(kept) ==> kept == state),
        written matches Some(state) ==> (state.version != 1 ==> (r matches Err(e) && e@
            == LinkFault::Version(state.version))),
{
}

/// However far a change of the links came, the steps back restore what stood before.
pub proof fn lemma_links_are_taken_back(
    disk: Map<LinkPathModel, Seq<char>>,
    applied: &AppliedLinkChanges,
    r: Vec<Undo>,
    directories: Vec<String>,
)
    requires
        call_ensures(AppliedLinkChanges::rollback_links, (applied,), r),
        call_ensures(AppliedLinkChanges::created_directories, (applied,), directories),
        forall|i: int, j: int|
            0 <= i < j < applied.removed@.len() ==> link_path_of(
                (#[trigger] applied.removed@[i]).path@,
            )->0 != link_path_of((#[trigger] applied.removed@[j]).path@)->0,
        forall|i: int|
            0 <= i < applied.removed@.len() ==> disk.contains_key(
                link_path_of((#[trigger] applied.removed@[i]).path@)->0,
            ) && parts_of(disk[link_path_of(applied.removed@[i].path@)->0]) == parts_of(
                applied.removed@[i].target@,
            ),
        forall|i: int|
            0 <= i < applied.created@.len() ==> !without(
                disk,
                link_models(applied.removed@),
            ).contains_key(link_path_of((#[trigger] applied.created@[i]).path@)->0),
    ensures
        ({
            let changed = with(
                without(disk, link_models(applied.removed@)),
                link_models(applied.created@),
            );
            let back = undone(changed, undo_models(r@));
            &&& back.dom() == disk.dom()
            &&& forall|place: LinkPathModel| #[trigger]
                disk.contains_key(place) ==> parts_of(back[place]) == parts_of(disk[place])
        }),
        directories@.len() == applied.directories@.len(),
        forall|i: int|
            0 <= i < directories@.len() ==> (#[trigger] directories@[i])@
                == applied.directories@[directories@.len() - 1 - i]@,
{
    let removed = link_models(applied.removed@);
    let created = link_models(applied.created@);
    assert forall|i: int, j: int| 0 <= i < j < removed.len() implies link_path_of(
        (#[trigger] removed[i]).path,
    )->0 != link_path_of((#[trigger] removed[j]).path)->0 by {
        assert(removed[i] == applied.removed@[i]@ && removed[j] == applied.removed@[j]@);
    }
    assert forall|i: int| 0 <= i < removed.len() implies disk.contains_key(
        link_path_of((#[trigger] removed[i]).path)->0,
    ) && crate::path::equal_paths(
        disk[link_path_of(removed[i].path)->0],
        removed[i].target,
    ) by {
        assert(removed[i] == applied.removed@[i]@);
    }
    assert forall|i: int| 0 <= i < created.len() implies !without(disk, removed).contains_key(
        link_path_of((#[trigger] created[i]).path)->0,
    ) by {
        assert(created[i] == applied.created@[i]@);
    }
    lemma_rollback_restores(disk, removed, created);
    assert(texts(directories@).len() == directories@.len());
    assert(texts(applied.directories@).len() == applied.directories@.len());
    assert forall|i: int| 0 <= i < directories@.len() implies (#[trigger] directories@[i])@
        == applied.directories@[directories@.len() - 1 - i]@ by {
        assert(texts(directories@)[i] == directories@[i]@);
        assert(texts(applied.directories@)[directories@.len() - 1 - i]
            == applied.directories@[directories@.len() - 1 - i]@);
    }
}

/// The place of a step in the order in which a project is changed.
pub open spec fn turn(step: Step) -> int {
    match step {
        Step::Reconcile => 0,
        Step::WriteLockfile => 1,
        Step::WriteManifest => 2,
        Step::Done => 3,
    }
}

/// A project is changed in one order: its links, its pins, its manifest. The pins and the manifest are
/// written exactly where they are to be, none is passed over, and what is done is over.
pub proof fn lemma_order_of_steps(step: Step, lockfile: bool, manifest: bool, r: Step)
    requires
        call_ensures(next_step, (step, lockfile, manifest), r),
    ensures
        !(step is Done) ==> turn(r) > turn(step),
        step is Done ==> r is Done,
        r is WriteLockfile ==> lockfile,
        r is WriteManifest ==> manifest,
        !(r is Reconcile),
        lockfile && turn(step) < 1 ==> r is WriteLockfile,
        manifest && turn(step) < 2 ==> turn(r) <= 2,
{
}

/// The pins are written where there are some, or where a file is there that must not keep old ones.
pub proof fn lemma_pins_are_written(pins_packages: bool, had_lockfile: bool, r: bool)
    requires
        call_ensures(writes_lockfile, (pins_packages, had_lockfile), r),
    ensures
        pins_packages ==> r,
        had_lockfile ==> r,
        r ==> pins_packages || had_lockfile,
{
}

/// At whichever step a change fails, taking it back leaves the pins, the links and the manifest as they
/// were, and writes only what was written.
pub proof fn lemma_change_is_taken_back<L>(
    start: ProjectFiles<L>,
    wanted: ProjectFiles<L>,
    failed: Step,
    lockfile: bool,
    r: Vec<Restore>,
)
    requires
        call_ensures(restore_snapshot, (failed, lockfile), r),
        !(failed is Done),
    ensures
        restored(before_step(start, wanted, lockfile, failed), start, r@) == start,
        r@.contains(Restore::Lockfile) <==> lockfile && failed is WriteManifest,
        r@.contains(Restore::Links) <==> failed is WriteLockfile || failed is WriteManifest,
{
    lemma_failed_change_is_taken_back(start, wanted, lockfile, failed);
    if failed is WriteManifest {
        if lockfile {
            assert(r@[0] == Restore::Lockfile && r@[1] == Restore::Links);
        } else {
            assert(r@[0] == Restore::Links);
        }
    }
    if failed is WriteLockfile {
        assert(r@[0] == Restore::Links);
    }
}

/// Where the things of a project lie.
pub proof fn lemma_places_in_a_project(
    project: &Project,
    control: String,
    packages: String,
    state: String,
    pins: String,
    lock: String,
    ignore: String,
)
    requires
        project.root@.len() > 0 && project.root@[0] == '/',
        call_ensures(Project::control, (project,), control),
        call_ensures(Project::packages, (project,), packages),
        call_ensures(Project::state_path, (project,), state),
        call_ensures(Project::lockfile_path, (project,), pins),
        call_ensures(Project::lock_path, (project,), lock),
        call_ensures(Project::ignore_path, (project,), ignore),
    ensures
        ({
            let own = parts_of(project.root@).push(Part::Name(".typm"@));
            &&& parts_of(control@) == own
            &&& parts_of(packages@) == own.push(Part::Name("packages"@))
            &&& parts_of(state@) == own.push(Part::Name("state.toml"@))
            &&& parts_of(pins@) == parts_of(project.root@).push(Part::Name("typm.lock"@))
            &&& parts_of(lock@) == own.push(Part::Name("project.lock"@))
            &&& parts_of(ignore@) == own.push(Part::Name(".gitignore"@))
        }),
{
    reveal_strlit(".typm");
    reveal_strlit("packages");
    reveal_strlit("state.toml");
    reveal_strlit("typm.lock");
    reveal_strlit("project.lock");
    reveal_strlit(".gitignore");
    reveal_strlit(".typm/packages");
    reveal_strlit(".typm/state.toml");
    let root = project.root@;
    lemma_plain(".typm"@);
    lemma_plain("packages"@);
    lemma_plain("state.toml"@);
    lemma_plain("typm.lock"@);
    lemma_plain("project.lock"@);
    lemma_plain(".gitignore"@);
    lemma_file_in(root, ".typm"@);
    lemma_file_in(root, "typm.lock"@);
    lemma_joined_parts(root, ".typm"@);
    lemma_file_in(control@, "project.lock"@);
    lemma_file_in(control@, ".gitignore"@);
    assert(".typm/packages"@ =~= ".typm"@ + seq!['/'] + "packages"@);
    assert(".typm/state.toml"@ =~= ".typm"@ + seq!['/'] + "state.toml"@);
    lemma_two_in(root, ".typm"@, "packages"@);
    lemma_two_in(root, ".typm"@, "state.toml"@);
}

pub(crate) proof fn lemma_two_in(root: Seq<char>, first: Seq<char>, second: Seq<char>)
    requires
        absolute(root),
        plain_name(first),
        plain_name(second),
    ensures
        parts_of(joined_path(root, first + seq!['/'] + second)) == parts_of(root).push(
            Part::Name(first),
        ).push(Part::Name(second)),
        absolute(joined_path(root, first + seq!['/'] + second)),
{
    let path = first + seq!['/'] + second;
    assert(path[0] == first[0]);
    assert(first.contains(first[0]));
    lemma_joined_parts(root, path);
    lemma_name_then(first, second);
    lemma_name_body(second);
    assert(parts_of(joined_path(root, path)) =~= parts_of(root).push(Part::Name(first)).push(
        Part::Name(second),
    ));
}

/// A link stands in `.typm/packages`, below its namespace and its name, under its version; the
/// directories on the way there are listed from the top down.
pub proof fn lemma_place_of_a_link(
    project: &Project,
    place: &LinkPath,
    location: String,
    parents: Vec<String>,
)
    requires
        project.root@.len() > 0 && project.root@[0] == '/',
        plain_name(place.namespace@) && plain_name(place.name@) && plain_name(place.version@),
        call_ensures(Project::link_location, (project, place), location),
        call_ensures(Project::link_parents, (project, place), parents),
    ensures
        ({
            let packages = parts_of(project.root@).push(Part::Name(".typm"@)).push(
                Part::Name("packages"@),
            );
            let whole = packages.push(Part::Name(place.namespace@)).push(
                Part::Name(place.name@),
            ).push(Part::Name(place.version@));
            &&& parts_of(location@) == whole
            &&& parents@.len() == 4
            &&& forall|i: int|
                0 <= i < 4 ==> parts_of((#[trigger] parents@[i])@) == whole.take(
                    parts_of(project.root@).len() + 1 + i,
                )
        }),
{
    reveal_strlit(".typm");
    reveal_strlit("packages");
    reveal_strlit(".typm/packages");
    reveal_strlit("/");
    let root = project.root@;
    let (a, b, c) = (place.namespace@, place.name@, place.version@);
    lemma_plain(".typm"@);
    lemma_plain("packages"@);
    assert(".typm/packages"@ =~= ".typm"@ + seq!['/'] + "packages"@);
    lemma_two_in(root, ".typm"@, "packages"@);
    let packages = joined_path(root, ".typm/packages"@);
    let text = a + seq!['/'] + b + seq!['/'] + c;
    let rest = b + seq!['/'] + c;
    assert("/"@ =~= seq!['/']);
    assert(text =~= a + seq!['/'] + rest);
    assert(text[0] == a[0]);
    assert(a.contains(a[0]));
    lemma_joined_parts(packages, text);
    lemma_name_then(a, rest);
    lemma_name_then(b, c);
    lemma_name_body(c);
    let own = parts_of(root).push(Part::Name(".typm"@));
    let whole = own.push(Part::Name("packages"@)).push(Part::Name(a)).push(Part::Name(b)).push(
        Part::Name(c),
    );
    assert(parts_of(location@) =~= whole);
    let p0 = joined_path(root, ".typm"@);
    let p1 = joined_path(p0, "packages"@);
    let p2 = joined_path(p1, a);
    let p3 = joined_path(p2, b);
    lemma_file_in(root, ".typm"@);
    lemma_joined_parts(root, ".typm"@);
    lemma_file_in(p0, "packages"@);
    lemma_joined_parts(p0, "packages"@);
    lemma_file_in(p1, a);
    lemma_joined_parts(p1, a);
    lemma_file_in(p2, b);
    assert(texts(parents@).len() == parents@.len());
    let n = parts_of(root).len() as int;
    assert(parts_of(p0) =~= whole.take(n + 1));
    assert(parts_of(p1) =~= whole.take(n + 2));
    assert(parts_of(p2) =~= whole.take(n + 3));
    assert(parts_of(p3) =~= whole.take(n + 4));
    assert forall|i: int| 0 <= i < 4 implies parts_of((#[trigger] parents@[i])@) == whole.take(
        parts_of(root).len() + 1 + i,
    ) by {
        assert(texts(parents@)[i] == parents@[i]@);
    }
}

/// The place of a link is read from its three names, and from nothing else.
pub proof fn lemma_place_from_names(path: &str, r: Option<LinkPath>)
    requires
        call_ensures(read_link_path, (path,), r),
    ensures
        r is Some <==> three_names(path@),
        r matches Some(place) ==> parts_of(path@) == seq![
            Part::Name(place.namespace@),
            Part::Name(place.name@),
            Part::Name(place.version@),
        ],
{
    if r is Some {
        let place = r->0;
        assert(parts_of(path@) =~= seq![
            Part::Name(place.namespace@),
            Part::Name(place.name@),
            Part::Name(place.version@),
        ]);
    }
}

/// The manifest is named by the last component of its path, read against the working directory, and the
/// project lies in the directory above; a path that ends otherwise is refused.
pub proof fn lemma_place_of_the_manifest(
    manifest_path: &str,
    cwd: &str,
    r: Result<ManifestPlace, String>,
)
    requires
        cwd@.len() > 0 && cwd@[0] == '/',
        call_ensures(manifest_place, (manifest_path, cwd), r),
    ensures
        ({
            let all = if manifest_path@.len() > 0 && manifest_path@[0] == '/' {
                parts_of(manifest_path@)
            } else {
                parts_of(cwd@) + body(manifest_path@)
            };
            &&& r is Ok <==> all.last() is Name
            &&& r matches Ok(place) ==> {
                &&& parts_of(place.path@) == all
                &&& all.last() == Part::Name(place.file@)
                &&& parts_of(place.directory@) == all.drop_last()
            }
        }),
{
    lemma_joined_parts(cwd@, manifest_path@);
    let path = joined_path(cwd@, manifest_path@);
    let all = parts_of(path);
    lemma_absolute_steps(path);
    if r is Ok {
        let front = all.drop_last();
        assert(all[0] == Part::Root);
        assert(front[0] == all[0]);
        assert forall|i: int| 1 <= i < front.len() implies crate::path::is_step(
            #[trigger] front[i],
        ) by {
            assert(front[i] == all[i]);
        }
        crate::laws::paths::lemma_absolute_text(front);
        assert(path_text(front) == r->Ok_0.directory@);
    }
}

/// A project is there exactly where its directory is one, and its manifest lies in it.
pub proof fn lemma_project_directory(
    root: &str,
    is_directory: bool,
    file: &str,
    r: Result<Project, String>,
)
    requires
        root@.len() > 0 && root@[0] == '/',
        plain_name(file@),
        call_ensures(Project::new, (root, is_directory, file), r),
    ensures
        r is Ok <==> is_directory,
        r matches Ok(project) ==> project.root@ == root@ && parts_of(project.manifest_path@)
            == parts_of(root@).push(Part::Name(file@)),
{
    lemma_file_in(root@, file@);
}

} // verus!
