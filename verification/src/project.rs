//! Project-local package links and the state that records their ownership.

use vstd::prelude::*;

use crate::link_path::{link_path_of, link_text, read_link_path, LinkPath, LinkPathModel};
use crate::lists::{first_some, lemma_first_some_at, lemma_first_some_next, lemma_push_contains};
use crate::ordered::{ascending, Table};
use crate::path::{
    absolute, equal_paths, file_name, is_absolute, join_path, joined_path, name_text, parent,
    parent_text, same_path,
};
use crate::text::{copy_texts, decimal, decimal_text, plus, plus3, texts};

verus! {

broadcast use vstd::string::group_string_axioms;

/// The version of the state's format.
pub const STATE_VERSION: u32 = 1;

/// A package link that the project owns.
#[derive(Debug)]
pub struct ManagedLink {
    /// A path of the form namespace/name/version, relative to .typm/packages.
    pub path: String,
    pub target: String,
    /// Direct project dependencies that make this package reachable.
    pub roots: Vec<String>,
}

/// A package link, with its texts.
pub struct LinkModel {
    pub path: Seq<char>,
    pub target: Seq<char>,
    pub roots: Seq<Seq<char>>,
}

impl View for ManagedLink {
    type V = LinkModel;

    open spec fn view(&self) -> LinkModel {
        LinkModel { path: self.path@, target: self.target@, roots: texts(self.roots@) }
    }
}

impl Clone for ManagedLink {
    fn clone(&self) -> (r: Self)
        ensures
            r@ == self@,
    {
        ManagedLink {
            path: self.path.clone(),
            target: self.target.clone(),
            roots: copy_texts(&self.roots),
        }
    }
}

/// Links with their texts.
pub open spec fn link_models(links: Seq<ManagedLink>) -> Seq<LinkModel> {
    links.map_values(|l: ManagedLink| l@)
}

/// The links that the project owns.
#[derive(Debug)]
pub struct LinkState {
    pub version: u32,
    pub links: Vec<ManagedLink>,
}

impl Default for LinkState {
    fn default() -> (r: Self)
        ensures
            r.version == STATE_VERSION,
            r.links@ == Seq::<ManagedLink>::empty(),
    {
        LinkState { version: STATE_VERSION, links: Vec::new() }
    }
}

/// What is wrong with links.
#[derive(Debug)]
pub enum LinkError {
    Path(String),
    Target(String),
    Duplicate(String),
    Version(u32),
    Unmanaged(String),
    Replaced(String),
    Changed { path: String, expected: String, found: String },
}

/// What is wrong with links, with the texts.
pub enum LinkFault {
    Path(Seq<char>),
    Target(Seq<char>),
    Duplicate(Seq<char>),
    Version(u32),
    Unmanaged(Seq<char>),
    Replaced(Seq<char>),
    Changed { path: Seq<char>, expected: Seq<char>, found: Seq<char> },
}

impl View for LinkError {
    type V = LinkFault;

    open spec fn view(&self) -> LinkFault {
        match self {
            LinkError::Path(path) => LinkFault::Path(path@),
            LinkError::Target(target) => LinkFault::Target(target@),
            LinkError::Duplicate(path) => LinkFault::Duplicate(path@),
            LinkError::Version(version) => LinkFault::Version(*version),
            LinkError::Unmanaged(path) => LinkFault::Unmanaged(path@),
            LinkError::Replaced(path) => LinkFault::Replaced(path@),
            LinkError::Changed { path, expected, found } => LinkFault::Changed {
                path: path@,
                expected: expected@,
                found: found@,
            },
        }
    }
}

/// The text shown for a fault; `state` is where the state is kept.
pub open spec fn fault_text(fault: LinkFault, state: Seq<char>) -> Seq<char> {
    match fault {
        LinkFault::Path(path) => "invalid package link path "@ + path
            + ": expected namespace/name/version"@,
        LinkFault::Target(target) => "package link target must be absolute: "@ + target,
        LinkFault::Duplicate(path) => "duplicate package link path "@ + path,
        LinkFault::Version(version) => "unsupported link state version "@ + decimal_text(
            version as nat,
        ) + " in "@ + state,
        LinkFault::Unmanaged(path) => "refusing to replace unmanaged package path "@ + path,
        LinkFault::Replaced(path) =>
            "managed package link was replaced by a file or directory: "@ + path,
        LinkFault::Changed { path, expected, found } => "managed package link was changed: "@ + path
            + " (expected "@ + expected + ", found "@ + found + ")"@,
    }
}

impl LinkError {
    /// The text shown to the user.
    pub fn message(&self, state: &str) -> (r: String)
        ensures
            r@ == fault_text(self@, state@),
    {
        match self {
            LinkError::Path(path) => plus3(
                "invalid package link path ",
                path.as_str(),
                ": expected namespace/name/version",
            ),
            LinkError::Target(target) => plus(
                "package link target must be absolute: ",
                target.as_str(),
            ),
            LinkError::Duplicate(path) => plus("duplicate package link path ", path.as_str()),
            LinkError::Version(version) => {
                let mut r = plus3(
                    "unsupported link state version ",
                    decimal(*version as u64).as_str(),
                    " in ",
                );
                r.append(state);
                r
            },
            LinkError::Unmanaged(path) => plus(
                "refusing to replace unmanaged package path ",
                path.as_str(),
            ),
            LinkError::Replaced(path) => plus(
                "managed package link was replaced by a file or directory: ",
                path.as_str(),
            ),
            LinkError::Changed { path, expected, found } => {
                let mut r = plus3(
                    "managed package link was changed: ",
                    path.as_str(),
                    " (expected ",
                );
                r.append(expected.as_str());
                r.append(", found ");
                r.append(found.as_str());
                r.append(")");
                r
            },
        }
    }
}

/// A project: the directory of its manifest.
#[derive(Debug)]
pub struct Project {
    pub root: String,
    pub manifest_path: String,
}

/// A manifest whose directory is still to be looked up.
#[derive(Debug)]
pub struct ManifestPlace {
    pub path: String,
    pub directory: String,
    pub file: String,
}

/// The directory and the name of a manifest; a relative path is read against the working
/// directory. The error is the path, where it names no file.
pub fn manifest_place(manifest_path: &str, cwd: &str) -> (r: Result<ManifestPlace, String>)
    ensures
        ({
            let path = joined_path(cwd@, manifest_path@);
            match name_text(path) {
                Some(name) => {
                    &&& r is Ok
                    &&& r->Ok_0.path@ == path
                    &&& r->Ok_0.file@ == name
                    &&& parent_text(path) == Some(r->Ok_0.directory@)
                },
                None => r is Err && r->Err_0@ == "invalid manifest path: "@ + path,
            }
        }),
{
    let path = join_path(cwd, manifest_path);
    match file_name(path.as_str()) {
        Some(file) => match parent(path.as_str()) {
            Some(directory) => Ok(ManifestPlace { path, directory, file }),
            None => Err(plus("invalid manifest path: ", path.as_str())),
        },
        None => Err(plus("invalid manifest path: ", path.as_str())),
    }
}

impl Project {
    /// The project whose manifest lies in `root`, links followed. `is_directory` tells whether
    /// that is a directory; where it is not, the error says so.
    pub fn new(root: &str, is_directory: bool, file: &str) -> (r: Result<Project, String>)
        ensures
            match r {
                Ok(project) => is_directory && project.root@ == root@ && project.manifest_path@
                    == joined_path(root@, file@),
                Err(text) => !is_directory && text@ == "project directory is not a directory: "@
                    + root@,
            },
    {
        if !is_directory {
            return Err(plus("project directory is not a directory: ", root));
        }
        Ok(Project { root: root.to_owned(), manifest_path: join_path(root, file) })
    }

    /// Where the project's things are kept.
    pub fn control(&self) -> (r: String)
        ensures
            r@ == joined_path(self.root@, ".typm"@),
    {
        join_path(self.root.as_str(), ".typm")
    }

    /// Where the package links are kept.
    pub fn packages(&self) -> (r: String)
        ensures
            r@ == packages_path(self.root@),
    {
        join_path(self.root.as_str(), ".typm/packages")
    }

    /// Where the state is kept.
    pub fn state_path(&self) -> (r: String)
        ensures
            r@ == joined_path(self.root@, ".typm/state.toml"@),
    {
        join_path(self.root.as_str(), ".typm/state.toml")
    }

    /// Where the pins are kept.
    pub fn lockfile_path(&self) -> (r: String)
        ensures
            r@ == joined_path(self.root@, "typm.lock"@),
    {
        join_path(self.root.as_str(), "typm.lock")
    }

    /// The file whose lock is held while the project is changed.
    pub fn lock_path(&self) -> (r: String)
        ensures
            r@ == joined_path(joined_path(self.root@, ".typm"@), "project.lock"@),
    {
        join_path(self.control().as_str(), "project.lock")
    }

    /// The file that keeps the project's things out of version control.
    pub fn ignore_path(&self) -> (r: String)
        ensures
            r@ == joined_path(joined_path(self.root@, ".typm"@), ".gitignore"@),
    {
        join_path(self.control().as_str(), ".gitignore")
    }

    /// Where a package link stands.
    pub fn link_location(&self, place: &LinkPath) -> (r: String)
        ensures
            r@ == joined_path(packages_path(self.root@), link_text(place@)),
    {
        join_path(self.packages().as_str(), place.text().as_str())
    }

    /// The directories that a package link stands in, from the top down. Each must be a directory,
    /// not a link to one.
    pub fn link_parents(&self, place: &LinkPath) -> (r: Vec<String>)
        ensures
            texts(r@) == parents_of(self.root@, place@),
    {
        let control = self.control();
        let packages = join_path(control.as_str(), "packages");
        let namespace = join_path(packages.as_str(), place.namespace.as_str());
        let name = join_path(namespace.as_str(), place.name.as_str());
        let mut r: Vec<String> = Vec::new();
        r.push(control);
        r.push(packages);
        r.push(namespace);
        r.push(name);
        assert(texts(r@) =~= parents_of(self.root@, place@));
        r
    }
}

/// Where the package links are kept.
pub open spec fn packages_path(root: Seq<char>) -> Seq<char> {
    joined_path(root, ".typm/packages"@)
}

/// The directories that a package link stands in, from the top down.
pub open spec fn parents_of(root: Seq<char>, place: LinkPathModel) -> Seq<Seq<char>> {
    let control = joined_path(root, ".typm"@);
    let packages = joined_path(control, "packages"@);
    let namespace = joined_path(packages, place.namespace);
    seq![control, packages, namespace, joined_path(namespace, place.name)]
}

/// A link stands at a place.
pub open spec fn stands_at(link: LinkModel, place: LinkPathModel) -> bool {
    link_path_of(link.path) == Some(place)
}

/// What is wrong with the link at a position, after those before it.
pub open spec fn link_fault(links: Seq<LinkModel>, k: int) -> Option<LinkFault> {
    let link = links[k];
    match link_path_of(link.path) {
        None => Some(LinkFault::Path(link.path)),
        Some(place) => if !absolute(link.target) {
            Some(LinkFault::Target(link.target))
        } else if exists|j: int| 0 <= j < k && stands_at(#[trigger] links[j], place) {
            Some(LinkFault::Duplicate(link.path))
        } else {
            None
        },
    }
}

/// What is wrong with the links, in their order.
pub open spec fn link_faults(links: Seq<LinkModel>) -> Seq<Option<LinkFault>> {
    Seq::new(links.len(), |k: int| link_fault(links, k))
}

/// The links are found by their places.
pub open spec fn indexed(
    links: Seq<LinkModel>,
    index: Map<LinkPathModel, ManagedLink>,
) -> bool {
    &&& forall|place: LinkPathModel| #[trigger]
        index.contains_key(place) ==> stands_at(index[place]@, place) && links.contains(
            index[place]@,
        )
    &&& forall|k: int|
        0 <= k < links.len() ==> link_path_of((#[trigger] links[k]).path) is Some
            && index.contains_key(link_path_of(links[k].path)->0)
            && index[link_path_of(links[k].path)->0]@ == links[k]
}

/// The links by their places; or what is wrong with the first that cannot be one.
pub fn index_links(links: &Vec<ManagedLink>) -> (r: Result<Table<LinkPath, ManagedLink>, LinkError>)
    ensures
        match r {
            Ok(index) => first_some(link_faults(link_models(links@))) is None && indexed(
                link_models(links@),
                index@,
            ),
            Err(e) => first_some(link_faults(link_models(links@))) == Some(e@),
        },
{
    let ghost all = link_models(links@);
    let ghost faults = link_faults(all);
    let mut index: Table<LinkPath, ManagedLink> = Table::new();
    let mut i: usize = 0;
    assert(faults.take(0) =~= Seq::<Option<LinkFault>>::empty());
    while i < links.len()
        invariant
            all == link_models(links@),
            faults == link_faults(all),
            faults.len() == links@.len(),
            i <= links@.len(),
            first_some(faults.take(i as int)) is None,
            forall|place: LinkPathModel| #[trigger]
                index@.contains_key(place) ==> stands_at(index@[place]@, place) && exists|k: int|
                    0 <= k < i && #[trigger] all[k] == index@[place]@,
            forall|k: int|
                0 <= k < i ==> link_path_of((#[trigger] all[k]).path) is Some
                    && index@.contains_key(link_path_of(all[k].path)->0)
                    && index@[link_path_of(all[k].path)->0]@ == all[k],
        decreases links@.len() - i,
    {
        let link = &links[i];
        proof {
            assert(all[i as int] == link@);
            assert(faults[i as int] == link_fault(all, i as int));
        }
        let place = match read_link_path(link.path.as_str()) {
            Some(place) => place,
            None => {
                proof {
                    lemma_first_some_at(faults, i as int);
                }
                return Err(LinkError::Path(link.path.clone()));
            },
        };
        if !is_absolute(link.target.as_str()) {
            proof {
                lemma_first_some_at(faults, i as int);
            }
            return Err(LinkError::Target(link.target.clone()));
        }
        let ghost at = place@;
        if index.contains_key(&place) {
            proof {
                let k = choose|k: int| 0 <= k < i && #[trigger] all[k] == index@[at]@;
                assert(stands_at(all[k], at));
                lemma_first_some_at(faults, i as int);
            }
            return Err(LinkError::Duplicate(link.path.clone()));
        }
        proof {
            if exists|j: int| 0 <= j < i && stands_at(#[trigger] all[j], at) {
                let j = choose|j: int| 0 <= j < i && stands_at(#[trigger] all[j], at);
                assert(index@.contains_key(link_path_of(all[j].path)->0));
            }
            lemma_first_some_next(faults, i as int);
        }
        let ghost before = index@;
        let copy = link.clone();
        let ghost kept = copy;
        let again = index.insert(place, copy);
        proof {
            assert forall|p: LinkPathModel| #[trigger] index@.contains_key(p) implies stands_at(
                index@[p]@,
                p,
            ) && exists|k: int| 0 <= k < i + 1 && #[trigger] all[k] == index@[p]@ by {
                if p == at {
                    assert(all[i as int] == index@[p]@);
                } else {
                    assert(before.contains_key(p));
                    let k = choose|k: int| 0 <= k < i && #[trigger] all[k] == before[p]@;
                    assert(all[k] == index@[p]@);
                }
            }
        }
        i = i + 1;
    }
    proof {
        assert(faults.take(i as int) =~= faults);
        assert forall|place: LinkPathModel| #[trigger] index@.contains_key(place) implies stands_at(
            index@[place]@,
            place,
        ) && all.contains(index@[place]@) by {
            let k = choose|k: int| 0 <= k < i && #[trigger] all[k] == index@[place]@;
            assert(all[k] == index@[place]@);
        }
    }
    Ok(index)
}

/// The links that the project owns, of which `written` was read from its state, if there is one.
pub fn read_links(written: Option<LinkState>) -> (r: Result<LinkState, LinkError>)
    ensures
        match written {
            Some(state) => match r {
                Ok(kept) => {
                    &&& state.version == STATE_VERSION
                    &&& first_some(link_faults(link_models(state.links@))) is None
                    &&& kept == state
                },
                Err(e) => if state.version != STATE_VERSION {
                    e@ == LinkFault::Version(state.version)
                } else {
                    first_some(link_faults(link_models(state.links@))) == Some(e@)
                },
            },
            None => r is Ok && r->Ok_0.version == STATE_VERSION && r->Ok_0.links@ == Seq::<
                ManagedLink,
            >::empty(),
        },
{
    let state = match written {
        Some(state) => state,
        None => return Ok(LinkState::default()),
    };
    if state.version != STATE_VERSION {
        return Err(LinkError::Version(state.version));
    }
    match index_links(&state.links) {
        Ok(_) => Ok(state),
        Err(e) => Err(e),
    }
}

/// What stands at the place of a link.
#[derive(Debug)]
pub enum Observed {
    Missing,
    /// A symbolic link, with the target written in it.
    Symlink(String),
    Other,
}

/// What stands at the place of a link, with the target as text.
pub enum ObservedModel {
    Missing,
    Symlink(Seq<char>),
    Other,
}

impl View for Observed {
    type V = ObservedModel;

    open spec fn view(&self) -> ObservedModel {
        match self {
            Observed::Missing => ObservedModel::Missing,
            Observed::Symlink(target) => ObservedModel::Symlink(target@),
            Observed::Other => ObservedModel::Other,
        }
    }
}

/// Whether the link that the project owns stands where something was observed; or why it must not
/// be touched. An existing link is owned only when its literal target is the one recorded.
pub open spec fn judgement(
    location: Seq<char>,
    owned: Option<Seq<char>>,
    observed: ObservedModel,
) -> Result<bool, LinkFault> {
    match observed {
        ObservedModel::Missing => Ok(false),
        _ => match owned {
            None => Err(LinkFault::Unmanaged(location)),
            Some(target) => match observed {
                ObservedModel::Symlink(found) => if equal_paths(found, target) {
                    Ok(true)
                } else {
                    Err(LinkFault::Changed { path: location, expected: target, found })
                },
                _ => Err(LinkFault::Replaced(location)),
            },
        },
    }
}

/// The target of an optional link.
pub open spec fn opt_target(link: Option<&ManagedLink>) -> Option<Seq<char>> {
    match link {
        Some(link) => Some(link@.target),
        None => None,
    }
}

/// Whether the link that the project owns stands at a place; or why that must not be touched.
pub fn validate_existing_link(
    location: &str,
    owned: Option<&ManagedLink>,
    observed: &Observed,
) -> (r: Result<bool, LinkError>)
    ensures
        match judgement(location@, opt_target(owned), observed@) {
            Ok(exists) => r is Ok && r->Ok_0 == exists,
            Err(fault) => r is Err && r->Err_0@ == fault,
        },
{
    let found = match observed {
        Observed::Missing => return Ok(false),
        Observed::Symlink(target) => Some(target),
        Observed::Other => None,
    };
    let link = match owned {
        Some(link) => link,
        None => return Err(LinkError::Unmanaged(location.to_owned())),
    };
    match found {
        Some(target) => require_link_target(location, link.target.as_str(), target.as_str()),
        None => Err(LinkError::Replaced(location.to_owned())),
    }
}

/// Accepts a link whose literal target is the one expected.
pub fn require_link_target(location: &str, expected: &str, found: &str) -> (r: Result<
    bool,
    LinkError,
>)
    ensures
        match r {
            Ok(accepted) => accepted && equal_paths(found@, expected@),
            Err(e) => !equal_paths(found@, expected@) && e@ == (LinkFault::Changed {
                path: location@,
                expected: expected@,
                found: found@,
            }),
        },
{
    if same_path(found, expected) {
        Ok(true)
    } else {
        Err(
            LinkError::Changed {
                path: location.to_owned(),
                expected: expected.to_owned(),
                found: found.to_owned(),
            },
        )
    }
}

/// The places of two sets of links, in order and each once.
pub fn affected_places(
    previous: &Table<LinkPath, ManagedLink>,
    desired: &Table<LinkPath, ManagedLink>,
) -> (r: Vec<LinkPath>)
    ensures
        ascending::<LinkPath>(place_models(r@)),
        place_models(r@).no_duplicates(),
        forall|place: LinkPathModel| #[trigger]
            place_models(r@).contains(place) <==> previous@.contains_key(place)
                || desired@.contains_key(place),
{
    let mut all: Table<LinkPath, ()> = Table::new();
    let count = previous.len();
    let mut i: usize = 0;
    while i < count
        invariant
            i <= count,
            count == previous.keys().len(),
            forall|place: LinkPathModel| #[trigger]
                all@.contains_key(place) <==> previous.keys().take(i as int).contains(place),
        decreases count - i,
    {
        let key = previous.key_at(i).clone();
        let ghost before = all@;
        let ghost at = key@;
        let again = all.insert(key, ());
        proof {
            let keys = previous.keys();
            assert(keys.take(i + 1) =~= keys.take(i as int).push(at));
            assert forall|place: LinkPathModel| #[trigger] all@.contains_key(place) <==> keys.take(
                i + 1,
            ).contains(place) by {
                lemma_push_contains(keys.take(i as int), at, place);
                assert(before.contains_key(place) <==> keys.take(i as int).contains(place));
            }
        }
        i = i + 1;
    }
    assert(previous.keys().take(i as int) =~= previous.keys());
    let more = desired.len();
    let mut k: usize = 0;
    while k < more
        invariant
            k <= more,
            more == desired.keys().len(),
            forall|place: LinkPathModel| #[trigger]
                all@.contains_key(place) <==> previous.keys().contains(place)
                    || desired.keys().take(k as int).contains(place),
        decreases more - k,
    {
        let key = desired.key_at(k).clone();
        let ghost before = all@;
        let ghost at = key@;
        let again = all.insert(key, ());
        proof {
            let keys = desired.keys();
            assert(keys.take(k + 1) =~= keys.take(k as int).push(at));
            assert forall|place: LinkPathModel| #[trigger]
                all@.contains_key(place) <==> previous.keys().contains(place) || keys.take(
                    k + 1,
                ).contains(place) by {
                lemma_push_contains(keys.take(k as int), at, place);
                assert(before.contains_key(place) <==> previous.keys().contains(place)
                    || keys.take(k as int).contains(place));
            }
        }
        k = k + 1;
    }
    assert(desired.keys().take(k as int) =~= desired.keys());
    let total = all.len();
    let mut r: Vec<LinkPath> = Vec::new();
    let mut n: usize = 0;
    assert(place_models(r@) =~= all.keys().take(0));
    while n < total
        invariant
            n <= total,
            total == all.keys().len(),
            place_models(r@) == all.keys().take(n as int),
        decreases total - n,
    {
        let place = all.key_at(n).clone();
        proof {
            assert(all.keys().take(n + 1) =~= all.keys().take(n as int).push(place@));
            assert(place_models(r@.push(place)) =~= place_models(r@).push(place@));
        }
        r.push(place);
        n = n + 1;
    }
    proof {
        assert(all.keys().take(n as int) =~= all.keys());
        assert forall|place: LinkPathModel| #[trigger]
            place_models(r@).contains(place) <==> previous@.contains_key(place)
                || desired@.contains_key(place) by {
            assert(all@.contains_key(place) <==> all.keys().contains(place));
            assert(previous@.contains_key(place) <==> previous.keys().contains(place));
            assert(desired@.contains_key(place) <==> desired.keys().contains(place));
        }
    }
    r
}

/// The places with their texts.
pub open spec fn place_models(places: Seq<LinkPath>) -> Seq<LinkPathModel> {
    places.map_values(|p: LinkPath| p@)
}

} // verus!
