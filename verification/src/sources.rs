//! Where packages come from: which source a dependency stands for, what may be read of it, and
//! what its packages are known by.

use vstd::prelude::*;
use vstd::utf8::encode_utf8;

use crate::git::{source_id, GitSourceModel, GitSourceSpec};
use crate::git::cache::Checkout;
use crate::hashing::{
    blake3_hex, fits, hash_parts, is_digest, lemma_parts_message_injective, parts_message,
};
use crate::lockfile::{LockedSource, LockedSourceModel};
use crate::manifest::{
    dependency_fault, git_source_of, identity_text, valid_identity, Dependency, DependencyError,
    DependencyFault, DependencyModel,
};
use crate::ordered::Table;
use crate::package::Package;
use crate::path::{
    absolute, is_absolute, join_path, joined_path, lemma_tidied_is_tidy, parts_of, path_text,
    starts_with_path, strip_prefix, tidied, tidy, within,
};
use crate::text::{contains_char, opt_str, opt_text, plus, plus3, same};

verus! {

broadcast use vstd::string::group_string_axioms;

/// A source of packages.
#[derive(Debug)]
pub enum SourceId {
    /// A Git source, by its identity.
    Git(String),
    /// A directory on this machine.
    Path(String),
}

/// A source of packages, with its text.
pub enum SourceModel {
    Git(Seq<char>),
    Path(Seq<char>),
}

impl View for SourceId {
    type V = SourceModel;

    open spec fn view(&self) -> SourceModel {
        match self {
            SourceId::Git(id) => SourceModel::Git(id@),
            SourceId::Path(root) => SourceModel::Path(root@),
        }
    }
}

impl Clone for SourceId {
    fn clone(&self) -> (r: Self)
        ensures
            r@ == self@,
    {
        match self {
            SourceId::Git(id) => SourceId::Git(id.clone()),
            SourceId::Path(root) => SourceId::Path(root.clone()),
        }
    }
}

/// A package and the source it was found in.
#[derive(Debug)]
pub struct LocatedPackage {
    pub package: Package,
    pub source: SourceId,
}

/// What a package is known by. Two packages in one place share the location, and `source_key`
/// tells apart the sources through which it was reached.
#[derive(Debug)]
pub struct PackageIdentity {
    pub location_id: String,
    pub pin: Option<PackagePin>,
    pub source_key: String,
}

/// The place of a package in a pinned source.
#[derive(Debug)]
pub struct PackagePin {
    pub source_id: String,
    pub source: LockedSource,
    pub directory: String,
}

/// The place of a package in a pinned source, with its texts.
pub struct PinModel {
    pub source_id: Seq<char>,
    pub source: LockedSourceModel,
    pub directory: Seq<char>,
}

impl View for PackagePin {
    type V = PinModel;

    open spec fn view(&self) -> PinModel {
        PinModel {
            source_id: self.source_id@,
            source: self.source@,
            directory: self.directory@,
        }
    }
}

/// The pin in an optional one.
pub open spec fn opt_pin(pin: Option<PackagePin>) -> Option<PinModel> {
    match pin {
        Some(pin) => Some(pin@),
        None => None,
    }
}

/// The identity made of texts.
pub open spec fn hashed(parts: Seq<Seq<char>>) -> Seq<char> {
    blake3_hex(parts_message(parts))
}

/// The identity made of two texts.
fn hash_two(a: &str, b: &str) -> (r: String)
    ensures
        r@ == hashed(seq![a@, b@]),
        is_digest(r@),
{
    let parts = [a, b];
    assert(parts@.map_values(|p: &str| p@) =~= seq![a@, b@]);
    hash_parts(parts.as_slice())
}

/// The identity made of three texts.
fn hash_three(a: &str, b: &str, c: &str) -> (r: String)
    ensures
        r@ == hashed(seq![a@, b@, c@]),
        is_digest(r@),
{
    let parts = [a, b, c];
    assert(parts@.map_values(|p: &str| p@) =~= seq![a@, b@, c@]);
    hash_parts(parts.as_slice())
}

impl PackageIdentity {
    /// What the package is known by in a namespace.
    pub fn package_id(&self, namespace: &str) -> (r: String)
        ensures
            r@ == hashed(seq![self.source_key@, namespace@]),
            is_digest(r@),
    {
        hash_two(self.source_key.as_str(), namespace)
    }
}

/// Which Git sources are asked for anew.
#[derive(Debug)]
pub enum RefreshPolicy {
    Preserve,
    Source(String),
    All,
}

/// Which Git sources are asked for anew, with the text.
pub enum RefreshModel {
    Preserve,
    Source(Seq<char>),
    All,
}

impl View for RefreshPolicy {
    type V = RefreshModel;

    open spec fn view(&self) -> RefreshModel {
        match self {
            RefreshPolicy::Preserve => RefreshModel::Preserve,
            RefreshPolicy::Source(id) => RefreshModel::Source(id@),
            RefreshPolicy::All => RefreshModel::All,
        }
    }
}

/// A source is asked for anew.
pub open spec fn refreshed(policy: RefreshModel, source: Seq<char>) -> bool {
    match policy {
        RefreshModel::Preserve => false,
        RefreshModel::Source(id) => id == source,
        RefreshModel::All => true,
    }
}

impl RefreshPolicy {
    /// Whether a source is asked for anew.
    pub fn refreshes(&self, source: &str) -> (r: bool)
        ensures
            r == refreshed(self@, source@),
    {
        match self {
            RefreshPolicy::Preserve => false,
            RefreshPolicy::Source(id) => same(id.as_str(), source),
            RefreshPolicy::All => true,
        }
    }
}

/// What is wrong with the place of a package.
#[derive(Debug)]
pub enum SourceError {
    Dependency(DependencyError),
    AbsolutePath(String),
    PathEscapes(String),
    ManifestEscapes(String),
    PackageEscapes,
    OtherName { expected: String, found: String },
}

/// What is wrong with the place of a package, with its texts.
pub enum SourceFault {
    Dependency(DependencyFault),
    AbsolutePath(Seq<char>),
    PathEscapes(Seq<char>),
    ManifestEscapes(Seq<char>),
    PackageEscapes,
    OtherName { expected: Seq<char>, found: Seq<char> },
}

impl View for SourceError {
    type V = SourceFault;

    open spec fn view(&self) -> SourceFault {
        match self {
            SourceError::Dependency(error) => SourceFault::Dependency(error@),
            SourceError::AbsolutePath(path) => SourceFault::AbsolutePath(path@),
            SourceError::PathEscapes(path) => SourceFault::PathEscapes(path@),
            SourceError::ManifestEscapes(path) => SourceFault::ManifestEscapes(path@),
            SourceError::PackageEscapes => SourceFault::PackageEscapes,
            SourceError::OtherName { expected, found } => SourceFault::OtherName {
                expected: expected@,
                found: found@,
            },
        }
    }
}

/// The text shown for a fault.
pub open spec fn fault_text(fault: SourceFault) -> Seq<char> {
    match fault {
        SourceFault::Dependency(fault) => crate::manifest::fault_text(fault),
        SourceFault::AbsolutePath(path) =>
            "Git package declares an absolute local dependency path `"@ + path
            + "`; use a relative path inside the repository or a Git dependency"@,
        SourceFault::PathEscapes(path) => "path dependency `"@ + path
            + "` escapes the pinned Git repository; use a Git dependency for packages outside the checkout"@,
        SourceFault::ManifestEscapes(path) =>
            "dependency manifest escapes the pinned Git repository: "@ + path,
        SourceFault::PackageEscapes => "Git package directory escapes its checkout"@,
        SourceFault::OtherName { expected, found } => "dependency `"@ + expected
            + "` points to package `"@ + found + "`"@,
    }
}

impl SourceError {
    /// The text shown to the user.
    pub fn message(&self) -> (r: String)
        ensures
            r@ == fault_text(self@),
    {
        match self {
            SourceError::Dependency(error) => error.message(),
            SourceError::AbsolutePath(path) => plus3(
                "Git package declares an absolute local dependency path `",
                path.as_str(),
                "`; use a relative path inside the repository or a Git dependency",
            ),
            SourceError::PathEscapes(path) => plus3(
                "path dependency `",
                path.as_str(),
                "` escapes the pinned Git repository; use a Git dependency for packages outside the checkout",
            ),
            SourceError::ManifestEscapes(path) => plus(
                "dependency manifest escapes the pinned Git repository: ",
                path.as_str(),
            ),
            SourceError::PackageEscapes => "Git package directory escapes its checkout".to_owned(),
            SourceError::OtherName { expected, found } => {
                let mut r = plus3("dependency `", expected.as_str(), "` points to package `");
                r.append(found.as_str());
                r.append("`");
                r
            },
        }
    }
}

/// The location of a repository, read against a directory. URLs and SSH shorthand stay.
pub open spec fn git_location(location: Seq<char>, base: Seq<char>) -> Seq<char> {
    if location.contains(':') {
        location
    } else {
        tidied(joined_path(base, location))
    }
}

/// The location of a repository. URLs and SSH shorthand are preserved; a path is read against the
/// directory of the manifest that declares it, or the working directory for the command line.
pub fn normalize_git_location(location: &str, base: &str) -> (r: String)
    requires
        absolute(base@),
    ensures
        r@ == git_location(location@, base@),
{
    if contains_char(location, ':') {
        return location.to_owned();
    }
    let path = join_path(base, location);
    assert(absolute(path@));
    tidy(path.as_str())
}

/// The location of a repository that was read against a directory stays, whatever directory it is read
/// against again.
pub proof fn lemma_git_location_stays(location: Seq<char>, base: Seq<char>, other: Seq<char>)
    requires
        absolute(base),
    ensures
        git_location(git_location(location, base), other) == git_location(location, base),
{
    if !location.contains(':') {
        let path = joined_path(base, location);
        assert(path[0] == '/');
        lemma_tidied_is_tidy(path);
    }
}

/// A Git source with its files.
#[derive(Debug)]
pub struct GitSource {
    pub specification: GitSourceSpec,
    pub checkout: Checkout,
}

/// A Git source with its files, as texts.
pub struct GitSourceState {
    pub specification: GitSourceModel,
    pub root: Seq<char>,
    pub commit: Seq<char>,
}

impl View for GitSource {
    type V = GitSourceState;

    open spec fn view(&self) -> GitSourceState {
        GitSourceState {
            specification: self.specification@,
            root: self.checkout.root@,
            commit: self.checkout.commit@,
        }
    }
}

/// The place of a package in a checkout.
pub open spec fn directory_in(root: Seq<char>, package_root: Seq<char>) -> Seq<char> {
    path_text(parts_of(package_root).skip(parts_of(root).len() as int))
}

/// What the place of a package in a Git source is known by.
pub open spec fn git_location_id(source: GitSourceState, package_root: Seq<char>) -> Seq<char> {
    hashed(
        seq![source.specification.git, source.commit, directory_in(source.root, package_root)],
    )
}

/// What the place of a package on this machine is known by.
pub open spec fn local_location_id(package_root: Seq<char>) -> Seq<char> {
    hashed(seq!["local"@, package_root])
}

impl GitSource {
    /// What a package of the source is known by.
    pub fn identity(&self, package_root: &str) -> (r: Result<PackageIdentity, SourceError>)
        ensures
            match r {
                Ok(identity) => {
                    &&& within(package_root@, self@.root)
                    &&& identity.location_id@ == git_location_id(self@, package_root@)
                    &&& identity.source_key@ == hashed(
                        seq![
                            source_id(self@.specification),
                            git_location_id(self@, package_root@),
                        ],
                    )
                    &&& opt_pin(identity.pin) == Some(
                        PinModel {
                            source_id: source_id(self@.specification),
                            source: LockedSourceModel {
                                source: self@.specification,
                                commit: self@.commit,
                            },
                            directory: directory_in(self@.root, package_root@),
                        },
                    )
                },
                Err(e) => !within(package_root@, self@.root) && e@ == SourceFault::PackageEscapes,
            },
    {
        let directory = match strip_prefix(package_root, self.checkout.root.as_str()) {
            Some(directory) => directory,
            None => return Err(SourceError::PackageEscapes),
        };
        let location_id = hash_three(
            self.specification.git.as_str(),
            self.checkout.commit.as_str(),
            directory.as_str(),
        );
        let source_id = self.specification.id();
        let source_key = hash_two(source_id.as_str(), location_id.as_str());
        let source = LockedSource {
            source: self.specification.clone(),
            commit: self.checkout.commit.clone(),
        };
        Ok(
            PackageIdentity {
                location_id,
                pin: Some(PackagePin { source_id, source, directory }),
                source_key,
            },
        )
    }

    /// Accepts a path dependency that stays in the repository; `target` is where it leads, links
    /// followed.
    pub fn check_path(&self, declared: &str, target: &str) -> (r: Result<(), SourceError>)
        ensures
            match r {
                Ok(()) => within(target@, self@.root),
                Err(e) => !within(target@, self@.root) && e@ == SourceFault::PathEscapes(declared@),
            },
    {
        if starts_with_path(target, self.checkout.root.as_str()) {
            Ok(())
        } else {
            Err(SourceError::PathEscapes(declared.to_owned()))
        }
    }

    /// Accepts a dependency manifest that stays in the repository; `target` is where it is, links
    /// followed.
    pub fn check_manifest(&self, package_root: &str, target: &str) -> (r: Result<(), SourceError>)
        ensures
            match r {
                Ok(()) => within(target@, self@.root),
                Err(e) => !within(target@, self@.root) && e@ == SourceFault::ManifestEscapes(
                    joined_path(package_root@, "typm.toml"@),
                ),
            },
    {
        if starts_with_path(target, self.checkout.root.as_str()) {
            Ok(())
        } else {
            Err(SourceError::ManifestEscapes(join_path(package_root, "typm.toml")))
        }
    }
}

/// What a package on this machine is known by.
pub fn local_identity(package_root: &str) -> (r: PackageIdentity)
    ensures
        r.location_id@ == local_location_id(package_root@),
        r.source_key@ == local_location_id(package_root@),
        r.pin is None,
{
    let location_id = hash_two("local", package_root);
    let source_key = location_id.clone();
    PackageIdentity { location_id, pin: None, source_key }
}

/// Where a dependency's package is to be found.
#[derive(Debug)]
pub enum Place {
    /// In a Git source, to be searched for.
    Git(GitSourceSpec),
    /// In a directory of the Git source that the depending package is in.
    Inside { id: String, declared: String, path: String },
    /// In a directory on this machine.
    Local(String),
}

/// Where a dependency's package is to be found, with the texts.
pub enum PlaceModel {
    Git(GitSourceModel),
    Inside { id: Seq<char>, declared: Seq<char>, path: Seq<char> },
    Local(Seq<char>),
}

impl View for Place {
    type V = PlaceModel;

    open spec fn view(&self) -> PlaceModel {
        match self {
            Place::Git(source) => PlaceModel::Git(source@),
            Place::Inside { id, declared, path } => PlaceModel::Inside {
                id: id@,
                declared: declared@,
                path: path@,
            },
            Place::Local(path) => PlaceModel::Local(path@),
        }
    }
}

/// The source in an optional one.
pub open spec fn opt_source(source: Option<&SourceId>) -> Option<SourceModel> {
    match source {
        Some(source) => Some(source@),
        None => None,
    }
}

/// Where the package of an accepted dependency is to be found, or why it may not be used.
/// `parent` is the source of the package that depends on it.
pub open spec fn place_of(
    m: DependencyModel,
    base: Seq<char>,
    parent: Option<SourceModel>,
) -> Result<PlaceModel, SourceFault> {
    match git_source_of(m) {
        Some(source) => Ok(
            PlaceModel::Git(GitSourceModel { git: git_location(source.git, base), ..source }),
        ),
        None => {
            let declared = m.path->0;
            match parent {
                Some(SourceModel::Git(id)) => if absolute(declared) {
                    Err(SourceFault::AbsolutePath(declared))
                } else {
                    Ok(
                        PlaceModel::Inside {
                            id,
                            declared,
                            path: joined_path(base, declared),
                        },
                    )
                },
                _ => Ok(PlaceModel::Local(joined_path(base, declared))),
            }
        },
    }
}

/// What is wrong with a dependency, as a fault of its place.
pub open spec fn declared_fault(m: DependencyModel, expected: Option<Seq<char>>) -> Option<
    DependencyFault,
> {
    dependency_fault(m, expected, valid_identity(identity_text(m.namespace, expected)))
}

/// How a Git source is to be brought here: at a commit, or anew.
#[derive(Debug)]
pub struct Acquisition {
    pub locked: Option<String>,
    pub refresh: bool,
}

/// The Git sources of one resolution, by identity.
pub struct SourceMap {
    pub providers: Table<String, GitSource>,
    pub previous_pins: Table<String, LockedSource>,
    pub refresh: RefreshPolicy,
}

/// Pins with their texts.
pub open spec fn pin_models(pins: Map<Seq<char>, LockedSource>) -> Map<
    Seq<char>,
    LockedSourceModel,
> {
    pins.map_values(|pin: LockedSource| pin@)
}

/// Git sources with their files, as texts.
pub open spec fn source_states(providers: Map<Seq<char>, GitSource>) -> Map<
    Seq<char>,
    GitSourceState,
> {
    providers.map_values(|source: GitSource| source@)
}

/// The commit that a source was pinned to, if the pin is of that very source.
pub open spec fn pinned_commit(
    pins: Map<Seq<char>, LockedSourceModel>,
    source: GitSourceModel,
) -> Option<Seq<char>> {
    let id = source_id(source);
    if pins.contains_key(id) && pins[id].source == source {
        Some(pins[id].commit)
    } else {
        None
    }
}

/// The sources are kept under their own identities.
pub open spec fn sources_named(sources: Map<Seq<char>, GitSourceState>) -> bool {
    forall|id: Seq<char>| #[trigger]
        sources.contains_key(id) ==> source_id(sources[id].specification) == id
}

impl SourceMap {
    /// No source yet.
    pub fn new(previous_pins: Table<String, LockedSource>, refresh: RefreshPolicy) -> (r: Self)
        ensures
            r.providers@ == Map::<Seq<char>, GitSource>::empty(),
            r.previous_pins == previous_pins,
            r.refresh == refresh,
            sources_named(source_states(r.providers@)),
    {
        SourceMap { providers: Table::new(), previous_pins, refresh }
    }

    /// Where the package of a dependency is to be found. `base` is the directory against which
    /// its paths are read, `parent` the source of the package that depends on it, and `expected`
    /// the name it is to have.
    pub fn locate(
        &self,
        dependency: &Dependency,
        base: &str,
        parent: Option<&SourceId>,
        expected: Option<&str>,
    ) -> (r: Result<Place, SourceError>)
        requires
            absolute(base@),
        ensures
            match declared_fault(dependency@, opt_str(expected)) {
                Some(fault) => r is Err && r->Err_0@ == SourceFault::Dependency(fault),
                None => match place_of(dependency@, base@, opt_source(parent)) {
                    Ok(place) => r is Ok && r->Ok_0@ == place,
                    Err(fault) => r is Err && r->Err_0@ == fault,
                },
            },
    {
        match dependency.validate(expected) {
            Ok(()) => {},
            Err(e) => return Err(SourceError::Dependency(e)),
        }
        place(dependency, base, parent)
    }

    /// How a Git source is to be brought here, or none where it is here already.
    pub fn load_git(&self, specification: &GitSourceSpec) -> (r: Option<Acquisition>)
        ensures
            match r {
                Some(acquisition) => {
                    &&& !self.providers@.contains_key(source_id(specification@))
                    &&& opt_text(acquisition.locked) == pinned_commit(
                        pin_models(self.previous_pins@),
                        specification@,
                    )
                    &&& acquisition.refresh == refreshed(
                        self.refresh@,
                        source_id(specification@),
                    )
                },
                None => self.providers@.contains_key(source_id(specification@)),
            },
    {
        let id = specification.id();
        if self.providers.contains_key(&id) {
            return None;
        }
        let locked = match self.previous_pins.get(&id) {
            Some(pin) => if pin.source.same_as(specification) {
                Some(pin.commit.clone())
            } else {
                None
            },
            None => None,
        };
        Some(Acquisition { locked, refresh: self.refresh.refreshes(id.as_str()) })
    }

    /// Notes that a Git source is here.
    pub fn register(&mut self, specification: GitSourceSpec, checkout: Checkout) -> (r: String)
        requires
            sources_named(source_states(old(self).providers@)),
        ensures
            r@ == source_id(specification@),
            final(self).providers@ == old(self).providers@.insert(
                r@,
                (GitSource { specification, checkout }),
            ),
            final(self).previous_pins == old(self).previous_pins,
            final(self).refresh == old(self).refresh,
            sources_named(source_states(final(self).providers@)),
    {
        let id = specification.id();
        let ghost added = GitSource { specification, checkout };
        let again = self.providers.insert(id.clone(), GitSource { specification, checkout });
        assert(source_states(self.providers@) =~= source_states(old(self).providers@).insert(
            id@,
            added@,
        ));
        id
    }

    /// What a package is known by; its Git source, if it has one, is here.
    pub fn identity(&self, located: &LocatedPackage) -> (r: Result<PackageIdentity, SourceError>)
        requires
            located.source@ matches SourceModel::Git(id) ==> self.providers@.contains_key(id),
        ensures
            match located.source@ {
                SourceModel::Path(_) => {
                    &&& r is Ok
                    &&& r->Ok_0.location_id@ == local_location_id(located.package@.root)
                    &&& r->Ok_0.source_key@ == local_location_id(located.package@.root)
                    &&& r->Ok_0.pin is None
                },
                SourceModel::Git(id) => {
                    let source = self.providers@[id]@;
                    let root = located.package@.root;
                    match r {
                        Ok(identity) => {
                            &&& within(root, source.root)
                            &&& identity.location_id@ == git_location_id(source, root)
                            &&& identity.source_key@ == hashed(
                                seq![
                                    source_id(source.specification),
                                    git_location_id(source, root),
                                ],
                            )
                            &&& opt_pin(identity.pin) == Some(
                                PinModel {
                                    source_id: source_id(source.specification),
                                    source: LockedSourceModel {
                                        source: source.specification,
                                        commit: source.commit,
                                    },
                                    directory: directory_in(source.root, root),
                                },
                            )
                        },
                        Err(e) => !within(root, source.root) && e@ == SourceFault::PackageEscapes,
                    }
                },
            },
    {
        match &located.source {
            SourceId::Path(_) => Ok(local_identity(located.package.root.as_str())),
            SourceId::Git(id) => match self.providers.get(id) {
                Some(source) => source.identity(located.package.root.as_str()),
                None => Err(SourceError::PackageEscapes),
            },
        }
    }
}

/// Where the package of an accepted dependency is to be found.
fn place(dependency: &Dependency, base: &str, parent: Option<&SourceId>) -> (r: Result<
    Place,
    SourceError,
>)
    requires
        absolute(base@),
        dependency@.git is Some || dependency@.path is Some,
    ensures
        match place_of(dependency@, base@, opt_source(parent)) {
            Ok(place) => r is Ok && r->Ok_0@ == place,
            Err(fault) => r is Err && r->Err_0@ == fault,
        },
{
    match dependency.git_source() {
        Some(source) => {
            let git = normalize_git_location(source.git.as_str(), base);
            return Ok(
                Place::Git(
                    GitSourceSpec { git, branch: source.branch, tag: source.tag, rev: source.rev },
                ),
            );
        },
        None => {},
    }
    let declared = match &dependency.path {
        Some(path) => path.as_str(),
        None => return Err(SourceError::PackageEscapes),
    };
    match parent {
        Some(SourceId::Git(id)) => if is_absolute(declared) {
            Err(SourceError::AbsolutePath(declared.to_owned()))
        } else {
            Ok(
                Place::Inside {
                    id: id.clone(),
                    declared: declared.to_owned(),
                    path: join_path(base, declared),
                },
            )
        },
        _ => Ok(Place::Local(join_path(base, declared))),
    }
}

/// Accepts a package that has the expected name, if one is expected.
pub fn confirm(package: Package, source: SourceId, expected: Option<&str>) -> (r: Result<
    LocatedPackage,
    SourceError,
>)
    ensures
        match r {
            Ok(located) => {
                &&& expected is Some ==> package@.name == expected->0@
                &&& located.package == package
                &&& located.source == source
            },
            Err(e) => expected is Some && package@.name != expected->0@ && e@
                == (SourceFault::OtherName { expected: expected->0@, found: package@.name }),
        },
{
    match expected {
        Some(name) => if !same(package.name.as_str(), name) {
            return Err(
                SourceError::OtherName { expected: name.to_owned(), found: package.name },
            );
        },
        None => {},
    }
    Ok(LocatedPackage { package, source })
}

/// The texts can be held by a machine.
pub open spec fn all_fit(parts: Seq<Seq<char>>) -> bool {
    forall|i: int| 0 <= i < parts.len() ==> fits(encode_utf8(#[trigger] parts[i]))
}

/// Packages at different places in Git sources, at different commits or in different repositories
/// are known by different messages, so their locations differ unless the digest collides.
pub proof fn lemma_git_locations_differ(
    a: GitSourceState,
    a_root: Seq<char>,
    b: GitSourceState,
    b_root: Seq<char>,
)
    requires
        all_fit(seq![a.specification.git, a.commit, directory_in(a.root, a_root)]),
        all_fit(seq![b.specification.git, b.commit, directory_in(b.root, b_root)]),
        parts_message(
            seq![a.specification.git, a.commit, directory_in(a.root, a_root)],
        ) == parts_message(
            seq![b.specification.git, b.commit, directory_in(b.root, b_root)],
        ),
    ensures
        a.specification.git == b.specification.git,
        a.commit == b.commit,
        directory_in(a.root, a_root) == directory_in(b.root, b_root),
{
    let x = seq![a.specification.git, a.commit, directory_in(a.root, a_root)];
    let y = seq![b.specification.git, b.commit, directory_in(b.root, b_root)];
    lemma_parts_message_injective(x, y);
    assert(x[0] == y[0] && x[1] == y[1] && x[2] == y[2]);
}

/// A package in a Git source is never known by the message of one on this machine.
pub proof fn lemma_git_is_not_local(a: GitSourceState, a_root: Seq<char>, local: Seq<char>)
    requires
        all_fit(seq![a.specification.git, a.commit, directory_in(a.root, a_root)]),
        all_fit(seq!["local"@, local]),
    ensures
        parts_message(seq![a.specification.git, a.commit, directory_in(a.root, a_root)])
            != parts_message(seq!["local"@, local]),
{
    let x = seq![a.specification.git, a.commit, directory_in(a.root, a_root)];
    let y = seq!["local"@, local];
    if parts_message(x) == parts_message(y) {
        lemma_parts_message_injective(x, y);
        assert(x.len() == 3 && y.len() == 2);
    }
}

/// The same place reached through sources with different selectors is known by one location.
pub proof fn lemma_selectors_share_location(
    a: GitSourceState,
    b: GitSourceState,
    package_root: Seq<char>,
)
    requires
        a.specification.git == b.specification.git,
        a.commit == b.commit,
        a.root == b.root,
    ensures
        git_location_id(a, package_root) == git_location_id(b, package_root),
{
}

/// Everything that a package in a Git source depends on comes from Git, too: what is pinned rests
/// on nothing that is not.
pub proof fn lemma_git_depends_on_git(m: DependencyModel, base: Seq<char>, id: Seq<char>)
    ensures
        match place_of(m, base, Some(SourceModel::Git(id))) {
            Ok(PlaceModel::Git(_)) => m.git is Some,
            Ok(PlaceModel::Inside { id: found, .. }) => found == id,
            Ok(PlaceModel::Local(_)) => false,
            Err(_) => true,
        },
{
}

} // verus!
