//! Reading Typst package metadata and choosing among the packages inside a checkout.

use typst_syntax::package::{PackageManifest, PackageSpec};
use vstd::prelude::*;

use crate::lists::lemma_push_contains;
use crate::path::{
    absolute, is_absolute, join_path, joined_path, path_text, parts_of, plain_name,
    starts_with_path, strip_prefix, within,
};
use crate::text::{has_prefix, join, joined, opt_str, plus, plus3, same, texts};

verus! {

broadcast use vstd::string::group_string_axioms;

/// The stable version exposed in imports of direct project dependencies.
pub const IMPORT_VERSION: &'static str = "0.0.0";

/// A package in a directory.
#[derive(Debug)]
pub struct Package {
    pub root: String,
    pub name: String,
    pub version: String,
}

/// The texts of a package.
pub struct PackageModel {
    pub root: Seq<char>,
    pub name: Seq<char>,
    pub version: Seq<char>,
}

impl View for Package {
    type V = PackageModel;

    open spec fn view(&self) -> PackageModel {
        PackageModel { root: self.root@, name: self.name@, version: self.version@ }
    }
}

impl Clone for Package {
    fn clone(&self) -> (r: Self)
        ensures
            r@ == self@,
    {
        Package {
            root: self.root.clone(),
            name: self.name.clone(),
            version: self.version.clone(),
        }
    }
}

/// What is wrong with a package.
#[derive(Debug)]
pub enum PackageError {
    ManifestEscapes(String),
    Manifest(String),
    Identity(String),
    AbsoluteEntry(String),
    Entry(String),
}

/// What is wrong with a package, with its texts.
pub enum PackageFault {
    ManifestEscapes(Seq<char>),
    Manifest(Seq<char>),
    Identity(Seq<char>),
    AbsoluteEntry(Seq<char>),
    Entry(Seq<char>),
}

impl View for PackageError {
    type V = PackageFault;

    open spec fn view(&self) -> PackageFault {
        match self {
            PackageError::ManifestEscapes(path) => PackageFault::ManifestEscapes(path@),
            PackageError::Manifest(path) => PackageFault::Manifest(path@),
            PackageError::Identity(identity) => PackageFault::Identity(identity@),
            PackageError::AbsoluteEntry(name) => PackageFault::AbsoluteEntry(name@),
            PackageError::Entry(name) => PackageFault::Entry(name@),
        }
    }
}

/// The text shown for a fault.
pub open spec fn fault_text(fault: PackageFault) -> Seq<char> {
    match fault {
        PackageFault::ManifestEscapes(path) =>
            "package manifest escapes its package directory: "@ + path,
        PackageFault::Manifest(path) => "invalid package manifest "@ + path,
        PackageFault::Identity(identity) => "invalid Typst package identity `"@ + identity + "`"@,
        PackageFault::AbsoluteEntry(name) => "package `"@ + name
            + "` entrypoint must be relative to its package directory"@,
        PackageFault::Entry(name) => "package `"@ + name
            + "` entrypoint must be a file inside its package directory"@,
    }
}

impl PackageError {
    /// The text shown to the user.
    pub fn message(&self) -> (r: String)
        ensures
            r@ == fault_text(self@),
    {
        match self {
            PackageError::ManifestEscapes(path) => plus(
                "package manifest escapes its package directory: ",
                path.as_str(),
            ),
            PackageError::Manifest(path) => plus("invalid package manifest ", path.as_str()),
            PackageError::Identity(identity) => plus3(
                "invalid Typst package identity `",
                identity.as_str(),
                "`",
            ),
            PackageError::AbsoluteEntry(name) => plus3(
                "package `",
                name.as_str(),
                "` entrypoint must be relative to its package directory",
            ),
            PackageError::Entry(name) => plus3(
                "package `",
                name.as_str(),
                "` entrypoint must be a file inside its package directory",
            ),
        }
    }
}

/// What a package manifest tells: the name, the version and the entrypoint.
#[derive(Debug)]
pub struct Description {
    pub name: String,
    pub version: String,
    pub entrypoint: String,
}

/// What a package manifest tells, as texts.
pub struct DescriptionModel {
    pub name: Seq<char>,
    pub version: Seq<char>,
    pub entrypoint: Seq<char>,
}

impl View for Description {
    type V = DescriptionModel;

    open spec fn view(&self) -> DescriptionModel {
        DescriptionModel {
            name: self.name@,
            version: self.version@,
            entrypoint: self.entrypoint@,
        }
    }
}

/// The description in an optional one.
pub open spec fn opt_description(value: Option<Description>) -> Option<DescriptionModel> {
    match value {
        Some(description) => Some(description@),
        None => None,
    }
}

/// What `toml::from_str` reads of a text as the `PackageManifest` of `typst_syntax`: its name,
/// version and entrypoint, or none where it cannot be read as one.
pub uninterp spec fn described_in(text: Seq<char>) -> Option<(Seq<char>, Seq<char>, Seq<char>)>;

/// What a text describes.
pub open spec fn description_in(text: Seq<char>) -> Option<DescriptionModel> {
    match described_in(text) {
        Some((name, version, entrypoint)) => Some(DescriptionModel { name, version, entrypoint }),
        None => None,
    }
}

/// Calls `toml::from_str` for the `PackageManifest` of `typst_syntax`. The contract claims that
/// what it reads is a function of the text.
#[verifier::external_body]
fn read_description(text: &str) -> (r: Option<Description>)
    ensures
        match r {
            Some(d) => described_in(text@) == Some((d.name@, d.version@, d.entrypoint@)),
            None => described_in(text@) is None,
        },
{
    let manifest: PackageManifest = toml::from_str(text).ok()?;
    Some(
        Description {
            name: manifest.package.name.to_string(),
            version: manifest.package.version.to_string(),
            entrypoint: manifest.package.entrypoint.to_string(),
        },
    )
}

/// Whether a text is the identity of a package, as `PackageSpec::from_str` of `typst_syntax`
/// decides it.
pub uninterp spec fn valid_package(text: Seq<char>) -> bool;

/// Calls `PackageSpec::from_str`. The contract claims that its verdict is a function of the text,
/// and that the namespace, the name and the version in an identity can each stand as one component
/// of a path.
#[verifier::external_body]
fn is_valid_package(text: &str) -> (r: bool)
    ensures
        r == valid_package(text@),
        r ==> forall|namespace: Seq<char>, name: Seq<char>, version: Seq<char>|
            text@ == #[trigger] package_text(namespace, name, version) ==> plain_name(namespace)
                && plain_name(name) && plain_name(version),
{
    text.parse::<PackageSpec>().is_ok()
}

/// The identity of a package.
pub open spec fn package_text(
    namespace: Seq<char>,
    name: Seq<char>,
    version: Seq<char>,
) -> Seq<char> {
    "@"@ + namespace + "/"@ + name + ":"@ + version
}

/// The identity of a package.
pub fn package_label(namespace: &str, name: &str, version: &str) -> (r: String)
    ensures
        r@ == package_text(namespace@, name@, version@),
{
    let mut r = plus3("@", namespace, "/");
    r.append(name);
    r.append(":");
    r.append(version);
    r
}

/// The file that describes the package in a directory.
pub open spec fn manifest_path_in(root: Seq<char>) -> Seq<char> {
    joined_path(root, "typst.toml"@)
}

/// The file that describes the package in a directory.
pub fn manifest_path(root: &str) -> (r: String)
    ensures
        r@ == manifest_path_in(root@),
{
    join_path(root, "typst.toml")
}

/// Accepts a package manifest that lies in its package's directory; `target` is where it is, links
/// followed.
pub fn check_manifest(root: &str, target: &str) -> (r: Result<(), PackageError>)
    ensures
        match r {
            Ok(()) => within(target@, root@),
            Err(e) => !within(target@, root@) && e@ == PackageFault::ManifestEscapes(
                manifest_path_in(root@),
            ),
        },
{
    if starts_with_path(target, root) {
        Ok(())
    } else {
        Err(PackageError::ManifestEscapes(manifest_path(root)))
    }
}

/// What is wrong with a package as its manifest tells of it; `valid` tells whether its identity is
/// one.
pub open spec fn description_fault(
    root: Seq<char>,
    namespace: Seq<char>,
    description: Option<DescriptionModel>,
    valid: bool,
) -> Option<PackageFault> {
    match description {
        None => Some(PackageFault::Manifest(manifest_path_in(root))),
        Some(d) => if !valid {
            Some(PackageFault::Identity(package_text(namespace, d.name, d.version)))
        } else if absolute(d.entrypoint) {
            Some(PackageFault::AbsoluteEntry(d.name))
        } else {
            None
        },
    }
}

/// A package whose entrypoint is still to be found.
#[derive(Debug)]
pub struct Described {
    pub package: Package,
    pub entry: String,
}

/// The package in `root` that a description tells of, and where its entrypoint is looked for.
/// `valid` tells whether its identity is one.
pub fn describe(
    root: &str,
    namespace: &str,
    description: Option<Description>,
    valid: bool,
) -> (r: Result<Described, PackageError>)
    ensures
        match r {
            Ok(described) => {
                &&& description_fault(root@, namespace@, opt_description(description), valid) is None
                &&& described.package@ == (PackageModel {
                    root: root@,
                    name: description->0@.name,
                    version: description->0@.version,
                })
                &&& described.entry@ == joined_path(root@, description->0@.entrypoint)
            },
            Err(e) => description_fault(root@, namespace@, opt_description(description), valid)
                == Some(e@),
        },
{
    let d = match description {
        Some(d) => d,
        None => return Err(PackageError::Manifest(manifest_path(root))),
    };
    if !valid {
        return Err(
            PackageError::Identity(
                package_label(namespace, d.name.as_str(), d.version.as_str()),
            ),
        );
    }
    if is_absolute(d.entrypoint.as_str()) {
        return Err(PackageError::AbsoluteEntry(d.name));
    }
    let entry = join_path(root, d.entrypoint.as_str());
    Ok(Described { package: Package { root: root.to_owned(), name: d.name, version: d.version }, entry })
}

/// The description in a text makes an identity.
pub open spec fn identified(namespace: Seq<char>, text: Seq<char>) -> bool {
    match description_in(text) {
        Some(d) => valid_package(package_text(namespace, d.name, d.version)),
        None => false,
    }
}

/// The package in `root` that the text of its manifest tells of, and where its entrypoint is
/// looked for.
pub fn read(root: &str, namespace: &str, text: &str) -> (r: Result<Described, PackageError>)
    ensures
        match r {
            Ok(described) => {
                &&& description_fault(
                    root@,
                    namespace@,
                    description_in(text@),
                    identified(namespace@, text@),
                ) is None
                &&& described.package@ == (PackageModel {
                    root: root@,
                    name: description_in(text@)->0.name,
                    version: description_in(text@)->0.version,
                })
                &&& described.entry@ == joined_path(root@, description_in(text@)->0.entrypoint)
                &&& plain_name(namespace@)
                &&& plain_name(described.package@.name)
                &&& plain_name(described.package@.version)
            },
            Err(e) => description_fault(
                root@,
                namespace@,
                description_in(text@),
                identified(namespace@, text@),
            ) == Some(e@),
        },
{
    let description = read_description(text);
    let valid = match &description {
        Some(d) => is_valid_package(
            package_label(namespace, d.name.as_str(), d.version.as_str()).as_str(),
        ),
        None => false,
    };
    describe(root, namespace, description, valid)
}

/// Accepts a package whose entrypoint is a file in its directory; `target` is where the entrypoint
/// is, links followed.
pub fn check_entry(described: Described, target: &str, is_file: bool) -> (r: Result<
    Package,
    PackageError,
>)
    ensures
        match r {
            Ok(package) => within(target@, described.package@.root) && is_file && package
                == described.package,
            Err(e) => !(within(target@, described.package@.root) && is_file) && e@
                == PackageFault::Entry(described.package@.name),
        },
{
    if starts_with_path(target, described.package.root.as_str()) && is_file {
        Ok(described.package)
    } else {
        Err(PackageError::Entry(described.package.name))
    }
}

/// Whether an entry of a checkout is searched for packages.
pub fn is_searched(file_name: &str) -> (r: bool)
    ensures
        r == (file_name@ != ".git"@ && file_name@ != ".typm"@),
{
    !same(file_name, ".git") && !same(file_name, ".typm")
}

/// Whether an entry of a checkout describes a package.
pub fn is_manifest(file_name: &str, is_file: bool) -> (r: bool)
    ensures
        r == (file_name@ == "typst.toml"@ && is_file),
{
    same(file_name, "typst.toml") && is_file
}

/// A package has the wanted name, if one is wanted.
pub open spec fn wanted(package: PackageModel, name: Option<Seq<char>>) -> bool {
    match name {
        Some(name) => package.name == name,
        None => true,
    }
}

/// The places of the packages with the wanted name.
pub open spec fn matches_of(packages: Seq<Package>, name: Option<Seq<char>>) -> Seq<int>
    decreases packages.len(),
{
    if packages.len() == 0 {
        Seq::empty()
    } else {
        let front = matches_of(packages.drop_last(), name);
        if wanted(packages.last()@, name) {
            front.push(packages.len() - 1)
        } else {
            front
        }
    }
}

/// How a package is listed: by its name and its place in the checkout.
pub open spec fn listing(root: Seq<char>, package: PackageModel) -> Seq<char> {
    package.name + " ("@ + (if within(package.root, root) {
        path_text(parts_of(package.root).skip(parts_of(root).len() as int))
    } else {
        package.root
    }) + ")"@
}

/// The packages as a list.
pub open spec fn listings(root: Seq<char>, packages: Seq<Package>) -> Seq<char> {
    joined(packages.map_values(|p: Package| listing(root, p@)), ", "@)
}

/// The text for a search that found no package.
pub open spec fn none_found_text(
    name: Option<Seq<char>>,
    all: Seq<char>,
    failures: Seq<Seq<char>>,
) -> Seq<char> {
    "no matching package"@ + (match name {
        Some(name) => " `"@ + name + "`"@,
        None => ""@,
    }) + " in Git repository; candidates: "@ + (if all.len() == 0 {
        "none"@
    } else {
        all
    }) + (if failures.len() == 0 {
        ""@
    } else {
        "\n"@ + joined(failures, "\n"@)
    })
}

/// The text for a search that found several packages.
pub open spec fn ambiguous_text(all: Seq<char>) -> Seq<char> {
    "ambiguous Git package; specify a unique package name; candidates: "@ + all
}

/// How a package is listed.
fn list_entry(root: &str, package: &Package) -> (r: String)
    ensures
        r@ == listing(root@, package@),
{
    let place = match strip_prefix(package.root.as_str(), root) {
        Some(place) => place,
        None => package.root.clone(),
    };
    let mut r = plus3(package.name.as_str(), " (", place.as_str());
    r.append(")");
    r
}

/// The packages as a list.
fn list_all(root: &str, packages: &Vec<Package>) -> (r: String)
    ensures
        r@ == listings(root@, packages@),
{
    let mut entries: Vec<String> = Vec::new();
    let ghost wanted = packages@.map_values(|p: Package| listing(root@, p@));
    let mut i: usize = 0;
    assert(texts(entries@) =~= wanted.take(0));
    while i < packages.len()
        invariant
            i <= packages@.len(),
            wanted == packages@.map_values(|p: Package| listing(root@, p@)),
            texts(entries@) == wanted.take(i as int),
        decreases packages@.len() - i,
    {
        let entry = list_entry(root, &packages[i]);
        proof {
            crate::text::lemma_texts_push(entries@, entry);
            assert(wanted.take(i + 1) =~= wanted.take(i as int).push(entry@));
        }
        entries.push(entry);
        i = i + 1;
    }
    assert(wanted.take(i as int) =~= wanted);
    join(&entries, ", ")
}

/// The only package with the wanted name among those found in a checkout. `failures` tell of the
/// manifests that could not be read.
pub fn discover(
    root: &str,
    name: Option<&str>,
    packages: &Vec<Package>,
    failures: &Vec<String>,
) -> (r: Result<Package, String>)
    ensures
        ({
            let found = matches_of(packages@, opt_str(name));
            let all = listings(root@, packages@);
            match r {
                Ok(package) => found.len() == 1 && package@ == packages@[found[0]]@,
                Err(text) => if found.len() == 0 {
                    text@ == none_found_text(opt_str(name), all, texts(failures@))
                } else {
                    found.len() > 1 && text@ == ambiguous_text(all)
                },
            }
        }),
{
    let all = list_all(root, packages);
    let mut count: usize = 0;
    let mut chosen: usize = 0;
    let mut i: usize = 0;
    assert(packages@.take(0) =~= Seq::<Package>::empty());
    while i < packages.len()
        invariant
            i <= packages@.len(),
            count <= i,
            count == matches_of(packages@.take(i as int), opt_str(name)).len(),
            count > 0 ==> chosen < i && chosen == matches_of(
                packages@.take(i as int),
                opt_str(name),
            )[0],
        decreases packages@.len() - i,
    {
        proof {
            assert(packages@.take(i + 1).drop_last() =~= packages@.take(i as int));
            assert(packages@.take(i + 1).last() == packages@[i as int]);
        }
        let matching = match name {
            Some(name) => same(packages[i].name.as_str(), name),
            None => true,
        };
        if matching {
            if count == 0 {
                chosen = i;
            }
            count = count + 1;
        }
        i = i + 1;
    }
    assert(packages@.take(i as int) =~= packages@);
    if count == 1 {
        return Ok(packages[chosen].clone());
    }
    if count > 1 {
        return Err(
            plus("ambiguous Git package; specify a unique package name; candidates: ", all.as_str()),
        );
    }
    let mut text = "no matching package".to_owned();
    match name {
        Some(name) => {
            let quoted = plus3(" `", name, "`");
            text.append(quoted.as_str());
        },
        None => text.append(""),
    }
    text.append(" in Git repository; candidates: ");
    if all.as_str().is_empty() {
        text.append("none");
    } else {
        text.append(all.as_str());
    }
    if failures.len() == 0 {
        text.append("");
    } else {
        let lines = plus("\n", join(failures, "\n").as_str());
        text.append(lines.as_str());
    }
    Err(text)
}

/// The places of the packages with the wanted name are those at which one has it, each once.
proof fn lemma_matches(packages: Seq<Package>, name: Option<Seq<char>>)
    ensures
        forall|i: int| #[trigger]
            matches_of(packages, name).contains(i) <==> 0 <= i < packages.len() && (name is Some
                ==> packages[i]@.name == name->0),
        matches_of(packages, name).no_duplicates(),
    decreases packages.len(),
{
    let found = matches_of(packages, name);
    if packages.len() == 0 {
        assert(found =~= Seq::<int>::empty());
    } else {
        let shorter = packages.drop_last();
        let front = matches_of(shorter, name);
        let last = packages.len() - 1;
        lemma_matches(shorter, name);
        assert(!front.contains(last));
        assert forall|i: int| #[trigger] found.contains(i) <==> 0 <= i < packages.len() && (name is Some
            ==> packages[i]@.name == name->0) by {
            assert(front.contains(i) <==> 0 <= i < shorter.len() && (name is Some
                ==> shorter[i]@.name == name->0));
            if found != front {
                lemma_push_contains(front, last, i);
            }
        }
    }
}

/// A search succeeds exactly where one place of the list, and no other, holds a package of the name
/// asked for, any name where none is, and gives that package. Where several do it is told as ambiguous,
/// with all that were found, and where none does as without a match.
pub proof fn lemma_only_match_is_found(
    root: &str,
    name: Option<&str>,
    packages: &Vec<Package>,
    failures: &Vec<String>,
    r: Result<Package, String>,
    i: int,
)
    requires
        call_ensures(discover, (root, name, packages, failures), r),
        0 <= i < packages@.len(),
        name is Some ==> packages@[i]@.name == name->0@,
    ensures
        r matches Ok(package) ==> package@ == packages@[i]@,
        r is Ok ==> forall|j: int|
            0 <= j < packages@.len() && j != i ==> name is Some && (#[trigger] packages@[j])@.name
                != name->0@,
        (forall|j: int|
            0 <= j < packages@.len() && j != i ==> name is Some && (#[trigger] packages@[j])@.name
                != name->0@) ==> r is Ok,
        r matches Err(text) ==> has_prefix(
            text@,
            "ambiguous Git package; specify a unique package name; candidates: "@,
        ),
{
    let found = matches_of(packages@, opt_str(name));
    lemma_matches(packages@, opt_str(name));
    assert(found.contains(i));
    let k = choose|k: int| 0 <= k < found.len() && found[k] == i;
    assert forall|j: int| found.contains(j) && j != i implies found.len() > 1 by {
        let l = choose|l: int| 0 <= l < found.len() && found[l] == j;
        assert(found[l] == j);
    }
    if found.len() == 1 {
        assert(found[0] == i);
        if name is None {
            let j: int = if i == 0 {
                1
            } else {
                0
            };
            assert(found.contains(j) ==> j == i);
            assert(packages@.len() == 1);
        } else {
            assert forall|j: int| 0 <= j < packages@.len() && j != i implies (
            #[trigger] packages@[j])@.name != name->0@ by {
                assert(!found.contains(j));
            }
        }
    } else {
        let l: int = if k == 0 {
            1
        } else {
            0
        };
        assert(found.contains(found[l]));
        let j = found[l];
        assert(j != i);
        assert(0 <= j < packages@.len());
        assert(name is Some ==> packages@[j]@.name == name->0@);
        assert(packages@.contains(packages@[j]));
        let head = "ambiguous Git package; specify a unique package name; candidates: "@;
        if let Err(text) = r {
            assert(text@.subrange(0, head.len() as int) =~= head);
        }
    }
}

/// A search for a name that no package has fails, and its message names what was asked for.
pub proof fn lemma_no_match_is_told(
    root: &str,
    name: Option<&str>,
    packages: &Vec<Package>,
    failures: &Vec<String>,
    r: Result<Package, String>,
)
    requires
        call_ensures(discover, (root, name, packages, failures), r),
        forall|j: int|
            0 <= j < packages@.len() ==> name is Some && (#[trigger] packages@[j])@.name
                != name->0@,
    ensures
        r matches Err(text) && has_prefix(text@, "no matching package"@ + (match name {
            Some(name) => " `"@ + name@ + "`"@,
            None => ""@,
        })),
{
    let found = matches_of(packages@, opt_str(name));
    lemma_matches(packages@, opt_str(name));
    if found.len() > 0 {
        assert(found.contains(found[0]));
    }
    let head = "no matching package"@ + (match name {
        Some(name) => " `"@ + name@ + "`"@,
        None => ""@,
    });
    if let Err(text) = r {
        assert(text@.subrange(0, head.len() as int) =~= head);
    }
}

} // verus!
