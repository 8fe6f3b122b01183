//! Describing: which package a directory holds, and which entries of a checkout are searched.

use vstd::prelude::*;

use crate::laws::surroundings::{lemma_file_in, lemma_plain};
use crate::package::{
    check_entry, check_manifest, described_in, is_manifest, is_searched, manifest_path,
    package_label, read, valid_package, Described, Package, PackageError, PackageFault,
};
use crate::path::{body, lemma_joined_parts, parts_of, Part};

verus! {

broadcast use vstd::string::group_string_axioms;

/// A package is read exactly where its manifest can be read, `@namespace/name:version` is the identity
/// of a package, and its entrypoint is not absolute. It lies where it was read, has the name and the
/// version of its manifest, and its entrypoint is looked for below it. The first thing wrong is told.
pub proof fn lemma_described_as_written(
    root: &str,
    namespace: &str,
    text: &str,
    r: Result<Described, PackageError>,
)
    requires
        root@.len() > 0 && root@[0] == '/',
        call_ensures(read, (root, namespace, text), r),
    ensures
        match described_in(text@) {
            None => r matches Err(e) && (e@ matches PackageFault::Manifest(path) && parts_of(path)
                == parts_of(root@).push(Part::Name("typst.toml"@))),
            Some((name, version, entrypoint)) => {
                let identity = "@"@ + namespace@ + "/"@ + name + ":"@ + version;
                &&& r is Ok <==> valid_package(identity) && !(entrypoint.len() > 0 && entrypoint[0]
                    == '/')
                &&& !valid_package(identity) ==> (r matches Err(e) && e@ == PackageFault::Identity(
                    identity,
                ))
                &&& valid_package(identity) && r is Err ==> r->Err_0@ == PackageFault::AbsoluteEntry(
                    name,
                )
                &&& r matches Ok(described) ==> {
                    &&& described.package.root@ == root@
                    &&& described.package.name@ == name
                    &&& described.package.version@ == version
                    &&& parts_of(described.entry@) == parts_of(root@) + body(entrypoint)
                }
            },
        },
{
    reveal_strlit("typst.toml");
    lemma_plain("typst.toml"@);
    lemma_file_in(root@, "typst.toml"@);
    if let Some((name, version, entrypoint)) = described_in(text@) {
        lemma_joined_parts(root@, entrypoint);
    }
}

/// The entrypoint that was found must be a file that lies in the package's directory, and the manifest
/// must lie there too; then the package is the one described.
pub proof fn lemma_inside_its_directory(
    described: Described,
    target: &str,
    is_file: bool,
    r: Result<Package, PackageError>,
    root: &str,
    manifest: &str,
    checked: Result<(), PackageError>,
)
    requires
        call_ensures(check_entry, (described, target, is_file), r),
        call_ensures(check_manifest, (root, manifest), checked),
    ensures
        r is Ok <==> is_file && exists|rest: Seq<Part>|
            parts_of(target@) == #[trigger] (parts_of(described.package.root@) + rest),
        r matches Ok(package) ==> package == described.package,
        r matches Err(e) ==> e@ == PackageFault::Entry(described.package.name@),
        checked is Ok <==> exists|rest: Seq<Part>|
            parts_of(manifest@) == #[trigger] (parts_of(root@) + rest),
{
    lemma_prefix(parts_of(described.package.root@), parts_of(target@));
    lemma_prefix(parts_of(root@), parts_of(manifest@));
}

pub(crate) proof fn lemma_prefix(front: Seq<Part>, all: Seq<Part>)
    ensures
        front.is_prefix_of(all) <==> exists|rest: Seq<Part>| all == #[trigger] (front + rest),
{
    if front.is_prefix_of(all) {
        let rest = all.skip(front.len() as int);
        assert(all =~= front + rest);
    }
    if exists|rest: Seq<Part>| all == #[trigger] (front + rest) {
        let rest = choose|rest: Seq<Part>| all == #[trigger] (front + rest);
        assert(all.subrange(0, front.len() as int) =~= front);
    }
}

/// Of a checkout everything is searched but `.git` and `.typm`, and only a file of the name
/// `typst.toml` describes a package.
pub proof fn lemma_searched(file_name: &str, is_file: bool, searched: bool, describes: bool)
    requires
        call_ensures(is_searched, (file_name,), searched),
        call_ensures(is_manifest, (file_name, is_file), describes),
    ensures
        !searched <==> file_name@ == ".git"@ || file_name@ == ".typm"@,
        describes <==> is_file && file_name@ == "typst.toml"@,
{
}

/// The label of a package tells its namespace, its name and its version, and its manifest is the
/// `typst.toml` in its directory.
pub proof fn lemma_label(
    namespace: &str,
    name: &str,
    version: &str,
    label: String,
    root: &str,
    path: String,
)
    requires
        root@.len() > 0 && root@[0] == '/',
        call_ensures(package_label, (namespace, name, version), label),
        call_ensures(manifest_path, (root,), path),
    ensures
        label@ == "@"@ + namespace@ + "/"@ + name@ + ":"@ + version@,
        parts_of(path@) == parts_of(root@).push(Part::Name("typst.toml"@)),
{
    reveal_strlit("typst.toml");
    lemma_plain("typst.toml"@);
    lemma_file_in(root@, "typst.toml"@);
}

} // verus!
