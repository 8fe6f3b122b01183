//! Keeping: which pins stay as they were, what stays of a manifest, and what must stay in its repository.

use vstd::prelude::*;

use crate::git::cache::Checkout;
use crate::git::{source_id, GitSourceSpec};
use crate::manifest::{Dependency, ManifestDocument, ManifestError};
use crate::ops::{remove, Removal, RemoveOptions};
use crate::path::{parts_of, Part};
use crate::resolver::visit::Resolver;
use crate::resolver::Resolution;
use crate::sources::{
    pin_models, GitSource, Place, RefreshModel, SourceError, SourceFault, SourceMap,
};
use crate::text::texts;

verus! {

broadcast use vstd::string::group_string_axioms;

/// A source that was pinned before stays at its commit, unless it is asked for anew: always where none is,
/// and where another one is. Every source is pinned under its own identity.
pub proof fn lemma_pins_stay(
    resolver: &Resolver,
    r: Result<Resolution, String>,
    id: Seq<char>,
)
    requires
        call_ensures(Resolver::resolve, (resolver,), r),
        r is Ok,
        r->Ok_0.lock.sources@.contains_key(id),
    ensures
        ({
            let before = resolver.sources.previous_pins@;
            let now = r->Ok_0.lock.sources@[id];
            let policy = resolver.sources.refresh@;
            &&& source_id(now.source@) == id
            &&& before.contains_key(id) && before[id].source@ == now.source@ && policy
                == RefreshModel::Preserve ==> now.commit@ == before[id].commit@
            &&& before.contains_key(id) && before[id].source@ == now.source@ && (
            policy matches RefreshModel::Source(other) && other != id) ==> now.commit@
                == before[id].commit@
        }),
{
    let lock = r->Ok_0.lock;
    let pins = pin_models(lock.sources@);
    assert(pins.contains_key(id));
    assert(pins[id] == lock.sources@[id]@);
    let before = resolver.sources.previous_pins@;
    if before.contains_key(id) {
        assert(pin_models(before)[id] == before[id]@);
    }
}

/// The place at which the package is looked for that tells a dependency's name is the one at which a
/// dependency of the project is located.
pub proof fn lemma_name_is_found_where_located(
    resolver: &Resolver,
    dependency: &Dependency,
    base: &str,
    expected: Option<&str>,
    r: Result<Place, SourceError>,
    located: Result<Place, SourceError>,
)
    requires
        call_ensures(Resolver::infer_name, (resolver, dependency, base, expected), r),
        call_ensures(
            SourceMap::locate,
            (&resolver.sources, dependency, base, None, expected),
            located,
        ),
    ensures
        r is Ok <==> located is Ok,
        r is Ok ==> r->Ok_0@ == located->Ok_0@,
{
}

/// A source that was brought here is there under its identity, with its files and its commit, and nothing
/// else of the walk or of the other sources changes.
pub proof fn lemma_brought_is_there()
    ensures
        forall|r: &mut Resolver, specification: GitSourceSpec, checkout: Checkout|
            #[trigger] call_ensures(Resolver::register, (r, specification, checkout), ()) ==> {
                let id = source_id(specification@);
                &&& final(r)@ == (*r)@
                &&& final(r).sources.providers@.contains_key(id)
                &&& final(r).sources.providers@[id].specification == specification
                &&& final(r).sources.providers@[id].checkout == checkout
                &&& forall|other: Seq<char>|
                    other != id ==> (#[trigger] final(r).sources.providers@.contains_key(other)
                        <==> (*r).sources.providers@.contains_key(other))
                &&& forall|other: Seq<char>|
                    other != id && #[trigger] (*r).sources.providers@.contains_key(other)
                        ==> final(r).sources.providers@[other] == (*r).sources.providers@[other]
                &&& final(r).sources.previous_pins == (*r).sources.previous_pins
                &&& final(r).sources.refresh == (*r).sources.refresh
            },
{
}

/// What a repository declares by a path, and the manifest of a package in it, must lie in its files.
pub proof fn lemma_stays_in_its_repository(
    source: &GitSource,
    declared: &str,
    target: &str,
    package_root: &str,
    path: Result<(), SourceError>,
    manifest: Result<(), SourceError>,
)
    requires
        call_ensures(GitSource::check_path, (source, declared, target), path),
        call_ensures(GitSource::check_manifest, (source, package_root, target), manifest),
    ensures
        path is Ok <==> exists|rest: Seq<Part>|
            parts_of(target@) == #[trigger] (parts_of(source.checkout.root@) + rest),
        manifest is Ok <==> exists|rest: Seq<Part>|
            parts_of(target@) == #[trigger] (parts_of(source.checkout.root@) + rest),
        path matches Err(e) ==> e@ == SourceFault::PathEscapes(declared@),
{
    crate::laws::describing::lemma_prefix(parts_of(source.checkout.root@), parts_of(target@));
}

/// Dependencies are removed exactly where all of them are declared: then those are left that were not
/// named, each as it was. Else one is told that is not declared. A dependency that was not named stays
/// in either case. Removing asks for no source anew and writes the manifest.
pub proof fn lemma_removed_as_named()
    ensures
        forall|d: &mut ManifestDocument, options: &RemoveOptions, r: Result<Removal, ManifestError>|
            #[trigger] call_ensures(remove, (d, options), r) ==> {
                let names = texts(options.names@);
                &&& r is Ok <==> forall|name: Seq<char>| #[trigger]
                    names.contains(name) ==> (*d).manifest@.contains_key(name)
                &&& r is Ok ==> forall|name: Seq<char>| #[trigger]
                    final(d).manifest@.contains_key(name) <==> (*d).manifest@.contains_key(name)
                        && !names.contains(name)
                &&& forall|name: Seq<char>|
                    !names.contains(name) && #[trigger] (*d).manifest@.contains_key(name)
                        ==> final(d).manifest@.contains_key(name) && final(d).manifest@[name]
                        == (*d).manifest@[name]
                &&& r matches Err(e) ==> (e matches ManifestError::NotInManifest(missing)
                    && names.contains(missing@) && !(*d).manifest@.contains_key(missing@))
                &&& r matches Ok(removal) ==> {
                    &&& removal.work.refresh@ == RefreshModel::Preserve
                    &&& removal.work.writes_manifest
                    &&& forall|name: Seq<char>| #[trigger]
                        texts(removal.names@).contains(name) <==> names.contains(name)
                }
            },
{
    assert forall|d: &mut ManifestDocument, options: &RemoveOptions, r: Result<Removal, ManifestError>|
        #[trigger] call_ensures(remove, (d, options), r) implies {
        let names = texts(options.names@);
        &&& r is Ok <==> forall|name: Seq<char>| #[trigger]
            names.contains(name) ==> (*d).manifest@.contains_key(name)
        &&& r is Ok ==> forall|name: Seq<char>| #[trigger]
            final(d).manifest@.contains_key(name) <==> (*d).manifest@.contains_key(name)
                && !names.contains(name)
        &&& forall|name: Seq<char>|
            !names.contains(name) && #[trigger] (*d).manifest@.contains_key(name)
                ==> final(d).manifest@.contains_key(name) && final(d).manifest@[name]
                == (*d).manifest@[name]
        &&& r matches Err(e) ==> (e matches ManifestError::NotInManifest(missing)
            && names.contains(missing@) && !(*d).manifest@.contains_key(missing@))
        &&& r matches Ok(removal) ==> {
            &&& removal.work.refresh@ == RefreshModel::Preserve
            &&& removal.work.writes_manifest
            &&& forall|name: Seq<char>| #[trigger]
                texts(removal.names@).contains(name) <==> names.contains(name)
        }
    } by {
        let names = texts(options.names@);
        let before = (*d).manifest@;
        let after = final(d).manifest@;
        if r is Ok {
            assert forall|name: Seq<char>| #[trigger]
                after.contains_key(name) <==> before.contains_key(name) && !names.contains(name) by {
                assert(names.to_set().contains(name) <==> names.contains(name));
            }
            assert forall|name: Seq<char>|
                !names.contains(name) && #[trigger] before.contains_key(name) implies after.contains_key(
            name) && after[name] == before[name] by {
                assert(names.to_set().contains(name) <==> names.contains(name));
            }
        } else {
            let (list, k) = choose|list: Seq<Seq<char>>, k: int|
                {
                    &&& crate::ops::name_set(list, names)
                    &&& #[trigger] crate::ops::first_missing(before, list, k)
                    &&& r->Err_0 matches ManifestError::NotInManifest(missing)
                    &&& missing@ == list[k]
                    &&& after == crate::ops::left_without(before, list.take(k))
                };
            assert(list.contains(list[k]));
            assert(names.contains(list[k]));
            assert forall|name: Seq<char>|
                !names.contains(name) && #[trigger] before.contains_key(name) implies after.contains_key(
            name) && after[name] == before[name] by {
                assert(!list.contains(name));
                if list.take(k).contains(name) {
                    let j = choose|j: int| 0 <= j < k && list.take(k)[j] == name;
                    assert(list[j] == name);
                }
                assert(list.take(k).to_set().contains(name) <==> list.take(k).contains(name));
            }
        }
    }
}

/// Where a walk stands is told from the direct dependency on down: what is being resolved for the project,
/// and for each package on the way what it depends on.
pub proof fn lemma_told_where_it_stands(resolver: &Resolver, r: Vec<String>, k: int)
    requires
        call_ensures(Resolver::context, (resolver,), r),
        0 <= k < resolver@.stack.len(),
    ensures
        r@.len() == resolver@.stack.len(),
        ({
            let list = resolver@.stack[k];
            let name = list.names[list.children.len() as int];
            match list.node {
                None => r@[k]@ == "while resolving direct dependency `"@ + name + "`"@,
                Some(node) => r@[k]@ == "@"@ + resolver@.nodes[node as int].namespace + "/"@
                    + resolver@.nodes[node as int].package.name + ":"@
                    + resolver@.nodes[node as int].package.version + " depends on `"@ + name + "`"@,
            }
        }),
{
    assert(texts(r@).len() == r@.len());
    assert(texts(r@)[k] == r@[k]@);
}

} // verus!
