//! Locating: where the package of a dependency is looked for, what it is known by, and at which commit
//! its source is brought here.

use vstd::prelude::*;
use vstd::utf8::encode_utf8;

use crate::hashing::{blake3_hex, fits, lemma_parts_message_injective, parts_message};
use crate::laws::declaring::is_shared;
use crate::manifest::{Dependency, DependencyError};
use crate::package::Package;
use crate::path::{
    absolute, body, joined_path, lemma_absolute_steps, lemma_joined_parts, lemma_steps_read_back,
    lemma_tidied_is_tidy, parts_of, path_text,
};
use crate::sources::{
    all_fit, confirm, directory_in, local_identity, normalize_git_location, opt_source, Acquisition,
    GitSource, LocatedPackage, PackageIdentity, Place, RefreshPolicy, SourceError, SourceId,
    SourceMap, SourceModel,
};
use crate::git::{source_id, GitSourceSpec};
use crate::text::opt_text;

verus! {

broadcast use vstd::string::group_string_axioms;

/// A location with a `:` is kept as it is; any other is a directory, read against the base, and made
/// absolute.
pub proof fn lemma_normalized_location(location: &str, base: &str, r: String)
    requires
        call_ensures(normalize_git_location, (location, base), r),
        absolute(base@),
    ensures
        location@.contains(':') ==> r@ == location@,
        !location@.contains(':') ==> absolute(r@) && parts_of(r@) == (if location@.len() > 0
            && location@[0] == '/' {
            parts_of(location@)
        } else {
            parts_of(base@) + body(location@)
        }),
{
    lemma_joined_parts(base@, location@);
    lemma_tidied_is_tidy(joined_path(base@, location@));
}

/// A dependency is looked for where it says: one from a repository in the repository it names, at exactly
/// the branch, the tag and the revision it declares; one from a directory in that directory, read against
/// that of the manifest, and within the repository that the depending package is in, if it is in one.
pub proof fn lemma_located_as_declared(
    map: &SourceMap,
    dependency: &Dependency,
    base: &str,
    parent: Option<&SourceId>,
    expected: Option<&str>,
    r: Result<Place, SourceError>,
    place: Place,
)
    requires
        call_ensures(SourceMap::locate, (map, dependency, base, parent, expected), r),
        r == Ok::<Place, SourceError>(place),
        absolute(base@),
    ensures
        match place {
            Place::Git(source) => {
                &&& dependency@.git is Some
                &&& source@.branch == dependency@.branch
                &&& source@.tag == dependency@.tag
                &&& source@.rev == dependency@.rev
                &&& dependency@.git->0.contains(':') ==> source@.git == dependency@.git->0
                &&& !dependency@.git->0.contains(':') ==> absolute(source@.git) && parts_of(
                    source@.git,
                ) == (if dependency@.git->0.len() > 0 && dependency@.git->0[0] == '/' {
                    parts_of(dependency@.git->0)
                } else {
                    parts_of(base@) + body(dependency@.git->0)
                })
            },
            Place::Inside { id, declared, path } => {
                &&& dependency@.git is None
                &&& opt_source(parent) == Some(SourceModel::Git(id@))
                &&& dependency@.path == Some(declared@)
                &&& !(declared@.len() > 0 && declared@[0] == '/')
                &&& parts_of(path@) == parts_of(base@) + body(declared@)
            },
            Place::Local(path) => {
                &&& dependency@.git is None
                &&& dependency@.path is Some
                &&& !(opt_source(parent) matches Some(SourceModel::Git(_)))
                &&& dependency@.path->0.len() > 0 && dependency@.path->0[0] == '/' ==> path@
                    == dependency@.path->0
                &&& !(dependency@.path->0.len() > 0 && dependency@.path->0[0] == '/') ==> parts_of(
                    path@,
                ) == parts_of(base@) + body(dependency@.path->0)
            },
        },
{
    if dependency@.git is Some {
        lemma_joined_parts(base@, dependency@.git->0);
        lemma_tidied_is_tidy(joined_path(base@, dependency@.git->0));
    } else {
        lemma_joined_parts(base@, dependency@.path->0);
    }
}

/// An accepted dependency is located, but for a package in a repository that declares an absolute
/// directory; one that is not accepted never is.
pub proof fn lemma_located_if_accepted(
    map: &SourceMap,
    dependency: &Dependency,
    base: &str,
    parent: Option<&SourceId>,
    expected: Option<&str>,
    accepted: Result<(), DependencyError>,
    r: Result<Place, SourceError>,
)
    requires
        call_ensures(SourceMap::locate, (map, dependency, base, parent, expected), r),
        call_ensures(Dependency::validate, (dependency, expected), accepted),
    ensures
        r is Ok <==> accepted is Ok && !(dependency@.git is None && (opt_source(
            parent,
        ) matches Some(SourceModel::Git(_))) && dependency@.path->0.len() > 0
            && dependency@.path->0[0] == '/'),
{
}

/// A source is brought here at the commit it was pinned to, where there is a pin of that very source; it is
/// asked for anew exactly where the policy says so. One that is here already is not brought again.
pub proof fn lemma_brought_at_its_pin(
    map: &SourceMap,
    source: &GitSourceSpec,
    r: Option<Acquisition>,
    refreshes: bool,
    id: &str,
)
    requires
        call_ensures(SourceMap::load_git, (map, source), r),
        id@ == source_id(source@),
        call_ensures(RefreshPolicy::refreshes, (&map.refresh, id), refreshes),
    ensures
        r is None <==> map.providers@.contains_key(id@),
        r is Some ==> r->0.refresh == refreshes,
        r is Some ==> (r->0.locked is Some <==> map.previous_pins@.contains_key(id@)
            && map.previous_pins@[id@].source@ == source@),
        r is Some && r->0.locked is Some ==> opt_text(r->0.locked) == Some(
            map.previous_pins@[id@].commit@,
        ),
{
    if map.previous_pins@.contains_key(id@) {
        assert(crate::sources::pin_models(map.previous_pins@)[id@] == map.previous_pins@[id@]@);
    }
}

/// Which sources a policy asks for anew: none, the one it names, or all.
pub proof fn lemma_policy(policy: &RefreshPolicy, id: &str, r: bool)
    requires
        call_ensures(RefreshPolicy::refreshes, (policy, id), r),
    ensures
        *policy is Preserve ==> !r,
        *policy is All ==> r,
        *policy matches RefreshPolicy::Source(own) ==> (r <==> own@ == id@),
{
}

/// A package is pinned to its source at the commit whose files it was found in, and its directory leads
/// from those files to it. A package outside of them is refused.
pub proof fn lemma_pinned_where_found(
    source: &GitSource,
    root: &str,
    r: Result<PackageIdentity, SourceError>,
)
    requires
        call_ensures(GitSource::identity, (source, root), r),
        absolute(source.checkout.root@),
        absolute(root@),
    ensures
        r is Ok <==> parts_of(source.checkout.root@).is_prefix_of(parts_of(root@)),
        r is Ok ==> {
            let pin = r->Ok_0.pin;
            &&& pin is Some
            &&& pin->0.source_id@ == source_id(source.specification@)
            &&& pin->0.source.source@ == source.specification@
            &&& pin->0.source.commit@ == source.checkout.commit@
            &&& parts_of(joined_path(source.checkout.root@, pin->0.directory@)) == parts_of(root@)
        },
{
    if r is Ok {
        let a = parts_of(source.checkout.root@);
        let b = parts_of(root@);
        let rest = b.skip(a.len() as int);
        lemma_absolute_steps(source.checkout.root@);
        lemma_absolute_steps(root@);
        assert forall|i: int| 0 <= i < rest.len() implies crate::path::is_step(
            #[trigger] rest[i],
        ) by {
            assert(rest[i] == b[i + a.len()]);
        }
        lemma_steps_read_back(rest);
        lemma_joined_parts(source.checkout.root@, path_text(rest));
        assert(a + rest =~= b);
    }
}

/// Two lists of texts with one digest are the same, unless two messages share it.
pub(crate) proof fn lemma_digest_of(a: Seq<Seq<char>>, b: Seq<Seq<char>>, digest: Seq<char>)
    requires
        all_fit(a),
        all_fit(b),
        blake3_hex(parts_message(a)) == digest,
        blake3_hex(parts_message(b)) == digest,
    ensures
        a == b || is_shared(digest),
{
    if parts_message(a) == parts_message(b) {
        lemma_parts_message_injective(a, b);
    } else {
        assert(blake3_hex(parts_message(a)) == digest && blake3_hex(parts_message(b)) == digest);
    }
}

/// A text can be held by a machine.
pub open spec fn text_fits(text: Seq<char>) -> bool {
    fits(encode_utf8(text))
}

/// Packages in Git sources have one location exactly where they lie in the same directory of the same
/// repository at the same commit, whatever selectors they were reached by, unless two messages share the
/// digest.
pub proof fn lemma_git_location_identity(
    a: &GitSource,
    a_root: &str,
    x: PackageIdentity,
    b: &GitSource,
    b_root: &str,
    y: PackageIdentity,
)
    requires
        call_ensures(GitSource::identity, (a, a_root), Ok(x)),
        call_ensures(GitSource::identity, (b, b_root), Ok(y)),
        text_fits(a.specification@.git) && text_fits(b.specification@.git),
        text_fits(a.checkout.commit@) && text_fits(b.checkout.commit@),
        text_fits(x.pin->0.directory@) && text_fits(y.pin->0.directory@),
    ensures
        ({
            let same_place = a.specification@.git == b.specification@.git && a.checkout.commit@
                == b.checkout.commit@ && x.pin->0.directory@ == y.pin->0.directory@;
            &&& same_place ==> x.location_id@ == y.location_id@
            &&& x.location_id@ == y.location_id@ ==> same_place || is_shared(x.location_id@)
        }),
{
    let p = seq![a.specification@.git, a.checkout.commit@, x.pin->0.directory@];
    let q = seq![b.specification@.git, b.checkout.commit@, y.pin->0.directory@];
    assert(x.pin->0.directory@ == directory_in(a@.root, a_root@));
    assert(y.pin->0.directory@ == directory_in(b@.root, b_root@));
    if x.location_id@ == y.location_id@ {
        lemma_digest_of(p, q, x.location_id@);
        if p == q {
            assert(p[0] == q[0] && p[1] == q[1] && p[2] == q[2]);
        }
    }
}

/// Packages are known by one identity exactly where they are in one namespace and known by one key; and
/// the key of a package in a Git source tells its source and its location. Packages on this machine are
/// told apart by their directories, and from those in Git sources. Each holds unless two messages share the
/// digest.
pub proof fn lemma_package_identity(
    a: &PackageIdentity,
    a_namespace: &str,
    x: String,
    b: &PackageIdentity,
    b_namespace: &str,
    y: String,
)
    requires
        call_ensures(PackageIdentity::package_id, (a, a_namespace), x),
        call_ensures(PackageIdentity::package_id, (b, b_namespace), y),
        text_fits(a.source_key@) && text_fits(b.source_key@),
        text_fits(a_namespace@) && text_fits(b_namespace@),
    ensures
        ({
            let same = a.source_key@ == b.source_key@ && a_namespace@ == b_namespace@;
            &&& same ==> x@ == y@
            &&& x@ == y@ ==> same || is_shared(x@)
        }),
{
    let p = seq![a.source_key@, a_namespace@];
    let q = seq![b.source_key@, b_namespace@];
    if x@ == y@ {
        lemma_digest_of(p, q, x@);
        if p == q {
            assert(p[0] == q[0] && p[1] == q[1]);
        }
    }
}

/// The key of a package in a Git source tells its source, selectors included, and its location.
pub proof fn lemma_git_key(
    a: &GitSource,
    a_root: &str,
    x: PackageIdentity,
    b: &GitSource,
    b_root: &str,
    y: PackageIdentity,
)
    requires
        call_ensures(GitSource::identity, (a, a_root), Ok(x)),
        call_ensures(GitSource::identity, (b, b_root), Ok(y)),
        text_fits(source_id(a.specification@)) && text_fits(source_id(b.specification@)),
        text_fits(x.location_id@) && text_fits(y.location_id@),
    ensures
        ({
            let same = source_id(a.specification@) == source_id(b.specification@)
                && x.location_id@ == y.location_id@;
            &&& same ==> x.source_key@ == y.source_key@
            &&& x.source_key@ == y.source_key@ ==> same || is_shared(x.source_key@)
        }),
{
    let p = seq![source_id(a.specification@), x.location_id@];
    let q = seq![source_id(b.specification@), y.location_id@];
    if x.source_key@ == y.source_key@ {
        lemma_digest_of(p, q, x.source_key@);
        if p == q {
            assert(p[0] == q[0] && p[1] == q[1]);
        }
    }
}

/// A package on this machine is known by its directory and has no pin.
pub proof fn lemma_local_identity(a: &str, x: PackageIdentity, b: &str, y: PackageIdentity)
    requires
        call_ensures(local_identity, (a,), x),
        call_ensures(local_identity, (b,), y),
        text_fits(a@) && text_fits(b@),
        text_fits("local"@),
    ensures
        x.pin is None,
        x.source_key@ == x.location_id@,
        a@ == b@ ==> x.location_id@ == y.location_id@,
        x.location_id@ == y.location_id@ ==> a@ == b@ || is_shared(x.location_id@),
{
    let p = seq!["local"@, a@];
    let q = seq!["local"@, b@];
    if x.location_id@ == y.location_id@ {
        lemma_digest_of(p, q, x.location_id@);
        if p == q {
            assert(p[1] == q[1]);
        }
    }
}

/// A package that was found is taken exactly where it has the name that was expected, if one was.
pub proof fn lemma_expected_name(
    package: Package,
    source: SourceId,
    expected: Option<&str>,
    r: Result<LocatedPackage, SourceError>,
)
    requires
        call_ensures(confirm, (package, source, expected), r),
    ensures
        r is Ok <==> (expected is Some ==> package.name@ == expected->0@),
        r is Ok ==> r->Ok_0.package == package && r->Ok_0.source == source,
{
}

} // verus!
