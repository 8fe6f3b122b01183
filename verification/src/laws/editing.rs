//! Editing: what a manifest declares after a dependency was added or taken out, and how it is written.

use vstd::prelude::*;

use crate::manifest::{
    dependency_in, field_in, field_keys, field_of, lemma_keys_distinct, read_document, table_in,
    with_fields, Dependency, DependencyModel, Manifest, ManifestDocument, ManifestError,
};

verus! {

broadcast use vstd::string::group_string_axioms;

/// An entry says what a dependency is: each of its five fields under its own key where it has one and
/// nothing there where it has none, and its namespace where that is not `typm`.
pub open spec fn says(entry: Map<Seq<char>, Seq<char>>, m: DependencyModel) -> bool {
    &&& m.git is Some <==> entry.contains_key("git"@)
    &&& m.git is Some ==> entry["git"@] == m.git->0
    &&& m.path is Some <==> entry.contains_key("path"@)
    &&& m.path is Some ==> entry["path"@] == m.path->0
    &&& m.branch is Some <==> entry.contains_key("branch"@)
    &&& m.branch is Some ==> entry["branch"@] == m.branch->0
    &&& m.tag is Some <==> entry.contains_key("tag"@)
    &&& m.tag is Some ==> entry["tag"@] == m.tag->0
    &&& m.rev is Some <==> entry.contains_key("rev"@)
    &&& m.rev is Some ==> entry["rev"@] == m.rev->0
    &&& entry.contains_key("namespace"@) ==> entry["namespace"@] == m.namespace
    &&& !entry.contains_key("namespace"@) ==> m.namespace == "typm"@
}

proof fn lemma_says(entry: Map<Seq<char>, Seq<char>>, m: DependencyModel)
    ensures
        says(entry, m) <==> dependency_in(entry) == m,
{
}

/// A key that is none of the six.
pub open spec fn other_key(key: Seq<char>) -> bool {
    key != "git"@ && key != "path"@ && key != "branch"@ && key != "tag"@ && key != "rev"@ && key
        != "namespace"@
}

proof fn lemma_other_key(entry: Map<Seq<char>, Seq<char>>, m: DependencyModel, n: nat, key: Seq<char>)
    requires
        n <= 6,
        other_key(key),
    ensures
        field_in(with_fields(entry, m, n), key) == field_in(entry, key),
    decreases n,
{
    if n > 0 {
        lemma_other_key(entry, m, (n - 1) as nat, key);
        let k = field_keys();
        assert(k[0] == "git"@ && k[1] == "path"@ && k[2] == "branch"@ && k[3] == "tag"@ && k[4]
            == "rev"@ && k[5] == "namespace"@);
    }
}

/// A dependency that was declared is in the manifest as it was given, and its entry in the document says
/// so, without a namespace where that is `typm`; a key of the entry that a dependency does not have
/// stays, and so does every other dependency and its entry.
pub proof fn lemma_declared_as_given()
    ensures
        forall|d: &mut ManifestDocument, name: &str, dependency: Dependency|
            #[trigger] call_ensures(ManifestDocument::insert, (d, name, dependency), ()) ==> {
                &&& final(d).manifest@.contains_key(name@)
                &&& final(d).manifest@[name@] == dependency@
                &&& final(d).entries().contains_key(name@)
                &&& says(final(d).entries()[name@], dependency@)
                &&& final(d).entries()[name@].contains_key("namespace"@) ==> dependency@.namespace
                    != "typm"@
                &&& forall|key: Seq<char>|
                    other_key(key) && #[trigger] final(d).entries()[name@].contains_key(key) ==> {
                        &&& (*d).entries().contains_key(name@)
                        &&& (*d).entries()[name@].contains_key(key)
                        &&& (*d).entries()[name@][key] == final(d).entries()[name@][key]
                    }
                &&& (*d).entries().contains_key(name@) ==> forall|key: Seq<char>|
                    other_key(key) && #[trigger] (*d).entries()[name@].contains_key(key)
                        ==> final(d).entries()[name@].contains_key(key)
                &&& forall|other: Seq<char>|
                    other != name@ ==> (#[trigger] final(d).manifest@.contains_key(other)
                        <==> (*d).manifest@.contains_key(other))
                &&& forall|other: Seq<char>|
                    other != name@ && #[trigger] (*d).manifest@.contains_key(other)
                        ==> final(d).manifest@[other] == (*d).manifest@[other]
                &&& forall|other: Seq<char>|
                    other != name@ ==> (#[trigger] final(d).entries().contains_key(other)
                        <==> (*d).entries().contains_key(other))
                &&& forall|other: Seq<char>|
                    other != name@ && #[trigger] (*d).entries().contains_key(other)
                        ==> final(d).entries()[other] == (*d).entries()[other]
            },
{
    assert forall|d: &mut ManifestDocument, name: &str, dependency: Dependency|
        #[trigger] call_ensures(ManifestDocument::insert, (d, name, dependency), ()) implies {
        &&& final(d).manifest@.contains_key(name@)
        &&& final(d).manifest@[name@] == dependency@
        &&& final(d).entries().contains_key(name@)
        &&& says(final(d).entries()[name@], dependency@)
        &&& final(d).entries()[name@].contains_key("namespace"@) ==> dependency@.namespace != "typm"@
        &&& forall|key: Seq<char>|
            other_key(key) && #[trigger] final(d).entries()[name@].contains_key(key) ==> {
                &&& (*d).entries().contains_key(name@)
                &&& (*d).entries()[name@].contains_key(key)
                &&& (*d).entries()[name@][key] == final(d).entries()[name@][key]
            }
        &&& (*d).entries().contains_key(name@) ==> forall|key: Seq<char>|
            other_key(key) && #[trigger] (*d).entries()[name@].contains_key(key)
                ==> final(d).entries()[name@].contains_key(key)
        &&& forall|other: Seq<char>|
            other != name@ ==> (#[trigger] final(d).manifest@.contains_key(other)
                <==> (*d).manifest@.contains_key(other))
        &&& forall|other: Seq<char>|
            other != name@ && #[trigger] (*d).manifest@.contains_key(other)
                ==> final(d).manifest@[other] == (*d).manifest@[other]
        &&& forall|other: Seq<char>|
            other != name@ ==> (#[trigger] final(d).entries().contains_key(other)
                <==> (*d).entries().contains_key(other))
        &&& forall|other: Seq<char>|
            other != name@ && #[trigger] (*d).entries().contains_key(other)
                ==> final(d).entries()[other] == (*d).entries()[other]
    } by {
        let was = if (*d).entries().contains_key(name@) {
            (*d).entries()[name@]
        } else {
            Map::empty()
        };
        let now = with_fields(was, dependency@, 6);
        crate::manifest::lemma_entry_reads_back(was, dependency@);
        lemma_says(now, dependency@);
        assert(final(d).entries()[name@] == now);
        assert(field_keys()[5] == "namespace"@);
        lemma_keys_distinct();
        assert(field_of(dependency@, "namespace"@) == (if dependency@.namespace != "typm"@ {
            Some(dependency@.namespace)
        } else {
            None
        })) by {
            let k = field_keys();
            assert(k[0] == "git"@ && k[1] == "path"@ && k[2] == "branch"@ && k[3] == "tag"@ && k[4]
                == "rev"@);
            assert(k[5] != k[0] && k[5] != k[1] && k[5] != k[2] && k[5] != k[3] && k[5] != k[4]);
        }
        assert(now == crate::manifest::with_field(
            with_fields(was, dependency@, 5),
            field_keys()[5],
            field_of(dependency@, field_keys()[5]),
        ));
        assert forall|key: Seq<char>| other_key(key) implies #[trigger] field_in(now, key)
            == field_in(was, key) by {
            lemma_other_key(was, dependency@, 6, key);
        }
        assert forall|key: Seq<char>| other_key(key) && #[trigger] now.contains_key(key) implies {
            &&& (*d).entries().contains_key(name@)
            &&& was.contains_key(key)
            &&& was[key] == now[key]
        } by {
            assert(field_in(now, key) == field_in(was, key));
        }
        assert forall|key: Seq<char>| other_key(key) && #[trigger] was.contains_key(key) implies now.contains_key(
        key) by {
            assert(field_in(now, key) == field_in(was, key));
        }
    }
}

/// A dependency is taken out exactly where the manifest has it: then it and its entry are gone and every
/// other stays; else nothing changes, and its name is told.
pub proof fn lemma_taken_out()
    ensures
        forall|d: &mut ManifestDocument, name: &str, r: Result<(), ManifestError>|
            #[trigger] call_ensures(ManifestDocument::remove, (d, name), r) ==> {
                &&& r is Ok <==> (*d).manifest@.contains_key(name@)
                &&& r matches Err(e) ==> (e matches ManifestError::NotInManifest(missing)
                    && missing@ == name@)
                &&& !final(d).manifest@.contains_key(name@)
                &&& r is Ok ==> !final(d).entries().contains_key(name@)
                &&& forall|other: Seq<char>|
                    other != name@ ==> (#[trigger] final(d).manifest@.contains_key(other)
                        <==> (*d).manifest@.contains_key(other))
                &&& forall|other: Seq<char>|
                    other != name@ && #[trigger] (*d).manifest@.contains_key(other)
                        ==> final(d).manifest@[other] == (*d).manifest@[other]
                &&& forall|other: Seq<char>|
                    other != name@ ==> (#[trigger] final(d).entries().contains_key(other)
                        <==> (*d).entries().contains_key(other))
                &&& forall|other: Seq<char>|
                    other != name@ && #[trigger] (*d).entries().contains_key(other)
                        ==> final(d).entries()[other] == (*d).entries()[other]
            },
{
}

/// A document that was read is about the very dependencies that its entries say, and its entries are
/// those of the text.
pub proof fn lemma_read_as_written(
    manifest: Manifest,
    text: &str,
    r: Result<ManifestDocument, ManifestError>,
)
    requires
        call_ensures(ManifestDocument::parse, (manifest, text), r),
    ensures
        r matches Ok(d) ==> {
            &&& d.manifest@ == manifest@
            &&& read_document(text@) matches Some((others, tables, decors, key_decors))
            &&& !others.contains("dependencies"@)
            &&& d.entries() == table_in(tables, "dependencies"@)
            &&& d.decors() == decors
            &&& d.key_decors() == key_decors
            &&& forall|name: Seq<char>| #[trigger]
                d.manifest@.contains_key(name) <==> d.entries().contains_key(name)
            &&& forall|name: Seq<char>| #[trigger]
                d.manifest@.contains_key(name) ==> says(d.entries()[name], d.manifest@[name])
        },
{
    if r is Ok {
        let d = r->Ok_0;
        assert forall|name: Seq<char>| #[trigger] d.manifest@.contains_key(name) implies says(
            d.entries()[name],
            d.manifest@[name],
        ) by {
            lemma_says(d.entries()[name], d.manifest@[name]);
        }
    }
}

} // verus!
