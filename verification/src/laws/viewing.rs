//! Viewing: what the view of a package holds, where it is made, and when it is used again.

use vstd::prelude::*;
use vstd::utf8::encode_utf8;

use crate::hashing::{blake3_hex, fits, is_digest};
use crate::laws::declaring::is_shared;
use crate::laws::surroundings::{lemma_file_in, lemma_plain};
use crate::lists::{lemma_all_none, lemma_none_is_some};
use crate::ordered::Table;
use crate::path::{lemma_joined_parts, parts_of, Part};
use crate::raw::equal_raw_paths;
use crate::stubs::{
    entry_target, lemma_views_differ, link_faults, link_ok, manifest_stub, names_fit, prepare,
    quotes_of, source_entries, validate_view, value_at, view_entries, view_message, FoundLink,
    Listed, StubError, StubFault, ViewPaths,
};
use crate::text::has_prefix;

verus! {

broadcast use vstd::string::group_string_axioms;

/// The manifest of a view is the package's, character for character, but for the version: there stands
/// `0.0.0` in the quotes that the version stood in, and it is read as that. It is owed exactly where the
/// package's version is a string.
pub proof fn lemma_only_the_version(original: &str, r: Result<String, StubError>)
    requires
        call_ensures(manifest_stub, (original,), r),
    ensures
        match value_at(original@, "package"@, "version"@) {
            Some(Some((before, token, after, Some(version)))) => {
                &&& original@ == before + token + after
                &&& r matches Ok(stub) && {
                    let value = value_at(stub@, "package"@, "version"@)->0->0;
                    &&& value_at(stub@, "package"@, "version"@) == Some(Some(value))
                    &&& value.3 == Some("0.0.0"@)
                    &&& value.0 == before && value.2 == after
                    &&& stub@ == before + value.1 + after
                    &&& has_prefix(token, "\"\"\""@) ==> value.1 == "\"\"\"0.0.0\"\"\""@
                    &&& has_prefix(token, "'''"@) ==> value.1 == "'''0.0.0'''"@
                    &&& has_prefix(token, "'"@) && !has_prefix(token, "'''"@) ==> value.1
                        == "'0.0.0'"@
                    &&& has_prefix(token, "\""@) && !has_prefix(token, "\"\"\""@) ==> value.1
                        == "\"0.0.0\""@
                }
            },
            Some(_) => r matches Err(e) && e@ == StubFault::NoVersion,
            None => r matches Err(e) && e@ == StubFault::Manifest,
        },
{
    reveal_strlit("0.0.0");
    reveal_strlit("\"\"\"");
    reveal_strlit("'''");
    reveal_strlit("'");
    reveal_strlit("\"");
    reveal_strlit("\"\"\"0.0.0\"\"\"");
    reveal_strlit("'''0.0.0'''");
    reveal_strlit("'0.0.0'");
    reveal_strlit("\"0.0.0\"");
    if let Some(Some((before, token, after, Some(version)))) = value_at(
        original@,
        "package"@,
        "version"@,
    ) {
        let q = quotes_of(token);
        let written = q + "0.0.0"@ + q;
        if has_prefix(token, "\"\"\""@) {
            assert(written =~= "\"\"\"0.0.0\"\"\""@);
        }
        if has_prefix(token, "'''"@) {
            assert(token[0] == token.subrange(0, 3)[0]);
            assert(!has_prefix(token, "\"\"\""@)) by {
                if has_prefix(token, "\"\"\""@) {
                    assert(token.subrange(0, 3)[0] == '\"');
                }
            }
            assert(written =~= "'''0.0.0'''"@);
        }
        if has_prefix(token, "'"@) && !has_prefix(token, "'''"@) {
            assert(token[0] == token.subrange(0, 1)[0]);
            assert(!has_prefix(token, "\"\"\""@)) by {
                if has_prefix(token, "\"\"\""@) {
                    assert(token.subrange(0, 3)[0] == '\"');
                }
            }
            assert(written =~= "'0.0.0'"@);
        }
        if has_prefix(token, "\""@) && !has_prefix(token, "\"\"\""@) {
            assert(token[0] == token.subrange(0, 1)[0]);
            assert(!has_prefix(token, "'"@)) by {
                if has_prefix(token, "'"@) {
                    assert(token.subrange(0, 1)[0] == '\'');
                }
            }
            assert(!has_prefix(token, "'''"@)) by {
                if has_prefix(token, "'''"@) {
                    assert(token.subrange(0, 3)[0] == '\'');
                }
            }
            assert(written =~= "\"0.0.0\""@);
        }
    }
}

/// An entry is the last of its name in a list.
pub open spec fn last_named(listed: Seq<Listed>, i: int) -> bool {
    &&& 0 <= i < listed.len()
    &&& forall|j: int| i < j < listed.len() ==> (#[trigger] listed[j]).name@ != listed[i].name@
}

proof fn lemma_view_entries(listed: Seq<Listed>)
    ensures
        forall|name: Seq<u8>| #[trigger]
            view_entries(listed).contains_key(name) ==> name != encode_utf8(".typm"@) && exists|
                i: int,
            |
                0 <= i < listed.len() && (#[trigger] listed[i]).name@ == name,
        forall|i: int|
            0 <= i < listed.len() && (#[trigger] listed[i]).name@ != encode_utf8(".typm"@)
                ==> view_entries(listed).contains_key(listed[i].name@),
        forall|i: int| #[trigger]
            last_named(listed, i) && listed[i].name@ != encode_utf8(".typm"@) ==> view_entries(
                listed,
            )[listed[i].name@] == (listed[i].is_directory && listed[i].name@ != encode_utf8(
                "typst.toml"@,
            )),
    decreases listed.len(),
{
    if listed.len() > 0 {
        let front = listed.drop_last();
        let n = listed.len() - 1;
        lemma_view_entries(front);
        assert(listed[n] == listed.last());
        assert forall|name: Seq<u8>| #[trigger] view_entries(listed).contains_key(name) implies name
            != encode_utf8(".typm"@) && exists|i: int|
            0 <= i < listed.len() && (#[trigger] listed[i]).name@ == name by {
            if listed[n].name@ != name {
                assert(view_entries(front).contains_key(name));
                let i = choose|i: int| 0 <= i < front.len() && (#[trigger] front[i]).name@ == name;
                assert(listed[i].name@ == name);
            } else if listed[n].name@ == encode_utf8(".typm"@) {
                assert(view_entries(front).contains_key(name));
            }
        }
        assert forall|i: int|
            0 <= i < listed.len() && (#[trigger] listed[i]).name@ != encode_utf8(
                ".typm"@,
            ) implies view_entries(listed).contains_key(listed[i].name@) by {
            if i < n {
                assert(front[i] == listed[i]);
            }
        }
        assert forall|i: int| #[trigger]
            last_named(listed, i) && listed[i].name@ != encode_utf8(
                ".typm"@,
            ) implies view_entries(listed)[listed[i].name@] == (listed[i].is_directory
            && listed[i].name@ != encode_utf8("typst.toml"@)) by {
            if i < n {
                assert(listed[n].name@ != listed[i].name@);
                assert(front[i] == listed[i]);
                assert forall|j: int| i < j < front.len() implies (#[trigger] front[j]).name@
                    != front[i].name@ by {
                    assert(front[j] == listed[j]);
                }
                assert(last_named(front, i));
            }
        }
    }
}

/// A view has an entry for everything in the package's directory but `.typm`, and for nothing else; only
/// what is a directory counts as one, and `typst.toml` never does. It is owed exactly where the
/// directory has a `typst.toml`.
pub proof fn lemma_entries_of_a_view(
    source: &str,
    listed: &Vec<Listed>,
    r: Result<Table<Vec<u8>, bool>, StubError>,
)
    requires
        call_ensures(source_entries, (source, listed), r),
    ensures
        r is Ok <==> exists|i: int|
            0 <= i < listed@.len() && (#[trigger] listed@[i]).name@ == encode_utf8("typst.toml"@),
        r matches Err(e) ==> e@ == StubFault::ManifestGone(source@),
        r matches Ok(entries) ==> {
            &&& forall|name: Seq<u8>| #[trigger]
                entries@.contains_key(name) ==> name != encode_utf8(".typm"@) && exists|i: int|
                    0 <= i < listed@.len() && (#[trigger] listed@[i]).name@ == name
            &&& forall|i: int|
                0 <= i < listed@.len() && (#[trigger] listed@[i]).name@ != encode_utf8(".typm"@)
                    ==> entries@.contains_key(listed@[i].name@)
            &&& forall|i: int| #[trigger]
                last_named(listed@, i) && listed@[i].name@ != encode_utf8(".typm"@)
                    ==> entries@[listed@[i].name@] == (listed@[i].is_directory && listed@[i].name@
                    != encode_utf8("typst.toml"@))
        },
{
    lemma_view_entries(listed@);
    reveal_strlit(".typm");
    reveal_strlit("typst.toml");
    assert(encode_utf8(".typm"@) != encode_utf8("typst.toml"@)) by {
        if encode_utf8(".typm"@) == encode_utf8("typst.toml"@) {
            crate::hashing::lemma_encoding_injective(".typm"@, "typst.toml"@);
            assert(".typm"@.len() != "typst.toml"@.len());
        }
    }
    if view_entries(listed@).contains_key(encode_utf8("typst.toml"@)) {
        let i = choose|i: int|
            0 <= i < listed@.len() && (#[trigger] listed@[i]).name@ == encode_utf8("typst.toml"@);
        assert(listed@[i].name@ == encode_utf8("typst.toml"@));
    }
}

/// The manifest of a view leads to the one made for it, which stands beside the view; every other name
/// leads to that name in the package.
pub proof fn lemma_entry_leads(source: &str, name: &[u8], r: Vec<u8>)
    requires
        call_ensures(entry_target, (source, name), r),
        encode_utf8(source@).len() > 0 && encode_utf8(source@).last() != 47,
        name@.len() > 0 && name@[0] != 47,
    ensures
        name@ == encode_utf8("typst.toml"@) ==> r@ == encode_utf8("../typst.toml"@),
        name@ != encode_utf8("typst.toml"@) ==> r@ == encode_utf8(source@) + seq![47u8] + name@,
{
}

/// A view is made in the project's `stubs`, under a name of its own: two views have one name only where
/// the package, the manifest and the entries are the same, or the digest is shared by other messages. The
/// package is seen in the view's `package`.
pub proof fn lemma_place_of_a_view(
    control: &str,
    source_a: &str,
    manifest_a: &str,
    entries_a: &Table<Vec<u8>, bool>,
    x: ViewPaths,
    source_b: &str,
    manifest_b: &str,
    entries_b: &Table<Vec<u8>, bool>,
    y: ViewPaths,
)
    requires
        control@.len() > 0 && control@[0] == '/',
        call_ensures(prepare, (control, source_a, manifest_a, entries_a), x),
        call_ensures(prepare, (control, source_b, manifest_b, entries_b), y),
        fits(encode_utf8(source_a@)) && fits(encode_utf8(source_b@)),
        fits(encode_utf8(manifest_a@)) && fits(encode_utf8(manifest_b@)),
        names_fit(entries_a.keys()) && names_fit(entries_b.keys()),
    ensures
        parts_of(x.stubs@) == parts_of(control@).push(Part::Name("stubs"@)),
        exists|name: Seq<char>|
            is_digest(name) && parts_of(x.view@) == #[trigger] parts_of(x.stubs@).push(
                Part::Name(name),
            ),
        parts_of(x.package@) == parts_of(x.view@).push(Part::Name("package"@)),
        source_a@ == source_b@ && manifest_a@ == manifest_b@ && entries_a.keys() == entries_b.keys()
            && entries_a@ == entries_b@ ==> x.view@ == y.view@ && x.package@ == y.package@,
        x.view@ == y.view@ ==> {
            ||| {
                &&& source_a@ == source_b@
                &&& manifest_a@ == manifest_b@
                &&& entries_a.keys() == entries_b.keys()
                &&& forall|i: int|
                    0 <= i < entries_a.keys().len() ==> entries_a@[#[trigger] entries_a.keys()[i]]
                        == entries_b@[entries_a.keys()[i]]
            }
            ||| exists|name: Seq<char>|
                is_shared(name) && parts_of(x.view@) == #[trigger] parts_of(x.stubs@).push(
                    Part::Name(name),
                )
        },
{
    reveal_strlit("stubs");
    reveal_strlit("package");
    lemma_plain("stubs"@);
    lemma_plain("package"@);
    lemma_file_in(control@, "stubs"@);
    lemma_joined_parts(control@, "stubs"@);
    let m = view_message(source_a@, manifest_a@, entries_a.keys(), entries_a@);
    let n = view_message(source_b@, manifest_b@, entries_b.keys(), entries_b@);
    lemma_digest_is_plain(blake3_hex(m));
    lemma_digest_is_plain(blake3_hex(n));
    lemma_file_in(x.stubs@, blake3_hex(m));
    lemma_file_in(y.stubs@, blake3_hex(n));
    lemma_joined_parts(x.stubs@, blake3_hex(m));
    lemma_file_in(x.view@, "package"@);
    assert(parts_of(x.view@) == parts_of(x.stubs@).push(Part::Name(blake3_hex(m))));
    if x.view@ == y.view@ {
        assert(parts_of(x.view@).last() == Part::Name(blake3_hex(m)));
        assert(parts_of(y.view@).last() == Part::Name(blake3_hex(n)));
        if m == n {
            lemma_views_differ(
                source_a@,
                manifest_a@,
                entries_a.keys(),
                entries_a@,
                source_b@,
                manifest_b@,
                entries_b.keys(),
                entries_b@,
            );
        } else {
            assert(is_shared(blake3_hex(m)));
        }
    }
}

pub(crate) proof fn lemma_digest_is_plain(name: Seq<char>)
    requires
        is_digest(name),
    ensures
        crate::path::plain_name(name),
{
    assert forall|i: int| 0 <= i < name.len() implies (#[trigger] name[i]) != '/' by {
        assert(crate::hashing::is_lower_hex_char(name[i]));
    }
    lemma_plain(name);
}

/// A view is used again exactly where its manifest is the one that would be made now, it has the entries
/// that it should have and no other, and each is a link that leads where it should: the manifest to
/// `../typst.toml`, everything else to the package.
pub proof fn lemma_used_again(
    view: &str,
    package: &str,
    source: &str,
    manifest: &str,
    entries: &Table<Vec<u8>, bool>,
    found_manifest: Option<&str>,
    found: &Table<Vec<u8>, FoundLink>,
    r: Result<(), StubError>,
)
    requires
        call_ensures(
            validate_view,
            (view, package, source, manifest, entries, found_manifest, found),
            r,
        ),
        encode_utf8(source@).len() > 0 && encode_utf8(source@).last() != 47,
        forall|i: int|
            0 <= i < entries.keys().len() ==> (#[trigger] entries.keys()[i]).len() > 0
                && entries.keys()[i][0] != 47,
    ensures
        r is Ok <==> {
            &&& found_manifest matches Some(text) && text@ == manifest@
            &&& forall|name: Seq<u8>|
                entries.keys().contains(name) <==> #[trigger] found@.contains_key(name)
            &&& forall|i: int|
                0 <= i < entries.keys().len() ==> leads_right(
                    source@,
                    #[trigger] entries.keys()[i],
                    found@[entries.keys()[i]].target,
                )
        },
        !(found_manifest matches Some(text) && text@ == manifest@) ==> (r matches Err(e) && e@
            == StubFault::ManifestChanged(view@)),
{
    let keys = entries.keys();
    let faults = link_faults(package@, source@, keys, found@);
    assert forall|i: int| 0 <= i < keys.len() implies (#[trigger] faults[i] is None <==> leads_right(
        source@,
        keys[i],
        found@[keys[i]].target,
    )) by {
        assert(keys[i].len() > 0 && keys[i][0] != 47);
        assert(faults[i] is None <==> link_ok(source@, keys[i], found@[keys[i]].target));
    }
    if r is Ok {
        assert forall|i: int| 0 <= i < keys.len() implies leads_right(
            source@,
            #[trigger] keys[i],
            found@[keys[i]].target,
        ) by {
            lemma_none_is_some(faults, i);
            assert(faults[i] is None);
        }
    }
    if forall|i: int|
        0 <= i < keys.len() ==> leads_right(
            source@,
            #[trigger] keys[i],
            found@[keys[i]].target,
        ) {
        assert forall|i: int| 0 <= i < faults.len() implies (#[trigger] faults[i]) is None by {
            assert(leads_right(source@, keys[i], found@[keys[i]].target));
        }
        lemma_all_none(faults);
    }
}

/// A link leads to `../typst.toml` where it is the manifest, and else to its name in the package.
pub open spec fn leads_right(source: Seq<char>, name: Seq<u8>, target: Option<Vec<u8>>) -> bool {
    &&& target is Some
    &&& equal_raw_paths(
        target->0@,
        if name == encode_utf8("typst.toml"@) {
            encode_utf8("../typst.toml"@)
        } else {
            encode_utf8(source) + seq![47u8] + name
        },
    )
}

} // verus!
