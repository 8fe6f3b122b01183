//! Immutable project-local package views with a stable import version.

use vstd::prelude::*;
use vstd::utf8::encode_utf8;

use crate::hashing::{
    blake3_hex, digest, fits, frame, lemma_encoding_injective, lemma_frame_injective, push_frame,
};
use crate::ordered::Table;
use crate::package::IMPORT_VERSION;
use crate::path::{join_path, joined_path};
use crate::raw::{
    copy_bytes, equal_raw_paths, join_raw, joined_raw, lossy_text, same_bytes, same_raw_path, shown,
};
use crate::text::{has_prefix, opt_str, opt_text, plus, plus3, same, starts_with};

verus! {

broadcast use vstd::string::group_string_axioms;

/// What is wrong with a package view.
#[derive(Debug)]
pub enum StubError {
    Manifest,
    NoVersion,
    ManifestGone(String),
    ManifestChanged(String),
    EntriesChanged(String),
    LinkChanged(Vec<u8>),
}

/// What is wrong with a package view, with its texts.
pub enum StubFault {
    Manifest,
    NoVersion,
    ManifestGone(Seq<char>),
    ManifestChanged(Seq<char>),
    EntriesChanged(Seq<char>),
    LinkChanged(Seq<u8>),
}

impl View for StubError {
    type V = StubFault;

    open spec fn view(&self) -> StubFault {
        match self {
            StubError::Manifest => StubFault::Manifest,
            StubError::NoVersion => StubFault::NoVersion,
            StubError::ManifestGone(path) => StubFault::ManifestGone(path@),
            StubError::ManifestChanged(path) => StubFault::ManifestChanged(path@),
            StubError::EntriesChanged(path) => StubFault::EntriesChanged(path@),
            StubError::LinkChanged(path) => StubFault::LinkChanged(path@),
        }
    }
}

/// The text shown for a fault.
pub open spec fn fault_text(fault: StubFault) -> Seq<char> {
    match fault {
        StubFault::Manifest => "invalid Typst package manifest"@,
        StubFault::NoVersion => "package manifest must contain a string package.version"@,
        StubFault::ManifestGone(path) => "package manifest disappeared from "@ + path,
        StubFault::ManifestChanged(path) => "generated package manifest was changed: "@ + path,
        StubFault::EntriesChanged(path) => "generated package view entries were changed: "@ + path,
        StubFault::LinkChanged(path) => "generated package link was changed: "@ + lossy_text(path),
    }
}

impl StubError {
    /// The text shown to the user.
    pub fn message(&self) -> (r: String)
        ensures
            r@ == fault_text(self@),
    {
        match self {
            StubError::Manifest => "invalid Typst package manifest".to_owned(),
            StubError::NoVersion =>
                "package manifest must contain a string package.version".to_owned(),
            StubError::ManifestGone(path) => plus(
                "package manifest disappeared from ",
                path.as_str(),
            ),
            StubError::ManifestChanged(path) => plus(
                "generated package manifest was changed: ",
                path.as_str(),
            ),
            StubError::EntriesChanged(path) => plus(
                "generated package view entries were changed: ",
                path.as_str(),
            ),
            StubError::LinkChanged(path) => plus(
                "generated package link was changed: ",
                shown(path.as_slice()).as_str(),
            ),
        }
    }
}

/// A manifest cut at the value of `package.version`.
#[derive(Debug)]
pub struct CutManifest {
    pub before: String,
    pub token: String,
    pub after: String,
}

/// A text cut at a value, as `Value::span` of `toml_edit` finds it under a key of a table in what
/// `Document::parse` reads: what stands before it, the value as written, what stands after it, and
/// the string that it is, if it is one. The inner option is none where there is no such value, the
/// outer one where the text is no TOML document.
pub uninterp spec fn value_at(text: Seq<char>, table: Seq<char>, key: Seq<char>) -> Option<
    Option<(Seq<char>, Seq<char>, Seq<char>, Option<Seq<char>>)>,
>;

/// Calls `Document::parse`, `Value::span` and `Value::as_str` of `toml_edit`. The contract claims
/// that where the value stands, and which string it is, are functions of the text, the table and the
/// key, that the three pieces make up the text, and that another string of digits and dots, written
/// in the same quotes in place of a string, is found in its place and read as what it is.
#[verifier::external_body]
fn cut_at_value(text: &str, table: &str, key: &str) -> (r: Option<
    Option<(CutManifest, Option<String>)>,
>)
    ensures
        match r {
            Some(Some((cut, string))) => {
                &&& value_at(text@, table@, key@) == Some(
                    Some((cut.before@, cut.token@, cut.after@, opt_text(string))),
                )
                &&& cut.before@ + cut.token@ + cut.after@ == text@
                &&& string is Some ==> forall|other: Seq<char>| #[trigger]
                    digits_and_dots(other) ==> value_at(
                        cut.before@ + in_quotes_of(cut.token@, other) + cut.after@,
                        table@,
                        key@,
                    ) == Some(
                        Some(
                            (
                                cut.before@,
                                in_quotes_of(cut.token@, other),
                                cut.after@,
                                Some(other),
                            ),
                        ),
                    )
            },
            Some(None) => value_at(text@, table@, key@) == Some(
                None::<(Seq<char>, Seq<char>, Seq<char>, Option<Seq<char>>)>,
            ),
            None => value_at(text@, table@, key@) is None,
        },
{
    let document = toml_edit::Document::parse(text).ok()?;
    let item = document.get(table).and_then(|item| item.get(key));
    Some(item.and_then(toml_edit::Item::as_value).and_then(|value| value.span().map(|span| {
        let before = text[..span.start].to_owned();
        let token = text[span.clone()].to_owned();
        let after = text[span.end..].to_owned();
        (CutManifest { before, token, after }, value.as_str().map(str::to_owned))
    })))
}

/// A manifest cut at the value of `package.version`, and the string that this is.
pub open spec fn cut_at_version(text: Seq<char>) -> Option<
    Option<(Seq<char>, Seq<char>, Seq<char>, Option<Seq<char>>)>,
> {
    value_at(text, "package"@, "version"@)
}

/// Only digits and dots.
pub open spec fn digits_and_dots(text: Seq<char>) -> bool {
    forall|i: int| 0 <= i < text.len() ==> ('0' <= #[trigger] text[i] && text[i] <= '9') || text[i] == '.'
}

/// The quotes of a written string.
pub open spec fn quotes_of(token: Seq<char>) -> Seq<char> {
    if has_prefix(token, "\"\"\""@) {
        "\"\"\""@
    } else if has_prefix(token, "\'\'\'"@) {
        "\'\'\'"@
    } else if has_prefix(token, "\'"@) {
        "\'"@
    } else {
        "\""@
    }
}

/// A text in the quotes of a written string.
pub open spec fn in_quotes_of(token: Seq<char>, text: Seq<char>) -> Seq<char> {
    quotes_of(token) + text + quotes_of(token)
}

/// The stable version, in the quotes of a written string.
pub open spec fn stable_token(token: Seq<char>) -> Seq<char> {
    in_quotes_of(token, IMPORT_VERSION@)
}

/// A manifest with the stable version in place of the one it has. Everything else stays character
/// for character, with comments, line ends and unknown fields.
pub fn replace_version(cut: &CutManifest) -> (r: String)
    ensures
        r@ == cut.before@ + stable_token(cut.token@) + cut.after@,
{
    let quotes = if starts_with(cut.token.as_str(), "\"\"\"") {
        "\"\"\""
    } else if starts_with(cut.token.as_str(), "\'\'\'") {
        "\'\'\'"
    } else if starts_with(cut.token.as_str(), "\'") {
        "\'"
    } else {
        "\""
    };
    let token = plus3(quotes, IMPORT_VERSION, quotes);
    plus3(cut.before.as_str(), token.as_str(), cut.after.as_str())
}

/// The manifest of a package's view: the original with only the version replaced. It is read with the
/// stable version.
pub fn manifest_stub(original: &str) -> (r: Result<String, StubError>)
    ensures
        match cut_at_version(original@) {
            Some(Some((before, token, after, Some(_)))) => {
                &&& r is Ok
                &&& before + token + after == original@
                &&& r->Ok_0@ == before + stable_token(token) + after
                &&& cut_at_version(r->Ok_0@) == Some(
                    Some((before, stable_token(token), after, Some(IMPORT_VERSION@))),
                )
            },
            Some(_) => r is Err && r->Err_0@ == StubFault::NoVersion,
            None => r is Err && r->Err_0@ == StubFault::Manifest,
        },
{
    proof {
        reveal_strlit("0.0.0");
        assert(digits_and_dots(IMPORT_VERSION@));
    }
    match cut_at_value(original, "package", "version") {
        Some(Some((cut, Some(_)))) => Ok(replace_version(&cut)),
        Some(_) => Err(StubError::NoVersion),
        None => Err(StubError::Manifest),
    }
}

/// The file name of a manifest.
pub open spec fn manifest_name() -> Seq<u8> {
    encode_utf8("typst.toml"@)
}

/// An entry of a package's directory.
#[derive(Debug)]
pub struct Listed {
    pub name: Vec<u8>,
    pub is_directory: bool,
}

/// The entries of a view, by name: those of the package but its own links, and whether each is a
/// directory. The manifest counts as a file whatever it is.
pub open spec fn view_entries(listed: Seq<Listed>) -> Map<Seq<u8>, bool>
    decreases listed.len(),
{
    if listed.len() == 0 {
        Map::empty()
    } else {
        let front = view_entries(listed.drop_last());
        let last = listed.last();
        if last.name@ == encode_utf8(".typm"@) {
            front
        } else {
            front.insert(last.name@, last.name@ != manifest_name() && last.is_directory)
        }
    }
}

/// The entries of a view of the package in `source`.
pub fn source_entries(source: &str, listed: &Vec<Listed>) -> (r: Result<
    Table<Vec<u8>, bool>,
    StubError,
>)
    ensures
        match r {
            Ok(entries) => entries@ == view_entries(listed@) && view_entries(listed@).contains_key(
                manifest_name(),
            ),
            Err(e) => !view_entries(listed@).contains_key(manifest_name()) && e@
                == StubFault::ManifestGone(source@),
        },
{
    let mut entries: Table<Vec<u8>, bool> = Table::new();
    let mut i: usize = 0;
    assert(listed@.take(0) =~= Seq::<Listed>::empty());
    while i < listed.len()
        invariant
            i <= listed@.len(),
            entries@ == view_entries(listed@.take(i as int)),
        decreases listed@.len() - i,
    {
        let entry = &listed[i];
        proof {
            assert(listed@.take(i + 1).drop_last() =~= listed@.take(i as int));
            assert(listed@.take(i + 1).last() == *entry);
        }
        let name = entry.name.as_slice();
        if !same_bytes(name, ".typm".as_bytes()) {
            let directory = !same_bytes(name, "typst.toml".as_bytes()) && entry.is_directory;
            let again = entries.insert(copy_bytes(name), directory);
        }
        i = i + 1;
    }
    assert(listed@.take(i as int) =~= listed@);
    if entries.contains_key(&copy_bytes("typst.toml".as_bytes())) {
        Ok(entries)
    } else {
        Err(StubError::ManifestGone(source.to_owned()))
    }
}

/// Where the entry of a view leads: its manifest to the one made for it, anything else to the
/// package.
pub open spec fn target_of(source: Seq<char>, name: Seq<u8>) -> Seq<u8> {
    if name == manifest_name() {
        encode_utf8("../typst.toml"@)
    } else {
        joined_raw(encode_utf8(source), name)
    }
}

/// Where the entry of a view leads.
pub fn entry_target(source: &str, name: &[u8]) -> (r: Vec<u8>)
    ensures
        r@ == target_of(source@, name@),
{
    if same_bytes(name, "typst.toml".as_bytes()) {
        copy_bytes("../typst.toml".as_bytes())
    } else {
        join_raw(source.as_bytes(), name)
    }
}

/// What the entries add to the message of a view's identity.
pub open spec fn entries_message(names: Seq<Seq<u8>>, entries: Map<Seq<u8>, bool>) -> Seq<u8>
    decreases names.len(),
{
    if names.len() == 0 {
        Seq::empty()
    } else {
        entries_message(names.drop_last(), entries) + entry_message(
            names.last(),
            entries[names.last()],
        )
    }
}

/// What one entry adds to the message of a view's identity.
pub open spec fn entry_message(name: Seq<u8>, directory: bool) -> Seq<u8> {
    frame(name) + seq![
        if directory {
            1u8
        } else {
            0u8
        },
    ]
}

/// The message whose digest is a view's identity: the package, the view's manifest and its entries,
/// each behind its length.
pub open spec fn view_message(
    source: Seq<char>,
    manifest: Seq<char>,
    names: Seq<Seq<u8>>,
    entries: Map<Seq<u8>, bool>,
) -> Seq<u8> {
    frame(encode_utf8("typm-package-view-v1"@)) + frame(encode_utf8(source)) + frame(
        encode_utf8(manifest),
    ) + entries_message(names, entries)
}

/// The directory of all views.
pub open spec fn stubs_path(control: Seq<char>) -> Seq<char> {
    joined_path(control, "stubs"@)
}

/// The directory of one view.
pub open spec fn view_path(
    control: Seq<char>,
    source: Seq<char>,
    manifest: Seq<char>,
    names: Seq<Seq<u8>>,
    entries: Map<Seq<u8>, bool>,
) -> Seq<char> {
    joined_path(stubs_path(control), blake3_hex(view_message(source, manifest, names, entries)))
}

/// The directories of a view.
#[derive(Debug)]
pub struct ViewPaths {
    pub stubs: String,
    pub view: String,
    pub package: String,
}

/// Where the view of the package in `source` is made, with a manifest and entries.
pub fn prepare(control: &str, source: &str, manifest: &str, entries: &Table<Vec<u8>, bool>) -> (r: ViewPaths)
    ensures
        r.stubs@ == stubs_path(control@),
        r.view@ == view_path(control@, source@, manifest@, entries.keys(), entries@),
        r.package@ == joined_path(r.view@, "package"@),
        crate::hashing::is_digest(
            blake3_hex(view_message(source@, manifest@, entries.keys(), entries@)),
        ),
{
    let mut message: Vec<u8> = Vec::new();
    push_frame(&mut message, "typm-package-view-v1".as_bytes());
    push_frame(&mut message, source.as_bytes());
    push_frame(&mut message, manifest.as_bytes());
    let ghost front = frame(encode_utf8("typm-package-view-v1"@)) + frame(encode_utf8(source@))
        + frame(encode_utf8(manifest@));
    assert(message@ =~= front);
    let count = entries.len();
    let ghost keys = entries.keys();
    let mut i: usize = 0;
    proof {
        assert(keys.take(0) =~= Seq::<Seq<u8>>::empty());
        assert(front + entries_message(keys.take(0), entries@) =~= front);
    }
    while i < count
        invariant
            i <= count,
            keys == entries.keys(),
            count == keys.len(),
            message@ == front + entries_message(keys.take(i as int), entries@),
        decreases count - i,
    {
        let name = entries.key_at(i);
        let directory = *entries.value_at(i);
        push_frame(&mut message, name.as_slice());
        message.push(
            if directory {
                1
            } else {
                0
            },
        );
        proof {
            assert(keys.take(i + 1).drop_last() =~= keys.take(i as int));
            assert(keys.take(i + 1).last() == name@);
            assert(message@ =~= front + (entries_message(keys.take(i as int), entries@)
                + entry_message(name@, directory)));
        }
        i = i + 1;
    }
    assert(keys.take(i as int) =~= keys);
    let stubs = join_path(control, "stubs");
    let view = join_path(stubs.as_str(), digest(message.as_slice()).as_str());
    let package = join_path(view.as_str(), "package");
    ViewPaths { stubs, view, package }
}

/// A link that was found in a view, with the target written in it; none where it is no link.
#[derive(Debug)]
pub struct FoundLink {
    pub name: Vec<u8>,
    pub target: Option<Vec<u8>>,
}

/// What a view must look like that is used again.
pub open spec fn view_fault(
    view: Seq<char>,
    package: Seq<char>,
    source: Seq<char>,
    manifest: Seq<char>,
    names: Seq<Seq<u8>>,
    found_manifest: Option<Seq<char>>,
    found: Map<Seq<u8>, FoundLink>,
) -> Option<StubFault> {
    if found_manifest != Some(manifest) {
        Some(StubFault::ManifestChanged(view))
    } else if !same_names(names, found) {
        Some(StubFault::EntriesChanged(package))
    } else {
        crate::lists::first_some(link_faults(package, source, names, found))
    }
}

/// The names are those that were found.
pub open spec fn same_names(names: Seq<Seq<u8>>, found: Map<Seq<u8>, FoundLink>) -> bool {
    forall|name: Seq<u8>| names.contains(name) <==> #[trigger] found.contains_key(name)
}

/// A link leads where it should.
pub open spec fn link_ok(source: Seq<char>, name: Seq<u8>, target: Option<Vec<u8>>) -> bool {
    match target {
        Some(target) => equal_raw_paths(target@, target_of(source, name)),
        None => false,
    }
}

/// What is wrong with the links of a view.
pub open spec fn link_faults(
    package: Seq<char>,
    source: Seq<char>,
    names: Seq<Seq<u8>>,
    found: Map<Seq<u8>, FoundLink>,
) -> Seq<Option<StubFault>> {
    names.map_values(
        |name: Seq<u8>|
            if link_ok(source, name, found[name].target) {
                None
            } else {
                Some(StubFault::LinkChanged(joined_raw(encode_utf8(package), name)))
            },
    )
}

/// Whether the names in two tables are the same.
fn names_agree(entries: &Table<Vec<u8>, bool>, found: &Table<Vec<u8>, FoundLink>) -> (r: bool)
    ensures
        r == same_names(entries.keys(), found@),
{
    let count = entries.len();
    let mut i: usize = 0;
    while i < count
        invariant
            i <= count,
            count == entries.keys().len(),
            forall|j: int| 0 <= j < i ==> found@.contains_key(#[trigger] entries.keys()[j]),
        decreases count - i,
    {
        let name = entries.key_at(i);
        if !found.contains_key(name) {
            proof {
                assert(entries.keys().contains(name@));
            }
            return false;
        }
        i = i + 1;
    }
    let more = found.len();
    let mut k: usize = 0;
    while k < more
        invariant
            k <= more,
            more == found.keys().len(),
            forall|name: Seq<u8>|
                entries@.contains_key(name) <==> #[trigger] entries.keys().contains(name),
            forall|j: int| 0 <= j < k ==> entries@.contains_key(#[trigger] found.keys()[j]),
        decreases more - k,
    {
        let name = found.key_at(k);
        if !entries.contains_key(name) {
            proof {
                assert(found@.contains_key(name@));
                assert(!entries.keys().contains(name@));
            }
            return false;
        }
        k = k + 1;
    }
    proof {
        assert forall|name: Seq<u8>|
            entries.keys().contains(name) <==> #[trigger] found@.contains_key(name) by {
            if entries.keys().contains(name) {
                let j = choose|j: int|
                    0 <= j < entries.keys().len() && entries.keys()[j] == name;
                assert(found@.contains_key(entries.keys()[j]));
            }
            if found@.contains_key(name) {
                assert(found.keys().contains(name));
                let j = choose|j: int| 0 <= j < found.keys().len() && found.keys()[j] == name;
                assert(entries@.contains_key(found.keys()[j]));
                assert(entries.keys().contains(name));
            }
        }
    }
    true
}

/// Accepts a view that is as it was made: its manifest, the names in it, and where its links lead.
pub fn validate_view(
    view: &str,
    package: &str,
    source: &str,
    manifest: &str,
    entries: &Table<Vec<u8>, bool>,
    found_manifest: Option<&str>,
    found: &Table<Vec<u8>, FoundLink>,
) -> (r: Result<(), StubError>)
    ensures
        ({
            let fault = view_fault(
                view@,
                package@,
                source@,
                manifest@,
                entries.keys(),
                opt_str(found_manifest),
                found@,
            );
            match r {
                Ok(()) => fault is None,
                Err(e) => fault == Some(e@),
            }
        }),
{
    let unchanged = match found_manifest {
        Some(text) => same(text, manifest),
        None => false,
    };
    if !unchanged {
        return Err(StubError::ManifestChanged(view.to_owned()));
    }
    if !names_agree(entries, found) {
        return Err(StubError::EntriesChanged(package.to_owned()));
    }
    let count = entries.len();
    let ghost keys = entries.keys();
    let ghost faults = link_faults(package@, source@, keys, found@);
    let mut i: usize = 0;
    assert(faults.take(0) =~= Seq::<Option<StubFault>>::empty());
    while i < count
        invariant
            i <= count,
            keys == entries.keys(),
            count == keys.len(),
            same_names(keys, found@),
            opt_str(found_manifest) == Some(manifest@),
            faults == link_faults(package@, source@, keys, found@),
            faults.len() == count,
            crate::lists::first_some(faults.take(i as int)) is None,
        decreases count - i,
    {
        let name = entries.key_at(i);
        let expected = entry_target(source, name.as_slice());
        proof {
            assert(keys.contains(name@));
            assert(found@.contains_key(name@));
        }
        let right = match found.get(name) {
            Some(link) => match &link.target {
                Some(target) => same_raw_path(target.as_slice(), expected.as_slice()),
                None => false,
            },
            None => false,
        };
        if !right {
            proof {
                crate::lists::lemma_first_some_at(faults, i as int);
            }
            let path = join_raw(package.as_bytes(), name.as_slice());
            return Err(StubError::LinkChanged(path));
        }
        proof {
            crate::lists::lemma_first_some_next(faults, i as int);
        }
        i = i + 1;
    }
    assert(faults.take(i as int) =~= faults);
    Ok(())
}

/// The view of a package keeps its manifest but for the version: what stands before and after that
/// is the same.
pub proof fn lemma_only_version_changes(original: Seq<char>, stub: Seq<char>)
    requires
        cut_at_version(original) matches Some(Some((before, token, after, _))) && before + token
            + after == original && stub == before + stable_token(token) + after,
    ensures
        ({
            let (before, token, after, _) = cut_at_version(original)->0->0;
            &&& has_prefix(original, before)
            &&& has_prefix(stub, before)
            &&& crate::text::has_suffix(original, after)
            &&& crate::text::has_suffix(stub, after)
        }),
{
    let (before, token, after, _) = cut_at_version(original)->0->0;
    assert(original.subrange(0, before.len() as int) =~= before);
    assert(stub.subrange(0, before.len() as int) =~= before);
    assert(original.subrange(original.len() - after.len(), original.len() as int) =~= after);
    assert(stub.subrange(stub.len() - after.len(), stub.len() as int) =~= after);
}

/// A text in quotes is in those very quotes, unless a quote begins it.
proof fn lemma_quotes_stay(token: Seq<char>, text: Seq<char>)
    requires
        text.len() > 0,
        text[0] != '\"',
        text[0] != '\'',
    ensures
        quotes_of(in_quotes_of(token, text)) == quotes_of(token),
{
    reveal_strlit("\"\"\"");
    reveal_strlit("\'\'\'");
    reveal_strlit("\'");
    reveal_strlit("\"");
    let q = quotes_of(token);
    let written = in_quotes_of(token, text);
    assert(written.subrange(0, q.len() as int) =~= q);
    assert(written[0] == q[0]);
    assert(written[q.len() as int] == text[0]);
    if q.len() == 1 {
        assert(written.subrange(0, 3)[1] == text[0]);
        assert("\"\"\""@[1] == '\"');
        assert("\'\'\'"@[1] == '\'');
        if q == "\""@ {
            assert(written.subrange(0, 1)[0] == '\"');
            assert("\'"@[0] == '\'');
        }
    } else if q == "\'\'\'"@ {
        assert(written.subrange(0, 3)[0] == '\'');
        assert("\"\"\""@[0] == '\"');
    }
}

/// The stub of a stub is itself, and it is read with the stable version.
pub proof fn lemma_stub_of_stub_is_itself(original: Seq<char>, stub: Seq<char>)
    requires
        cut_at_version(original) matches Some(Some((before, token, after, Some(_)))) && stub
            == before + stable_token(token) + after && cut_at_version(stub) == Some(
            Some((before, stable_token(token), after, Some(IMPORT_VERSION@))),
        ),
    ensures
        cut_at_version(stub) matches Some(Some((before, token, after, Some(version)))) && version
            == IMPORT_VERSION@ && stub == before + stable_token(token) + after,
{
    reveal_strlit("0.0.0");
    let (before, token, after, _) = cut_at_version(original)->0->0;
    lemma_quotes_stay(token, IMPORT_VERSION@);
}

/// The first entry's part of a message and the rest.
proof fn lemma_entries_first(names: Seq<Seq<u8>>, entries: Map<Seq<u8>, bool>)
    requires
        names.len() > 0,
    ensures
        entries_message(names, entries) == entry_message(names[0], entries[names[0]])
            + entries_message(names.skip(1), entries),
    decreases names.len(),
{
    let one = entry_message(names[0], entries[names[0]]);
    if names.len() == 1 {
        assert(names.drop_last() =~= Seq::<Seq<u8>>::empty());
        assert(names.skip(1) =~= Seq::<Seq<u8>>::empty());
        assert(entries_message(names.drop_last(), entries) =~= Seq::<u8>::empty());
        assert(entries_message(names.skip(1), entries) =~= Seq::<u8>::empty());
        assert(entries_message(names, entries) =~= one);
        assert(one + Seq::<u8>::empty() =~= one);
    } else {
        let front = names.drop_last();
        lemma_entries_first(front, entries);
        assert(front.skip(1) =~= names.skip(1).drop_last());
        assert(names.skip(1).last() == names.last());
        let last = entry_message(names.last(), entries[names.last()]);
        assert(entries_message(names, entries) =~= one + (entries_message(front.skip(1), entries)
            + last));
    }
}

/// The names can be held by a machine.
pub open spec fn names_fit(names: Seq<Seq<u8>>) -> bool {
    forall|i: int| 0 <= i < names.len() ==> fits(#[trigger] names[i])
}

/// The entries can be read back from what they add to a message.
proof fn lemma_entries_injective(
    a: Seq<Seq<u8>>,
    x: Map<Seq<u8>, bool>,
    b: Seq<Seq<u8>>,
    y: Map<Seq<u8>, bool>,
)
    requires
        names_fit(a),
        names_fit(b),
        entries_message(a, x) == entries_message(b, y),
    ensures
        a == b,
        forall|i: int| 0 <= i < a.len() ==> x[#[trigger] a[i]] == y[a[i]],
    decreases a.len(),
{
    if a.len() == 0 {
        if b.len() > 0 {
            lemma_entries_first(b, y);
            assert(entries_message(b, y).len() > 0);
        }
        assert(a =~= b);
    } else if b.len() == 0 {
        lemma_entries_first(a, x);
        assert(entries_message(a, x).len() > 0);
    } else {
        lemma_entries_first(a, x);
        lemma_entries_first(b, y);
        let p = seq![
            if x[a[0]] {
                1u8
            } else {
                0u8
            },
        ];
        let q = seq![
            if y[b[0]] {
                1u8
            } else {
                0u8
            },
        ];
        let rest_a = entries_message(a.skip(1), x);
        let rest_b = entries_message(b.skip(1), y);
        assert(entry_message(a[0], x[a[0]]) + rest_a =~= frame(a[0]) + (p + rest_a));
        assert(entry_message(b[0], y[b[0]]) + rest_b =~= frame(b[0]) + (q + rest_b));
        lemma_frame_injective(a[0], p + rest_a, b[0], q + rest_b);
        assert((p + rest_a)[0] == p[0]);
        assert((q + rest_b)[0] == q[0]);
        assert((p + rest_a).skip(1) =~= rest_a);
        assert((q + rest_b).skip(1) =~= rest_b);
        assert forall|i: int| 0 <= i < a.skip(1).len() implies fits(
            #[trigger] a.skip(1)[i],
        ) by {
            assert(a.skip(1)[i] == a[i + 1]);
        }
        assert forall|i: int| 0 <= i < b.skip(1).len() implies fits(
            #[trigger] b.skip(1)[i],
        ) by {
            assert(b.skip(1)[i] == b[i + 1]);
        }
        lemma_entries_injective(a.skip(1), x, b.skip(1), y);
        assert(a =~= seq![a[0]] + a.skip(1));
        assert(b =~= seq![b[0]] + b.skip(1));
        assert forall|i: int| 0 <= i < a.len() implies x[#[trigger] a[i]] == y[a[i]] by {
            if i > 0 {
                assert(a.skip(1)[i - 1] == a[i]);
            }
        }
    }
}

/// Views of different packages, with different manifests or with different entries have different
/// messages, so they are kept apart unless the digest collides.
pub proof fn lemma_views_differ(
    source_a: Seq<char>,
    manifest_a: Seq<char>,
    names_a: Seq<Seq<u8>>,
    entries_a: Map<Seq<u8>, bool>,
    source_b: Seq<char>,
    manifest_b: Seq<char>,
    names_b: Seq<Seq<u8>>,
    entries_b: Map<Seq<u8>, bool>,
)
    requires
        fits(encode_utf8(source_a)),
        fits(encode_utf8(source_b)),
        fits(encode_utf8(manifest_a)),
        fits(encode_utf8(manifest_b)),
        names_fit(names_a),
        names_fit(names_b),
        view_message(source_a, manifest_a, names_a, entries_a) == view_message(
            source_b,
            manifest_b,
            names_b,
            entries_b,
        ),
    ensures
        source_a == source_b,
        manifest_a == manifest_b,
        names_a == names_b,
        forall|i: int|
            0 <= i < names_a.len() ==> entries_a[#[trigger] names_a[i]] == entries_b[names_a[i]],
{
    let mark = frame(encode_utf8("typm-package-view-v1"@));
    let (sa, sb) = (encode_utf8(source_a), encode_utf8(source_b));
    let (ma, mb) = (encode_utf8(manifest_a), encode_utf8(manifest_b));
    let (ea, eb) = (entries_message(names_a, entries_a), entries_message(names_b, entries_b));
    let all_a = view_message(source_a, manifest_a, names_a, entries_a);
    let all_b = view_message(source_b, manifest_b, names_b, entries_b);
    let n = mark.len() as int;
    assert(all_a.skip(n) =~= frame(sa) + (frame(ma) + ea));
    assert(all_b.skip(n) =~= frame(sb) + (frame(mb) + eb));
    lemma_frame_injective(sa, frame(ma) + ea, sb, frame(mb) + eb);
    lemma_frame_injective(ma, ea, mb, eb);
    lemma_encoding_injective(source_a, source_b);
    lemma_encoding_injective(manifest_a, manifest_b);
    lemma_entries_injective(names_a, entries_a, names_b, entries_b);
}

} // verus!
