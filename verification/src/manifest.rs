//! The dependencies that a project or a package declares, and the document they are written in.

use toml_edit::{DocumentMut, InlineTable, Item, Value};
use typst_syntax::package::VersionlessPackageSpec;
use vstd::prelude::*;

use crate::git::{source_fault, GitError, GitFault, GitSourceModel, GitSourceSpec};
use crate::ordered::Table;
use crate::path::{chain, chain_texts, join_path, joined_path};
use crate::text::{copy_opt, has_part, opt_str, opt_text, plus, plus3, same, same_opt, texts};

verus! {

broadcast use vstd::string::group_string_axioms;

/// The namespace of a dependency that names none.
pub const DEFAULT_NAMESPACE: &'static str = "typm";

/// Where a package comes from, and the namespace it is imported under.
#[derive(Debug)]
pub struct Dependency {
    pub git: Option<String>,
    pub path: Option<String>,
    pub branch: Option<String>,
    pub tag: Option<String>,
    pub rev: Option<String>,
    pub namespace: String,
}

/// The texts of a dependency.
pub struct DependencyModel {
    pub git: Option<Seq<char>>,
    pub path: Option<Seq<char>>,
    pub branch: Option<Seq<char>>,
    pub tag: Option<Seq<char>>,
    pub rev: Option<Seq<char>>,
    pub namespace: Seq<char>,
}

impl View for Dependency {
    type V = DependencyModel;

    open spec fn view(&self) -> DependencyModel {
        DependencyModel {
            git: opt_text(self.git),
            path: opt_text(self.path),
            branch: opt_text(self.branch),
            tag: opt_text(self.tag),
            rev: opt_text(self.rev),
            namespace: self.namespace@,
        }
    }
}

impl Clone for Dependency {
    fn clone(&self) -> (r: Self)
        ensures
            r@ == self@,
    {
        Dependency {
            git: copy_opt(&self.git),
            path: copy_opt(&self.path),
            branch: copy_opt(&self.branch),
            tag: copy_opt(&self.tag),
            rev: copy_opt(&self.rev),
            namespace: self.namespace.clone(),
        }
    }
}

/// What is wrong with a dependency.
#[derive(Debug)]
pub enum DependencyError {
    SourceCount,
    EmptyPath,
    Identity(String),
    Git(GitError),
    Selectors,
}

/// What is wrong with a dependency, with its texts.
pub enum DependencyFault {
    SourceCount,
    EmptyPath,
    Identity(Seq<char>),
    Git(GitFault),
    Selectors,
}

impl View for DependencyError {
    type V = DependencyFault;

    open spec fn view(&self) -> DependencyFault {
        match self {
            DependencyError::SourceCount => DependencyFault::SourceCount,
            DependencyError::EmptyPath => DependencyFault::EmptyPath,
            DependencyError::Identity(identity) => DependencyFault::Identity(identity@),
            DependencyError::Git(error) => DependencyFault::Git(error@),
            DependencyError::Selectors => DependencyFault::Selectors,
        }
    }
}

/// The text shown for a fault.
pub open spec fn fault_text(fault: DependencyFault) -> Seq<char> {
    match fault {
        DependencyFault::SourceCount =>
            "dependency must specify exactly one of `git` or `path`"@,
        DependencyFault::EmptyPath => "dependency path cannot be empty"@,
        DependencyFault::Identity(identity) => "invalid dependency identity `"@ + identity + "`"@,
        DependencyFault::Git(fault) => crate::git::fault_text(fault),
        DependencyFault::Selectors => "branch, tag, and rev require a Git dependency"@,
    }
}

impl DependencyError {
    /// The text shown to the user.
    pub fn message(&self) -> (r: String)
        ensures
            r@ == fault_text(self@),
    {
        match self {
            DependencyError::SourceCount =>
                "dependency must specify exactly one of `git` or `path`".to_owned(),
            DependencyError::EmptyPath => "dependency path cannot be empty".to_owned(),
            DependencyError::Identity(identity) => plus3(
                "invalid dependency identity `",
                identity.as_str(),
                "`",
            ),
            DependencyError::Git(error) => error.message(),
            DependencyError::Selectors =>
                "branch, tag, and rev require a Git dependency".to_owned(),
        }
    }
}

/// Whether a text is the identity of a package without a version, as
/// `VersionlessPackageSpec::from_str` of `typst_syntax` decides it.
pub uninterp spec fn valid_identity(text: Seq<char>) -> bool;

/// Calls `VersionlessPackageSpec::from_str`. The contract claims that its verdict is a function of
/// the text.
#[verifier::external_body]
fn is_valid_identity(text: &str) -> (r: bool)
    ensures
        r == valid_identity(text@),
{
    text.parse::<VersionlessPackageSpec>().is_ok()
}

/// The identity of a dependency; the name is that of any package where it is not known yet.
pub open spec fn identity_text(namespace: Seq<char>, name: Option<Seq<char>>) -> Seq<char> {
    "@"@ + namespace + "/"@ + match name {
        Some(name) => name,
        None => "package"@,
    }
}

/// The Git source of a dependency.
pub open spec fn git_source_of(m: DependencyModel) -> Option<GitSourceModel> {
    match m.git {
        Some(git) => Some(
            GitSourceModel { git, branch: m.branch, tag: m.tag, rev: m.rev },
        ),
        None => None,
    }
}

/// What is wrong with a dependency of a name, the first fault that counts. `valid` tells whether
/// its identity is one.
pub open spec fn dependency_fault(
    m: DependencyModel,
    name: Option<Seq<char>>,
    valid: bool,
) -> Option<DependencyFault> {
    if m.git is Some == m.path is Some {
        Some(DependencyFault::SourceCount)
    } else if m.path is Some && m.path->0.len() == 0 {
        Some(DependencyFault::EmptyPath)
    } else if !valid {
        Some(DependencyFault::Identity(identity_text(m.namespace, name)))
    } else if m.git is Some {
        match source_fault(git_source_of(m)->0) {
            Some(fault) => Some(DependencyFault::Git(fault)),
            None => None,
        }
    } else if m.branch is Some || m.tag is Some || m.rev is Some {
        Some(DependencyFault::Selectors)
    } else {
        None
    }
}

/// A dependency can be declared under a name.
pub open spec fn declarable(m: DependencyModel, name: Option<Seq<char>>) -> bool {
    dependency_fault(m, name, valid_identity(identity_text(m.namespace, name))) is None
}

impl Dependency {
    /// The identity of the dependency under a name.
    fn identity(&self, name: Option<&str>) -> (r: String)
        ensures
            r@ == identity_text(self@.namespace, opt_str(name)),
    {
        let mut r = plus3("@", self.namespace.as_str(), "/");
        match name {
            Some(name) => r.append(name),
            None => r.append("package"),
        }
        r
    }

    /// Accepts a dependency that can be declared under a name, or under some name.
    pub fn validate(&self, name: Option<&str>) -> (r: Result<(), DependencyError>)
        ensures
            ({
                let identity = identity_text(self@.namespace, opt_str(name));
                match r {
                    Ok(()) => dependency_fault(
                        self@,
                        opt_str(name),
                        valid_identity(identity),
                    ) is None,
                    Err(e) => dependency_fault(self@, opt_str(name), valid_identity(identity))
                        == Some(e@),
                }
            }),
    {
        let identity = self.identity(name);
        self.validate_identified(name, is_valid_identity(identity.as_str()))
    }

    /// Accepts a dependency that can be declared under a name, where `valid` tells whether its
    /// identity under that name is one.
    pub fn validate_identified(&self, name: Option<&str>, valid: bool) -> (r: Result<
        (),
        DependencyError,
    >)
        ensures
            match r {
                Ok(()) => dependency_fault(self@, opt_str(name), valid) is None,
                Err(e) => dependency_fault(self@, opt_str(name), valid) == Some(e@),
            },
    {
        if self.git.is_some() == self.path.is_some() {
            return Err(DependencyError::SourceCount);
        }
        match &self.path {
            Some(path) => if path.as_str().is_empty() {
                return Err(DependencyError::EmptyPath);
            },
            None => {},
        }
        if !valid {
            return Err(DependencyError::Identity(self.identity(name)));
        }
        match self.git_source() {
            Some(source) => match source.validate() {
                Ok(()) => Ok(()),
                Err(e) => Err(DependencyError::Git(e)),
            },
            None => if self.branch.is_some() || self.tag.is_some() || self.rev.is_some() {
                Err(DependencyError::Selectors)
            } else {
                Ok(())
            },
        }
    }

    /// The Git source of the dependency, if it is one.
    pub fn git_source(&self) -> (r: Option<GitSourceSpec>)
        ensures
            match r {
                Some(source) => git_source_of(self@) == Some(source@),
                None => git_source_of(self@) is None,
            },
    {
        match &self.git {
            Some(git) => Some(
                GitSourceSpec {
                    git: git.clone(),
                    branch: copy_opt(&self.branch),
                    tag: copy_opt(&self.tag),
                    rev: copy_opt(&self.rev),
                },
            ),
            None => None,
        }
    }

    /// Whether the two dependencies are the same.
    pub fn same_as(&self, other: &Dependency) -> (r: bool)
        ensures
            r == (self@ == other@),
    {
        same_opt(&self.git, &other.git) && same_opt(&self.path, &other.path) && same_opt(
            &self.branch,
            &other.branch,
        ) && same_opt(&self.tag, &other.tag) && same_opt(&self.rev, &other.rev) && same(
            self.namespace.as_str(),
            other.namespace.as_str(),
        )
    }
}

/// The dependencies that are declared, by name.
pub struct Manifest {
    pub dependencies: Table<String, Dependency>,
}

impl View for Manifest {
    type V = Map<Seq<char>, DependencyModel>;

    open spec fn view(&self) -> Map<Seq<char>, DependencyModel> {
        self.dependencies@.map_values(|d: Dependency| d@)
    }
}

impl Default for Manifest {
    fn default() -> (r: Self)
        ensures
            r@ == Map::<Seq<char>, DependencyModel>::empty(),
    {
        let r = Manifest { dependencies: Table::new() };
        assert(r@ =~= Map::<Seq<char>, DependencyModel>::empty());
        r
    }
}

/// A dependency that cannot be declared.
#[derive(Debug)]
pub struct InvalidDependency {
    pub name: String,
    pub error: DependencyError,
}

impl InvalidDependency {
    /// The text that says which dependency it is.
    pub fn message(&self) -> (r: String)
        ensures
            r@ == "invalid dependency `"@ + self.name@ + "`"@,
    {
        plus3("invalid dependency `", self.name.as_str(), "`")
    }
}

impl Manifest {
    /// The first dependency, by name, that cannot be declared, and what is wrong with it.
    pub open spec fn refuses(&self, name: Seq<char>, fault: DependencyFault) -> bool {
        let keys = self.dependencies.keys();
        exists|i: int|
            {
                &&& 0 <= i < keys.len()
                &&& (#[trigger] keys[i]) == name
                &&& dependency_fault(
                    self@[name],
                    Some(name),
                    valid_identity(identity_text(self@[name].namespace, Some(name))),
                ) == Some(fault)
                &&& forall|j: int|
                    0 <= j < i ==> declarable(self@[#[trigger] keys[j]], Some(keys[j]))
            }
    }

    /// Accepts dependencies that can all be declared; else tells the first, by name, that cannot.
    pub fn validate(&self) -> (r: Result<(), InvalidDependency>)
        ensures
            match r {
                Ok(()) => forall|name: Seq<char>| #[trigger]
                    self@.contains_key(name) ==> declarable(self@[name], Some(name)),
                Err(e) => self.refuses(e.name@, e.error@),
            },
    {
        let count = self.dependencies.len();
        let mut i: usize = 0;
        while i < count
            invariant
                i <= count,
                count == self.dependencies.keys().len(),
                forall|j: int|
                    0 <= j < i ==> declarable(
                        self@[#[trigger] self.dependencies.keys()[j]],
                        Some(self.dependencies.keys()[j]),
                    ),
            decreases count - i,
        {
            let name = self.dependencies.key_at(i);
            let dependency = self.dependencies.value_at(i);
            assert(self@[name@] == dependency@);
            match dependency.validate(Some(name.as_str())) {
                Ok(()) => {},
                Err(error) => {
                    let e = InvalidDependency { name: name.clone(), error };
                    assert(self.dependencies.keys()[i as int] == e.name@);
                    return Err(e);
                },
            }
            i = i + 1;
        }
        assert forall|name: Seq<char>| #[trigger] self@.contains_key(name) implies declarable(
            self@[name],
            Some(name),
        ) by {
            assert(self.dependencies@.contains_key(name));
            assert(self.dependencies.keys().contains(name));
            let j = choose|j: int|
                0 <= j < self.dependencies.keys().len() && self.dependencies.keys()[j] == name;
            assert(self.dependencies.keys()[j] == name);
        }
        Ok(())
    }
}

/// A TOML document that can be edited with its comments and layout kept, of `toml_edit`.
#[verifier::external_type_specification]
#[verifier::external_body]
pub struct ExDocumentMut(toml_edit::DocumentMut);

/// What stands in the tables of a document, by the table's name and the entry's: of each entry that
/// is a table itself, the keys that hold a string.
pub uninterp spec fn tables_of(document: DocumentMut) -> Map<
    Seq<char>,
    Map<Seq<char>, Map<Seq<char>, Seq<char>>>,
>;

/// The names under which a document holds something else than a table.
pub uninterp spec fn others_of(document: DocumentMut) -> Set<Seq<char>>;

/// The entries, by the table's name and theirs, that are made of dotted keys and hold nothing.
pub uninterp spec fn hollow_of(document: DocumentMut) -> Set<(Seq<char>, Seq<char>)>;

/// The texts, comments among them, before and after what stands under a key, as far as they are set:
/// by the keys that lead there, for what stands in the document and in its tables, and for the values
/// in their entries. Under no key at all it is what stands at the end of the document.
pub uninterp spec fn decors_of(document: DocumentMut) -> Map<
    Seq<Seq<char>>,
    (Option<Seq<char>>, Option<Seq<char>>),
>;

/// The texts, comments among them, before and after a key itself, with the keys it is dotted to, as
/// far as they are set: by the keys that lead there, for the values that stand in the document, in its
/// tables and in their entries.
pub uninterp spec fn key_decors_of(document: DocumentMut) -> Map<
    Seq<Seq<char>>,
    (Option<Seq<char>>, Option<Seq<char>>),
>;

/// What a text is read to be: the names under which it holds something else than a table, what
/// stands in its tables, and what stands before and after that and before and after its keys; none
/// where it is no TOML document.
pub uninterp spec fn read_document(text: Seq<char>) -> Option<
    (
        Set<Seq<char>>,
        Map<Seq<char>, Map<Seq<char>, Map<Seq<char>, Seq<char>>>>,
        Map<Seq<Seq<char>>, (Option<Seq<char>>, Option<Seq<char>>)>,
        Map<Seq<Seq<char>>, (Option<Seq<char>>, Option<Seq<char>>)>,
    ),
>;

/// The entries of a table; a table that is missing has none.
pub open spec fn table_in(
    tables: Map<Seq<char>, Map<Seq<char>, Map<Seq<char>, Seq<char>>>>,
    table: Seq<char>,
) -> Map<Seq<char>, Map<Seq<char>, Seq<char>>> {
    if tables.contains_key(table) {
        tables[table]
    } else {
        Map::empty()
    }
}

/// An entry holds no string.
pub open spec fn without_strings(entry: Map<Seq<char>, Seq<char>>) -> bool {
    entry == Map::<Seq<char>, Seq<char>>::empty()
}

/// Every entry holds a string.
pub open spec fn none_empty(entries: Map<Seq<char>, Map<Seq<char>, Seq<char>>>) -> bool {
    forall|name: Seq<char>| #[trigger]
        entries.contains_key(name) ==> !without_strings(entries[name])
}

/// The surroundings of something that was put in afresh: none are set.
pub open spec fn bare() -> (Option<Seq<char>>, Option<Seq<char>>) {
    (None, None)
}

/// The surroundings in a document once a table of that name is there.
pub open spec fn decors_with_table(
    decors: Map<Seq<Seq<char>>, (Option<Seq<char>>, Option<Seq<char>>)>,
    table: Seq<char>,
) -> Map<Seq<Seq<char>>, (Option<Seq<char>>, Option<Seq<char>>)> {
    if decors.contains_key(seq![table]) {
        decors
    } else {
        decors.insert(seq![table], bare())
    }
}

/// The surroundings in a document without those of an entry and of what stands in it.
pub open spec fn decors_without_entry(
    decors: Map<Seq<Seq<char>>, (Option<Seq<char>>, Option<Seq<char>>)>,
    table: Seq<char>,
    name: Seq<char>,
) -> Map<Seq<Seq<char>>, (Option<Seq<char>>, Option<Seq<char>>)> {
    Map::new(
        |keys: Seq<Seq<char>>| decors.contains_key(keys) && !seq![table, name].is_prefix_of(keys),
        |keys: Seq<Seq<char>>| decors[keys],
    )
}

/// A text without its carriage returns.
pub open spec fn without_returns(text: Seq<char>) -> Seq<char> {
    text.filter(|c: char| c != '\r')
}

/// What was set before or after something occurs in a text, without its carriage returns.
pub open spec fn shows(text: Seq<char>, round: (Option<Seq<char>>, Option<Seq<char>>)) -> bool {
    &&& round.0 is Some ==> has_part(text, without_returns(round.0->0))
    &&& round.1 is Some ==> has_part(text, without_returns(round.1->0))
}

/// Calls `DocumentMut::from_str` of `toml_edit`. The contract claims that whether a text is a
/// document, and what then stands in it and round it, are functions of the text, and that no table
/// made of dotted keys is then empty.
#[verifier::external_body]
fn parse_document(text: &str) -> (r: Option<DocumentMut>)
    ensures
        match r {
            Some(document) => {
                &&& read_document(text@) == Some(
                    (
                        others_of(document),
                        tables_of(document),
                        decors_of(document),
                        key_decors_of(document),
                    ),
                )
                &&& hollow_of(document) == Set::<(Seq<char>, Seq<char>)>::empty()
            },
            None => read_document(text@) is None,
        },
{
    text.parse::<DocumentMut>().ok()
}

/// Calls `Table::get` and `Item::is_table_like` of `toml_edit`. The contract claims that the answer
/// tells whether the document holds something else than a table under a name.
#[verifier::external_body]
fn has_other(document: &DocumentMut, table: &str) -> (r: bool)
    ensures
        r == others_of(*document).contains(table@),
{
    document.get(table).is_some_and(|item| !item.is_table_like())
}

/// Calls `TableLike::get` of `toml_edit`. The contract claims that the answer tells whether there is
/// an entry of that name in the table that is a table itself.
#[verifier::external_body]
fn has_entry(document: &DocumentMut, table: &str, name: &str) -> (r: bool)
    ensures
        r == table_in(tables_of(*document), table@).contains_key(name@),
{
    document
        .get(table)
        .and_then(Item::as_table_like)
        .and_then(|entries| entries.get(name))
        .is_some_and(Item::is_table_like)
}

/// Calls `TableLike::get` and `Item::is_value` of `toml_edit` on an entry. The contract claims that
/// the answer tells whether the entry holds a value under that key.
#[verifier::external_body]
fn has_value(document: &DocumentMut, table: &str, name: &str, key: &str) -> (r: bool)
    requires
        table_in(tables_of(*document), table@).contains_key(name@),
    ensures
        r == decors_of(*document).contains_key(seq![table@, name@, key@]),
{
    document
        .get(table)
        .and_then(|entries| entries.get(name))
        .and_then(|entry| entry.get(key))
        .is_some_and(Item::is_value)
}

/// A name is listed as that of an entry that is a table.
pub open spec fn listed_as_table(list: Seq<(String, bool)>, name: Seq<char>) -> bool {
    exists|i: int| 0 <= i < list.len() && (#[trigger] list[i]).0@ == name && list[i].1
}

/// Calls `TableLike::iter` and `Item::is_table_like` of `toml_edit` on a table. The contract claims
/// that the names listed with a yes are those of the entries that are tables themselves.
#[verifier::external_body]
fn list_entries(document: &DocumentMut, table: &str) -> (r: Vec<(String, bool)>)
    ensures
        forall|name: Seq<char>| #[trigger]
            listed_as_table(r@, name) <==> table_in(tables_of(*document), table@).contains_key(
                name,
            ),
{
    match document.get(table).and_then(Item::as_table_like) {
        Some(entries) => entries
            .iter()
            .map(|(name, item)| (name.to_owned(), item.is_table_like()))
            .collect(),
        None => Vec::new(),
    }
}

/// Calls `TableLike::get` and `Item::as_str` of `toml_edit` on an entry. The contract claims that it
/// gives the string that stands under that key, if one does.
#[verifier::external_body]
fn string_at(document: &DocumentMut, table: &str, name: &str, key: &str) -> (r: Option<String>)
    requires
        table_in(tables_of(*document), table@).contains_key(name@),
    ensures
        opt_text(r) == field_in(table_in(tables_of(*document), table@)[name@], key@),
{
    document
        .get(table)
        .and_then(|entries| entries.get(name))
        .and_then(|entry| entry.get(key))
        .and_then(Item::as_str)
        .map(str::to_owned)
}

/// Calls `TableLike::insert` of `toml_edit` on a table, made first where it is missing, with an
/// empty inline table. The contract claims that the entry of that name is then empty, with nothing
/// set round it and its key, and that the others stay, with what stands round them.
#[verifier::external_body]
fn insert_entry(document: &mut DocumentMut, table: &str, name: &str)
    requires
        !others_of(*old(document)).contains(table@),
    ensures
        others_of(*final(document)) == others_of(*old(document)),
        tables_of(*final(document)) == tables_of(*old(document)).insert(
            table@,
            table_in(tables_of(*old(document)), table@).insert(
                name@,
                Map::<Seq<char>, Seq<char>>::empty(),
            ),
        ),
        hollow_of(*final(document)) == hollow_of(*old(document)).remove((table@, name@)),
        decors_of(*final(document)) == decors_without_entry(
            decors_with_table(decors_of(*old(document)), table@),
            table@,
            name@,
        ).insert(seq![table@, name@], bare()),
        key_decors_of(*final(document)) == decors_without_entry(
            key_decors_of(*old(document)),
            table@,
            name@,
        ).insert(seq![table@, name@], bare()),
{
    document
        .entry(table)
        .or_insert(Item::Table(toml_edit::Table::new()))
        .as_table_like_mut()
        .expect("a table")
        .insert(name, Item::Value(Value::InlineTable(InlineTable::new())));
}

/// Calls `TableLike::remove` of `toml_edit` on a table, made first where it is missing. The contract
/// claims that there is then no entry of that name and that the others stay, with what stands round
/// them.
#[verifier::external_body]
fn remove_entry(document: &mut DocumentMut, table: &str, name: &str)
    requires
        !others_of(*old(document)).contains(table@),
    ensures
        others_of(*final(document)) == others_of(*old(document)),
        tables_of(*final(document)) == tables_of(*old(document)).insert(
            table@,
            table_in(tables_of(*old(document)), table@).remove(name@),
        ),
        hollow_of(*final(document)) == hollow_of(*old(document)).remove((table@, name@)),
        decors_of(*final(document)) == decors_without_entry(
            decors_with_table(decors_of(*old(document)), table@),
            table@,
            name@,
        ),
        key_decors_of(*final(document)) == decors_without_entry(
            key_decors_of(*old(document)),
            table@,
            name@,
        ),
{
    document
        .entry(table)
        .or_insert(Item::Table(toml_edit::Table::new()))
        .as_table_like_mut()
        .expect("a table")
        .remove(name);
}

/// Calls `TableLike::insert` of `toml_edit` on an entry. The contract claims that the entry then
/// holds the text under that key, with nothing set round the value and the key, and that everything
/// else stays, with what stands round it.
#[verifier::external_body]
fn add_field(document: &mut DocumentMut, table: &str, name: &str, key: &str, text: &str)
    requires
        table_in(tables_of(*old(document)), table@).contains_key(name@),
    ensures
        others_of(*final(document)) == others_of(*old(document)),
        tables_of(*final(document)) == tables_of(*old(document)).insert(
            table@,
            table_in(tables_of(*old(document)), table@).insert(
                name@,
                table_in(tables_of(*old(document)), table@)[name@].insert(key@, text@),
            ),
        ),
        hollow_of(*final(document)) == hollow_of(*old(document)).remove((table@, name@)),
        decors_of(*final(document)) == decors_of(*old(document)).insert(
            seq![table@, name@, key@],
            bare(),
        ),
        key_decors_of(*final(document)) == key_decors_of(*old(document)).insert(
            seq![table@, name@, key@],
            bare(),
        ),
{
    document
        .get_mut(table)
        .and_then(|entries| entries.get_mut(name))
        .and_then(Item::as_table_like_mut)
        .expect("an entry")
        .insert(key, Item::Value(Value::from(text)));
}

/// Calls `TableLike::insert` of `toml_edit` on an entry, with the texts round the value that
/// `Value::decor` gives of the one that was there. The contract claims that the entry then holds the
/// text under that key, that what stood round the value stays, that nothing is set round the key, and
/// that everything else stays, with what stands round it.
#[verifier::external_body]
fn replace_field(document: &mut DocumentMut, table: &str, name: &str, key: &str, text: &str)
    requires
        table_in(tables_of(*old(document)), table@).contains_key(name@),
        decors_of(*old(document)).contains_key(seq![table@, name@, key@]),
    ensures
        others_of(*final(document)) == others_of(*old(document)),
        tables_of(*final(document)) == tables_of(*old(document)).insert(
            table@,
            table_in(tables_of(*old(document)), table@).insert(
                name@,
                table_in(tables_of(*old(document)), table@)[name@].insert(key@, text@),
            ),
        ),
        hollow_of(*final(document)) == hollow_of(*old(document)).remove((table@, name@)),
        decors_of(*final(document)) == decors_of(*old(document)),
        key_decors_of(*final(document)) == key_decors_of(*old(document)).insert(
            seq![table@, name@, key@],
            bare(),
        ),
{
    let entry = document
        .get_mut(table)
        .and_then(|entries| entries.get_mut(name))
        .and_then(Item::as_table_like_mut)
        .expect("an entry");
    let mut value = Value::from(text);
    let previous = entry.get(key).and_then(Item::as_value).expect("a value");
    *value.decor_mut() = previous.decor().clone();
    entry.insert(key, Item::Value(value));
}

/// Calls `TableLike::remove` of `toml_edit` on an entry. The contract claims that the entry then
/// holds nothing under that key, that it is not empty while a string stands in it, and that
/// everything else stays, with what stands round it.
#[verifier::external_body]
fn remove_field(document: &mut DocumentMut, table: &str, name: &str, key: &str)
    requires
        table_in(tables_of(*old(document)), table@).contains_key(name@),
    ensures
        others_of(*final(document)) == others_of(*old(document)),
        tables_of(*final(document)) == tables_of(*old(document)).insert(
            table@,
            table_in(tables_of(*old(document)), table@).insert(
                name@,
                table_in(tables_of(*old(document)), table@)[name@].remove(key@),
            ),
        ),
        forall|entry: (Seq<char>, Seq<char>)|
            entry != (table@, name@) ==> (#[trigger] hollow_of(*final(document)).contains(entry)
                <==> hollow_of(*old(document)).contains(entry)),
        hollow_of(*final(document)).contains((table@, name@)) ==> without_strings(
            table_in(tables_of(*old(document)), table@)[name@].remove(key@),
        ),
        decors_of(*final(document)) == decors_of(*old(document)).remove(
            seq![table@, name@, key@],
        ),
        key_decors_of(*final(document)) == key_decors_of(*old(document)).remove(
            seq![table@, name@, key@],
        ),
{
    document
        .get_mut(table)
        .and_then(|entries| entries.get_mut(name))
        .and_then(Item::as_table_like_mut)
        .expect("an entry")
        .remove(key);
}

/// Calls `DocumentMut::to_string` of `toml_edit`. The contract claims that the text shows what was
/// set before and after what stands in the document and its keys, and, where no entry made of dotted
/// keys is empty, that it is read as a document again that holds something else than a table under the
/// same names, and the same entries in every table in which each entry holds a string. In which order
/// and with which further spaces the text has all this is left unsaid.
#[verifier::external_body]
fn document_text(document: &DocumentMut) -> (r: String)
    ensures
        forall|keys: Seq<Seq<char>>| #[trigger]
            decors_of(*document).contains_key(keys) ==> shows(r@, decors_of(*document)[keys]),
        forall|keys: Seq<Seq<char>>| #[trigger]
            key_decors_of(*document).contains_key(keys) ==> shows(
                r@,
                key_decors_of(*document)[keys],
            ),
        hollow_of(*document) == Set::<(Seq<char>, Seq<char>)>::empty() ==> match read_document(r@) {
            Some((others, tables, _, _)) => {
                &&& others == others_of(*document)
                &&& forall|table: Seq<char>|
                    none_empty(table_in(tables_of(*document), table)) ==> #[trigger] table_in(
                        tables,
                        table,
                    ) == table_in(tables_of(*document), table)
            },
            None => false,
        },
{
    document.to_string()
}

/// The table in which a manifest declares its dependencies.
pub const DEPENDENCIES: &'static str = "dependencies";

/// The dependencies are those that stand in the entries.
pub open spec fn entries_are(
    entries: Map<Seq<char>, Map<Seq<char>, Seq<char>>>,
    dependencies: Map<Seq<char>, DependencyModel>,
) -> bool {
    &&& forall|name: Seq<char>| #[trigger]
        entries.contains_key(name) ==> dependencies.contains_key(name)
    &&& holds_all(entries, dependencies)
}

/// A text is a document of these dependencies, and others can be declared in it: they are a table or
/// missing.
pub open spec fn is_document_of(
    text: Seq<char>,
    dependencies: Map<Seq<char>, DependencyModel>,
) -> bool {
    match read_document(text) {
        Some((others, tables, _, _)) => !others.contains(DEPENDENCIES@) && entries_are(
            table_in(tables, DEPENDENCIES@),
            dependencies,
        ),
        None => false,
    }
}

/// A text is a document in which dependencies can be declared, with these entries.
pub open spec fn writes(text: Seq<char>, entries: Map<Seq<char>, Map<Seq<char>, Seq<char>>>) -> bool {
    match read_document(text) {
        Some((others, tables, _, _)) => !others.contains(DEPENDENCIES@) && table_in(
            tables,
            DEPENDENCIES@,
        ) == entries,
        None => false,
    }
}

/// The dependencies stand in the entries as they are.
pub open spec fn holds_all(
    entries: Map<Seq<char>, Map<Seq<char>, Seq<char>>>,
    dependencies: Map<Seq<char>, DependencyModel>,
) -> bool {
    forall|name: Seq<char>| #[trigger]
        dependencies.contains_key(name) ==> entries.contains_key(name) && dependency_in(
            entries[name],
        ) == dependencies[name]
}

/// What a dependency writes under a key of its entry. The namespace is written only where it is
/// not the one that is meant without it.
pub open spec fn field_of(m: DependencyModel, key: Seq<char>) -> Option<Seq<char>> {
    if key == "git"@ {
        m.git
    } else if key == "path"@ {
        m.path
    } else if key == "branch"@ {
        m.branch
    } else if key == "tag"@ {
        m.tag
    } else if key == "rev"@ {
        m.rev
    } else if key == "namespace"@ && m.namespace != DEFAULT_NAMESPACE@ {
        Some(m.namespace)
    } else {
        None
    }
}

/// The keys of an entry.
pub open spec fn field_keys() -> Seq<Seq<char>> {
    seq!["git"@, "path"@, "branch"@, "tag"@, "rev"@, "namespace"@]
}

/// An entry after a field was written or removed.
pub open spec fn with_field(
    entry: Map<Seq<char>, Seq<char>>,
    key: Seq<char>,
    value: Option<Seq<char>>,
) -> Map<Seq<char>, Seq<char>> {
    match value {
        Some(text) => entry.insert(key, text),
        None => entry.remove(key),
    }
}

/// An entry after the first `n` fields of a dependency were written or removed.
pub open spec fn with_fields(
    entry: Map<Seq<char>, Seq<char>>,
    m: DependencyModel,
    n: nat,
) -> Map<Seq<char>, Seq<char>>
    decreases n,
{
    if n == 0 {
        entry
    } else {
        let key = field_keys()[n - 1];
        with_field(with_fields(entry, m, (n - 1) as nat), key, field_of(m, key))
    }
}

/// What stands round the values in a document after the first `n` fields of a dependency were
/// written or removed: what stood round a value that is replaced stays.
pub open spec fn decors_with_fields(
    decors: Map<Seq<Seq<char>>, (Option<Seq<char>>, Option<Seq<char>>)>,
    name: Seq<char>,
    m: DependencyModel,
    n: nat,
) -> Map<Seq<Seq<char>>, (Option<Seq<char>>, Option<Seq<char>>)>
    decreases n,
{
    if n == 0 {
        decors
    } else {
        let key = field_keys()[n - 1];
        decors_with_field(
            decors_with_fields(decors, name, m, (n - 1) as nat),
            name,
            key,
            field_of(m, key) is Some,
        )
    }
}

/// What stands round the values in a document after a field was written or removed.
pub open spec fn decors_with_field(
    decors: Map<Seq<Seq<char>>, (Option<Seq<char>>, Option<Seq<char>>)>,
    name: Seq<char>,
    key: Seq<char>,
    written: bool,
) -> Map<Seq<Seq<char>>, (Option<Seq<char>>, Option<Seq<char>>)> {
    let keys = seq![DEPENDENCIES@, name, key];
    if !written {
        decors.remove(keys)
    } else if decors.contains_key(keys) {
        decors
    } else {
        decors.insert(keys, bare())
    }
}

/// What stands round the keys in a document after the first `n` fields of a dependency were written
/// or removed.
pub open spec fn key_decors_with_fields(
    decors: Map<Seq<Seq<char>>, (Option<Seq<char>>, Option<Seq<char>>)>,
    name: Seq<char>,
    m: DependencyModel,
    n: nat,
) -> Map<Seq<Seq<char>>, (Option<Seq<char>>, Option<Seq<char>>)>
    decreases n,
{
    if n == 0 {
        decors
    } else {
        let key = field_keys()[n - 1];
        key_decors_with_field(
            key_decors_with_fields(decors, name, m, (n - 1) as nat),
            name,
            key,
            field_of(m, key) is Some,
        )
    }
}

/// What stands round the keys in a document after a field was written or removed.
pub open spec fn key_decors_with_field(
    decors: Map<Seq<Seq<char>>, (Option<Seq<char>>, Option<Seq<char>>)>,
    name: Seq<char>,
    key: Seq<char>,
    written: bool,
) -> Map<Seq<Seq<char>>, (Option<Seq<char>>, Option<Seq<char>>)> {
    let keys = seq![DEPENDENCIES@, name, key];
    if written {
        decors.insert(keys, bare())
    } else {
        decors.remove(keys)
    }
}

/// What stands round things in a document with an entry of that name: made afresh where it was not
/// there.
pub open spec fn decors_with_entry(
    decors: Map<Seq<Seq<char>>, (Option<Seq<char>>, Option<Seq<char>>)>,
    name: Seq<char>,
    present: bool,
) -> Map<Seq<Seq<char>>, (Option<Seq<char>>, Option<Seq<char>>)> {
    if present {
        decors
    } else {
        decors_without_entry(
            decors_with_table(decors, DEPENDENCIES@),
            DEPENDENCIES@,
            name,
        ).insert(seq![DEPENDENCIES@, name], bare())
    }
}

/// What stands round the keys in a document with an entry of that name: made afresh where it was not
/// there.
pub open spec fn key_decors_with_entry(
    decors: Map<Seq<Seq<char>>, (Option<Seq<char>>, Option<Seq<char>>)>,
    name: Seq<char>,
    present: bool,
) -> Map<Seq<Seq<char>>, (Option<Seq<char>>, Option<Seq<char>>)> {
    if present {
        decors
    } else {
        decors_without_entry(decors, DEPENDENCIES@, name).insert(
            seq![DEPENDENCIES@, name],
            bare(),
        )
    }
}

/// The dependency that stands in an entry.
fn dependency_at(document: &DocumentMut, name: &str) -> (r: Dependency)
    requires
        table_in(tables_of(*document), DEPENDENCIES@).contains_key(name@),
    ensures
        r@ == dependency_in(table_in(tables_of(*document), DEPENDENCIES@)[name@]),
{
    Dependency {
        git: string_at(document, DEPENDENCIES, name, "git"),
        path: string_at(document, DEPENDENCIES, name, "path"),
        branch: string_at(document, DEPENDENCIES, name, "branch"),
        tag: string_at(document, DEPENDENCIES, name, "tag"),
        rev: string_at(document, DEPENDENCIES, name, "rev"),
        namespace: match string_at(document, DEPENDENCIES, name, "namespace") {
            Some(namespace) => namespace,
            None => DEFAULT_NAMESPACE.to_owned(),
        },
    }
}

impl Manifest {
    /// Whether the dependencies are those that stand in a document.
    fn stands_in(&self, document: &DocumentMut) -> (r: bool)
        ensures
            r == entries_are(table_in(tables_of(*document), DEPENDENCIES@), self@),
    {
        let ghost entries = table_in(tables_of(*document), DEPENDENCIES@);
        let list = list_entries(document, DEPENDENCIES);
        let mut i: usize = 0;
        while i < list.len()
            invariant
                i <= list@.len(),
                entries == table_in(tables_of(*document), DEPENDENCIES@),
                forall|name: Seq<char>| #[trigger]
                    listed_as_table(list@, name) <==> entries.contains_key(name),
                forall|j: int|
                    0 <= j < i ==> ((#[trigger] list@[j]).1 ==> self@.contains_key(list@[j].0@)),
            decreases list@.len() - i,
        {
            if list[i].1 && !self.dependencies.contains_key(&list[i].0) {
                assert(listed_as_table(list@, list@[i as int].0@));
                return false;
            }
            i = i + 1;
        }
        assert forall|name: Seq<char>| #[trigger]
            entries.contains_key(name) implies self@.contains_key(name) by {
            assert(listed_as_table(list@, name));
        }
        let count = self.dependencies.len();
        let ghost keys = self.dependencies.keys();
        let mut k: usize = 0;
        while k < count
            invariant
                k <= count,
                keys == self.dependencies.keys(),
                count == keys.len(),
                entries == table_in(tables_of(*document), DEPENDENCIES@),
                forall|j: int|
                    0 <= j < k ==> entries.contains_key(#[trigger] keys[j]) && dependency_in(
                        entries[keys[j]],
                    ) == self@[keys[j]],
            decreases count - k,
        {
            let name = self.dependencies.key_at(k);
            let dependency = self.dependencies.value_at(k);
            proof {
                assert(self@.contains_key(name@) && self@[name@] == dependency@);
            }
            if !has_entry(document, DEPENDENCIES, name.as_str()) {
                return false;
            }
            if !dependency_at(document, name.as_str()).same_as(dependency) {
                return false;
            }
            k = k + 1;
        }
        assert forall|name: Seq<char>| #[trigger]
            self@.contains_key(name) implies entries.contains_key(name) && dependency_in(
            entries[name],
        ) == self@[name] by {
            assert(self.dependencies@.contains_key(name));
            assert(keys.contains(name));
            let j = choose|j: int| 0 <= j < keys.len() && keys[j] == name;
            assert(entries.contains_key(keys[j]));
        }
        true
    }
}

/// The entries of dependencies that can be declared all hold a string.
proof fn lemma_declared_is_not_empty(
    entries: Map<Seq<char>, Map<Seq<char>, Seq<char>>>,
    dependencies: Map<Seq<char>, DependencyModel>,
)
    requires
        entries_are(entries, dependencies),
        forall|name: Seq<char>| #[trigger]
            dependencies.contains_key(name) ==> declarable(dependencies[name], Some(name)),
    ensures
        none_empty(entries),
{
    assert forall|name: Seq<char>| #[trigger] entries.contains_key(name) implies !without_strings(
        entries[name],
    ) by {
        assert(dependencies.contains_key(name));
        assert(declarable(dependencies[name], Some(name)));
        assert(dependency_in(entries[name]) == dependencies[name]);
        assert(entries[name].contains_key("git"@) || entries[name].contains_key("path"@));
    }
}

/// The value of a key in an entry.
pub open spec fn field_in(entry: Map<Seq<char>, Seq<char>>, key: Seq<char>) -> Option<Seq<char>> {
    if entry.contains_key(key) {
        Some(entry[key])
    } else {
        None
    }
}

/// The dependency that an entry is read as.
pub open spec fn dependency_in(entry: Map<Seq<char>, Seq<char>>) -> DependencyModel {
    DependencyModel {
        git: field_in(entry, "git"@),
        path: field_in(entry, "path"@),
        branch: field_in(entry, "branch"@),
        tag: field_in(entry, "tag"@),
        rev: field_in(entry, "rev"@),
        namespace: match field_in(entry, "namespace"@) {
            Some(namespace) => namespace,
            None => DEFAULT_NAMESPACE@,
        },
    }
}

/// The six keys are six.
pub(crate) proof fn lemma_keys_distinct()
    ensures
        field_keys().no_duplicates(),
        field_keys().len() == 6,
{
    reveal_strlit("git");
    reveal_strlit("path");
    reveal_strlit("branch");
    reveal_strlit("tag");
    reveal_strlit("rev");
    reveal_strlit("namespace");
    let k = field_keys();
    assert(k[0].len() == 3 && k[1].len() == 4 && k[2].len() == 6 && k[3].len() == 3 && k[4].len()
        == 3 && k[5].len() == 9);
    assert(k[0][0] == 'g' && k[3][0] == 't' && k[4][0] == 'r');
}

/// The entry that was written for a dependency is read as that dependency.
pub proof fn lemma_entry_reads_back(entry: Map<Seq<char>, Seq<char>>, m: DependencyModel)
    ensures
        dependency_in(with_fields(entry, m, 6)) == m,
{
    lemma_keys_distinct();
    lemma_field_written(entry, m, 0, 6);
    lemma_field_written(entry, m, 1, 6);
    lemma_field_written(entry, m, 2, 6);
    lemma_field_written(entry, m, 3, 6);
    lemma_field_written(entry, m, 4, 6);
    lemma_field_written(entry, m, 5, 6);
    let k = field_keys();
    assert(k[0] == "git"@ && k[1] == "path"@ && k[2] == "branch"@ && k[3] == "tag"@ && k[4]
        == "rev"@ && k[5] == "namespace"@);
    assert(k[0] != k[1] && k[0] != k[2] && k[0] != k[3] && k[0] != k[4] && k[0] != k[5]);
    assert(k[1] != k[2] && k[1] != k[3] && k[1] != k[4] && k[1] != k[5]);
    assert(k[2] != k[3] && k[2] != k[4] && k[2] != k[5]);
    assert(k[3] != k[4] && k[3] != k[5] && k[4] != k[5]);
}

/// A field that was written keeps its value while the following ones are written.
proof fn lemma_field_written(entry: Map<Seq<char>, Seq<char>>, m: DependencyModel, i: int, n: nat)
    requires
        0 <= i < n <= 6,
    ensures
        field_in(with_fields(entry, m, n), field_keys()[i]) == field_of(m, field_keys()[i]),
    decreases n,
{
    lemma_keys_distinct();
    if i < n - 1 {
        lemma_field_written(entry, m, i, (n - 1) as nat);
        assert(field_keys()[i] != field_keys()[n - 1]);
    }
}

/// What is wrong with a request to edit a manifest.
#[derive(Debug)]
pub enum ManifestError {
    Invalid(InvalidDependency),
    NotEditable,
    NotInManifest(String),
}

impl ManifestError {
    /// The text shown to the user; that of a document that cannot be edited needs its path.
    pub fn message(&self, path: &str) -> (r: String)
        ensures
            r@ == match self {
                ManifestError::Invalid(e) => "invalid dependency `"@ + e.name@ + "`"@,
                ManifestError::NotEditable => "cannot edit "@ + path@,
                ManifestError::NotInManifest(name) => "dependency `"@ + name@
                    + "` is not in the manifest"@,
            },
    {
        match self {
            ManifestError::Invalid(e) => e.message(),
            ManifestError::NotEditable => plus("cannot edit ", path),
            ManifestError::NotInManifest(name) => plus3(
                "dependency `",
                name.as_str(),
                "` is not in the manifest",
            ),
        }
    }
}

/// The text for a manifest that must be there and is not.
pub fn missing_manifest(path: &str) -> (r: String)
    ensures
        r@ == "manifest does not exist: "@ + path@,
{
    plus("manifest does not exist: ", path)
}

/// A document that a manifest was read from, which only this module makes and changes.
pub struct Draft {
    document: DocumentMut,
}

/// A manifest, with the document that it was read from.
pub struct ManifestDocument {
    pub manifest: Manifest,
    pub draft: Draft,
}

impl ManifestDocument {
    /// The entries of the document.
    pub closed spec fn entries(&self) -> Map<Seq<char>, Map<Seq<char>, Seq<char>>> {
        table_in(tables_of(self.draft.document), DEPENDENCIES@)
    }

    /// What the document has before and after what stands in it, comments among it, by the keys that
    /// lead there.
    pub closed spec fn decors(&self) -> Map<
        Seq<Seq<char>>,
        (Option<Seq<char>>, Option<Seq<char>>),
    > {
        decors_of(self.draft.document)
    }

    /// What the document has before and after its keys, comments among it, by the keys that lead
    /// there.
    pub closed spec fn key_decors(&self) -> Map<
        Seq<Seq<char>>,
        (Option<Seq<char>>, Option<Seq<char>>),
    > {
        key_decors_of(self.draft.document)
    }

    /// Dependencies can be declared in the document: they are a table or missing, and an entry made
    /// of dotted keys that holds nothing is one of them.
    pub closed spec fn valid(&self) -> bool {
        &&& !others_of(self.draft.document).contains(DEPENDENCIES@)
        &&& forall|table: Seq<char>, name: Seq<char>| #[trigger]
            hollow_of(self.draft.document).contains((table, name)) ==> table == DEPENDENCIES@
                && self.entries().contains_key(name) && without_strings(self.entries()[name])
    }

    /// The dependencies of the manifest are those that stand in the document.
    pub open spec fn agrees(&self) -> bool {
        entries_are(self.entries(), self.manifest@)
    }

    /// The document in `text`, of which `manifest` was read. One that cannot be edited or holds other
    /// dependencies is refused.
    pub fn parse(manifest: Manifest, text: &str) -> (r: Result<ManifestDocument, ManifestError>)
        ensures
            match r {
                Ok(d) => {
                    &&& d.valid()
                    &&& d.manifest@ == manifest@
                    &&& writes(text@, d.entries())
                    &&& read_document(text@) matches Some((_, _, decors, key_decors))
                    &&& d.decors() == decors
                    &&& d.key_decors() == key_decors
                    &&& d.agrees()
                    &&& none_empty(d.entries())
                    &&& forall|name: Seq<char>| #[trigger]
                        manifest@.contains_key(name) ==> declarable(manifest@[name], Some(name))
                },
                Err(ManifestError::Invalid(e)) => manifest.refuses(e.name@, e.error@),
                Err(ManifestError::NotEditable) => {
                    &&& forall|name: Seq<char>| #[trigger]
                        manifest@.contains_key(name) ==> declarable(manifest@[name], Some(name))
                    &&& !is_document_of(text@, manifest@)
                },
                Err(ManifestError::NotInManifest(_)) => false,
            },
    {
        match manifest.validate() {
            Ok(()) => {},
            Err(e) => return Err(ManifestError::Invalid(e)),
        }
        match parse_document(text) {
            Some(document) => if has_other(&document, DEPENDENCIES) || !manifest.stands_in(
                &document,
            ) {
                Err(ManifestError::NotEditable)
            } else {
                let d = ManifestDocument { manifest, draft: Draft { document } };
                proof {
                    lemma_declared_is_not_empty(d.entries(), d.manifest@);
                }
                Ok(d)
            },
            None => Err(ManifestError::NotEditable),
        }
    }

    /// Writes or removes one field of an entry, with what stood round a value that was there kept.
    fn write_field(&mut self, name: &str, key: &str, value: Option<&str>)
        requires
            old(self).valid(),
            old(self).entries().contains_key(name@),
        ensures
            final(self).valid(),
            final(self).manifest == old(self).manifest,
            final(self).entries() == old(self).entries().insert(
                name@,
                with_field(old(self).entries()[name@], key@, opt_str(value)),
            ),
            final(self).decors() == decors_with_field(
                old(self).decors(),
                name@,
                key@,
                value is Some,
            ),
            final(self).key_decors() == key_decors_with_field(
                old(self).key_decors(),
                name@,
                key@,
                value is Some,
            ),
    {
        match value {
            Some(text) => if has_value(&self.draft.document, DEPENDENCIES, name, key) {
                replace_field(&mut self.draft.document, DEPENDENCIES, name, key, text);
            } else {
                add_field(&mut self.draft.document, DEPENDENCIES, name, key, text);
            },
            None => remove_field(&mut self.draft.document, DEPENDENCIES, name, key),
        }
    }

    /// Declares a dependency, in place of one of that name.
    pub fn insert(&mut self, name: &str, dependency: Dependency)
        requires
            old(self).valid(),
        ensures
            final(self).valid(),
            final(self).manifest@ == old(self).manifest@.insert(name@, dependency@),
            final(self).entries() == old(self).entries().insert(
                name@,
                with_fields(
                    if old(self).entries().contains_key(name@) {
                        old(self).entries()[name@]
                    } else {
                        Map::empty()
                    },
                    dependency@,
                    6,
                ),
            ),
            final(self).decors() == decors_with_fields(
                decors_with_entry(
                    old(self).decors(),
                    name@,
                    old(self).entries().contains_key(name@),
                ),
                name@,
                dependency@,
                6,
            ),
            final(self).key_decors() == key_decors_with_fields(
                key_decors_with_entry(
                    old(self).key_decors(),
                    name@,
                    old(self).entries().contains_key(name@),
                ),
                name@,
                dependency@,
                6,
            ),
            old(self).agrees() ==> final(self).agrees(),
            none_empty(old(self).entries()) && (dependency@.git is Some || dependency@.path is Some)
                ==> none_empty(final(self).entries()),
    {
        if !has_entry(&self.draft.document, DEPENDENCIES, name) {
            insert_entry(&mut self.draft.document, DEPENDENCIES, name);
        }
        let ghost m = dependency@;
        let ghost first = self.entries()[name@];
        let ghost start = old(self).entries();
        let ghost round = self.decors();
        let ghost key_round = self.key_decors();
        proof {
            reveal_with_fuel(with_fields, 7);
            reveal_with_fuel(decors_with_fields, 7);
            reveal_with_fuel(key_decors_with_fields, 7);
            assert(self.entries() =~= start.insert(name@, first));
        }
        self.write_field(name, "git", crate::git::opt_slice(&dependency.git));
        assert(self.entries() =~= start.insert(name@, with_fields(first, m, 1)));
        self.write_field(name, "path", crate::git::opt_slice(&dependency.path));
        proof {
            lemma_keys_distinct();
            let k = field_keys();
            assert(k[0] != k[1] && k[0] != k[2] && k[1] != k[2] && k[0] != k[3] && k[1] != k[3]
                && k[2] != k[3]);
            assert(k[0] != k[4] && k[1] != k[4] && k[2] != k[4] && k[3] != k[4]);
            assert(k[0] != k[5] && k[1] != k[5] && k[2] != k[5] && k[3] != k[5] && k[4] != k[5]);
            assert(k[0] == "git"@ && k[1] == "path"@ && k[2] == "branch"@ && k[3] == "tag"@ && k[4]
                == "rev"@ && k[5] == "namespace"@);
        }
        assert(self.entries() =~= start.insert(name@, with_fields(first, m, 2)));
        self.write_field(name, "branch", crate::git::opt_slice(&dependency.branch));
        assert(self.entries() =~= start.insert(name@, with_fields(first, m, 3)));
        self.write_field(name, "tag", crate::git::opt_slice(&dependency.tag));
        assert(self.entries() =~= start.insert(name@, with_fields(first, m, 4)));
        self.write_field(name, "rev", crate::git::opt_slice(&dependency.rev));
        assert(self.entries() =~= start.insert(name@, with_fields(first, m, 5)));
        assert(self.decors() == decors_with_fields(round, name@, m, 5));
        assert(self.key_decors() == key_decors_with_fields(key_round, name@, m, 5));
        let namespace = if same(dependency.namespace.as_str(), DEFAULT_NAMESPACE) {
            None
        } else {
            Some(dependency.namespace.as_str())
        };
        self.write_field(name, "namespace", namespace);
        assert(self.entries() =~= start.insert(name@, with_fields(first, m, 6)));
        let replaced = self.manifest.dependencies.insert(name.to_owned(), dependency);
        proof {
            assert(self.manifest@ =~= old(self).manifest@.insert(name@, m));
            lemma_entry_reads_back(first, m);
            let written = with_fields(first, m, 6);
            if m.git is Some {
                assert(written.contains_key("git"@));
            }
            if m.path is Some {
                assert(written.contains_key("path"@));
            }
        }
    }

    /// Takes a dependency out of the manifest.
    pub fn remove(&mut self, name: &str) -> (r: Result<(), ManifestError>)
        requires
            old(self).valid(),
        ensures
            final(self).valid(),
            match r {
                Ok(()) => {
                    &&& old(self).manifest@.contains_key(name@)
                    &&& final(self).manifest@ == old(self).manifest@.remove(name@)
                    &&& final(self).entries() == old(self).entries().remove(name@)
                    &&& final(self).decors() == decors_without_entry(
                        decors_with_table(old(self).decors(), DEPENDENCIES@),
                        DEPENDENCIES@,
                        name@,
                    )
                    &&& final(self).key_decors() == decors_without_entry(
                        old(self).key_decors(),
                        DEPENDENCIES@,
                        name@,
                    )
                },
                Err(e) => {
                    &&& !old(self).manifest@.contains_key(name@)
                    &&& e matches ManifestError::NotInManifest(missing)
                    &&& missing@ == name@
                    &&& final(self).manifest@ == old(self).manifest@
                    &&& final(self).entries() == old(self).entries()
                    &&& final(self).decors() == old(self).decors()
                    &&& final(self).key_decors() == old(self).key_decors()
                },
            },
            old(self).agrees() ==> final(self).agrees(),
            none_empty(old(self).entries()) ==> none_empty(final(self).entries()),
    {
        let key = name.to_owned();
        match self.manifest.dependencies.remove(&key) {
            Some(_) => {},
            None => {
                proof {
                    assert(self.manifest@ =~= old(self).manifest@);
                }
                return Err(ManifestError::NotInManifest(key));
            },
        }
        remove_entry(&mut self.draft.document, DEPENDENCIES, name);
        assert(self.manifest@ =~= old(self).manifest@.remove(name@));
        Ok(())
    }

    /// The document as text, which shows what stands round things in the document and is read as a
    /// document with the same entries where none is empty.
    pub fn text(&self) -> (r: String)
        requires
            self.valid(),
        ensures
            none_empty(self.entries()) ==> writes(r@, self.entries()),
            none_empty(self.entries()) && self.agrees() ==> is_document_of(r@, self.manifest@),
            forall|keys: Seq<Seq<char>>| #[trigger]
                self.decors().contains_key(keys) ==> shows(r@, self.decors()[keys]),
            forall|keys: Seq<Seq<char>>| #[trigger]
                self.key_decors().contains_key(keys) ==> shows(r@, self.key_decors()[keys]),
    {
        let r = document_text(&self.draft.document);
        proof {
            if none_empty(self.entries()) {
                assert(hollow_of(self.draft.document) =~= Set::<(Seq<char>, Seq<char>)>::empty()) by {
                    assert forall|e: (Seq<char>, Seq<char>)| !hollow_of(
                        self.draft.document,
                    ).contains(e) by {
                        assert(e == (e.0, e.1));
                    }
                }
                assert(writes(r@, self.entries()));
            }
        }
        r
    }
}

/// Keys that lead somewhere else than to a field of a dependency are not those of one.
proof fn lemma_not_a_field(name: Seq<char>, keys: Seq<Seq<char>>)
    requires
        !seq![DEPENDENCIES@, name].is_prefix_of(keys) || keys.len() <= 2,
    ensures
        forall|key: Seq<char>| seq![DEPENDENCIES@, name, key] != keys,
{
    assert forall|key: Seq<char>| seq![DEPENDENCIES@, name, key] != keys by {
        let field = seq![DEPENDENCIES@, name, key];
        assert(field.len() == 3);
        assert(field.subrange(0, 2) =~= seq![DEPENDENCIES@, name]);
    }
}

/// Comments stay where a dependency is declared that was declared before: what stands round other
/// things and round the entry itself is kept, before and after the keys too.
pub proof fn lemma_comments_stay(
    decors: Map<Seq<Seq<char>>, (Option<Seq<char>>, Option<Seq<char>>)>,
    key_decors: Map<Seq<Seq<char>>, (Option<Seq<char>>, Option<Seq<char>>)>,
    name: Seq<char>,
    m: DependencyModel,
    n: nat,
    keys: Seq<Seq<char>>,
)
    requires
        n <= 6,
        !seq![DEPENDENCIES@, name].is_prefix_of(keys) || keys.len() <= 2,
    ensures
        decors_with_fields(decors, name, m, n).contains_key(keys) == decors.contains_key(keys),
        decors_with_fields(decors, name, m, n)[keys] == decors[keys],
        key_decors_with_fields(key_decors, name, m, n).contains_key(keys)
            == key_decors.contains_key(keys),
        key_decors_with_fields(key_decors, name, m, n)[keys] == key_decors[keys],
    decreases n,
{
    lemma_not_a_field(name, keys);
    if n > 0 {
        lemma_comments_stay(decors, key_decors, name, m, (n - 1) as nat, keys);
        assert(seq![DEPENDENCIES@, name, field_keys()[n - 1]] != keys);
    }
}

/// Comments stay where a dependency is declared that was not declared before, and where one is taken
/// out: what stands round other things is kept, and what stands round other keys.
pub proof fn lemma_other_comments_stay(
    decors: Map<Seq<Seq<char>>, (Option<Seq<char>>, Option<Seq<char>>)>,
    name: Seq<char>,
    keys: Seq<Seq<char>>,
)
    requires
        !seq![DEPENDENCIES@, name].is_prefix_of(keys),
        decors.contains_key(keys),
    ensures
        ({
            let with = decors_with_entry(decors, name, false);
            with.contains_key(keys) && with[keys] == decors[keys]
        }),
        ({
            let with = key_decors_with_entry(decors, name, false);
            with.contains_key(keys) && with[keys] == decors[keys]
        }),
        ({
            let without = decors_without_entry(
                decors_with_table(decors, DEPENDENCIES@),
                DEPENDENCIES@,
                name,
            );
            without.contains_key(keys) && without[keys] == decors[keys]
        }),
        ({
            let without = decors_without_entry(decors, DEPENDENCIES@, name);
            without.contains_key(keys) && without[keys] == decors[keys]
        }),
{
    let own = seq![DEPENDENCIES@, name];
    assert(own.subrange(0, 2) =~= own);
    assert(keys != own);
}

/// What stands round a value that is replaced stays.
pub proof fn lemma_replaced_value_keeps_comments(
    decors: Map<Seq<Seq<char>>, (Option<Seq<char>>, Option<Seq<char>>)>,
    name: Seq<char>,
    m: DependencyModel,
    i: int,
    n: nat,
)
    requires
        0 <= i < 6,
        n <= 6,
        decors.contains_key(seq![DEPENDENCIES@, name, field_keys()[i]]),
        field_of(m, field_keys()[i]) is Some,
    ensures
        ({
            let keys = seq![DEPENDENCIES@, name, field_keys()[i]];
            let now = decors_with_fields(decors, name, m, n);
            now.contains_key(keys) && now[keys] == decors[keys]
        }),
    decreases n,
{
    if n > 0 {
        lemma_replaced_value_keeps_comments(decors, name, m, i, (n - 1) as nat);
        lemma_keys_distinct();
        let keys = seq![DEPENDENCIES@, name, field_keys()[i]];
        let last = seq![DEPENDENCIES@, name, field_keys()[n - 1]];
        assert(keys[2] == field_keys()[i] && last[2] == field_keys()[n - 1]);
        if i != n - 1 {
            assert(field_keys()[i] != field_keys()[n - 1]);
            assert(keys != last);
        }
    }
}

/// Nothing stands under the name of a dependency.
pub open spec fn name_is_free(
    decors: Map<Seq<Seq<char>>, (Option<Seq<char>>, Option<Seq<char>>)>,
    name: Seq<char>,
) -> bool {
    forall|keys: Seq<Seq<char>>| #[trigger]
        decors.contains_key(keys) ==> !seq![DEPENDENCIES@, name].is_prefix_of(keys)
}

/// A dependency that was declared and then taken out leaves the manifest and the document as they
/// were, comments included, where dependencies are a table and none stood under its name. A table that
/// was missing stays behind.
pub proof fn lemma_insert_then_remove(
    dependencies: Map<Seq<char>, DependencyModel>,
    entries: Map<Seq<char>, Map<Seq<char>, Seq<char>>>,
    decors: Map<Seq<Seq<char>>, (Option<Seq<char>>, Option<Seq<char>>)>,
    key_decors: Map<Seq<Seq<char>>, (Option<Seq<char>>, Option<Seq<char>>)>,
    name: Seq<char>,
    added: DependencyModel,
)
    requires
        !dependencies.contains_key(name),
        !entries.contains_key(name),
        decors.contains_key(seq![DEPENDENCIES@]),
        name_is_free(decors, name),
        name_is_free(key_decors, name),
    ensures
        dependencies.insert(name, added).remove(name) == dependencies,
        entries.insert(name, with_fields(Map::empty(), added, 6)).remove(name) == entries,
        decors_without_entry(
            decors_with_table(
                decors_with_fields(decors_with_entry(decors, name, false), name, added, 6),
                DEPENDENCIES@,
            ),
            DEPENDENCIES@,
            name,
        ) == decors,
        decors_without_entry(
            key_decors_with_fields(key_decors_with_entry(key_decors, name, false), name, added, 6),
            DEPENDENCIES@,
            name,
        ) == key_decors,
{
    assert(dependencies.insert(name, added).remove(name) =~= dependencies);
    assert(entries.insert(name, with_fields(Map::empty(), added, 6)).remove(name) =~= entries);
    let own = seq![DEPENDENCIES@, name];
    let with = decors_with_entry(decors, name, false);
    let key_with = key_decors_with_entry(key_decors, name, false);
    let now = decors_with_fields(with, name, added, 6);
    let key_now = key_decors_with_fields(key_with, name, added, 6);
    assert(own.subrange(0, 2) =~= own);
    assert forall|keys: Seq<Seq<char>>| !own.is_prefix_of(keys) implies {
        &&& #[trigger] now.contains_key(keys) == decors.contains_key(keys)
        &&& decors.contains_key(keys) ==> now[keys] == decors[keys]
    } by {
        lemma_comments_stay(with, key_with, name, added, 6, keys);
        assert(keys != own);
    }
    assert forall|keys: Seq<Seq<char>>| !own.is_prefix_of(keys) implies {
        &&& #[trigger] key_now.contains_key(keys) == key_decors.contains_key(keys)
        &&& key_decors.contains_key(keys) ==> key_now[keys] == key_decors[keys]
    } by {
        lemma_comments_stay(with, key_with, name, added, 6, keys);
        assert(keys != own);
    }
    let table = seq![DEPENDENCIES@];
    assert(!own.is_prefix_of(table));
    assert(now.contains_key(table));
    assert(decors_without_entry(now, DEPENDENCIES@, name) =~= decors);
    assert(decors_without_entry(key_now, DEPENDENCIES@, name) =~= key_decors);
}

/// Where a manifest is looked for: beside the working directory, then beside its ancestors.
pub open spec fn manifest_candidates(cwd: Seq<char>) -> Seq<Seq<char>> {
    chain_texts(cwd).reverse().map_values(
        |directory: Seq<char>| joined_path(directory, "typm.toml"@),
    )
}

/// Where a manifest is looked for, nearest first.
pub fn candidates(cwd: &str) -> (r: Vec<String>)
    ensures
        texts(r@) == manifest_candidates(cwd@),
{
    let directories = chain(cwd);
    let mut r: Vec<String> = Vec::new();
    let ghost wanted = manifest_candidates(cwd@);
    let mut i: usize = directories.len();
    assert(texts(r@) =~= wanted.take(0));
    proof {
        assert(texts(directories@).len() == directories@.len());
    }
    while i > 0
        invariant
            i <= directories@.len(),
            texts(directories@) == chain_texts(cwd@),
            wanted == manifest_candidates(cwd@),
            wanted.len() == directories@.len(),
            texts(r@) == wanted.take(directories@.len() - i),
        decreases i,
    {
        i = i - 1;
        let path = join_path(directories[i].as_str(), "typm.toml");
        proof {
            crate::text::lemma_texts_push(r@, path);
            assert(texts(directories@)[i as int] == directories@[i as int]@);
            assert(wanted.take(directories@.len() - i) =~= wanted.take(
                directories@.len() - i - 1,
            ).push(path@));
        }
        r.push(path);
    }
    assert(wanted.take(directories@.len() as int) =~= wanted);
    r
}

/// The first of the candidates that is there.
pub open spec fn first_present(present: Seq<bool>) -> Option<int>
    decreases present.len(),
{
    if present.len() == 0 {
        None
    } else if present[0] {
        Some(0)
    } else {
        match first_present(present.skip(1)) {
            Some(i) => Some(i + 1),
            None => None,
        }
    }
}

/// The manifest that is used: the one given, else the nearest that is there, else one beside the
/// working directory.
pub open spec fn manifest_path_of(
    explicit: Option<Seq<char>>,
    cwd: Seq<char>,
    present: Seq<bool>,
) -> Seq<char> {
    match explicit {
        Some(path) => joined_path(cwd, path),
        None => match first_present(present) {
            Some(i) => if i < manifest_candidates(cwd).len() {
                manifest_candidates(cwd)[i]
            } else {
                joined_path(cwd, "typm.toml"@)
            },
            None => joined_path(cwd, "typm.toml"@),
        },
    }
}

/// The manifest that is used. `present` tells of the candidates, nearest first, whether they are
/// there; it may end with the first that is.
pub fn discover(explicit: Option<&str>, cwd: &str, present: &Vec<bool>) -> (r: String)
    ensures
        r@ == manifest_path_of(opt_str(explicit), cwd@, present@),
{
    match explicit {
        Some(path) => return join_path(cwd, path),
        None => {},
    }
    let mut paths = candidates(cwd);
    let mut i: usize = 0;
    assert(present@.skip(0) =~= present@);
    while i < present.len() && !present[i]
        invariant
            i <= present@.len(),
            first_present(present@) == match first_present(present@.skip(i as int)) {
                Some(k) => Some(k + i),
                None => None,
            },
        decreases present@.len() - i,
    {
        assert(present@.skip(i as int).skip(1) =~= present@.skip(i + 1));
        i = i + 1;
    }
    if i < present.len() && i < paths.len() {
        assert(texts(paths@)[i as int] == paths@[i as int]@);
        paths[i].clone()
    } else {
        assert(texts(paths@).len() == paths@.len());
        join_path(cwd, "typm.toml")
    }
}

} // verus!
