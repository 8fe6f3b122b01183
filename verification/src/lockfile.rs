//! Portable Git dependency pins. Local working trees are never pinned.

use vstd::prelude::*;

use crate::git::{
    commit_prefix, is_commit_prefix, source_fault, source_id, GitError, GitFault, GitSourceModel,
    GitSourceSpec,
};
use crate::lists::{first_some, lemma_first_some_at, lemma_first_some_next, lemma_first_some_plus};
use crate::ordered::Table;
use crate::text::{decimal, decimal_text, plus, plus3, same, texts};

verus! {

broadcast use vstd::string::group_string_axioms;

/// The version of the format.
pub const FORMAT_VERSION: u32 = 1;

/// A Git source and the commit it is pinned to.
#[derive(Debug)]
pub struct LockedSource {
    pub source: GitSourceSpec,
    pub commit: String,
}

/// A Git source and its commit, with the texts.
pub struct LockedSourceModel {
    pub source: GitSourceModel,
    pub commit: Seq<char>,
}

impl View for LockedSource {
    type V = LockedSourceModel;

    open spec fn view(&self) -> LockedSourceModel {
        LockedSourceModel { source: self.source@, commit: self.commit@ }
    }
}

impl Clone for LockedSource {
    fn clone(&self) -> (r: Self)
        ensures
            r@ == self@,
    {
        LockedSource { source: self.source.clone(), commit: self.commit.clone() }
    }
}

/// A package in a pinned source.
#[derive(Debug)]
pub struct LockedPackage {
    pub source: String,
    pub directory: String,
    pub name: String,
    pub version: String,
    pub namespace: String,
    pub dependencies: Vec<String>,
}

/// A package in a pinned source, with its texts.
pub struct LockedPackageModel {
    pub source: Seq<char>,
    pub directory: Seq<char>,
    pub name: Seq<char>,
    pub version: Seq<char>,
    pub namespace: Seq<char>,
    pub dependencies: Seq<Seq<char>>,
}

impl View for LockedPackage {
    type V = LockedPackageModel;

    open spec fn view(&self) -> LockedPackageModel {
        LockedPackageModel {
            source: self.source@,
            directory: self.directory@,
            name: self.name@,
            version: self.version@,
            namespace: self.namespace@,
            dependencies: texts(self.dependencies@),
        }
    }
}

/// The pins of a project: its Git sources, the packages in them, and for each direct dependency
/// the Git packages that are reached first on the way through local ones.
pub struct Lockfile {
    pub version: u32,
    pub sources: Table<String, LockedSource>,
    pub packages: Table<String, LockedPackage>,
    pub roots: Table<String, Vec<String>>,
}

impl Default for Lockfile {
    fn default() -> (r: Self)
        ensures
            r.version == FORMAT_VERSION,
            r.sources@ == Map::<Seq<char>, LockedSource>::empty(),
            r.packages@ == Map::<Seq<char>, LockedPackage>::empty(),
            r.roots@ == Map::<Seq<char>, Vec<String>>::empty(),
    {
        Lockfile {
            version: FORMAT_VERSION,
            sources: Table::new(),
            packages: Table::new(),
            roots: Table::new(),
        }
    }
}

/// What is wrong with pins.
#[derive(Debug)]
pub enum LockError {
    Version(u32),
    Git(GitError),
    Identity,
    Commit(String),
    UnknownSource,
    UnknownPackage(String),
}

/// What is wrong with pins, with the texts.
pub enum LockFault {
    Version(u32),
    Git(GitFault),
    Identity,
    Commit(Seq<char>),
    UnknownSource,
    UnknownPackage(Seq<char>),
}

impl View for LockError {
    type V = LockFault;

    open spec fn view(&self) -> LockFault {
        match self {
            LockError::Version(version) => LockFault::Version(*version),
            LockError::Git(error) => LockFault::Git(error@),
            LockError::Identity => LockFault::Identity,
            LockError::Commit(commit) => LockFault::Commit(commit@),
            LockError::UnknownSource => LockFault::UnknownSource,
            LockError::UnknownPackage(id) => LockFault::UnknownPackage(id@),
        }
    }
}

/// The text shown for a fault.
pub open spec fn fault_text(fault: LockFault) -> Seq<char> {
    match fault {
        LockFault::Version(version) => "unsupported typm.lock format version "@ + decimal_text(
            version as nat,
        ),
        LockFault::Git(fault) => crate::git::fault_text(fault),
        LockFault::Identity => "invalid source identity in typm.lock"@,
        LockFault::Commit(commit) => "invalid locked Git commit `"@ + commit + "`"@,
        LockFault::UnknownSource => "typm.lock references an unknown Git source"@,
        LockFault::UnknownPackage(id) => "typm.lock references an unknown package `"@ + id + "`"@,
    }
}

impl LockError {
    /// The text shown to the user.
    pub fn message(&self) -> (r: String)
        ensures
            r@ == fault_text(self@),
    {
        match self {
            LockError::Version(version) => plus(
                "unsupported typm.lock format version ",
                decimal(*version as u64).as_str(),
            ),
            LockError::Git(error) => error.message(),
            LockError::Identity => "invalid source identity in typm.lock".to_owned(),
            LockError::Commit(commit) => plus3("invalid locked Git commit `", commit.as_str(), "`"),
            LockError::UnknownSource => "typm.lock references an unknown Git source".to_owned(),
            LockError::UnknownPackage(id) => plus3(
                "typm.lock references an unknown package `",
                id.as_str(),
                "`",
            ),
        }
    }
}

/// The name of a commit: 40 or 64 hexadecimal digits.
pub open spec fn commit_name(commit: Seq<char>) -> bool {
    (commit.len() == 40 || commit.len() == 64) && commit_prefix(commit)
}

/// What is wrong with a pinned source under an identity.
pub open spec fn source_entry_fault(id: Seq<char>, locked: LockedSourceModel) -> Option<LockFault> {
    if source_fault(locked.source) is Some {
        Some(LockFault::Git(source_fault(locked.source)->0))
    } else if source_id(locked.source) != id {
        Some(LockFault::Identity)
    } else if !commit_name(locked.commit) {
        Some(LockFault::Commit(locked.commit))
    } else {
        None
    }
}

/// The lists one after the other.
pub open spec fn concatenated(lists: Seq<Seq<Seq<char>>>) -> Seq<Seq<char>>
    decreases lists.len(),
{
    if lists.len() == 0 {
        Seq::empty()
    } else {
        concatenated(lists.drop_last()) + lists.last()
    }
}

/// A reference to a package that is not pinned.
pub open spec fn reference_fault(known: Set<Seq<char>>, id: Seq<char>) -> Option<LockFault> {
    if known.contains(id) {
        None
    } else {
        Some(LockFault::UnknownPackage(id))
    }
}

impl Lockfile {
    /// What is wrong with the pinned sources, in the order of their identities.
    pub open spec fn source_faults(&self) -> Seq<Option<LockFault>> {
        self.sources.keys().map_values(
            |id: Seq<char>| source_entry_fault(id, self.sources@[id]@),
        )
    }

    /// What is wrong with the sources of the packages, in the order of the packages' identities.
    pub open spec fn package_faults(&self) -> Seq<Option<LockFault>> {
        self.packages.keys().map_values(
            |id: Seq<char>|
                if self.sources@.contains_key(self.packages@[id].source@) {
                    None
                } else {
                    Some(LockFault::UnknownSource)
                },
        )
    }

    /// The packages that the direct dependencies refer to.
    pub open spec fn root_references(&self) -> Seq<Seq<Seq<char>>> {
        self.roots.keys().map_values(|name: Seq<char>| texts(self.roots@[name]@))
    }

    /// The packages that the packages refer to.
    pub open spec fn package_references(&self) -> Seq<Seq<Seq<char>>> {
        self.packages.keys().map_values(
            |id: Seq<char>| texts(self.packages@[id].dependencies@),
        )
    }

    /// What is wrong with a list of references.
    pub open spec fn faults_in(&self, references: Seq<Seq<char>>) -> Seq<Option<LockFault>> {
        references.map_values(|id: Seq<char>| reference_fault(self.packages@.dom(), id))
    }

    /// What is wrong with the pins, the first fault that counts.
    pub open spec fn fault(&self) -> Option<LockFault> {
        if self.version != FORMAT_VERSION {
            Some(LockFault::Version(self.version))
        } else if first_some(self.source_faults()) is Some {
            first_some(self.source_faults())
        } else if first_some(self.package_faults()) is Some {
            first_some(self.package_faults())
        } else if first_some(self.faults_in(concatenated(self.root_references()))) is Some {
            first_some(self.faults_in(concatenated(self.root_references())))
        } else {
            first_some(self.faults_in(concatenated(self.package_references())))
        }
    }

    /// Looks for what is wrong with the pinned sources.
    fn check_sources(&self) -> (r: Result<(), LockError>)
        ensures
            match r {
                Ok(()) => first_some(self.source_faults()) is None,
                Err(e) => first_some(self.source_faults()) == Some(e@),
            },
    {
        let count = self.sources.len();
        let ghost faults = self.source_faults();
        let mut i: usize = 0;
        assert(faults.take(0) =~= Seq::<Option<LockFault>>::empty());
        while i < count
            invariant
                i <= count,
                count == self.sources.keys().len(),
                faults == self.source_faults(),
                faults.len() == count,
                first_some(faults.take(i as int)) is None,
            decreases count - i,
        {
            let id = self.sources.key_at(i);
            let locked = self.sources.value_at(i);
            assert(faults[i as int] == source_entry_fault(id@, locked@));
            match locked.source.validate() {
                Ok(()) => {},
                Err(e) => {
                    proof {
                        lemma_first_some_at(faults, i as int);
                    }
                    return Err(LockError::Git(e));
                },
            }
            let known = locked.source.id();
            if !same(known.as_str(), id.as_str()) {
                proof {
                    lemma_first_some_at(faults, i as int);
                }
                return Err(LockError::Identity);
            }
            if !is_commit_name(locked.commit.as_str()) {
                proof {
                    lemma_first_some_at(faults, i as int);
                }
                return Err(LockError::Commit(locked.commit.clone()));
            }
            proof {
                lemma_first_some_next(faults, i as int);
            }
            i = i + 1;
        }
        assert(faults.take(i as int) =~= faults);
        Ok(())
    }

    /// Looks for a package whose source is not pinned.
    fn check_packages(&self) -> (r: Result<(), LockError>)
        ensures
            match r {
                Ok(()) => first_some(self.package_faults()) is None,
                Err(e) => first_some(self.package_faults()) == Some(e@),
            },
    {
        let count = self.packages.len();
        let ghost faults = self.package_faults();
        let mut i: usize = 0;
        assert(faults.take(0) =~= Seq::<Option<LockFault>>::empty());
        while i < count
            invariant
                i <= count,
                count == self.packages.keys().len(),
                faults == self.package_faults(),
                faults.len() == count,
                first_some(faults.take(i as int)) is None,
            decreases count - i,
        {
            let package = self.packages.value_at(i);
            if !self.sources.contains_key(&package.source) {
                proof {
                    lemma_first_some_at(faults, i as int);
                }
                return Err(LockError::UnknownSource);
            }
            proof {
                lemma_first_some_next(faults, i as int);
            }
            i = i + 1;
        }
        assert(faults.take(i as int) =~= faults);
        Ok(())
    }

    /// Looks for a reference to a package that is not pinned, after others that all are.
    fn check_references(&self, references: &Vec<String>, earlier: Ghost<Seq<Seq<char>>>) -> (r: Result<
        (),
        LockError,
    >)
        requires
            first_some(self.faults_in(earlier@)) is None,
        ensures
            match r {
                Ok(()) => first_some(self.faults_in(earlier@ + texts(references@))) is None,
                Err(e) => first_some(self.faults_in(earlier@ + texts(references@))) == Some(e@),
            },
    {
        let ghost faults = self.faults_in(texts(references@));
        let mut i: usize = 0;
        proof {
            assert(faults.take(0) =~= Seq::<Option<LockFault>>::empty());
            assert(self.faults_in(earlier@ + texts(references@)) =~= self.faults_in(earlier@)
                + faults);
            lemma_first_some_plus(self.faults_in(earlier@), faults);
        }
        while i < references.len()
            invariant
                i <= references@.len(),
                faults == self.faults_in(texts(references@)),
                faults.len() == references@.len(),
                first_some(faults.take(i as int)) is None,
                first_some(self.faults_in(earlier@ + texts(references@))) == first_some(faults),
            decreases references@.len() - i,
        {
            let id = &references[i];
            assert(texts(references@)[i as int] == id@);
            assert(faults[i as int] == reference_fault(self.packages@.dom(), id@));
            if !self.packages.contains_key(id) {
                proof {
                    lemma_first_some_at(faults, i as int);
                }
                return Err(LockError::UnknownPackage(id.clone()));
            }
            proof {
                lemma_first_some_next(faults, i as int);
            }
            i = i + 1;
        }
        assert(faults.take(i as int) =~= faults);
        Ok(())
    }

    /// Accepts pins that are whole.
    pub fn validate(&self) -> (r: Result<(), LockError>)
        ensures
            match r {
                Ok(()) => self.fault() is None,
                Err(e) => self.fault() == Some(e@),
            },
    {
        if self.version != FORMAT_VERSION {
            return Err(LockError::Version(self.version));
        }
        match self.check_sources() {
            Ok(()) => {},
            Err(e) => return Err(e),
        }
        match self.check_packages() {
            Ok(()) => {},
            Err(e) => return Err(e),
        }
        match self.check_roots() {
            Ok(()) => {},
            Err(e) => return Err(e),
        }
        self.check_dependencies()
    }

    /// Looks for a reference of a direct dependency to a package that is not pinned.
    fn check_roots(&self) -> (r: Result<(), LockError>)
        ensures
            match r {
                Ok(()) => first_some(
                    self.faults_in(concatenated(self.root_references())),
                ) is None,
                Err(e) => first_some(self.faults_in(concatenated(self.root_references()))) == Some(
                    e@,
                ),
            },
    {
        let count = self.roots.len();
        let ghost lists = self.root_references();
        let mut i: usize = 0;
        proof {
            assert(lists.take(0) =~= Seq::<Seq<Seq<char>>>::empty());
            assert(self.faults_in(Seq::<Seq<char>>::empty()) =~= Seq::<Option<LockFault>>::empty());
        }
        while i < count
            invariant
                i <= count,
                count == self.roots.keys().len(),
                lists == self.root_references(),
                lists.len() == count,
                first_some(self.faults_in(concatenated(lists.take(i as int)))) is None,
            decreases count - i,
        {
            let references = self.roots.value_at(i);
            let ghost earlier = concatenated(lists.take(i as int));
            proof {
                assert(lists.take(i + 1).drop_last() =~= lists.take(i as int));
                assert(lists.take(i + 1).last() == texts(references@));
            }
            match self.check_references(references, Ghost(earlier)) {
                Ok(()) => {},
                Err(e) => {
                    proof {
                        self.lemma_prefix_fault(lists, i + 1);
                    }
                    return Err(e);
                },
            }
            i = i + 1;
        }
        assert(lists.take(i as int) =~= lists);
        Ok(())
    }

    /// Looks for a reference of a package to one that is not pinned.
    fn check_dependencies(&self) -> (r: Result<(), LockError>)
        ensures
            match r {
                Ok(()) => first_some(
                    self.faults_in(concatenated(self.package_references())),
                ) is None,
                Err(e) => first_some(self.faults_in(concatenated(self.package_references())))
                    == Some(e@),
            },
    {
        let count = self.packages.len();
        let ghost lists = self.package_references();
        let mut i: usize = 0;
        proof {
            assert(lists.take(0) =~= Seq::<Seq<Seq<char>>>::empty());
            assert(self.faults_in(Seq::<Seq<char>>::empty()) =~= Seq::<Option<LockFault>>::empty());
        }
        while i < count
            invariant
                i <= count,
                count == self.packages.keys().len(),
                lists == self.package_references(),
                lists.len() == count,
                first_some(self.faults_in(concatenated(lists.take(i as int)))) is None,
            decreases count - i,
        {
            let package = self.packages.value_at(i);
            let ghost earlier = concatenated(lists.take(i as int));
            proof {
                assert(lists.take(i + 1).drop_last() =~= lists.take(i as int));
                assert(lists.take(i + 1).last() == texts(package.dependencies@));
            }
            match self.check_references(&package.dependencies, Ghost(earlier)) {
                Ok(()) => {},
                Err(e) => {
                    proof {
                        self.lemma_prefix_fault(lists, i + 1);
                    }
                    return Err(e);
                },
            }
            i = i + 1;
        }
        assert(lists.take(i as int) =~= lists);
        Ok(())
    }

    /// A fault in the first lists is the first fault of all.
    proof fn lemma_prefix_fault(&self, lists: Seq<Seq<Seq<char>>>, n: int)
        requires
            0 <= n <= lists.len(),
            first_some(self.faults_in(concatenated(lists.take(n)))) is Some,
        ensures
            first_some(self.faults_in(concatenated(lists))) == first_some(
                self.faults_in(concatenated(lists.take(n))),
            ),
        decreases lists.len() - n,
    {
        if n < lists.len() {
            let a = concatenated(lists.take(n));
            let next = lists.take(n + 1);
            assert(next.drop_last() =~= lists.take(n));
            assert(self.faults_in(a + next.last()) =~= self.faults_in(a) + self.faults_in(
                next.last(),
            ));
            lemma_first_some_plus(self.faults_in(a), self.faults_in(next.last()));
            self.lemma_prefix_fault(lists, n + 1);
        } else {
            assert(lists.take(n) =~= lists);
        }
    }
}

/// Whether a text is the name of a commit.
pub fn is_commit_name(commit: &str) -> (r: bool)
    ensures
        r == commit_name(commit@),
{
    let length = crate::text::chars_of(commit).len();
    (length == 40 || length == 64) && is_commit_prefix(commit)
}

/// The pins of a project, of which `written` were read from its file, if there is one.
pub fn read(written: Option<Lockfile>) -> (r: Result<Lockfile, LockError>)
    ensures
        match written {
            Some(lock) => match r {
                Ok(kept) => lock.fault() is None && kept == lock,
                Err(e) => lock.fault() == Some(e@),
            },
            None => {
                &&& r is Ok
                &&& r->Ok_0.version == FORMAT_VERSION
                &&& r->Ok_0.sources@ == Map::<Seq<char>, LockedSource>::empty()
                &&& r->Ok_0.packages@ == Map::<Seq<char>, LockedPackage>::empty()
                &&& r->Ok_0.roots@ == Map::<Seq<char>, Vec<String>>::empty()
            },
        },
{
    match written {
        Some(lock) => match lock.validate() {
            Ok(()) => Ok(lock),
            Err(e) => Err(e),
        },
        None => Ok(Lockfile::default()),
    }
}

/// Pins without anything pinned are whole.
pub proof fn lemma_default_is_whole(lock: Lockfile)
    requires
        lock.version == FORMAT_VERSION,
        lock.sources.keys().len() == 0,
        lock.packages.keys().len() == 0,
        lock.roots.keys().len() == 0,
    ensures
        lock.fault() is None,
{
    assert(lock.source_faults() =~= Seq::empty());
    assert(lock.package_faults() =~= Seq::empty());
    assert(lock.root_references() =~= Seq::empty());
    assert(lock.package_references() =~= Seq::empty());
    assert(lock.faults_in(Seq::empty()) =~= Seq::empty());
}

} // verus!
