//! Shared Git databases and commit-addressed checkouts: where they lie, and by which steps a
//! source is brought into them.

use vstd::prelude::*;
use vstd::utf8::encode_utf8;

use crate::context::Context;
use crate::git::{
    cached_ref, commit_prefix, full_commit, is_commit_prefix, opt_slice, reject_sha256_revision,
    requested, resolve_commit, sha256_revision, source_fault, source_refspec,
    validate_locked_commit, GitError, GitFault, GitSourceModel, GitSourceSpec, Lookup,
};
use crate::git::transport::Transport;
use crate::hashing::{blake3_hex, digest};
use crate::path::{join_path, joined_path};
use crate::shell::Shell;
use crate::text::{has_prefix, lower, opt_str, opt_text, plus, plus3, starts_with_lowered, texts};

verus! {

broadcast use vstd::string::group_string_axioms;

/// A source's files at a commit.
#[derive(Debug)]
pub struct Checkout {
    pub root: String,
    pub commit: String,
}

/// The Git storage under a cache directory.
#[derive(Debug)]
pub struct Cache {
    pub root: String,
    pub transport: Transport,
}

/// The directories that the storage is made of.
pub open spec fn storage_directories(root: Seq<char>) -> Seq<Seq<char>> {
    seq![
        joined_path(root, "git/db"@),
        joined_path(root, "git/checkouts"@),
        joined_path(root, "git/locks"@),
    ]
}

/// The directories that the storage is made of.
pub fn directories(root: &str) -> (r: Vec<String>)
    ensures
        texts(r@) == storage_directories(root@),
{
    let mut r: Vec<String> = Vec::new();
    r.push(join_path(root, "git/db"));
    r.push(join_path(root, "git/checkouts"));
    r.push(join_path(root, "git/locks"));
    assert(texts(r@) =~= storage_directories(root@));
    r
}

/// The name under which a repository is kept.
pub open spec fn repository_id(git: Seq<char>) -> Seq<char> {
    blake3_hex(encode_utf8(git))
}

/// Where a repository's database lies.
pub open spec fn database_path(root: Seq<char>, git: Seq<char>) -> Seq<char> {
    joined_path(joined_path(root, "git/db"@), repository_id(git))
}

/// Where a repository's checkouts lie.
pub open spec fn checkouts_path(root: Seq<char>, git: Seq<char>) -> Seq<char> {
    joined_path(joined_path(root, "git/checkouts"@), repository_id(git))
}

/// The file that is locked while a repository is worked on.
pub open spec fn lock_path(root: Seq<char>, git: Seq<char>) -> Seq<char> {
    joined_path(joined_path(root, "git/locks"@), repository_id(git) + ".lock"@)
}

/// Where the things of one repository lie.
#[derive(Debug)]
pub struct Layout {
    pub database: String,
    pub checkouts: String,
    pub lock: String,
}

/// The reference that keeps a commit in the database.
pub open spec fn commit_ref(commit: Seq<char>) -> Seq<char> {
    "refs/typm/commits/"@ + commit
}

/// The requests for everything that a repository advertises.
pub open spec fn advertised_refspecs() -> Seq<Seq<char>> {
    seq![
        "+refs/heads/*:refs/remotes/origin/*"@,
        "+refs/tags/*:refs/tags/*"@,
        "+HEAD:refs/typm/default"@,
    ]
}

/// The requests for everything that a repository advertises.
pub fn fetch_advertised() -> (r: Vec<String>)
    ensures
        texts(r@) == advertised_refspecs(),
{
    let mut r: Vec<String> = Vec::new();
    r.push("+refs/heads/*:refs/remotes/origin/*".to_owned());
    r.push("+refs/tags/*:refs/tags/*".to_owned());
    r.push("+HEAD:refs/typm/default".to_owned());
    assert(texts(r@) =~= advertised_refspecs());
    r
}

/// The file in a checkout that names its commit once it is finished.
pub fn marker_path(checkout: &str) -> (r: String)
    ensures
        r@ == joined_path(checkout@, ".git/typm-complete"@),
{
    join_path(checkout, ".git/typm-complete")
}

/// The file in a checkout that tells its head.
pub fn head_path(checkout: &str) -> (r: String)
    ensures
        r@ == joined_path(checkout@, ".git/HEAD"@),
{
    join_path(checkout, ".git/HEAD")
}

/// A failure that ends the work on a source.
#[derive(Clone, Copy, Debug, PartialEq, Eq, Structural)]
pub enum Failure {
    /// The last fetch failed, with its own error.
    Fetch,
    Sha256,
    Revision,
    LockedDownload,
    LockedUnavailable,
    NotCommit,
    Unresolved,
}

/// How far the work on a source has come.
#[derive(Clone, Copy, Debug, PartialEq, Eq, Structural)]
pub enum Stage {
    CheckPinned,
    Open,
    LookPinned,
    AnnouncePinned,
    FetchPinned,
    LookFetchedPinned,
    FetchSourceForPinned,
    LookPinnedAgain,
    FetchAdvertisedForPinned,
    LookPinnedLast,
    LookAbbreviated,
    AnnounceSource,
    Invalidate,
    FetchSource,
    LookSource { fetched: bool },
    FetchAdvertised,
    LookRequested,
    Record,
    Retain,
    CheckCheckout,
    Create,
    Finished,
    Failed(Failure),
}

/// The work on a source. `pinned` is the commit to be kept to, if there is one, and `commit` the
/// commit found last.
#[derive(Debug)]
pub struct Retrieval {
    pub checkouts: String,
    pub source: GitSourceSpec,
    pub pinned: Option<String>,
    pub stage: Stage,
    pub commit: String,
}

/// The work on a source, with its texts.
pub struct RetrievalModel {
    pub checkouts: Seq<char>,
    pub source: GitSourceModel,
    pub pinned: Option<Seq<char>>,
    pub stage: Stage,
    pub commit: Seq<char>,
}

impl View for Retrieval {
    type V = RetrievalModel;

    open spec fn view(&self) -> RetrievalModel {
        RetrievalModel {
            checkouts: self.checkouts@,
            source: self.source@,
            pinned: opt_text(self.pinned),
            stage: self.stage,
            commit: self.commit@,
        }
    }
}

/// What is to be done next.
#[derive(Debug)]
pub enum Request {
    /// Tell whether the checkout at `root` is a finished one of `commit`.
    Check { root: String, commit: String },
    /// Open the database, made first where it is missing.
    Open,
    /// Ask the database for the commit of a revision.
    Look(String),
    /// Tell the user that the repository is updated.
    Announce(String),
    /// Remove a reference, if it is there.
    Invalidate(String),
    /// Fetch into the database.
    Fetch(Vec<String>),
    /// Set a reference to a commit.
    Point { reference: String, commit: String },
    /// Make the checkout of `commit` at `root`.
    Create { root: String, commit: String },
    /// Nothing: the checkout is there.
    Done(Checkout),
    /// Nothing: the work failed. The error is that of the last fetch where there is none here.
    Fail(Option<GitError>),
}

/// What is to be done next, with its texts.
pub enum RequestModel {
    Check { root: Seq<char>, commit: Seq<char> },
    Open,
    Look(Seq<char>),
    Announce(Seq<char>),
    Invalidate(Seq<char>),
    Fetch(Seq<Seq<char>>),
    Point { reference: Seq<char>, commit: Seq<char> },
    Create { root: Seq<char>, commit: Seq<char> },
    Done { root: Seq<char>, commit: Seq<char> },
    Fail(Option<GitFault>),
}

impl View for Request {
    type V = RequestModel;

    open spec fn view(&self) -> RequestModel {
        match self {
            Request::Check { root, commit } => RequestModel::Check { root: root@, commit: commit@ },
            Request::Open => RequestModel::Open,
            Request::Look(revision) => RequestModel::Look(revision@),
            Request::Announce(message) => RequestModel::Announce(message@),
            Request::Invalidate(reference) => RequestModel::Invalidate(reference@),
            Request::Fetch(refspecs) => RequestModel::Fetch(texts(refspecs@)),
            Request::Point { reference, commit } => RequestModel::Point {
                reference: reference@,
                commit: commit@,
            },
            Request::Create { root, commit } => RequestModel::Create {
                root: root@,
                commit: commit@,
            },
            Request::Done(checkout) => RequestModel::Done {
                root: checkout.root@,
                commit: checkout.commit@,
            },
            Request::Fail(Some(error)) => RequestModel::Fail(Some(error@)),
            Request::Fail(None) => RequestModel::Fail(None),
        }
    }
}

/// What came of a request.
#[derive(Debug)]
pub enum Reply {
    /// It was done.
    Done,
    /// Whether it is so.
    Answer(bool),
    /// Whether the fetch succeeded.
    Fetched(bool),
    /// What the database said.
    Looked(Lookup),
}

/// What came of a request, with the commit as text.
pub enum ReplyModel {
    Done,
    Answer(bool),
    Fetched(bool),
    Found(Seq<char>),
    Absent,
    Unreadable,
}

impl View for Reply {
    type V = ReplyModel;

    open spec fn view(&self) -> ReplyModel {
        match self {
            Reply::Done => ReplyModel::Done,
            Reply::Answer(yes) => ReplyModel::Answer(*yes),
            Reply::Fetched(ok) => ReplyModel::Fetched(*ok),
            Reply::Looked(Lookup::Commit(commit)) => ReplyModel::Found(commit@),
            Reply::Looked(Lookup::Failed) => ReplyModel::Unreadable,
            Reply::Looked(_) => ReplyModel::Absent,
        }
    }
}

/// The pin that counts: none when the source is refreshed.
pub open spec fn effective_pin(locked: Option<Seq<char>>, refresh: bool) -> Option<Seq<char>> {
    if refresh {
        None
    } else {
        locked
    }
}

/// The stage in which the database is opened, unless only a SHA-256 repository could have what is
/// asked for.
pub open spec fn opening(source: GitSourceModel, pinned: Option<Seq<char>>) -> Stage {
    if (pinned is Some && sha256_revision(pinned->0)) || (source.rev is Some && sha256_revision(
        source.rev->0,
    )) {
        Stage::Failed(Failure::Sha256)
    } else {
        Stage::Open
    }
}

/// How the work on a source begins.
pub open spec fn started(
    checkouts: Seq<char>,
    source: GitSourceModel,
    locked: Option<Seq<char>>,
    refresh: bool,
) -> RetrievalModel {
    let pinned = effective_pin(locked, refresh);
    RetrievalModel {
        checkouts,
        source,
        pinned,
        stage: if pinned is Some {
            Stage::CheckPinned
        } else {
            opening(source, pinned)
        },
        commit: if pinned is Some {
            pinned->0
        } else {
            Seq::empty()
        },
    }
}

/// The stage after the database was opened.
pub open spec fn opened(m: RetrievalModel) -> Stage {
    if m.pinned is Some {
        Stage::LookPinned
    } else if m.source.rev is Some && commit_prefix(m.source.rev->0) {
        Stage::LookAbbreviated
    } else {
        Stage::AnnounceSource
    }
}

/// The stage after a fetch.
pub open spec fn after_fetch(stage: Stage, ok: bool) -> Stage {
    match stage {
        Stage::FetchPinned => if ok {
            Stage::LookFetchedPinned
        } else {
            Stage::FetchSourceForPinned
        },
        Stage::FetchSourceForPinned => Stage::LookPinnedAgain,
        Stage::FetchAdvertisedForPinned => if ok {
            Stage::LookPinnedLast
        } else {
            Stage::Failed(Failure::LockedDownload)
        },
        Stage::FetchSource => Stage::LookSource { fetched: ok },
        Stage::FetchAdvertised => if ok {
            Stage::LookRequested
        } else {
            Stage::Failed(Failure::Fetch)
        },
        _ => stage,
    }
}

/// The stage after the database named a commit.
pub open spec fn after_found(m: RetrievalModel, commit: Seq<char>) -> Stage {
    match m.stage {
        Stage::LookPinned => Stage::Retain,
        Stage::LookFetchedPinned | Stage::LookPinnedAgain => Stage::LookPinnedLast,
        Stage::LookPinnedLast => Stage::Retain,
        Stage::LookAbbreviated => if m.source.rev is Some && has_prefix(
            commit,
            lower(m.source.rev->0),
        ) {
            Stage::Record
        } else {
            Stage::AnnounceSource
        },
        Stage::LookSource { fetched } => if fetched {
            Stage::Retain
        } else if m.source.rev is Some {
            Stage::FetchAdvertised
        } else {
            Stage::Failed(Failure::Fetch)
        },
        Stage::LookRequested => Stage::Record,
        _ => m.stage,
    }
}

/// The stage after the database knew no commit.
pub open spec fn after_absent(m: RetrievalModel) -> Stage {
    match m.stage {
        Stage::LookPinned => Stage::AnnouncePinned,
        Stage::LookFetchedPinned => Stage::FetchSourceForPinned,
        Stage::LookPinnedAgain => Stage::FetchAdvertisedForPinned,
        Stage::LookPinnedLast => Stage::Failed(Failure::LockedUnavailable),
        Stage::LookAbbreviated => Stage::AnnounceSource,
        Stage::LookSource { fetched } => if m.source.rev is Some {
            Stage::FetchAdvertised
        } else if fetched {
            Stage::Failed(Failure::NotCommit)
        } else {
            Stage::Failed(Failure::Fetch)
        },
        Stage::LookRequested => Stage::Failed(Failure::Unresolved),
        _ => m.stage,
    }
}

/// The stage after something was done.
pub open spec fn after_done(m: RetrievalModel) -> Stage {
    match m.stage {
        Stage::Open => opened(m),
        Stage::AnnouncePinned => Stage::FetchPinned,
        Stage::AnnounceSource => Stage::Invalidate,
        Stage::Invalidate => Stage::FetchSource,
        Stage::Record => Stage::Retain,
        Stage::Retain => Stage::CheckCheckout,
        Stage::Create => Stage::Finished,
        _ => m.stage,
    }
}

/// The stage after a question about a checkout.
pub open spec fn after_answer(m: RetrievalModel, yes: bool) -> Stage {
    match m.stage {
        Stage::CheckPinned => if yes {
            Stage::Finished
        } else {
            opening(m.source, m.pinned)
        },
        Stage::CheckCheckout => if yes {
            Stage::Finished
        } else {
            Stage::Create
        },
        _ => m.stage,
    }
}

/// The kinds of stages, by what they ask for.
pub open spec fn fetches(stage: Stage) -> bool {
    stage is FetchPinned || stage is FetchSourceForPinned || stage is FetchAdvertisedForPinned
        || stage is FetchSource || stage is FetchAdvertised
}

/// A stage that asks the database for a commit.
pub open spec fn looks(stage: Stage) -> bool {
    stage is LookPinned || stage is LookFetchedPinned || stage is LookPinnedAgain
        || stage is LookPinnedLast || stage is LookAbbreviated || stage is LookSource
        || stage is LookRequested
}

/// A stage that asks about a checkout.
pub open spec fn checks(stage: Stage) -> bool {
    stage is CheckPinned || stage is CheckCheckout
}

/// The work has ended.
pub open spec fn ended(stage: Stage) -> bool {
    stage is Finished || stage is Failed
}

/// A reply is one that the stage waits for.
pub open spec fn awaited(stage: Stage, reply: ReplyModel) -> bool {
    match reply {
        ReplyModel::Done => !fetches(stage) && !looks(stage) && !checks(stage) && !ended(stage),
        ReplyModel::Answer(_) => checks(stage),
        ReplyModel::Fetched(_) => fetches(stage),
        ReplyModel::Found(_) | ReplyModel::Absent | ReplyModel::Unreadable => looks(stage),
    }
}

/// The work after a reply.
pub open spec fn advanced(m: RetrievalModel, reply: ReplyModel) -> RetrievalModel {
    match reply {
        ReplyModel::Done => RetrievalModel { stage: after_done(m), ..m },
        ReplyModel::Answer(yes) => RetrievalModel { stage: after_answer(m, yes), ..m },
        ReplyModel::Fetched(ok) => RetrievalModel { stage: after_fetch(m.stage, ok), ..m },
        ReplyModel::Found(commit) => RetrievalModel {
            stage: after_found(m, commit),
            commit,
            ..m
        },
        ReplyModel::Absent => RetrievalModel { stage: after_absent(m), ..m },
        ReplyModel::Unreadable => RetrievalModel {
            stage: Stage::Failed(Failure::Revision),
            ..m
        },
    }
}

/// The text of a pin, which is there in every stage that speaks of it.
pub open spec fn pin_text(m: RetrievalModel) -> Seq<char> {
    match m.pinned {
        Some(commit) => commit,
        None => Seq::empty(),
    }
}

/// The error of a failure.
pub open spec fn failure_fault(m: RetrievalModel, failure: Failure) -> Option<GitFault> {
    match failure {
        Failure::Fetch => None,
        Failure::Sha256 => Some(GitFault::Sha256),
        Failure::Revision => Some(GitFault::Revision),
        Failure::LockedDownload => Some(
            GitFault::LockedDownload { commit: pin_text(m), git: m.source.git },
        ),
        Failure::LockedUnavailable => Some(
            GitFault::LockedUnavailable { commit: pin_text(m), git: m.source.git },
        ),
        Failure::NotCommit => Some(
            GitFault::NotCommit { reference: requested(m.source), git: m.source.git },
        ),
        Failure::Unresolved => Some(
            GitFault::Unresolved { revision: requested(m.source), git: m.source.git },
        ),
    }
}

/// What the user is told before a repository is fetched.
pub open spec fn update_text(git: Seq<char>) -> Seq<char> {
    "git repository `"@ + git + "`"@
}

/// What is to be done in a stage.
pub open spec fn request_of(m: RetrievalModel) -> RequestModel {
    let root = joined_path(m.checkouts, m.commit);
    match m.stage {
        Stage::CheckPinned | Stage::CheckCheckout => RequestModel::Check {
            root,
            commit: m.commit,
        },
        Stage::Open => RequestModel::Open,
        Stage::LookPinned | Stage::LookFetchedPinned | Stage::LookPinnedAgain
        | Stage::LookPinnedLast => RequestModel::Look(pin_text(m)),
        Stage::LookAbbreviated | Stage::LookRequested => RequestModel::Look(requested(m.source)),
        Stage::LookSource { fetched } => RequestModel::Look(cached_ref(m.source)),
        Stage::AnnouncePinned | Stage::AnnounceSource => RequestModel::Announce(
            update_text(m.source.git),
        ),
        Stage::Invalidate => RequestModel::Invalidate(cached_ref(m.source)),
        Stage::FetchPinned => RequestModel::Fetch(seq![pin_text(m)]),
        Stage::FetchSourceForPinned | Stage::FetchSource => RequestModel::Fetch(
            seq![source_refspec(m.source)],
        ),
        Stage::FetchAdvertisedForPinned | Stage::FetchAdvertised => RequestModel::Fetch(
            advertised_refspecs(),
        ),
        Stage::Record => RequestModel::Point {
            reference: cached_ref(m.source),
            commit: m.commit,
        },
        Stage::Retain => RequestModel::Point { reference: commit_ref(m.commit), commit: m.commit },
        Stage::Create => RequestModel::Create { root, commit: m.commit },
        Stage::Finished => RequestModel::Done { root, commit: m.commit },
        Stage::Failed(failure) => RequestModel::Fail(failure_fault(m, failure)),
    }
}

impl Cache {
    /// The storage that a run uses; `root` is its cache directory, links followed.
    pub fn new(context: &Context, root: &str) -> (r: Cache)
        ensures
            r.root@ == root@,
            r.transport.shell == context.shell,
            r.transport.fetch_with_cli == context.config.net.git_fetch_with_cli,
    {
        Self::configured(root, context.shell, context.config.net.git_fetch_with_cli)
    }

    /// The storage under `root`.
    pub fn configured(root: &str, shell: Shell, fetch_with_cli: bool) -> (r: Cache)
        ensures
            r.root@ == root@,
            r.transport.shell == shell,
            r.transport.fetch_with_cli == fetch_with_cli,
    {
        Cache { root: root.to_owned(), transport: Transport::new(shell, fetch_with_cli) }
    }

    /// Where the things of a repository lie.
    pub fn layout(&self, git: &str) -> (r: Layout)
        ensures
            r.database@ == database_path(self.root@, git@),
            r.checkouts@ == checkouts_path(self.root@, git@),
            r.lock@ == lock_path(self.root@, git@),
            crate::hashing::is_digest(repository_id(git@)),
    {
        let root = self.root.as_str();
        let id = digest(git.as_bytes());
        let database = join_path(join_path(root, "git/db").as_str(), id.as_str());
        let checkouts = join_path(join_path(root, "git/checkouts").as_str(), id.as_str());
        let lock = join_path(
            join_path(root, "git/locks").as_str(),
            plus(id.as_str(), ".lock").as_str(),
        );
        Layout { database, checkouts, lock }
    }

    /// Begins the work on a source: at the pinned commit, unless it is to be refreshed.
    pub fn resolve(&self, source: &GitSourceSpec, locked: Option<&str>, refresh: bool) -> (r: Result<
        Retrieval,
        GitError,
    >)
        ensures
            match r {
                Ok(retrieval) => {
                    &&& source_fault(source@) is None
                    &&& locked is Some ==> full_commit(locked->0@)
                    &&& retrieval@ == started(
                        checkouts_path(self.root@, source@.git),
                        source@,
                        opt_str(locked),
                        refresh,
                    )
                },
                Err(e) => if source_fault(source@) is Some {
                    source_fault(source@) == Some(e@)
                } else {
                    locked is Some && !full_commit(locked->0@) && e@ == GitFault::LockedCommit(
                        locked->0@,
                    )
                },
            },
    {
        match source.validate() {
            Ok(()) => {},
            Err(e) => return Err(e),
        }
        match validate_locked_commit(locked) {
            Ok(()) => {},
            Err(e) => return Err(e),
        }
        let checkouts = self.layout(source.git.as_str()).checkouts;
        if !refresh {
            match locked {
                Some(commit) => {
                    return Ok(
                        Retrieval {
                            checkouts,
                            source: source.clone(),
                            pinned: Some(commit.to_owned()),
                            stage: Stage::CheckPinned,
                            commit: commit.to_owned(),
                        },
                    );
                },
                None => {},
            }
        }
        let stage = opening_stage(source, &None);
        let commit = String::new();
        assert(commit@ =~= Seq::<char>::empty());
        Ok(Retrieval { checkouts, source: source.clone(), pinned: None, stage, commit })
    }
}

/// The stage in which the database is opened, unless only a SHA-256 repository could have what is
/// asked for.
fn opening_stage(source: &GitSourceSpec, pinned: &Option<String>) -> (r: Stage)
    ensures
        r == opening(source@, opt_text(*pinned)),
{
    if reject_sha256_revision(opt_slice(pinned)).is_err() || reject_sha256_revision(
        opt_slice(&source.rev),
    ).is_err() {
        Stage::Failed(Failure::Sha256)
    } else {
        Stage::Open
    }
}

/// One text as a list.
fn single(text: String) -> (r: Vec<String>)
    ensures
        texts(r@) == seq![text@],
{
    let mut r: Vec<String> = Vec::new();
    r.push(text);
    assert(texts(r@) =~= seq![text@]);
    r
}

impl Retrieval {
    /// The pinned commit.
    fn pin(&self) -> (r: String)
        ensures
            r@ == pin_text(self@),
    {
        match &self.pinned {
            Some(commit) => commit.clone(),
            None => {
                let none = String::new();
                assert(none@ =~= Seq::<char>::empty());
                none
            },
        }
    }

    /// Where the checkout of the commit found last lies.
    fn root(&self) -> (r: String)
        ensures
            r@ == joined_path(self@.checkouts, self@.commit),
    {
        join_path(self.checkouts.as_str(), self.commit.as_str())
    }

    /// The error of a failure; none where it is that of the last fetch.
    fn error(&self, failure: Failure) -> (r: Option<GitError>)
        ensures
            match r {
                Some(e) => failure_fault(self@, failure) == Some(e@),
                None => failure_fault(self@, failure) is None,
            },
    {
        let git = self.source.git.clone();
        match failure {
            Failure::Fetch => None,
            Failure::Sha256 => Some(GitError::Sha256),
            Failure::Revision => Some(GitError::Revision),
            Failure::LockedDownload => Some(GitError::LockedDownload { commit: self.pin(), git }),
            Failure::LockedUnavailable => Some(
                GitError::LockedUnavailable { commit: self.pin(), git },
            ),
            Failure::NotCommit => Some(
                GitError::NotCommit { reference: self.source.requested_ref(), git },
            ),
            Failure::Unresolved => Some(
                GitError::Unresolved { revision: self.source.requested_ref(), git },
            ),
        }
    }

    /// What is to be done next.
    pub fn request(&self) -> (r: Request)
        ensures
            r@ == request_of(self@),
    {
        let source = &self.source;
        match self.stage {
            Stage::CheckPinned | Stage::CheckCheckout => Request::Check {
                root: self.root(),
                commit: self.commit.clone(),
            },
            Stage::Open => Request::Open,
            Stage::LookPinned | Stage::LookFetchedPinned | Stage::LookPinnedAgain
            | Stage::LookPinnedLast => Request::Look(self.pin()),
            Stage::LookAbbreviated | Stage::LookRequested => Request::Look(source.requested_ref()),
            Stage::LookSource { fetched } => Request::Look(source.cache_ref()),
            Stage::AnnouncePinned | Stage::AnnounceSource => Request::Announce(
                plus3("git repository `", source.git.as_str(), "`"),
            ),
            Stage::Invalidate => Request::Invalidate(source.cache_ref()),
            Stage::FetchPinned => Request::Fetch(single(self.pin())),
            Stage::FetchSourceForPinned | Stage::FetchSource => Request::Fetch(
                single(source.refspec()),
            ),
            Stage::FetchAdvertisedForPinned | Stage::FetchAdvertised => Request::Fetch(
                fetch_advertised(),
            ),
            Stage::Record => Request::Point {
                reference: source.cache_ref(),
                commit: self.commit.clone(),
            },
            Stage::Retain => Request::Point {
                reference: plus("refs/typm/commits/", self.commit.as_str()),
                commit: self.commit.clone(),
            },
            Stage::Create => Request::Create { root: self.root(), commit: self.commit.clone() },
            Stage::Finished => Request::Done(
                Checkout { root: self.root(), commit: self.commit.clone() },
            ),
            Stage::Failed(failure) => Request::Fail(self.error(failure)),
        }
    }

    /// Goes on with what came of the last request.
    pub fn reply(&mut self, reply: Reply)
        requires
            awaited(old(self)@.stage, reply@),
        ensures
            final(self)@ == advanced(old(self)@, reply@),
    {
        match reply {
            Reply::Done => self.done(),
            Reply::Answer(yes) => {
                self.stage = match self.stage {
                    Stage::CheckPinned => if yes {
                        Stage::Finished
                    } else {
                        opening_stage(&self.source, &self.pinned)
                    },
                    Stage::CheckCheckout => if yes {
                        Stage::Finished
                    } else {
                        Stage::Create
                    },
                    other => other,
                };
            },
            Reply::Fetched(ok) => {
                self.stage = match self.stage {
                    Stage::FetchPinned => if ok {
                        Stage::LookFetchedPinned
                    } else {
                        Stage::FetchSourceForPinned
                    },
                    Stage::FetchSourceForPinned => Stage::LookPinnedAgain,
                    Stage::FetchAdvertisedForPinned => if ok {
                        Stage::LookPinnedLast
                    } else {
                        Stage::Failed(Failure::LockedDownload)
                    },
                    Stage::FetchSource => Stage::LookSource { fetched: ok },
                    Stage::FetchAdvertised => if ok {
                        Stage::LookRequested
                    } else {
                        Stage::Failed(Failure::Fetch)
                    },
                    other => other,
                };
            },
            Reply::Looked(lookup) => match resolve_commit(lookup) {
                Ok(Some(commit)) => self.found(commit),
                Ok(None) => self.absent(),
                Err(_) => {
                    self.stage = Stage::Failed(Failure::Revision);
                },
            },
        }
    }

    /// Goes on after something was done.
    fn done(&mut self)
        ensures
            final(self)@ == advanced(old(self)@, ReplyModel::Done),
    {
        self.stage = match self.stage {
            Stage::Open => if self.pinned.is_some() {
                Stage::LookPinned
            } else {
                match &self.source.rev {
                    Some(rev) => if is_commit_prefix(rev.as_str()) {
                        Stage::LookAbbreviated
                    } else {
                        Stage::AnnounceSource
                    },
                    None => Stage::AnnounceSource,
                }
            },
            Stage::AnnouncePinned => Stage::FetchPinned,
            Stage::AnnounceSource => Stage::Invalidate,
            Stage::Invalidate => Stage::FetchSource,
            Stage::Record => Stage::Retain,
            Stage::Retain => Stage::CheckCheckout,
            Stage::Create => Stage::Finished,
            other => other,
        };
    }

    /// Goes on after the database named a commit.
    fn found(&mut self, commit: String)
        ensures
            final(self)@ == advanced(old(self)@, ReplyModel::Found(commit@)),
    {
        self.stage = match self.stage {
            Stage::LookPinned => Stage::Retain,
            Stage::LookFetchedPinned | Stage::LookPinnedAgain => Stage::LookPinnedLast,
            Stage::LookPinnedLast => Stage::Retain,
            Stage::LookAbbreviated => match &self.source.rev {
                Some(rev) => if starts_with_lowered(commit.as_str(), rev.as_str()) {
                    Stage::Record
                } else {
                    Stage::AnnounceSource
                },
                None => Stage::AnnounceSource,
            },
            Stage::LookSource { fetched } => if fetched {
                Stage::Retain
            } else if self.source.rev.is_some() {
                Stage::FetchAdvertised
            } else {
                Stage::Failed(Failure::Fetch)
            },
            Stage::LookRequested => Stage::Record,
            other => other,
        };
        self.commit = commit;
    }

    /// Goes on after the database knew no commit.
    fn absent(&mut self)
        ensures
            final(self)@ == advanced(old(self)@, ReplyModel::Absent),
    {
        self.stage = match self.stage {
            Stage::LookPinned => Stage::AnnouncePinned,
            Stage::LookFetchedPinned => Stage::FetchSourceForPinned,
            Stage::LookPinnedAgain => Stage::FetchAdvertisedForPinned,
            Stage::LookPinnedLast => Stage::Failed(Failure::LockedUnavailable),
            Stage::LookAbbreviated => Stage::AnnounceSource,
            Stage::LookSource { fetched } => if self.source.rev.is_some() {
                Stage::FetchAdvertised
            } else if fetched {
                Stage::Failed(Failure::NotCommit)
            } else {
                Stage::Failed(Failure::Fetch)
            },
            Stage::LookRequested => Stage::Failed(Failure::Unresolved),
            other => other,
        };
    }
}

/// How much is left to do at most: every reply takes the work further.
pub open spec fn remaining(stage: Stage) -> nat {
    match stage {
        Stage::CheckPinned => 20,
        Stage::Open => 19,
        Stage::LookPinned | Stage::LookAbbreviated => 18,
        Stage::AnnouncePinned | Stage::AnnounceSource => 17,
        Stage::FetchPinned | Stage::Invalidate => 16,
        Stage::LookFetchedPinned | Stage::FetchSource => 15,
        Stage::FetchSourceForPinned | Stage::LookSource { .. } => 14,
        Stage::LookPinnedAgain | Stage::FetchAdvertised => 13,
        Stage::FetchAdvertisedForPinned | Stage::LookRequested => 12,
        Stage::LookPinnedLast | Stage::Record => 11,
        Stage::Retain => 3,
        Stage::CheckCheckout => 2,
        Stage::Create => 1,
        Stage::Finished | Stage::Failed(_) => 0,
    }
}

/// Every awaited reply takes the work nearer to its end, so it ends.
pub proof fn lemma_work_ends(m: RetrievalModel, reply: ReplyModel)
    requires
        awaited(m.stage, reply),
    ensures
        remaining(advanced(m, reply).stage) < remaining(m.stage),
{
}

/// The stages of work that keeps to a pin.
pub open spec fn keeps_pin(stage: Stage) -> bool {
    !(stage is LookAbbreviated) && !(stage is AnnounceSource) && !(stage is Invalidate) && !(
    stage is FetchSource) && !(stage is LookSource) && !(stage is FetchAdvertised) && !(
    stage is LookRequested) && !(stage is Record)
}

/// Work on a pinned source keeps to the pin: from beginning to end it never looks up what the
/// source's selector stands for, nor changes the reference under which that is cached.
pub proof fn lemma_pin_is_kept(m: RetrievalModel, reply: ReplyModel)
    requires
        m.pinned is Some,
        keeps_pin(m.stage),
        awaited(m.stage, reply),
    ensures
        advanced(m, reply).pinned == m.pinned,
        keeps_pin(advanced(m, reply).stage),
        !(request_of(m) matches RequestModel::Invalidate(_)),
        request_of(m) matches RequestModel::Look(revision) ==> revision == m.pinned->0,
{
}

/// Work on a pinned source is at the pin from beginning to end, as long as the database names the
/// pinned commit when it is asked for it: so the files it ends with are those of the pin.
pub proof fn lemma_pin_is_reached(m: RetrievalModel, reply: ReplyModel)
    requires
        m.pinned is Some,
        keeps_pin(m.stage),
        m.commit == m.pinned->0,
        awaited(m.stage, reply),
        reply matches ReplyModel::Found(commit) ==> commit == m.pinned->0,
    ensures
        advanced(m, reply).commit == m.pinned->0,
        advanced(m, reply).stage is Finished ==> request_of(advanced(m, reply)) == (
        RequestModel::Done {
            root: joined_path(m.checkouts, m.pinned->0),
            commit: m.pinned->0,
        }),
{
}

/// When a source is refreshed, the locked commit has no influence on the work.
pub proof fn lemma_refresh_ignores_lock(
    checkouts: Seq<char>,
    source: GitSourceModel,
    locked: Option<Seq<char>>,
)
    ensures
        started(checkouts, source, locked, true) == started(checkouts, source, None, true),
{
}

/// A source without a locked commit is resolved afresh.
pub proof fn lemma_without_lock_is_fresh(checkouts: Seq<char>, source: GitSourceModel)
    ensures
        started(checkouts, source, None, false) == started(checkouts, source, None, true),
{
}

/// Where a branch, a tag or the default branch could not be fetched, the work ends with the error of
/// the fetch, though the database may still name a commit under the cached reference.
pub proof fn lemma_failed_fetch_is_told(m: RetrievalModel, reply: ReplyModel)
    requires
        m.stage == (Stage::LookSource { fetched: false }),
        m.source.rev is None,
        reply matches ReplyModel::Found(_) || reply is Absent,
    ensures
        request_of(advanced(m, reply)) == RequestModel::Fail(None),
{
}

/// The commit of the work changes only to one that the database named.
pub proof fn lemma_commit_was_found(m: RetrievalModel, reply: ReplyModel)
    ensures
        advanced(m, reply).commit == m.commit || reply == ReplyModel::Found(
            advanced(m, reply).commit,
        ),
{
}

/// A commit is cached for an abbreviated revision without a fetch only where the revision
/// abbreviates it.
pub proof fn lemma_abbreviation_fits(m: RetrievalModel, reply: ReplyModel)
    requires
        m.stage is LookAbbreviated,
        advanced(m, reply).stage is Record,
        awaited(m.stage, reply),
    ensures
        m.source.rev is Some,
        has_prefix(advanced(m, reply).commit, lower(m.source.rev->0)),
{
}

} // verus!
