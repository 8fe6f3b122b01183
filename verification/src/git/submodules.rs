//! Nested repositories: where each comes from, and by which steps it is brought to the commit
//! that its parent pins.

use vstd::prelude::*;

use crate::git::cache::{advertised_refspecs, fetch_advertised};
use crate::git::opt_slice;
use crate::git::transport::{is_local_url, local_url};
use crate::text::{ends_with, has_prefix, has_suffix, opt_str, opt_text, plus3, starts_with, texts};

verus! {

broadcast use vstd::string::group_string_axioms;

/// How deep repositories may be nested.
pub const MAX_DEPTH: usize = 256;

/// How long the location of a parent repository may be.
pub const MAX_LOCATION: usize = 0x0fff_ffff;

/// What is wrong with a nested repository.
#[derive(Debug)]
pub enum SubmoduleError {
    TooDeep,
    NameNotText,
    UrlNotText,
    UrlMissing,
    ParentUrl,
    RelativeUrl,
    LocalUrl(String),
    NoCommit(String),
}

/// What is wrong with a nested repository, with its texts.
pub enum SubmoduleFault {
    TooDeep,
    NameNotText,
    UrlNotText,
    UrlMissing,
    ParentUrl,
    RelativeUrl,
    LocalUrl(Seq<char>),
    NoCommit(Seq<char>),
}

impl View for SubmoduleError {
    type V = SubmoduleFault;

    open spec fn view(&self) -> SubmoduleFault {
        match self {
            SubmoduleError::TooDeep => SubmoduleFault::TooDeep,
            SubmoduleError::NameNotText => SubmoduleFault::NameNotText,
            SubmoduleError::UrlNotText => SubmoduleFault::UrlNotText,
            SubmoduleError::UrlMissing => SubmoduleFault::UrlMissing,
            SubmoduleError::ParentUrl => SubmoduleFault::ParentUrl,
            SubmoduleError::RelativeUrl => SubmoduleFault::RelativeUrl,
            SubmoduleError::LocalUrl(url) => SubmoduleFault::LocalUrl(url@),
            SubmoduleError::NoCommit(name) => SubmoduleFault::NoCommit(name@),
        }
    }
}

/// The text shown for a fault.
pub open spec fn fault_text(fault: SubmoduleFault) -> Seq<char> {
    match fault {
        SubmoduleFault::TooDeep => "Git submodules exceed 256 nested repositories"@,
        SubmoduleFault::NameNotText => "Git submodule name is not valid UTF-8"@,
        SubmoduleFault::UrlNotText => "Git submodule URL is not valid UTF-8"@,
        SubmoduleFault::UrlMissing => "Git submodule has no repository URL"@,
        SubmoduleFault::ParentUrl => "invalid parent repository file URL"@,
        SubmoduleFault::RelativeUrl => "could not resolve relative Git submodule URL"@,
        SubmoduleFault::LocalUrl(url) => "refusing local Git submodule URL `"@ + url
            + "` in a network repository"@,
        SubmoduleFault::NoCommit(name) => "Git submodule `"@ + name + "` has no pinned commit"@,
    }
}

impl SubmoduleError {
    /// The text shown to the user.
    pub fn message(&self) -> (r: String)
        ensures
            r@ == fault_text(self@),
    {
        match self {
            SubmoduleError::TooDeep => "Git submodules exceed 256 nested repositories".to_owned(),
            SubmoduleError::NameNotText => "Git submodule name is not valid UTF-8".to_owned(),
            SubmoduleError::UrlNotText => "Git submodule URL is not valid UTF-8".to_owned(),
            SubmoduleError::UrlMissing => "Git submodule has no repository URL".to_owned(),
            SubmoduleError::ParentUrl => "invalid parent repository file URL".to_owned(),
            SubmoduleError::RelativeUrl =>
                "could not resolve relative Git submodule URL".to_owned(),
            SubmoduleError::LocalUrl(url) => plus3(
                "refusing local Git submodule URL `",
                url.as_str(),
                "` in a network repository",
            ),
            SubmoduleError::NoCommit(name) => plus3(
                "Git submodule `",
                name.as_str(),
                "` has no pinned commit",
            ),
        }
    }
}

/// The path of a URL, as `url::Url::path` gives it; none where the text is no URL.
pub uninterp spec fn url_path(text: Seq<char>) -> Option<Seq<char>>;

/// Calls `url::Url::path` on the URL in `text`. The contract claims that the path is a function of
/// the text.
#[verifier::external_body]
fn path_of_url(text: &str) -> (r: Option<String>)
    ensures
        opt_text(r) == url_path(text@),
{
    url::Url::parse(text).ok().map(|url| url.path().to_owned())
}

/// A URL with a segment added to its path, as `url::PathSegmentsMut::push` does it; none where the
/// text is no URL or its URL has no segments.
pub uninterp spec fn url_with_segment(text: Seq<char>, segment: Seq<char>) -> Option<Seq<char>>;

/// Calls `url::PathSegmentsMut::push` on the URL in `text`. The contract claims that the new URL is
/// a function of the text and the segment. The bound keeps the URL's length within what the crate
/// can count.
#[verifier::external_body]
fn with_segment(text: &str, segment: &str) -> (r: Option<String>)
    requires
        text@.len() + segment@.len() <= MAX_LOCATION,
    ensures
        opt_text(r) == url_with_segment(text@, segment@),
{
    let mut url = url::Url::parse(text).ok()?;
    url.path_segments_mut().ok()?.push(segment);
    Some(String::from(url))
}

/// A reference read against a base, as `url::Url::join` reads it; none where it cannot be.
pub uninterp spec fn url_join(base: Seq<char>, reference: Seq<char>) -> Option<Seq<char>>;

/// Calls `url::Url::join` on the URL in `base`. The contract claims that the new URL is a function
/// of the two texts.
#[verifier::external_body]
fn join_url(base: &str, reference: &str) -> (r: Option<String>)
    ensures
        opt_text(r) == url_join(base@, reference@),
{
    url::Url::parse(base).ok()?.join(reference).ok().map(String::from)
}

/// Accepts a nesting that is not too deep.
pub fn check_depth(depth: usize) -> (r: Result<(), SubmoduleError>)
    ensures
        match r {
            Ok(()) => depth <= MAX_DEPTH,
            Err(e) => depth > MAX_DEPTH && e@ == SubmoduleFault::TooDeep,
        },
{
    if depth > MAX_DEPTH {
        Err(SubmoduleError::TooDeep)
    } else {
        Ok(())
    }
}

/// The name of a nested repository, or none where it is not to be brought here. `skipped` tells
/// that its update strategy is to do nothing, `name` is its name if that is text.
pub fn wanted_name(skipped: bool, name: Option<&str>) -> (r: Result<
    Option<String>,
    SubmoduleError,
>)
    ensures
        match r {
            Ok(wanted) => opt_text(wanted) == (if skipped {
                None
            } else {
                opt_str(name)
            }) && (skipped || name is Some),
            Err(e) => !skipped && name is None && e@ == SubmoduleFault::NameNotText,
        },
{
    if skipped {
        return Ok(None);
    }
    match name {
        Some(text) => Ok(Some(text.to_owned())),
        None => Err(SubmoduleError::NameNotText),
    }
}

/// The location that a nested repository declares: `text` tells whether it is text, and `url` is
/// it, where there is one.
pub fn declared_url(text: bool, url: Option<&str>) -> (r: Result<String, SubmoduleError>)
    ensures
        match r {
            Ok(declared) => text && opt_str(url) == Some(declared@),
            Err(e) => if !text {
                e@ == SubmoduleFault::UrlNotText
            } else {
                url is None && e@ == SubmoduleFault::UrlMissing
            },
        },
{
    if !text {
        return Err(SubmoduleError::UrlNotText);
    }
    match url {
        Some(declared) => Ok(declared.to_owned()),
        None => Err(SubmoduleError::UrlMissing),
    }
}

/// A location that is read against that of the parent repository.
pub open spec fn relative_url(declared: Seq<char>) -> bool {
    has_prefix(declared, "./"@) || has_prefix(declared, "../"@)
}

/// Whether a location is read against that of the parent repository.
pub fn is_relative_url(declared: &str) -> (r: bool)
    ensures
        r == relative_url(declared@),
{
    starts_with(declared, "./") || starts_with(declared, "../")
}

/// The URL against which a nested repository's location is read, if it is: where the parent's
/// origin is a `file` URL and the declared location is relative, the origin with a path that ends
/// in `/`. `path` is the path of the origin and `extended` the origin with an empty segment added.
pub open spec fn base_of(
    declared: Seq<char>,
    origin: Seq<char>,
    path: Option<Seq<char>>,
    extended: Option<Seq<char>>,
) -> Result<Option<Seq<char>>, SubmoduleFault> {
    if !relative_url(declared) || !has_prefix(origin, "file://"@) {
        Ok(None)
    } else if path is None {
        Err(SubmoduleFault::ParentUrl)
    } else if has_suffix(path->0, "/"@) {
        Ok(Some(origin))
    } else if extended is None {
        Err(SubmoduleFault::RelativeUrl)
    } else {
        Ok(extended)
    }
}

/// The URL against which a nested repository's location is read, if it is.
pub fn relative_base(
    declared: &str,
    origin: &str,
    path: Option<&str>,
    extended: Option<&str>,
) -> (r: Result<Option<String>, SubmoduleError>)
    ensures
        match base_of(declared@, origin@, opt_str(path), opt_str(extended)) {
            Ok(base) => r is Ok && opt_text(r->Ok_0) == base,
            Err(fault) => r is Err && r->Err_0@ == fault,
        },
{
    if !is_relative_url(declared) || !starts_with(origin, "file://") {
        return Ok(None);
    }
    match path {
        Some(path) => if ends_with(path, "/") {
            return Ok(Some(origin.to_owned()));
        },
        None => return Err(SubmoduleError::ParentUrl),
    }
    match extended {
        Some(base) => Ok(Some(base.to_owned())),
        None => Err(SubmoduleError::RelativeUrl),
    }
}

/// The location of a nested repository that is set for it, if any.
pub open spec fn configured_url(declared: Seq<char>, origin: Seq<char>) -> Result<
    Option<Seq<char>>,
    SubmoduleFault,
> {
    match base_of(declared, origin, url_path(origin), url_with_segment(origin, ""@)) {
        Ok(Some(base)) => match url_join(base, declared) {
            Some(url) => Ok(Some(url)),
            None => Err(SubmoduleFault::RelativeUrl),
        },
        Ok(None) => Ok(None),
        Err(fault) => Err(fault),
    }
}

/// The location to set for a nested repository, if any, from the one it declares and the origin of
/// its parent.
pub fn initialize_submodule_url(declared: &str, origin: &str) -> (r: Result<
    Option<String>,
    SubmoduleError,
>)
    requires
        origin@.len() <= MAX_LOCATION,
    ensures
        match configured_url(declared@, origin@) {
            Ok(url) => r is Ok && opt_text(r->Ok_0) == url,
            Err(fault) => r is Err && r->Err_0@ == fault,
        },
{
    proof {
        reveal_strlit("");
    }
    let path = path_of_url(origin);
    let extended = with_segment(origin, "");
    match relative_base(declared, origin, opt_slice(&path), opt_slice(&extended)) {
        Ok(Some(base)) => match join_url(base.as_str(), declared) {
            Some(url) => Ok(Some(url)),
            None => Err(SubmoduleError::RelativeUrl),
        },
        Ok(None) => Ok(None),
        Err(e) => Err(e),
    }
}

/// The setting that holds a nested repository's location.
pub fn url_key(name: &str) -> (r: String)
    ensures
        r@ == "submodule."@ + name@ + ".url"@,
{
    plus3("submodule.", name, ".url")
}

/// How far the work on a nested repository has come.
#[derive(Clone, Copy, Debug, PartialEq, Eq, Structural)]
pub enum Stage {
    Open,
    Initialize,
    Configure,
    CheckCommit,
    Announce,
    Fetch,
    CheckFetched,
    FetchAdvertised,
    CheckOut,
    Descend,
    Finished,
    /// The repository could not be opened.
    OpenFailed,
    /// The last fetch failed, with its own error.
    FetchFailed,
}

/// The work on a nested repository.
#[derive(Debug)]
pub struct Submodule {
    pub name: String,
    pub url: String,
    pub commit: String,
    pub allow_local: bool,
    pub depth: usize,
    pub stage: Stage,
}

/// The work on a nested repository, with its texts.
pub struct SubmoduleModel {
    pub name: Seq<char>,
    pub url: Seq<char>,
    pub commit: Seq<char>,
    pub allow_local: bool,
    pub depth: usize,
    pub stage: Stage,
}

impl View for Submodule {
    type V = SubmoduleModel;

    open spec fn view(&self) -> SubmoduleModel {
        SubmoduleModel {
            name: self.name@,
            url: self.url@,
            commit: self.commit@,
            allow_local: self.allow_local,
            depth: self.depth,
            stage: self.stage,
        }
    }
}

/// What is to be done next.
#[derive(Debug)]
pub enum Request {
    /// Open the nested repository.
    Open,
    /// Make it.
    Initialize,
    /// Set its origin.
    Configure(String),
    /// Tell whether it has a commit.
    Has(String),
    /// Tell the user that it is updated.
    Announce(String),
    /// Fetch into it from a location; `allow_local` tells whether that may lie on this machine.
    Fetch { url: String, refspecs: Vec<String>, allow_local: bool },
    /// Check a commit out.
    CheckOut(String),
    /// Go through the repositories nested in it.
    Descend { allow_local: bool, depth: usize },
    /// Nothing: it is there.
    Done,
    /// Nothing: it could not be opened.
    OpenFailed,
    /// Nothing: the last fetch failed, with its own error.
    FetchFailed,
}

/// What is to be done next, with its texts.
pub enum RequestModel {
    Open,
    Initialize,
    Configure(Seq<char>),
    Has(Seq<char>),
    Announce(Seq<char>),
    Fetch { url: Seq<char>, refspecs: Seq<Seq<char>>, allow_local: bool },
    CheckOut(Seq<char>),
    Descend { allow_local: bool, depth: int },
    Done,
    OpenFailed,
    FetchFailed,
}

impl View for Request {
    type V = RequestModel;

    open spec fn view(&self) -> RequestModel {
        match self {
            Request::Open => RequestModel::Open,
            Request::Initialize => RequestModel::Initialize,
            Request::Configure(url) => RequestModel::Configure(url@),
            Request::Has(commit) => RequestModel::Has(commit@),
            Request::Announce(message) => RequestModel::Announce(message@),
            Request::Fetch { url, refspecs, allow_local } => RequestModel::Fetch {
                url: url@,
                refspecs: texts(refspecs@),
                allow_local: *allow_local,
            },
            Request::CheckOut(commit) => RequestModel::CheckOut(commit@),
            Request::Descend { allow_local, depth } => RequestModel::Descend {
                allow_local: *allow_local,
                depth: *depth as int,
            },
            Request::Done => RequestModel::Done,
            Request::OpenFailed => RequestModel::OpenFailed,
            Request::FetchFailed => RequestModel::FetchFailed,
        }
    }
}

/// What came of a request.
#[derive(Clone, Copy, Debug, PartialEq, Eq, Structural)]
pub enum Reply {
    /// It was done.
    Done,
    /// There is no repository yet.
    NotFound,
    /// The repository could not be opened.
    Failed,
    /// Whether it has the commit.
    Answer(bool),
    /// Whether the fetch succeeded.
    Fetched(bool),
}

/// A reply is one that the stage waits for.
pub open spec fn awaited(stage: Stage, reply: Reply) -> bool {
    match reply {
        Reply::Done => stage is Open || stage is Initialize || stage is Configure
            || stage is Announce || stage is CheckOut || stage is Descend,
        Reply::NotFound | Reply::Failed => stage is Open,
        Reply::Answer(_) => stage is CheckCommit || stage is CheckFetched,
        Reply::Fetched(_) => stage is Fetch || stage is FetchAdvertised,
    }
}

/// The stage after a reply.
pub open spec fn next_stage(stage: Stage, reply: Reply) -> Stage {
    match (stage, reply) {
        (Stage::Open, Reply::Done) => Stage::Configure,
        (Stage::Open, Reply::NotFound) => Stage::Initialize,
        (Stage::Open, Reply::Failed) => Stage::OpenFailed,
        (Stage::Initialize, Reply::Done) => Stage::Configure,
        (Stage::Configure, Reply::Done) => Stage::CheckCommit,
        (Stage::CheckCommit, Reply::Answer(has)) => if has {
            Stage::CheckOut
        } else {
            Stage::Announce
        },
        (Stage::Announce, Reply::Done) => Stage::Fetch,
        (Stage::Fetch, Reply::Fetched(ok)) => if ok {
            Stage::CheckFetched
        } else {
            Stage::FetchAdvertised
        },
        (Stage::CheckFetched, Reply::Answer(has)) => if has {
            Stage::CheckOut
        } else {
            Stage::FetchAdvertised
        },
        (Stage::FetchAdvertised, Reply::Fetched(ok)) => if ok {
            Stage::CheckOut
        } else {
            Stage::FetchFailed
        },
        (Stage::CheckOut, Reply::Done) => Stage::Descend,
        (Stage::Descend, Reply::Done) => Stage::Finished,
        _ => stage,
    }
}

/// Whether the repositories nested in one may lie on this machine.
pub open spec fn allowed_below(allow_local: bool, url: Seq<char>) -> bool {
    allow_local && local_url(url)
}

/// What is to be done in a stage.
pub open spec fn request_of(m: SubmoduleModel) -> RequestModel {
    match m.stage {
        Stage::Open => RequestModel::Open,
        Stage::Initialize => RequestModel::Initialize,
        Stage::Configure => RequestModel::Configure(m.url),
        Stage::CheckCommit | Stage::CheckFetched => RequestModel::Has(m.commit),
        Stage::Announce => RequestModel::Announce("git submodule `"@ + m.name + "`"@),
        Stage::Fetch => RequestModel::Fetch {
            url: m.url,
            refspecs: seq![m.commit],
            allow_local: m.allow_local,
        },
        Stage::FetchAdvertised => RequestModel::Fetch {
            url: m.url,
            refspecs: advertised_refspecs(),
            allow_local: m.allow_local,
        },
        Stage::CheckOut => RequestModel::CheckOut(m.commit),
        Stage::Descend => RequestModel::Descend {
            allow_local: allowed_below(m.allow_local, m.url),
            depth: m.depth + 1,
        },
        Stage::Finished => RequestModel::Done,
        Stage::OpenFailed => RequestModel::OpenFailed,
        Stage::FetchFailed => RequestModel::FetchFailed,
    }
}

/// What forbids the work on a nested repository.
pub open spec fn submodule_fault(
    name: Seq<char>,
    url: Seq<char>,
    commit: Option<Seq<char>>,
    allow_local: bool,
) -> Option<SubmoduleFault> {
    if !allow_local && local_url(url) {
        Some(SubmoduleFault::LocalUrl(url))
    } else if commit is None {
        Some(SubmoduleFault::NoCommit(name))
    } else {
        None
    }
}

impl Submodule {
    /// Begins the work on a nested repository at a depth. `commit` is what its parent pins, and
    /// `allow_local` tells whether it may lie on this machine.
    pub fn begin(
        name: &str,
        url: &str,
        commit: Option<&str>,
        allow_local: bool,
        depth: usize,
    ) -> (r: Result<Submodule, SubmoduleError>)
        requires
            depth <= MAX_DEPTH,
        ensures
            match r {
                Ok(work) => {
                    &&& submodule_fault(name@, url@, opt_str(commit), allow_local) is None
                    &&& work@ == (SubmoduleModel {
                        name: name@,
                        url: url@,
                        commit: commit->0@,
                        allow_local,
                        depth,
                        stage: Stage::Open,
                    })
                },
                Err(e) => submodule_fault(name@, url@, opt_str(commit), allow_local) == Some(e@),
            },
    {
        if !allow_local && is_local_url(url) {
            return Err(SubmoduleError::LocalUrl(url.to_owned()));
        }
        match commit {
            Some(id) => Ok(
                Submodule {
                    name: name.to_owned(),
                    url: url.to_owned(),
                    commit: id.to_owned(),
                    allow_local,
                    depth,
                    stage: Stage::Open,
                },
            ),
            None => Err(SubmoduleError::NoCommit(name.to_owned())),
        }
    }

    /// What is to be done next.
    pub fn request(&self) -> (r: Request)
        requires
            self@.depth <= MAX_DEPTH,
        ensures
            r@ == request_of(self@),
    {
        match self.stage {
            Stage::Open => Request::Open,
            Stage::Initialize => Request::Initialize,
            Stage::Configure => Request::Configure(self.url.clone()),
            Stage::CheckCommit | Stage::CheckFetched => Request::Has(self.commit.clone()),
            Stage::Announce => Request::Announce(
                plus3("git submodule `", self.name.as_str(), "`"),
            ),
            Stage::Fetch => {
                let mut refspecs: Vec<String> = Vec::new();
                refspecs.push(self.commit.clone());
                assert(texts(refspecs@) =~= seq![self.commit@]);
                Request::Fetch {
                    url: self.url.clone(),
                    refspecs,
                    allow_local: self.allow_local,
                }
            },
            Stage::FetchAdvertised => Request::Fetch {
                url: self.url.clone(),
                refspecs: fetch_advertised(),
                allow_local: self.allow_local,
            },
            Stage::CheckOut => Request::CheckOut(self.commit.clone()),
            Stage::Descend => Request::Descend {
                allow_local: self.allow_local && is_local_url(self.url.as_str()),
                depth: self.depth + 1,
            },
            Stage::Finished => Request::Done,
            Stage::OpenFailed => Request::OpenFailed,
            Stage::FetchFailed => Request::FetchFailed,
        }
    }

    /// Goes on with what came of the last request.
    pub fn reply(&mut self, reply: Reply)
        requires
            awaited(old(self)@.stage, reply),
        ensures
            final(self)@ == (SubmoduleModel {
                stage: next_stage(old(self)@.stage, reply),
                ..old(self)@
            }),
    {
        self.stage = match (self.stage, reply) {
            (Stage::Open, Reply::Done) => Stage::Configure,
            (Stage::Open, Reply::NotFound) => Stage::Initialize,
            (Stage::Open, Reply::Failed) => Stage::OpenFailed,
            (Stage::Initialize, Reply::Done) => Stage::Configure,
            (Stage::Configure, Reply::Done) => Stage::CheckCommit,
            (Stage::CheckCommit, Reply::Answer(true)) => Stage::CheckOut,
            (Stage::CheckCommit, Reply::Answer(false)) => Stage::Announce,
            (Stage::Announce, Reply::Done) => Stage::Fetch,
            (Stage::Fetch, Reply::Fetched(true)) => Stage::CheckFetched,
            (Stage::Fetch, Reply::Fetched(false)) => Stage::FetchAdvertised,
            (Stage::CheckFetched, Reply::Answer(true)) => Stage::CheckOut,
            (Stage::CheckFetched, Reply::Answer(false)) => Stage::FetchAdvertised,
            (Stage::FetchAdvertised, Reply::Fetched(true)) => Stage::CheckOut,
            (Stage::FetchAdvertised, Reply::Fetched(false)) => Stage::FetchFailed,
            (Stage::CheckOut, Reply::Done) => Stage::Descend,
            (Stage::Descend, Reply::Done) => Stage::Finished,
            (stage, _) => stage,
        };
    }
}

/// How much is left to do at most.
pub open spec fn remaining(stage: Stage) -> nat {
    match stage {
        Stage::Open => 10,
        Stage::Initialize => 9,
        Stage::Configure => 8,
        Stage::CheckCommit => 7,
        Stage::Announce => 6,
        Stage::Fetch => 5,
        Stage::CheckFetched => 4,
        Stage::FetchAdvertised => 3,
        Stage::CheckOut => 2,
        Stage::Descend => 1,
        Stage::Finished | Stage::OpenFailed | Stage::FetchFailed => 0,
    }
}

/// Every awaited reply takes the work on a nested repository nearer to its end.
pub proof fn lemma_work_ends(stage: Stage, reply: Reply)
    requires
        awaited(stage, reply),
    ensures
        remaining(next_stage(stage, reply)) < remaining(stage),
{
}

/// Whether repositories may lie on this machine below a chain of nested ones, outermost first.
pub open spec fn allowed_along(allow_local: bool, urls: Seq<Seq<char>>) -> bool
    decreases urls.len(),
{
    if urls.len() == 0 {
        allow_local
    } else {
        allowed_below(allowed_along(allow_local, urls.drop_last()), urls.last())
    }
}

/// A repository nested at any depth may lie on this machine only where the outermost may and every
/// repository on the way to it does.
pub proof fn lemma_local_only_below_local(allow_local: bool, urls: Seq<Seq<char>>)
    ensures
        allowed_along(allow_local, urls) <==> allow_local && forall|i: int|
            0 <= i < urls.len() ==> local_url(#[trigger] urls[i]),
    decreases urls.len(),
{
    if urls.len() > 0 {
        let front = urls.drop_last();
        lemma_local_only_below_local(allow_local, front);
        assert(forall|i: int| 0 <= i < front.len() ==> front[i] == urls[i]);
        if allowed_along(allow_local, urls) {
            assert forall|i: int| 0 <= i < urls.len() implies local_url(#[trigger] urls[i]) by {
                if i < front.len() {
                    assert(local_url(front[i]));
                }
            }
        }
    }
}

/// A repository nested in one from the network is fetched only from the network, and so is
/// everything below it.
pub proof fn lemma_network_stays_network(
    name: Seq<char>,
    url: Seq<char>,
    commit: Option<Seq<char>>,
)
    requires
        submodule_fault(name, url, commit, false) is None,
    ensures
        !local_url(url),
        !allowed_below(false, url),
{
}

} // verus!
