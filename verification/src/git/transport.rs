//! How a Git repository is fetched: by which means, with which arguments and credentials.

use vstd::prelude::*;

use crate::path::{absolute, is_absolute};
use crate::shell::Shell;
use crate::text::{
    contains_char, contains_lowered, has_part, has_prefix, lemma_texts_push, lower, opt_str, plus3,
    same, starts_with, texts, trimmed, trims_to,
};

verus! {

broadcast use vstd::string::group_string_axioms;

/// How repositories are fetched.
#[derive(Clone, Copy, Debug, PartialEq, Eq, Structural)]
pub struct Transport {
    pub shell: Shell,
    pub fetch_with_cli: bool,
}

/// The means of a fetch.
#[derive(Clone, Copy, Debug, PartialEq, Eq, Structural)]
pub enum Means {
    /// The installed `git` program.
    Cli,
    /// The Git library.
    Library,
}

/// A location on this machine was named by a repository that is not.
#[derive(Debug)]
pub struct LocalUrl {
    pub url: String,
}

impl LocalUrl {
    /// The text shown to the user.
    pub fn message(&self) -> (r: String)
        ensures
            r@ == "refusing local Git submodule URL `"@ + self.url@ + "` in a network repository"@,
    {
        plus3(
            "refusing local Git submodule URL `",
            self.url.as_str(),
            "` in a network repository",
        )
    }
}

/// A repository on this machine: a path, or a `file` URL.
pub open spec fn local_url(url: Seq<char>) -> bool {
    absolute(url) || has_prefix(url, "file://"@) || !url.contains(':')
}

/// Whether `url` is a repository on this machine.
pub fn is_local_url(url: &str) -> (r: bool)
    ensures
        r == local_url(url@),
{
    is_absolute(url) || starts_with(url, "file://") || !contains_char(url, ':')
}

/// What stands in a command line before the repository.
pub open spec fn fetch_options(git_dir: Seq<char>, shell: Shell) -> Seq<Seq<char>> {
    seq![
        "--git-dir"@,
        git_dir,
        "-c"@,
        "gc.auto=0"@,
        "fetch"@,
        "--force"@,
        "--no-tags"@,
        "--no-recurse-submodules"@,
    ] + if shell.quiet {
        seq!["--quiet"@]
    } else if shell.terminal {
        seq!["--progress"@]
    } else {
        Seq::empty()
    }
}

/// The arguments with which `git` fetches `refspecs` from `url`.
pub open spec fn fetch_arguments(
    git_dir: Seq<char>,
    shell: Shell,
    url: Seq<char>,
    refspecs: Seq<Seq<char>>,
) -> Seq<Seq<char>> {
    fetch_options(git_dir, shell) + seq!["--"@, url] + refspecs
}

/// Adds a copy of `text` to a list of arguments.
fn push_argument(arguments: &mut Vec<String>, text: &str)
    ensures
        texts(final(arguments)@) == texts(old(arguments)@).push(text@),
{
    let added = text.to_owned();
    proof {
        lemma_texts_push(arguments@, added);
    }
    arguments.push(added);
}

/// Adds copies of `more` to a list of arguments.
fn push_arguments(arguments: &mut Vec<String>, more: &Vec<String>)
    ensures
        texts(final(arguments)@) == texts(old(arguments)@) + texts(more@),
{
    let mut i: usize = 0;
    assert(texts(more@).take(0) =~= Seq::<Seq<char>>::empty());
    assert(texts(arguments@) =~= texts(old(arguments)@) + texts(more@).take(0));
    while i < more.len()
        invariant
            i <= more@.len(),
            texts(arguments@) == texts(old(arguments)@) + texts(more@).take(i as int),
        decreases more@.len() - i,
    {
        push_argument(arguments, more[i].as_str());
        proof {
            assert(texts(more@)[i as int] == more@[i as int]@);
            assert(texts(more@).take(i + 1) =~= texts(more@).take(i as int).push(
                more@[i as int]@,
            ));
            assert(texts(arguments@) =~= texts(old(arguments)@) + texts(more@).take(i + 1));
        }
        i = i + 1;
    }
    assert(texts(more@).take(i as int) =~= texts(more@));
}

impl Transport {
    /// The means of fetching for a shell and a configuration.
    pub fn new(shell: Shell, fetch_with_cli: bool) -> (r: Self)
        ensures
            r.shell == shell,
            r.fetch_with_cli == fetch_with_cli,
    {
        Transport { shell, fetch_with_cli }
    }

    /// Refuses a location on this machine, unless those are allowed.
    pub fn validate_url(&self, url: &str, allow_local: bool) -> (r: Result<(), LocalUrl>)
        ensures
            match r {
                Ok(()) => allow_local || !local_url(url@),
                Err(e) => !allow_local && local_url(url@) && e.url@ == url@,
            },
    {
        if !allow_local && is_local_url(url) {
            Err(LocalUrl { url: url.to_owned() })
        } else {
            Ok(())
        }
    }

    /// By which means `url` is to be fetched, if at all.
    pub fn fetch(&self, url: &str, allow_local: bool) -> (r: Result<Means, LocalUrl>)
        ensures
            match r {
                Ok(means) => (allow_local || !local_url(url@)) && (means is Cli)
                    == self.fetch_with_cli,
                Err(e) => !allow_local && local_url(url@) && e.url@ == url@,
            },
    {
        match self.validate_url(url, allow_local) {
            Ok(()) => if self.fetch_with_cli {
                Ok(Means::Cli)
            } else {
                Ok(Means::Library)
            },
            Err(e) => Err(e),
        }
    }

    /// The arguments with which the `git` program fetches `refspecs` from `url` into the
    /// repository at `git_dir`.
    pub fn fetch_cli(&self, git_dir: &str, url: &str, refspecs: &Vec<String>) -> (r: Vec<String>)
        ensures
            texts(r@) == fetch_arguments(git_dir@, self.shell, url@, texts(refspecs@)),
    {
        let mut r: Vec<String> = Vec::new();
        assert(texts(r@) =~= Seq::<Seq<char>>::empty());
        push_argument(&mut r, "--git-dir");
        push_argument(&mut r, git_dir);
        push_argument(&mut r, "-c");
        push_argument(&mut r, "gc.auto=0");
        push_argument(&mut r, "fetch");
        push_argument(&mut r, "--force");
        push_argument(&mut r, "--no-tags");
        push_argument(&mut r, "--no-recurse-submodules");
        if self.shell.is_quiet() {
            push_argument(&mut r, "--quiet");
        } else if self.shell.is_terminal() {
            push_argument(&mut r, "--progress");
        }
        assert(texts(r@) =~= fetch_options(git_dir@, self.shell));
        push_argument(&mut r, "--");
        push_argument(&mut r, url);
        assert(texts(r@) =~= fetch_options(git_dir@, self.shell) + seq!["--"@, url@]);
        push_arguments(&mut r, refspecs);
        r
    }

    /// Whether what the `git` program reports goes straight to the user.
    pub fn shows_errors(&self) -> (r: bool)
        ensures
            r == (!self.shell.quiet && self.shell.terminal),
    {
        !self.shell.is_quiet() && self.shell.is_terminal()
    }
}

/// A message that tells of a repository with SHA-256 objects.
pub open spec fn tells_sha256(message: Seq<char>) -> bool {
    let low = lower(message);
    has_part(low, "sha256"@) || has_part(low, "sha-256"@) || has_part(low, "objectformat"@)
        || has_part(low, "object format"@)
}

/// The text for a fetch that the Git library could not do, by the message it gave.
pub open spec fn library_failure_text(message: Seq<char>, url: Seq<char>) -> Seq<char> {
    if tells_sha256(message) {
        "SHA-256 Git repositories are not supported by typm's git2 backend"@
    } else {
        "Git fetch failed for "@ + url
            + "; for system Git authentication, set net.git-fetch-with-cli = true"@
    }
}

/// The text for a fetch that the Git library could not do.
pub fn library_failure(message: &str, url: &str) -> (r: String)
    ensures
        r@ == library_failure_text(message@, url@),
{
    if contains_lowered(message, "sha256") || contains_lowered(message, "sha-256")
        || contains_lowered(message, "objectformat") || contains_lowered(message, "object format") {
        "SHA-256 Git repositories are not supported by typm's git2 backend".to_owned()
    } else {
        plus3(
            "Git fetch failed for ",
            url,
            "; for system Git authentication, set net.git-fetch-with-cli = true",
        )
    }
}

/// The text for a fetch that the `git` program could not do, by its exit status and what it
/// reported.
pub fn cli_failure(status: &str, reported: &str) -> (r: String)
    ensures
        exists|bare: Seq<char>| #[trigger]
            trims_to(reported@, bare) && r@ == "Git fetch failed ("@ + status@ + "): "@ + bare,
{
    let bare = trimmed(reported);
    let mut r = plus3("Git fetch failed (", status, "): ");
    r.append(bare.as_str());
    assert(trims_to(reported@, bare@));
    r
}

/// The variables that would make the `git` program work on another repository than the one it is
/// given.
pub open spec fn repository_variables() -> Seq<Seq<char>> {
    seq![
        "GIT_DIR"@,
        "GIT_WORK_TREE"@,
        "GIT_IMPLICIT_WORK_TREE"@,
        "GIT_COMMON_DIR"@,
        "GIT_INDEX_FILE"@,
        "GIT_OBJECT_DIRECTORY"@,
        "GIT_ALTERNATE_OBJECT_DIRECTORIES"@,
        "GIT_CONFIG"@,
        "GIT_GRAFT_FILE"@,
        "GIT_NO_REPLACE_OBJECTS"@,
        "GIT_REPLACE_REF_BASE"@,
        "GIT_NAMESPACE"@,
        "GIT_PREFIX"@,
        "GIT_SHALLOW_FILE"@,
        "GIT_CEILING_DIRECTORIES"@,
        "GIT_DISCOVERY_ACROSS_FILESYSTEM"@,
    ]
}

/// The variables that are cleared before the `git` program runs.
pub fn cleared_variables() -> (r: Vec<String>)
    ensures
        texts(r@) == repository_variables(),
{
    let mut r: Vec<String> = Vec::new();
    assert(texts(r@) =~= Seq::<Seq<char>>::empty());
    push_argument(&mut r, "GIT_DIR");
    push_argument(&mut r, "GIT_WORK_TREE");
    push_argument(&mut r, "GIT_IMPLICIT_WORK_TREE");
    push_argument(&mut r, "GIT_COMMON_DIR");
    push_argument(&mut r, "GIT_INDEX_FILE");
    push_argument(&mut r, "GIT_OBJECT_DIRECTORY");
    push_argument(&mut r, "GIT_ALTERNATE_OBJECT_DIRECTORIES");
    push_argument(&mut r, "GIT_CONFIG");
    push_argument(&mut r, "GIT_GRAFT_FILE");
    push_argument(&mut r, "GIT_NO_REPLACE_OBJECTS");
    push_argument(&mut r, "GIT_REPLACE_REF_BASE");
    push_argument(&mut r, "GIT_NAMESPACE");
    push_argument(&mut r, "GIT_PREFIX");
    push_argument(&mut r, "GIT_SHALLOW_FILE");
    push_argument(&mut r, "GIT_CEILING_DIRECTORIES");
    push_argument(&mut r, "GIT_DISCOVERY_ACROSS_FILESYSTEM");
    assert(texts(r@) =~= repository_variables());
    r
}

/// The ways to prove an identity, in the order in which they are tried.
#[derive(Clone, Copy, Debug, PartialEq, Eq, Structural)]
pub enum Offer {
    Username,
    Agent,
    Helper,
    Default,
}

/// Which ways the other side allows.
#[derive(Clone, Copy, Debug, PartialEq, Eq, Structural)]
pub struct Allowed {
    pub username: bool,
    pub ssh_key: bool,
    pub user_pass_plaintext: bool,
    pub default: bool,
}

/// A way that was tried for a repository and a user.
#[derive(Debug)]
pub struct Claim {
    pub url: String,
    pub offer: Offer,
    pub username: String,
}

/// A way that was tried, with its texts.
pub struct ClaimModel {
    pub url: Seq<char>,
    pub offer: Offer,
    pub username: Seq<char>,
}

impl View for Claim {
    type V = ClaimModel;

    open spec fn view(&self) -> ClaimModel {
        ClaimModel { url: self.url@, offer: self.offer, username: self.username@ }
    }
}

/// The ways that were tried.
pub open spec fn claims(attempted: Seq<Claim>) -> Set<ClaimModel> {
    Set::new(|c: ClaimModel| exists|i: int| 0 <= i < attempted.len() && #[trigger] attempted[i]@ == c)
}

/// What was tried so far in one fetch.
#[derive(Debug)]
pub struct Authentication {
    pub attempts: usize,
    pub attempted: Vec<Claim>,
}

/// How often credentials may be asked for in one fetch.
pub const MAX_ATTEMPTS: usize = 8;

/// The place of a way in the order.
pub open spec fn place(offer: Offer) -> int {
    match offer {
        Offer::Username => 0,
        Offer::Agent => 1,
        Offer::Helper => 2,
        Offer::Default => 3,
    }
}

/// Whether the other side allows a way.
pub open spec fn allows(allowed: Allowed, offer: Offer) -> bool {
    match offer {
        Offer::Username => allowed.username,
        Offer::Agent => allowed.ssh_key,
        Offer::Helper => allowed.user_pass_plaintext,
        Offer::Default => allowed.default,
    }
}

/// A way that can still be tried: allowed, after the one that failed last, and not tried yet.
pub open spec fn open_offer(
    tried: Set<ClaimModel>,
    url: Seq<char>,
    username: Seq<char>,
    allowed: Allowed,
    after: Option<Offer>,
    offer: Offer,
) -> bool {
    &&& allows(allowed, offer)
    &&& after is Some ==> place(after->0) < place(offer)
    &&& !tried.contains(ClaimModel { url, offer, username })
}

/// The user name for a repository: the one asked for, else that of the credential helper.
pub open spec fn chosen_username(
    asked: Option<Seq<char>>,
    configured: Option<Seq<char>>,
) -> Seq<char> {
    match (asked, configured) {
        (Some(name), _) => name,
        (None, Some(name)) => name,
        (None, None) => "git"@,
    }
}

/// The user name for a repository.
pub fn username(asked: Option<&str>, configured: Option<&str>) -> (r: String)
    ensures
        r@ == chosen_username(opt_str(asked), opt_str(configured)),
{
    match asked {
        Some(name) => name.to_owned(),
        None => match configured {
            Some(name) => name.to_owned(),
            None => "git".to_owned(),
        },
    }
}

/// The text for credentials that were all refused.
pub fn authentication_failed() -> (r: String)
    ensures
        r@
            == "Git authentication failed; configure credential.helper or an SSH agent, or set net.git-fetch-with-cli = true"@,
{
    "Git authentication failed; configure credential.helper or an SSH agent, or set net.git-fetch-with-cli = true".to_owned()
}

impl Authentication {
    /// Nothing tried yet.
    pub fn new() -> (r: Self)
        ensures
            r.attempts == 0,
            claims(r.attempted@) == Set::<ClaimModel>::empty(),
    {
        let r = Authentication { attempts: 0, attempted: Vec::new() };
        assert(claims(r.attempted@) =~= Set::<ClaimModel>::empty());
        r
    }

    /// Counts a request for credentials; `false` where there were too many.
    pub fn begin(&mut self) -> (r: bool)
        ensures
            r == (old(self).attempts < MAX_ATTEMPTS),
            final(self).attempts == (if r {
                (old(self).attempts + 1) as usize
            } else {
                old(self).attempts
            }),
            final(self).attempted == old(self).attempted,
    {
        if self.attempts >= MAX_ATTEMPTS {
            return false;
        }
        self.attempts = self.attempts + 1;
        true
    }

    /// Notes that a way is tried; `false` where it was tried before.
    pub fn claim(&mut self, url: &str, offer: Offer, username: &str) -> (r: bool)
        ensures
            r == !claims(old(self).attempted@).contains(
                (ClaimModel { url: url@, offer, username: username@ }),
            ),
            claims(final(self).attempted@) == claims(old(self).attempted@).insert(
                (ClaimModel { url: url@, offer, username: username@ }),
            ),
            final(self).attempts == old(self).attempts,
    {
        let ghost wanted = ClaimModel { url: url@, offer, username: username@ };
        let mut i: usize = 0;
        while i < self.attempted.len()
            invariant
                i <= self.attempted@.len(),
                self.attempted == old(self).attempted,
                self.attempts == old(self).attempts,
                wanted == (ClaimModel { url: url@, offer, username: username@ }),
                forall|j: int| 0 <= j < i ==> #[trigger] self.attempted@[j]@ != wanted,
            decreases self.attempted@.len() - i,
        {
            let known = &self.attempted[i];
            if same(known.url.as_str(), url) && known.offer == offer && same(
                known.username.as_str(),
                username,
            ) {
                assert(self.attempted@[i as int]@ == wanted);
                assert(claims(self.attempted@).insert(wanted) =~= claims(self.attempted@));
                return false;
            }
            i = i + 1;
        }
        self.attempted.push(Claim { url: url.to_owned(), offer, username: username.to_owned() });
        proof {
            let before = old(self).attempted@;
            let now = self.attempted@;
            assert forall|c: ClaimModel|
                claims(now).contains(c) <==> #[trigger] claims(before).insert(wanted).contains(
                    c,
                ) by {
                if claims(before).contains(c) {
                    let k = choose|k: int| 0 <= k < before.len() && #[trigger] before[k]@ == c;
                    assert(now[k]@ == c);
                }
                if c == wanted {
                    assert(now[before.len() as int]@ == c);
                }
                if claims(now).contains(c) && c != wanted {
                    let k = choose|k: int| 0 <= k < now.len() && #[trigger] now[k]@ == c;
                    assert(before[k]@ == c);
                }
            }
            assert(claims(now) =~= claims(before).insert(wanted));
        }
        true
    }

    /// Tries one way, if it is allowed and still to come.
    fn try_offer(
        &mut self,
        url: &str,
        username: &str,
        allowed: Allowed,
        after: Option<Offer>,
        offer: Offer,
    ) -> (r: bool)
        ensures
            r == open_offer(
                claims(old(self).attempted@),
                url@,
                username@,
                allowed,
                after,
                offer,
            ),
            claims(final(self).attempted@) == (if r {
                claims(old(self).attempted@).insert(
                    (ClaimModel { url: url@, offer, username: username@ }),
                )
            } else {
                claims(old(self).attempted@)
            }),
            final(self).attempts == old(self).attempts,
    {
        let permitted = match offer {
            Offer::Username => allowed.username,
            Offer::Agent => allowed.ssh_key,
            Offer::Helper => allowed.user_pass_plaintext,
            Offer::Default => allowed.default,
        };
        let later = match after {
            None => true,
            Some(Offer::Username) => offer != Offer::Username,
            Some(Offer::Agent) => offer == Offer::Helper || offer == Offer::Default,
            Some(Offer::Helper) => offer == Offer::Default,
            Some(Offer::Default) => false,
        };
        if !permitted || !later {
            return false;
        }
        let r = self.claim(url, offer, username);
        proof {
            if !r {
                assert(claims(self.attempted@) =~= claims(old(self).attempted@));
            }
        }
        r
    }

    /// The way to try next for a repository and a user, after the one that failed last in this
    /// request. It is noted as tried, so that no way is tried twice.
    pub fn credentials(
        &mut self,
        url: &str,
        username: &str,
        allowed: Allowed,
        after: Option<Offer>,
    ) -> (r: Option<Offer>)
        ensures
            match r {
                Some(offer) => {
                    &&& open_offer(
                        claims(old(self).attempted@),
                        url@,
                        username@,
                        allowed,
                        after,
                        offer,
                    )
                    &&& forall|other: Offer| #[trigger]
                        place(other) < place(offer) ==> !open_offer(
                            claims(old(self).attempted@),
                            url@,
                            username@,
                            allowed,
                            after,
                            other,
                        )
                    &&& claims(final(self).attempted@) == claims(old(self).attempted@).insert(
                        (ClaimModel { url: url@, offer, username: username@ }),
                    )
                },
                None => {
                    &&& forall|other: Offer| #[trigger]
                        place(other) >= 0 ==> !open_offer(
                            claims(old(self).attempted@),
                            url@,
                            username@,
                            allowed,
                            after,
                            other,
                        )
                    &&& claims(final(self).attempted@) == claims(old(self).attempted@)
                },
            },
            final(self).attempts == old(self).attempts,
    {
        if self.try_offer(url, username, allowed, after, Offer::Username) {
            return Some(Offer::Username);
        }
        if self.try_offer(url, username, allowed, after, Offer::Agent) {
            return Some(Offer::Agent);
        }
        if self.try_offer(url, username, allowed, after, Offer::Helper) {
            return Some(Offer::Helper);
        }
        if self.try_offer(url, username, allowed, after, Offer::Default) {
            return Some(Offer::Default);
        }
        None
    }
}

/// Once a way was tried for a repository and a user, it is not open again, whatever else is tried
/// in between.
pub proof fn lemma_no_way_is_repeated(
    tried: Set<ClaimModel>,
    later: Set<ClaimModel>,
    url: Seq<char>,
    username: Seq<char>,
    allowed: Allowed,
    after: Option<Offer>,
    offer: Offer,
)
    requires
        tried.insert((ClaimModel { url, offer, username })).subset_of(later),
    ensures
        !open_offer(later, url, username, allowed, after, offer),
{
    assert(tried.insert(ClaimModel { url, offer, username }).contains(
        ClaimModel { url, offer, username },
    ));
}

} // verus!
