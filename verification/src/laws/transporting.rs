//! Transporting: which locations are fetched and how, and which credentials are offered.

use vstd::prelude::*;

use crate::git::transport::{
    claims, cleared_variables, is_local_url, library_failure, open_offer, place, username, Allowed,
    Authentication, ClaimModel, LocalUrl, Means, Offer, Transport,
};
use crate::text::{has_part, lower, texts};

verus! {

broadcast use vstd::string::group_string_axioms;

/// A location is on this machine: it begins with a slash or with `file://`, or has no colon.
pub open spec fn on_this_machine(url: Seq<char>) -> bool {
    ||| url.len() > 0 && url[0] == '/'
    ||| url.len() >= 7 && url.take(7) == "file://"@
    ||| forall|i: int| 0 <= i < url.len() ==> (#[trigger] url[i]) != ':'
}

pub(crate) proof fn lemma_on_this_machine(url: Seq<char>)
    ensures
        crate::git::transport::local_url(url) <==> on_this_machine(url),
{
    reveal_strlit("file://");
    if url.len() >= 7 {
        assert(url.take(7) =~= url.subrange(0, 7));
    }
    if !url.contains(':') {
        assert forall|i: int| 0 <= i < url.len() implies (#[trigger] url[i]) != ':' by {
            assert(url.contains(url[i]));
        }
    }
}

/// Only what is not on this machine is fetched, unless locations on it are allowed, and by the means that
/// are configured.
pub proof fn lemma_fetched_or_refused(
    transport: &Transport,
    url: &str,
    allow_local: bool,
    local: bool,
    checked: Result<(), LocalUrl>,
    r: Result<Means, LocalUrl>,
)
    requires
        call_ensures(is_local_url, (url,), local),
        call_ensures(Transport::validate_url, (transport, url, allow_local), checked),
        call_ensures(Transport::fetch, (transport, url, allow_local), r),
    ensures
        local <==> on_this_machine(url@),
        checked is Err <==> on_this_machine(url@) && !allow_local,
        r is Err <==> on_this_machine(url@) && !allow_local,
        r matches Err(e) ==> e.url@ == url@,
        r matches Ok(means) ==> (means is Cli <==> transport.fetch_with_cli),
{
    lemma_on_this_machine(url@);
}

/// The `git` program is told the repository to fetch into, to force what it fetches, to fetch no tags
/// and no nested repositories of its own accord, and behind `--`, after which nothing is an option, the
/// location and exactly what is to be fetched. It is told to be quiet where the user wants that, and to
/// show progress on a terminal.
pub proof fn lemma_fetch_command(
    transport: &Transport,
    git_dir: &str,
    url: &str,
    refspecs: &Vec<String>,
    r: Vec<String>,
)
    requires
        call_ensures(Transport::fetch_cli, (transport, git_dir, url, refspecs), r),
    ensures
        ({
            let shell = transport.shell;
            let n: int = if shell.quiet || shell.terminal {
                9
            } else {
                8
            };
            &&& r@.len() == n + 2 + refspecs@.len()
            &&& r@[0]@ == "--git-dir"@ && r@[1]@ == git_dir@
            &&& r@[2]@ == "-c"@ && r@[3]@ == "gc.auto=0"@ && r@[4]@ == "fetch"@
            &&& r@[5]@ == "--force"@ && r@[6]@ == "--no-tags"@
            &&& r@[7]@ == "--no-recurse-submodules"@
            &&& shell.quiet ==> r@[8]@ == "--quiet"@
            &&& !shell.quiet && shell.terminal ==> r@[8]@ == "--progress"@
            &&& r@[n]@ == "--"@ && r@[n + 1]@ == url@
            &&& forall|i: int|
                0 <= i < refspecs@.len() ==> r@[n + 2 + i]@ == (#[trigger] refspecs@[i])@
        }),
{
    let shell = transport.shell;
    let all = texts(r@);
    let n: int = if shell.quiet || shell.terminal {
        9
    } else {
        8
    };
    assert(all.len() == r@.len());
    assert(texts(refspecs@).len() == refspecs@.len());
    assert(crate::git::transport::fetch_options(git_dir@, shell).len() == n);
    assert forall|i: int| 0 <= i < all.len() implies r@[i]@ == #[trigger] all[i] by {}
    assert(all[0] == "--git-dir"@ && all[1] == git_dir@ && all[2] == "-c"@ && all[3]
        == "gc.auto=0"@ && all[4] == "fetch"@ && all[5] == "--force"@ && all[6] == "--no-tags"@
        && all[7] == "--no-recurse-submodules"@);
    if n == 9 {
        assert(all[8] == (if shell.quiet {
            "--quiet"@
        } else {
            "--progress"@
        }));
    }
    assert(all[n] == "--"@ && all[n + 1] == url@);
    assert forall|i: int| 0 <= i < refspecs@.len() implies r@[n + 2 + i]@ == (
    #[trigger] refspecs@[i])@ by {
        assert(all[n + 2 + i] == texts(refspecs@)[i]);
    }
}

/// Every variable is cleared by which the `git` program could be led to another repository.
pub proof fn lemma_cleared(r: Vec<String>)
    requires
        call_ensures(cleared_variables, (), r),
    ensures
        texts(r@).contains("GIT_DIR"@),
        texts(r@).contains("GIT_WORK_TREE"@),
        texts(r@).contains("GIT_IMPLICIT_WORK_TREE"@),
        texts(r@).contains("GIT_COMMON_DIR"@),
        texts(r@).contains("GIT_INDEX_FILE"@),
        texts(r@).contains("GIT_OBJECT_DIRECTORY"@),
        texts(r@).contains("GIT_ALTERNATE_OBJECT_DIRECTORIES"@),
        texts(r@).contains("GIT_CONFIG"@),
        texts(r@).contains("GIT_GRAFT_FILE"@),
        texts(r@).contains("GIT_NO_REPLACE_OBJECTS"@),
        texts(r@).contains("GIT_REPLACE_REF_BASE"@),
        texts(r@).contains("GIT_NAMESPACE"@),
        texts(r@).contains("GIT_PREFIX"@),
        texts(r@).contains("GIT_SHALLOW_FILE"@),
        texts(r@).contains("GIT_CEILING_DIRECTORIES"@),
        texts(r@).contains("GIT_DISCOVERY_ACROSS_FILESYSTEM"@),
        r@.len() == 16,
{
    let all = texts(r@);
    assert(all.len() == r@.len());
    assert forall|i: int| 0 <= i < all.len() implies all.contains(#[trigger] all[i]) by {}
    assert(all.contains(all[0]) && all.contains(all[1]) && all.contains(all[2]) && all.contains(all[3]));
    assert(all.contains(all[4]) && all.contains(all[5]) && all.contains(all[6]) && all.contains(all[7]));
    assert(all.contains(all[8]) && all.contains(all[9]) && all.contains(all[10]) && all.contains(
        all[11],
    ));
    assert(all.contains(all[12]) && all.contains(all[13]) && all.contains(all[14]) && all.contains(
        all[15],
    ));
}

/// A failure of the Git library that tells of SHA-256 objects, in whatever case, is told as that; any
/// other tells the location.
pub proof fn lemma_told_failure(message: &str, url: &str, r: String)
    requires
        call_ensures(library_failure, (message, url), r),
    ensures
        ({
            let low = lower(message@);
            if has_part(low, "sha256"@) || has_part(low, "sha-256"@) || has_part(low, "objectformat"@)
                || has_part(low, "object format"@) {
                r@ == "SHA-256 Git repositories are not supported by typm's git2 backend"@
            } else {
                r@ == "Git fetch failed for "@ + url@
                    + "; for system Git authentication, set net.git-fetch-with-cli = true"@
            }
        }),
{
}

/// The user is the one that is asked for, else the one that is configured, else `git`.
pub proof fn lemma_user(asked: Option<&str>, configured: Option<&str>, r: String)
    requires
        call_ensures(username, (asked, configured), r),
    ensures
        asked matches Some(name) ==> r@ == name@,
        asked is None ==> (configured matches Some(name) ==> r@ == name@),
        asked is None && configured is None ==> r@ == "git"@,
{
}

/// A way to authenticate was tried for a repository and a user.
pub open spec fn tried(
    authentication: Authentication,
    url: Seq<char>,
    username: Seq<char>,
    offer: Offer,
) -> bool {
    claims(authentication.attempted@).contains(ClaimModel { url, offer, username })
}

/// Credentials are asked for at most eight times.
pub proof fn lemma_eight_times()
    ensures
        forall|a: &mut Authentication, r: bool|
            #[trigger] call_ensures(Authentication::begin, (a,), r) ==> {
                &&& r <==> (*a).attempts < 8
                &&& r ==> final(a).attempts == (*a).attempts + 1
                &&& final(a).attempted == (*a).attempted
            },
{
}

/// A way is offered only where the other side allows it, it comes after the one that failed, and it was not
/// tried before for this repository and user; of those the first is offered, the user's name before the
/// agent, the agent before the helper and the helper before the default. It is then tried, and nothing
/// else changes. None is offered only where no way is left.
pub proof fn lemma_offered()
    ensures
        forall|
            a: &mut Authentication,
            url: &str,
            username: &str,
            allowed: Allowed,
            after: Option<Offer>,
            r: Option<Offer>,
        |
            #[trigger] call_ensures(
                Authentication::credentials,
                (a, url, username, allowed, after),
                r,
            ) ==> {
                let name = allowed.username && after is None && !tried(
                    *a,
                    url@,
                    username@,
                    Offer::Username,
                );
                let agent = allowed.ssh_key && (after is None || after == Some(Offer::Username))
                    && !tried(*a, url@, username@, Offer::Agent);
                let helper = allowed.user_pass_plaintext && (after is None || after == Some(
                    Offer::Username,
                ) || after == Some(Offer::Agent)) && !tried(*a, url@, username@, Offer::Helper);
                let default = allowed.default && after != Some(Offer::Default) && !tried(
                    *a,
                    url@,
                    username@,
                    Offer::Default,
                );
                &&& name ==> r == Some(Offer::Username)
                &&& !name && agent ==> r == Some(Offer::Agent)
                &&& !name && !agent && helper ==> r == Some(Offer::Helper)
                &&& !name && !agent && !helper && default ==> r == Some(Offer::Default)
                &&& !name && !agent && !helper && !default ==> r is None
                &&& r matches Some(offer) ==> tried(*final(a), url@, username@, offer)
                &&& forall|u: Seq<char>, n: Seq<char>, o: Offer| #[trigger]
                    tried(*final(a), u, n, o) <==> tried(*a, u, n, o) || (u == url@ && n
                        == username@ && r == Some(o))
            },
{
    assert forall|
        a: &mut Authentication,
        url: &str,
        username: &str,
        allowed: Allowed,
        after: Option<Offer>,
        r: Option<Offer>,
    |
        #[trigger] call_ensures(
            Authentication::credentials,
            (a, url, username, allowed, after),
            r,
        ) implies {
        let name = allowed.username && after is None && !tried(
            *a,
            url@,
            username@,
            Offer::Username,
        );
        let agent = allowed.ssh_key && (after is None || after == Some(Offer::Username)) && !tried(
            *a,
            url@,
            username@,
            Offer::Agent,
        );
        let helper = allowed.user_pass_plaintext && (after is None || after == Some(Offer::Username)
            || after == Some(Offer::Agent)) && !tried(*a, url@, username@, Offer::Helper);
        let default = allowed.default && after != Some(Offer::Default) && !tried(
            *a,
            url@,
            username@,
            Offer::Default,
        );
        &&& name ==> r == Some(Offer::Username)
        &&& !name && agent ==> r == Some(Offer::Agent)
        &&& !name && !agent && helper ==> r == Some(Offer::Helper)
        &&& !name && !agent && !helper && default ==> r == Some(Offer::Default)
        &&& !name && !agent && !helper && !default ==> r is None
        &&& r matches Some(offer) ==> tried(*final(a), url@, username@, offer)
        &&& forall|u: Seq<char>, n: Seq<char>, o: Offer| #[trigger]
            tried(*final(a), u, n, o) <==> tried(*a, u, n, o) || (u == url@ && n == username@ && r
                == Some(o))
    } by {
        let set = claims((*a).attempted@);
        assert(place(Offer::Username) == 0 && place(Offer::Agent) == 1 && place(Offer::Helper) == 2
            && place(Offer::Default) == 3);
        if r is Some {
            let offer = r->0;
            assert(open_offer(set, url@, username@, allowed, after, offer));
        }
    }
}

} // verus!
