//! Nesting: where the things of a repository are kept, and how the repositories nested in it are brought.

use vstd::prelude::*;
use vstd::utf8::encode_utf8;

use crate::files::EntryKind;
use crate::git::cache::{directories, fetch_advertised, head_path, marker_path, Cache, Layout};
use crate::git::submodules::{
    check_depth, initialize_submodule_url, is_relative_url, url_join, url_path, url_with_segment,
    Reply, RequestModel, Submodule, SubmoduleError, SubmoduleFault,
};
use crate::git::{
    commit_query, remove_incomplete, resolve_commit, validate_locked_commit, validate_named_ref,
    valid_reference, GitError, GitSourceSpec, Lookup, RefKind,
};
use crate::hashing::{blake3_hex, is_digest};
use crate::laws::declaring::is_shared;
use crate::laws::linking::lemma_two_in;
use crate::laws::surroundings::{lemma_file_in, lemma_plain};
use crate::laws::transporting::{lemma_on_this_machine, on_this_machine};
use crate::laws::viewing::lemma_digest_is_plain;
use crate::path::{parts_of, plain_name, Part};
use crate::text::{has_prefix, has_suffix, texts};

verus! {

broadcast use vstd::string::group_string_axioms;

proof fn lemma_short_names()
    ensures
        plain_name("git"@),
        plain_name("db"@),
        plain_name("checkouts"@),
        plain_name("locks"@),
        plain_name(".git"@),
        plain_name("HEAD"@),
        plain_name("typm-complete"@),
        "git/db"@ == "git"@ + seq!['/'] + "db"@,
        "git/checkouts"@ == "git"@ + seq!['/'] + "checkouts"@,
        "git/locks"@ == "git"@ + seq!['/'] + "locks"@,
        ".git/HEAD"@ == ".git"@ + seq!['/'] + "HEAD"@,
        ".git/typm-complete"@ == ".git"@ + seq!['/'] + "typm-complete"@,
{
    reveal_strlit("git");
    reveal_strlit("db");
    reveal_strlit("checkouts");
    reveal_strlit("locks");
    reveal_strlit(".git");
    reveal_strlit("HEAD");
    reveal_strlit("typm-complete");
    reveal_strlit("git/db");
    reveal_strlit("git/checkouts");
    reveal_strlit("git/locks");
    reveal_strlit(".git/HEAD");
    reveal_strlit(".git/typm-complete");
    lemma_plain("git"@);
    lemma_plain("checkouts"@);
    lemma_plain("locks"@);
    lemma_plain(".git"@);
    lemma_plain("HEAD"@);
    lemma_plain("typm-complete"@);
    assert("db"@ != seq!['.', '.']) by {
        assert("db"@[0] == 'd');
    }
    assert("db"@ != seq!['.']) by {
        assert("db"@.len() == 2);
    }
    assert("git/db"@ =~= "git"@ + seq!['/'] + "db"@);
    assert("git/checkouts"@ =~= "git"@ + seq!['/'] + "checkouts"@);
    assert("git/locks"@ =~= "git"@ + seq!['/'] + "locks"@);
    assert(".git/HEAD"@ =~= ".git"@ + seq!['/'] + "HEAD"@);
    assert(".git/typm-complete"@ =~= ".git"@ + seq!['/'] + "typm-complete"@);
}

/// The database, the checkouts and the lock of a repository lie apart from one another, under a name of
/// its own: two repositories have one name only where their locations are the same, or the digest is
/// shared by other messages.
pub proof fn lemma_kept_apart(cache: &Cache, a: &str, x: Layout, b: &str, y: Layout)
    requires
        cache.root@.len() > 0 && cache.root@[0] == '/',
        call_ensures(Cache::layout, (cache, a), x),
        call_ensures(Cache::layout, (cache, b), y),
    ensures
        ({
            let own = parts_of(cache.root@).push(Part::Name("git"@));
            exists|name: Seq<char>|
                #![trigger is_digest(name)]
                {
                    &&& is_digest(name)
                    &&& parts_of(x.database@) == own.push(Part::Name("db"@)).push(Part::Name(name))
                    &&& parts_of(x.checkouts@) == own.push(Part::Name("checkouts"@)).push(
                        Part::Name(name),
                    )
                    &&& parts_of(x.lock@) == own.push(Part::Name("locks"@)).push(
                        Part::Name(name + ".lock"@),
                    )
                    &&& x.database@ == y.database@ || x.checkouts@ == y.checkouts@ || x.lock@
                        == y.lock@ ==> a@ == b@ || is_shared(name)
                }
        }),
        a@ == b@ ==> x.database@ == y.database@ && x.checkouts@ == y.checkouts@ && x.lock@
            == y.lock@,
{
    lemma_short_names();
    let root = cache.root@;
    lemma_two_in(root, "git"@, "db"@);
    lemma_two_in(root, "git"@, "checkouts"@);
    lemma_two_in(root, "git"@, "locks"@);
    let m = encode_utf8(a@);
    let n = encode_utf8(b@);
    let name = blake3_hex(m);
    let other = blake3_hex(n);
    lemma_lock_name(name);
    lemma_lock_name(other);
    let db = crate::path::joined_path(root, "git/db"@);
    let checkouts = crate::path::joined_path(root, "git/checkouts"@);
    let locks = crate::path::joined_path(root, "git/locks"@);
    lemma_file_in(db, name);
    lemma_file_in(db, other);
    lemma_file_in(checkouts, name);
    lemma_file_in(checkouts, other);
    lemma_file_in(locks, name + ".lock"@);
    lemma_file_in(locks, other + ".lock"@);
    if x.database@ == y.database@ {
        assert(parts_of(x.database@).last() == Part::Name(name));
        assert(parts_of(y.database@).last() == Part::Name(other));
    }
    if x.checkouts@ == y.checkouts@ {
        assert(parts_of(x.checkouts@).last() == Part::Name(name));
        assert(parts_of(y.checkouts@).last() == Part::Name(other));
    }
    if x.lock@ == y.lock@ {
        assert(parts_of(x.lock@).last() == Part::Name(name + ".lock"@));
        assert(parts_of(y.lock@).last() == Part::Name(other + ".lock"@));
        assert((name + ".lock"@).take(64) =~= name);
        assert((other + ".lock"@).take(64) =~= other);
    }
    if x.database@ == y.database@ || x.checkouts@ == y.checkouts@ || x.lock@ == y.lock@ {
        assert(name == other);
        if m == n {
            crate::hashing::lemma_encoding_injective(a@, b@);
        } else {
            assert(is_shared(name));
        }
    }
    assert(is_digest(name));
}

proof fn lemma_lock_name(name: Seq<char>)
    requires
        is_digest(name),
    ensures
        plain_name(name),
        plain_name(name + ".lock"@),
{
    lemma_digest_is_plain(name);
    reveal_strlit(".lock");
    let lock = name + ".lock"@;
    assert forall|i: int| 0 <= i < lock.len() implies (#[trigger] lock[i]) != '/' by {
        if i < name.len() {
            assert(lock[i] == name[i]);
            assert(name.contains(name[i]));
        } else {
            assert(lock[i] == ".lock"@[i - name.len()]);
        }
    }
    lemma_plain(lock);
}

/// The directories of the storage are those in which the databases, the checkouts and the locks lie, and
/// a checkout is marked in its own `.git`.
pub proof fn lemma_storage(
    root: &str,
    made: Vec<String>,
    checkout: &str,
    marker: String,
    head: String,
)
    requires
        root@.len() > 0 && root@[0] == '/',
        checkout@.len() > 0 && checkout@[0] == '/',
        call_ensures(directories, (root,), made),
        call_ensures(marker_path, (checkout,), marker),
        call_ensures(head_path, (checkout,), head),
    ensures
        made@.len() == 3,
        parts_of(made@[0]@) == parts_of(root@).push(Part::Name("git"@)).push(Part::Name("db"@)),
        parts_of(made@[1]@) == parts_of(root@).push(Part::Name("git"@)).push(
            Part::Name("checkouts"@),
        ),
        parts_of(made@[2]@) == parts_of(root@).push(Part::Name("git"@)).push(Part::Name("locks"@)),
        parts_of(marker@) == parts_of(checkout@).push(Part::Name(".git"@)).push(
            Part::Name("typm-complete"@),
        ),
        parts_of(head@) == parts_of(checkout@).push(Part::Name(".git"@)).push(Part::Name("HEAD"@)),
{
    lemma_short_names();
    lemma_two_in(root@, "git"@, "db"@);
    lemma_two_in(root@, "git"@, "checkouts"@);
    lemma_two_in(root@, "git"@, "locks"@);
    lemma_two_in(checkout@, ".git"@, "typm-complete"@);
    lemma_two_in(checkout@, ".git"@, "HEAD"@);
    assert(texts(made@).len() == made@.len());
    assert(texts(made@)[0] == made@[0]@);
    assert(texts(made@)[1] == made@[1]@);
    assert(texts(made@)[2] == made@[2]@);
}

/// Everything that a repository advertises is its branches, its tags and its default branch, each kept
/// under a name of its own.
pub proof fn lemma_everything_advertised(r: Vec<String>)
    requires
        call_ensures(fetch_advertised, (), r),
    ensures
        r@.len() == 3,
        r@[0]@ == "+refs/heads/*:refs/remotes/origin/*"@,
        r@[1]@ == "+refs/tags/*:refs/tags/*"@,
        r@[2]@ == "+HEAD:refs/typm/default"@,
{
    assert(texts(r@).len() == r@.len());
    assert(texts(r@)[0] == r@[0]@);
    assert(texts(r@)[1] == r@[1]@);
    assert(texts(r@)[2] == r@[2]@);
}

/// A locked commit must be a whole one, and the database is asked for the commit behind a revision. What it
/// does not know, cannot read as a revision or finds ambiguous is no commit; any other failure is told.
pub proof fn lemma_looked_up(
    locked: Option<&str>,
    checked: Result<(), GitError>,
    revision: &str,
    query: String,
    answer: Lookup,
    r: Result<Option<String>, GitError>,
)
    requires
        call_ensures(validate_locked_commit, (locked,), checked),
        call_ensures(commit_query, (revision,), query),
        call_ensures(resolve_commit, (answer,), r),
    ensures
        checked is Err <==> (locked matches Some(commit) && !((commit@.len() == 40 || commit@.len()
            == 64) && forall|i: int|
            0 <= i < commit@.len() ==> ('0' <= #[trigger] commit@[i] && commit@[i] <= '9') || ('a'
                <= commit@[i] && commit@[i] <= 'f'))),
        query@ == revision@ + "^{commit}"@,
        answer matches Lookup::Commit(commit) ==> (r matches Ok(Some(found)) && found@ == commit@),
        r is Err <==> answer is Failed,
        r matches Ok(None) <==> answer is NotFound || answer is InvalidSpec || answer is Ambiguous,
{
    if let Some(commit) = locked {
        if checked is Ok {
            assert forall|i: int| 0 <= i < commit@.len() implies ('0' <= #[trigger] commit@[i]
                && commit@[i] <= '9') || ('a' <= commit@[i] && commit@[i] <= 'f') by {
                assert(crate::hashing::is_lower_hex_char(commit@[i]));
            }
        }
    }
}

/// Of what is left of a checkout only a directory is removed, and nothing is removed where nothing is;
/// anything else is refused.
pub proof fn lemma_only_directories_go(path: &str, kind: EntryKind, r: Result<bool, GitError>)
    requires
        call_ensures(remove_incomplete, (path, kind), r),
    ensures
        r matches Ok(true) <==> kind is Directory,
        r matches Ok(false) <==> kind is Missing,
{
}

/// A branch and a tag are accepted exactly where Git takes their references, and repositories nested in
/// a source may lie on this machine exactly where the source begins with a slash or with `file://`.
pub proof fn lemma_named_references(
    branch: &str,
    a: Result<(), GitError>,
    tag: &str,
    b: Result<(), GitError>,
    source: &GitSourceSpec,
    allowed: bool,
)
    requires
        call_ensures(validate_named_ref, (RefKind::Heads, branch), a),
        call_ensures(validate_named_ref, (RefKind::Tags, tag), b),
        call_ensures(GitSourceSpec::allows_local_submodules, (source,), allowed),
    ensures
        a is Ok <==> valid_reference("refs/heads/"@ + branch@),
        b is Ok <==> valid_reference("refs/tags/"@ + tag@),
        allowed <==> source@.git.len() > 0 && source@.git[0] == '/' || has_prefix(
            source@.git,
            "file://"@,
        ),
{
    reveal_strlit("refs/");
    reveal_strlit("heads");
    reveal_strlit("tags");
    reveal_strlit("/");
    reveal_strlit("refs/heads/");
    reveal_strlit("refs/tags/");
    assert("refs/heads/"@ =~= "refs/"@ + "heads"@ + "/"@);
    assert("refs/tags/"@ =~= "refs/"@ + "tags"@ + "/"@);
}

/// Nested repositories are gone through to a depth of 256, and no deeper.
pub proof fn lemma_depth(depth: usize, r: Result<(), SubmoduleError>)
    requires
        call_ensures(check_depth, (depth,), r),
    ensures
        r is Ok <==> depth <= 256,
{
}

/// A location that begins with `./` or `../` is read against that of the parent where this is a `file`
/// URL, and then below it: a slash is added to it where its path ends with none. Any other location
/// is left as it is.
pub proof fn lemma_nested_location(
    declared: &str,
    origin: &str,
    relative: bool,
    r: Result<Option<String>, SubmoduleError>,
)
    requires
        call_ensures(is_relative_url, (declared,), relative),
        call_ensures(initialize_submodule_url, (declared, origin), r),
    ensures
        relative <==> has_prefix(declared@, "./"@) || has_prefix(declared@, "../"@),
        !relative || !has_prefix(origin@, "file://"@) ==> (r matches Ok(None)),
        relative && has_prefix(origin@, "file://"@) ==> match url_path(origin@) {
            None => r matches Err(e) && e@ == SubmoduleFault::ParentUrl,
            Some(path) => {
                let base = if has_suffix(path, "/"@) {
                    Some(origin@)
                } else {
                    url_with_segment(origin@, ""@)
                };
                match base {
                    None => r matches Err(e) && e@ == SubmoduleFault::RelativeUrl,
                    Some(base) => match url_join(base, declared@) {
                        None => r matches Err(e) && e@ == SubmoduleFault::RelativeUrl,
                        Some(url) => r matches Ok(Some(set)) && set@ == url,
                    },
                }
            },
        },
{
}

/// The work on a nested repository begins exactly where it does not lie on this machine or may, and its
/// parent pins a commit; it is about that repository and that commit.
pub proof fn lemma_nested_work_begins(
    name: &str,
    url: &str,
    commit: Option<&str>,
    allow_local: bool,
    depth: usize,
    r: Result<Submodule, SubmoduleError>,
)
    requires
        call_ensures(Submodule::begin, (name, url, commit, allow_local, depth), r),
    ensures
        on_this_machine(url@) && !allow_local ==> (r matches Err(e) && e@
            == SubmoduleFault::LocalUrl(url@)),
        !(on_this_machine(url@) && !allow_local) && commit is None ==> (r matches Err(e) && e@
            == SubmoduleFault::NoCommit(name@)),
        !(on_this_machine(url@) && !allow_local) && commit is Some ==> (r matches Ok(work) && work.name@
            == name@ && work.url@ == url@ && work.commit@ == commit->0@ && work.allow_local
            == allow_local && work.depth == depth && work.stage is Open),
{
    lemma_on_this_machine(url@);
}

/// What is asked for while a nested repository is brought: always its own location and its own commit.
/// The commit alone is fetched first and everything advertised after that; what lies below may be on
/// this machine only where this one is and may be, and is one deeper.
pub proof fn lemma_nested_requests(work: &Submodule, r: crate::git::submodules::Request)
    requires
        call_ensures(Submodule::request, (work,), r),
    ensures
        r@ matches RequestModel::Configure(url) ==> url == work.url@,
        r@ matches RequestModel::Has(commit) ==> commit == work.commit@,
        r@ matches RequestModel::CheckOut(commit) ==> commit == work.commit@,
        r@ matches RequestModel::Announce(text) ==> text == "git submodule `"@ + work.name@ + "`"@,
        r@ matches RequestModel::Fetch { url, refspecs, allow_local } ==> url == work.url@
            && allow_local == work.allow_local && (work.stage is Fetch ==> refspecs == seq![
            work.commit@,
        ]) && (work.stage is FetchAdvertised ==> refspecs == seq![
            "+refs/heads/*:refs/remotes/origin/*"@,
            "+refs/tags/*:refs/tags/*"@,
            "+HEAD:refs/typm/default"@,
        ]),
        r@ matches RequestModel::Descend { allow_local, depth } ==> (allow_local
            <==> work.allow_local && on_this_machine(work.url@)) && depth == work.depth + 1,
        work.stage is Open <==> r@ is Open,
        work.stage is Initialize <==> r@ is Initialize,
        work.stage is Configure <==> r@ is Configure,
        work.stage is CheckCommit || work.stage is CheckFetched <==> r@ is Has,
        work.stage is Announce <==> r@ is Announce,
        work.stage is Fetch || work.stage is FetchAdvertised <==> r@ is Fetch,
        work.stage is CheckOut <==> r@ is CheckOut,
        work.stage is Descend <==> r@ is Descend,
        work.stage is Finished <==> r@ is Done,
        work.stage is OpenFailed <==> r@ is OpenFailed,
        work.stage is FetchFailed <==> r@ is FetchFailed,
{
    lemma_on_this_machine(work.url@);
}

/// How the work on a nested repository goes on. It is made where there is none; its commit is checked out
/// only where it has it or everything was fetched; it is fetched only where it lacks the commit, and
/// everything only where fetching the commit alone failed or did not bring it; what is nested in it
/// comes last, and nothing of what the work is about changes.
pub proof fn lemma_nested_course()
    ensures
        forall|w: &mut Submodule, reply: Reply|
            #[trigger] call_ensures(Submodule::reply, (w, reply), ()) && crate::git::submodules::awaited(
                (*w)@.stage,
                reply,
            ) ==> {
                let before = (*w).stage;
                let after = final(w).stage;
                &&& final(w).name@ == (*w).name@
                &&& final(w).url@ == (*w).url@
                &&& final(w).commit@ == (*w).commit@
                &&& final(w).allow_local == (*w).allow_local
                &&& final(w).depth == (*w).depth
                &&& after is Configure <==> before is Initialize || (before is Open && reply
                    == Reply::Done)
                &&& after is Initialize <==> before is Open && reply == Reply::NotFound
                &&& after is OpenFailed <==> before is Open && reply == Reply::Failed
                &&& after is CheckCommit <==> before is Configure
                &&& after is Announce <==> before is CheckCommit && reply == Reply::Answer(false)
                &&& after is Fetch <==> before is Announce
                &&& after is CheckFetched <==> before is Fetch && reply == Reply::Fetched(true)
                &&& after is FetchAdvertised <==> (before is Fetch && reply == Reply::Fetched(
                    false,
                )) || (before is CheckFetched && reply == Reply::Answer(false))
                &&& after is CheckOut <==> ((before is CheckCommit || before is CheckFetched)
                    && reply == Reply::Answer(true)) || (before is FetchAdvertised && reply
                    == Reply::Fetched(true))
                &&& after is FetchFailed <==> before is FetchAdvertised && reply == Reply::Fetched(
                    false,
                )
                &&& after is Descend <==> before is CheckOut
                &&& after is Finished <==> before is Descend
            },
{
    assert forall|w: &mut Submodule, reply: Reply|
        #[trigger] call_ensures(Submodule::reply, (w, reply), ()) && crate::git::submodules::awaited(
            (*w)@.stage,
            reply,
        ) implies final(w)@.stage == final(w).stage by {}
}

} // verus!
