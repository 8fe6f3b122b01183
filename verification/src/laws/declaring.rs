//! Declaring: which dependencies and Git sources are accepted, and what the repository is asked for.

use vstd::prelude::*;
use vstd::utf8::encode_utf8;

use crate::git::{
    checkout_complete, is_commit_prefix, is_full_commit, lemma_source_message_injective,
    reject_sha256_repository, reject_sha256_revision, source_fault, source_fits, source_message,
    valid_reference, GitError, GitSourceModel, GitSourceSpec,
};
use crate::hashing::blake3_hex;
use crate::manifest::{valid_identity, Dependency, DependencyError};
use crate::text::opt_str;

verus! {

broadcast use vstd::string::group_string_axioms;

/// Some two different messages have this very digest.
pub open spec fn is_shared(digest: Seq<char>) -> bool {
    exists|x: Seq<u8>, y: Seq<u8>|
        x != y && #[trigger] blake3_hex(x) == digest && #[trigger] blake3_hex(y) == digest
}

/// A text holds a control character.
pub open spec fn unprintable(text: Seq<char>) -> bool {
    exists|i: int|
        0 <= i < text.len() && {
            let code = (#[trigger] text[i]) as int;
            code < 0x20 || 0x7f <= code <= 0x9f
        }
}

/// A Git source is accepted exactly where its location is not empty, does not begin with `-` and has no
/// control character, at most one of branch, tag and revision is given, that one is not empty and has no
/// control character, and Git takes the branch or the tag for the name of a reference.
pub proof fn lemma_accepted_source(source: &GitSourceSpec, r: Result<(), GitError>)
    requires
        call_ensures(GitSourceSpec::validate, (source,), r),
    ensures
        r is Ok <==> may_be_asked(source@),
{
    lemma_may_be_asked(source@);
}

/// The location is not empty, does not begin with `-` and has no control character, and of branch, tag
/// and revision at most one is given, which is not empty and has no control character; a branch or a tag
/// is one that Git takes.
pub open spec fn may_be_asked(m: GitSourceModel) -> bool {
    &&& m.git.len() > 0 && m.git[0] != '-' && !unprintable(m.git)
    &&& m.branch is Some ==> m.tag is None && m.rev is None && m.branch->0.len() > 0
        && !unprintable(m.branch->0) && valid_reference("refs/heads/"@ + m.branch->0)
    &&& m.tag is Some ==> m.branch is None && m.rev is None && m.tag->0.len() > 0 && !unprintable(
        m.tag->0,
    ) && valid_reference("refs/tags/"@ + m.tag->0)
    &&& m.rev is Some ==> m.branch is None && m.tag is None && m.rev->0.len() > 0 && !unprintable(
        m.rev->0,
    )
}

pub(crate) proof fn lemma_may_be_asked(m: GitSourceModel)
    ensures
        source_fault(m) is None <==> may_be_asked(m),
{
    reveal_strlit("refs/");
    reveal_strlit("heads");
    reveal_strlit("tags");
    reveal_strlit("/");
    reveal_strlit("refs/heads/");
    reveal_strlit("refs/tags/");
    assert("refs/heads/"@ =~= "refs/"@ + "heads"@ + "/"@);
    assert("refs/tags/"@ =~= "refs/"@ + "tags"@ + "/"@);
    lemma_control(m.git);
    if m.branch is Some {
        lemma_control(m.branch->0);
    }
    if m.tag is Some {
        lemma_control(m.tag->0);
    }
    if m.rev is Some {
        lemma_control(m.rev->0);
    }
}

proof fn lemma_control(text: Seq<char>)
    ensures
        crate::text::has_control(text) <==> unprintable(text),
{
    if crate::text::has_control(text) {
        let i = choose|i: int|
            0 <= i < text.len() && crate::text::is_control_char(#[trigger] text[i]);
        assert(0 <= i < text.len() && ((text[i] as int) < 0x20 || 0x7f <= (text[i] as int) <= 0x9f));
    }
    if unprintable(text) {
        let i = choose|i: int|
            0 <= i < text.len() && {
                let code = (#[trigger] text[i]) as int;
                code < 0x20 || 0x7f <= code <= 0x9f
            };
        assert(crate::text::is_control_char(text[i]));
    }
}

/// A dependency is accepted exactly where it names a repository or a directory and not both, a directory
/// that is not empty and without a selector or a source that is accepted, and where its namespace and its
/// name make an identity.
pub proof fn lemma_accepted_dependency(
    dependency: &Dependency,
    name: Option<&str>,
    r: Result<(), DependencyError>,
    source: GitSourceSpec,
    accepted: Result<(), GitError>,
)
    requires
        call_ensures(Dependency::validate, (dependency, name), r),
        dependency@.git is Some ==> source@.git == dependency@.git->0 && source@.branch
            == dependency@.branch && source@.tag == dependency@.tag && source@.rev
            == dependency@.rev,
        call_ensures(GitSourceSpec::validate, (&source,), accepted),
    ensures
        r is Ok <==> {
            let m = dependency@;
            let identity = "@"@ + m.namespace + "/"@ + (match name {
                Some(name) => name@,
                None => "package"@,
            });
            &&& valid_identity(identity)
            &&& m.git is Some ==> m.path is None && accepted is Ok
            &&& m.git is None ==> m.path is Some && m.path->0.len() > 0 && m.branch is None
                && m.tag is None && m.rev is None
        },
{
    if dependency@.git is Some {
        assert(source@ == crate::manifest::git_source_of(dependency@)->0);
    }
}

/// The Git source of a dependency has its location and its selectors; a dependency on a directory has
/// none.
pub proof fn lemma_source_of_dependency(dependency: &Dependency, r: Option<GitSourceSpec>)
    requires
        call_ensures(Dependency::git_source, (dependency,), r),
    ensures
        r is Some <==> dependency@.git is Some,
        r is Some ==> r->0@.git == dependency@.git->0 && r->0@.branch == dependency@.branch
            && r->0@.tag == dependency@.tag && r->0@.rev == dependency@.rev,
{
}

/// What a source asks for: its branch, its tag, its revision, or the default branch; and where that is
/// put.
pub proof fn lemma_asked_reference(
    source: &GitSourceSpec,
    asked: String,
    stored: String,
    id: String,
    request: String,
)
    requires
        call_ensures(GitSourceSpec::requested_ref, (source,), asked),
        call_ensures(GitSourceSpec::cache_ref, (source,), stored),
        call_ensures(GitSourceSpec::id, (source,), id),
        call_ensures(GitSourceSpec::refspec, (source,), request),
    ensures
        source@.branch is Some ==> asked@ == "refs/heads/"@ + source@.branch->0,
        source@.branch is None && source@.tag is Some ==> asked@ == "refs/tags/"@ + source@.tag->0,
        source@.branch is None && source@.tag is None && source@.rev is Some ==> asked@
            == source@.rev->0,
        source@.branch is None && source@.tag is None && source@.rev is None ==> asked@ == "HEAD"@,
        stored@ == "refs/typm/sources/"@ + id@,
        request@ == "+"@ + asked@ + ":"@ + stored@,
{
}

/// The identity of a source tells it from every other, its location and each of its selectors, unless two
/// messages share the digest; and it depends on nothing else.
pub proof fn lemma_source_identity(a: &GitSourceSpec, x: String, b: &GitSourceSpec, y: String)
    requires
        call_ensures(GitSourceSpec::id, (a,), x),
        call_ensures(GitSourceSpec::id, (b,), y),
        source_fits(a@),
        source_fits(b@),
    ensures
        a@ == b@ ==> x@ == y@,
        x@ == y@ ==> a@ == b@ || is_shared(x@),
{
    if x@ == y@ && source_message(a@) != source_message(b@) {
        assert(blake3_hex(source_message(a@)) == x@ && blake3_hex(source_message(b@)) == x@);
    }
    if source_message(a@) == source_message(b@) {
        lemma_source_message_injective(a@, b@);
    }
}

/// The full name of a commit has 40 or 64 digits, 0 to 9 and a to f.
pub proof fn lemma_full_commit(value: &str, r: bool)
    requires
        call_ensures(is_full_commit, (value,), r),
    ensures
        r <==> (value@.len() == 40 || value@.len() == 64) && forall|i: int|
            0 <= i < value@.len() ==> ('0' <= #[trigger] value@[i] && value@[i] <= '9') || ('a'
                <= value@[i] && value@[i] <= 'f'),
{
    if r {
        assert forall|i: int| 0 <= i < value@.len() implies ('0' <= #[trigger] value@[i] && value@[i]
            <= '9') || ('a' <= value@[i] && value@[i] <= 'f') by {
            assert(crate::hashing::is_lower_hex_char(value@[i]));
        }
    }
}

/// What can abbreviate a commit has 4 to 64 digits, in either case; with more than 40 only a SHA-256
/// repository can have it, and it is refused.
pub proof fn lemma_commit_prefix(value: &str, r: bool, refused: Result<(), GitError>)
    requires
        call_ensures(is_commit_prefix, (value,), r),
        call_ensures(reject_sha256_revision, (Some(value),), refused),
    ensures
        r <==> 4 <= value@.len() <= 64 && forall|i: int|
            0 <= i < value@.len() ==> ('0' <= #[trigger] value@[i] && value@[i] <= '9') || ('a'
                <= value@[i] && value@[i] <= 'f') || ('A' <= value@[i] && value@[i] <= 'F'),
        refused is Err <==> r && value@.len() > 40,
{
    if r {
        assert forall|i: int| 0 <= i < value@.len() implies ('0' <= #[trigger] value@[i] && value@[i]
            <= '9') || ('a' <= value@[i] && value@[i] <= 'f') || ('A' <= value@[i] && value@[i]
            <= 'F') by {
            assert(crate::text::is_hex_char(value@[i]));
        }
    }
}

/// A checkout counts as finished only where its marker names the commit, and the commit of fewer than 64
/// bytes is the one checked out.
pub proof fn lemma_finished_checkout(
    commit: &str,
    marker: Option<&str>,
    head: Option<&str>,
    target: Option<&str>,
    r: bool,
)
    requires
        call_ensures(checkout_complete, (commit, marker, head, target), r),
        encode_utf8(commit@).len() != 64,
    ensures
        r <==> opt_str(marker) == Some(commit@) && opt_str(target) == Some(commit@),
{
}

/// No repository is refused for its object format but one of SHA-256.
pub proof fn lemma_refused_format(format: Option<&str>, r: Result<(), GitError>)
    requires
        call_ensures(reject_sha256_repository, (format,), r),
    ensures
        format is None ==> r is Ok,
        format is Some && format->0@ == "sha256"@ ==> r is Err,
        format is Some && format->0@.len() != 6 ==> r is Ok,
{
    reveal_strlit("sha256");
    if format is Some {
        assert(crate::text::lower(format->0@).len() == format->0@.len());
        assert(crate::text::lower("sha256"@).len() == 6);
    }
}

} // verus!
