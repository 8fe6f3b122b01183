//! Git sources: what names one, how a revision in it is asked for, and when a cached copy counts.

pub mod cache;
pub mod submodules;
pub mod transport;

use vstd::prelude::*;
use vstd::utf8::encode_utf8;

use crate::files::EntryKind;
use crate::hashing::{
    blake3_hex, digest, fits, frame, is_digest, lemma_encoding_injective, lemma_frame_injective,
    push_frame,
};
use crate::path::{absolute, is_absolute};
use crate::text::{
    any_control, copy_opt, has_control, has_prefix, is_hex, is_hex_char, lower, opt_str, opt_text,
    plus, plus3, same, same_ignoring_case, same_opt, starts_with, trimmed, trims_to,
};

verus! {

broadcast use vstd::string::group_string_axioms;

/// Where a Git package comes from: a repository and at most one selector in it.
#[derive(Debug)]
pub struct GitSourceSpec {
    pub git: String,
    pub branch: Option<String>,
    pub tag: Option<String>,
    pub rev: Option<String>,
}

/// The texts of a Git source.
pub struct GitSourceModel {
    pub git: Seq<char>,
    pub branch: Option<Seq<char>>,
    pub tag: Option<Seq<char>>,
    pub rev: Option<Seq<char>>,
}

impl View for GitSourceSpec {
    type V = GitSourceModel;

    open spec fn view(&self) -> GitSourceModel {
        GitSourceModel {
            git: self.git@,
            branch: opt_text(self.branch),
            tag: opt_text(self.tag),
            rev: opt_text(self.rev),
        }
    }
}

impl Clone for GitSourceSpec {
    fn clone(&self) -> (r: Self)
        ensures
            r@ == self@,
    {
        GitSourceSpec {
            git: self.git.clone(),
            branch: copy_opt(&self.branch),
            tag: copy_opt(&self.tag),
            rev: copy_opt(&self.rev),
        }
    }
}

/// The two kinds of named references that a source can select.
#[derive(Clone, Copy, Debug, PartialEq, Eq, Structural)]
pub enum RefKind {
    Heads,
    Tags,
}

/// The directory of a kind of reference.
pub open spec fn kind_text(kind: RefKind) -> Seq<char> {
    match kind {
        RefKind::Heads => "heads"@,
        RefKind::Tags => "tags"@,
    }
}

/// What is wrong with a Git source, a commit or a cached copy.
#[derive(Debug)]
pub enum GitError {
    Location,
    SeveralSelectors,
    Selector,
    ReferenceName { kind: RefKind, value: String },
    LockedCommit(String),
    Sha256,
    UnexpectedEntry(String),
    Unresolved { revision: String, git: String },
    NotCommit { reference: String, git: String },
    LockedUnavailable { commit: String, git: String },
    LockedDownload { commit: String, git: String },
    Revision,
}

/// What is wrong with a Git source, a commit or a cached copy.
pub enum GitFault {
    Location,
    SeveralSelectors,
    Selector,
    ReferenceName { kind: RefKind, value: Seq<char> },
    LockedCommit(Seq<char>),
    Sha256,
    UnexpectedEntry(Seq<char>),
    Unresolved { revision: Seq<char>, git: Seq<char> },
    NotCommit { reference: Seq<char>, git: Seq<char> },
    LockedUnavailable { commit: Seq<char>, git: Seq<char> },
    LockedDownload { commit: Seq<char>, git: Seq<char> },
    Revision,
}

impl View for GitError {
    type V = GitFault;

    open spec fn view(&self) -> GitFault {
        match self {
            GitError::Location => GitFault::Location,
            GitError::SeveralSelectors => GitFault::SeveralSelectors,
            GitError::Selector => GitFault::Selector,
            GitError::ReferenceName { kind, value } => GitFault::ReferenceName {
                kind: *kind,
                value: value@,
            },
            GitError::LockedCommit(commit) => GitFault::LockedCommit(commit@),
            GitError::Sha256 => GitFault::Sha256,
            GitError::UnexpectedEntry(path) => GitFault::UnexpectedEntry(path@),
            GitError::Unresolved { revision, git } => GitFault::Unresolved {
                revision: revision@,
                git: git@,
            },
            GitError::NotCommit { reference, git } => GitFault::NotCommit {
                reference: reference@,
                git: git@,
            },
            GitError::LockedUnavailable { commit, git } => GitFault::LockedUnavailable {
                commit: commit@,
                git: git@,
            },
            GitError::LockedDownload { commit, git } => GitFault::LockedDownload {
                commit: commit@,
                git: git@,
            },
            GitError::Revision => GitFault::Revision,
        }
    }
}

/// The text shown for a fault.
pub open spec fn fault_text(fault: GitFault) -> Seq<char> {
    match fault {
        GitFault::Location => "Git source must be a nonempty URL or filesystem path"@,
        GitFault::SeveralSelectors => "a Git dependency accepts only one of branch, tag, or rev"@,
        GitFault::Selector =>
            "Git branch, tag, and rev selectors must be nonempty and contain no control characters"@,
        GitFault::ReferenceName { kind, value } => "invalid Git "@ + kind_text(kind) + " name: "@
            + value,
        GitFault::LockedCommit(commit) => "invalid locked Git commit: "@ + commit,
        GitFault::Sha256 => "SHA-256 Git repositories are not supported by typm's git2 backend"@,
        GitFault::UnexpectedEntry(path) => "refusing to replace unexpected cache entry "@ + path,
        GitFault::Unresolved { revision, git } => "could not resolve Git revision "@ + revision
            + " in "@ + git,
        GitFault::NotCommit { reference, git } => "Git reference "@ + reference + " in "@ + git
            + " does not identify a commit"@,
        GitFault::LockedUnavailable { commit, git } => "locked Git commit "@ + commit
            + " is unavailable in "@ + git + "; the lockfile was not changed"@,
        GitFault::LockedDownload { commit, git } => "could not download locked commit "@ + commit
            + " from "@ + git,
        GitFault::Revision => "could not inspect the cached Git revision"@,
    }
}

impl GitError {
    /// The text shown to the user.
    pub fn message(&self) -> (r: String)
        ensures
            r@ == fault_text(self@),
    {
        match self {
            GitError::Location => "Git source must be a nonempty URL or filesystem path".to_owned(),
            GitError::SeveralSelectors =>
                "a Git dependency accepts only one of branch, tag, or rev".to_owned(),
            GitError::Selector =>
                "Git branch, tag, and rev selectors must be nonempty and contain no control characters".to_owned(),
            GitError::ReferenceName { kind, value } => {
                let mut r = plus3("invalid Git ", kind_name(*kind), " name: ");
                r.append(value.as_str());
                r
            },
            GitError::LockedCommit(commit) => plus(
                "invalid locked Git commit: ",
                commit.as_str(),
            ),
            GitError::Sha256 =>
                "SHA-256 Git repositories are not supported by typm's git2 backend".to_owned(),
            GitError::UnexpectedEntry(path) => plus(
                "refusing to replace unexpected cache entry ",
                path.as_str(),
            ),
            GitError::Unresolved { revision, git } => {
                let mut r = plus3("could not resolve Git revision ", revision.as_str(), " in ");
                r.append(git.as_str());
                r
            },
            GitError::NotCommit { reference, git } => {
                let mut r = plus3("Git reference ", reference.as_str(), " in ");
                r.append(git.as_str());
                r.append(" does not identify a commit");
                r
            },
            GitError::LockedUnavailable { commit, git } => {
                let mut r = plus3("locked Git commit ", commit.as_str(), " is unavailable in ");
                r.append(git.as_str());
                r.append("; the lockfile was not changed");
                r
            },
            GitError::LockedDownload { commit, git } => {
                let mut r = plus3("could not download locked commit ", commit.as_str(), " from ");
                r.append(git.as_str());
                r
            },
            GitError::Revision => "could not inspect the cached Git revision".to_owned(),
        }
    }
}

/// The directory of a kind of reference.
fn kind_name(kind: RefKind) -> (r: &'static str)
    ensures
        r@ == kind_text(kind),
{
    match kind {
        RefKind::Heads => "heads",
        RefKind::Tags => "tags",
    }
}

/// Whether Git accepts `name` as the full name of a reference, as
/// `git2::Reference::is_valid_name` decides it.
pub uninterp spec fn valid_reference(name: Seq<char>) -> bool;

/// Calls `git2::Reference::is_valid_name`. The contract claims that the answer is a function of
/// the name and that no valid name holds a `:` or a `*`.
#[verifier::external_body]
fn is_valid_reference(name: &str) -> (r: bool)
    ensures
        r == valid_reference(name@),
        r ==> !name@.contains(':') && !name@.contains('*'),
{
    git2::Reference::is_valid_name(name)
}

/// The full name of a branch or tag.
pub open spec fn named_ref(kind: RefKind, value: Seq<char>) -> Seq<char> {
    "refs/"@ + kind_text(kind) + "/"@ + value
}

/// A place that Git can be asked to read.
pub open spec fn location_ok(git: Seq<char>) -> bool {
    git.len() > 0 && git[0] != '-' && !has_control(git)
}

/// A selector that can be part of a request.
pub open spec fn selector_ok(selector: Option<Seq<char>>) -> bool {
    match selector {
        Some(s) => s.len() > 0 && !has_control(s),
        None => true,
    }
}

/// What is wrong with a branch or tag.
pub open spec fn name_fault(kind: RefKind, name: Option<Seq<char>>) -> Option<GitFault> {
    match name {
        Some(value) => if valid_reference(named_ref(kind, value)) {
            None
        } else {
            Some(GitFault::ReferenceName { kind, value })
        },
        None => None,
    }
}

/// At most one of the three selectors is given.
pub open spec fn one_selector(m: GitSourceModel) -> bool {
    &&& m.branch is None || m.tag is None
    &&& m.branch is None || m.rev is None
    &&& m.tag is None || m.rev is None
}

/// What is wrong with a source, the first fault that counts.
pub open spec fn source_fault(m: GitSourceModel) -> Option<GitFault> {
    if !location_ok(m.git) {
        Some(GitFault::Location)
    } else if !one_selector(m) {
        Some(GitFault::SeveralSelectors)
    } else if !selector_ok(m.branch) || !selector_ok(m.tag) || !selector_ok(m.rev) {
        Some(GitFault::Selector)
    } else if name_fault(RefKind::Heads, m.branch) is Some {
        name_fault(RefKind::Heads, m.branch)
    } else {
        name_fault(RefKind::Tags, m.tag)
    }
}

/// What one field adds to the message of a source's identity.
pub open spec fn field_message(field: Option<Seq<char>>) -> Seq<u8> {
    match field {
        Some(value) => seq![1u8] + frame(encode_utf8(value)),
        None => seq![0u8],
    }
}

/// The message whose digest is a source's identity: each field marked as there or not.
pub open spec fn source_message(m: GitSourceModel) -> Seq<u8> {
    field_message(Some(m.git)) + field_message(m.branch) + field_message(m.tag) + field_message(
        m.rev,
    )
}

/// The identity of a source.
pub open spec fn source_id(m: GitSourceModel) -> Seq<char> {
    blake3_hex(source_message(m))
}

/// The reference that a source asks for.
pub open spec fn requested(m: GitSourceModel) -> Seq<char> {
    match (m.branch, m.tag, m.rev) {
        (Some(branch), _, _) => "refs/heads/"@ + branch,
        (None, Some(tag), _) => "refs/tags/"@ + tag,
        (None, None, Some(rev)) => rev,
        (None, None, None) => "HEAD"@,
    }
}

/// The reference under which a source's revision is cached.
pub open spec fn cached_ref(m: GitSourceModel) -> Seq<char> {
    "refs/typm/sources/"@ + source_id(m)
}

/// The request that stores what a source asks for under its cached reference.
pub open spec fn source_refspec(m: GitSourceModel) -> Seq<char> {
    "+"@ + requested(m) + ":"@ + cached_ref(m)
}

/// A repository on this machine.
pub open spec fn local_location(git: Seq<char>) -> bool {
    absolute(git) || has_prefix(git, "file://"@)
}

/// The text in a field can be held by a machine.
pub open spec fn field_fits(field: Option<Seq<char>>) -> bool {
    match field {
        Some(value) => fits(encode_utf8(value)),
        None => true,
    }
}

/// The texts of a source can be held by a machine.
pub open spec fn source_fits(m: GitSourceModel) -> bool {
    field_fits(Some(m.git)) && field_fits(m.branch) && field_fits(m.tag) && field_fits(m.rev)
}

/// A field's message can be read in one way only.
proof fn lemma_field_injective(
    a: Option<Seq<char>>,
    x: Seq<u8>,
    b: Option<Seq<char>>,
    y: Seq<u8>,
)
    requires
        field_fits(a),
        field_fits(b),
        field_message(a) + x == field_message(b) + y,
    ensures
        a == b,
        x == y,
{
    let left = field_message(a) + x;
    let right = field_message(b) + y;
    assert(left[0] == (if a is Some {
        1u8
    } else {
        0u8
    }));
    assert(right[0] == (if b is Some {
        1u8
    } else {
        0u8
    }));
    if a is Some {
        let p = encode_utf8(a->0);
        let q = encode_utf8(b->0);
        assert(left.skip(1) =~= frame(p) + x);
        assert(right.skip(1) =~= frame(q) + y);
        lemma_frame_injective(p, x, q, y);
        lemma_encoding_injective(a->0, b->0);
    } else {
        assert(left.skip(1) =~= x);
        assert(right.skip(1) =~= y);
    }
}

/// Sources that differ in their repository or in any selector have different messages, so their
/// identities differ unless the digest collides.
pub proof fn lemma_source_message_injective(a: GitSourceModel, b: GitSourceModel)
    requires
        source_fits(a),
        source_fits(b),
        source_message(a) == source_message(b),
    ensures
        a == b,
{
    let none = Seq::<u8>::empty();
    let a4 = field_message(a.rev) + none;
    let b4 = field_message(b.rev) + none;
    let a3 = field_message(a.tag) + a4;
    let b3 = field_message(b.tag) + b4;
    let a2 = field_message(a.branch) + a3;
    let b2 = field_message(b.branch) + b3;
    lemma_regrouped(
        field_message(Some(a.git)),
        field_message(a.branch),
        field_message(a.tag),
        field_message(a.rev),
    );
    lemma_regrouped(
        field_message(Some(b.git)),
        field_message(b.branch),
        field_message(b.tag),
        field_message(b.rev),
    );
    lemma_field_injective(Some(a.git), a2, Some(b.git), b2);
    lemma_field_injective(a.branch, a3, b.branch, b3);
    lemma_field_injective(a.tag, a4, b.tag, b4);
    lemma_field_injective(a.rev, none, b.rev, none);
}

/// Four pieces in a row, grouped from the left and from the right.
proof fn lemma_regrouped(a: Seq<u8>, b: Seq<u8>, c: Seq<u8>, d: Seq<u8>)
    ensures
        a + b + c + d == a + (b + (c + (d + Seq::<u8>::empty()))),
{
    assert(a + b + c + d =~= a + (b + (c + (d + Seq::<u8>::empty()))));
}

/// Adds a field to the message of a source's identity.
fn push_field(message: &mut Vec<u8>, field: Option<&str>)
    ensures
        final(message)@ == old(message)@ + field_message(opt_str(field)),
{
    match field {
        Some(value) => {
            message.push(1);
            push_frame(message, value.as_bytes());
            assert(message@ =~= old(message)@ + (seq![1u8] + frame(encode_utf8(value@))));
        },
        None => {
            message.push(0);
            assert(message@ =~= old(message)@ + seq![0u8]);
        },
    }
}

/// The text of an optional string.
pub fn opt_slice(value: &Option<String>) -> (r: Option<&str>)
    ensures
        opt_str(r) == opt_text(*value),
{
    match value {
        Some(s) => Some(s.as_str()),
        None => None,
    }
}

/// Whether a selector can be part of a request.
fn check_selector(selector: &Option<String>) -> (r: bool)
    ensures
        r == selector_ok(opt_text(*selector)),
{
    match selector {
        Some(s) => !s.as_str().is_empty() && !any_control(s.as_str()),
        None => true,
    }
}

/// Accepts a branch or tag that Git accepts.
pub fn validate_named_ref(kind: RefKind, value: &str) -> (r: Result<(), GitError>)
    ensures
        match r {
            Ok(()) => name_fault(kind, Some(value@)) is None,
            Err(e) => name_fault(kind, Some(value@)) == Some(e@),
        },
        r is Ok ==> !named_ref(kind, value@).contains(':') && !named_ref(kind, value@).contains(
            '*',
        ),
{
    let mut name = plus3("refs/", kind_name(kind), "/");
    name.append(value);
    if is_valid_reference(name.as_str()) {
        Ok(())
    } else {
        Err(GitError::ReferenceName { kind, value: value.to_owned() })
    }
}

impl GitSourceSpec {
    /// Accepts a source that Git can be asked for.
    pub fn validate(&self) -> (r: Result<(), GitError>)
        ensures
            match r {
                Ok(()) => source_fault(self@) is None,
                Err(e) => source_fault(self@) == Some(e@),
            },
            r is Ok && (self@.branch is Some || self@.tag is Some) ==> !requested(self@).contains(
                ':',
            ) && !requested(self@).contains('*'),
    {
        proof {
            reveal_strlit("-");
            reveal_strlit("refs/");
            reveal_strlit("heads");
            reveal_strlit("tags");
            reveal_strlit("/");
            reveal_strlit("refs/heads/");
            reveal_strlit("refs/tags/");
            assert("refs/heads/"@ =~= "refs/"@ + "heads"@ + "/"@);
            assert("refs/tags/"@ =~= "refs/"@ + "tags"@ + "/"@);
            lemma_starts_dash(self.git@);
        }
        if self.git.as_str().is_empty() || starts_with(self.git.as_str(), "-") || any_control(
            self.git.as_str(),
        ) {
            return Err(GitError::Location);
        }
        if (self.branch.is_some() && self.tag.is_some()) || (self.branch.is_some()
            && self.rev.is_some()) || (self.tag.is_some() && self.rev.is_some()) {
            return Err(GitError::SeveralSelectors);
        }
        if !check_selector(&self.branch) || !check_selector(&self.tag) || !check_selector(
            &self.rev,
        ) {
            return Err(GitError::Selector);
        }
        match &self.branch {
            Some(branch) => match validate_named_ref(RefKind::Heads, branch.as_str()) {
                Ok(()) => {},
                Err(e) => return Err(e),
            },
            None => {},
        }
        match &self.tag {
            Some(tag) => match validate_named_ref(RefKind::Tags, tag.as_str()) {
                Ok(()) => {},
                Err(e) => return Err(e),
            },
            None => {},
        }
        Ok(())
    }

    /// A stable identity that includes the selector, independently of its commit.
    pub fn id(&self) -> (r: String)
        ensures
            r@ == source_id(self@),
            is_digest(r@),
    {
        let mut message: Vec<u8> = Vec::new();
        push_field(&mut message, Some(self.git.as_str()));
        push_field(&mut message, opt_slice(&self.branch));
        push_field(&mut message, opt_slice(&self.tag));
        push_field(&mut message, opt_slice(&self.rev));
        assert(message@ =~= source_message(self@));
        digest(message.as_slice())
    }

    /// The reference that the source asks for.
    pub fn requested_ref(&self) -> (r: String)
        ensures
            r@ == requested(self@),
    {
        match &self.branch {
            Some(branch) => plus("refs/heads/", branch.as_str()),
            None => match &self.tag {
                Some(tag) => plus("refs/tags/", tag.as_str()),
                None => match &self.rev {
                    Some(rev) => rev.clone(),
                    None => "HEAD".to_owned(),
                },
            },
        }
    }

    /// The reference under which the source's revision is cached.
    pub fn cache_ref(&self) -> (r: String)
        ensures
            r@ == cached_ref(self@),
    {
        plus("refs/typm/sources/", self.id().as_str())
    }

    /// The request that stores what the source asks for under its cached reference.
    pub fn refspec(&self) -> (r: String)
        ensures
            r@ == source_refspec(self@),
    {
        let mut r = plus3("+", self.requested_ref().as_str(), ":");
        r.append(self.cache_ref().as_str());
        r
    }

    /// Whether submodules of the source may lie on this machine.
    pub fn allows_local_submodules(&self) -> (r: bool)
        ensures
            r == local_location(self@.git),
    {
        is_absolute(self.git.as_str()) || starts_with(self.git.as_str(), "file://")
    }

    /// Whether the two name the same repository and selector.
    pub fn same_as(&self, other: &GitSourceSpec) -> (r: bool)
        ensures
            r == (self@ == other@),
    {
        same(self.git.as_str(), other.git.as_str()) && same_opt(&self.branch, &other.branch)
            && same_opt(&self.tag, &other.tag) && same_opt(&self.rev, &other.rev)
    }
}

/// A text begins with `-` if its first character is one.
proof fn lemma_starts_dash(git: Seq<char>)
    ensures
        has_prefix(git, "-"@) == (git.len() > 0 && git[0] == '-'),
{
    reveal_strlit("-");
    assert("-"@ =~= seq!['-']);
    if git.len() > 0 {
        assert(git.subrange(0, 1) =~= seq![git[0]]);
        assert(git.subrange(0, 1)[0] == git[0]);
        assert(seq!['-'][0] == '-');
    }
}

/// The full name of a commit: 40 or 64 lower-case hexadecimal digits.
pub open spec fn full_commit(value: Seq<char>) -> bool {
    (value.len() == 40 || value.len() == 64) && forall|i: int|
        0 <= i < value.len() ==> crate::hashing::is_lower_hex_char(#[trigger] value[i])
}

/// What can abbreviate a commit: 4 to 64 hexadecimal digits.
pub open spec fn commit_prefix(value: Seq<char>) -> bool {
    4 <= value.len() <= 64 && forall|i: int|
        0 <= i < value.len() ==> is_hex_char(#[trigger] value[i])
}

/// A revision that only a SHA-256 repository can have.
pub open spec fn sha256_revision(value: Seq<char>) -> bool {
    value.len() > 40 && commit_prefix(value)
}

/// Whether `value` is the full name of a commit.
pub fn is_full_commit(value: &str) -> (r: bool)
    ensures
        r == full_commit(value@),
{
    let chars = crate::text::chars_of(value);
    if chars.len() != 40 && chars.len() != 64 {
        return false;
    }
    let mut i: usize = 0;
    while i < chars.len()
        invariant
            i <= chars@.len(),
            chars@ == value@,
            forall|j: int|
                0 <= j < i ==> crate::hashing::is_lower_hex_char(#[trigger] value@[j]),
        decreases chars@.len() - i,
    {
        let c = chars[i];
        if !(is_hex(c) && !('A' <= c && c <= 'Z')) {
            assert(!crate::hashing::is_lower_hex_char(value@[i as int]));
            return false;
        }
        i = i + 1;
    }
    true
}

/// Whether `value` can abbreviate a commit.
pub fn is_commit_prefix(value: &str) -> (r: bool)
    ensures
        r == commit_prefix(value@),
{
    let chars = crate::text::chars_of(value);
    if chars.len() < 4 || chars.len() > 64 {
        return false;
    }
    let mut i: usize = 0;
    while i < chars.len()
        invariant
            i <= chars@.len(),
            chars@ == value@,
            forall|j: int| 0 <= j < i ==> is_hex_char(#[trigger] value@[j]),
        decreases chars@.len() - i,
    {
        if !is_hex(chars[i]) {
            assert(!is_hex_char(value@[i as int]));
            return false;
        }
        i = i + 1;
    }
    true
}

/// Accepts no commit or the full name of one.
pub fn validate_locked_commit(locked: Option<&str>) -> (r: Result<(), GitError>)
    ensures
        match r {
            Ok(()) => locked is Some ==> full_commit(locked->0@),
            Err(e) => locked is Some && !full_commit(locked->0@) && e@ == GitFault::LockedCommit(
                locked->0@,
            ),
        },
{
    match locked {
        Some(commit) => if is_full_commit(commit) {
            Ok(())
        } else {
            Err(GitError::LockedCommit(commit.to_owned()))
        },
        None => Ok(()),
    }
}

/// Refuses a revision that only a SHA-256 repository can have.
pub fn reject_sha256_revision(revision: Option<&str>) -> (r: Result<(), GitError>)
    ensures
        match r {
            Ok(()) => revision is Some ==> !sha256_revision(revision->0@),
            Err(e) => revision is Some && sha256_revision(revision->0@) && e@ == GitFault::Sha256,
        },
{
    match revision {
        Some(value) => {
            let length = crate::text::chars_of(value).len();
            if length > 40 && is_commit_prefix(value) {
                Err(GitError::Sha256)
            } else {
                Ok(())
            }
        },
        None => Ok(()),
    }
}

/// Refuses a repository whose configuration names the object format `format` if that is SHA-256.
pub fn reject_sha256_repository(format: Option<&str>) -> (r: Result<(), GitError>)
    ensures
        match r {
            Ok(()) => format is Some ==> lower(format->0@) != lower("sha256"@),
            Err(e) => format is Some && lower(format->0@) == lower("sha256"@) && e@
                == GitFault::Sha256,
        },
{
    match format {
        Some(value) => if same_ignoring_case(value, "sha256") {
            Err(GitError::Sha256)
        } else {
            Ok(())
        },
        None => Ok(()),
    }
}

/// How a repository answers when it is asked for a revision.
#[derive(Debug)]
pub enum Lookup {
    Commit(String),
    NotFound,
    InvalidSpec,
    Ambiguous,
    Failed,
}

/// The question by which a repository is asked for the commit of a revision.
pub fn commit_query(revision: &str) -> (r: String)
    ensures
        r@ == revision@ + "^{commit}"@,
{
    plus(revision, "^{commit}")
}

/// The commit of a revision, if the repository has it. A revision that does not exist, cannot be
/// read or fits several commits is none.
pub fn resolve_commit(answer: Lookup) -> (r: Result<Option<String>, GitError>)
    ensures
        match answer {
            Lookup::Commit(commit) => r matches Ok(Some(c)) && c@ == commit@,
            Lookup::NotFound | Lookup::InvalidSpec | Lookup::Ambiguous => r matches Ok(None),
            Lookup::Failed => r matches Err(e) && e@ == GitFault::Revision,
        },
{
    match answer {
        Lookup::Commit(commit) => Ok(Some(commit)),
        Lookup::NotFound | Lookup::InvalidSpec | Lookup::Ambiguous => Ok(None),
        Lookup::Failed => Err(GitError::Revision),
    }
}

/// Whether the head of a checkout of `commit` is read from its `HEAD` file: a repository with such
/// a commit cannot be opened.
pub fn head_is_text(commit: &str) -> (r: bool)
    ensures
        r == (encode_utf8(commit@).len() == 64),
{
    commit.as_bytes().len() == 64
}

/// A checkout is finished: its marker names the commit and its head stands at it. A commit of 64
/// bytes is compared with the `HEAD` file, any other with what the repository has checked out.
pub open spec fn complete(
    commit: Seq<char>,
    marker: Option<Seq<char>>,
    head_file: Option<Seq<char>>,
    target: Option<Seq<char>>,
) -> bool {
    marker == Some(commit) && if encode_utf8(commit).len() == 64 {
        head_file is Some && trims_to(head_file->0, commit)
    } else {
        target == Some(commit)
    }
}

/// Whether a checkout of `commit` is finished, by its marker, the text of its `HEAD` file and the
/// commit that the repository has checked out.
pub fn checkout_complete(
    commit: &str,
    marker: Option<&str>,
    head_file: Option<&str>,
    target: Option<&str>,
) -> (r: bool)
    ensures
        r == complete(commit@, opt_str(marker), opt_str(head_file), opt_str(target)),
{
    match marker {
        Some(text) => if !same(text, commit) {
            return false;
        },
        None => return false,
    }
    if head_is_text(commit) {
        match head_file {
            Some(text) => {
                let bare = trimmed(text);
                proof {
                    if trims_to(text@, commit@) {
                        crate::text::lemma_trim_unique(text@, bare@, commit@);
                    }
                }
                same(bare.as_str(), commit)
            },
            None => false,
        }
    } else {
        match target {
            Some(text) => same(text, commit),
            None => false,
        }
    }
}

/// Whether what stands at `path` is an unfinished cache entry to be removed.
pub fn remove_incomplete(path: &str, kind: EntryKind) -> (r: Result<bool, GitError>)
    ensures
        match r {
            Ok(remove) => (kind is Directory || kind is Missing) && remove == (kind is Directory),
            Err(e) => !(kind is Directory) && !(kind is Missing) && e@
                == GitFault::UnexpectedEntry(path@),
        },
{
    match kind {
        EntryKind::Directory => Ok(true),
        EntryKind::Missing => Ok(false),
        _ => Err(GitError::UnexpectedEntry(path.to_owned())),
    }
}

/// A request for a branch or tag of an accepted source has one reading: no `*`, and no `:` but
/// the one in the middle.
pub proof fn lemma_refspec_reading(m: GitSourceModel)
    requires
        is_digest(source_id(m)),
        !requested(m).contains(':'),
        !requested(m).contains('*'),
    ensures
        !source_refspec(m).contains('*'),
        forall|i: int|
            0 <= i < source_refspec(m).len() ==> (#[trigger] source_refspec(m)[i] == ':' <==> i
                == 1 + requested(m).len()),
{
    reveal_strlit("+");
    reveal_strlit(":");
    reveal_strlit("refs/typm/sources/");
    let all = source_refspec(m);
    let want = requested(m);
    let id = source_id(m);
    let tail = cached_ref(m);
    assert forall|j: int| 0 <= j < tail.len() implies tail[j] != ':' && tail[j] != '*' by {
        if j < 18 {
            assert(tail[j] == "refs/typm/sources/"@[j]);
        } else {
            assert(tail[j] == id[j - 18]);
            assert(crate::hashing::is_lower_hex_char(id[j - 18]));
        }
    }
    assert forall|i: int| 0 <= i < all.len() implies all[i] != '*' && (#[trigger] all[i] == ':'
        <==> i == 1 + want.len()) by {
        if i == 0 {
            assert(all[0] == '+');
        } else if i < 1 + want.len() {
            assert(all[i] == want[i - 1]);
            assert(want.contains(want[i - 1]));
        } else if i == 1 + want.len() {
            assert(all[i] == ':');
        } else {
            assert(all[i] == tail[i - 2 - want.len()]);
        }
    }
}

} // verus!
