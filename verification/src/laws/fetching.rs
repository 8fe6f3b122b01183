//! Fetching: which commit the files of a Git source are of, and what is asked of the repository.

use vstd::prelude::*;

use crate::git::cache::{
    advanced, awaited, request_of, Cache, ReplyModel, RequestModel, Retrieval, RetrievalModel,
    Stage,
};
use crate::git::{GitError, GitFault, GitSourceModel, GitSourceSpec};
use crate::path::joined_path;
use crate::text::opt_str;

verus! {

broadcast use vstd::string::group_string_axioms;

/// The states of the work on a source, each with the reply that led to the next.
pub open spec fn follows(states: Seq<RetrievalModel>, replies: Seq<ReplyModel>) -> bool {
    &&& states.len() == replies.len() + 1
    &&& forall|i: int| 0 <= i < replies.len() ==> #[trigger] goes_on(states, replies, i)
}

/// A reply that is waited for leads from one state to the next.
pub open spec fn goes_on(states: Seq<RetrievalModel>, replies: Seq<ReplyModel>, i: int) -> bool {
    awaited(states[i].stage, replies[i]) && states[i + 1] == advanced(states[i], replies[i])
}

/// What a resolver asks for is what stands in the request it gives out.
pub proof fn lemma_request_is_told(work: &Retrieval, r: crate::git::cache::Request)
    requires
        call_ensures(Retrieval::request, (work,), r),
    ensures
        r@ == request_of(work@),
{
}

/// Each request waits for its own kind of reply and for every reply of that kind, and the work ends only
/// with its result.
pub proof fn lemma_every_request_is_answered(m: RetrievalModel, yes: bool, commit: Seq<char>)
    ensures
        match request_of(m) {
            RequestModel::Check { .. } => awaited(m.stage, ReplyModel::Answer(yes)),
            RequestModel::Look(_) => awaited(m.stage, ReplyModel::Found(commit)) && awaited(
                m.stage,
                ReplyModel::Absent,
            ) && awaited(m.stage, ReplyModel::Unreadable),
            RequestModel::Fetch(_) => awaited(m.stage, ReplyModel::Fetched(yes)),
            RequestModel::Done { .. } | RequestModel::Fail(_) => forall|reply: ReplyModel|
                !awaited(m.stage, reply),
            _ => awaited(m.stage, ReplyModel::Done),
        },
{
}

/// What a source selects, as the repository is asked for it.
spec fn asked(source: GitSourceModel) -> Seq<char> {
    if source.branch is Some {
        "refs/heads/"@ + source.branch->0
    } else if source.tag is Some {
        "refs/tags/"@ + source.tag->0
    } else if source.rev is Some {
        source.rev->0
    } else {
        "HEAD"@
    }
}

/// Where what a source selects is cached.
spec fn cached(source: GitSourceModel) -> Seq<char> {
    "refs/typm/sources/"@ + crate::git::source_id(source)
}

/// What was cached of the source is removed in a step.
spec fn removes(states: Seq<RetrievalModel>, source: GitSourceModel, h: int) -> bool {
    request_of(states[h]) == RequestModel::Invalidate(cached(source))
}

/// What the source selects is fetched in a step.
spec fn brings(
    states: Seq<RetrievalModel>,
    replies: Seq<ReplyModel>,
    source: GitSourceModel,
    j: int,
) -> bool {
    request_of(states[j]) == RequestModel::Fetch(
        seq!["+"@ + asked(source) + ":"@ + cached(source)],
    ) && replies[j] == ReplyModel::Fetched(true)
}

/// What the source selects was fetched before, after what was cached of it had been removed.
spec fn was_fetched(
    states: Seq<RetrievalModel>,
    replies: Seq<ReplyModel>,
    source: GitSourceModel,
    n: int,
) -> bool {
    exists|h: int, j: int|
        0 <= h < j < n && #[trigger] removes(states, source, h) && #[trigger] brings(
            states,
            replies,
            source,
            j,
        )
}

/// A commit is named in a step, when the database is asked for what the source selects.
spec fn names(
    states: Seq<RetrievalModel>,
    replies: Seq<ReplyModel>,
    source: GitSourceModel,
    commit: Seq<char>,
    i: int,
) -> bool {
    replies[i] == ReplyModel::Found(commit) && {
        ||| source.rev is Some && request_of(states[i]) == RequestModel::Look(source.rev->0)
        ||| request_of(states[i]) == RequestModel::Look(cached(source)) && was_fetched(
            states,
            replies,
            source,
            i,
        )
    }
}

/// The stages of work without a pin.
spec fn is_free(m: RetrievalModel) -> bool {
    &&& m.pinned is None
    &&& m.source.rev is Some ==> m.source.branch is None && m.source.tag is None
    &&& m.stage is LookAbbreviated || m.stage is FetchAdvertised || m.stage is LookRequested
        ==> m.source.rev is Some
    &&& !(m.stage is CheckPinned) && !(m.stage is LookPinned) && !(m.stage is AnnouncePinned)
        && !(m.stage is FetchPinned) && !(m.stage is LookFetchedPinned)
        && !(m.stage is FetchSourceForPinned) && !(m.stage is LookPinnedAgain)
        && !(m.stage is FetchAdvertisedForPinned) && !(m.stage is LookPinnedLast)
}

/// One step of work without a pin.
proof fn lemma_free_step(m: RetrievalModel, reply: ReplyModel)
    requires
        is_free(m),
        awaited(m.stage, reply),
    ensures
        ({
            let now = advanced(m, reply);
            let root = joined_path(now.checkouts, now.commit);
            &&& is_free(now)
            &&& now.source == m.source
            &&& now.checkouts == m.checkouts
            &&& now.stage is FetchSource ==> request_of(m) == RequestModel::Invalidate(
                cached(m.source),
            )
            &&& now.stage == (Stage::LookSource { fetched: true }) ==> m.stage is FetchSource
                && request_of(m) == RequestModel::Fetch(
                seq!["+"@ + asked(m.source) + ":"@ + cached(m.source)],
            ) && reply == ReplyModel::Fetched(true)
            &&& now.stage is Record ==> reply == ReplyModel::Found(now.commit)
                && m.source.rev is Some && request_of(m) == RequestModel::Look(m.source.rev->0)
            &&& now.stage is Retain ==> {
                ||| m.stage is Record && now.commit == m.commit
                ||| m.stage == (Stage::LookSource { fetched: true }) && reply == ReplyModel::Found(
                    now.commit,
                ) && request_of(m) == RequestModel::Look(cached(m.source))
            }
            &&& now.stage is CheckCheckout ==> m.stage is Retain && now.commit == m.commit
            &&& now.stage is Create ==> m.stage is CheckCheckout && now.commit == m.commit
            &&& now.stage is Finished ==> now.commit == m.commit && {
                ||| m.stage is CheckCheckout && request_of(m) == (RequestModel::Check {
                    root,
                    commit: now.commit,
                }) && reply == ReplyModel::Answer(true)
                ||| m.stage is Create && request_of(m) == (RequestModel::Create {
                    root,
                    commit: now.commit,
                })
            }
        }),
{
    assert(crate::git::requested(m.source) == asked(m.source));
    assert(crate::git::cached_ref(m.source) == cached(m.source));
}

/// A stage in which the commit is known that the files will be of.
spec fn knows(stage: Stage) -> bool {
    stage is Record || stage is Retain || stage is CheckCheckout || stage is Create
        || stage is Finished
}

/// What holds of work without a pin at every step.
spec fn free_ok(states: Seq<RetrievalModel>, replies: Seq<ReplyModel>, n: int) -> bool {
    let m = states[n];
    &&& is_free(m)
    &&& m.source == states[0].source
    &&& m.checkouts == states[0].checkouts
    &&& m.stage is FetchSource ==> exists|h: int| 0 <= h < n && removes(states, m.source, h)
    &&& m.stage == (Stage::LookSource { fetched: true }) ==> was_fetched(
        states,
        replies,
        m.source,
        n,
    )
    &&& knows(m.stage) ==> exists|i: int| 0 <= i < n && names(states, replies, m.source, m.commit, i)
}

proof fn lemma_free(states: Seq<RetrievalModel>, replies: Seq<ReplyModel>, n: int)
    requires
        follows(states, replies),
        0 <= n <= replies.len(),
        is_free(states[0]),
        states[0].stage is Open || states[0].stage is Failed,
    ensures
        free_ok(states, replies, n),
    decreases n,
{
    if n > 0 {
        let k = n - 1;
        lemma_free(states, replies, k);
        let m = states[k];
        let now = states[n];
        let reply = replies[k];
        let source = m.source;
        assert(goes_on(states, replies, k));
        lemma_free_step(m, reply);
        if now.stage is FetchSource {
            assert(removes(states, source, k));
        }
        if now.stage == (Stage::LookSource { fetched: true }) {
            assert(brings(states, replies, source, k));
            let h = choose|h: int| 0 <= h < k && removes(states, source, h);
            assert(removes(states, source, h));
            assert(was_fetched(states, replies, source, n));
        }
        if knows(now.stage) {
            if knows(m.stage) {
                let i = choose|i: int| 0 <= i < k && names(states, replies, source, m.commit, i);
                assert(names(states, replies, source, now.commit, i));
            } else {
                assert(names(states, replies, source, now.commit, k));
            }
        }
    }
}

/// Where a source has no pin that counts, the files that the work ends with are of a commit that the
/// database named when it was asked for what the source selects: for the very revision, or for the
/// reference into which exactly the selected branch, tag, revision or default branch had just been
/// fetched, after what was there before had been removed. They lie under that commit, and were found
/// complete or made anew at the end.
pub proof fn lemma_files_are_of_the_selected_commit(
    cache: &Cache,
    source: &GitSourceSpec,
    locked: Option<&str>,
    refresh: bool,
    work: Retrieval,
    states: Seq<RetrievalModel>,
    replies: Seq<ReplyModel>,
    root: Seq<char>,
    commit: Seq<char>,
) -> (r: (int, int, int))
    requires
        call_ensures(Cache::resolve, (cache, source, locked, refresh), Ok(work)),
        locked is None || refresh,
        follows(states, replies),
        states[0] == work@,
        request_of(states.last()) == (RequestModel::Done { root, commit }),
    ensures
        ({
            let (removed, fetched, named) = r;
            let stored = "refs/typm/sources/"@ + crate::git::source_id(source@);
            let selected = if source@.branch is Some {
                "refs/heads/"@ + source@.branch->0
            } else if source@.tag is Some {
                "refs/tags/"@ + source@.tag->0
            } else if source@.rev is Some {
                source@.rev->0
            } else {
                "HEAD"@
            };
            &&& 0 <= named < replies.len()
            &&& replies[named] == ReplyModel::Found(commit)
            &&& {
                ||| source@.rev is Some && request_of(states[named]) == RequestModel::Look(
                    source@.rev->0,
                )
                ||| {
                    &&& 0 <= removed < fetched < named
                    &&& request_of(states[removed]) == RequestModel::Invalidate(stored)
                    &&& request_of(states[fetched]) == RequestModel::Fetch(
                        seq!["+"@ + selected + ":"@ + stored],
                    )
                    &&& replies[fetched] == ReplyModel::Fetched(true)
                    &&& request_of(states[named]) == RequestModel::Look(stored)
                }
            }
        }),
        root == joined_path(work@.checkouts, commit),
        replies.len() > 0,
        ({
            ||| request_of(states[states.len() - 2]) == (RequestModel::Check { root, commit })
                && replies.last() == ReplyModel::Answer(true)
            ||| request_of(states[states.len() - 2]) == (RequestModel::Create { root, commit })
        }),
{
    let n = replies.len() as int;
    lemma_free(states, replies, n);
    assert(states.last() == states[n]);
    assert(states[n].stage is Finished);
    lemma_free(states, replies, n - 1);
    assert(goes_on(states, replies, n - 1));
    lemma_free_step(states[n - 1], replies[n - 1]);
    let i = choose|i: int| 0 <= i < n && names(states, replies, source@, commit, i);
    if was_fetched(states, replies, source@, i) {
        let (h, j) = choose|h: int, j: int|
            0 <= h < j < i && #[trigger] removes(states, source@, h) && #[trigger] brings(
                states,
                replies,
                source@,
                j,
            );
        (h, j, i)
    } else {
        (0, 0, i)
    }
}

/// The end of the work, once the commit is known: it is kept in the database under its own name, and the
/// files are those found complete under it, else made anew.
pub proof fn lemma_course_once_known(m: RetrievalModel, found: bool)
    requires
        m.stage is Retain,
    ensures
        ({
            let root = joined_path(m.checkouts, m.commit);
            let kept = advanced(m, ReplyModel::Done);
            let checked = advanced(kept, ReplyModel::Answer(found));
            let done = RequestModel::Done { root, commit: m.commit };
            &&& request_of(m) == (RequestModel::Point {
                reference: "refs/typm/commits/"@ + m.commit,
                commit: m.commit,
            })
            &&& request_of(kept) == (RequestModel::Check { root, commit: m.commit })
            &&& found ==> request_of(checked) == done
            &&& !found ==> request_of(checked) == (RequestModel::Create { root, commit: m.commit })
                && request_of(advanced(checked, ReplyModel::Done)) == done
        }),
{
}

/// The course of the work on a branch, a tag or the default branch without a pin: the database is opened,
/// the user is told, what was cached is removed, the selected reference is fetched in its place, and the
/// commit it names is the one whose files are made. A fetch that fails is told, whatever is cached, and so
/// is a reference that names no commit.
pub proof fn lemma_course_of_a_reference(
    cache: &Cache,
    source: &GitSourceSpec,
    locked: Option<&str>,
    refresh: bool,
    work: Retrieval,
    ok: bool,
    commit: Seq<char>,
)
    requires
        call_ensures(Cache::resolve, (cache, source, locked, refresh), Ok(work)),
        locked is None || refresh,
        source@.rev is None,
    ensures
        ({
            let stored = "refs/typm/sources/"@ + crate::git::source_id(source@);
            let selected = if source@.branch is Some {
                "refs/heads/"@ + source@.branch->0
            } else if source@.tag is Some {
                "refs/tags/"@ + source@.tag->0
            } else {
                "HEAD"@
            };
            let opened = advanced(work@, ReplyModel::Done);
            let told = advanced(opened, ReplyModel::Done);
            let removed = advanced(told, ReplyModel::Done);
            let fetched = advanced(removed, ReplyModel::Fetched(ok));
            let named = advanced(fetched, ReplyModel::Found(commit));
            let nameless = advanced(fetched, ReplyModel::Absent);
            let unreadable = advanced(fetched, ReplyModel::Unreadable);
            &&& request_of(work@) == RequestModel::Open
            &&& request_of(opened) == RequestModel::Announce(
                "git repository `"@ + source@.git + "`"@,
            )
            &&& request_of(told) == RequestModel::Invalidate(stored)
            &&& request_of(removed) == RequestModel::Fetch(seq!["+"@ + selected + ":"@ + stored])
            &&& request_of(fetched) == RequestModel::Look(stored)
            &&& ok ==> named.stage is Retain && named.commit == commit && named.checkouts
                == work@.checkouts
            &&& !ok ==> request_of(named) == RequestModel::Fail(None)
            &&& request_of(nameless) == RequestModel::Fail(
                if ok {
                    Some(GitFault::NotCommit { reference: selected, git: source@.git })
                } else {
                    None
                },
            )
            &&& request_of(unreadable) == RequestModel::Fail(Some(GitFault::Revision))
        }),
{
}

/// The course of the work on a revision without a pin. One that may abbreviate a commit is looked for in
/// the database first, and taken where the commit begins with it. Else it is fetched; where that fails, or
/// names no commit, everything that the repository advertises is fetched, and the very revision is looked
/// for in it. A commit found by its revision is cached for the source.
pub proof fn lemma_course_of_a_revision(
    cache: &Cache,
    source: &GitSourceSpec,
    locked: Option<&str>,
    refresh: bool,
    work: Retrieval,
    ok: bool,
    all: bool,
    commit: Seq<char>,
)
    requires
        call_ensures(Cache::resolve, (cache, source, locked, refresh), Ok(work)),
        locked is None || refresh,
        source@.rev is Some,
        request_of(work@) == RequestModel::Open,
    ensures
        ({
            let rev = source@.rev->0;
            let stored = "refs/typm/sources/"@ + crate::git::source_id(source@);
            let opened = advanced(work@, ReplyModel::Done);
            let absent = advanced(opened, ReplyModel::Absent);
            let present = advanced(opened, ReplyModel::Found(commit));
            let announced = if crate::git::commit_prefix(rev) {
                absent
            } else {
                opened
            };
            let told = advanced(announced, ReplyModel::Done);
            let removed = advanced(told, ReplyModel::Done);
            let fetched = advanced(removed, ReplyModel::Fetched(ok));
            let named = advanced(fetched, ReplyModel::Found(commit));
            let nameless = advanced(fetched, ReplyModel::Absent);
            let everything = if ok {
                nameless
            } else {
                named
            };
            let sought = advanced(everything, ReplyModel::Fetched(all));
            let recorded = advanced(sought, ReplyModel::Found(commit));
            &&& crate::git::commit_prefix(rev) ==> request_of(opened) == RequestModel::Look(rev)
            &&& crate::git::commit_prefix(rev) && crate::text::has_prefix(
                commit,
                crate::text::lower(rev),
            ) ==> request_of(present) == (RequestModel::Point { reference: stored, commit })
                && advanced(present, ReplyModel::Done).stage is Retain && advanced(
                present,
                ReplyModel::Done,
            ).commit == commit
            &&& crate::git::commit_prefix(rev) && !crate::text::has_prefix(
                commit,
                crate::text::lower(rev),
            ) ==> present.stage == announced.stage
            &&& request_of(announced) == RequestModel::Announce(
                "git repository `"@ + source@.git + "`"@,
            )
            &&& request_of(told) == RequestModel::Invalidate(stored)
            &&& request_of(removed) == RequestModel::Fetch(seq!["+"@ + rev + ":"@ + stored])
            &&& request_of(fetched) == RequestModel::Look(stored)
            &&& ok ==> named.stage is Retain && named.commit == commit && named.checkouts
                == work@.checkouts
            &&& !ok ==> nameless.stage == named.stage
            &&& request_of(everything) == RequestModel::Fetch(
                seq![
                    "+refs/heads/*:refs/remotes/origin/*"@,
                    "+refs/tags/*:refs/tags/*"@,
                    "+HEAD:refs/typm/default"@,
                ],
            )
            &&& !all ==> request_of(sought) == RequestModel::Fail(None)
            &&& all ==> {
                &&& request_of(sought) == RequestModel::Look(rev)
                &&& request_of(recorded) == (RequestModel::Point { reference: stored, commit })
                &&& advanced(recorded, ReplyModel::Done).stage is Retain
                &&& advanced(recorded, ReplyModel::Done).commit == commit
                &&& advanced(recorded, ReplyModel::Done).checkouts == work@.checkouts
                &&& request_of(advanced(sought, ReplyModel::Absent)) == RequestModel::Fail(
                    Some(GitFault::Unresolved { revision: rev, git: source@.git }),
                )
            }
        }),
{
}

/// The course of the work on a pinned source. Files that are there complete are taken as they are. Else
/// the database is asked for the pinned commit and nothing else, and only where it does not know it
/// something is fetched: the commit itself, then what the source selects, then all that the repository
/// advertises.
pub proof fn lemma_course_of_a_pin(
    cache: &Cache,
    source: &GitSourceSpec,
    locked: Option<&str>,
    work: Retrieval,
    ok: bool,
    commit: Seq<char>,
)
    requires
        call_ensures(Cache::resolve, (cache, source, locked, false), Ok(work)),
        locked is Some,
    ensures
        ({
            let pin = locked->0@;
            let root = joined_path(work@.checkouts, pin);
            let stored = "refs/typm/sources/"@ + crate::git::source_id(source@);
            let selected = if source@.branch is Some {
                "refs/heads/"@ + source@.branch->0
            } else if source@.tag is Some {
                "refs/tags/"@ + source@.tag->0
            } else if source@.rev is Some {
                source@.rev->0
            } else {
                "HEAD"@
            };
            let missing = advanced(work@, ReplyModel::Answer(false));
            &&& request_of(work@) == (RequestModel::Check { root, commit: pin })
            &&& request_of(advanced(work@, ReplyModel::Answer(true))) == (RequestModel::Done {
                root,
                commit: pin,
            })
            &&& request_of(missing) == RequestModel::Open || request_of(missing)
                == RequestModel::Fail(Some(GitFault::Sha256))
            &&& request_of(missing) == RequestModel::Open ==> {
                let opened = advanced(missing, ReplyModel::Done);
                let named = advanced(opened, ReplyModel::Found(commit));
                let absent = advanced(opened, ReplyModel::Absent);
                let told = advanced(absent, ReplyModel::Done);
                let fetched = advanced(told, ReplyModel::Fetched(true));
                let other = advanced(told, ReplyModel::Fetched(false));
                let tried = advanced(other, ReplyModel::Fetched(ok));
                let last = advanced(tried, ReplyModel::Absent);
                let downloaded = advanced(last, ReplyModel::Fetched(true));
                &&& request_of(opened) == RequestModel::Look(pin)
                &&& named.stage is Retain && named.commit == commit && named.checkouts
                    == work@.checkouts
                &&& request_of(absent) == RequestModel::Announce(
                    "git repository `"@ + source@.git + "`"@,
                )
                &&& request_of(told) == RequestModel::Fetch(seq![pin])
                &&& request_of(fetched) == RequestModel::Look(pin)
                &&& request_of(advanced(fetched, ReplyModel::Found(commit))) == RequestModel::Look(
                    pin,
                )
                &&& advanced(
                    advanced(fetched, ReplyModel::Found(commit)),
                    ReplyModel::Found(commit),
                ).stage is Retain
                &&& advanced(fetched, ReplyModel::Absent).stage == other.stage
                &&& request_of(other) == RequestModel::Fetch(
                    seq!["+"@ + selected + ":"@ + stored],
                )
                &&& request_of(tried) == RequestModel::Look(pin)
                &&& advanced(
                    advanced(tried, ReplyModel::Found(commit)),
                    ReplyModel::Found(commit),
                ).stage is Retain
                &&& request_of(last) == RequestModel::Fetch(
                    seq![
                        "+refs/heads/*:refs/remotes/origin/*"@,
                        "+refs/tags/*:refs/tags/*"@,
                        "+HEAD:refs/typm/default"@,
                    ],
                )
                &&& request_of(advanced(last, ReplyModel::Fetched(false))) == RequestModel::Fail(
                    Some(GitFault::LockedDownload { commit: pin, git: source@.git }),
                )
                &&& request_of(downloaded) == RequestModel::Look(pin)
                &&& advanced(downloaded, ReplyModel::Found(commit)).stage is Retain
                &&& request_of(advanced(downloaded, ReplyModel::Absent)) == RequestModel::Fail(
                    Some(GitFault::LockedUnavailable { commit: pin, git: source@.git }),
                )
            }
        }),
{
}

/// The files of a source lie in the cache under the digest of its repository and under their commit. A
/// locked commit must be a full one, and the source one that can be asked for; then the work begins.
pub proof fn lemma_work_begins(
    cache: &Cache,
    source: &GitSourceSpec,
    locked: Option<&str>,
    refresh: bool,
    r: Result<Retrieval, GitError>,
)
    requires
        call_ensures(Cache::resolve, (cache, source, locked, refresh), r),
    ensures
        r is Ok <==> crate::git::source_fault(source@) is None && (locked is Some
            ==> crate::git::full_commit(locked->0@)),
        r is Ok ==> r->Ok_0@.source == source@,
        r is Ok ==> r->Ok_0@.checkouts == joined_path(
            joined_path(cache.root@, "git/checkouts"@),
            crate::hashing::blake3_hex(vstd::utf8::encode_utf8(source@.git)),
        ),
        r is Ok ==> (r->Ok_0@.pinned is Some <==> locked is Some && !refresh),
        r is Ok && r->Ok_0@.pinned is Some ==> r->Ok_0@.pinned == opt_str(locked),
{
}

} // verus!
