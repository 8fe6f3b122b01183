//! Telling: what the user is shown, which commands there are, and which files are left alone.

use vstd::prelude::*;

use crate::commands::{run, Command, Task};
use crate::completions::{command, is_offered, is_taken, offered};
use crate::files::{
    atomic_write, ensure_directory, require_directory_if_present, require_regular_file_if_present,
    EntryKind, FileError, Replacement,
};
use crate::graph::leads;
use crate::ops::{report, Report};
use crate::path::{parts_of, Part};
use crate::resolver::packages::{tells_cycle, tells_way, Packages};
use crate::shell::{BarState, Shell, TransferCounts};
use crate::text::{decimal, decimal_text, digit, join, joined, texts};

verus! {

broadcast use vstd::string::group_string_axioms;

/// The number that digits stand for.
pub open spec fn number(digits: Seq<char>) -> int
    decreases digits.len(),
{
    if digits.len() == 0 {
        0
    } else {
        number(digits.drop_last()) * 10 + (digits.last() as int - '0' as int)
    }
}

proof fn lemma_number(n: nat)
    ensures
        number(decimal_text(n)) == n,
        decimal_text(n).len() > 0,
        n > 0 ==> decimal_text(n)[0] != '0',
        n == 0 ==> decimal_text(n) == seq!['0'],
        forall|i: int|
            0 <= i < decimal_text(n).len() ==> '0' <= #[trigger] decimal_text(n)[i] && decimal_text(
                n,
            )[i] <= '9',
    decreases n,
{
    let text = decimal_text(n);
    if n < 10 {
        assert(text.drop_last() =~= Seq::<char>::empty());
        assert(number(text.drop_last()) == 0);
        assert(text.last() == digit(n));
        assert(digit(n) as int - '0' as int == n);
    } else {
        lemma_number(n / 10);
        assert(text.drop_last() =~= decimal_text(n / 10));
        assert(text.last() == digit(n % 10));
        assert(digit(n % 10) as int - '0' as int == n % 10);
        assert(text[0] == decimal_text(n / 10)[0]);
        assert forall|i: int| 0 <= i < text.len() implies '0' <= #[trigger] text[i] && text[i]
            <= '9' by {
            if i < text.len() - 1 {
                assert(text[i] == decimal_text(n / 10)[i]);
            }
        }
    }
}

/// A number is told in decimal digits that stand for it, and only zero begins with one.
pub proof fn lemma_told_number(n: u64, r: String)
    requires
        call_ensures(decimal, (n,), r),
    ensures
        number(r@) == n,
        r@.len() > 0,
        n > 0 ==> r@[0] != '0',
        n == 0 ==> r@ == seq!['0'],
        forall|i: int| 0 <= i < r@.len() ==> '0' <= #[trigger] r@[i] && r@[i] <= '9',
{
    lemma_number(n as nat);
}

/// A list with one text more is told with that text behind the separator.
pub proof fn lemma_told_list(
    shorter: &Vec<String>,
    longer: &Vec<String>,
    separator: &str,
    x: String,
    y: String,
    last: Seq<char>,
)
    requires
        call_ensures(join, (shorter, separator), x),
        call_ensures(join, (longer, separator), y),
        texts(longer@) == texts(shorter@).push(last),
    ensures
        shorter@.len() == 0 ==> x@.len() == 0 && y@ == last,
        shorter@.len() > 0 ==> y@ == x@ + separator@ + last,
{
    assert(texts(shorter@).len() == shorter@.len());
    assert(texts(longer@).drop_last() =~= texts(shorter@));
    assert(texts(longer@).last() == last);
}

/// A status is told unless the shell is quiet: the action flush right in twelve columns, not cut where it
/// is longer, one space, and the message.
pub proof fn lemma_told_status(shell: &Shell, action: &str, message: &str, r: Option<String>)
    requires
        call_ensures(Shell::status, (shell, action, message), r),
    ensures
        r is None <==> shell.quiet,
        r matches Some(line) ==> {
            let blank: int = if action@.len() < 12 {
                12 - action@.len()
            } else {
                0
            };
            &&& line@.skip(blank) == action@ + " "@ + message@
            &&& line@.len() == blank + action@.len() + 1 + message@.len()
            &&& forall|i: int| 0 <= i < blank ==> #[trigger] line@[i] == ' '
        },
{
    reveal_strlit(" ");
    if let Some(line) = r {
        let blank: int = if action@.len() < 12 {
            12 - action@.len()
        } else {
            0
        };
        assert(line@.skip(blank) =~= action@ + " "@ + message@);
    }
}

/// A bar is shown only on a terminal of a shell that is not quiet. It counts the objects that were
/// received while some are missing, then the deltas, or the objects where there are none, that were
/// indexed; it is drawn at once when all are there, and shows nothing where there is nothing to count.
pub proof fn lemma_told_progress(
    shell: &Shell,
    shown: bool,
    counts: &TransferCounts,
    r: Option<BarState>,
)
    requires
        call_ensures(Shell::progress, (shell,), shown),
        call_ensures(TransferCounts::update, (counts,), r),
    ensures
        shown <==> shell.terminal && !shell.quiet,
        counts.received_objects < counts.total_objects ==> (r matches Some(bar)
            && bar.phase is Receiving && bar.completed == counts.received_objects && bar.total
            == counts.total_objects && !bar.redraw),
        counts.received_objects >= counts.total_objects && counts.total_deltas > 0 ==> (
        r matches Some(bar) && bar.phase is Indexing && bar.completed == counts.indexed_deltas
            && bar.total == counts.total_deltas && bar.redraw == (counts.indexed_deltas
            == counts.total_deltas)),
        counts.received_objects >= counts.total_objects && counts.total_deltas == 0
            && counts.total_objects > 0 ==> (r matches Some(bar) && bar.phase is Indexing
            && bar.completed == counts.indexed_objects && bar.total == counts.total_objects
            && bar.redraw == (counts.indexed_objects == counts.total_objects)),
        counts.total_objects == 0 && counts.total_deltas == 0 ==> r is None,
{
}

/// The user is told what was done and to how many packages, unless the shell is quiet; before Typst runs
/// nothing is told where there is no package.
pub proof fn lemma_told_result(shell: &Shell, done: &Report, r: Option<String>)
    requires
        call_ensures(report, (shell, done), r),
    ensures
        r is None <==> shell.quiet || (*done matches Report::Ready(count) && count == 0),
        r matches Some(line) ==> match *done {
            Report::Added { name, count } => ends_with(
                line@,
                "Added"@ + " "@ + (name@ + " ("@ + decimal_text(count as nat) + " packages linked)"@),
            ),
            Report::Removed(names) => ends_with(
                line@,
                "Removed"@ + " "@ + joined(texts(names@), ", "@),
            ),
            Report::Synced(count) => ends_with(
                line@,
                "Synced"@ + " "@ + (decimal_text(count as nat) + " packages linked"@),
            ),
            Report::Updated(count) => ends_with(
                line@,
                "Updated"@ + " "@ + (decimal_text(count as nat) + " packages linked"@),
            ),
            Report::Ready(count) => ends_with(
                line@,
                "Ready"@ + " "@ + (decimal_text(count as nat) + " packages"@),
            ),
        },
{
    if let Some(line) = r {
        let action = crate::ops::report_action(*done);
        let all = action + " "@ + crate::ops::report_message(*done);
        assert(line@.skip(line@.len() - all.len()) =~= all);
    }
}

/// A text ends with another.
pub open spec fn ends_with(text: Seq<char>, end: Seq<char>) -> bool {
    end.len() <= text.len() && text.skip(text.len() - end.len()) == end
}

proof fn lemma_offered(native: Seq<Vec<String>>, commands: Seq<Vec<String>>)
    requires
        commands.len() <= usize::MAX,
    ensures
        forall|i: int|
            0 <= i < commands.len() ==> (offered(native, commands).contains(#[trigger] (i as usize))
                <==> is_offered(native, texts(commands[i]@))),
        forall|k: int|
            0 <= k < offered(native, commands).len() ==> #[trigger] offered(native, commands)[k]
                < commands.len(),
        forall|k: int, l: int|
            0 <= k < l < offered(native, commands).len() ==> #[trigger] offered(native, commands)[k]
                < #[trigger] offered(native, commands)[l],
    decreases commands.len(),
{
    let all = offered(native, commands);
    if commands.len() > 0 {
        let shorter = commands.drop_last();
        let front = offered(native, shorter);
        let last = commands.len() - 1;
        lemma_offered(native, shorter);
        assert(commands[last] == commands.last());
        assert forall|i: int| 0 <= i < commands.len() implies (all.contains(
            #[trigger] (i as usize),
        ) <==> is_offered(native, texts(commands[i]@))) by {
            if all != front {
                crate::lists::lemma_push_contains(front, last as usize, i as usize);
            }
            if i < last {
                assert(shorter[i] == commands[i]);
                assert(front.contains(i as usize) <==> is_offered(native, texts(shorter[i]@)));
            } else if front.contains(i as usize) {
                let k = choose|k: int| 0 <= k < front.len() && front[k] == i as usize;
                assert(front[k] < shorter.len());
            }
        }
    } else {
        assert(all =~= Seq::<usize>::empty());
    }
}

/// Of the commands of Typst those are offered, in their order, that have no name or alias in common with
/// the program's own.
pub proof fn lemma_offered_commands(
    native: &Vec<Vec<String>>,
    commands: &Vec<Vec<String>>,
    r: Vec<usize>,
    i: usize,
)
    requires
        call_ensures(command, (native, commands), r),
        i < commands@.len(),
        commands@.len() <= usize::MAX,
    ensures
        r@.contains(i) <==> forall|a: int, b: int|
            0 <= a < commands@[i as int]@.len() && 0 <= b < native@.len() ==> !texts(
                (#[trigger] native@[b])@,
            ).contains((#[trigger] commands@[i as int]@[a])@),
        forall|k: int, l: int| 0 <= k < l < r@.len() ==> #[trigger] r@[k] < #[trigger] r@[l],
        forall|k: int| 0 <= k < r@.len() ==> #[trigger] r@[k] < commands@.len(),
{
    lemma_offered(native@, commands@);
    let names = texts(commands@[i as int]@);
    let k = i as int;
    assert(offered(native@, commands@).contains(k as usize) <==> is_offered(
        native@,
        texts(commands@[k]@),
    ));
    assert(names.len() == commands@[i as int]@.len());
    if is_offered(native@, names) {
        assert forall|a: int, b: int|
            0 <= a < commands@[i as int]@.len() && 0 <= b < native@.len() implies !texts(
            (#[trigger] native@[b])@,
        ).contains((#[trigger] commands@[i as int]@[a])@) by {
            assert(!is_taken(native@, names[a]));
        }
    }
    if forall|a: int, b: int|
        0 <= a < commands@[i as int]@.len() && 0 <= b < native@.len() ==> !texts(
            (#[trigger] native@[b])@,
        ).contains((#[trigger] commands@[i as int]@[a])@) {
        assert forall|a: int| 0 <= a < names.len() implies !is_taken(
            native@,
            #[trigger] names[a],
        ) by {
            assert(names[a] == commands@[i as int]@[a]@);
        }
    }
}

/// Each command asks for its own task, with what was given for it.
pub proof fn lemma_asked_task(given: Command, explicit: bool, r: Task)
    requires
        call_ensures(run, (given, explicit), r),
    ensures
        given matches Command::Add { name, git, path, branch, tag, rev, namespace } ==> (r matches Task::Add(
            options,
        ) && options.name == name && options.dependency.git == git && options.dependency.path
            == path && options.dependency.branch == branch && options.dependency.tag == tag
            && options.dependency.rev == rev && options.dependency.namespace == namespace),
        given matches Command::Remove { names } ==> (r matches Task::Remove(options)
            && options.names == names),
        given is Sync <==> r is Sync,
        given is Update <==> r is Update,
        given is Completions <==> r is Completions,
        given is Typst ==> (r matches Task::Typst { explicit_manifest } && explicit_manifest
            == explicit),
{
}

/// A directory is used only where it is one and no link to one, and a file replaced only where it is a
/// regular one; nothing else is touched. A file that has the contents is not written again, and one
/// that is replaced keeps its permissions.
pub proof fn lemma_left_alone(
    path: &str,
    kind: EntryKind,
    created: bool,
    current: &[u8],
    contents: &[u8],
    directory: Result<(), FileError>,
    file: Result<bool, FileError>,
    made: Result<bool, FileError>,
    written: Result<Replacement, FileError>,
)
    requires
        call_ensures(require_directory_if_present, (path, kind), directory),
        call_ensures(require_regular_file_if_present, (path, kind), file),
        call_ensures(ensure_directory, (path, created, kind), made),
        call_ensures(atomic_write, (path, kind, current, contents), written),
    ensures
        kind is Symlink || kind is Other ==> directory is Err && file is Err && written is Err && (
        !created ==> made is Err),
        kind is File ==> directory is Err && (!created ==> made is Err) && (file matches Ok(present)
            && present),
        kind is Directory ==> directory is Ok && file is Err && written is Err && (made matches Ok(
            fresh,
        ) && fresh == created),
        kind is Missing ==> directory is Ok && (file matches Ok(present) && !present),
        created ==> (made matches Ok(fresh) && fresh),
        kind is File && current@ == contents@ ==> (written matches Ok(Replacement::Unchanged)),
        kind is File && current@ != contents@ ==> (written matches Ok(
            Replacement::Write { keep_permissions, .. },
        ) && keep_permissions),
        kind is Missing ==> (written matches Ok(Replacement::Write { keep_permissions, .. })
            && !keep_permissions),
{
}

/// The file that takes the place of one at an absolute path is made in the same directory.
pub proof fn lemma_made_beside(
    path: &str,
    kind: EntryKind,
    current: &[u8],
    contents: &[u8],
    written: Result<Replacement, FileError>,
)
    requires
        path@.len() > 0 && path@[0] == '/',
        parts_of(path@).len() > 1,
        call_ensures(atomic_write, (path, kind, current, contents), written),
    ensures
        written matches Ok(Replacement::Write { directory, .. }) ==> parts_of(directory@)
            == parts_of(path@).drop_last(),
{
    let all = parts_of(path@);
    let front = all.drop_last();
    crate::path::lemma_absolute_steps(path@);
    assert(all[0] == Part::Root);
    assert(front[0] == all[0]);
    assert(crate::path::is_step(all[all.len() - 1]));
    assert forall|i: int| 1 <= i < front.len() implies crate::path::is_step(#[trigger] front[i]) by {
        assert(front[i] == all[i]);
    }
    crate::laws::paths::lemma_absolute_text(front);
}

/// Packages that depend on themselves, however indirectly, are refused, and a way from one of them back to
/// itself is told, each package by its namespace, name and version and with an edge to the next. How one
/// package reaches another is told by a shortest way.
pub proof fn lemma_told_ways(
    packages: &Packages,
    checked: Result<(), String>,
    from: usize,
    to: usize,
    chain: String,
    way: Seq<nat>,
)
    requires
        call_ensures(Packages::check_cycles, (packages,), checked),
        call_ensures(Packages::dependency_chain, (packages, from, to), chain),
    ensures
        checked is Err <==> exists|start: nat, back: Seq<nat>|
            #[trigger] leads(packages.edges(), start, start, back) && back.len() > 1,
        checked matches Err(text) ==> exists|start: nat, back: Seq<nat>| #[trigger]
            leads(packages.edges(), start, start, back) && back.len() > 1 && text@
                == "dependency cycle: "@ + labels(packages, back),
        leads(packages.edges(), from as nat, to as nat, way) ==> exists|told: Seq<nat>|
            #[trigger] leads(packages.edges(), from as nat, to as nat, told) && told.len()
                <= way.len() && chain@ == labels(packages, told),
{
    let nodes = packages.models();
    let edges = packages.edges();
    if checked is Err {
        assert(tells_cycle(nodes, edges, checked->Err_0@));
        let (start, back) = choose|start: nat, back: Seq<nat>| #[trigger]
            leads(edges, start, start, back) && back.len() > 1 && checked->Err_0@
                == "dependency cycle: "@ + crate::resolver::packages::way_text(nodes, back);
        lemma_labels(packages, back);
    }
    if exists|start: nat, back: Seq<nat>|
        #[trigger] leads(edges, start, start, back) && back.len() > 1 {
        let (start, back) = choose|start: nat, back: Seq<nat>|
            #[trigger] leads(edges, start, start, back) && back.len() > 1;
        let rest = back.skip(1);
        assert(crate::graph::linked(edges, back[0], back[1]));
        assert forall|i: int, j: int| 0 <= i && j == i + 1 && j < rest.len() implies crate::graph::linked(
            edges,
            #[trigger] rest[i],
            #[trigger] rest[j],
        ) by {
            assert(rest[i] == back[i + 1] && rest[j] == back[j + 1]);
        }
        assert(rest.last() == back.last());
        assert(leads(edges, back[1], start, rest));
        assert(crate::graph::reaches(edges, back[1], start));
        assert(crate::graph::on_cycle(edges, start));
    }
    if leads(edges, from as nat, to as nat, way) {
        assert(crate::graph::reaches(edges, from as nat, to as nat));
        assert(tells_way(nodes, edges, from as nat, to as nat, chain@));
        let told = choose|told: Seq<nat>| #[trigger]
            leads(edges, from as nat, to as nat, told) && chain@
                == crate::resolver::packages::way_text(nodes, told) && forall|other: Seq<nat>|
                #[trigger] leads(edges, from as nat, to as nat, other) ==> told.len() <= other.len();
        lemma_labels(packages, told);
    }
}

/// The packages along a way, each by its namespace, name and version.
pub open spec fn labels(packages: &Packages, way: Seq<nat>) -> Seq<char> {
    joined(
        way.map_values(
            |i: nat|
                "@"@ + packages.models()[i as int].namespace + "/"@
                    + packages.models()[i as int].package.name + ":"@
                    + packages.models()[i as int].package.version,
        ),
        " -> "@,
    )
}

proof fn lemma_labels(packages: &Packages, way: Seq<nat>)
    ensures
        labels(packages, way) == crate::resolver::packages::way_text(packages.models(), way),
{
    let nodes = packages.models();
    assert(way.map_values(
        |i: nat|
            "@"@ + packages.models()[i as int].namespace + "/"@
                + packages.models()[i as int].package.name + ":"@
                + packages.models()[i as int].package.version,
    ) =~= way.map_values(|i: nat| crate::resolver::packages::label_of(nodes[i as int])));
}

} // verus!
