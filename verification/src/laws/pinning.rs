//! Pinning: what is written of a resolution, and which pins are whole.

use vstd::prelude::*;

use crate::git::source_id;
use crate::graph::linked;
use crate::laws::declaring::{lemma_may_be_asked, may_be_asked};
use crate::lists::{lemma_all_none, lemma_none_is_some};
use crate::lockfile::{
    commit_name, concatenated, read, source_entry_fault, LockError, LockFault, LockedSource,
    Lockfile,
};
use crate::ordered::Table;
use crate::resolver::packages::{NodeModel, Packages};
use crate::resolver::pins::{
    depends_on_id, distinct_ids, entry_id, entrypoint, keys_match, lemma_pinned_sources,
    package_right, pinned_sources, reached_locally, root_right,
};
use crate::text::texts;

verus! {

broadcast use vstd::string::group_string_axioms;

/// Every character is a hexadecimal digit, in either case.
pub open spec fn hexadecimal(text: Seq<char>) -> bool {
    forall|i: int|
        0 <= i < text.len() ==> ('0' <= #[trigger] text[i] && text[i] <= '9') || ('a' <= text[i]
            && text[i] <= 'f') || ('A' <= text[i] && text[i] <= 'F')
}

/// A package is referred to by a direct dependency or by a pinned package.
pub open spec fn referred(lock: Lockfile, id: Seq<char>) -> bool {
    ||| exists|name: Seq<char>| #[trigger]
        lock.roots@.contains_key(name) && texts(lock.roots@[name]@).contains(id)
    ||| exists|owner: Seq<char>| #[trigger]
        lock.packages@.contains_key(owner) && texts(lock.packages@[owner].dependencies@).contains(id)
}

/// A pinned source may be asked for, stands under its own identity and is pinned to a whole commit.
pub open spec fn source_is_whole(lock: Lockfile, id: Seq<char>) -> bool {
    let pinned = lock.sources@[id]@;
    &&& may_be_asked(pinned.source)
    &&& source_id(pinned.source) == id
    &&& pinned.commit.len() == 40 || pinned.commit.len() == 64
    &&& hexadecimal(pinned.commit)
}

proof fn lemma_commit_name(commit: Seq<char>)
    ensures
        commit_name(commit) <==> (commit.len() == 40 || commit.len() == 64) && hexadecimal(commit),
{
    if commit_name(commit) {
        assert forall|i: int| 0 <= i < commit.len() implies ('0' <= #[trigger] commit[i]
            && commit[i] <= '9') || ('a' <= commit[i] && commit[i] <= 'f') || ('A' <= commit[i]
            && commit[i] <= 'F') by {
            assert(crate::text::is_hex_char(commit[i]));
        }
    }
}

proof fn lemma_source_is_whole(lock: Lockfile, id: Seq<char>)
    ensures
        source_entry_fault(id, lock.sources@[id]@) is None <==> source_is_whole(lock, id),
{
    lemma_may_be_asked(lock.sources@[id]@.source);
    lemma_commit_name(lock.sources@[id]@.commit);
}

proof fn lemma_in_one(lists: Seq<Seq<Seq<char>>>, id: Seq<char>)
    ensures
        concatenated(lists).contains(id) <==> exists|j: int|
            0 <= j < lists.len() && (#[trigger] lists[j]).contains(id),
    decreases lists.len(),
{
    if lists.len() > 0 {
        let front = lists.drop_last();
        let last = lists.len() - 1;
        lemma_in_one(front, id);
        let all = concatenated(lists);
        assert(all == concatenated(front) + lists[last]);
        if concatenated(front).contains(id) {
            let k = choose|k: int| 0 <= k < concatenated(front).len() && concatenated(front)[k] == id;
            assert(all[k] == id);
            let j = choose|j: int| 0 <= j < front.len() && (#[trigger] front[j]).contains(id);
            assert(lists[j].contains(id));
        }
        if lists[last].contains(id) {
            let k = choose|k: int| 0 <= k < lists[last].len() && lists[last][k] == id;
            assert(all[concatenated(front).len() + k] == id);
        }
        if exists|j: int| 0 <= j < lists.len() && (#[trigger] lists[j]).contains(id) {
            let j = choose|j: int| 0 <= j < lists.len() && (#[trigger] lists[j]).contains(id);
            if j < last {
                assert(front[j].contains(id));
            }
        }
    }
}

proof fn lemma_referred(lock: Lockfile, id: Seq<char>)
    requires
        keys_match(lock.packages),
        keys_match(lock.roots),
    ensures
        referred(lock, id) <==> concatenated(lock.root_references()).contains(id) || concatenated(
            lock.package_references(),
        ).contains(id),
{
    let roots = lock.root_references();
    let links = lock.package_references();
    lemma_in_one(roots, id);
    lemma_in_one(links, id);
    if concatenated(roots).contains(id) {
        let j = choose|j: int| 0 <= j < roots.len() && (#[trigger] roots[j]).contains(id);
        let name = lock.roots.keys()[j];
        assert(lock.roots.keys().contains(name));
        assert(lock.roots@.contains_key(name));
    }
    if concatenated(links).contains(id) {
        let j = choose|j: int| 0 <= j < links.len() && (#[trigger] links[j]).contains(id);
        let owner = lock.packages.keys()[j];
        assert(lock.packages.keys().contains(owner));
        assert(lock.packages@.contains_key(owner));
    }
    if exists|name: Seq<char>| #[trigger]
        lock.roots@.contains_key(name) && texts(lock.roots@[name]@).contains(id) {
        let name = choose|name: Seq<char>| #[trigger]
            lock.roots@.contains_key(name) && texts(lock.roots@[name]@).contains(id);
        assert(lock.roots.keys().contains(name));
        let j = choose|j: int| 0 <= j < lock.roots.keys().len() && lock.roots.keys()[j] == name;
        assert(roots[j].contains(id));
    }
    if exists|owner: Seq<char>| #[trigger]
        lock.packages@.contains_key(owner) && texts(lock.packages@[owner].dependencies@).contains(
            id,
        ) {
        let owner = choose|owner: Seq<char>| #[trigger]
            lock.packages@.contains_key(owner) && texts(
                lock.packages@[owner].dependencies@,
            ).contains(id);
        assert(lock.packages.keys().contains(owner));
        let j = choose|j: int|
            0 <= j < lock.packages.keys().len() && lock.packages.keys()[j] == owner;
        assert(links[j].contains(id));
    }
}

/// Pins are accepted exactly where the version of their format is 1, every source is whole, every
/// package is in a pinned source, and every package that is referred to is pinned.
pub proof fn lemma_whole_pins(lock: &Lockfile, r: Result<(), LockError>)
    requires
        call_ensures(Lockfile::validate, (lock,), r),
        keys_match(lock.sources),
        keys_match(lock.packages),
        keys_match(lock.roots),
    ensures
        r is Ok <==> {
            &&& lock.version == 1
            &&& forall|id: Seq<char>| #[trigger]
                lock.sources@.contains_key(id) ==> source_is_whole(*lock, id)
            &&& forall|id: Seq<char>| #[trigger]
                lock.packages@.contains_key(id) ==> lock.sources@.contains_key(
                    lock.packages@[id].source@,
                )
            &&& forall|id: Seq<char>| #[trigger]
                referred(*lock, id) ==> lock.packages@.contains_key(id)
        },
        lock.version != 1 ==> r->Err_0@ == LockFault::Version(lock.version),
{
    let a = lock.source_faults();
    let b = lock.package_faults();
    let roots = concatenated(lock.root_references());
    let links = concatenated(lock.package_references());
    let c = lock.faults_in(roots);
    let d = lock.faults_in(links);
    if r is Ok {
        assert forall|id: Seq<char>| #[trigger] lock.sources@.contains_key(id) implies source_is_whole(
            *lock,
            id,
        ) by {
            assert(lock.sources.keys().contains(id));
            let k = choose|k: int| 0 <= k < lock.sources.keys().len() && lock.sources.keys()[k] == id;
            lemma_none_is_some(a, k);
            assert(a[k] == source_entry_fault(id, lock.sources@[id]@));
            lemma_source_is_whole(*lock, id);
        }
        assert forall|id: Seq<char>| #[trigger]
            lock.packages@.contains_key(id) implies lock.sources@.contains_key(
            lock.packages@[id].source@,
        ) by {
            assert(lock.packages.keys().contains(id));
            let k = choose|k: int|
                0 <= k < lock.packages.keys().len() && lock.packages.keys()[k] == id;
            lemma_none_is_some(b, k);
        }
        assert forall|id: Seq<char>| #[trigger]
            referred(*lock, id) implies lock.packages@.contains_key(id) by {
            lemma_referred(*lock, id);
            if roots.contains(id) {
                let k = choose|k: int| 0 <= k < roots.len() && roots[k] == id;
                lemma_none_is_some(c, k);
                assert(c[k] is None);
            } else {
                let k = choose|k: int| 0 <= k < links.len() && links[k] == id;
                lemma_none_is_some(d, k);
                assert(d[k] is None);
            }
        }
    }
    if {
        &&& lock.version == 1
        &&& forall|id: Seq<char>| #[trigger]
            lock.sources@.contains_key(id) ==> source_is_whole(*lock, id)
        &&& forall|id: Seq<char>| #[trigger]
            lock.packages@.contains_key(id) ==> lock.sources@.contains_key(
                lock.packages@[id].source@,
            )
        &&& forall|id: Seq<char>| #[trigger]
            referred(*lock, id) ==> lock.packages@.contains_key(id)
    } {
        assert forall|k: int| 0 <= k < a.len() implies (#[trigger] a[k]) is None by {
            let id = lock.sources.keys()[k];
            assert(lock.sources.keys().contains(id));
            assert(lock.sources@.contains_key(id));
            lemma_source_is_whole(*lock, id);
        }
        lemma_all_none(a);
        assert forall|k: int| 0 <= k < b.len() implies (#[trigger] b[k]) is None by {
            let id = lock.packages.keys()[k];
            assert(lock.packages.keys().contains(id));
            assert(lock.packages@.contains_key(id));
        }
        lemma_all_none(b);
        assert forall|k: int| 0 <= k < c.len() implies (#[trigger] c[k]) is None by {
            assert(roots.contains(roots[k]));
            lemma_referred(*lock, roots[k]);
        }
        lemma_all_none(c);
        assert forall|k: int| 0 <= k < d.len() implies (#[trigger] d[k]) is None by {
            assert(links.contains(links[k]));
            lemma_referred(*lock, links[k]);
        }
        lemma_all_none(d);
    }
}

/// Pins that were read are given back as they stand, and none were pinned where there is no file.
pub proof fn lemma_read_pins(written: Option<Lockfile>, r: Result<Lockfile, LockError>)
    requires
        call_ensures(read, (written,), r),
    ensures
        written is None ==> (r matches Ok(lock) && lock.version == 1 && lock.sources@.dom()
            == Set::<Seq<char>>::empty() && lock.packages@.dom() == Set::<Seq<char>>::empty()
            && lock.roots@.dom() == Set::<Seq<char>>::empty()),
        written matches Some(lock) ==> (r matches Ok(kept) ==> kept == lock),
        written matches Some(lock) ==> (lock.version != 1 ==> r is Err),
{
}

/// A path goes along edges through packages that are not pinned to one that is.
pub open spec fn first_pinned(
    nodes: Seq<NodeModel>,
    edges: Seq<(nat, nat)>,
    path: Seq<nat>,
    id: Seq<char>,
) -> bool {
    &&& path.len() > 0
    &&& path.last() < nodes.len()
    &&& nodes[path.last() as int].pin is Some
    &&& nodes[path.last() as int].id == id
    &&& forall|i: int, j: int|
        0 <= i && j == i + 1 && j < path.len() ==> nodes[(#[trigger] path[i]) as int].pin is None
            && edges.contains((path[i], #[trigger] path[j]))
}

/// A path begins at a package and goes through packages that are not pinned to one that is.
pub open spec fn pinned_first_from(
    nodes: Seq<NodeModel>,
    edges: Seq<(nat, nat)>,
    root: nat,
    id: Seq<char>,
) -> bool {
    exists|path: Seq<nat>| #[trigger] first_pinned(nodes, edges, path, id) && path[0] == root
}

proof fn lemma_first_pinned(nodes: Seq<NodeModel>, edges: Seq<(nat, nat)>, root: nat, id: Seq<char>)
    ensures
        entry_id(nodes, edges, root, id) <==> pinned_first_from(nodes, edges, root, id),
{
    if entry_id(nodes, edges, root, id) {
        let node = choose|node: nat| #[trigger]
            entrypoint(nodes, edges, root, node) && nodes[node as int].id == id;
        let path = choose|path: Seq<nat>| #[trigger]
            crate::graph::leads(edges, root, node, path)
                && crate::resolver::pins::local_until_end(nodes, path);
        assert forall|i: int, j: int| 0 <= i && j == i + 1 && j < path.len() implies nodes[(
        #[trigger] path[i]) as int].pin is None && edges.contains((path[i], #[trigger] path[j])) by {
            assert(linked(edges, path[i], path[j]));
        }
        assert(first_pinned(nodes, edges, path, id));
    }
    if pinned_first_from(nodes, edges, root, id) {
        let path = choose|path: Seq<nat>| #[trigger]
            first_pinned(nodes, edges, path, id) && path[0] == root;
        assert forall|i: int, j: int| 0 <= i && j == i + 1 && j < path.len() implies linked(
            edges,
            #[trigger] path[i],
            #[trigger] path[j],
        ) by {}
        assert forall|i: int| 0 <= i < path.len() - 1 implies nodes[#[trigger] path[i]
            as int].pin is None by {
            let j = i + 1;
            assert(edges.contains((path[i], path[j])));
        }
        assert(crate::graph::leads(edges, root, path.last(), path));
        assert(reached_locally(nodes, edges, root, path.last()));
        assert(entrypoint(nodes, edges, root, path.last()));
    }
}

/// What is pinned: of each package that has a pin its source, its directory, its name, version and
/// namespace, and the identities of the packages that it has edges to; of no other package anything.
pub proof fn lemma_what_is_pinned(packages: &Packages, direct: &Table<String, usize>, r: Lockfile)
    requires
        call_ensures(Packages::build_lockfile, (packages, direct), r),
        distinct_ids(packages.models()),
    ensures
        r.version == 1,
        forall|i: int|
            0 <= i < packages.models().len() ==> (r.packages@.contains_key(
                (#[trigger] packages.models()[i]).id,
            ) <==> packages.models()[i].pin is Some),
        forall|i: int|
            0 <= i < packages.models().len() && (
            #[trigger] packages.models()[i]).pin is Some ==> {
                let node = packages.models()[i];
                let written = r.packages@[node.id];
                &&& r.sources@.contains_key(node.pin->0.source_id)
                &&& written.source@ == node.pin->0.source_id
                &&& written.directory@ == node.pin->0.directory
                &&& written.name@ == node.package.name
                &&& written.version@ == node.package.version
                &&& written.namespace@ == node.namespace
                &&& forall|id: Seq<char>| #[trigger]
                    texts(written.dependencies@).contains(id) <==> exists|child: nat| #[trigger]
                        packages.edges().contains((i as nat, child))
                            && packages.models()[child as int].id == id
            },
        forall|id: Seq<char>| #[trigger]
            r.packages@.contains_key(id) ==> exists|i: int|
                0 <= i < packages.models().len() && (#[trigger] packages.models()[i]).id == id,
        forall|id: Seq<char>| #[trigger]
            r.sources@.contains_key(id) ==> exists|i: int|
                0 <= i < packages.models().len() && ((
                #[trigger] packages.models()[i]).pin matches Some(pin) && pin.source_id == id
                    && pin.source.source == r.sources@[id].source@ && pin.source.commit
                    == r.sources@[id].commit@),
        forall|name: Seq<char>| #[trigger]
            r.roots@.contains_key(name) ==> r.roots@[name]@.len() > 0,
{
    let nodes = packages.models();
    let edges = packages.edges();
    lemma_pinned_sources(nodes);
    let sources = r.sources@.map_values(|s: LockedSource| s@);
    assert forall|i: int| 0 <= i < nodes.len() implies (r.packages@.contains_key(
        (#[trigger] nodes[i]).id,
    ) <==> nodes[i].pin is Some) by {
        if r.packages@.contains_key(nodes[i].id) {
            let k = choose|k: int|
                0 <= k < nodes.len() && (#[trigger] nodes[k]).pin is Some && nodes[k].id
                    == nodes[i].id;
            assert(k == i);
        }
    }
    assert forall|i: int| 0 <= i < nodes.len() && (#[trigger] nodes[i]).pin is Some implies {
        let node = nodes[i];
        let written = r.packages@[node.id];
        &&& r.sources@.contains_key(node.pin->0.source_id)
        &&& written.source@ == node.pin->0.source_id
        &&& written.directory@ == node.pin->0.directory
        &&& written.name@ == node.package.name
        &&& written.version@ == node.package.version
        &&& written.namespace@ == node.namespace
        &&& forall|id: Seq<char>| #[trigger]
            texts(written.dependencies@).contains(id) <==> exists|child: nat| #[trigger]
                edges.contains((i as nat, child)) && nodes[child as int].id == id
    } by {
        let written = r.packages@[nodes[i].id];
        assert(package_right(nodes, edges, i as nat, written@));
        assert(sources.contains_key(nodes[i].pin->0.source_id));
        assert forall|id: Seq<char>| #[trigger]
            texts(written.dependencies@).contains(id) <==> exists|child: nat| #[trigger]
                edges.contains((i as nat, child)) && nodes[child as int].id == id by {
            assert(texts(written.dependencies@).contains(id) <==> depends_on_id(
                nodes,
                edges,
                i as nat,
                id,
            ));
            if depends_on_id(nodes, edges, i as nat, id) {
                let child = choose|child: nat| #[trigger]
                    linked(edges, i as nat, child) && nodes[child as int].id == id;
                assert(edges.contains((i as nat, child)));
            }
            if exists|child: nat| #[trigger]
                edges.contains((i as nat, child)) && nodes[child as int].id == id {
                let child = choose|child: nat| #[trigger]
                    edges.contains((i as nat, child)) && nodes[child as int].id == id;
                assert(linked(edges, i as nat, child));
            }
        }
    }
    assert forall|id: Seq<char>| #[trigger] r.packages@.contains_key(id) implies exists|i: int|
        0 <= i < nodes.len() && (#[trigger] nodes[i]).id == id by {
        let k = choose|k: int|
            0 <= k < nodes.len() && (#[trigger] nodes[k]).pin is Some && nodes[k].id == id;
        assert(nodes[k].id == id);
    }
    assert forall|id: Seq<char>| #[trigger] r.sources@.contains_key(id) implies exists|i: int|
        0 <= i < nodes.len() && ((#[trigger] nodes[i]).pin matches Some(pin) && pin.source_id == id
            && pin.source.source == r.sources@[id].source@ && pin.source.commit
            == r.sources@[id].commit@) by {
        assert(sources.contains_key(id));
        assert(sources[id] == r.sources@[id]@);
        let k = choose|k: int|
            0 <= k < nodes.len() && (#[trigger] nodes[k]).pin is Some && nodes[k].pin->0.source_id
                == id && nodes[k].pin->0.source == pinned_sources(nodes)[id];
        assert(nodes[k].pin->0.source == r.sources@[id]@);
    }
    assert forall|name: Seq<char>| #[trigger]
        r.roots@.contains_key(name) implies r.roots@[name]@.len() > 0 by {
        let id = choose|id: Seq<char>| #[trigger] entry_id(nodes, edges, direct@[name] as nat, id);
        assert(root_right(nodes, edges, direct@[name] as nat, texts(r.roots@[name]@)));
        assert(texts(r.roots@[name]@).contains(id));
    }
}

/// Of a direct dependency, and of nothing else, the packages are written that are pinned first on the
/// ways from it.
pub proof fn lemma_pinned_of_direct(
    packages: &Packages,
    direct: &Table<String, usize>,
    r: Lockfile,
    name: Seq<char>,
    id: Seq<char>,
)
    requires
        call_ensures(Packages::build_lockfile, (packages, direct), r),
    ensures
        r.roots@.contains_key(name) && texts(r.roots@[name]@).contains(id)
            <==> direct@.contains_key(name) && pinned_first_from(
            packages.models(),
            packages.edges(),
            direct@[name] as nat,
            id,
        ),
{
    let nodes = packages.models();
    let edges = packages.edges();
    lemma_first_pinned(nodes, edges, direct@[name] as nat, id);
    if r.roots@.contains_key(name) {
        assert(root_right(nodes, edges, direct@[name] as nat, texts(r.roots@[name]@)));
        assert(texts(r.roots@[name]@).contains(id) <==> entry_id(
            nodes,
            edges,
            direct@[name] as nat,
            id,
        ));
    }
}

} // verus!
