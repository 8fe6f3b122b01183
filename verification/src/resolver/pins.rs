//! What of a resolution is pinned.

use vstd::prelude::*;

use crate::git::{source_fault, source_id};
use crate::graph::{is_walk, leads, lemma_successors, linked, neighbors, numbers, successors};
use crate::lists::lemma_all_none;
use crate::lockfile::{
    commit_name, LockedPackage, LockedPackageModel, LockedSource, LockedSourceModel, Lockfile,
    FORMAT_VERSION,
};
use crate::ordered::{ascending, key_list, Table};
use crate::resolver::packages::{NodeModel, Packages};
use crate::text::texts;

verus! {

broadcast use vstd::string::group_string_axioms;

/// No two packages are known by the same identity.
pub open spec fn distinct_ids(nodes: Seq<NodeModel>) -> bool {
    forall|i: int, j: int|
        0 <= i < nodes.len() && 0 <= j < nodes.len() && (#[trigger] nodes[i]).id == (
        #[trigger] nodes[j]).id ==> i == j
}

/// The sources of the pinned packages.
pub open spec fn pinned_sources(nodes: Seq<NodeModel>) -> Map<Seq<char>, LockedSourceModel>
    decreases nodes.len(),
{
    if nodes.len() == 0 {
        Map::empty()
    } else {
        let front = pinned_sources(nodes.drop_last());
        match nodes.last().pin {
            Some(pin) => front.insert(pin.source_id, pin.source),
            None => front,
        }
    }
}

/// A package depends on one that is known by an identity.
pub open spec fn depends_on_id(
    nodes: Seq<NodeModel>,
    edges: Seq<(nat, nat)>,
    node: nat,
    id: Seq<char>,
) -> bool {
    exists|child: nat| #[trigger]
        linked(edges, node, child) && nodes[child as int].id == id
}

/// What is written of a pinned package.
pub open spec fn package_right(
    nodes: Seq<NodeModel>,
    edges: Seq<(nat, nat)>,
    node: nat,
    locked: LockedPackageModel,
) -> bool {
    let n = nodes[node as int];
    &&& n.pin is Some
    &&& locked.source == n.pin->0.source_id
    &&& locked.directory == n.pin->0.directory
    &&& locked.name == n.package.name
    &&& locked.version == n.package.version
    &&& locked.namespace == n.namespace
    &&& ascending::<String>(locked.dependencies)
    &&& forall|id: Seq<char>|
        locked.dependencies.contains(id) <==> #[trigger] depends_on_id(nodes, edges, node, id)
}

/// All nodes of a path but the last are not pinned.
pub open spec fn local_until_end(nodes: Seq<NodeModel>, path: Seq<nat>) -> bool {
    forall|i: int| 0 <= i < path.len() - 1 ==> nodes[#[trigger] path[i] as int].pin is None
}

/// A path leads from one node to another through packages that are not pinned.
pub open spec fn reached_locally(
    nodes: Seq<NodeModel>,
    edges: Seq<(nat, nat)>,
    root: nat,
    node: nat,
) -> bool {
    exists|path: Seq<nat>| #[trigger]
        leads(edges, root, node, path) && local_until_end(nodes, path)
}

/// A pinned package that is reached first on the way from a root through packages that are not.
pub open spec fn entrypoint(
    nodes: Seq<NodeModel>,
    edges: Seq<(nat, nat)>,
    root: nat,
    node: nat,
) -> bool {
    &&& node < nodes.len()
    &&& nodes[node as int].pin is Some
    &&& reached_locally(nodes, edges, root, node)
}

/// An identity is that of an entrypoint.
pub open spec fn entry_id(
    nodes: Seq<NodeModel>,
    edges: Seq<(nat, nat)>,
    root: nat,
    id: Seq<char>,
) -> bool {
    exists|node: nat| #[trigger] entrypoint(nodes, edges, root, node) && nodes[node as int].id == id
}

/// How many are not marked.
spec fn unmarked(marks: Seq<bool>) -> nat
    decreases marks.len(),
{
    if marks.len() == 0 {
        0
    } else {
        unmarked(marks.drop_last()) + if marks.last() {
            0nat
        } else {
            1nat
        }
    }
}

/// Marking one leaves one fewer.
proof fn lemma_marked(marks: Seq<bool>, at: int)
    requires
        0 <= at < marks.len(),
        !marks[at],
    ensures
        unmarked(marks.update(at, true)) + 1 == unmarked(marks),
    decreases marks.len(),
{
    let now = marks.update(at, true);
    if at == marks.len() - 1 {
        assert(now.drop_last() =~= marks.drop_last());
    } else {
        assert(now.drop_last() =~= marks.drop_last().update(at, true));
        lemma_marked(marks.drop_last(), at);
    }
}

/// One step further through a package that is not pinned.
proof fn lemma_one_further(
    nodes: Seq<NodeModel>,
    edges: Seq<(nat, nat)>,
    root: nat,
    node: nat,
    child: nat,
)
    requires
        reached_locally(nodes, edges, root, node),
        nodes[node as int].pin is None,
        linked(edges, node, child),
    ensures
        reached_locally(nodes, edges, root, child),
{
    let path = choose|path: Seq<nat>| #[trigger]
        leads(edges, root, node, path) && local_until_end(nodes, path);
    let longer = path.push(child);
    assert forall|i: int, j: int| 0 <= i && j == i + 1 && j < longer.len() implies linked(
        edges,
        #[trigger] longer[i],
        #[trigger] longer[j],
    ) by {
        assert(longer[i] == path[i]);
        if j < path.len() {
            assert(longer[j] == path[j]);
        }
    }
    assert forall|i: int| 0 <= i < longer.len() - 1 implies nodes[#[trigger] longer[i]
        as int].pin is None by {
        assert(longer[i] == path[i]);
    }
    assert(leads(edges, root, child, longer));
}

/// Every node is in a set that holds the first and, with each one that is not pinned, all that it
/// leads to.
proof fn lemma_closed_holds_all(
    nodes: Seq<NodeModel>,
    edges: Seq<(nat, nat)>,
    marks: Seq<bool>,
    path: Seq<nat>,
    k: int,
)
    requires
        is_walk(edges, path),
        local_until_end(nodes, path),
        0 <= k < path.len(),
        path[0] < marks.len(),
        marks[path[0] as int],
        forall|x: nat, y: nat|
            x < marks.len() && marks[x as int] && nodes[x as int].pin is None && #[trigger] linked(
                edges,
                x,
                y,
            ) ==> y < marks.len() && marks[y as int],
    ensures
        path[k] < marks.len(),
        marks[path[k] as int],
    decreases k,
{
    if k > 0 {
        lemma_closed_holds_all(nodes, edges, marks, path, k - 1);
        assert(linked(edges, path[k - 1], path[k]));
    }
}

impl Packages {
    /// The identities of what a package depends on, in order and each once.
    fn dependency_ids(&self, node: usize) -> (r: Vec<String>)
        requires
            self.wf(),
            node < self.models().len(),
        ensures
            ascending::<String>(texts(r@)),
            forall|id: Seq<char>|
                texts(r@).contains(id) <==> #[trigger] depends_on_id(
                    self.models(),
                    self.edges(),
                    node as nat,
                    id,
                ),
    {
        let children = neighbors(&self.graph, node);
        let ghost nodes = self.models();
        let ghost edges = self.edges();
        let ghost list = successors(edges, node as nat);
        let mut table: Table<String, ()> = Table::new();
        let mut i: usize = 0;
        assert(numbers(children@).len() == children@.len());
        while i < children.len()
            invariant
                self.wf(),
                nodes == self.models(),
                edges == self.edges(),
                list == successors(edges, node as nat),
                numbers(children@) == list,
                list.len() == children@.len(),
                i <= children@.len(),
                forall|id: Seq<char>| #[trigger]
                    table@.contains_key(id) <==> exists|k: int|
                        0 <= k < i && nodes[#[trigger] list[k] as int].id == id,
            decreases children@.len() - i,
        {
            let child = children[i];
            proof {
                assert(list[i as int] == child as nat);
                assert(list.contains(child as nat));
                lemma_successors(edges, node as nat, child as nat);
                let e = choose|e: int|
                    0 <= e < edges.len() && edges[e] == (node as nat, child as nat);
                assert(edges[e].1 < nodes.len());
                assert(nodes[child as int] == self.nodes@[child as int]@);
            }
            let ghost before = table@;
            let again = table.insert(self.nodes[child].id.clone(), ());
            proof {
                assert forall|id: Seq<char>| #[trigger]
                    table@.contains_key(id) <==> exists|k: int|
                        0 <= k < i + 1 && nodes[#[trigger] list[k] as int].id == id by {
                    assert(before.contains_key(id) <==> exists|k: int|
                        0 <= k < i && nodes[#[trigger] list[k] as int].id == id);
                    if id == nodes[child as int].id {
                        assert(nodes[list[i as int] as int].id == id);
                    }
                    if exists|k: int| 0 <= k < i + 1 && nodes[#[trigger] list[k] as int].id == id {
                        let k = choose|k: int|
                            0 <= k < i + 1 && nodes[#[trigger] list[k] as int].id == id;
                        if k < i {
                            assert(before.contains_key(id));
                        }
                    }
                }
            }
            i = i + 1;
        }
        let r = key_list(&table);
        proof {
            assert forall|id: Seq<char>|
                texts(r@).contains(id) <==> #[trigger] depends_on_id(
                    nodes,
                    edges,
                    node as nat,
                    id,
                ) by {
                assert(table@.contains_key(id) <==> texts(r@).contains(id));
                if table@.contains_key(id) {
                    let k = choose|k: int|
                        0 <= k < i && nodes[#[trigger] list[k] as int].id == id;
                    assert(list.contains(list[k]));
                    lemma_successors(edges, node as nat, list[k]);
                    assert(linked(edges, node as nat, list[k]));
                }
                if depends_on_id(nodes, edges, node as nat, id) {
                    let child = choose|child: nat| #[trigger]
                        linked(edges, node as nat, child) && nodes[child as int].id == id;
                    lemma_successors(edges, node as nat, child);
                    let k = choose|k: int| 0 <= k < list.len() && list[k] == child;
                    assert(nodes[list[k] as int].id == id);
                }
            }
        }
        r
    }

    /// The identities of the pinned packages that are reached first from a root.
    pub fn lockfile_entrypoints(&self, root: usize) -> (r: Vec<String>)
        requires
            self.wf(),
            root < self.models().len(),
        ensures
            ascending::<String>(texts(r@)),
            forall|id: Seq<char>|
                texts(r@).contains(id) <==> #[trigger] entry_id(
                    self.models(),
                    self.edges(),
                    root as nat,
                    id,
                ),
    {
        let ghost nodes = self.models();
        let ghost edges = self.edges();
        let count = self.nodes.len();
        let mut visited: Vec<bool> = Vec::new();
        while visited.len() < count
            invariant
                visited@.len() <= count,
                forall|i: int| 0 <= i < visited@.len() ==> !#[trigger] visited@[i],
            decreases count - visited@.len(),
        {
            visited.push(false);
        }
        let mut pending: Vec<usize> = Vec::new();
        pending.push(root);
        let mut table: Table<String, ()> = Table::new();
        proof {
            assert(leads(edges, root as nat, root as nat, seq![root as nat]));
            assert(local_until_end(nodes, seq![root as nat]));
            assert(pending@[0] == root);
        }
        while pending.len() > 0
            invariant
                self.wf(),
                nodes == self.models(),
                edges == self.edges(),
                count == nodes.len(),
                count == self.nodes@.len(),
                visited@.len() == count,
                root < count,
                forall|k: int| 0 <= k < pending@.len() ==> #[trigger] pending@[k] < count,
                forall|k: int|
                    0 <= k < pending@.len() ==> reached_locally(
                        nodes,
                        edges,
                        root as nat,
                        #[trigger] pending@[k] as nat,
                    ),
                forall|x: nat|
                    x < count && #[trigger] visited@[x as int] ==> reached_locally(
                        nodes,
                        edges,
                        root as nat,
                        x,
                    ),
                visited@[root as int] || pending@.contains(root),
                forall|x: nat, y: nat|
                    x < count && visited@[x as int] && nodes[x as int].pin is None && #[trigger]
                    linked(edges, x, y) ==> y < count && (visited@[y as int] || pending@.contains(
                        y as usize,
                    )),
                forall|id: Seq<char>| #[trigger]
                    table@.contains_key(id) <==> exists|x: nat|
                        x < count && #[trigger] visited@[x as int] && nodes[x as int].pin is Some
                            && nodes[x as int].id == id,
            decreases unmarked(visited@), pending@.len(),
        {
            let ghost waiting = pending@;
            let ghost marks = visited@;
            let index = match pending.pop() {
                Some(index) => index,
                None => root,
            };
            proof {
                assert(index == waiting.last());
                assert(waiting[waiting.len() - 1] == index);
                assert(forall|k: int| 0 <= k < pending@.len() ==> pending@[k] == waiting[k]);
                assert forall|y: usize| waiting.contains(y) implies y == index
                    || pending@.contains(y) by {
                    let k = choose|k: int| 0 <= k < waiting.len() && waiting[k] == y;
                    if k < pending@.len() {
                        assert(pending@[k] == y);
                    }
                }
            }
            if !visited[index] {
                proof {
                    lemma_marked(visited@, index as int);
                }
                visited.set(index, true);
                let node = &self.nodes[index];
                assert(nodes[index as int] == node@);
                if node.pin.is_some() {
                    let ghost before = table@;
                    let again = table.insert(node.id.clone(), ());
                    proof {
                        assert forall|id: Seq<char>| #[trigger]
                            table@.contains_key(id) <==> exists|x: nat|
                                x < count && #[trigger] visited@[x as int] && nodes[x as int].pin is Some
                                    && nodes[x as int].id == id by {
                            assert(before.contains_key(id) <==> exists|x: nat|
                                x < count && #[trigger] marks[x as int] && nodes[x as int].pin is Some
                                    && nodes[x as int].id == id);
                            if before.contains_key(id) {
                                let x = choose|x: nat|
                                    x < count && #[trigger] marks[x as int]
                                        && nodes[x as int].pin is Some && nodes[x as int].id == id;
                                assert(visited@[x as int]);
                            }
                            if id == nodes[index as int].id {
                                assert(visited@[(index as nat) as int]);
                            }
                            if exists|x: nat|
                                x < count && #[trigger] visited@[x as int]
                                    && nodes[x as int].pin is Some && nodes[x as int].id == id {
                                let x = choose|x: nat|
                                    x < count && #[trigger] visited@[x as int]
                                        && nodes[x as int].pin is Some && nodes[x as int].id == id;
                                if x != index as nat {
                                    assert(marks[x as int]);
                                }
                            }
                        }
                    }
                } else {
                    let children = neighbors(&self.graph, index);
                    let ghost list = successors(edges, index as nat);
                    let ghost rest = pending@;
                    let mut i: usize = 0;
                    assert(numbers(children@).len() == children@.len());
                    while i < children.len()
                        invariant
                            self.wf(),
                            nodes == self.models(),
                            edges == self.edges(),
                            count == nodes.len(),
                            index < count,
                            nodes[index as int].pin is None,
                            reached_locally(nodes, edges, root as nat, index as nat),
                            list == successors(edges, index as nat),
                            numbers(children@) == list,
                            list.len() == children@.len(),
                            i <= children@.len(),
                            forall|k: int|
                                0 <= k < pending@.len() ==> #[trigger] pending@[k] < count,
                            forall|k: int|
                                0 <= k < pending@.len() ==> reached_locally(
                                    nodes,
                                    edges,
                                    root as nat,
                                    #[trigger] pending@[k] as nat,
                                ),
                            forall|y: usize| #[trigger] rest.contains(y) ==> pending@.contains(y),
                            forall|k: int|
                                0 <= k < i ==> pending@.contains(#[trigger] children@[k]),
                        decreases children@.len() - i,
                    {
                        let child = children[i];
                        let ghost before = pending@;
                        proof {
                            assert(list[i as int] == child as nat);
                            assert(list.contains(child as nat));
                            lemma_successors(edges, index as nat, child as nat);
                            let e = choose|e: int|
                                0 <= e < edges.len() && edges[e] == (index as nat, child as nat);
                            assert(edges[e].1 < nodes.len());
                            lemma_one_further(
                                nodes,
                                edges,
                                root as nat,
                                index as nat,
                                child as nat,
                            );
                        }
                        pending.push(child);
                        proof {
                            assert forall|y: usize| #[trigger]
                                before.contains(y) implies pending@.contains(y) by {
                                let k = choose|k: int| 0 <= k < before.len() && before[k] == y;
                                assert(pending@[k] == y);
                            }
                            assert(pending@[before.len() as int] == child);
                        }
                        i = i + 1;
                    }
                    proof {
                        assert forall|x: nat, y: nat|
                            x < count && visited@[x as int] && nodes[x as int].pin is None
                                && #[trigger] linked(edges, x, y) implies y < count && (
                        visited@[y as int] || pending@.contains(y as usize)) by {
                            if x == index as nat {
                                lemma_successors(edges, x, y);
                                let k = choose|k: int| 0 <= k < list.len() && list[k] == y;
                                assert(numbers(children@)[k] == children@[k] as nat);
                                assert(pending@.contains(children@[k]));
                                let e = choose|e: int| 0 <= e < edges.len() && edges[e] == (x, y);
                                assert(edges[e].1 < nodes.len());
                            } else {
                                assert(marks[x as int]);
                                assert(y < count && (marks[y as int] || waiting.contains(
                                    y as usize,
                                )));
                                if waiting.contains(y as usize) && y != index as nat {
                                    assert(rest.contains(y as usize));
                                }
                            }
                        }
                        assert forall|id: Seq<char>| #[trigger]
                            table@.contains_key(id) <==> exists|x: nat|
                                x < count && #[trigger] visited@[x as int] && nodes[x as int].pin is Some
                                    && nodes[x as int].id == id by {
                            assert(table@.contains_key(id) <==> exists|x: nat|
                                x < count && #[trigger] marks[x as int] && nodes[x as int].pin is Some
                                    && nodes[x as int].id == id);
                            if table@.contains_key(id) {
                                let x = choose|x: nat|
                                    x < count && #[trigger] marks[x as int]
                                        && nodes[x as int].pin is Some && nodes[x as int].id == id;
                                assert(visited@[x as int]);
                            }
                            if exists|x: nat|
                                x < count && #[trigger] visited@[x as int]
                                    && nodes[x as int].pin is Some && nodes[x as int].id == id {
                                let x = choose|x: nat|
                                    x < count && #[trigger] visited@[x as int]
                                        && nodes[x as int].pin is Some && nodes[x as int].id == id;
                                assert(marks[x as int]);
                            }
                        }
                    }
                }
            }
        }
        let r = key_list(&table);
        proof {
            assert forall|id: Seq<char>|
                texts(r@).contains(id) <==> #[trigger] entry_id(
                    nodes,
                    edges,
                    root as nat,
                    id,
                ) by {
                assert(table@.contains_key(id) <==> texts(r@).contains(id));
                if table@.contains_key(id) {
                    let x = choose|x: nat|
                        x < count && #[trigger] visited@[x as int] && nodes[x as int].pin is Some
                            && nodes[x as int].id == id;
                    assert(entrypoint(nodes, edges, root as nat, x));
                }
                if entry_id(nodes, edges, root as nat, id) {
                    let x = choose|x: nat| #[trigger]
                        entrypoint(nodes, edges, root as nat, x) && nodes[x as int].id == id;
                    let path = choose|path: Seq<nat>| #[trigger]
                        leads(edges, root as nat, x, path) && local_until_end(nodes, path);
                    lemma_closed_holds_all(nodes, edges, visited@, path, path.len() - 1);
                    assert(visited@[x as int]);
                }
            }
        }
        r
    }
}

/// The source that is pinned under an identity is that of a pinned package, and every pinned
/// package's source is there.
pub proof fn lemma_pinned_sources(nodes: Seq<NodeModel>)
    ensures
        forall|id: Seq<char>| #[trigger]
            pinned_sources(nodes).contains_key(id) ==> exists|i: int|
                0 <= i < nodes.len() && (#[trigger] nodes[i]).pin is Some && nodes[i].pin->0.source_id
                    == id && nodes[i].pin->0.source == pinned_sources(nodes)[id],
        forall|i: int|
            0 <= i < nodes.len() && (#[trigger] nodes[i]).pin is Some ==> pinned_sources(
                nodes,
            ).contains_key(nodes[i].pin->0.source_id),
    decreases nodes.len(),
{
    if nodes.len() > 0 {
        let front = nodes.drop_last();
        lemma_pinned_sources(front);
        let last = nodes.len() - 1;
        assert forall|id: Seq<char>| #[trigger] pinned_sources(nodes).contains_key(id) implies exists|
            i: int,
        |
            0 <= i < nodes.len() && (#[trigger] nodes[i]).pin is Some && nodes[i].pin->0.source_id
                == id && nodes[i].pin->0.source == pinned_sources(nodes)[id] by {
            if nodes[last].pin is Some && nodes[last].pin->0.source_id == id {
                assert(nodes[last].pin->0.source == pinned_sources(nodes)[id]);
            } else {
                assert(pinned_sources(front).contains_key(id));
                let i = choose|i: int|
                    0 <= i < front.len() && (#[trigger] front[i]).pin is Some
                        && front[i].pin->0.source_id == id && front[i].pin->0.source
                        == pinned_sources(front)[id];
                assert(nodes[i] == front[i]);
            }
        }
        assert forall|i: int|
            0 <= i < nodes.len() && (#[trigger] nodes[i]).pin is Some implies pinned_sources(
            nodes,
        ).contains_key(nodes[i].pin->0.source_id) by {
            if i < last {
                assert(front[i] == nodes[i]);
            }
        }
    }
}

/// The pin of a package, if it has one, is of a source that Git can be asked for, under its identity,
/// at a commit.
pub open spec fn pin_valid(node: NodeModel) -> bool {
    node.pin matches Some(pin) ==> {
        &&& source_fault(pin.source.source) is None
        &&& source_id(pin.source.source) == pin.source_id
        &&& commit_name(pin.source.commit)
    }
}

/// The pins of the packages are valid.
pub open spec fn pins_valid(nodes: Seq<NodeModel>) -> bool {
    forall|i: int| 0 <= i < nodes.len() ==> pin_valid(#[trigger] nodes[i])
}

/// What is written of the pinned packages is right.
pub open spec fn packages_right(
    nodes: Seq<NodeModel>,
    edges: Seq<(nat, nat)>,
    packages: Map<Seq<char>, LockedPackage>,
) -> bool {
    &&& forall|id: Seq<char>| #[trigger] packages.contains_key(id) ==> pinned_id(nodes, id)
    &&& forall|i: int|
        0 <= i < nodes.len() && (#[trigger] nodes[i]).pin is Some ==> packages.contains_key(
            nodes[i].id,
        ) && package_right(nodes, edges, i as nat, packages[nodes[i].id]@)
}

/// An identity is that of a pinned package.
pub open spec fn pinned_id(nodes: Seq<NodeModel>, id: Seq<char>) -> bool {
    exists|i: int| 0 <= i < nodes.len() && (#[trigger] nodes[i]).pin is Some && nodes[i].id == id
}

/// What is written of the direct dependencies is right.
pub open spec fn roots_right(
    nodes: Seq<NodeModel>,
    edges: Seq<(nat, nat)>,
    direct: Map<Seq<char>, usize>,
    roots: Map<Seq<char>, Vec<String>>,
) -> bool {
    &&& forall|name: Seq<char>| #[trigger]
        roots.contains_key(name) <==> direct.contains_key(name) && exists|id: Seq<char>| #[trigger]
            entry_id(nodes, edges, direct[name] as nat, id)
    &&& forall|name: Seq<char>| #[trigger]
        roots.contains_key(name) ==> root_right(
            nodes,
            edges,
            direct[name] as nat,
            texts(roots[name]@),
        )
}

/// What is written of a direct dependency is right.
pub open spec fn root_right(
    nodes: Seq<NodeModel>,
    edges: Seq<(nat, nat)>,
    root: nat,
    entries: Seq<Seq<char>>,
) -> bool {
    &&& ascending::<String>(entries)
    &&& forall|id: Seq<char>|
        entries.contains(id) <==> #[trigger] entry_id(nodes, edges, root, id)
}

/// The keys of a table are those of its map.
pub open spec fn keys_match<V>(table: Table<String, V>) -> bool {
    forall|k: Seq<char>| table@.contains_key(k) <==> #[trigger] table.keys().contains(k)
}

/// What stands in lists one after the other stands in one of them.
proof fn lemma_concatenated(lists: Seq<Seq<Seq<char>>>, i: int) -> (j: int)
    requires
        0 <= i < crate::lockfile::concatenated(lists).len(),
    ensures
        0 <= j < lists.len(),
        lists[j].contains(crate::lockfile::concatenated(lists)[i]),
    decreases lists.len(),
{
    let all = crate::lockfile::concatenated(lists);
    let front = crate::lockfile::concatenated(lists.drop_last());
    if i < front.len() {
        let j = lemma_concatenated(lists.drop_last(), i);
        assert(all[i] == front[i]);
        assert(lists.drop_last()[j] == lists[j]);
        j
    } else {
        let j = lists.len() - 1;
        assert(all[i] == lists[j][i - front.len()]);
        j
    }
}

/// Pins that are written right, of packages whose pins are in order and rest only on what is
/// pinned, are whole.
pub proof fn lemma_written_pins_are_whole(
    nodes: Seq<NodeModel>,
    edges: Seq<(nat, nat)>,
    direct: Map<Seq<char>, usize>,
    lock: Lockfile,
)
    requires
        lock.version == FORMAT_VERSION,
        lock.sources@.map_values(|s: LockedSource| s@) == pinned_sources(nodes),
        packages_right(nodes, edges, lock.packages@),
        roots_right(nodes, edges, direct, lock.roots@),
        crate::resolver::packages::edges_within(edges, nodes.len()),
        crate::resolver::visit::pins_closed(nodes, edges),
        pins_valid(nodes),
        keys_match(lock.sources),
        keys_match(lock.packages),
        keys_match(lock.roots),
    ensures
        lock.fault() is None,
{
    lemma_pinned_sources(nodes);
    let sources = lock.sources@.map_values(|s: LockedSource| s@);
    let faults = lock.source_faults();
    assert forall|i: int| 0 <= i < faults.len() implies (#[trigger] faults[i]) is None by {
        let id = lock.sources.keys()[i];
        assert(lock.sources.keys().contains(id));
        assert(sources.contains_key(id));
        assert(sources[id] == lock.sources@[id]@);
        let k = choose|k: int|
            0 <= k < nodes.len() && (#[trigger] nodes[k]).pin is Some && nodes[k].pin->0.source_id
                == id && nodes[k].pin->0.source == pinned_sources(nodes)[id];
        assert(nodes[k].pin->0.source == lock.sources@[id]@);
    }
    lemma_all_none(faults);
    let broken = lock.package_faults();
    assert forall|i: int| 0 <= i < broken.len() implies (#[trigger] broken[i]) is None by {
        let id = lock.packages.keys()[i];
        assert(lock.packages.keys().contains(id));
        assert(lock.packages@.contains_key(id));
        let k = choose|k: int|
            0 <= k < nodes.len() && (#[trigger] nodes[k]).pin is Some && nodes[k].id == id;
        assert(package_right(nodes, edges, k as nat, lock.packages@[id]@));
        assert(sources.contains_key(nodes[k].pin->0.source_id));
    }
    lemma_all_none(broken);
    let roots = lock.root_references();
    let from_roots = lock.faults_in(crate::lockfile::concatenated(roots));
    assert forall|i: int| 0 <= i < from_roots.len() implies (#[trigger] from_roots[i]) is None by {
        let id = crate::lockfile::concatenated(roots)[i];
        let j = lemma_concatenated(roots, i);
        let name = lock.roots.keys()[j];
        assert(lock.roots.keys().contains(name));
        assert(lock.roots@.contains_key(name));
        assert(root_right(nodes, edges, direct[name] as nat, texts(lock.roots@[name]@)));
        assert(entry_id(nodes, edges, direct[name] as nat, id));
        let node = choose|node: nat| #[trigger]
            entrypoint(nodes, edges, direct[name] as nat, node) && nodes[node as int].id == id;
        assert(nodes[node as int].pin is Some);
        assert(lock.packages@.contains_key(id));
    }
    lemma_all_none(from_roots);
    let links = lock.package_references();
    let from_links = lock.faults_in(crate::lockfile::concatenated(links));
    assert forall|i: int| 0 <= i < from_links.len() implies (#[trigger] from_links[i]) is None by {
        let id = crate::lockfile::concatenated(links)[i];
        let j = lemma_concatenated(links, i);
        let owner = lock.packages.keys()[j];
        assert(lock.packages.keys().contains(owner));
        assert(lock.packages@.contains_key(owner));
        let k = choose|k: int|
            0 <= k < nodes.len() && (#[trigger] nodes[k]).pin is Some && nodes[k].id == owner;
        assert(package_right(nodes, edges, k as nat, lock.packages@[owner]@));
        assert(depends_on_id(nodes, edges, k as nat, id));
        let child = choose|child: nat| #[trigger]
            linked(edges, k as nat, child) && nodes[child as int].id == id;
        let e = choose|e: int| 0 <= e < edges.len() && edges[e] == (k as nat, child);
        assert(nodes[edges[e].1 as int].pin is Some);
        assert(nodes[child as int].pin is Some);
        assert(lock.packages@.contains_key(id));
    }
    lemma_all_none(from_links);
}

impl Packages {
    /// What is written of a pinned package.
    fn locked_package(&self, index: usize) -> (r: LockedPackage)
        requires
            self.wf(),
            index < self.models().len(),
            self.models()[index as int].pin is Some,
        ensures
            package_right(self.models(), self.edges(), index as nat, r@),
    {
        let node = &self.nodes[index];
        assert(self.models()[index as int] == node@);
        let dependencies = self.dependency_ids(index);
        let empty = String::new();
        let (source, directory) = match &node.pin {
            Some(pin) => (pin.source_id.clone(), pin.directory.clone()),
            None => (empty.clone(), empty),
        };
        LockedPackage {
            source,
            directory,
            name: node.package.name.clone(),
            version: node.package.version.clone(),
            namespace: node.namespace.clone(),
            dependencies,
        }
    }

    /// The pins of the packages.
    pub fn build_lockfile(&self, direct: &Table<String, usize>) -> (r: Lockfile)
        requires
            self.wf(),
            distinct_ids(self.models()),
            forall|name: Seq<char>| #[trigger]
                direct@.contains_key(name) ==> direct@[name] < self.models().len(),
        ensures
            r.version == FORMAT_VERSION,
            r.sources@.map_values(|s: LockedSource| s@) == pinned_sources(self.models()),
            packages_right(self.models(), self.edges(), r.packages@),
            roots_right(self.models(), self.edges(), direct@, r.roots@),
            crate::resolver::visit::pins_closed(self.models(), self.edges()) && pins_valid(
                self.models(),
            ) ==> r.fault() is None,
    {
        let mut lock = Lockfile::default();
        let ghost nodes = self.models();
        let ghost edges = self.edges();
        let mut i: usize = 0;
        proof {
            assert(nodes.take(0) =~= Seq::<NodeModel>::empty());
            assert(lock.sources@.map_values(|s: LockedSource| s@) =~= Map::empty());
        }
        while i < self.nodes.len()
            invariant
                self.wf(),
                nodes == self.models(),
                edges == self.edges(),
                nodes.len() == self.nodes@.len(),
                distinct_ids(nodes),
                i <= self.nodes@.len(),
                lock.version == FORMAT_VERSION,
                lock.roots@ == Map::<Seq<char>, Vec<String>>::empty(),
                lock.sources@.map_values(|s: LockedSource| s@) == pinned_sources(
                    nodes.take(i as int),
                ),
                forall|id: Seq<char>| #[trigger]
                    lock.packages@.contains_key(id) ==> exists|k: int|
                        0 <= k < i && (#[trigger] nodes[k]).pin is Some && nodes[k].id == id,
                forall|k: int|
                    0 <= k < i && (#[trigger] nodes[k]).pin is Some ==> lock.packages@.contains_key(
                        nodes[k].id,
                    ) && package_right(nodes, edges, k as nat, lock.packages@[nodes[k].id]@),
            decreases self.nodes@.len() - i,
        {
            let node = &self.nodes[i];
            proof {
                assert(nodes[i as int] == node@);
                assert(nodes.take(i + 1).drop_last() =~= nodes.take(i as int));
                assert(nodes.take(i + 1).last() == nodes[i as int]);
            }
            match &node.pin {
                Some(pin) => {
                    let ghost before = lock.sources@;
                    let ghost known = lock.packages@;
                    let again = lock.sources.insert(pin.source_id.clone(), pin.source.clone());
                    assert(lock.sources@.map_values(|s: LockedSource| s@) =~= before.map_values(
                        |s: LockedSource| s@,
                    ).insert(pin@.source_id, pin@.source));
                    let package = self.locked_package(i);
                    let ghost written = package@;
                    let replaced = lock.packages.insert(node.id.clone(), package);
                    proof {
                        let now = lock.packages@;
                        assert forall|id: Seq<char>| #[trigger]
                            now.contains_key(id) implies exists|k: int|
                            0 <= k < i + 1 && (#[trigger] nodes[k]).pin is Some && nodes[k].id == id by {
                            if id == node@.id {
                                assert(nodes[i as int].id == id);
                            } else {
                                assert(known.contains_key(id));
                                let k = choose|k: int|
                                    0 <= k < i && (#[trigger] nodes[k]).pin is Some && nodes[k].id
                                        == id;
                                assert(nodes[k].id == id);
                            }
                        }
                        assert forall|k: int|
                            0 <= k < i + 1 && (
                            #[trigger] nodes[k]).pin is Some implies now.contains_key(nodes[k].id)
                            && package_right(nodes, edges, k as nat, now[nodes[k].id]@) by {
                            if k < i {
                                assert(nodes[k].id != nodes[i as int].id);
                            }
                        }
                    }
                },
                None => {},
            }
            i = i + 1;
        }
        assert(nodes.take(i as int) =~= nodes);
        self.write_roots(&mut lock, direct);
        let source_count = lock.sources.len();
        let package_count = lock.packages.len();
        let root_count = lock.roots.len();
        proof {
            if crate::resolver::visit::pins_closed(nodes, edges) && pins_valid(nodes) {
                lemma_written_pins_are_whole(nodes, edges, direct@, lock);
            }
        }
        lock
    }

    /// Writes what the direct dependencies reach first.
    fn write_roots(&self, lock: &mut Lockfile, direct: &Table<String, usize>)
        requires
            self.wf(),
            old(lock).roots@ == Map::<Seq<char>, Vec<String>>::empty(),
            forall|name: Seq<char>| #[trigger]
                direct@.contains_key(name) ==> direct@[name] < self.models().len(),
        ensures
            final(lock).version == old(lock).version,
            final(lock).sources == old(lock).sources,
            final(lock).packages == old(lock).packages,
            roots_right(self.models(), self.edges(), direct@, final(lock).roots@),
    {
        let ghost nodes = self.models();
        let ghost edges = self.edges();
        let count = direct.len();
        let ghost keys = direct.keys();
        let mut i: usize = 0;
        while i < count
            invariant
                self.wf(),
                nodes == self.models(),
                edges == self.edges(),
                keys == direct.keys(),
                count == keys.len(),
                keys.no_duplicates(),
                i <= count,
                lock.version == old(lock).version,
                lock.sources == old(lock).sources,
                lock.packages == old(lock).packages,
                forall|name: Seq<char>| #[trigger]
                    direct@.contains_key(name) ==> direct@[name] < self.models().len(),
                forall|name: Seq<char>| #[trigger]
                    lock.roots@.contains_key(name) <==> (exists|k: int|
                        0 <= k < i && #[trigger] keys[k] == name) && exists|id: Seq<char>| #[trigger]
                        entry_id(nodes, edges, direct@[name] as nat, id),
                forall|name: Seq<char>| #[trigger]
                    lock.roots@.contains_key(name) ==> root_right(
                        nodes,
                        edges,
                        direct@[name] as nat,
                        texts(lock.roots@[name]@),
                    ),
            decreases count - i,
        {
            let name = direct.key_at(i);
            let root = *direct.value_at(i);
            let entries = self.lockfile_entrypoints(root);
            let ghost before = lock.roots@;
            let ghost listed = texts(entries@);
            if entries.len() > 0 {
                proof {
                    assert(listed[0] == entries@[0]@);
                    assert(listed.contains(entries@[0]@));
                    assert(entry_id(nodes, edges, root as nat, entries@[0]@));
                }
                let again = lock.roots.insert(name.clone(), entries);
            } else {
                assert(listed =~= Seq::<Seq<char>>::empty());
                assert forall|id: Seq<char>| !#[trigger] entry_id(
                    nodes,
                    edges,
                    root as nat,
                    id,
                ) by {
                    assert(!listed.contains(id));
                }
            }
            proof {
                let now = lock.roots@;
                assert forall|other: Seq<char>| #[trigger]
                    now.contains_key(other) <==> (exists|k: int|
                        0 <= k < i + 1 && #[trigger] keys[k] == other) && exists|id: Seq<char>|
                    #[trigger]
                        entry_id(nodes, edges, direct@[other] as nat, id) by {
                    assert(before.contains_key(other) <==> (exists|k: int|
                        0 <= k < i && #[trigger] keys[k] == other) && exists|id: Seq<char>|
                        #[trigger]
                            entry_id(nodes, edges, direct@[other] as nat, id));
                    if other == name@ {
                        assert(keys[i as int] == other);
                    } else {
                        if exists|k: int| 0 <= k < i + 1 && #[trigger] keys[k] == other {
                            let k = choose|k: int| 0 <= k < i + 1 && #[trigger] keys[k] == other;
                            assert(k < i);
                        }
                        if exists|k: int| 0 <= k < i && #[trigger] keys[k] == other {
                            let k = choose|k: int| 0 <= k < i && #[trigger] keys[k] == other;
                            assert(keys[k] == other);
                        }
                    }
                }
            }
            i = i + 1;
        }
        proof {
            assert forall|name: Seq<char>| #[trigger]
                lock.roots@.contains_key(name) <==> direct@.contains_key(name) && exists|
                    id: Seq<char>,
                | #[trigger]
                    entry_id(nodes, edges, direct@[name] as nat, id) by {
                assert(direct@.contains_key(name) <==> keys.contains(name));
                if keys.contains(name) {
                    let k = choose|k: int| 0 <= k < keys.len() && keys[k] == name;
                    assert(keys[k] == name);
                }
            }
        }
    }
}

} // verus!
