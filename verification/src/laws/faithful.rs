//! Faithful: what a whole walk finds is what the project and its packages declare.

use vstd::prelude::*;

use crate::graph::{leads, linked, reaches};
use crate::laws::declaring::is_shared;
use crate::laws::importing::lemma_reached_is_imported;
use crate::laws::locating::{lemma_digest_of, text_fits};
use crate::manifest::{DependencyModel, Manifest};
use crate::package::Package;
use crate::resolver::packages::{NodeModel, PackageNode};
use crate::resolver::visit::{
    attached, complete, found_node, fresh_frame, settled, FrameModel, ResolveError, Resolver,
    WalkModel,
};
use crate::resolver::Resolution;
use crate::sources::{source_states, PackageIdentity};
use crate::text::texts;

verus! {

broadcast use vstd::string::group_string_axioms;

/// What a project or a package declares: names in their order, and what stands under each.
pub struct Declared {
    pub names: Seq<Seq<char>>,
    pub dependencies: Map<Seq<char>, DependencyModel>,
}

/// A package has the name and the namespace that were declared.
pub open spec fn fits(node: NodeModel, name: Seq<char>, dependency: DependencyModel) -> bool {
    node.package.name == name && node.namespace == dependency.namespace
}

/// What the list of a package, or of the project, was made from.
pub open spec fn declared_by(
    told: Map<nat, Declared>,
    project: Declared,
    node: Option<nat>,
) -> Declared {
    match node {
        Some(i) => told[i],
        None => project,
    }
}

/// What was gone through of a list so far is linked to a package that fits.
pub open spec fn child_fits(m: WalkModel, list: FrameModel, of: Declared, j: int) -> bool {
    &&& list.children[j] < m.nodes.len()
    &&& fits(m.nodes[list.children[j] as int], of.names[j], of.dependencies[of.names[j]])
    &&& match list.node {
        Some(i) => m.edges.contains((i, list.children[j])),
        None => m.direct.contains_key(of.names[j]) && m.direct[of.names[j]] == list.children[j],
    }
}

/// A list is of what was declared, and so far linked to what fits.
pub open spec fn list_fits(
    m: WalkModel,
    told: Map<nat, Declared>,
    project: Declared,
    list: FrameModel,
) -> bool {
    let of = declared_by(told, project, list.node);
    &&& list.node matches Some(i) ==> told.contains_key(i)
    &&& list.names == of.names
    &&& list.dependencies == of.names.map_values(|name: Seq<char>| of.dependencies[name])
    &&& list.children.len() <= of.names.len()
    &&& forall|j: int| 0 <= j < list.children.len() ==> #[trigger] child_fits(m, list, of, j)
}

/// A package fits what a list asks for next.
pub open spec fn next_fits(m: WalkModel, list: FrameModel, node: nat) -> bool {
    let at = list.children.len() as int;
    &&& !complete(list)
    &&& node < m.nodes.len()
    &&& fits(m.nodes[node as int], list.names[at], list.dependencies[at])
}

/// A package has an edge to one that fits a name it declares.
pub open spec fn has_child(m: WalkModel, node: nat, name: Seq<char>, dependency: DependencyModel) -> bool {
    exists|child: nat| #[trigger]
        m.edges.contains((node, child)) && child < m.nodes.len() && fits(
            m.nodes[child as int],
            name,
            dependency,
        )
}

/// A package has an edge for everything that it declares.
pub open spec fn all_linked(m: WalkModel, told: Map<nat, Declared>, node: nat) -> bool {
    forall|j: int|
        0 <= j < told[node].names.len() ==> has_child(
            m,
            node,
            #[trigger] told[node].names[j],
            told[node].dependencies[told[node].names[j]],
        )
}

/// The list of a package is being gone through.
pub open spec fn is_open(m: WalkModel, node: nat) -> bool {
    exists|k: int| 0 <= k < m.stack.len() && (#[trigger] m.stack[k]).node == Some(node)
}

/// An edge leads from a package to one that fits something it declares.
pub open spec fn edge_fits(m: WalkModel, told: Map<nat, Declared>, edge: (nat, nat)) -> bool {
    &&& told.contains_key(edge.0)
    &&& edge.1 < m.nodes.len()
    &&& exists|j: int|
        0 <= j < told[edge.0].names.len() && fits(
            m.nodes[edge.1 as int],
            #[trigger] told[edge.0].names[j],
            told[edge.0].dependencies[told[edge.0].names[j]],
        )
}

/// A walk holds what was declared so far: every list is of what its package or the project declared,
/// everything gone through is linked to a package that fits, and nothing else is linked. `told` is what
/// the packages declared whose dependencies were read.
pub open spec fn faithful(m: WalkModel, told: Map<nat, Declared>, project: Declared) -> bool {
    &&& project.names.no_duplicates()
    &&& forall|k: int| 0 <= k < m.stack.len() ==> list_fits(m, told, project, #[trigger] m.stack[k])
    &&& forall|k: int| 0 <= k < m.stack.len() ==> (k == 0) == ((#[trigger] m.stack[k]).node is None)
    &&& forall|k: int, l: int|
        0 <= k && l == k + 1 && l < m.stack.len() ==> next_fits(
            m,
            #[trigger] m.stack[k],
            (#[trigger] m.stack[l]).node->0,
        )
    &&& m.awaited matches Some(a) ==> m.stack.len() > 0 && next_fits(m, m.stack.last(), a.node)
        && !told.contains_key(a.node)
    &&& forall|i: nat| #[trigger]
        told.contains_key(i) ==> i < m.nodes.len() && (is_open(m, i) || all_linked(m, told, i))
    &&& forall|i: nat|
        i < m.nodes.len() && !#[trigger] told.contains_key(i) ==> (m.awaited matches Some(a)
            && a.node == i)
    &&& forall|e: int| 0 <= e < m.edges.len() ==> edge_fits(m, told, #[trigger] m.edges[e])
    &&& forall|name: Seq<char>| #[trigger]
        m.direct.contains_key(name) ==> project.names.contains(name) && m.direct[name]
            < m.nodes.len() && fits(
            m.nodes[m.direct[name] as int],
            name,
            project.dependencies[name],
        )
    &&& m.stack.len() == 0 ==> forall|j: int|
        0 <= j < project.names.len() ==> m.direct.contains_key(#[trigger] project.names[j])
}

proof fn lemma_has_child_stays(
    m: WalkModel,
    now: WalkModel,
    node: nat,
    name: Seq<char>,
    dependency: DependencyModel,
)
    requires
        has_child(m, node, name, dependency),
        m.nodes.len() <= now.nodes.len(),
        forall|i: int| 0 <= i < m.nodes.len() ==> #[trigger] now.nodes[i] == m.nodes[i],
        forall|e: (nat, nat)| m.edges.contains(e) ==> #[trigger] now.edges.contains(e),
    ensures
        has_child(now, node, name, dependency),
{
    let child = choose|child: nat| #[trigger]
        m.edges.contains((node, child)) && child < m.nodes.len() && fits(
            m.nodes[child as int],
            name,
            dependency,
        );
    assert(now.edges.contains((node, child)));
    assert(now.nodes[child as int] == m.nodes[child as int]);
}

proof fn lemma_linked_stays(m: WalkModel, now: WalkModel, told: Map<nat, Declared>, node: nat)
    requires
        all_linked(m, told, node),
        m.nodes.len() <= now.nodes.len(),
        forall|i: int| 0 <= i < m.nodes.len() ==> #[trigger] now.nodes[i] == m.nodes[i],
        forall|e: (nat, nat)| m.edges.contains(e) ==> #[trigger] now.edges.contains(e),
    ensures
        all_linked(now, told, node),
{
    assert forall|j: int| 0 <= j < told[node].names.len() implies has_child(
        now,
        node,
        #[trigger] told[node].names[j],
        told[node].dependencies[told[node].names[j]],
    ) by {
        lemma_has_child_stays(
            m,
            now,
            node,
            told[node].names[j],
            told[node].dependencies[told[node].names[j]],
        );
    }
}

proof fn lemma_pushed<T>(s: Seq<T>, x: T)
    ensures
        forall|e: T| s.contains(e) ==> #[trigger] s.push(x).contains(e),
        s.push(x).contains(x),
{
    assert forall|e: T| s.contains(e) implies #[trigger] s.push(x).contains(e) by {
        let k = choose|k: int| 0 <= k < s.len() && s[k] == e;
        assert(s.push(x)[k] == e);
    }
    assert(s.push(x)[s.len() as int] == x);
}

proof fn lemma_attached_is_faithful(
    m: WalkModel,
    told: Map<nat, Declared>,
    project: Declared,
    child: nat,
)
    requires
        faithful(m, told, project),
        m.awaited is None,
        m.stack.len() > 0,
        next_fits(m, m.stack.last(), child),
    ensures
        faithful(attached(m, child), told, project),
{
    let now = attached(m, child);
    let last = m.stack.len() - 1;
    let list = m.stack[last];
    let of = declared_by(told, project, list.node);
    let at = list.children.len() as int;
    let name = list.names[at];
    assert(list == m.stack.last());
    assert(list_fits(m, told, project, list));
    assert(name == of.names[at]);
    assert(list.dependencies[at] == of.dependencies[name]);
    assert(now.nodes == m.nodes && now.awaited == m.awaited);
    assert(now.stack.len() == m.stack.len());
    assert forall|k: int| 0 <= k < last implies #[trigger] now.stack[k] == m.stack[k] by {}
    let grown = now.stack[last];
    assert(grown == FrameModel { children: list.children.push(child), ..list });
    if let Some(parent) = list.node {
        lemma_pushed(m.edges, (parent, child));
    }
    assert forall|e: (nat, nat)| m.edges.contains(e) implies #[trigger] now.edges.contains(e) by {}
    assert forall|k: int| 0 <= k < now.stack.len() implies list_fits(
        now,
        told,
        project,
        #[trigger] now.stack[k],
    ) by {
        let was = m.stack[k];
        let by = declared_by(told, project, was.node);
        assert(list_fits(m, told, project, was));
        assert((k == 0) == (was.node is None));
        assert((last == 0) == (list.node is None));
        assert forall|j: int| 0 <= j < now.stack[k].children.len() implies #[trigger] child_fits(
            now,
            now.stack[k],
            by,
            j,
        ) by {
            if k == last && j == at {
                assert(grown.children[j] == child);
            } else {
                assert(child_fits(m, was, by, j));
                assert(now.stack[k].children[j] == was.children[j]);
                if was.node is None && list.node is None {
                    assert(by.names[j] != of.names[at]);
                }
            }
        }
    }
    assert forall|k: int| 0 <= k < now.stack.len() implies (k == 0) == ((
    #[trigger] now.stack[k]).node is None) by {
        assert(now.stack[k].node == m.stack[k].node);
    }
    assert forall|k: int, l: int| 0 <= k && l == k + 1 && l < now.stack.len() implies next_fits(
        now,
        #[trigger] now.stack[k],
        (#[trigger] now.stack[l]).node->0,
    ) by {
        assert(now.stack[l].node == m.stack[l].node);
        assert(next_fits(m, m.stack[k], m.stack[l].node->0));
    }
    assert forall|i: nat| #[trigger] told.contains_key(i) implies i < now.nodes.len() && (is_open(
        now,
        i,
    ) || all_linked(now, told, i)) by {
        if is_open(m, i) {
            let k = choose|k: int| 0 <= k < m.stack.len() && (#[trigger] m.stack[k]).node == Some(i);
            assert(now.stack[k].node == Some(i));
        } else {
            lemma_linked_stays(m, now, told, i);
        }
    }
    assert forall|e: int| 0 <= e < now.edges.len() implies edge_fits(
        now,
        told,
        #[trigger] now.edges[e],
    ) by {
        if e < m.edges.len() {
            assert(now.edges[e] == m.edges[e]);
            assert(edge_fits(m, told, m.edges[e]));
        } else {
            assert(fits(m.nodes[child as int], of.names[at], of.dependencies[of.names[at]]));
        }
    }
    assert forall|other: Seq<char>| #[trigger]
        now.direct.contains_key(other) implies project.names.contains(other) && now.direct[other]
        < now.nodes.len() && fits(
        now.nodes[now.direct[other] as int],
        other,
        project.dependencies[other],
    ) by {
        if list.node is None && other == name {
            assert(of.names[at] == name);
        } else {
            assert(m.direct.contains_key(other));
        }
    }
}

proof fn lemma_settled_is_faithful(m: WalkModel, told: Map<nat, Declared>, project: Declared)
    requires
        faithful(m, told, project),
        m.awaited is None,
    ensures
        faithful(settled(m), told, project),
        settled(m).awaited is None,
    decreases m.stack.len(),
{
    if m.stack.len() > 0 && complete(m.stack.last()) {
        let last = m.stack.len() - 1;
        let list = m.stack[last];
        let of = declared_by(told, project, list.node);
        let rest = WalkModel { stack: m.stack.drop_last(), ..m };
        assert(list == m.stack.last());
        assert(list_fits(m, told, project, list));
        assert((last == 0) == (list.node is None));
        assert forall|k: int| 0 <= k < last implies #[trigger] rest.stack[k] == m.stack[k] by {}
        assert forall|k: int| 0 <= k < rest.stack.len() implies list_fits(
            rest,
            told,
            project,
            #[trigger] rest.stack[k],
        ) by {
            assert(list_fits(m, told, project, m.stack[k]));
            let by = declared_by(told, project, m.stack[k].node);
            assert forall|j: int| 0 <= j < rest.stack[k].children.len() implies #[trigger] child_fits(
                rest,
                rest.stack[k],
                by,
                j,
            ) by {
                assert(child_fits(m, m.stack[k], by, j));
            }
        }
        assert forall|k: int| 0 <= k < rest.stack.len() implies (k == 0) == ((
        #[trigger] rest.stack[k]).node is None) by {
            assert((k == 0) == (m.stack[k].node is None));
        }
        assert forall|k: int, l: int| 0 <= k && l == k + 1 && l < rest.stack.len() implies next_fits(
            rest,
            #[trigger] rest.stack[k],
            (#[trigger] rest.stack[l]).node->0,
        ) by {
            assert(next_fits(m, m.stack[k], m.stack[l].node->0));
        }
        assert forall|i: nat| #[trigger] told.contains_key(i) implies i < rest.nodes.len() && (
        is_open(rest, i) || all_linked(rest, told, i)) by {
            if list.node == Some(i) {
                assert forall|j: int| 0 <= j < told[i].names.len() implies has_child(
                    rest,
                    i,
                    #[trigger] told[i].names[j],
                    told[i].dependencies[told[i].names[j]],
                ) by {
                    assert(child_fits(m, list, of, j));
                    assert(rest.edges.contains((i, list.children[j])));
                }
            } else if is_open(m, i) {
                let k = choose|k: int|
                    0 <= k < m.stack.len() && (#[trigger] m.stack[k]).node == Some(i);
                assert(rest.stack[k].node == Some(i));
            } else {
                lemma_linked_stays(m, rest, told, i);
            }
        }
        assert forall|e: int| 0 <= e < rest.edges.len() implies edge_fits(
            rest,
            told,
            #[trigger] rest.edges[e],
        ) by {
            assert(edge_fits(m, told, m.edges[e]));
        }
        if rest.stack.len() == 0 {
            assert forall|j: int| 0 <= j < project.names.len() implies rest.direct.contains_key(
                #[trigger] project.names[j],
            ) by {
                assert(child_fits(m, list, of, j));
            }
        }
        assert(faithful(rest, told, project));
        match list.node {
            Some(node) => {
                let before = last - 1;
                assert(next_fits(m, m.stack[before], m.stack[last].node->0));
                assert(rest.stack.last() == m.stack[before]);
                lemma_attached_is_faithful(rest, told, project, node);
                lemma_settled_is_faithful(attached(rest, node), told, project);
            },
            None => {
                lemma_settled_is_faithful(rest, told, project);
            },
        }
    }
}

/// A walk that begins holds what the project declares.
pub proof fn lemma_begins_faithful()
    ensures
        forall|r: &mut Resolver, manifest: &Manifest, base: &str| #[trigger]
            call_ensures(Resolver::begin, (r, manifest, base), ()) && (*r)@.nodes.len() == 0
                && (*r)@.edges.len() == 0 && (*r)@.direct.dom() == Set::<Seq<char>>::empty()
                && (*r)@.stack.len() == 0 && (*r)@.awaited is None ==> faithful(
                final(r)@,
                Map::empty(),
                Declared { names: manifest.dependencies.keys(), dependencies: manifest@ },
            ),
{
    assert forall|r: &mut Resolver, manifest: &Manifest, base: &str| #[trigger]
        call_ensures(Resolver::begin, (r, manifest, base), ()) && (*r)@.nodes.len() == 0
            && (*r)@.edges.len() == 0 && (*r)@.direct.dom() == Set::<Seq<char>>::empty()
            && (*r)@.stack.len() == 0 && (*r)@.awaited is None implies faithful(
        final(r)@,
        Map::empty(),
        Declared { names: manifest.dependencies.keys(), dependencies: manifest@ },
    ) by {
        let m = (*r)@;
        let project = Declared { names: manifest.dependencies.keys(), dependencies: manifest@ };
        let list = fresh_frame(None, None, base@, project.names, project.dependencies);
        let now = WalkModel { stack: m.stack.push(list), awaited: None, ..m };
        assert(now.stack.last() == list);
        assert(now.stack.drop_last() =~= m.stack);
        if project.names.len() == 0 {
            let rest = WalkModel { stack: now.stack.drop_last(), ..now };
            assert(settled(rest) == rest);
            assert(settled(now) == rest);
        } else {
            assert(!complete(list));
            assert(settled(now) == now);
            assert(final(r)@ == now);
            assert(crate::resolver::visit::frame_ok(now, now.stack[0]));
            assert(list_fits(now, Map::empty(), project, now.stack[0]));
        }
        assert(project.names.no_duplicates());
        assert(!m.direct.dom().contains(project.names[0]));
    }
}

/// A package that was found is one that the list asks for, or is known already as one that fits.
pub open spec fn known_alike(m: WalkModel, node: NodeModel) -> bool {
    m.ids.contains_key(node.id) ==> m.ids[node.id] < m.nodes.len()
        && m.nodes[m.ids[node.id] as int].namespace == node.namespace
        && m.nodes[m.ids[node.id] as int].package.name == node.package.name
}

/// A walk stays faithful when a package was found, where the package that is known by its identity, if
/// there is one, has the same namespace and name.
pub proof fn lemma_found_stays_faithful(told: Map<nat, Declared>, project: Declared)
    ensures
        forall|r: &mut Resolver, package: Package, done: Result<(), ResolveError>| #[trigger]
            call_ensures(Resolver::found, (r, package), done) && (*r)@.awaited is None
                && (*r)@.stack.len() > 0 && !complete((*r)@.stack.last()) && faithful(
                (*r)@,
                told,
                project,
            ) && known_alike(
                (*r)@,
                found_node((*r)@, source_states((*r).sources.providers@), package@),
            ) ==> faithful(final(r)@, told, project),
{
    assert forall|r: &mut Resolver, package: Package, done: Result<(), ResolveError>| #[trigger]
        call_ensures(Resolver::found, (r, package), done) && (*r)@.awaited is None
            && (*r)@.stack.len() > 0 && !complete((*r)@.stack.last()) && faithful(
            (*r)@,
            told,
            project,
        ) && known_alike(
            (*r)@,
            found_node((*r)@, source_states((*r).sources.providers@), package@),
        ) implies faithful(final(r)@, told, project) by {
        if done is Ok {
            let m = (*r)@;
            let node = found_node(m, source_states((*r).sources.providers@), package@);
            let last = m.stack.len() - 1;
            assert(m.stack[last] == m.stack.last());
            assert(list_fits(m, told, project, m.stack[last]));
            if m.ids.contains_key(node.id) {
                let told_twins = WalkModel {
                    twins: crate::resolver::visit::twins_with(m, node),
                    ..m
                };
                lemma_twins_do_not_count(m, told_twins, told, project);
                lemma_attached_is_faithful(told_twins, told, project, m.ids[node.id]);
                lemma_settled_is_faithful(attached(told_twins, m.ids[node.id]), told, project);
            } else {
                lemma_new_is_faithful(m, final(r)@, told, project, node);
            }
        }
    }
}

proof fn lemma_twins_do_not_count(
    m: WalkModel,
    now: WalkModel,
    told: Map<nat, Declared>,
    project: Declared,
)
    requires
        faithful(m, told, project),
        now == (WalkModel { twins: now.twins, ..m }),
    ensures
        faithful(now, told, project),
{
    assert forall|k: int| 0 <= k < now.stack.len() implies list_fits(
        now,
        told,
        project,
        #[trigger] now.stack[k],
    ) by {
        assert(list_fits(m, told, project, m.stack[k]));
        let by = declared_by(told, project, m.stack[k].node);
        assert forall|j: int| 0 <= j < now.stack[k].children.len() implies #[trigger] child_fits(
            now,
            now.stack[k],
            by,
            j,
        ) by {
            assert(child_fits(m, m.stack[k], by, j));
        }
    }
    assert forall|k: int, l: int| 0 <= k && l == k + 1 && l < now.stack.len() implies next_fits(
        now,
        #[trigger] now.stack[k],
        (#[trigger] now.stack[l]).node->0,
    ) by {
        assert(next_fits(m, m.stack[k], m.stack[l].node->0));
    }
    assert forall|i: nat| #[trigger] told.contains_key(i) implies i < now.nodes.len() && (is_open(
        now,
        i,
    ) || all_linked(now, told, i)) by {
        if is_open(m, i) {
            let k = choose|k: int| 0 <= k < m.stack.len() && (#[trigger] m.stack[k]).node == Some(i);
            assert(now.stack[k].node == Some(i));
        } else {
            lemma_linked_stays(m, now, told, i);
        }
    }
    assert forall|e: int| 0 <= e < now.edges.len() implies edge_fits(
        now,
        told,
        #[trigger] now.edges[e],
    ) by {
        assert(edge_fits(m, told, m.edges[e]));
    }
}

proof fn lemma_new_is_faithful(
    m: WalkModel,
    now: WalkModel,
    told: Map<nat, Declared>,
    project: Declared,
    node: NodeModel,
)
    requires
        faithful(m, told, project),
        m.awaited is None,
        m.stack.len() > 0,
        !complete(m.stack.last()),
        fits(
            node,
            m.stack.last().names[m.stack.last().children.len() as int],
            m.stack.last().dependencies[m.stack.last().children.len() as int],
        ),
        now.nodes == m.nodes.push(node),
        now.edges == m.edges,
        now.direct == m.direct,
        now.stack == m.stack,
        now.awaited matches Some(a) && a.node == m.nodes.len(),
    ensures
        faithful(now, told, project),
{
    assert forall|i: int| 0 <= i < m.nodes.len() implies #[trigger] now.nodes[i] == m.nodes[i] by {}
    assert forall|k: int| 0 <= k < now.stack.len() implies list_fits(
        now,
        told,
        project,
        #[trigger] now.stack[k],
    ) by {
        assert(list_fits(m, told, project, m.stack[k]));
        let by = declared_by(told, project, m.stack[k].node);
        assert forall|j: int| 0 <= j < now.stack[k].children.len() implies #[trigger] child_fits(
            now,
            now.stack[k],
            by,
            j,
        ) by {
            assert(child_fits(m, m.stack[k], by, j));
        }
    }
    assert forall|k: int, l: int| 0 <= k && l == k + 1 && l < now.stack.len() implies next_fits(
        now,
        #[trigger] now.stack[k],
        (#[trigger] now.stack[l]).node->0,
    ) by {
        assert(next_fits(m, m.stack[k], m.stack[l].node->0));
    }
    assert(now.nodes[m.nodes.len() as int] == node);
    assert forall|i: nat| #[trigger] told.contains_key(i) implies i < now.nodes.len() && (is_open(
        now,
        i,
    ) || all_linked(now, told, i)) by {
        if is_open(m, i) {
            let k = choose|k: int| 0 <= k < m.stack.len() && (#[trigger] m.stack[k]).node == Some(i);
            assert(now.stack[k].node == Some(i));
        } else {
            lemma_linked_stays(m, now, told, i);
        }
    }
    assert forall|e: int| 0 <= e < now.edges.len() implies edge_fits(
        now,
        told,
        #[trigger] now.edges[e],
    ) by {
        assert(edge_fits(m, told, m.edges[e]));
    }
}

/// A walk stays faithful when the dependencies of the package that it waits for were read.
pub proof fn lemma_described_stays_faithful(told: Map<nat, Declared>, project: Declared)
    ensures
        forall|r: &mut Resolver, manifest: &Manifest| #[trigger]
            call_ensures(Resolver::described, (r, manifest), ()) && (*r)@.awaited is Some && faithful(
                (*r)@,
                told,
                project,
            ) ==> faithful(
                final(r)@,
                told.insert(
                    (*r)@.awaited->0.node,
                    Declared { names: manifest.dependencies.keys(), dependencies: manifest@ },
                ),
                project,
            ),
{
    assert forall|r: &mut Resolver, manifest: &Manifest| #[trigger]
        call_ensures(Resolver::described, (r, manifest), ()) && (*r)@.awaited is Some && faithful(
            (*r)@,
            told,
            project,
        ) implies faithful(
        final(r)@,
        told.insert(
            (*r)@.awaited->0.node,
            Declared { names: manifest.dependencies.keys(), dependencies: manifest@ },
        ),
        project,
    ) by {
        let m = (*r)@;
        let a = m.awaited->0;
        let of = Declared { names: manifest.dependencies.keys(), dependencies: manifest@ };
        let list = fresh_frame(Some(a.node), Some(a.source), a.root, of.names, of.dependencies);
        let more = told.insert(a.node, of);
        let now = WalkModel { stack: m.stack.push(list), awaited: None, ..m };
        lemma_opened_is_faithful(m, now, told, project, of, list);
        lemma_settled_is_faithful(now, more, project);
    }
}

proof fn lemma_opened_is_faithful(
    m: WalkModel,
    now: WalkModel,
    told: Map<nat, Declared>,
    project: Declared,
    of: Declared,
    list: FrameModel,
)
    requires
        faithful(m, told, project),
        m.awaited is Some,
        list.node == Some(m.awaited->0.node),
        list.names == of.names,
        list.dependencies == of.names.map_values(|name: Seq<char>| of.dependencies[name]),
        list.children.len() == 0,
        now == (WalkModel { stack: m.stack.push(list), awaited: None, ..m }),
    ensures
        faithful(now, told.insert(m.awaited->0.node, of), project),
{
    let a = m.awaited->0;
    let more = told.insert(a.node, of);
    let last = m.stack.len() as int;
    assert(now.stack[last] == list);
    assert forall|k: int| 0 <= k < last implies #[trigger] now.stack[k] == m.stack[k] by {}
    assert forall|k: int| 0 <= k < now.stack.len() implies list_fits(
        now,
        more,
        project,
        #[trigger] now.stack[k],
    ) by {
        if k < last {
            assert(list_fits(m, told, project, m.stack[k]));
            let by = declared_by(told, project, m.stack[k].node);
            assert(declared_by(more, project, m.stack[k].node) == by);
            assert forall|j: int| 0 <= j < now.stack[k].children.len() implies #[trigger] child_fits(
                now,
                now.stack[k],
                by,
                j,
            ) by {
                assert(child_fits(m, m.stack[k], by, j));
            }
        }
    }
    assert forall|k: int| 0 <= k < now.stack.len() implies (k == 0) == ((
    #[trigger] now.stack[k]).node is None) by {
        if k < last {
            assert((k == 0) == (m.stack[k].node is None));
        }
    }
    assert forall|k: int, l: int| 0 <= k && l == k + 1 && l < now.stack.len() implies next_fits(
        now,
        #[trigger] now.stack[k],
        (#[trigger] now.stack[l]).node->0,
    ) by {
        if l < last {
            assert(next_fits(m, m.stack[k], m.stack[l].node->0));
        } else {
            assert(m.stack[k] == m.stack.last());
        }
    }
    assert forall|i: nat| #[trigger] more.contains_key(i) implies i < now.nodes.len() && (is_open(
        now,
        i,
    ) || all_linked(now, more, i)) by {
        if i == a.node {
            assert(now.stack[last].node == Some(i));
        } else {
            assert(told.contains_key(i));
            if is_open(m, i) {
                let k = choose|k: int|
                    0 <= k < m.stack.len() && (#[trigger] m.stack[k]).node == Some(i);
                assert(now.stack[k].node == Some(i));
            } else {
                lemma_linked_stays(m, now, told, i);
                assert(more[i] == told[i]);
                assert(all_linked(now, more, i));
            }
        }
    }
    assert forall|i: nat| i < now.nodes.len() && !#[trigger] more.contains_key(i) implies (
    now.awaited matches Some(b) && b.node == i) by {
        assert(!told.contains_key(i));
    }
    assert forall|e: int| 0 <= e < now.edges.len() implies edge_fits(
        now,
        more,
        #[trigger] now.edges[e],
    ) by {
        assert(edge_fits(m, told, m.edges[e]));
        assert(more[m.edges[e].0] == told[m.edges[e].0]);
    }
}

/// At the end of a faithful walk every dependency of the project, and no other name, leads to a package of
/// that name in the declared namespace; every package has an edge to such a package for everything that
/// it declares, and no other edges.
pub proof fn lemma_found_as_declared(m: WalkModel, told: Map<nat, Declared>, project: Declared)
    requires
        faithful(m, told, project),
        m.stack.len() == 0,
    ensures
        forall|name: Seq<char>| #[trigger]
            m.direct.contains_key(name) <==> project.names.contains(name),
        forall|name: Seq<char>| #[trigger]
            m.direct.contains_key(name) ==> {
                let node = m.nodes[m.direct[name] as int];
                &&& m.direct[name] < m.nodes.len()
                &&& node.package.name == name
                &&& node.namespace == project.dependencies[name].namespace
            },
        forall|i: nat| i < m.nodes.len() ==> #[trigger] told.contains_key(i),
        forall|i: nat| i < m.nodes.len() ==> #[trigger] all_linked(m, told, i),
        forall|e: int| 0 <= e < m.edges.len() ==> edge_fits(m, told, #[trigger] m.edges[e]),
{
    assert forall|name: Seq<char>| #[trigger]
        m.direct.contains_key(name) <==> project.names.contains(name) by {
        if project.names.contains(name) {
            let j = choose|j: int| 0 <= j < project.names.len() && project.names[j] == name;
            assert(m.direct.contains_key(project.names[j]));
        }
    }
    assert forall|i: nat| i < m.nodes.len() implies #[trigger] all_linked(m, told, i) by {
        assert(told.contains_key(i));
        assert(!is_open(m, i));
    }
}

/// Every dependency that the project declares can be imported in its declared namespace, under its
/// declared name, as version 0.0.0.
pub proof fn lemma_declared_is_imported(
    resolver: &Resolver,
    told: Map<nat, Declared>,
    project: Declared,
    r: Result<Resolution, String>,
    name: Seq<char>,
)
    requires
        call_ensures(Resolver::resolve, (resolver,), r),
        r is Ok,
        faithful(resolver@, told, project),
        resolver@.stack.len() == 0,
        project.names.contains(name),
    ensures
        exists|i: int|
            0 <= i < r->Ok_0.imports@.len() && {
                let import = #[trigger] r->Ok_0.imports@[i];
                &&& import.namespace@ == project.dependencies[name].namespace
                &&& import.package.name@ == name
                &&& import.version@ == "0.0.0"@
                &&& texts(import.roots@).contains(name)
            },
{
    lemma_found_as_declared(resolver@, told, project);
    assert(resolver@.direct.contains_key(name));
    let node = resolver@.direct[name];
    let path = seq![node];
    assert(leads(resolver@.edges, node, node, path));
    assert(reaches(resolver@.edges, node, node));
    lemma_reached_is_imported(resolver, r, name, node);
    let i = choose|i: int|
        0 <= i < r->Ok_0.imports@.len() && {
            let import = #[trigger] r->Ok_0.imports@[i];
            &&& import.namespace@ == resolver@.nodes[node as int].namespace
            &&& import.package.name@ == resolver@.nodes[node as int].package.name
            &&& import.version@ == "0.0.0"@
            &&& texts(import.roots@).contains(name)
        };
    assert(r->Ok_0.imports@[i].package.name@ == name);
}

/// What a package that the project reaches declares can be imported too, in the namespace that the
/// package declares and under the name, for the same direct dependency.
pub proof fn lemma_declared_by_packages_is_imported(
    resolver: &Resolver,
    told: Map<nat, Declared>,
    project: Declared,
    r: Result<Resolution, String>,
    name: Seq<char>,
    node: nat,
    j: int,
)
    requires
        call_ensures(Resolver::resolve, (resolver,), r),
        r is Ok,
        faithful(resolver@, told, project),
        resolver@.stack.len() == 0,
        project.names.contains(name),
        node < resolver@.nodes.len(),
        reaches(resolver@.edges, resolver@.direct[name], node),
        0 <= j < told[node].names.len(),
    ensures
        exists|i: int|
            0 <= i < r->Ok_0.imports@.len() && {
                let import = #[trigger] r->Ok_0.imports@[i];
                &&& import.namespace@ == told[node].dependencies[told[node].names[j]].namespace
                &&& import.package.name@ == told[node].names[j]
                &&& texts(import.roots@).contains(name)
            },
{
    lemma_found_as_declared(resolver@, told, project);
    let m = resolver@;
    assert(m.direct.contains_key(name));
    assert(all_linked(m, told, node));
    let wanted = told[node].names[j];
    let dependency = told[node].dependencies[wanted];
    assert(has_child(m, node, wanted, dependency));
    let child = choose|child: nat| #[trigger]
        m.edges.contains((node, child)) && child < m.nodes.len() && fits(
            m.nodes[child as int],
            wanted,
            dependency,
        );
    let path = choose|path: Seq<nat>| leads(m.edges, m.direct[name], node, path);
    let longer = path.push(child);
    assert forall|a: int, b: int| 0 <= a && b == a + 1 && b < longer.len() implies linked(
        m.edges,
        #[trigger] longer[a],
        #[trigger] longer[b],
    ) by {
        assert(longer[a] == path[a]);
        if b < path.len() {
            assert(longer[b] == path[b]);
            assert(linked(m.edges, path[a], path[b]));
        }
    }
    assert(leads(m.edges, m.direct[name], child, longer));
    assert(reaches(m.edges, m.direct[name], child));
    lemma_reached_is_imported(resolver, r, name, child);
    let i = choose|i: int|
        0 <= i < r->Ok_0.imports@.len() && {
            let import = #[trigger] r->Ok_0.imports@[i];
            &&& import.namespace@ == m.nodes[child as int].namespace
            &&& import.package.name@ == m.nodes[child as int].package.name
            &&& texts(import.roots@).contains(name)
        };
    assert(r->Ok_0.imports@[i].package.name@ == wanted);
}

/// A package is noted as it is, with its identity's place and pin, in its namespace. Two are known by one
/// identity only where their sources and their namespaces are the same, or the digest is shared by other
/// messages.
pub proof fn lemma_noted_as_it_is(
    package: Package,
    identity: PackageIdentity,
    namespace: &str,
    x: PackageNode,
    package_b: Package,
    identity_b: PackageIdentity,
    namespace_b: &str,
    y: PackageNode,
)
    requires
        call_ensures(PackageNode::new, (package, identity, namespace), x),
        call_ensures(PackageNode::new, (package_b, identity_b, namespace_b), y),
        text_fits(identity.source_key@) && text_fits(identity_b.source_key@),
        text_fits(namespace@) && text_fits(namespace_b@),
    ensures
        x.package@ == package@,
        x.namespace@ == namespace@,
        x.location_id@ == identity.location_id@,
        identity.pin is Some <==> x.pin is Some,
        x.id@ == y.id@ ==> (identity.source_key@ == identity_b.source_key@ && namespace@
            == namespace_b@) || is_shared(x.id@),
        identity.source_key@ == identity_b.source_key@ && namespace@ == namespace_b@ ==> x.id@
            == y.id@,
{
    assert(x@.package == package@ && x@.namespace == namespace@);
    let p = seq![identity.source_key@, namespace@];
    let q = seq![identity_b.source_key@, namespace_b@];
    assert(x@.id == x.id@ && y@.id == y.id@);
    if x.id@ == y.id@ {
        lemma_digest_of(p, q, x.id@);
        if p == q {
            assert(p[0] == q[0] && p[1] == q[1]);
        }
    }
}

} // verus!
