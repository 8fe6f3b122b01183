//! Walking: which package is asked for next, and what is noted of each that was found.

use vstd::prelude::*;

use crate::manifest::Manifest;
use crate::package::Package;
use crate::path::{parts_of, Part};
use crate::resolver::visit::{
    attached, complete, found_node, place_sought, settled, Demand, DemandModel, ResolveError,
    Resolver, WalkModel,
};
use crate::sources::{source_states, GitSourceState, Place, PlaceModel, SourceError, SourceMap};
use crate::git::source_id;

verus! {

broadcast use vstd::string::group_string_axioms;

/// Closing lists only adds edges and direct dependencies.
proof fn lemma_settled_adds(m: WalkModel)
    ensures
        settled(m).nodes == m.nodes,
        settled(m).ids == m.ids,
        settled(m).awaited == m.awaited,
        m.edges.is_prefix_of(settled(m).edges),
        settled(m).stack.len() <= m.stack.len(),
    decreases m.stack.len(),
{
    assert(m.edges.is_prefix_of(m.edges)) by {
        assert(m.edges.subrange(0, m.edges.len() as int) =~= m.edges);
    }
    if m.stack.len() > 0 && complete(m.stack.last()) {
        let rest = WalkModel { stack: m.stack.drop_last(), ..m };
        match m.stack.last().node {
            Some(node) => if rest.stack.len() > 0 {
                let next = attached(rest, node);
                lemma_settled_adds(next);
                let end = settled(next);
                assert(m.edges.is_prefix_of(next.edges)) by {
                    assert(next.edges.subrange(0, m.edges.len() as int) =~= m.edges);
                }
                assert(end.edges.subrange(0, m.edges.len() as int) =~= m.edges) by {
                    assert(end.edges.subrange(0, next.edges.len() as int) =~= next.edges);
                    assert forall|i: int| 0 <= i < m.edges.len() implies end.edges[i]
                        == m.edges[i] by {
                        assert(end.edges.subrange(0, next.edges.len() as int)[i] == next.edges[i]);
                        assert(next.edges.subrange(0, m.edges.len() as int)[i] == m.edges[i]);
                    }
                }
            },
            None => lemma_settled_adds(rest),
        }
    }
}

/// The walk begins with the dependencies that the project declares, in the order of their names and read
/// against its directory; where it declares none, there is nothing to find.
pub proof fn lemma_walk_begins_with_the_project()
    ensures
        forall|r: &mut Resolver, manifest: &Manifest, base: &str| #[trigger]
            call_ensures(Resolver::begin, (r, manifest, base), ()) && (*r)@.stack.len() == 0 ==> {
                let names = manifest.dependencies.keys();
                &&& final(r)@.nodes == (*r)@.nodes
                &&& final(r)@.edges == (*r)@.edges
                &&& final(r)@.direct == (*r)@.direct
                &&& final(r)@.awaited is None
                &&& names.len() == 0 ==> final(r)@.stack.len() == 0
                &&& names.len() > 0 ==> final(r)@.stack.len() == 1 && {
                    let list = final(r)@.stack[0];
                    &&& list.node is None
                    &&& list.source is None
                    &&& list.base == base@
                    &&& list.names == names
                    &&& list.children.len() == 0
                    &&& list.dependencies.len() == names.len()
                    &&& forall|i: int|
                        0 <= i < names.len() ==> list.dependencies[i] == manifest@[
                            #[trigger] names[i]]
                }
            },
{
    assert forall|r: &mut Resolver, manifest: &Manifest, base: &str| #[trigger]
        call_ensures(Resolver::begin, (r, manifest, base), ()) && (*r)@.stack.len() == 0 implies {
        let names = manifest.dependencies.keys();
        &&& final(r)@.nodes == (*r)@.nodes
        &&& final(r)@.edges == (*r)@.edges
        &&& final(r)@.direct == (*r)@.direct
        &&& final(r)@.awaited is None
        &&& names.len() == 0 ==> final(r)@.stack.len() == 0
        &&& names.len() > 0 ==> final(r)@.stack.len() == 1 && {
            let list = final(r)@.stack[0];
            &&& list.node is None
            &&& list.source is None
            &&& list.base == base@
            &&& list.names == names
            &&& list.children.len() == 0
            &&& list.dependencies.len() == names.len()
            &&& forall|i: int|
                0 <= i < names.len() ==> list.dependencies[i] == manifest@[#[trigger] names[i]]
        }
    } by {
        let m = (*r)@;
        let frame = crate::resolver::visit::fresh_frame(
            None,
            None,
            base@,
            manifest.dependencies.keys(),
            manifest@,
        );
        let pushed = WalkModel { stack: m.stack.push(frame), awaited: None, ..m };
        assert(pushed.stack.last() == frame);
        assert(pushed.stack.drop_last() =~= m.stack);
        let rest = WalkModel { stack: pushed.stack.drop_last(), ..pushed };
        assert(settled(rest) == rest);
    }
}

/// The dependencies that a package declares are read against its own directory, as dependencies of its
/// own source, and lead to edges from it.
pub proof fn lemma_walk_goes_on_with_the_package()
    ensures
        forall|r: &mut Resolver, manifest: &Manifest| #[trigger]
            call_ensures(Resolver::described, (r, manifest), ()) && (*r)@.awaited is Some
                && manifest.dependencies.keys().len() > 0 ==> {
                let names = manifest.dependencies.keys();
                let list = final(r)@.stack.last();
                &&& final(r)@.nodes == (*r)@.nodes
                &&& final(r)@.edges == (*r)@.edges
                &&& final(r)@.direct == (*r)@.direct
                &&& final(r)@.awaited is None
                &&& final(r)@.stack.len() == (*r)@.stack.len() + 1
                &&& list.node == Some((*r)@.awaited->0.node)
                &&& list.source == Some((*r)@.awaited->0.source)
                &&& list.base == (*r)@.awaited->0.root
                &&& list.names == names
                &&& list.children.len() == 0
                &&& list.dependencies.len() == names.len()
                &&& forall|i: int|
                    0 <= i < names.len() ==> list.dependencies[i] == manifest@[#[trigger] names[i]]
            },
{
}

/// What the walk asks for: the dependencies of a package that was found, else the next dependency of the
/// last list, by its name and in its namespace, where it is located; nothing is asked for once every list
/// is closed. A list that lies deeper than 256 packages is refused.
pub proof fn lemma_asked_in_order(resolver: &Resolver, r: Result<Demand, ResolveError>)
    requires
        call_ensures(Resolver::demand, (resolver,), r),
        resolver.wf(),
    ensures
        resolver@.awaited matches Some(a) ==> (r matches Ok(d) && d@ == (DemandModel::Manifest {
            source: a.source,
            root: a.root,
        })),
        resolver@.awaited is None && resolver@.stack.len() == 0 ==> (r matches Ok(d) && d@
            == DemandModel::Done),
        resolver@.awaited is None && resolver@.stack.len() > 257 ==> r is Err,
        resolver@.awaited is None && resolver@.stack.len() > 0 && r is Ok ==> {
            let list = resolver@.stack.last();
            let at = list.children.len() as int;
            &&& r->Ok_0@ matches DemandModel::Find { place, name, namespace }
            &&& name == list.names[at]
            &&& namespace == list.dependencies[at].namespace
        },
{
}

/// The place at which the next dependency is asked for is the one at which it is located, against the
/// directory of its list and as a dependency of the list's source.
pub proof fn lemma_asked_where_located(
    resolver: &Resolver,
    r: Result<Demand, ResolveError>,
    dependency: &crate::manifest::Dependency,
    base: &str,
    parent: Option<&crate::sources::SourceId>,
    name: &str,
    located: Result<Place, SourceError>,
)
    requires
        call_ensures(Resolver::demand, (resolver,), r),
        resolver@.awaited is None,
        0 < resolver@.stack.len() <= 257,
        ({
            let list = resolver@.stack.last();
            let at = list.children.len() as int;
            &&& dependency@ == list.dependencies[at]
            &&& name@ == list.names[at]
            &&& base@ == list.base
            &&& crate::sources::opt_source(parent) == list.source
        }),
        call_ensures(
            SourceMap::locate,
            (&resolver.sources, dependency, base, parent, Some(name)),
            located,
        ),
    ensures
        r is Ok <==> located is Ok,
        r is Ok ==> (r->Ok_0@ matches DemandModel::Find { place, .. } && place == located->Ok_0@),
{
}

/// A package that was found for the walk has the name that was asked for. One that is not known yet is
/// noted as it was found, in the namespace of its dependency and with its own dependencies to be read
/// next; one that is known is not noted again, and what asked for it is linked to it.
pub proof fn lemma_found_is_noted()
    ensures
        forall|r: &mut Resolver, package: Package, done: Result<(), ResolveError>| #[trigger]
            call_ensures(Resolver::found, (r, package), done) && (*r)@.awaited is None
                && (*r)@.stack.len() > 0 && done is Ok ==> {
                let list = (*r)@.stack.last();
                let at = list.children.len() as int;
                let known = final(r)@.nodes == (*r)@.nodes;
                let node = final(r)@.nodes.last();
                &&& package@.name == list.names[at]
                &&& known || final(r)@.nodes == (*r)@.nodes.push(node)
                &&& !known ==> {
                    &&& node.package == package@
                    &&& node.namespace == list.dependencies[at].namespace
                    &&& final(r)@.awaited matches Some(a) && a.node == (*r)@.nodes.len() && a.root
                        == package@.root
                    &&& final(r)@.edges == (*r)@.edges
                    &&& final(r)@.direct == (*r)@.direct
                    &&& final(r)@.stack == (*r)@.stack
                }
                &&& known ==> {
                    &&& final(r)@.awaited is None
                    &&& list.node matches Some(parent) ==> exists|child: nat|
                        (*r)@.ids.values().contains(child)
                            && #[trigger] final(r)@.edges.contains((parent, child))
                    &&& (*r)@.edges.is_prefix_of(final(r)@.edges)
                    &&& list.node is None && (*r).wf() ==> exists|child: nat|
                        (*r)@.ids.values().contains(child) && final(r)@.direct
                            == #[trigger] (*r)@.direct.insert(list.names[at], child)
                }
            },
{
    assert forall|r: &mut Resolver, package: Package, done: Result<(), ResolveError>| #[trigger]
        call_ensures(Resolver::found, (r, package), done) && (*r)@.awaited is None
            && (*r)@.stack.len() > 0 && done is Ok implies {
        let list = (*r)@.stack.last();
        let at = list.children.len() as int;
        let known = final(r)@.nodes == (*r)@.nodes;
        let node = final(r)@.nodes.last();
        &&& package@.name == list.names[at]
        &&& known || final(r)@.nodes == (*r)@.nodes.push(node)
        &&& !known ==> {
            &&& node.package == package@
            &&& node.namespace == list.dependencies[at].namespace
            &&& final(r)@.awaited matches Some(a) && a.node == (*r)@.nodes.len() && a.root
                == package@.root
            &&& final(r)@.edges == (*r)@.edges
            &&& final(r)@.direct == (*r)@.direct
            &&& final(r)@.stack == (*r)@.stack
        }
        &&& known ==> {
            &&& final(r)@.awaited is None
            &&& list.node matches Some(parent) ==> exists|child: nat|
                (*r)@.ids.values().contains(child) && #[trigger] final(r)@.edges.contains(
                    (parent, child),
                )
            &&& (*r)@.edges.is_prefix_of(final(r)@.edges)
            &&& list.node is None && (*r).wf() ==> exists|child: nat|
                (*r)@.ids.values().contains(child) && final(r)@.direct
                    == #[trigger] (*r)@.direct.insert(list.names[at], child)
        }
    } by {
        let m = (*r)@;
        let sources = source_states((*r).sources.providers@);
        let node = found_node(m, sources, package@);
        if m.ids.contains_key(node.id) {
            let told = WalkModel {
                twins: crate::resolver::visit::twins_with(m, node),
                ..m
            };
            let child = m.ids[node.id];
            let next = attached(told, child);
            lemma_settled_adds(next);
            let end = settled(next);
            assert(m.edges.is_prefix_of(next.edges)) by {
                assert(next.edges.subrange(0, m.edges.len() as int) =~= m.edges);
            }
            assert forall|i: int| 0 <= i < next.edges.len() implies end.edges[i]
                == next.edges[i] by {
                assert(end.edges.subrange(0, next.edges.len() as int)[i] == next.edges[i]);
            }
            assert(end.edges.subrange(0, m.edges.len() as int) =~= m.edges);
            assert(m.ids.values().contains(child));
            if m.stack.last().node is None && (*r).wf() {
                assert(m.stack[m.stack.len() - 1] == m.stack.last());
                assert(m.stack.len() == 1);
                let rest = WalkModel { stack: next.stack.drop_last(), ..next };
                assert(settled(rest) == rest);
                assert(end.direct == m.direct.insert(
                    m.stack.last().names[m.stack.last().children.len() as int],
                    child,
                ));
            }
            if let Some(parent) = m.stack.last().node {
                assert(next.edges[m.edges.len() as int] == (parent, child));
                assert(end.edges[m.edges.len() as int] == (parent, child));
                assert(end.edges.contains((parent, child)));
            }
        } else {
            assert(m.nodes.push(node).last() == node);
            assert(m.nodes.push(node).len() != m.nodes.len());
        }
    }
}

/// What links a package to what asked for it: an edge from the package that declares it, or a direct
/// dependency under its name; nothing else changes but that the list has come one further.
pub proof fn lemma_link_of_found(m: WalkModel, child: nat)
    requires
        m.stack.len() > 0,
    ensures
        ({
            let list = m.stack.last();
            let now = attached(m, child);
            &&& list.node matches Some(parent) ==> now.edges == m.edges.push((parent, child))
                && now.direct == m.direct
            &&& list.node is None ==> now.edges == m.edges && now.direct == m.direct.insert(
                list.names[list.children.len() as int],
                child,
            )
            &&& now.nodes == m.nodes && now.ids == m.ids
            &&& now.stack.len() == m.stack.len()
            &&& now.stack.last().children == list.children.push(child)
            &&& now.stack.last().names == list.names
            &&& forall|k: int| 0 <= k < m.stack.len() - 1 ==> #[trigger] now.stack[k] == m.stack[k]
        }),
{
}

/// The node of a package that was found is that package, in the namespace of the dependency. Found in a
/// Git source it is pinned to that source at the commit that its files are of; else it has no pin.
pub proof fn lemma_node_of_found(
    m: WalkModel,
    sources: Map<Seq<char>, GitSourceState>,
    package: crate::package::PackageModel,
    place: PlaceModel,
)
    requires
        m.stack.len() > 0,
        place_sought(m) == Ok::<PlaceModel, crate::resolver::visit::ResolveFault>(place),
    ensures
        ({
            let list = m.stack.last();
            let node = found_node(m, sources, package);
            &&& node.package == package
            &&& node.namespace == list.dependencies[list.children.len() as int].namespace
            &&& match place {
                PlaceModel::Local(_) => node.pin is None,
                PlaceModel::Git(source) => {
                    let state = sources[source_id(source)];
                    &&& node.pin matches Some(pin) && pin.source.source == state.specification
                        && pin.source.commit == state.commit && pin.source_id == source_id(
                        state.specification,
                    )
                },
                PlaceModel::Inside { id, .. } => {
                    let state = sources[id];
                    &&& node.pin matches Some(pin) && pin.source.source == state.specification
                        && pin.source.commit == state.commit && pin.source_id == source_id(
                        state.specification,
                    )
                },
            }
        }),
{
}

/// A package that was found is taken exactly where what is asked for has a place, the package has the name
/// that is asked for, and it lies in the files of its Git source, if it has one; else nothing changes.
pub proof fn lemma_found_is_taken()
    ensures
        forall|r: &mut Resolver, package: Package, done: Result<(), ResolveError>| #[trigger]
            call_ensures(Resolver::found, (r, package), done) && (*r)@.stack.len() > 0 && source_is_here(
                *r,
            ) ==> {
                let list = (*r)@.stack.last();
                let sources = (*r).sources.providers@;
                &&& done is Ok <==> {
                    &&& place_sought((*r)@) is Ok
                    &&& package@.name == list.names[list.children.len() as int]
                    &&& place_sought((*r)@) matches Ok(PlaceModel::Git(source)) ==> lies_in(
                        package@.root,
                        sources[source_id(source)].checkout.root@,
                    )
                    &&& place_sought((*r)@) matches Ok(PlaceModel::Inside { id, .. }) ==> lies_in(
                        package@.root,
                        sources[id].checkout.root@,
                    )
                }
                &&& done is Err ==> final(r)@ == (*r)@
            },
{
    assert forall|r: &mut Resolver, package: Package, done: Result<(), ResolveError>| #[trigger]
        call_ensures(Resolver::found, (r, package), done) && (*r)@.stack.len() > 0 && source_is_here(
            *r,
        ) implies {
        let list = (*r)@.stack.last();
        let sources = (*r).sources.providers@;
        &&& done is Ok <==> {
            &&& place_sought((*r)@) is Ok
            &&& package@.name == list.names[list.children.len() as int]
            &&& place_sought((*r)@) matches Ok(PlaceModel::Git(source)) ==> lies_in(
                package@.root,
                sources[source_id(source)].checkout.root@,
            )
            &&& place_sought((*r)@) matches Ok(PlaceModel::Inside { id, .. }) ==> lies_in(
                package@.root,
                sources[id].checkout.root@,
            )
        }
        &&& done is Err ==> final(r)@ == (*r)@
    } by {
        let sources = (*r).sources.providers@;
        let states = source_states(sources);
        match place_sought((*r)@) {
            Ok(PlaceModel::Git(source)) => {
                let id = source_id(source);
                if sources.contains_key(id) {
                    assert(states[id] == sources[id]@);
                    crate::laws::describing::lemma_prefix(
                        parts_of(states[id].root),
                        parts_of(package@.root),
                    );
                }
            },
            Ok(PlaceModel::Inside { id, .. }) => {
                if sources.contains_key(id) {
                    assert(states[id] == sources[id]@);
                    crate::laws::describing::lemma_prefix(
                        parts_of(states[id].root),
                        parts_of(package@.root),
                    );
                }
            },
            _ => {},
        }
    }
}

/// The Git source of the place that is asked for, if it has one, was brought here.
pub open spec fn source_is_here(r: Resolver) -> bool {
    &&& place_sought(r@) matches Ok(PlaceModel::Git(source)) ==> r.sources.providers@.contains_key(
        source_id(source),
    )
    &&& place_sought(r@) matches Ok(PlaceModel::Inside { id, .. })
        ==> r.sources.providers@.contains_key(id)
}

/// A path is another or lies below it.
pub open spec fn lies_in(path: Seq<char>, directory: Seq<char>) -> bool {
    exists|rest: Seq<Part>| parts_of(path) == #[trigger] (parts_of(directory) + rest)
}

} // verus!
