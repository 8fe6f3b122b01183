//! Resolving: under which paths the packages are imported that a project reaches.

use vstd::prelude::*;

use crate::graph::{acyclic, reaches};
use crate::lists::lemma_all_none;
use crate::resolver::imports::{
    all_visits, clash_list, clashes, first_at, import_right, lemma_same_place_same_location,
    place_of_visit, places, visited, visits_of, VisitModel,
};
use crate::resolver::visit::Resolver;
use crate::resolver::Resolution;
use crate::text::texts;

verus! {

broadcast use vstd::string::group_string_axioms;

/// What is visited is visited for a direct dependency, from its own package on.
proof fn lemma_visits_are_direct(
    nodes: nat,
    edges: Seq<(nat, nat)>,
    names: Seq<Seq<char>>,
    direct: Map<Seq<char>, usize>,
)
    ensures
        forall|k: int|
            0 <= k < all_visits(nodes, edges, names, direct).len() ==> {
                let v = #[trigger] all_visits(nodes, edges, names, direct)[k];
                names.contains(v.name) && v.root == direct[v.name]
            },
    decreases names.len(),
{
    let all = all_visits(nodes, edges, names, direct);
    if names.len() > 0 {
        let shorter = names.drop_last();
        let front = all_visits(nodes, edges, shorter, direct);
        let name = names.last();
        let rest = visits_of(nodes, edges, name, direct[name] as nat);
        lemma_visits_are_direct(nodes, edges, shorter, direct);
        assert forall|k: int| 0 <= k < all.len() implies ({
            let v = #[trigger] all[k];
            names.contains(v.name) && v.root == direct[v.name]
        }) by {
            if k < front.len() {
                assert(all[k] == front[k]);
                let j = choose|j: int| 0 <= j < shorter.len() && shorter[j] == front[k].name;
                assert(names[j] == front[k].name);
            } else {
                assert(all[k] == rest[k - front.len()]);
                assert(names[names.len() - 1] == name);
            }
        }
    }
}

/// Whatever a direct dependency reaches can be imported in its namespace under its name: the package of
/// the dependency itself as version 0.0.0, and any other package as the version that its own manifest
/// gives. The dependency is among those that the import is made for.
pub proof fn lemma_reached_is_imported(
    resolver: &Resolver,
    r: Result<Resolution, String>,
    name: Seq<char>,
    node: nat,
)
    requires
        call_ensures(Resolver::resolve, (resolver,), r),
        r is Ok,
        resolver@.direct.contains_key(name),
        reaches(resolver@.edges, resolver@.direct[name], node),
    ensures
        exists|i: int|
            0 <= i < r->Ok_0.imports@.len() && {
                let import = #[trigger] r->Ok_0.imports@[i];
                &&& import.namespace@ == resolver@.nodes[node as int].namespace
                &&& import.package.name@ == resolver@.nodes[node as int].package.name
                &&& node == resolver@.direct[name] ==> import.version@ == "0.0.0"@
                &&& node != resolver@.direct[name] ==> import.version@
                    == resolver@.nodes[node as int].package.version
                &&& texts(import.roots@).contains(name)
            },
{
    let nodes = resolver@.nodes;
    let imports = r->Ok_0.imports@;
    let visits = all_visits(
        nodes.len(),
        resolver@.edges,
        resolver.direct.keys(),
        resolver.direct@,
    );
    let v = VisitModel { name, root: resolver@.direct[name], node };
    assert(visited(visits, v));
    let k = choose|k: int| 0 <= k < visits.len() && visits[k] == v;
    let place = place_of_visit(nodes, v);
    lemma_first(nodes, visits, k);
    assert(places(imports).contains(place));
    let i = choose|i: int| 0 <= i < places(imports).len() && places(imports)[i] == place;
    assert(places(imports)[i] == imports[i].place());
    assert(import_right(nodes, visits, imports[i]));
    assert(crate::resolver::imports::roots_at(nodes, visits, place, name));
}

/// Something that is visited has a first one at its place.
proof fn lemma_first(
    nodes: Seq<crate::resolver::packages::NodeModel>,
    visits: Seq<VisitModel>,
    k: int,
)
    requires
        0 <= k < visits.len(),
    ensures
        first_at(nodes, visits, place_of_visit(nodes, visits[k])) is Some,
    decreases visits.len(),
{
    if k < visits.len() - 1 {
        assert(visits.drop_last()[k] == visits[k]);
        lemma_first(nodes, visits.drop_last(), k);
    }
}

/// The first at a place is one of those that are visited, and at that place.
proof fn lemma_first_is_there(
    nodes: Seq<crate::resolver::packages::NodeModel>,
    visits: Seq<VisitModel>,
    place: crate::link_path::LinkPathModel,
)
    ensures
        first_at(nodes, visits, place) matches Some(k) ==> 0 <= k < visits.len() && place_of_visit(
            nodes,
            visits[k],
        ) == place,
    decreases visits.len(),
{
    if visits.len() > 0 {
        lemma_first_is_there(nodes, visits.drop_last(), place);
    }
}

/// Nothing else can be imported: every import is of a package that a direct dependency reaches, in the
/// package's namespace, and as version 0.0.0 only where it is that dependency's own package, else as the
/// version of its manifest. No two imports are at one place.
pub proof fn lemma_imported_is_reached(
    resolver: &Resolver,
    r: Result<Resolution, String>,
    i: int,
)
    requires
        call_ensures(Resolver::resolve, (resolver,), r),
        r is Ok,
        0 <= i < r->Ok_0.imports@.len(),
    ensures
        exists|name: Seq<char>, node: nat| #[trigger]
            reaches(resolver@.edges, resolver@.direct[name], node)
                && resolver@.direct.contains_key(name) && {
                let import = r->Ok_0.imports@[i];
                &&& import.package@ == resolver@.nodes[node as int].package
                &&& import.namespace@ == resolver@.nodes[node as int].namespace
                &&& import.version@ == (if node == resolver@.direct[name] {
                    "0.0.0"@
                } else {
                    resolver@.nodes[node as int].package.version
                })
            },
{
    let nodes = resolver@.nodes;
    let imports = r->Ok_0.imports@;
    let visits = all_visits(
        nodes.len(),
        resolver@.edges,
        resolver.direct.keys(),
        resolver.direct@,
    );
    let import = imports[i];
    assert(import_right(nodes, visits, imports[i]));
    assert(places(imports)[i] == import.place());
    assert(places(imports).contains(import.place()));
    lemma_first_is_there(nodes, visits, import.place());
    lemma_visits_are_direct(
        nodes.len(),
        resolver@.edges,
        resolver.direct.keys(),
        resolver.direct@,
    );
    let k = first_at(nodes, visits, import.place())->0;
    let v = visits[k];
    assert(resolver.direct.keys().contains(v.name));
    assert(resolver.direct@.contains_key(v.name));
    assert(resolver@.direct.contains_key(v.name));
    assert(resolver@.direct[v.name] == v.root);
    assert(v == (VisitModel { name: v.name, root: resolver@.direct[v.name], node: v.node }));
    assert(visited(visits, v));
    assert(reaches(resolver@.edges, resolver@.direct[v.name], v.node));
}

/// Packages that would be imported at one place must lie in one location: two that do not, reached by
/// whatever direct dependencies, make the resolution fail.
pub proof fn lemma_other_source_is_refused(
    resolver: &Resolver,
    r: Result<Resolution, String>,
    a_name: Seq<char>,
    a: nat,
    b_name: Seq<char>,
    b: nat,
)
    requires
        call_ensures(Resolver::resolve, (resolver,), r),
        resolver@.direct.contains_key(a_name),
        resolver@.direct.contains_key(b_name),
        reaches(resolver@.edges, resolver@.direct[a_name], a),
        reaches(resolver@.edges, resolver@.direct[b_name], b),
        ({
            let x = resolver@.nodes[a as int];
            let y = resolver@.nodes[b as int];
            &&& x.namespace == y.namespace
            &&& x.package.name == y.package.name
            &&& (a == resolver@.direct[a_name]) && (b == resolver@.direct[b_name]) || (a
                != resolver@.direct[a_name]) && (b != resolver@.direct[b_name])
                && x.package.version == y.package.version
            &&& x.location_id != y.location_id
        }),
    ensures
        r is Err,
{
    if r is Ok {
        let nodes = resolver@.nodes;
        let visits = all_visits(
            nodes.len(),
            resolver@.edges,
            resolver.direct.keys(),
            resolver.direct@,
        );
        let v = VisitModel { name: a_name, root: resolver@.direct[a_name], node: a };
        let w = VisitModel { name: b_name, root: resolver@.direct[b_name], node: b };
        assert(visited(visits, v) && visited(visits, w));
        let i = choose|i: int| 0 <= i < visits.len() && visits[i] == v;
        let j = choose|j: int| 0 <= j < visits.len() && visits[j] == w;
        lemma_same_place_same_location(nodes, visits, i, j);
    }
}

/// A resolution fails where a package depends on itself; else it succeeds where the packages of one name
/// in one namespace that are reached all lie in one location.
pub proof fn lemma_resolution_is_owed(resolver: &Resolver, r: Result<Resolution, String>)
    requires
        call_ensures(Resolver::resolve, (resolver,), r),
    ensures
        !acyclic(resolver@.edges) ==> r is Err,
        acyclic(resolver@.edges) && (forall|x: Seq<char>, a: nat, y: Seq<char>, b: nat|
            #![trigger reaches(resolver@.edges, resolver@.direct[x], a), reaches(
                resolver@.edges,
                resolver@.direct[y],
                b,
            )]
            resolver@.direct.contains_key(x) && resolver@.direct.contains_key(y) && reaches(
                resolver@.edges,
                resolver@.direct[x],
                a,
            ) && reaches(resolver@.edges, resolver@.direct[y], b)
                && resolver@.nodes[a as int].namespace == resolver@.nodes[b as int].namespace
                && resolver@.nodes[a as int].package.name == resolver@.nodes[b as int].package.name
                ==> resolver@.nodes[a as int].location_id
                == resolver@.nodes[b as int].location_id) ==> r is Ok,
{
    let nodes = resolver@.nodes;
    let visits = all_visits(
        nodes.len(),
        resolver@.edges,
        resolver.direct.keys(),
        resolver.direct@,
    );
    let list = clash_list(nodes, visits);
    if acyclic(resolver@.edges) && r is Err {
        if forall|k: int| 0 <= k < list.len() ==> (#[trigger] list[k]) is None {
            lemma_all_none(list);
        }
        let k = choose|k: int| 0 <= k < list.len() && !((#[trigger] list[k]) is None);
        assert(clashes(nodes, visits, k));
        let place = place_of_visit(nodes, visits[k]);
        lemma_first_is_there(nodes, visits.take(k), place);
        let j = first_at(nodes, visits.take(k), place)->0;
        let v = visits[k];
        let w = visits[j];
        assert(visits.take(k)[j] == w);
        lemma_visits_are_direct(
            nodes.len(),
            resolver@.edges,
            resolver.direct.keys(),
            resolver.direct@,
        );
        assert(resolver.direct.keys().contains(v.name) && resolver.direct.keys().contains(w.name));
        assert(resolver@.direct.contains_key(v.name) && resolver@.direct.contains_key(w.name));
        assert(v == (VisitModel { name: v.name, root: resolver@.direct[v.name], node: v.node }));
        assert(w == (VisitModel { name: w.name, root: resolver@.direct[w.name], node: w.node }));
        assert(visited(visits, v) && visited(visits, w));
        assert(reaches(resolver@.edges, resolver@.direct[v.name], v.node));
        assert(reaches(resolver@.edges, resolver@.direct[w.name], w.node));
    }
}

} // verus!
