//! Under which paths the packages are imported, and for which direct dependencies.

use vstd::prelude::*;

use crate::graph::{numbers, reaches, visit_from, visit_order};
use crate::link_path::{LinkPath, LinkPathModel};
use crate::lists::{
    first_some, lemma_first_some_at, lemma_first_some_next, lemma_none_is_some,
    lemma_push_contains,
};
use crate::ordered::{ascending, key_list, Table};
use crate::package::{Package, IMPORT_VERSION};
use crate::resolver::packages::{chain_text, NodeModel, Packages};
use crate::text::{same, texts};

verus! {

broadcast use vstd::string::group_string_axioms;

/// A package that can be imported, and the direct dependencies that make it so.
#[derive(Debug)]
pub struct ResolvedImport {
    pub package: Package,
    pub namespace: String,
    pub version: String,
    pub roots: Vec<String>,
}

impl ResolvedImport {
    /// The place of the import.
    pub open spec fn place(&self) -> LinkPathModel {
        LinkPathModel {
            namespace: self.namespace@,
            name: self.package@.name,
            version: self.version@,
        }
    }
}

/// A package that a direct dependency reaches.
#[derive(Debug)]
pub struct Visit {
    pub name: String,
    pub root: usize,
    pub node: usize,
}

/// A package that a direct dependency reaches, with the dependency's name as text.
pub struct VisitModel {
    pub name: Seq<char>,
    pub root: nat,
    pub node: nat,
}

impl View for Visit {
    type V = VisitModel;

    open spec fn view(&self) -> VisitModel {
        VisitModel { name: self.name@, root: self.root as nat, node: self.node as nat }
    }
}

/// The packages that direct dependencies reach, with their texts.
pub open spec fn visit_models(visits: Seq<Visit>) -> Seq<VisitModel> {
    visits.map_values(|v: Visit| v@)
}

/// The packages that one direct dependency reaches, in the order in which they are come to.
pub open spec fn visits_of(nodes: nat, edges: Seq<(nat, nat)>, name: Seq<char>, root: nat) -> Seq<
    VisitModel,
> {
    visit_order(nodes, edges, root).map_values(|node: nat| VisitModel { name, root, node })
}

/// The packages that the direct dependencies reach, one dependency after the other.
pub open spec fn all_visits(
    nodes: nat,
    edges: Seq<(nat, nat)>,
    names: Seq<Seq<char>>,
    direct: Map<Seq<char>, usize>,
) -> Seq<VisitModel>
    decreases names.len(),
{
    if names.len() == 0 {
        Seq::empty()
    } else {
        all_visits(nodes, edges, names.drop_last(), direct) + visits_of(
            nodes,
            edges,
            names.last(),
            direct[names.last()] as nat,
        )
    }
}

/// Where a package is imported that a direct dependency reaches: the dependency's own package under
/// the stable version, any other under its own.
pub open spec fn place_of_visit(nodes: Seq<NodeModel>, v: VisitModel) -> LinkPathModel {
    let node = nodes[v.node as int];
    LinkPathModel {
        namespace: node.namespace,
        name: node.package.name,
        version: if v.node == v.root {
            IMPORT_VERSION@
        } else {
            node.package.version
        },
    }
}

/// The first that is imported at a place.
pub open spec fn first_at(
    nodes: Seq<NodeModel>,
    visits: Seq<VisitModel>,
    place: LinkPathModel,
) -> Option<int>
    decreases visits.len(),
{
    if visits.len() == 0 {
        None
    } else {
        match first_at(nodes, visits.drop_last(), place) {
            Some(i) => Some(i),
            None => if place_of_visit(nodes, visits.last()) == place {
                Some(visits.len() - 1)
            } else {
                None
            },
        }
    }
}

/// The location of what is visited.
pub open spec fn location_of(nodes: Seq<NodeModel>, v: VisitModel) -> Seq<char> {
    nodes[v.node as int].location_id
}

/// The visit is to a package that lies elsewhere than the first one at the same place.
pub open spec fn clashes(nodes: Seq<NodeModel>, visits: Seq<VisitModel>, k: int) -> bool {
    match first_at(nodes, visits.take(k), place_of_visit(nodes, visits[k])) {
        Some(j) => location_of(nodes, visits[j]) != location_of(nodes, visits[k]),
        None => false,
    }
}

/// The visits that clash, each at its place in the order.
pub open spec fn clash_list(nodes: Seq<NodeModel>, visits: Seq<VisitModel>) -> Seq<Option<int>> {
    Seq::new(
        visits.len(),
        |k: int|
            if clashes(nodes, visits, k) {
                Some(k)
            } else {
                None
            },
    )
}

/// How a clash is told.
pub open spec fn clash_text(
    nodes: Seq<NodeModel>,
    edges: Seq<(nat, nat)>,
    visits: Seq<VisitModel>,
    k: int,
) -> Seq<char> {
    let place = place_of_visit(nodes, visits[k]);
    let first = visits[first_at(nodes, visits.take(k), place)->0];
    "conflicting sources for @"@ + place.namespace + "/"@ + place.name + ":"@ + place.version
        + ":\n  "@ + chain_text(nodes, edges, first.root, first.node) + "\n  "@ + chain_text(
        nodes,
        edges,
        visits[k].root,
        visits[k].node,
    )
        + "\nPackages with the same namespace, name, and import version must use the same source"@
}

/// A direct dependency makes something importable at a place.
pub open spec fn roots_at(
    nodes: Seq<NodeModel>,
    visits: Seq<VisitModel>,
    place: LinkPathModel,
    name: Seq<char>,
) -> bool {
    exists|k: int|
        0 <= k < visits.len() && place_of_visit(nodes, #[trigger] visits[k]) == place
            && visits[k].name == name
}

/// The direct dependency reaches the package.
pub open spec fn visited(visits: Seq<VisitModel>, v: VisitModel) -> bool {
    visits.contains(v)
}

/// The first at a place is at that place, and nothing before it is.
proof fn lemma_first_at(nodes: Seq<NodeModel>, visits: Seq<VisitModel>, place: LinkPathModel)
    ensures
        match first_at(nodes, visits, place) {
            Some(i) => {
                &&& 0 <= i < visits.len()
                &&& place_of_visit(nodes, visits[i]) == place
                &&& forall|j: int|
                    0 <= j < i ==> place_of_visit(nodes, #[trigger] visits[j]) != place
            },
            None => forall|j: int|
                0 <= j < visits.len() ==> place_of_visit(nodes, #[trigger] visits[j]) != place,
        },
    decreases visits.len(),
{
    if visits.len() > 0 {
        let front = visits.drop_last();
        lemma_first_at(nodes, front, place);
        assert forall|j: int| 0 <= j < front.len() implies #[trigger] visits[j] == front[j] by {}
    }
}

/// A visit more changes what comes first only at its own place, and there only where nothing came
/// before.
proof fn lemma_first_at_next(
    nodes: Seq<NodeModel>,
    visits: Seq<VisitModel>,
    i: int,
    place: LinkPathModel,
)
    requires
        0 <= i < visits.len(),
    ensures
        first_at(nodes, visits.take(i + 1), place) == (match first_at(
            nodes,
            visits.take(i),
            place,
        ) {
            Some(j) => Some(j),
            None => if place_of_visit(nodes, visits[i]) == place {
                Some(i)
            } else {
                None
            },
        }),
{
    assert(visits.take(i + 1).drop_last() =~= visits.take(i));
    assert(visits.take(i + 1).last() == visits[i]);
}

/// What is known of a place: the first visit to it, and the direct dependencies that need it.
#[derive(Debug)]
struct Requirement {
    first: usize,
    roots: Vec<String>,
}

/// What is noted of the places after some visits is right.
spec fn noted_right(
    nodes: Seq<NodeModel>,
    visits: Seq<VisitModel>,
    requirements: Map<LinkPathModel, Requirement>,
) -> bool {
    &&& forall|place: LinkPathModel| #[trigger]
        requirements.contains_key(place) <==> first_at(nodes, visits, place) is Some
    &&& forall|place: LinkPathModel| #[trigger]
        requirements.contains_key(place) ==> requirement_right(
            nodes,
            visits,
            place,
            requirements[place],
        )
}

/// What is noted of one place after some visits is right.
spec fn requirement_right(
    nodes: Seq<NodeModel>,
    visits: Seq<VisitModel>,
    place: LinkPathModel,
    requirement: Requirement,
) -> bool {
    &&& first_at(nodes, visits, place) == Some(requirement.first as int)
    &&& ascending::<String>(texts(requirement.roots@))
    &&& forall|name: Seq<char>|
        texts(requirement.roots@).contains(name) <==> #[trigger] roots_at(
            nodes,
            visits,
            place,
            name,
        )
}

/// The direct dependencies that need a place after one visit more.
proof fn lemma_roots_next(
    nodes: Seq<NodeModel>,
    visits: Seq<VisitModel>,
    i: int,
    place: LinkPathModel,
    name: Seq<char>,
)
    requires
        0 <= i < visits.len(),
    ensures
        roots_at(nodes, visits.take(i + 1), place, name) <==> roots_at(
            nodes,
            visits.take(i),
            place,
            name,
        ) || (place_of_visit(nodes, visits[i]) == place && visits[i].name == name),
{
    let a = visits.take(i);
    let b = visits.take(i + 1);
    if roots_at(nodes, a, place, name) {
        let k = choose|k: int|
            0 <= k < a.len() && place_of_visit(nodes, #[trigger] a[k]) == place && a[k].name == name;
        assert(b[k] == a[k]);
    }
    if place_of_visit(nodes, visits[i]) == place && visits[i].name == name {
        assert(b[i] == visits[i]);
    }
    if roots_at(nodes, b, place, name) {
        let k = choose|k: int|
            0 <= k < b.len() && place_of_visit(nodes, #[trigger] b[k]) == place && b[k].name == name;
        if k < i {
            assert(a[k] == b[k]);
        } else {
            assert(b[k] == visits[i]);
        }
    }
}

/// Puts a name into a list in order, unless it is there.
fn add_root(roots: Vec<String>, name: &str) -> (r: Vec<String>)
    requires
        ascending::<String>(texts(roots@)),
    ensures
        ascending::<String>(texts(r@)),
        forall|other: Seq<char>| #[trigger]
            texts(r@).contains(other) <==> texts(roots@).contains(other) || other == name@,
{
    let mut table: Table<String, ()> = Table::new();
    let mut i: usize = 0;
    while i < roots.len()
        invariant
            i <= roots@.len(),
            forall|other: Seq<char>| #[trigger]
                table@.contains_key(other) <==> texts(roots@).take(i as int).contains(other),
        decreases roots@.len() - i,
    {
        let again = table.insert(roots[i].clone(), ());
        proof {
            let all = texts(roots@);
            assert(all[i as int] == roots@[i as int]@);
            assert(all.take(i + 1) =~= all.take(i as int).push(all[i as int]));
            assert forall|other: Seq<char>| #[trigger] table@.contains_key(other) <==> all.take(
                i + 1,
            ).contains(other) by {
                lemma_push_contains(all.take(i as int), all[i as int], other);
            }
        }
        i = i + 1;
    }
    let again = table.insert(name.to_owned(), ());
    proof {
        assert(texts(roots@).take(i as int) =~= texts(roots@));
    }
    let r = key_list(&table);
    proof {
        assert forall|other: Seq<char>| #[trigger] texts(r@).contains(other) <==> texts(
            roots@,
        ).contains(other) || other == name@ by {
            assert(table@.contains_key(other) <==> texts(r@).contains(other));
        }
    }
    r
}

impl Packages {
    /// The packages that the direct dependencies reach.
    pub fn visits(&self, direct: &Table<String, usize>) -> (r: Vec<Visit>)
        requires
            self.wf(),
            forall|name: Seq<char>| #[trigger]
                direct@.contains_key(name) ==> direct@[name] < self.models().len(),
        ensures
            ascending::<String>(direct.keys()),
            forall|name: Seq<char>| #[trigger]
                direct.keys().contains(name) <==> direct@.contains_key(name),
            visit_models(r@) == all_visits(
                self.models().len(),
                self.edges(),
                direct.keys(),
                direct@,
            ),
            forall|i: int|
                0 <= i < r@.len() ==> (#[trigger] r@[i]).root < self.models().len() && r@[i].node
                    < self.models().len(),
            forall|name: Seq<char>, node: nat|
                direct@.contains_key(name) ==> (#[trigger] reaches(
                    self.edges(),
                    direct@[name] as nat,
                    node,
                ) <==> visited(
                    visit_models(r@),
                    (VisitModel { name, root: direct@[name] as nat, node }),
                )),
    {
        let mut r: Vec<Visit> = Vec::new();
        let count = direct.len();
        let ghost n = self.models().len();
        let ghost edges = self.edges();
        let ghost keys = direct.keys();
        let mut i: usize = 0;
        proof {
            assert(visit_models(r@) =~= Seq::<VisitModel>::empty());
            assert(keys.take(0) =~= Seq::<Seq<char>>::empty());
        }
        while i < count
            invariant
                self.wf(),
                i <= count,
                count == keys.len(),
                keys == direct.keys(),
                keys.no_duplicates(),
                n == self.models().len(),
                n == self.nodes@.len(),
                edges == self.edges(),
                forall|name: Seq<char>| #[trigger]
                    direct@.contains_key(name) ==> direct@[name] < self.models().len(),
                visit_models(r@) == all_visits(n, edges, keys.take(i as int), direct@),
                forall|j: int|
                    0 <= j < r@.len() ==> (#[trigger] r@[j]).root < n && r@[j].node < n,
                forall|j: int|
                    0 <= j < r@.len() ==> keys.take(i as int).contains((#[trigger] r@[j])@.name),
                forall|j: int, node: nat|
                    0 <= j < i ==> (#[trigger] reaches(
                        edges,
                        direct@[#[trigger] keys[j]] as nat,
                        node,
                    ) <==> visited(
                        visit_models(r@),
                        (VisitModel { name: keys[j], root: direct@[keys[j]] as nat, node }),
                    )),
            decreases count - i,
        {
            let name = direct.key_at(i);
            let root = *direct.value_at(i);
            let order = visit_from(&self.graph, root);
            let ghost before = r@;
            let ghost added = visits_of(n, edges, name@, root as nat);
            let mut k: usize = 0;
            proof {
                assert(numbers(order@).len() == order@.len());
                assert(visit_models(before) + added.take(0) =~= visit_models(before));
            }
            while k < order.len()
                invariant
                    k <= order@.len(),
                    n == self.models().len(),
                    root < n,
                    added == visits_of(n, edges, name@, root as nat),
                    numbers(order@) == visit_order(n, edges, root as nat),
                    added.len() == order@.len(),
                    forall|j: int| 0 <= j < order@.len() ==> #[trigger] order@[j] < n,
                    visit_models(r@) == visit_models(before) + added.take(k as int),
                    forall|j: int|
                        0 <= j < before.len() ==> (#[trigger] before[j]).root < n && before[j].node
                            < n,
                    forall|j: int|
                        0 <= j < r@.len() ==> (#[trigger] r@[j]).root < n && r@[j].node < n,
                decreases order@.len() - k,
            {
                let visit = Visit { name: name.clone(), root, node: order[k] };
                proof {
                    assert(numbers(order@)[k as int] == order@[k as int] as nat);
                    assert(added[k as int] == visit@);
                    assert(visit_models(r@.push(visit)) =~= visit_models(r@).push(visit@));
                    assert(visit_models(before) + added.take(k + 1) =~= (visit_models(before)
                        + added.take(k as int)).push(visit@));
                }
                r.push(visit);
                k = k + 1;
            }
            proof {
                assert(added.take(k as int) =~= added);
                assert(keys.take(i + 1).drop_last() =~= keys.take(i as int));
                assert(keys.take(i + 1).last() == name@);
                let old_models = visit_models(before);
                let now = visit_models(r@);
                assert(now == old_models + added);
                assert forall|j: int| 0 <= j < r@.len() implies keys.take(i + 1).contains(
                    (#[trigger] r@[j])@.name,
                ) by {
                    assert(now[j] == r@[j]@);
                    if j < before.len() {
                        assert(old_models[j] == before[j]@);
                        assert(keys.take(i as int).contains(before[j]@.name));
                        let q = choose|q: int|
                            0 <= q < keys.take(i as int).len() && keys.take(i as int)[q]
                                == before[j]@.name;
                        assert(keys.take(i + 1)[q] == r@[j]@.name);
                    } else {
                        assert(now[j] == added[j - before.len()]);
                        assert(keys.take(i + 1)[i as int] == name@);
                    }
                }
                assert forall|j: int, node: nat| 0 <= j < i + 1 implies (#[trigger] reaches(
                    edges,
                    direct@[#[trigger] keys[j]] as nat,
                    node,
                ) <==> visited(
                    now,
                    (VisitModel { name: keys[j], root: direct@[keys[j]] as nat, node }),
                )) by {
                    let v = VisitModel { name: keys[j], root: direct@[keys[j]] as nat, node };
                    if j < i {
                        assert(keys[j] != keys[i as int]);
                        assert(reaches(edges, direct@[keys[j]] as nat, node) <==> visited(
                            old_models,
                            v,
                        ));
                        if visited(old_models, v) {
                            let q = choose|q: int|
                                0 <= q < old_models.len() && old_models[q] == v;
                            assert(now[q] == v);
                        }
                        if visited(now, v) {
                            let q = choose|q: int| 0 <= q < now.len() && now[q] == v;
                            if q >= old_models.len() {
                                assert(now[q] == added[q - old_models.len()]);
                                assert(added[q - old_models.len()].name == name@);
                            } else {
                                assert(old_models[q] == v);
                            }
                        }
                    } else {
                        if reaches(edges, root as nat, node) {
                            assert(numbers(order@).contains(node));
                            let q = choose|q: int|
                                0 <= q < numbers(order@).len() && numbers(order@)[q] == node;
                            assert(added[q] == v);
                            assert(now[old_models.len() + q] == v);
                        }
                        if visited(now, v) {
                            let q = choose|q: int| 0 <= q < now.len() && now[q] == v;
                            if q < old_models.len() {
                                assert(old_models[q] == before[q]@);
                                assert(keys.take(i as int).contains(before[q]@.name));
                                let w = choose|w: int|
                                    0 <= w < keys.take(i as int).len() && keys.take(i as int)[w]
                                        == before[q]@.name;
                                assert(keys[w] == keys[i as int]);
                            } else {
                                let w = q - old_models.len();
                                assert(added[w] == v);
                                assert(numbers(order@)[w] == node);
                                assert(numbers(order@).contains(node));
                            }
                        }
                    }
                }
            }
            i = i + 1;
        }
        proof {
            assert(keys.take(i as int) =~= keys);
            assert forall|name: Seq<char>, node: nat| direct@.contains_key(name) implies (
            #[trigger] reaches(self.edges(), direct@[name] as nat, node) <==> visited(
                visit_models(r@),
                (VisitModel { name, root: direct@[name] as nat, node }),
            )) by {
                assert(keys.contains(name));
                let j = choose|j: int| 0 <= j < keys.len() && keys[j] == name;
                assert(reaches(edges, direct@[keys[j]] as nat, node) <==> visited(
                    visit_models(r@),
                    (VisitModel { name: keys[j], root: direct@[keys[j]] as nat, node }),
                ));
            }
        }
        r
    }
}

/// The places of imports.
pub open spec fn places(imports: Seq<ResolvedImport>) -> Seq<LinkPathModel> {
    imports.map_values(|i: ResolvedImport| i.place())
}

/// An import is of the first package at its place, for the direct dependencies that need it.
pub open spec fn import_right(
    nodes: Seq<NodeModel>,
    visits: Seq<VisitModel>,
    import: ResolvedImport,
) -> bool {
    let first = first_at(nodes, visits, import.place());
    &&& first is Some
    &&& import.package@ == nodes[visits[first->0].node as int].package
    &&& ascending::<String>(texts(import.roots@))
    &&& forall|name: Seq<char>|
        texts(import.roots@).contains(name) <==> #[trigger] roots_at(
            nodes,
            visits,
            import.place(),
            name,
        )
}

/// There is one import at every place that is come to, in the order of the places.
pub open spec fn imports_right(
    nodes: Seq<NodeModel>,
    visits: Seq<VisitModel>,
    imports: Seq<ResolvedImport>,
) -> bool {
    &&& ascending::<LinkPath>(places(imports))
    &&& forall|place: LinkPathModel|
        places(imports).contains(place) <==> #[trigger] first_at(nodes, visits, place) is Some
    &&& forall|i: int|
        0 <= i < imports.len() ==> import_right(nodes, visits, #[trigger] imports[i])
}

impl Packages {
    /// Where a package is imported that a direct dependency reaches.
    fn place_at(&self, visit: &Visit) -> (r: LinkPath)
        requires
            visit.node < self.models().len(),
        ensures
            r@ == place_of_visit(self.models(), visit@),
    {
        let node = &self.nodes[visit.node];
        assert(self.models()[visit.node as int] == node@);
        let version = if visit.node == visit.root {
            IMPORT_VERSION.to_owned()
        } else {
            node.package.version.clone()
        };
        LinkPath { namespace: node.namespace.clone(), name: node.package.name.clone(), version }
    }

    /// How a clash is told.
    fn tell_clash(&self, place: &LinkPath, first: &Visit, other: &Visit) -> (r: String)
        requires
            self.wf(),
            first.node < self.models().len(),
            first.root < self.models().len(),
            other.node < self.models().len(),
            other.root < self.models().len(),
        ensures
            r@ == "conflicting sources for @"@ + place@.namespace + "/"@ + place@.name + ":"@
                + place@.version + ":\n  "@ + chain_text(
                self.models(),
                self.edges(),
                first@.root,
                first@.node,
            ) + "\n  "@ + chain_text(self.models(), self.edges(), other@.root, other@.node)
                + "\nPackages with the same namespace, name, and import version must use the same source"@,
    {
        let mut r = crate::text::plus3(
            "conflicting sources for @",
            place.namespace.as_str(),
            "/",
        );
        r.append(place.name.as_str());
        r.append(":");
        r.append(place.version.as_str());
        r.append(":\n  ");
        r.append(self.dependency_chain(first.root, first.node).as_str());
        r.append("\n  ");
        r.append(self.dependency_chain(other.root, other.node).as_str());
        r.append(
            "\nPackages with the same namespace, name, and import version must use the same source",
        );
        r
    }

    /// Under which paths the packages are imported that the direct dependencies reach, or how two
    /// of them clash.
    pub fn resolve_imports(&self, direct: &Table<String, usize>) -> (r: Result<
        Vec<ResolvedImport>,
        String,
    >)
        requires
            self.wf(),
            forall|name: Seq<char>| #[trigger]
                direct@.contains_key(name) ==> direct@[name] < self.models().len(),
        ensures
            ({
                let nodes = self.models();
                let visits = all_visits(nodes.len(), self.edges(), direct.keys(), direct@);
                &&& ascending::<String>(direct.keys())
                &&& forall|name: Seq<char>| #[trigger]
                    direct.keys().contains(name) <==> direct@.contains_key(name)
                &&& forall|name: Seq<char>, node: nat|
                    direct@.contains_key(name) ==> (#[trigger] reaches(
                        self.edges(),
                        direct@[name] as nat,
                        node,
                    ) <==> visited(
                        visits,
                        (VisitModel { name, root: direct@[name] as nat, node }),
                    ))
                &&& match first_some(clash_list(nodes, visits)) {
                    Some(k) => r is Err && r->Err_0@ == clash_text(
                        nodes,
                        self.edges(),
                        visits,
                        k,
                    ),
                    None => r is Ok && imports_right(nodes, visits, r->Ok_0@),
                }
            }),
    {
        let visits = self.visits(direct);
        let ghost nodes = self.models();
        let ghost edges = self.edges();
        let ghost all = visit_models(visits@);
        let ghost list = clash_list(nodes, all);
        let mut requirements: Table<LinkPath, Requirement> = Table::new();
        let mut i: usize = 0;
        proof {
            assert(all.take(0) =~= Seq::<VisitModel>::empty());
            assert(list.take(0) =~= Seq::<Option<int>>::empty());
        }
        while i < visits.len()
            invariant
                self.wf(),
                nodes == self.models(),
                edges == self.edges(),
                all == visit_models(visits@),
                all == all_visits(nodes.len(), edges, direct.keys(), direct@),
                ascending::<String>(direct.keys()),
                forall|name: Seq<char>| #[trigger]
                    direct.keys().contains(name) <==> direct@.contains_key(name),
                list == clash_list(nodes, all),
                i <= visits@.len(),
                forall|j: int|
                    0 <= j < visits@.len() ==> (#[trigger] visits@[j]).root < nodes.len()
                        && visits@[j].node < nodes.len(),
                noted_right(nodes, all.take(i as int), requirements@),
                first_some(list.take(i as int)) is None,
                forall|name: Seq<char>, node: nat|
                    direct@.contains_key(name) ==> (#[trigger] reaches(
                        edges,
                        direct@[name] as nat,
                        node,
                    ) <==> visited(all, (VisitModel { name, root: direct@[name] as nat, node }))),
            decreases visits@.len() - i,
        {
            let visit = &visits[i];
            let place = self.place_at(visit);
            let ghost before = requirements@;
            proof {
                assert(all[i as int] == visit@);
                lemma_first_at(nodes, all.take(i as int), place@);
                assert(all.take(i as int).len() == i);
            }
            match requirements.remove(&place) {
                Some(requirement) => {
                    let first = &visits[requirement.first];
                    proof {
                        assert(requirement_right(
                            nodes,
                            all.take(i as int),
                            place@,
                            before[place@],
                        ));
                        assert(all[requirement.first as int] == first@);
                        assert(all.take(i as int)[requirement.first as int] == first@);
                        assert(nodes[first.node as int] == self.nodes@[first.node as int]@);
                        assert(nodes[visit.node as int] == self.nodes@[visit.node as int]@);
                    }
                    if !same(
                        self.nodes[first.node].location_id.as_str(),
                        self.nodes[visit.node].location_id.as_str(),
                    ) {
                        proof {
                            assert(clashes(nodes, all, i as int));
                            assert(list[i as int] == Some(i as int));
                            lemma_first_some_at(list, i as int);
                        }
                        return Err(self.tell_clash(&place, first, visit));
                    }
                    let ghost old_roots = texts(requirement.roots@);
                    let roots = add_root(requirement.roots, visit.name.as_str());
                    let renewed = Requirement { first: requirement.first, roots };
                    let ghost added = renewed;
                    let ghost at = place@;
                    let again = requirements.insert(place, renewed);
                    proof {
                        assert(requirements@ =~= before.insert(at, added));
                        assert(!clashes(nodes, all, i as int));
                        lemma_renewed(
                            nodes,
                            all,
                            i as int,
                            before,
                            requirements@,
                            at,
                            added,
                            old_roots,
                        );
                        lemma_first_some_next(list, i as int);
                    }
                },
                None => {
                    let mut roots: Vec<String> = Vec::new();
                    roots.push(visit.name.clone());
                    let ghost at = place@;
                    let fresh = Requirement { first: i, roots };
                    let ghost added = fresh;
                    let again = requirements.insert(place, fresh);
                    proof {
                        assert(before.remove(at) =~= before);
                        assert(requirements@ =~= before.insert(at, added));
                        assert(first_at(nodes, all.take(i as int), at) is None);
                        assert(!clashes(nodes, all, i as int));
                        assert(texts(added.roots@) =~= seq![visit@.name]);
                        lemma_fresh(nodes, all, i as int, before, requirements@, at, added);
                        lemma_first_some_next(list, i as int);
                    }
                },
            }
            i = i + 1;
        }
        proof {
            assert(all.take(i as int) =~= all);
            assert(list.take(i as int) =~= list);
        }
        let count = requirements.len();
        let ghost keys = requirements.keys();
        let mut imports: Vec<ResolvedImport> = Vec::new();
        let mut k: usize = 0;
        assert(places(imports@) =~= keys.take(0));
        while k < count
            invariant
                self.wf(),
                nodes == self.models(),
                all == visit_models(visits@),
                k <= count,
                count == keys.len(),
                keys == requirements.keys(),
                noted_right(nodes, all, requirements@),
                forall|j: int|
                    0 <= j < visits@.len() ==> (#[trigger] visits@[j]).root < nodes.len()
                        && visits@[j].node < nodes.len(),
                places(imports@) == keys.take(k as int),
                forall|j: int|
                    0 <= j < imports@.len() ==> import_right(nodes, all, #[trigger] imports@[j]),
            decreases count - k,
        {
            let place = requirements.key_at(k);
            let requirement = requirements.value_at(k);
            proof {
                assert(requirement_right(nodes, all, place@, *requirement));
                lemma_first_at(nodes, all, place@);
                assert(all[requirement.first as int] == visits@[requirement.first as int]@);
            }
            let visit = &visits[requirement.first];
            let package = self.nodes[visit.node].package.clone();
            let import = ResolvedImport {
                package,
                namespace: place.namespace.clone(),
                version: place.version.clone(),
                roots: crate::text::copy_texts(&requirement.roots),
            };
            proof {
                assert(nodes[visit.node as int] == self.nodes@[visit.node as int]@);
                assert(import.place() == place@);
                assert(places(imports@.push(import)) =~= places(imports@).push(place@));
                assert(keys.take(k + 1) =~= keys.take(k as int).push(place@));
            }
            imports.push(import);
            k = k + 1;
        }
        proof {
            assert(keys.take(k as int) =~= keys);
            assert forall|place: LinkPathModel|
                places(imports@).contains(place) <==> #[trigger] first_at(
                    nodes,
                    all,
                    place,
                ) is Some by {
                assert(requirements@.contains_key(place) <==> keys.contains(place));
            }
        }
        Ok(imports)
    }
}

/// What is noted of the places stays right when a place that is known is visited again.
proof fn lemma_renewed(
    nodes: Seq<NodeModel>,
    all: Seq<VisitModel>,
    i: int,
    before: Map<LinkPathModel, Requirement>,
    now: Map<LinkPathModel, Requirement>,
    at: LinkPathModel,
    added: Requirement,
    old_roots: Seq<Seq<char>>,
)
    requires
        0 <= i < all.len(),
        noted_right(nodes, all.take(i), before),
        at == place_of_visit(nodes, all[i]),
        before.contains_key(at),
        now == before.insert(at, added),
        added.first == before[at].first,
        old_roots == texts(before[at].roots@),
        ascending::<String>(texts(added.roots@)),
        forall|other: Seq<char>| #[trigger]
            texts(added.roots@).contains(other) <==> old_roots.contains(other) || other
                == all[i].name,
    ensures
        noted_right(nodes, all.take(i + 1), now),
{
    assert(requirement_right(nodes, all.take(i), at, before[at]));
    assert forall|place: LinkPathModel| #[trigger]
        now.contains_key(place) <==> first_at(nodes, all.take(i + 1), place) is Some by {
        lemma_first_at_next(nodes, all, i, place);
        assert(before.contains_key(place) <==> first_at(nodes, all.take(i), place) is Some);
    }
    assert forall|place: LinkPathModel| #[trigger] now.contains_key(place) implies requirement_right(
        nodes,
        all.take(i + 1),
        place,
        now[place],
    ) by {
        lemma_first_at_next(nodes, all, i, place);
        assert(before.contains_key(place));
        assert(requirement_right(nodes, all.take(i), place, before[place]));
        assert forall|name: Seq<char>|
            texts(now[place].roots@).contains(name) <==> #[trigger] roots_at(
                nodes,
                all.take(i + 1),
                place,
                name,
            ) by {
            lemma_roots_next(nodes, all, i, place, name);
            assert(texts(before[place].roots@).contains(name) <==> roots_at(
                nodes,
                all.take(i),
                place,
                name,
            ));
            if place == at {
                assert(texts(added.roots@).contains(name) <==> old_roots.contains(name) || name
                    == all[i].name);
            }
        }
    }
}

/// What is noted of the places stays right when a place is visited for the first time.
proof fn lemma_fresh(
    nodes: Seq<NodeModel>,
    all: Seq<VisitModel>,
    i: int,
    before: Map<LinkPathModel, Requirement>,
    now: Map<LinkPathModel, Requirement>,
    at: LinkPathModel,
    added: Requirement,
)
    requires
        0 <= i < all.len(),
        noted_right(nodes, all.take(i), before),
        at == place_of_visit(nodes, all[i]),
        !before.contains_key(at),
        now == before.insert(at, added),
        added.first == i,
        texts(added.roots@) == seq![all[i].name],
    ensures
        noted_right(nodes, all.take(i + 1), now),
{
    assert(first_at(nodes, all.take(i), at) is None);
    assert forall|place: LinkPathModel| #[trigger]
        now.contains_key(place) <==> first_at(nodes, all.take(i + 1), place) is Some by {
        lemma_first_at_next(nodes, all, i, place);
        assert(before.contains_key(place) <==> first_at(nodes, all.take(i), place) is Some);
    }
    assert forall|place: LinkPathModel| #[trigger] now.contains_key(place) implies requirement_right(
        nodes,
        all.take(i + 1),
        place,
        now[place],
    ) by {
        lemma_first_at_next(nodes, all, i, place);
        if place == at {
            lemma_first_at(nodes, all.take(i), at);
            assert(ascending::<String>(texts(added.roots@)));
            assert forall|name: Seq<char>|
                texts(now[place].roots@).contains(name) <==> #[trigger] roots_at(
                    nodes,
                    all.take(i + 1),
                    place,
                    name,
                ) by {
                lemma_roots_next(nodes, all, i, place, name);
                let one = seq![all[i].name];
                assert(one.contains(name) <==> name == all[i].name) by {
                    assert(one[0] == all[i].name);
                }
                if roots_at(nodes, all.take(i), place, name) {
                    let early = all.take(i);
                    let k = choose|k: int|
                        0 <= k < early.len() && place_of_visit(nodes, #[trigger] early[k]) == place
                            && early[k].name == name;
                    assert(place_of_visit(nodes, early[k]) != at);
                }
            }
        } else {
            assert(before.contains_key(place));
            assert(requirement_right(nodes, all.take(i), place, before[place]));
            assert forall|name: Seq<char>|
                texts(now[place].roots@).contains(name) <==> #[trigger] roots_at(
                    nodes,
                    all.take(i + 1),
                    place,
                    name,
                ) by {
                lemma_roots_next(nodes, all, i, place, name);
                assert(texts(before[place].roots@).contains(name) <==> roots_at(
                    nodes,
                    all.take(i),
                    place,
                    name,
                ));
            }
        }
    }
}

/// Where nothing clashes, packages that are imported at the same place lie in the same location.
pub proof fn lemma_same_place_same_location(
    nodes: Seq<NodeModel>,
    visits: Seq<VisitModel>,
    a: int,
    b: int,
)
    requires
        first_some(clash_list(nodes, visits)) is None,
        0 <= a < visits.len(),
        0 <= b < visits.len(),
        place_of_visit(nodes, visits[a]) == place_of_visit(nodes, visits[b]),
    ensures
        location_of(nodes, visits[a]) == location_of(nodes, visits[b]),
{
    lemma_agrees_with_first(nodes, visits, a);
    lemma_agrees_with_first(nodes, visits, b);
}

/// Where nothing clashes, a package lies where the first at its place does.
proof fn lemma_agrees_with_first(nodes: Seq<NodeModel>, visits: Seq<VisitModel>, k: int)
    requires
        first_some(clash_list(nodes, visits)) is None,
        0 <= k < visits.len(),
    ensures
        ({
            let first = first_at(nodes, visits, place_of_visit(nodes, visits[k]));
            first is Some && location_of(nodes, visits[first->0]) == location_of(nodes, visits[k])
        }),
{
    let list = clash_list(nodes, visits);
    lemma_none_is_some(list, k);
    assert(list[k] is None);
    assert(!clashes(nodes, visits, k));
    let place = place_of_visit(nodes, visits[k]);
    lemma_first_at(nodes, visits, place);
    lemma_first_at(nodes, visits.take(k), place);
    let first = first_at(nodes, visits, place)->0;
    match first_at(nodes, visits.take(k), place) {
        Some(j) => {
            assert(visits.take(k)[j] == visits[j]);
            if first < j {
                assert(visits.take(k)[first] == visits[first]);
            }
            assert(first == j);
        },
        None => {
            if first < k {
                assert(visits.take(k)[first] == visits[first]);
            }
            assert(first == k);
        },
    }
}

} // verus!
