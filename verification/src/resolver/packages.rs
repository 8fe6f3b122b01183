//! The packages of a resolution and what each depends on.

use petgraph::Directed;
use petgraph::graph::Graph;
use vstd::prelude::*;

use crate::graph::{
    add_edge, add_node, acyclic, cycle_node, edges_of, find_cycle, find_way, leads,
    lemma_successors, linked, neighbors, new_graph, node_count, numbers, on_cycle, reaches,
    shortest_way, successors,
};
use crate::lists::{first_some, lemma_first_some_at, lemma_first_some_next};
use crate::package::{package_label, package_text, Package, PackageModel};
use crate::sources::{hashed, opt_pin, PackageIdentity, PackagePin, PinModel};
use crate::text::{join, joined, plus, texts};

verus! {

broadcast use vstd::string::group_string_axioms;

/// A package that was found, in a namespace.
#[derive(Debug)]
pub struct PackageNode {
    pub id: String,
    pub location_id: String,
    pub package: Package,
    pub namespace: String,
    pub pin: Option<PackagePin>,
}

/// A package that was found, with its texts.
pub struct NodeModel {
    pub id: Seq<char>,
    pub location_id: Seq<char>,
    pub package: PackageModel,
    pub namespace: Seq<char>,
    pub pin: Option<PinModel>,
}

impl View for PackageNode {
    type V = NodeModel;

    open spec fn view(&self) -> NodeModel {
        NodeModel {
            id: self.id@,
            location_id: self.location_id@,
            package: self.package@,
            namespace: self.namespace@,
            pin: opt_pin(self.pin),
        }
    }
}

/// How a package is named to the user.
pub open spec fn label_of(node: NodeModel) -> Seq<char> {
    package_text(node.namespace, node.package.name, node.package.version)
}

/// The packages with their texts.
pub open spec fn node_models(nodes: Seq<PackageNode>) -> Seq<NodeModel> {
    nodes.map_values(|n: PackageNode| n@)
}

impl PackageNode {
    /// The package with an identity, in a namespace.
    pub fn new(package: Package, identity: PackageIdentity, namespace: &str) -> (r: Self)
        ensures
            r@ == (NodeModel {
                id: hashed(seq![identity.source_key@, namespace@]),
                location_id: identity.location_id@,
                package: package@,
                namespace: namespace@,
                pin: opt_pin(identity.pin),
            }),
    {
        let id = identity.package_id(namespace);
        PackageNode {
            id,
            location_id: identity.location_id,
            package,
            namespace: namespace.to_owned(),
            pin: identity.pin,
        }
    }

    /// How the package is named to the user.
    pub fn label(&self) -> (r: String)
        ensures
            r@ == label_of(self@),
    {
        package_label(
            self.namespace.as_str(),
            self.package.name.as_str(),
            self.package.version.as_str(),
        )
    }
}

/// The packages of a resolution, as nodes of a graph whose edges are what they depend on.
pub struct Packages {
    pub nodes: Vec<PackageNode>,
    pub graph: Graph<(), (), Directed, u32>,
}

/// The edges join nodes below `n`.
pub open spec fn edges_within(edges: Seq<(nat, nat)>, n: nat) -> bool {
    forall|i: int| 0 <= i < edges.len() ==> (#[trigger] edges[i]).0 < n && edges[i].1 < n
}

/// The names of nodes along a way.
pub open spec fn way_text(nodes: Seq<NodeModel>, way: Seq<nat>) -> Seq<char> {
    joined(way.map_values(|i: nat| label_of(nodes[i as int])), " -> "@)
}

/// The ways back from the nodes that `start` depends on.
pub open spec fn ways_back(nodes: nat, edges: Seq<(nat, nat)>, start: nat) -> Seq<
    Option<Seq<nat>>,
> {
    successors(edges, start).map_values(|next: nat| shortest_way(nodes, edges, next, start))
}

/// How a cycle is told: from a node on it along the shortest way back from the first of its
/// dependencies that has one.
pub open spec fn cycle_text(nodes: Seq<NodeModel>, edges: Seq<(nat, nat)>, start: nat) -> Seq<char> {
    let way = first_some(ways_back(nodes.len(), edges, start))->0;
    "dependency cycle: "@ + way_text(nodes, seq![start] + way)
}

/// A text tells of a shortest way from one package to another.
pub open spec fn tells_way(
    nodes: Seq<NodeModel>,
    edges: Seq<(nat, nat)>,
    from: nat,
    to: nat,
    text: Seq<char>,
) -> bool {
    exists|way: Seq<nat>| #[trigger]
        leads(edges, from, to, way) && text == way_text(nodes, way) && forall|other: Seq<nat>|
            #[trigger] leads(edges, from, to, other) ==> way.len() <= other.len()
}

/// A text tells of a way from a package back to itself.
pub open spec fn tells_cycle(
    nodes: Seq<NodeModel>,
    edges: Seq<(nat, nat)>,
    text: Seq<char>,
) -> bool {
    exists|start: nat, way: Seq<nat>| #[trigger]
        leads(edges, start, start, way) && way.len() > 1 && text == "dependency cycle: "@ + way_text(
            nodes,
            way,
        )
}

/// How the way from one package to another is told.
pub open spec fn chain_text(
    nodes: Seq<NodeModel>,
    edges: Seq<(nat, nat)>,
    root: nat,
    target: nat,
) -> Seq<char> {
    match shortest_way(nodes.len(), edges, root, target) {
        Some(way) => way_text(nodes, way),
        None => label_of(nodes[target as int]),
    }
}

impl Packages {
    /// The packages with their texts.
    pub open spec fn models(&self) -> Seq<NodeModel> {
        node_models(self.nodes@)
    }

    /// What depends on what.
    pub open spec fn edges(&self) -> Seq<(nat, nat)> {
        edges_of(self.graph)
    }

    /// The graph has a node for every package, and its edges join those.
    pub open spec fn wf(&self) -> bool {
        &&& node_count(self.graph) == self.nodes@.len()
        &&& edges_within(self.edges(), self.nodes@.len())
    }

    /// No packages.
    pub fn new() -> (r: Self)
        ensures
            r.wf(),
            r.models() == Seq::<NodeModel>::empty(),
            r.edges() == Seq::<(nat, nat)>::empty(),
    {
        let r = Packages { nodes: Vec::new(), graph: new_graph() };
        assert(r.models() =~= Seq::<NodeModel>::empty());
        r
    }

    /// Adds a package.
    pub fn add_node(&mut self, node: PackageNode) -> (r: usize)
        requires
            old(self).wf(),
            old(self).models().len() < u32::MAX,
        ensures
            final(self).wf(),
            r == old(self).models().len(),
            final(self).models() == old(self).models().push(node@),
            final(self).edges() == old(self).edges(),
    {
        let r = add_node(&mut self.graph);
        self.nodes.push(node);
        assert(self.models() =~= old(self).models().push(node@));
        r
    }

    /// Adds that one package depends on another.
    pub fn add_edge(&mut self, from: usize, to: usize)
        requires
            old(self).wf(),
            from < old(self).models().len(),
            to < old(self).models().len(),
            old(self).edges().len() < u32::MAX,
        ensures
            final(self).wf(),
            final(self).models() == old(self).models(),
            final(self).edges() == old(self).edges().push((from as nat, to as nat)),
    {
        add_edge(&mut self.graph, from, to);
    }

    /// The names of nodes along a way.
    fn tell_way(&self, way: &Vec<usize>) -> (r: String)
        requires
            forall|i: int| 0 <= i < way@.len() ==> #[trigger] way@[i] < self.nodes@.len(),
        ensures
            r@ == way_text(self.models(), numbers(way@)),
    {
        let mut labels: Vec<String> = Vec::new();
        let ghost wanted = numbers(way@).map_values(|i: nat| label_of(self.models()[i as int]));
        let mut i: usize = 0;
        assert(texts(labels@) =~= wanted.take(0));
        while i < way.len()
            invariant
                i <= way@.len(),
                forall|i: int| 0 <= i < way@.len() ==> #[trigger] way@[i] < self.nodes@.len(),
                wanted == numbers(way@).map_values(|i: nat| label_of(self.models()[i as int])),
                texts(labels@) == wanted.take(i as int),
            decreases way@.len() - i,
        {
            let label = self.nodes[way[i]].label();
            proof {
                crate::text::lemma_texts_push(labels@, label);
                assert(self.models()[way@[i as int] as int] == self.nodes@[way@[i as int] as int]@);
                assert(wanted.take(i + 1) =~= wanted.take(i as int).push(label@));
            }
            labels.push(label);
            i = i + 1;
        }
        assert(wanted.take(i as int) =~= wanted);
        join(&labels, " -> ")
    }

    /// Accepts packages of which none depends on itself, however indirectly; else tells a cycle.
    pub fn check_cycles(&self) -> (r: Result<(), String>)
        requires
            self.wf(),
        ensures
            r is Ok <==> acyclic(self.edges()),
            match cycle_node(self.models().len(), self.edges()) {
                None => r is Ok,
                Some(start) => {
                    &&& r is Err
                    &&& on_cycle(self.edges(), start)
                    &&& first_some(ways_back(self.models().len(), self.edges(), start)) is Some
                    &&& r->Err_0@ == cycle_text(self.models(), self.edges(), start)
                },
            },
            r matches Err(text) ==> tells_cycle(self.models(), self.edges(), text@),
    {
        let start = match find_cycle(&self.graph) {
            Some(start) => start,
            None => return Ok(()),
        };
        let nexts = neighbors(&self.graph, start);
        let ghost edges = self.edges();
        let ghost count = self.models().len();
        let ghost ways = ways_back(count, edges, start as nat);
        let mut i: usize = 0;
        proof {
            assert(ways.take(0) =~= Seq::<Option<Seq<nat>>>::empty());
            assert(numbers(nexts@).len() == nexts@.len());
        }
        while i < nexts.len()
            invariant
                self.wf(),
                i <= nexts@.len(),
                start < self.nodes@.len(),
                edges == self.edges(),
                count == self.models().len(),
                count == self.nodes@.len(),
                ways == ways_back(count, edges, start as nat),
                ways.len() == nexts@.len(),
                numbers(nexts@) == successors(edges, start as nat),
                first_some(ways.take(i as int)) is None,
                forall|j: int|
                    0 <= j < i ==> !reaches(edges, #[trigger] nexts@[j] as nat, start as nat),
                on_cycle(edges, start as nat),
                cycle_node(count, edges) == Some(start as nat),
            decreases nexts@.len() - i,
        {
            let next = nexts[i];
            proof {
                assert(numbers(nexts@)[i as int] == next as nat);
                assert(successors(edges, start as nat).contains(next as nat));
                lemma_successors(edges, start as nat, next as nat);
                let k = choose|k: int| 0 <= k < edges.len() && edges[k] == (start as nat, next as nat);
                assert(edges[k].1 < count);
                assert(ways[i as int] == shortest_way(count, edges, next as nat, start as nat));
            }
            match find_way(&self.graph, next, start) {
                Some(way) => {
                    let mut cycle: Vec<usize> = Vec::new();
                    cycle.push(start);
                    let mut k: usize = 0;
                    while k < way.len()
                        invariant
                            k <= way@.len(),
                            start < self.nodes@.len(),
                            cycle@ == seq![start] + way@.take(k as int),
                            forall|j: int|
                                0 <= j < way@.len() ==> #[trigger] way@[j] < self.nodes@.len(),
                            forall|j: int|
                                0 <= j < cycle@.len() ==> #[trigger] cycle@[j] < self.nodes@.len(),
                        decreases way@.len() - k,
                    {
                        cycle.push(way[k]);
                        k = k + 1;
                        assert(cycle@ =~= seq![start] + way@.take(k as int));
                    }
                    proof {
                        assert(way@.take(k as int) =~= way@);
                        assert(numbers(cycle@) =~= seq![start as nat] + numbers(way@));
                        lemma_first_some_at(ways, i as int);
                        assert(!acyclic(edges));
                        lemma_told_cycle_closes(edges, start as nat, next as nat, numbers(way@));
                    }
                    let told = self.tell_way(&cycle);
                    return Err(plus("dependency cycle: ", told.as_str()));
                },
                None => {
                    proof {
                        lemma_first_some_next(ways, i as int);
                    }
                },
            }
            i = i + 1;
        }
        proof {
            let next = choose|next: nat| #[trigger]
                linked(edges, start as nat, next) && reaches(edges, next, start as nat);
            lemma_successors(edges, start as nat, next);
            let j = choose|j: int|
                0 <= j < successors(edges, start as nat).len() && successors(
                    edges,
                    start as nat,
                )[j] == next;
            assert(numbers(nexts@)[j] == nexts@[j] as nat);
            assert(!reaches(edges, nexts@[j] as nat, start as nat));
            assert(false);
        }
        Ok(())
    }

    /// How the way from one package to another is told.
    pub fn dependency_chain(&self, root: usize, target: usize) -> (r: String)
        requires
            self.wf(),
            root < self.models().len(),
            target < self.models().len(),
        ensures
            r@ == chain_text(self.models(), self.edges(), root as nat, target as nat),
            reaches(self.edges(), root as nat, target as nat) ==> tells_way(
                self.models(),
                self.edges(),
                root as nat,
                target as nat,
                r@,
            ),
    {
        match find_way(&self.graph, root, target) {
            Some(way) => self.tell_way(&way),
            None => {
                assert(self.models()[target as int] == self.nodes@[target as int]@);
                self.nodes[target].label()
            },
        }
    }
}

/// A cycle that is told begins and ends with the same package, and each package on it depends on
/// the next.
pub proof fn lemma_told_cycle_closes(edges: Seq<(nat, nat)>, start: nat, next: nat, way: Seq<nat>)
    requires
        linked(edges, start, next),
        leads(edges, next, start, way),
    ensures
        leads(edges, start, start, seq![start] + way),
{
    let longer = seq![start] + way;
    assert forall|i: int, j: int| 0 <= i && j == i + 1 && j < longer.len() implies linked(
        edges,
        #[trigger] longer[i],
        #[trigger] longer[j],
    ) by {
        assert(longer[j] == way[j - 1]);
        if i > 0 {
            assert(longer[i] == way[i - 1]);
            assert(linked(edges, way[i - 1], way[j - 1]));
        }
    }
    assert(longer.last() == way.last());
}

} // verus!
