//! Resolves the declared graph before any project file is changed.

pub mod imports;
pub mod packages;
pub mod pins;
pub mod runs;
pub mod visit;

use vstd::prelude::*;

use crate::git::source_id;
use crate::graph::{acyclic, cycle_node, reaches};
use crate::link_path::{LinkPath, LinkPathModel};
use crate::lists::first_some;
use crate::lockfile::{LockedPackage, LockedSourceModel, Lockfile, FORMAT_VERSION};
use crate::ordered::{ascending, lemma_order_is_unique};
use crate::resolver::imports::{
    all_visits, clash_list, clash_text, first_at, import_right, imports_right, places, roots_at,
    visited, ResolvedImport, VisitModel,
};
use crate::resolver::packages::{cycle_text, tells_cycle, NodeModel};
use crate::resolver::pins::{
    depends_on_id, distinct_ids, entry_id, lemma_pinned_sources, package_right, packages_right,
    pin_valid, pinned_id, pinned_sources, root_right, roots_right,
};
use crate::resolver::visit::{ids_ok, kept_commit, locked_at, pin_drawn, Resolver, WalkModel};
use crate::sources::{pin_models, source_states, RefreshModel};
use crate::text::texts;

verus! {

/// What was resolved: the pins, and what can be imported.
pub struct Resolution {
    pub lock: Lockfile,
    pub imports: Vec<ResolvedImport>,
}

/// The pins and the imports are those of the packages that were found. `names` are those of the
/// direct dependencies, in order.
pub open spec fn resolution_right(
    nodes: Seq<NodeModel>,
    edges: Seq<(nat, nat)>,
    names: Seq<Seq<char>>,
    direct: Map<Seq<char>, usize>,
    resolution: Resolution,
) -> bool {
    &&& ascending::<String>(names)
    &&& forall|name: Seq<char>| #[trigger] names.contains(name) <==> direct.contains_key(name)
    &&& imports_right(
        nodes,
        all_visits(nodes.len(), edges, names, direct),
        resolution.imports@,
    )
    &&& resolution.lock.version == FORMAT_VERSION
    &&& pin_models(resolution.lock.sources@) == pinned_sources(nodes)
    &&& packages_right(nodes, edges, resolution.lock.packages@)
    &&& roots_right(nodes, edges, direct, resolution.lock.roots@)
}

/// Two imports are of one package at one place, for the same direct dependencies.
pub open spec fn same_import(a: ResolvedImport, b: ResolvedImport) -> bool {
    a.place() == b.place() && a.package@ == b.package@ && texts(a.roots@) == texts(b.roots@)
}

/// The same packages have the same pins and the same imports.
pub proof fn lemma_same_packages_same_resolution(
    nodes: Seq<NodeModel>,
    edges: Seq<(nat, nat)>,
    a_names: Seq<Seq<char>>,
    b_names: Seq<Seq<char>>,
    direct: Map<Seq<char>, usize>,
    a: Resolution,
    b: Resolution,
)
    requires
        resolution_right(nodes, edges, a_names, direct, a),
        resolution_right(nodes, edges, b_names, direct, b),
    ensures
        a.lock.version == b.lock.version,
        pin_models(a.lock.sources@) == pin_models(b.lock.sources@),
        a.lock.packages@.map_values(|p: LockedPackage| p@) == b.lock.packages@.map_values(
            |p: LockedPackage| p@,
        ),
        a.lock.roots@.map_values(|r: Vec<String>| texts(r@)) == b.lock.roots@.map_values(
            |r: Vec<String>| texts(r@),
        ),
        a.imports@.len() == b.imports@.len(),
        forall|i: int|
            0 <= i < a.imports@.len() ==> same_import(#[trigger] a.imports@[i], b.imports@[i]),
{
    assert forall|name: Seq<char>| #[trigger] a_names.contains(name) <==> b_names.contains(name) by {
        assert(a_names.contains(name) <==> direct.contains_key(name));
        assert(b_names.contains(name) <==> direct.contains_key(name));
    }
    lemma_order_is_unique::<String>(a_names, b_names);
    let visits = all_visits(nodes.len(), edges, a_names, direct);
    let p = a.lock.packages@.map_values(|p: LockedPackage| p@);
    let q = b.lock.packages@.map_values(|p: LockedPackage| p@);
    assert forall|id: Seq<char>|
        #![trigger p.dom().contains(id)]
        #![trigger q.dom().contains(id)]
        p.dom().contains(id) == q.dom().contains(id) && (p.dom().contains(id) ==> p[id] == q[id]) by {
        if p.dom().contains(id) || q.dom().contains(id) {
            assert(a.lock.packages@.contains_key(id) || b.lock.packages@.contains_key(id));
            assert(pinned_id(nodes, id));
            let i = choose|i: int|
                0 <= i < nodes.len() && (#[trigger] nodes[i]).pin is Some && nodes[i].id == id;
            let x = a.lock.packages@[id]@;
            let y = b.lock.packages@[id]@;
            assert(package_right(nodes, edges, i as nat, x));
            assert(package_right(nodes, edges, i as nat, y));
            assert forall|d: Seq<char>| #[trigger]
                x.dependencies.contains(d) <==> y.dependencies.contains(d) by {
                assert(x.dependencies.contains(d) <==> depends_on_id(nodes, edges, i as nat, d));
                assert(y.dependencies.contains(d) <==> depends_on_id(nodes, edges, i as nat, d));
            }
            lemma_order_is_unique::<String>(x.dependencies, y.dependencies);
        }
    }
    assert(p.dom() =~= q.dom());
    assert(p =~= q);
    let r = a.lock.roots@.map_values(|r: Vec<String>| texts(r@));
    let s = b.lock.roots@.map_values(|r: Vec<String>| texts(r@));
    assert forall|name: Seq<char>|
        #![trigger r.dom().contains(name)]
        #![trigger s.dom().contains(name)]
        r.dom().contains(name) == s.dom().contains(name) && (r.dom().contains(name) ==> r[name]
            == s[name]) by {
        assert(a.lock.roots@.contains_key(name) <==> b.lock.roots@.contains_key(name));
        if r.dom().contains(name) {
            let root = direct[name] as nat;
            let x = texts(a.lock.roots@[name]@);
            let y = texts(b.lock.roots@[name]@);
            assert(root_right(nodes, edges, root, x));
            assert(root_right(nodes, edges, root, y));
            assert forall|d: Seq<char>| #[trigger] x.contains(d) <==> y.contains(d) by {
                assert(x.contains(d) <==> entry_id(nodes, edges, root, d));
                assert(y.contains(d) <==> entry_id(nodes, edges, root, d));
            }
            lemma_order_is_unique::<String>(x, y);
        }
    }
    assert(r.dom() =~= s.dom());
    assert(r =~= s);
    let u = places(a.imports@);
    let v = places(b.imports@);
    assert forall|place: LinkPathModel| #[trigger] u.contains(place) <==> v.contains(place) by {
        assert(u.contains(place) <==> first_at(nodes, visits, place) is Some);
        assert(v.contains(place) <==> first_at(nodes, visits, place) is Some);
    }
    lemma_order_is_unique::<LinkPath>(u, v);
    assert(u.len() == a.imports@.len() && v.len() == b.imports@.len());
    assert forall|i: int| 0 <= i < a.imports@.len() implies same_import(
        #[trigger] a.imports@[i],
        b.imports@[i],
    ) by {
        let x = a.imports@[i];
        let y = b.imports@[i];
        assert(u[i] == x.place() && v[i] == y.place());
        assert(import_right(nodes, visits, x));
        assert(import_right(nodes, visits, y));
        assert forall|name: Seq<char>| #[trigger]
            texts(x.roots@).contains(name) <==> texts(y.roots@).contains(name) by {
            assert(texts(x.roots@).contains(name) <==> roots_at(nodes, visits, x.place(), name));
            assert(texts(y.roots@).contains(name) <==> roots_at(nodes, visits, y.place(), name));
        }
        lemma_order_is_unique::<String>(texts(x.roots@), texts(y.roots@));
    }
}

/// Everything was found.
pub open spec fn finished(m: WalkModel) -> bool {
    m.stack.len() == 0 && m.awaited is None
}

/// A package is visited for a direct dependency exactly where that reaches it.
pub open spec fn visits_right(
    edges: Seq<(nat, nat)>,
    direct: Map<Seq<char>, nat>,
    visits: Seq<VisitModel>,
) -> bool {
    forall|name: Seq<char>, node: nat|
        direct.contains_key(name) ==> (#[trigger] reaches(edges, direct[name], node) <==> visited(
            visits,
            (VisitModel { name, root: direct[name], node }),
        ))
}

/// Every source is pinned under its identity, and those that were pinned before and are not asked for
/// anew at the commits they were pinned to.
pub open spec fn pins_kept(
    pins: Map<Seq<char>, LockedSourceModel>,
    previous: Map<Seq<char>, LockedSourceModel>,
    policy: RefreshModel,
) -> bool {
    forall|id: Seq<char>| #[trigger]
        pins.contains_key(id) ==> {
            &&& source_id(pins[id].source) == id
            &&& kept_commit(previous, policy, pins[id].source) matches Some(commit)
                ==> pins[id].commit == commit
        }
}

/// Where a dependency is added again, only the pin of its own source moves: every other source that
/// was pinned and still is has the pin it had.
pub proof fn lemma_add_moves_only_its_own_pin(
    pins: Map<Seq<char>, LockedSourceModel>,
    previous: Map<Seq<char>, LockedSourceModel>,
    added: Seq<char>,
)
    requires
        pins_kept(pins, previous, RefreshModel::Source(added)),
    ensures
        forall|id: Seq<char>|
            #![trigger pins.contains_key(id)]
            #![trigger previous.contains_key(id)]
            id != added && pins.contains_key(id) && previous.contains_key(id)
                && previous[id].source == pins[id].source ==> pins[id] == previous[id],
{
}

/// A sync keeps every pin: each source that was pinned and still is has the pin it had.
pub proof fn lemma_sync_keeps_pins(
    pins: Map<Seq<char>, LockedSourceModel>,
    previous: Map<Seq<char>, LockedSourceModel>,
)
    requires
        pins_kept(pins, previous, RefreshModel::Preserve),
    ensures
        forall|id: Seq<char>|
            #![trigger pins.contains_key(id)]
            #![trigger previous.contains_key(id)]
            pins.contains_key(id) && previous.contains_key(id) && previous[id].source
                == pins[id].source ==> pins[id] == previous[id],
{
}

/// Packages that are found by their identities have different ones.
proof fn lemma_distinct(m: WalkModel)
    requires
        ids_ok(m.nodes, m.ids),
    ensures
        distinct_ids(m.nodes),
{
    assert forall|i: int, j: int|
        0 <= i < m.nodes.len() && 0 <= j < m.nodes.len() && (#[trigger] m.nodes[i]).id == (
        #[trigger] m.nodes[j]).id implies i == j by {
        assert(m.ids[m.nodes[i].id] == i);
        assert(m.ids[m.nodes[j].id] == j);
    }
}

impl Resolver {
    /// What follows from the packages that were found, or how they depend on themselves or clash.
    pub fn resolve(&self) -> (r: Result<Resolution, String>)
        requires
            self.wf(),
            finished(self@),
        ensures
            ({
                let nodes = self@.nodes;
                let edges = self@.edges;
                let visits = all_visits(nodes.len(), edges, self.direct.keys(), self.direct@);
                let clash = first_some(clash_list(nodes, visits));
                match r {
                    Ok(resolution) => {
                        &&& acyclic(edges)
                        &&& visits_right(edges, self@.direct, visits)
                        &&& clash is None
                        &&& resolution_right(
                            nodes,
                            edges,
                            self.direct.keys(),
                            self.direct@,
                            resolution,
                        )
                        &&& pins_kept(
                            pinned_sources(nodes),
                            pin_models(self.sources.previous_pins@),
                            self.sources.refresh@,
                        )
                        &&& self@.twins.len() == 0 ==> resolution.lock.fault() is None
                    },
                    Err(text) => if !acyclic(edges) {
                        &&& cycle_node(nodes.len(), edges) is Some
                        &&& text@ == cycle_text(
                            nodes,
                            edges,
                            cycle_node(nodes.len(), edges)->0,
                        )
                        &&& tells_cycle(nodes, edges, text@)
                    } else {
                        &&& forall|name: Seq<char>| #[trigger]
                            self.direct.keys().contains(name) <==> self.direct@.contains_key(name)
                        &&& visits_right(edges, self@.direct, visits)
                        &&& clash is Some
                        &&& text@ == clash_text(nodes, edges, visits, clash->0)
                    },
                }
            }),
    {
        proof {
            lemma_distinct(self@);
            assert forall|name: Seq<char>| #[trigger]
                self.direct@.contains_key(name) implies self.direct@[name]
                < self.packages.models().len() by {
                assert(self@.direct.contains_key(name));
                assert(self@.direct[name] == self.direct@[name] as nat);
            }
            let sources = source_states(self.sources.providers@);
            let pins = pinned_sources(self@.nodes);
            lemma_pinned_sources(self@.nodes);
            assert forall|id: Seq<char>| #[trigger] pins.contains_key(id) implies sources.contains_key(
                id,
            ) && pins[id] == locked_at(sources[id]) by {
                let i = choose|i: int|
                    0 <= i < self@.nodes.len() && (#[trigger] self@.nodes[i]).pin is Some
                        && self@.nodes[i].pin->0.source_id == id && self@.nodes[i].pin->0.source
                        == pins[id];
                assert(pin_drawn(self@.nodes[i], sources));
                assert(pin_valid(self@.nodes[i]));
            }
        }
        match self.packages.check_cycles() {
            Ok(()) => {},
            Err(text) => return Err(text),
        }
        let imports = match self.packages.resolve_imports(&self.direct) {
            Ok(imports) => imports,
            Err(text) => return Err(text),
        };
        let lock = self.packages.build_lockfile(&self.direct);
        assert(pin_models(lock.sources@) =~= pinned_sources(self@.nodes));
        Ok(Resolution { lock, imports })
    }
}

} // verus!
