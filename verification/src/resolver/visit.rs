//! The walk through the declared dependencies: which package is asked for next, and what is noted
//! of each that was found.

use vstd::prelude::*;

use crate::git::{source_fault, source_id, GitSourceModel, GitSourceSpec};
use crate::git::cache::{effective_pin, Checkout};
use crate::hashing::is_digest;
use crate::lockfile::{commit_name, LockedSource, LockedSourceModel};
use crate::manifest::{Dependency, DependencyModel, Manifest};
use crate::ordered::Table;
use crate::package::{Package, PackageModel};
use crate::path::{absolute, within};
use crate::resolver::packages::{label_of, NodeModel, PackageNode, Packages};
use crate::resolver::pins::{pin_valid, pins_valid};
use crate::sources::{
    confirm, declared_fault, git_location_id, hashed, local_location_id, pin_models,
    pinned_commit, place_of, refreshed, source_states, sources_named, GitSource, GitSourceState,
    Place, PlaceModel, PinModel, RefreshModel, RefreshPolicy, SourceError, SourceFault, SourceId,
    SourceMap, SourceModel,
};
use crate::text::{lemma_texts_push, plus3, texts};

verus! {

broadcast use vstd::string::group_string_axioms;

/// How deep packages may be nested.
pub const MAX_DEPTH: usize = 256;

/// A list of dependencies that is being gone through: that of the project, which has no node, or
/// of a package. `children` are the packages of the first ones.
#[derive(Debug)]
pub struct Frame {
    pub node: Option<usize>,
    pub source: Option<SourceId>,
    pub base: String,
    pub names: Vec<String>,
    pub dependencies: Vec<Dependency>,
    pub children: Vec<usize>,
}

/// A list of dependencies that is being gone through, with its texts.
pub struct FrameModel {
    pub node: Option<nat>,
    pub source: Option<SourceModel>,
    pub base: Seq<char>,
    pub names: Seq<Seq<char>>,
    pub dependencies: Seq<DependencyModel>,
    pub children: Seq<nat>,
}

impl View for Frame {
    type V = FrameModel;

    open spec fn view(&self) -> FrameModel {
        FrameModel {
            node: match self.node {
                Some(node) => Some(node as nat),
                None => None,
            },
            source: match self.source {
                Some(source) => Some(source@),
                None => None,
            },
            base: self.base@,
            names: texts(self.names@),
            dependencies: self.dependencies@.map_values(|d: Dependency| d@),
            children: crate::graph::numbers(self.children@),
        }
    }
}

/// A package whose own dependencies are still to be read.
#[derive(Debug)]
pub struct Awaited {
    pub node: usize,
    pub source: SourceId,
    pub root: String,
}

/// A package whose own dependencies are still to be read, with its texts.
pub struct AwaitedModel {
    pub node: nat,
    pub source: SourceModel,
    pub root: Seq<char>,
}

impl View for Awaited {
    type V = AwaitedModel;

    open spec fn view(&self) -> AwaitedModel {
        AwaitedModel { node: self.node as nat, source: self.source@, root: self.root@ }
    }
}

/// The walk through the declared dependencies.
pub struct Resolver {
    pub sources: SourceMap,
    pub packages: Packages,
    pub ids: Table<String, usize>,
    pub direct: Table<String, usize>,
    pub stack: Vec<Frame>,
    pub awaited: Option<Awaited>,
    pub twins: Ghost<Seq<(NodeModel, NodeModel)>>,
}

/// The walk through the declared dependencies, with its texts. `twins` are the packages of different
/// sources that were taken for one, because the digests they are known by are the same.
pub struct WalkModel {
    pub nodes: Seq<NodeModel>,
    pub edges: Seq<(nat, nat)>,
    pub ids: Map<Seq<char>, nat>,
    pub direct: Map<Seq<char>, nat>,
    pub stack: Seq<FrameModel>,
    pub awaited: Option<AwaitedModel>,
    pub twins: Seq<(NodeModel, NodeModel)>,
}

/// The nodes that names stand for.
pub open spec fn node_map(table: Map<Seq<char>, usize>) -> Map<Seq<char>, nat> {
    table.map_values(|i: usize| i as nat)
}

/// The lists with their texts.
pub open spec fn frames(stack: Seq<Frame>) -> Seq<FrameModel> {
    stack.map_values(|f: Frame| f@)
}

impl View for Resolver {
    type V = WalkModel;

    open spec fn view(&self) -> WalkModel {
        WalkModel {
            nodes: self.packages.models(),
            edges: self.packages.edges(),
            ids: node_map(self.ids@),
            direct: node_map(self.direct@),
            stack: frames(self.stack@),
            awaited: match self.awaited {
                Some(a) => Some(a@),
                None => None,
            },
            twins: self.twins@,
        }
    }
}

/// Everything in a list was gone through.
pub open spec fn complete(frame: FrameModel) -> bool {
    frame.children.len() >= frame.names.len()
}

/// The name that is being looked for.
pub open spec fn current_name(frame: FrameModel) -> Seq<char> {
    frame.names[frame.children.len() as int]
}

/// The walk after the package of the current name was found at a node.
pub open spec fn attached(m: WalkModel, child: nat) -> WalkModel {
    let frame = m.stack.last();
    let grown = FrameModel { children: frame.children.push(child), ..frame };
    let stack = m.stack.drop_last().push(grown);
    match frame.node {
        Some(parent) => WalkModel { edges: m.edges.push((parent, child)), stack, ..m },
        None => WalkModel { direct: m.direct.insert(current_name(frame), child), stack, ..m },
    }
}

/// The walk after every list that was gone through is closed.
pub open spec fn settled(m: WalkModel) -> WalkModel
    decreases m.stack.len(),
{
    if m.stack.len() == 0 || !complete(m.stack.last()) {
        m
    } else {
        let rest = WalkModel { stack: m.stack.drop_last(), ..m };
        match m.stack.last().node {
            Some(node) => if rest.stack.len() == 0 {
                rest
            } else {
                settled(attached(rest, node))
            },
            None => settled(rest),
        }
    }
}

/// What is said of a list and the packages it names: they are there, and those gone through are
/// linked.
pub open spec fn frame_ok(m: WalkModel, frame: FrameModel) -> bool {
    &&& frame.names.len() == frame.dependencies.len()
    &&& frame.children.len() <= frame.names.len()
    &&& frame.names.no_duplicates()
    &&& absolute(frame.base)
    &&& frame.node matches Some(node) ==> node < m.nodes.len()
    &&& forall|k: int| 0 <= k < frame.children.len() ==> #[trigger] child_linked(m, frame, k)
}

/// A dependency of a list leads to its package: by an edge from the package that the list belongs
/// to, or as a direct dependency.
pub open spec fn child_linked(m: WalkModel, frame: FrameModel, k: int) -> bool {
    &&& frame.children[k] < m.nodes.len()
    &&& match frame.node {
        Some(node) => m.edges.contains((node, frame.children[k])),
        None => m.direct.contains_key(frame.names[k]) && m.direct[frame.names[k]]
            == frame.children[k],
    }
}

/// Packages in Git sources are pinned, and so is all that they depend on.
pub open spec fn pins_closed(nodes: Seq<NodeModel>, edges: Seq<(nat, nat)>) -> bool {
    forall|i: int|
        0 <= i < edges.len() ==> (nodes[(#[trigger] edges[i]).0 as int].pin is Some
            ==> nodes[edges[i].1 as int].pin is Some)
}

/// No two packages are known by the same identity, and each is found by it.
pub open spec fn ids_ok(nodes: Seq<NodeModel>, ids: Map<Seq<char>, nat>) -> bool {
    &&& forall|id: Seq<char>| #[trigger]
        ids.contains_key(id) ==> ids[id] < nodes.len() && nodes[ids[id] as int].id == id
    &&& forall|i: int|
        0 <= i < nodes.len() ==> ids.contains_key((#[trigger] nodes[i]).id) && ids[nodes[i].id]
            == i
}

/// The source of a package tells whether it is pinned.
pub open spec fn source_matches(node: NodeModel, source: SourceModel) -> bool {
    (source is Git) == (node.pin is Some)
}

/// What holds of a walk at every step.
pub open spec fn walk_ok(m: WalkModel) -> bool {
    &&& ids_ok(m.nodes, m.ids)
    &&& crate::resolver::packages::edges_within(m.edges, m.nodes.len())
    &&& forall|name: Seq<char>| #[trigger]
        m.direct.contains_key(name) ==> m.direct[name] < m.nodes.len()
    &&& forall|k: int| 0 <= k < m.stack.len() ==> frame_ok(m, #[trigger] m.stack[k])
    &&& forall|k: int|
        0 <= k < m.stack.len() ==> (k == 0) == ((#[trigger] m.stack[k]).node is None)
    &&& forall|k: int|
        0 <= k < m.stack.len() ==> match (#[trigger] m.stack[k]).node {
            Some(node) => m.stack[k].source is Some && source_matches(
                m.nodes[node as int],
                m.stack[k].source->0,
            ),
            None => m.stack[k].source is None,
        }
    &&& m.awaited matches Some(a) ==> {
        &&& m.stack.len() > 0
        &&& !complete(m.stack.last())
        &&& a.node < m.nodes.len()
        &&& absolute(a.root)
        &&& source_matches(m.nodes[a.node as int], a.source)
    }
}

/// A list in which something is still to be looked for, on a walk that waits for it.
pub open spec fn searching(m: WalkModel) -> bool {
    m.awaited is None && m.stack.len() > 0 && !complete(m.stack.last())
}

/// The dependency that is being looked for.
pub open spec fn current_dependency(frame: FrameModel) -> DependencyModel {
    frame.dependencies[frame.children.len() as int]
}

/// The source of a package that was found at a place.
pub open spec fn source_at(place: PlaceModel, root: Seq<char>) -> SourceModel {
    match place {
        PlaceModel::Git(source) => SourceModel::Git(source_id(source)),
        PlaceModel::Inside { id, .. } => SourceModel::Git(id),
        PlaceModel::Local(_) => SourceModel::Path(root),
    }
}

/// The package that was found, as a node. `git` is its Git source, if it has one.
pub open spec fn node_at(
    package: PackageModel,
    namespace: Seq<char>,
    git: Option<GitSourceState>,
) -> NodeModel {
    match git {
        Some(source) => {
            let location_id = git_location_id(source, package.root);
            NodeModel {
                id: hashed(
                    seq![hashed(seq![source_id(source.specification), location_id]), namespace],
                ),
                location_id,
                package,
                namespace,
                pin: Some(
                    PinModel {
                        source_id: source_id(source.specification),
                        source: LockedSourceModel {
                            source: source.specification,
                            commit: source.commit,
                        },
                        directory: crate::sources::directory_in(source.root, package.root),
                    },
                ),
            }
        },
        None => {
            let location_id = local_location_id(package.root);
            NodeModel {
                id: hashed(seq![location_id, namespace]),
                location_id,
                package,
                namespace,
                pin: None,
            }
        },
    }
}

/// Two packages are of one Git source, or both of none.
pub open spec fn same_source(a: NodeModel, b: NodeModel) -> bool {
    match (a.pin, b.pin) {
        (Some(x), Some(y)) => x.source_id == y.source_id,
        (None, None) => true,
        _ => false,
    }
}

/// The packages that were taken for one after a package was found that is known already.
pub open spec fn twins_with(m: WalkModel, node: NodeModel) -> Seq<(NodeModel, NodeModel)> {
    let known = m.nodes[m.ids[node.id] as int];
    if same_source(known, node) {
        m.twins
    } else {
        m.twins.push((known, node))
    }
}

/// The walk after a package was found that is known already, or is new and has its dependencies
/// still to be read.
pub open spec fn noted(m: WalkModel, node: NodeModel, source: SourceModel) -> WalkModel {
    if m.ids.contains_key(node.id) {
        settled(
            attached(WalkModel { twins: twins_with(m, node), ..m }, m.ids[node.id]),
        )
    } else {
        WalkModel {
            nodes: m.nodes.push(node),
            ids: m.ids.insert(node.id, m.nodes.len()),
            awaited: Some(
                AwaitedModel { node: m.nodes.len(), source, root: node.package.root },
            ),
            ..m
        }
    }
}

/// A list of dependencies that is still to be gone through.
pub open spec fn fresh_frame(
    node: Option<nat>,
    source: Option<SourceModel>,
    base: Seq<char>,
    names: Seq<Seq<char>>,
    dependencies: Map<Seq<char>, DependencyModel>,
) -> FrameModel {
    FrameModel {
        node,
        source,
        base,
        names,
        dependencies: names.map_values(|name: Seq<char>| dependencies[name]),
        children: Seq::empty(),
    }
}

/// What stops a walk.
#[derive(Debug)]
pub enum ResolveError {
    TooDeep,
    Source(SourceError),
}

/// What stops a walk, with its texts.
pub enum ResolveFault {
    TooDeep,
    Source(SourceFault),
}

impl View for ResolveError {
    type V = ResolveFault;

    open spec fn view(&self) -> ResolveFault {
        match self {
            ResolveError::TooDeep => ResolveFault::TooDeep,
            ResolveError::Source(error) => ResolveFault::Source(error@),
        }
    }
}

/// The text shown for a fault.
pub open spec fn fault_text(fault: ResolveFault) -> Seq<char> {
    match fault {
        ResolveFault::TooDeep => "dependency graph exceeds 256 nested packages"@,
        ResolveFault::Source(fault) => crate::sources::fault_text(fault),
    }
}

impl ResolveError {
    /// The text shown to the user.
    pub fn message(&self) -> (r: String)
        ensures
            r@ == fault_text(self@),
    {
        match self {
            ResolveError::TooDeep => "dependency graph exceeds 256 nested packages".to_owned(),
            ResolveError::Source(error) => error.message(),
        }
    }
}

/// What the walk needs next.
#[derive(Debug)]
pub enum Demand {
    /// The package of a name at a place, in a namespace.
    Find { place: Place, name: String, namespace: String },
    /// The dependencies that the package in a directory declares.
    Manifest { source: SourceId, root: String },
    /// Nothing: everything was found.
    Done,
}

/// What the walk needs next, with its texts.
pub enum DemandModel {
    Find { place: PlaceModel, name: Seq<char>, namespace: Seq<char> },
    Manifest { source: SourceModel, root: Seq<char> },
    Done,
}

impl View for Demand {
    type V = DemandModel;

    open spec fn view(&self) -> DemandModel {
        match self {
            Demand::Find { place, name, namespace } => DemandModel::Find {
                place: place@,
                name: name@,
                namespace: namespace@,
            },
            Demand::Manifest { source, root } => DemandModel::Manifest {
                source: source@,
                root: root@,
            },
            Demand::Done => DemandModel::Done,
        }
    }
}

/// Where the dependency that is being looked for is to be found, or what stops the walk.
pub open spec fn place_sought(m: WalkModel) -> Result<PlaceModel, ResolveFault> {
    let frame = m.stack.last();
    let dependency = current_dependency(frame);
    if m.stack.len() - 1 > MAX_DEPTH {
        Err(ResolveFault::TooDeep)
    } else {
        match declared_fault(dependency, Some(current_name(frame))) {
            Some(fault) => Err(ResolveFault::Source(SourceFault::Dependency(fault))),
            None => match place_of(dependency, frame.base, frame.source) {
                Ok(place) => Ok(place),
                Err(fault) => Err(ResolveFault::Source(fault)),
            },
        }
    }
}

/// What the walk needs next, or what stops it.
pub open spec fn demand_of(m: WalkModel) -> Result<DemandModel, ResolveFault> {
    match m.awaited {
        Some(a) => Ok(DemandModel::Manifest { source: a.source, root: a.root }),
        None => if m.stack.len() == 0 {
            Ok(DemandModel::Done)
        } else {
            match place_sought(m) {
                Ok(place) => Ok(
                    DemandModel::Find {
                        place,
                        name: current_name(m.stack.last()),
                        namespace: current_dependency(m.stack.last()).namespace,
                    },
                ),
                Err(fault) => Err(fault),
            }
        },
    }
}

/// Where the walk stands, in words: what is being resolved, or what depends on it.
pub open spec fn context_line(m: WalkModel, k: int) -> Seq<char> {
    let name = current_name(m.stack[k]);
    match m.stack[k].node {
        Some(node) => label_of(m.nodes[node as int]) + " depends on `"@ + name + "`"@,
        None => "while resolving direct dependency `"@ + name + "`"@,
    }
}

/// Every list but the last waits for what the next one belongs to.
pub open spec fn nested_ok(m: WalkModel) -> bool {
    forall|k: int| 0 <= k < m.stack.len() - 1 ==> !complete(#[trigger] m.stack[k])
}

/// The walk from which it is known what to do next: nothing that was gone through is left open.
pub open spec fn poised(m: WalkModel) -> bool {
    &&& walk_ok(m)
    &&& nested_ok(m)
    &&& m.stack.len() > 0 ==> !complete(m.stack.last())
}

/// A walk on which a package was attached is as it should be.
proof fn lemma_attached_ok(m: WalkModel, child: nat)
    requires
        walk_ok(m),
        nested_ok(m),
        searching(m),
        child < m.nodes.len(),
    ensures
        walk_ok(attached(m, child)),
        nested_ok(attached(m, child)),
        attached(m, child).awaited is None,
        attached(m, child).stack.len() == m.stack.len(),
{
    let now = attached(m, child);
    let last = m.stack.len() - 1;
    let frame = m.stack.last();
    assert(m.stack[last] == frame);
    assert(frame_ok(m, m.stack[last]));
    assert forall|k: int| 0 <= k < now.stack.len() implies frame_ok(
        now,
        #[trigger] now.stack[k],
    ) by {
        assert(frame_ok(m, m.stack[k]));
        let f = now.stack[k];
        if k < last {
            assert(f == m.stack[k]);
        }
        assert forall|j: int| 0 <= j < f.children.len() implies #[trigger] child_linked(
            now,
            f,
            j,
        ) by {
            if k == last && j == f.children.len() - 1 {
                if f.node is Some {
                    assert(now.edges[m.edges.len() as int] == (f.node->0, child));
                }
            } else {
                assert(child_linked(m, m.stack[k], j));
                assert(m.stack[k].children[j] == f.children[j]);
                if f.node is Some {
                    let e = (f.node->0, f.children[j]);
                    let i = choose|i: int| 0 <= i < m.edges.len() && m.edges[i] == e;
                    if frame.node is Some {
                        assert(now.edges[i] == e);
                    }
                } else {
                    assert(k == 0);
                    if frame.node is None {
                        assert(last == 0);
                        assert(f.names[j] != frame.names[frame.children.len() as int]);
                    }
                }
            }
        }
    }
    assert forall|k: int| 0 <= k < now.stack.len() implies match (#[trigger] now.stack[k]).node {
        Some(node) => now.stack[k].source is Some && source_matches(
            now.nodes[node as int],
            now.stack[k].source->0,
        ),
        None => now.stack[k].source is None,
    } by {
        let before = m.stack[k];
        assert(now.stack[k].node == before.node);
        assert(now.stack[k].source == before.source);
    }
    assert forall|k: int| 0 <= k < now.stack.len() implies (k == 0) == ((
    #[trigger] now.stack[k]).node is None) by {
        let before = m.stack[k];
        assert(now.stack[k].node == before.node);
    }
    assert forall|k: int| 0 <= k < now.stack.len() - 1 implies !complete(
        #[trigger] now.stack[k],
    ) by {
        assert(now.stack[k] == m.stack[k]);
    }
}

/// What is said of a list stays true while packages are added.
proof fn lemma_frame_kept(m: WalkModel, now: WalkModel, frame: FrameModel)
    requires
        frame_ok(m, frame),
        m.nodes.len() <= now.nodes.len(),
        m.edges == now.edges,
        m.direct == now.direct,
    ensures
        frame_ok(now, frame),
{
    assert forall|k: int| 0 <= k < frame.children.len() implies #[trigger] child_linked(
        now,
        frame,
        k,
    ) by {
        assert(child_linked(m, frame, k));
    }
}

/// Which packages were taken for one does not matter to a walk.
proof fn lemma_told_ok(m: WalkModel, twins: Seq<(NodeModel, NodeModel)>)
    requires
        walk_ok(m),
        nested_ok(m),
    ensures
        walk_ok(WalkModel { twins, ..m }),
        nested_ok(WalkModel { twins, ..m }),
{
    let now = WalkModel { twins, ..m };
    assert forall|k: int| 0 <= k < now.stack.len() implies frame_ok(
        now,
        #[trigger] now.stack[k],
    ) by {
        lemma_frame_kept(m, now, m.stack[k]);
    }
}

/// A walk whose last list is closed is as it should be.
proof fn lemma_popped_ok(m: WalkModel)
    requires
        walk_ok(m),
        nested_ok(m),
        m.awaited is None,
        m.stack.len() > 0,
    ensures
        walk_ok(WalkModel { stack: m.stack.drop_last(), ..m }),
        nested_ok(WalkModel { stack: m.stack.drop_last(), ..m }),
        m.stack.len() > 1 ==> searching(WalkModel { stack: m.stack.drop_last(), ..m }),
{
    let now = WalkModel { stack: m.stack.drop_last(), ..m };
    assert forall|k: int| 0 <= k < now.stack.len() implies frame_ok(
        now,
        #[trigger] now.stack[k],
    ) by {
        lemma_frame_kept(m, now, m.stack[k]);
    }
    assert forall|k: int| 0 <= k < now.stack.len() implies match (#[trigger] now.stack[k]).node {
        Some(node) => now.stack[k].source is Some && source_matches(
            now.nodes[node as int],
            now.stack[k].source->0,
        ),
        None => now.stack[k].source is None,
    } by {
        assert(now.stack[k] == m.stack[k]);
    }
    assert forall|k: int| 0 <= k < now.stack.len() implies (k == 0) == ((
    #[trigger] now.stack[k]).node is None) by {
        assert(now.stack[k] == m.stack[k]);
    }
    if m.stack.len() > 1 {
        assert(now.stack.last() == m.stack[m.stack.len() - 2]);
        assert(!complete(m.stack[m.stack.len() - 2]));
    }
}

/// The sources are ones that Git can be asked for, and their files are those of commits.
pub open spec fn sources_valid(sources: Map<Seq<char>, GitSourceState>) -> bool {
    forall|id: Seq<char>| #[trigger]
        sources.contains_key(id) ==> source_fault(sources[id].specification) is None && commit_name(
            sources[id].commit,
        )
}

/// The commit that a source is kept at: the one it was pinned to, unless it is asked for anew.
pub open spec fn kept_commit(
    pins: Map<Seq<char>, LockedSourceModel>,
    policy: RefreshModel,
    source: GitSourceModel,
) -> Option<Seq<char>> {
    effective_pin(pinned_commit(pins, source), refreshed(policy, source_id(source)))
}

/// The sources that were pinned and are not asked for anew are at the commits they were pinned to.
pub open spec fn commits_kept(
    sources: Map<Seq<char>, GitSourceState>,
    pins: Map<Seq<char>, LockedSourceModel>,
    policy: RefreshModel,
) -> bool {
    forall|id: Seq<char>| #[trigger]
        sources.contains_key(id) ==> (kept_commit(pins, policy, sources[id].specification) matches Some(
            commit,
        ) ==> sources[id].commit == commit)
}

/// A source at its commit, as it is pinned.
pub open spec fn locked_at(source: GitSourceState) -> LockedSourceModel {
    LockedSourceModel { source: source.specification, commit: source.commit }
}

/// The pin of a package, if it has one, is of one of the sources.
pub open spec fn pin_drawn(node: NodeModel, sources: Map<Seq<char>, GitSourceState>) -> bool {
    node.pin matches Some(pin) ==> sources.contains_key(pin.source_id) && pin.source == locked_at(
        sources[pin.source_id],
    )
}

/// The pins of the packages are of the sources.
pub open spec fn pins_drawn(
    nodes: Seq<NodeModel>,
    sources: Map<Seq<char>, GitSourceState>,
) -> bool {
    forall|i: int| 0 <= i < nodes.len() ==> pin_drawn(#[trigger] nodes[i], sources)
}

/// The Git sources of the walk's lists are here.
pub open spec fn sources_ok(m: WalkModel, sources: Map<Seq<char>, GitSourceState>) -> bool {
    &&& sources_named(sources)
    &&& forall|k: int|
        0 <= k < m.stack.len() ==> source_here(sources, (#[trigger] m.stack[k]).source)
    &&& m.awaited matches Some(a) ==> source_here(sources, Some(a.source))
}

/// A Git source is here; any other needs nothing.
pub open spec fn source_here(
    sources: Map<Seq<char>, GitSourceState>,
    source: Option<SourceModel>,
) -> bool {
    match source {
        Some(SourceModel::Git(id)) => sources.contains_key(id),
        _ => true,
    }
}

/// The Git source of a package that was found at a place.
pub open spec fn git_at(
    sources: Map<Seq<char>, GitSourceState>,
    place: PlaceModel,
) -> Option<GitSourceState> {
    match source_at(place, Seq::empty()) {
        SourceModel::Git(id) => Some(sources[id]),
        SourceModel::Path(_) => None,
    }
}

/// What is wrong with a package that was found.
pub open spec fn found_fault(
    m: WalkModel,
    sources: Map<Seq<char>, GitSourceState>,
    package: PackageModel,
) -> Option<ResolveFault> {
    match place_sought(m) {
        Err(fault) => Some(fault),
        Ok(place) => if package.name != current_name(m.stack.last()) {
            Some(
                ResolveFault::Source(
                    SourceFault::OtherName {
                        expected: current_name(m.stack.last()),
                        found: package.name,
                    },
                ),
            )
        } else {
            match git_at(sources, place) {
                Some(source) => if within(package.root, source.root) {
                    None
                } else {
                    Some(ResolveFault::Source(SourceFault::PackageEscapes))
                },
                None => None,
            }
        },
    }
}

/// The node of a package that was found.
pub open spec fn found_node(
    m: WalkModel,
    sources: Map<Seq<char>, GitSourceState>,
    package: PackageModel,
) -> NodeModel {
    node_at(
        package,
        current_dependency(m.stack.last()).namespace,
        git_at(sources, place_sought(m)->Ok_0),
    )
}

/// The source of a package that was found.
pub open spec fn found_source(m: WalkModel, package: PackageModel) -> SourceModel {
    source_at(place_sought(m)->Ok_0, package.root)
}

/// The walk after a list of dependencies was added to go through.
pub open spec fn opened(m: WalkModel, frame: FrameModel) -> WalkModel {
    settled(WalkModel { stack: m.stack.push(frame), awaited: None, ..m })
}

/// A walk with a list added to go through is as it should be.
proof fn lemma_pushed_ok(m: WalkModel, frame: FrameModel)
    requires
        poised(m),
        frame_ok(m, frame),
        (m.stack.len() == 0) == (frame.node is None),
        match frame.node {
            Some(node) => frame.source is Some && source_matches(
                m.nodes[node as int],
                frame.source->0,
            ),
            None => frame.source is None,
        },
    ensures
        walk_ok(WalkModel { stack: m.stack.push(frame), awaited: None, ..m }),
        nested_ok(WalkModel { stack: m.stack.push(frame), awaited: None, ..m }),
{
    let now = WalkModel { stack: m.stack.push(frame), awaited: None, ..m };
    assert forall|k: int| 0 <= k < now.stack.len() implies frame_ok(
        now,
        #[trigger] now.stack[k],
    ) by {
        if k < m.stack.len() {
            lemma_frame_kept(m, now, m.stack[k]);
        } else {
            lemma_frame_kept(m, now, frame);
        }
    }
    assert forall|k: int| 0 <= k < now.stack.len() implies match (#[trigger] now.stack[k]).node {
        Some(node) => now.stack[k].source is Some && source_matches(
            now.nodes[node as int],
            now.stack[k].source->0,
        ),
        None => now.stack[k].source is None,
    } by {
        if k < m.stack.len() {
            assert(now.stack[k] == m.stack[k]);
        }
    }
    assert forall|k: int| 0 <= k < now.stack.len() implies (k == 0) == ((
    #[trigger] now.stack[k]).node is None) by {
        if k < m.stack.len() {
            assert(now.stack[k] == m.stack[k]);
        }
    }
    assert forall|k: int| 0 <= k < now.stack.len() - 1 implies !complete(
        #[trigger] now.stack[k],
    ) by {
        assert(now.stack[k] == m.stack[k]);
    }
}

/// A walk that noted a new package is as it should be.
proof fn lemma_noted_new_ok(m: WalkModel, node: NodeModel, source: SourceModel)
    requires
        poised(m),
        searching(m),
        !m.ids.contains_key(node.id),
        absolute(node.package.root),
        source_matches(node, source),
    ensures
        poised(noted(m, node, source)),
{
    let now = noted(m, node, source);
    assert(now.nodes.len() == m.nodes.len() + 1);
    assert(forall|i: int| 0 <= i < m.nodes.len() ==> now.nodes[i] == m.nodes[i]);
    assert forall|id: Seq<char>| #[trigger] now.ids.contains_key(id) implies now.ids[id]
        < now.nodes.len() && now.nodes[now.ids[id] as int].id == id by {
        if id != node.id {
            assert(m.ids.contains_key(id));
        }
    }
    assert forall|i: int| 0 <= i < now.nodes.len() implies now.ids.contains_key(
        (#[trigger] now.nodes[i]).id,
    ) && now.ids[now.nodes[i].id] == i by {
        if i < m.nodes.len() {
            assert(m.ids.contains_key(m.nodes[i].id));
        }
    }
    assert forall|k: int| 0 <= k < now.stack.len() implies frame_ok(
        now,
        #[trigger] now.stack[k],
    ) by {
        lemma_frame_kept(m, now, m.stack[k]);
    }
    assert forall|i: int| 0 <= i < now.edges.len() implies (#[trigger] now.edges[i]).0
        < now.nodes.len() && now.edges[i].1 < now.nodes.len() by {
        assert(now.edges[i] == m.edges[i]);
    }
}

impl Resolver {
    /// The walk is as it should be, and the Git sources it needs are here.
    pub open spec fn wf(&self) -> bool {
        &&& self.packages.wf()
        &&& poised(self@)
        &&& sources_ok(self@, source_states(self.sources.providers@))
        &&& sources_valid(source_states(self.sources.providers@))
        &&& commits_kept(
            source_states(self.sources.providers@),
            pin_models(self.sources.previous_pins@),
            self.sources.refresh@,
        )
        &&& pins_drawn(self@.nodes, source_states(self.sources.providers@))
        &&& pins_valid(self@.nodes)
        &&& self@.twins.len() == 0 ==> pins_ok(self@)
    }

    /// A walk that is still to begin.
    pub fn new(previous_pins: Table<String, LockedSource>, refresh: RefreshPolicy) -> (r: Self)
        ensures
            r.wf(),
            r@ == (WalkModel {
                nodes: Seq::empty(),
                edges: Seq::empty(),
                ids: Map::empty(),
                direct: Map::empty(),
                stack: Seq::empty(),
                awaited: None,
                twins: Seq::empty(),
            }),
            r.sources.providers@ == Map::<Seq<char>, GitSource>::empty(),
            r.sources.previous_pins == previous_pins,
            r.sources.refresh == refresh,
    {
        let r = Resolver {
            sources: SourceMap::new(previous_pins, refresh),
            packages: Packages::new(),
            ids: Table::new(),
            direct: Table::new(),
            stack: Vec::new(),
            awaited: None,
            twins: Ghost(Seq::empty()),
        };
        proof {
            assert(r@.ids =~= Map::empty());
            assert(r@.direct =~= Map::empty());
            assert(r@.stack =~= Seq::empty());
        }
        r
    }

    /// Where the package is to be found that tells the name of a dependency of the project;
    /// `expected` is the name where it was given.
    pub fn infer_name(&self, dependency: &Dependency, base: &str, expected: Option<&str>) -> (r: Result<
        Place,
        SourceError,
    >)
        requires
            absolute(base@),
        ensures
            match declared_fault(dependency@, crate::text::opt_str(expected)) {
                Some(fault) => r is Err && r->Err_0@ == SourceFault::Dependency(fault),
                None => match place_of(dependency@, base@, None) {
                    Ok(place) => r is Ok && r->Ok_0@ == place,
                    Err(fault) => r is Err && r->Err_0@ == fault,
                },
            },
    {
        self.sources.locate(dependency, base, None, expected)
    }

    /// Notes that a Git source is here that was not: at the commit that it is kept at, if there is
    /// one.
    pub fn register(&mut self, specification: GitSourceSpec, checkout: Checkout)
        requires
            old(self).wf(),
            source_fault(specification@) is None,
            commit_name(checkout.commit@),
            !old(self).sources.providers@.contains_key(source_id(specification@)),
            kept_commit(
                pin_models(old(self).sources.previous_pins@),
                old(self).sources.refresh@,
                specification@,
            ) matches Some(commit) ==> checkout.commit@ == commit,
        ensures
            final(self).wf(),
            final(self)@ == old(self)@,
            final(self).sources.providers@ == old(self).sources.providers@.insert(
                source_id(specification@),
                (GitSource { specification, checkout }),
            ),
            final(self).sources.previous_pins == old(self).sources.previous_pins,
            final(self).sources.refresh == old(self).sources.refresh,
    {
        let ghost added = GitSource { specification, checkout };
        let id = self.sources.register(specification, checkout);
        proof {
            let m = self@;
            let before = source_states(old(self).sources.providers@);
            let now = source_states(self.sources.providers@);
            assert(m == old(self)@);
            assert(now =~= before.insert(source_id(specification@), added@));
            assert forall|i: int| 0 <= i < m.nodes.len() implies pin_drawn(
                #[trigger] m.nodes[i],
                now,
            ) by {
                assert(pin_drawn(m.nodes[i], before));
            }
            assert forall|k: int| 0 <= k < m.stack.len() implies source_here(
                now,
                (#[trigger] m.stack[k]).source,
            ) by {
                assert(source_here(before, m.stack[k].source));
            }
        }
    }

    /// Attaches a package to the list that waits for it.
    fn attach(&mut self, child: usize)
        requires
            old(self).packages.wf(),
            walk_ok(old(self)@),
            nested_ok(old(self)@),
            searching(old(self)@),
            child < old(self)@.nodes.len(),
            old(self)@.edges.len() < u32::MAX,
        ensures
            final(self).packages.wf(),
            final(self)@ == attached(old(self)@, child as nat),
            final(self).sources == old(self).sources,
            walk_ok(final(self)@),
            nested_ok(final(self)@),
    {
        let ghost m = self@;
        proof {
            lemma_attached_ok(m, child as nat);
            assert(m.stack.last() == self.stack@.last()@);
            assert(frame_ok(m, m.stack[m.stack.len() - 1]));
        }
        match self.stack.pop() {
            Some(frame) => {
                let mut grown = frame;
                let ghost was = grown@;
                assert(was == m.stack.last());
                assert(frames(self.stack@) =~= m.stack.drop_last());
                match grown.node {
                    Some(parent) => {
                        self.packages.add_edge(parent, child);
                    },
                    None => {
                        assert(grown.names@.len() == was.names.len());
                        assert(was.names[was.children.len() as int]
                            == grown.names@[grown.children@.len() as int]@);
                        let name = grown.names[grown.children.len()].clone();
                        let ghost before = self.direct@;
                        let again = self.direct.insert(name, child);
                        assert(node_map(self.direct@) =~= node_map(before).insert(
                            current_name(was),
                            child as nat,
                        ));
                    },
                }
                grown.children.push(child);
                assert(grown@.children =~= was.children.push(child as nat));
                self.stack.push(grown);
                assert(frames(self.stack@) =~= m.stack.drop_last().push(
                    FrameModel { children: was.children.push(child as nat), ..was },
                ));
            },
            None => {},
        }
    }

    /// Closes every list that was gone through.
    fn settle(&mut self)
        requires
            old(self).packages.wf(),
            walk_ok(old(self)@),
            nested_ok(old(self)@),
            old(self)@.awaited is None,
            old(self)@.edges.len() + old(self)@.stack.len() < u32::MAX,
        ensures
            final(self).packages.wf(),
            final(self)@ == settled(old(self)@),
            final(self).sources == old(self).sources,
            poised(final(self)@),
            final(self)@.awaited is None,
    {
        loop
            invariant
                self.packages.wf(),
                walk_ok(self@),
                nested_ok(self@),
                self@.awaited is None,
                self@.edges.len() + self@.stack.len() < u32::MAX,
                settled(self@) == settled(old(self)@),
                self.sources == old(self).sources,
            ensures
                poised(self@),
                self@ == settled(old(self)@),
            decreases self.stack@.len(),
        {
            let ghost m = self@;
            let count = self.stack.len();
            if count == 0 {
                break;
            }
            assert(m.stack.last() == self.stack@.last()@);
            let top = &self.stack[count - 1];
            if top.children.len() < top.names.len() {
                break;
            }
            proof {
                lemma_popped_ok(m);
                assert(m.stack[m.stack.len() - 1] == m.stack.last());
            }
            let closed = self.stack.pop();
            assert(frames(self.stack@) =~= m.stack.drop_last());
            assert(self@ == (WalkModel { stack: m.stack.drop_last(), ..m }));
            match closed {
                Some(frame) => {
                    match frame.node {
                        Some(node) => {
                            assert(frame_ok(m, m.stack[m.stack.len() - 1]));
                            self.attach(node);
                        },
                        None => {},
                    }
                },
                None => {},
            }
        }
    }

    /// Adds a list of dependencies to go through.
    fn open(&mut self, node: Option<usize>, source: Option<SourceId>, base: String, manifest: &Manifest)
        requires
            old(self).packages.wf(),
            poised(old(self)@),
            absolute(base@),
            node matches Some(n) ==> n < old(self)@.nodes.len(),
            (old(self)@.stack.len() == 0) == (node is None),
            match node {
                Some(n) => source is Some && source_matches(
                    old(self)@.nodes[n as int],
                    source->0@,
                ),
                None => source is None,
            },
            old(self)@.edges.len() + old(self)@.stack.len() + 1 < u32::MAX,
        ensures
            final(self).packages.wf(),
            poised(final(self)@),
            final(self)@.awaited is None,
            final(self).sources == old(self).sources,
            final(self)@ == opened(
                old(self)@,
                fresh_frame(
                    match node {
                        Some(n) => Some(n as nat),
                        None => None,
                    },
                    match source {
                        Some(s) => Some(s@),
                        None => None,
                    },
                    base@,
                    manifest.dependencies.keys(),
                    manifest@,
                ),
            ),
    {
        let mut names: Vec<String> = Vec::new();
        let mut dependencies: Vec<Dependency> = Vec::new();
        let count = manifest.dependencies.len();
        let ghost keys = manifest.dependencies.keys();
        let ghost wanted = keys.map_values(|name: Seq<char>| manifest@[name]);
        let mut i: usize = 0;
        proof {
            assert(texts(names@) =~= keys.take(0));
            assert(dependencies@.map_values(|d: Dependency| d@) =~= wanted.take(0));
        }
        while i < count
            invariant
                i <= count,
                count == keys.len(),
                keys == manifest.dependencies.keys(),
                wanted == keys.map_values(|name: Seq<char>| manifest@[name]),
                texts(names@) == keys.take(i as int),
                dependencies@.map_values(|d: Dependency| d@) == wanted.take(i as int),
            decreases count - i,
        {
            let name = manifest.dependencies.key_at(i).clone();
            let dependency = manifest.dependencies.value_at(i).clone();
            proof {
                lemma_texts_push(names@, name);
                assert(keys.take(i + 1) =~= keys.take(i as int).push(name@));
                assert(wanted[i as int] == dependency@);
                assert(wanted.take(i + 1) =~= wanted.take(i as int).push(dependency@));
                assert(dependencies@.push(dependency).map_values(|d: Dependency| d@)
                    =~= dependencies@.map_values(|d: Dependency| d@).push(dependency@));
            }
            names.push(name);
            dependencies.push(dependency);
            i = i + 1;
        }
        let ghost m = self@;
        let children: Vec<usize> = Vec::new();
        let frame = Frame { node, source, base, names, dependencies, children };
        let ghost added = frame@;
        proof {
            assert(keys.take(i as int) =~= keys);
            assert(wanted.take(i as int) =~= wanted);
            assert(added.children =~= Seq::<nat>::empty());
            lemma_pushed_ok(m, added);
        }
        self.stack.push(frame);
        self.awaited = None;
        assert(frames(self.stack@) =~= m.stack.push(added));
        self.settle();
    }

    /// Begins with the dependencies of the project in the directory `base`.
    pub fn begin(&mut self, manifest: &Manifest, base: &str)
        requires
            old(self).wf(),
            old(self)@.stack.len() == 0,
            old(self)@.edges.len() + 1 < u32::MAX,
            absolute(base@),
        ensures
            final(self).wf(),
            final(self)@ == opened(
                old(self)@,
                fresh_frame(None, None, base@, manifest.dependencies.keys(), manifest@),
            ),
            final(self).sources == old(self).sources,
    {
        let ghost frame = fresh_frame(None, None, base@, manifest.dependencies.keys(), manifest@);
        self.open(None, None, base.to_owned(), manifest);
        proof {
            let pushed = WalkModel {
                stack: old(self)@.stack.push(frame),
                awaited: None,
                ..old(self)@
            };
            lemma_settled_sources(pushed, source_states(self.sources.providers@));
            lemma_settled_grows(pushed);
            lemma_settled_keeps(pushed);
            if self@.twins.len() == 0 {
                lemma_pushed_ok(old(self)@, frame);
                lemma_settled_pins(pushed);
            }
        }
    }

    /// What the walk needs next.
    pub fn demand(&self) -> (r: Result<Demand, ResolveError>)
        requires
            self.wf(),
        ensures
            match demand_of(self@) {
                Ok(demand) => r is Ok && r->Ok_0@ == demand,
                Err(fault) => r is Err && r->Err_0@ == fault,
            },
    {
        match &self.awaited {
            Some(a) => {
                return Ok(Demand::Manifest { source: a.source.clone(), root: a.root.clone() });
            },
            None => {},
        }
        let count = self.stack.len();
        if count == 0 {
            return Ok(Demand::Done);
        }
        let place = match self.sought() {
            Ok(place) => place,
            Err(e) => return Err(e),
        };
        let frame = &self.stack[count - 1];
        proof {
            assert(self@.stack.last() == frame@);
            assert(frame_ok(self@, self@.stack[count - 1]));
            assert(frame@.names[frame@.children.len() as int]
                == frame.names@[frame.children@.len() as int]@);
            assert(frame@.dependencies[frame@.children.len() as int]
                == frame.dependencies@[frame.children@.len() as int]@);
        }
        let at = frame.children.len();
        Ok(
            Demand::Find {
                place,
                name: frame.names[at].clone(),
                namespace: frame.dependencies[at].namespace.clone(),
            },
        )
    }

    /// Where the dependency that is being looked for is to be found.
    fn sought(&self) -> (r: Result<Place, ResolveError>)
        requires
            poised(self@),
            searching(self@),
        ensures
            match place_sought(self@) {
                Ok(place) => r is Ok && r->Ok_0@ == place,
                Err(fault) => r is Err && r->Err_0@ == fault,
            },
    {
        let count = self.stack.len();
        if count - 1 > MAX_DEPTH {
            return Err(ResolveError::TooDeep);
        }
        let frame = &self.stack[count - 1];
        proof {
            assert(self@.stack.last() == frame@);
            assert(frame_ok(self@, self@.stack[count - 1]));
            assert(frame@.names[frame@.children.len() as int]
                == frame.names@[frame.children@.len() as int]@);
            assert(frame@.dependencies[frame@.children.len() as int]
                == frame.dependencies@[frame.children@.len() as int]@);
        }
        let at = frame.children.len();
        let parent = match &frame.source {
            Some(source) => Some(source),
            None => None,
        };
        match self.sources.locate(
            &frame.dependencies[at],
            frame.base.as_str(),
            parent,
            Some(frame.names[at].as_str()),
        ) {
            Ok(place) => Ok(place),
            Err(e) => Err(ResolveError::Source(e)),
        }
    }

    /// Goes on with the package that was found for the last demand.
    pub fn found(&mut self, package: Package) -> (r: Result<(), ResolveError>)
        requires
            old(self).wf(),
            searching(old(self)@),
            absolute(package@.root),
            place_sought(old(self)@) matches Ok(PlaceModel::Git(source)) ==> old(
                self,
            ).sources.providers@.contains_key(source_id(source)),
            old(self)@.nodes.len() < u32::MAX,
            old(self)@.edges.len() + old(self)@.stack.len() + 1 < u32::MAX,
        ensures
            final(self).wf(),
            final(self).sources == old(self).sources,
            match found_fault(
                old(self)@,
                source_states(old(self).sources.providers@),
                package@,
            ) {
                Some(fault) => r is Err && r->Err_0@ == fault && final(self)@ == old(self)@,
                None => r is Ok && final(self)@ == noted(
                    old(self)@,
                    found_node(
                        old(self)@,
                        source_states(old(self).sources.providers@),
                        package@,
                    ),
                    found_source(old(self)@, package@),
                ),
            },
    {
        let ghost m = self@;
        let ghost sources = source_states(self.sources.providers@);
        let place = match self.sought() {
            Ok(place) => place,
            Err(e) => return Err(e),
        };
        let count = self.stack.len();
        let frame = &self.stack[count - 1];
        proof {
            assert(m.stack.last() == frame@);
            assert(frame_ok(m, m.stack[count - 1]));
            assert(frame@.names[frame@.children.len() as int]
                == frame.names@[frame.children@.len() as int]@);
            assert(frame@.dependencies[frame@.children.len() as int]
                == frame.dependencies@[frame.children@.len() as int]@);
            assert(source_here(sources, m.stack[count - 1].source));
        }
        let at = frame.children.len();
        let source = match &place {
            Place::Git(specification) => SourceId::Git(specification.id()),
            Place::Inside { id, declared, path } => SourceId::Git(id.clone()),
            Place::Local(_) => SourceId::Path(package.root.clone()),
        };
        let kept = source.clone();
        let located = match confirm(package, source, Some(frame.names[at].as_str())) {
            Ok(located) => located,
            Err(e) => return Err(ResolveError::Source(e)),
        };
        let identity = match self.sources.identity(&located) {
            Ok(identity) => identity,
            Err(e) => return Err(ResolveError::Source(e)),
        };
        let root = located.package.root.clone();
        let node = PackageNode::new(
            located.package,
            identity,
            frame.dependencies[at].namespace.as_str(),
        );
        let ghost model = node@;
        let ghost from = kept@;
        assert(model == found_node(m, sources, package@));
        assert(pin_valid(model) && pin_drawn(model, sources)) by {
            if let SourceModel::Git(id) = from {
                assert(sources.contains_key(id));
            }
        }
        let known = match self.ids.get(&node.id) {
            Some(known) => Some(*known),
            None => None,
        };
        match known {
            Some(child) => {
                proof {
                    assert(m.ids.contains_key(model.id));
                    assert(m.ids[model.id] == child as nat);
                }
                self.twins = Ghost(twins_with(m, model));
                let ghost told = self@;
                proof {
                    lemma_told_ok(m, twins_with(m, model));
                }
                self.attach(child);
                self.settle();
                proof {
                    lemma_attached_sources(told, child as nat, sources);
                    lemma_settled_sources(attached(told, child as nat), sources);
                    lemma_settled_grows(attached(told, child as nat));
                    if self@.twins.len() == 0 {
                        lemma_settled_keeps(attached(told, child as nat));
                        lemma_found_keeps_pins(m, sources, package@);
                    }
                }
            },
            None => {
                proof {
                    assert(!m.ids.contains_key(model.id));
                    lemma_noted_new_ok(m, model, from);
                }
                let id = node.id.clone();
                let index = self.packages.add_node(node);
                let again = self.ids.insert(id, index);
                self.awaited = Some(Awaited { node: index, source: kept, root });
                proof {
                    assert(self@.ids =~= m.ids.insert(model.id, m.nodes.len()));
                    assert(self@ == noted(m, model, from));
                    lemma_valid_pushed(m.nodes, model, sources);
                    if self@.twins.len() == 0 {
                        lemma_found_keeps_pins(m, sources, package@);
                    }
                }
            },
        }
        Ok(())
    }

    /// Goes on with the dependencies that the package of the last demand declares.
    pub fn described(&mut self, manifest: &Manifest)
        requires
            old(self).wf(),
            old(self)@.awaited is Some,
            old(self)@.edges.len() + old(self)@.stack.len() + 1 < u32::MAX,
        ensures
            final(self).wf(),
            final(self).sources == old(self).sources,
            final(self)@ == opened(
                old(self)@,
                fresh_frame(
                    Some(old(self)@.awaited->0.node),
                    Some(old(self)@.awaited->0.source),
                    old(self)@.awaited->0.root,
                    manifest.dependencies.keys(),
                    manifest@,
                ),
            ),
    {
        let ghost m = self@;
        match &self.awaited {
            Some(a) => {
                let node = a.node;
                let source = a.source.clone();
                let root = a.root.clone();
                let ghost frame = fresh_frame(
                    Some(node as nat),
                    Some(source@),
                    root@,
                    manifest.dependencies.keys(),
                    manifest@,
                );
                self.open(Some(node), Some(source), root, manifest);
                proof {
                    let pushed = WalkModel { stack: m.stack.push(frame), awaited: None, ..m };
                    lemma_settled_sources(pushed, source_states(self.sources.providers@));
                    lemma_settled_grows(pushed);
                    lemma_settled_keeps(pushed);
                    if self@.twins.len() == 0 {
                        lemma_described_keeps_pins(m, frame);
                    }
                }
            },
            None => {},
        }
    }

    /// Where the walk stands, in words, from the direct dependency on down.
    pub fn context(&self) -> (r: Vec<String>)
        requires
            self.wf(),
        ensures
            texts(r@) == Seq::new(self@.stack.len(), |k: int| context_line(self@, k)),
    {
        let mut lines: Vec<String> = Vec::new();
        let ghost m = self@;
        let ghost wanted = Seq::new(m.stack.len(), |k: int| context_line(m, k));
        let mut k: usize = 0;
        assert(texts(lines@) =~= wanted.take(0));
        while k < self.stack.len()
            invariant
                self.wf(),
                m == self@,
                k <= self.stack@.len(),
                wanted == Seq::new(m.stack.len(), |k: int| context_line(m, k)),
                texts(lines@) == wanted.take(k as int),
            decreases self.stack@.len() - k,
        {
            let frame = &self.stack[k];
            proof {
                assert(m.stack[k as int] == frame@);
                assert(frame_ok(m, m.stack[k as int]));
                assert(!complete(m.stack[k as int]));
                assert(frame@.names[frame@.children.len() as int]
                    == frame.names@[frame.children@.len() as int]@);
            }
            let name = frame.names[frame.children.len()].as_str();
            let line = match frame.node {
                Some(node) => {
                    assert(m.nodes[node as int] == self.packages.nodes@[node as int]@);
                    let label = self.packages.nodes[node].label();
                    let mut line = plus3(label.as_str(), " depends on `", name);
                    line.append("`");
                    line
                },
                None => plus3("while resolving direct dependency `", name, "`"),
            };
            proof {
                lemma_texts_push(lines@, line);
                assert(wanted.take(k + 1) =~= wanted.take(k as int).push(line@));
            }
            lines.push(line);
            k = k + 1;
        }
        assert(wanted.take(k as int) =~= wanted);
        lines
    }
}

/// Pins stay valid and drawn from the sources when a package with such a pin is added.
proof fn lemma_valid_pushed(
    nodes: Seq<NodeModel>,
    node: NodeModel,
    sources: Map<Seq<char>, GitSourceState>,
)
    requires
        pins_valid(nodes),
        pin_valid(node),
        pins_drawn(nodes, sources),
        pin_drawn(node, sources),
    ensures
        pins_valid(nodes.push(node)),
        pins_drawn(nodes.push(node), sources),
{
    let now = nodes.push(node);
    assert forall|i: int| 0 <= i < now.len() implies pin_valid(#[trigger] now[i]) && pin_drawn(
        now[i],
        sources,
    ) by {
        if i < nodes.len() {
            assert(now[i] == nodes[i]);
        }
    }
}

/// Attaching a package needs no other sources.
pub proof fn lemma_attached_sources(m: WalkModel, child: nat, sources: Map<Seq<char>, GitSourceState>)
    requires
        m.stack.len() > 0,
        m.awaited is None,
        sources_ok(m, sources),
    ensures
        sources_ok(attached(m, child), sources),
        attached(m, child).awaited is None,
{
    let now = attached(m, child);
    assert forall|k: int| 0 <= k < now.stack.len() implies source_here(
        sources,
        (#[trigger] now.stack[k]).source,
    ) by {
        let before = m.stack[k];
        assert(now.stack[k].source == before.source);
        assert(source_here(sources, before.source));
    }
}

/// Closing lists needs no other sources.
pub proof fn lemma_settled_sources(m: WalkModel, sources: Map<Seq<char>, GitSourceState>)
    requires
        m.awaited is None,
        sources_ok(m, sources),
    ensures
        sources_ok(settled(m), sources),
    decreases m.stack.len(),
{
    if m.stack.len() > 0 && complete(m.stack.last()) {
        let rest = WalkModel { stack: m.stack.drop_last(), ..m };
        assert forall|k: int| 0 <= k < rest.stack.len() implies source_here(
            sources,
            (#[trigger] rest.stack[k]).source,
        ) by {
            assert(rest.stack[k] == m.stack[k]);
        }
        match m.stack.last().node {
            Some(node) => if rest.stack.len() > 0 {
                lemma_attached_sources(rest, node, sources);
                lemma_settled_sources(attached(rest, node), sources);
            },
            None => lemma_settled_sources(rest, sources),
        }
    }
}

/// Nothing is forgotten: the packages and links of a walk stay when a package is attached.
proof fn lemma_attached_grows(m: WalkModel, child: nat)
    ensures
        attached(m, child).nodes == m.nodes,
        m.edges.is_prefix_of(attached(m, child).edges),
{
    assert(m.edges =~= m.edges.push((0, 0)).take(m.edges.len() as int));
}

/// Nothing is forgotten: the packages and links of a walk stay when lists are closed.
pub proof fn lemma_settled_grows(m: WalkModel)
    ensures
        settled(m).nodes == m.nodes,
        m.edges.is_prefix_of(settled(m).edges),
    decreases m.stack.len(),
{
    if m.stack.len() > 0 && complete(m.stack.last()) {
        let rest = WalkModel { stack: m.stack.drop_last(), ..m };
        match m.stack.last().node {
            Some(node) => if rest.stack.len() > 0 {
                lemma_attached_grows(rest, node);
                lemma_settled_grows(attached(rest, node));
            },
            None => lemma_settled_grows(rest),
        }
    }
}

/// A list of dependencies is closed only when each of them leads to its package: a package has an
/// edge for every dependency it declares, and the project a direct dependency for each of its own.
pub proof fn lemma_closed_list_is_linked(m: WalkModel)
    requires
        walk_ok(m),
        m.stack.len() > 0,
        complete(m.stack.last()),
    ensures
        m.stack.last().children.len() == m.stack.last().names.len(),
        forall|k: int|
            0 <= k < m.stack.last().names.len() ==> #[trigger] child_linked(
                m,
                m.stack.last(),
                k,
            ),
{
    assert(frame_ok(m, m.stack[m.stack.len() - 1]));
}

/// No package is asked for its dependencies twice: one that is known already is only linked.
pub proof fn lemma_known_package_is_not_read_again(
    m: WalkModel,
    node: NodeModel,
    source: SourceModel,
)
    requires
        m.ids.contains_key(node.id),
        m.awaited is None,
        m.stack.len() > 0,
    ensures
        noted(m, node, source).nodes == m.nodes,
        noted(m, node, source).awaited is None,
{
    let told = WalkModel { twins: twins_with(m, node), ..m };
    lemma_settled_grows(attached(told, m.ids[node.id]));
    lemma_settled_keeps(attached(told, m.ids[node.id]));
}

/// Closing lists asks for nothing and finds nothing.
pub proof fn lemma_settled_keeps(m: WalkModel)
    ensures
        settled(m).awaited == m.awaited,
        settled(m).twins == m.twins,
        settled(m).ids == m.ids,
    decreases m.stack.len(),
{
    if m.stack.len() > 0 && complete(m.stack.last()) {
        let rest = WalkModel { stack: m.stack.drop_last(), ..m };
        match m.stack.last().node {
            Some(node) => if rest.stack.len() > 0 {
                lemma_settled_keeps(attached(rest, node));
            },
            None => lemma_settled_keeps(rest),
        }
    }
}

/// The package that a list belongs to is pinned.
pub open spec fn frame_pinned(m: WalkModel, frame: FrameModel) -> bool {
    match frame.node {
        Some(node) => m.nodes[node as int].pin is Some,
        None => false,
    }
}

/// What is pinned rests only on what is pinned: among the packages, and among those whose lists are
/// being gone through.
pub open spec fn pins_ok(m: WalkModel) -> bool {
    &&& pins_closed(m.nodes, m.edges)
    &&& forall|k: int, j: int|
        0 <= k && j == k + 1 && j < m.stack.len() ==> (frame_pinned(m, #[trigger] m.stack[k])
            ==> frame_pinned(m, #[trigger] m.stack[j]))
    &&& m.awaited matches Some(a) ==> (frame_pinned(m, m.stack.last())
        ==> m.nodes[a.node as int].pin is Some)
}

/// Attaching keeps what is pinned resting on what is pinned.
proof fn lemma_attached_pins(m: WalkModel, child: nat)
    requires
        walk_ok(m),
        searching(m),
        pins_ok(m),
        child < m.nodes.len(),
        frame_pinned(m, m.stack.last()) ==> m.nodes[child as int].pin is Some,
    ensures
        pins_ok(attached(m, child)),
{
    let now = attached(m, child);
    assert forall|i: int|
        0 <= i < now.edges.len() && now.nodes[now.edges[i].0 as int].pin is Some implies now.nodes[(
    #[trigger] now.edges[i]).1 as int].pin is Some by {
        if i < m.edges.len() {
            assert(now.edges[i] == m.edges[i]);
        }
    }
    assert forall|k: int, j: int|
        0 <= k && j == k + 1 && j < now.stack.len() && frame_pinned(
            now,
            #[trigger] now.stack[k],
        ) implies frame_pinned(now, #[trigger] now.stack[j]) by {
        let a = m.stack[k];
        let b = m.stack[j];
        assert(now.stack[k].node == a.node);
        assert(now.stack[j].node == b.node);
    }
}

/// Closing lists keeps what is pinned resting on what is pinned.
proof fn lemma_settled_pins(m: WalkModel)
    requires
        walk_ok(m),
        nested_ok(m),
        pins_ok(m),
        m.awaited is None,
    ensures
        pins_ok(settled(m)),
    decreases m.stack.len(),
{
    if m.stack.len() > 0 && complete(m.stack.last()) {
        let rest = WalkModel { stack: m.stack.drop_last(), ..m };
        lemma_popped_ok(m);
        assert forall|k: int, j: int|
            0 <= k && j == k + 1 && j < rest.stack.len() && frame_pinned(
                rest,
                #[trigger] rest.stack[k],
            ) implies frame_pinned(rest, #[trigger] rest.stack[j]) by {
            assert(rest.stack[k] == m.stack[k]);
            assert(rest.stack[j] == m.stack[j]);
        }
        let last = m.stack.len() - 1;
        assert(m.stack[last] == m.stack.last());
        match m.stack.last().node {
            Some(node) => if rest.stack.len() > 0 {
                assert(rest.stack.last() == m.stack[last - 1]);
                assert(frame_ok(m, m.stack[last]));
                lemma_attached_pins(rest, node);
                lemma_attached_ok(rest, node);
                lemma_settled_pins(attached(rest, node));
            },
            None => lemma_settled_pins(rest),
        }
    }
}

/// What is pinned keeps resting only on what is pinned when a package is noted, unless packages of
/// different sources are known by the same digest.
pub proof fn lemma_noted_keeps_pins(m: WalkModel, node: NodeModel, source: SourceModel)
    requires
        poised(m),
        searching(m),
        pins_ok(m),
        frame_pinned(m, m.stack.last()) ==> node.pin is Some,
        m.ids.contains_key(node.id) ==> same_source(m.nodes[m.ids[node.id] as int], node),
    ensures
        pins_ok(noted(m, node, source)),
{
    if m.ids.contains_key(node.id) {
        let child = m.ids[node.id];
        lemma_attached_pins(m, child);
        lemma_attached_ok(m, child);
        lemma_settled_pins(attached(m, child));
    } else {
        let now = noted(m, node, source);
        assert(forall|i: int| 0 <= i < m.nodes.len() ==> now.nodes[i] == m.nodes[i]);
        assert forall|i: int|
            0 <= i < now.edges.len() && now.nodes[now.edges[i].0
                as int].pin is Some implies now.nodes[(
        #[trigger] now.edges[i]).1 as int].pin is Some by {
            assert(m.edges[i].0 < m.nodes.len() && m.edges[i].1 < m.nodes.len());
        }
        assert forall|k: int| 0 <= k < m.stack.len() implies frame_pinned(
            now,
            #[trigger] now.stack[k],
        ) == frame_pinned(m, m.stack[k]) by {
            assert(frame_ok(m, m.stack[k]));
        }
        assert forall|k: int, j: int|
            0 <= k && j == k + 1 && j < now.stack.len() && frame_pinned(
                now,
                #[trigger] now.stack[k],
            ) implies frame_pinned(now, #[trigger] now.stack[j]) by {
            assert(m.stack[k] == now.stack[k] && m.stack[j] == now.stack[j]);
            assert(frame_pinned(m, m.stack[k]) ==> frame_pinned(m, m.stack[j]));
        }
        let last = m.stack.len() - 1;
        assert(now.stack.last() == now.stack[last]);
        assert(frame_pinned(now, now.stack[last]) == frame_pinned(m, m.stack[last]));
    }
}

/// What is pinned keeps resting only on what is pinned when the dependencies of a package are added
/// to go through.
pub proof fn lemma_described_keeps_pins(m: WalkModel, frame: FrameModel)
    requires
        poised(m),
        pins_ok(m),
        m.awaited is Some,
        frame_ok(m, frame),
        frame.node == Some(m.awaited->0.node),
        frame.source == Some(m.awaited->0.source),
    ensures
        pins_ok(opened(m, frame)),
{
    let now = WalkModel { stack: m.stack.push(frame), awaited: None, ..m };
    lemma_pushed_ok(m, frame);
    let last = m.stack.len() - 1;
    assert forall|k: int, j: int|
        0 <= k && j == k + 1 && j < now.stack.len() && frame_pinned(
            now,
            #[trigger] now.stack[k],
        ) implies frame_pinned(now, #[trigger] now.stack[j]) by {
        assert(now.stack[k] == m.stack[k]);
        if j < m.stack.len() {
            assert(now.stack[j] == m.stack[j]);
            assert(frame_pinned(m, m.stack[k]) ==> frame_pinned(m, m.stack[j]));
        } else {
            assert(m.stack.last() == m.stack[k]);
        }
    }
    lemma_settled_pins(now);
}

/// What a pinned package asks for is found in a Git source, so that the package found is pinned.
pub proof fn lemma_pinned_asks_for_pinned(
    m: WalkModel,
    sources: Map<Seq<char>, GitSourceState>,
    package: PackageModel,
)
    requires
        poised(m),
        searching(m),
        frame_pinned(m, m.stack.last()),
        place_sought(m) is Ok,
    ensures
        found_node(m, sources, package).pin is Some,
        found_source(m, package) is Git,
{
    let last = m.stack.len() - 1;
    assert(m.stack[last] == m.stack.last());
    assert(m.stack[last].node is Some);
}

/// What is pinned keeps resting only on what is pinned when a package is found, unless packages of
/// different sources are known by the same digest.
proof fn lemma_found_keeps_pins(
    m: WalkModel,
    sources: Map<Seq<char>, GitSourceState>,
    package: PackageModel,
)
    requires
        poised(m),
        searching(m),
        pins_ok(m),
        place_sought(m) is Ok,
        ({
            let node = found_node(m, sources, package);
            m.ids.contains_key(node.id) ==> same_source(m.nodes[m.ids[node.id] as int], node)
        }),
    ensures
        pins_ok(noted(m, found_node(m, sources, package), found_source(m, package))),
{
    if frame_pinned(m, m.stack.last()) {
        lemma_pinned_asks_for_pinned(m, sources, package);
    }
    lemma_noted_keeps_pins(m, found_node(m, sources, package), found_source(m, package));
}

/// The texts whose digest tells a package from those of other sources.
pub open spec fn key_parts(package: PackageModel, git: Option<GitSourceState>) -> Seq<Seq<char>> {
    match git {
        Some(source) => seq![
            source_id(source.specification),
            git_location_id(source, package.root),
        ],
        None => seq!["local"@, package.root],
    }
}

/// The texts whose digest a package is known by.
pub open spec fn id_parts(
    package: PackageModel,
    namespace: Seq<char>,
    git: Option<GitSourceState>,
) -> Seq<Seq<char>> {
    seq![hashed(key_parts(package, git)), namespace]
}

/// Different texts have one digest.
pub open spec fn collide(a: Seq<Seq<char>>, b: Seq<Seq<char>>) -> bool {
    a != b && hashed(a) == hashed(b)
}

/// Packages of different sources are taken for one only where the digest collides on the texts they
/// are known by.
pub proof fn lemma_twins_collide(
    a: PackageModel,
    a_namespace: Seq<char>,
    a_git: Option<GitSourceState>,
    b: PackageModel,
    b_namespace: Seq<char>,
    b_git: Option<GitSourceState>,
)
    requires
        node_at(a, a_namespace, a_git).id == node_at(b, b_namespace, b_git).id,
        !same_source(node_at(a, a_namespace, a_git), node_at(b, b_namespace, b_git)),
        a_git matches Some(source) ==> is_digest(source_id(source.specification)),
        b_git matches Some(source) ==> is_digest(source_id(source.specification)),
    ensures
        collide(id_parts(a, a_namespace, a_git), id_parts(b, b_namespace, b_git)) || collide(
            key_parts(a, a_git),
            key_parts(b, b_git),
        ),
{
    reveal_strlit("local");
    let x = id_parts(a, a_namespace, a_git);
    let y = id_parts(b, b_namespace, b_git);
    let p = key_parts(a, a_git);
    let q = key_parts(b, b_git);
    assert(hashed(x) == hashed(y));
    if x == y {
        assert(x[0] == y[0]);
        assert(p[0].len() != q[0].len() || p[0] != q[0]);
        assert(p != q);
    }
}

} // verus!
