//! Whole resolutions: what is found from the beginning to the end, and what of it stays the same when
//! a project is resolved again.

use vstd::prelude::*;

use crate::git::{source_id, GitSourceModel};
use crate::lockfile::{LockedPackage, LockedSourceModel};
use crate::manifest::DependencyModel;
use crate::package::PackageModel;
use crate::resolver::{
    finished, lemma_same_packages_same_resolution, resolution_right, same_import, Resolution,
};
use crate::resolver::packages::NodeModel;
use crate::resolver::pins::{lemma_pinned_sources, pinned_sources};
use crate::resolver::visit::{
    attached, current_dependency, current_name, found_fault, found_node, found_source, fresh_frame,
    git_at, kept_commit, lemma_attached_sources, lemma_settled_grows, lemma_settled_keeps,
    lemma_settled_sources, locked_at, node_map, noted, opened, pin_drawn, pins_drawn, place_sought,
    same_source, searching, source_here, sources_ok, twins_with, FrameModel, Resolver, WalkModel,
};
use crate::sources::{
    pin_models, source_states, sources_named, GitSourceState, PlaceModel, RefreshModel, SourceModel,
};
use crate::text::texts;

verus! {

/// What a resolution finds outside: the commit that a source names, where the files of a source at a
/// commit lie, the package of a name and a namespace at a place, and the dependencies that a package
/// declares, with their names in order.
pub struct World {
    pub tip: spec_fn(GitSourceModel) -> Seq<char>,
    pub files: spec_fn(GitSourceModel, Seq<char>) -> Seq<char>,
    pub package: spec_fn(PlaceModel, Option<GitSourceState>, Seq<char>, Seq<char>) -> Option<
        PackageModel,
    >,
    pub manifest: spec_fn(Option<GitSourceState>, Seq<char>) -> Option<
        (Seq<Seq<char>>, Map<Seq<char>, DependencyModel>),
    >,
}

/// The two differ at most in the commits that sources name.
pub open spec fn same_but_tips(a: World, b: World) -> bool {
    a.files == b.files && a.package == b.package && a.manifest == b.manifest
}

/// How far a resolution has come: the walk, and the Git sources that are here.
pub struct RunModel {
    pub walk: WalkModel,
    pub sources: Map<Seq<char>, GitSourceState>,
}

/// With what a resolution is begun: the pins of the one before, and which sources are asked for anew.
pub struct Plan {
    pub pins: Map<Seq<char>, LockedSourceModel>,
    pub policy: RefreshModel,
}

/// A Git source as it is brought here: at the commit it is kept at, else at the one that it names.
pub open spec fn acquired(w: World, plan: Plan, source: GitSourceModel) -> GitSourceState {
    let commit = match kept_commit(plan.pins, plan.policy, source) {
        Some(commit) => commit,
        None => (w.tip)(source),
    };
    GitSourceState { specification: source, root: (w.files)(source, commit), commit }
}

/// The Git sources that are here once a place can be looked at.
pub open spec fn sources_for(
    w: World,
    plan: Plan,
    sources: Map<Seq<char>, GitSourceState>,
    place: PlaceModel,
) -> Map<Seq<char>, GitSourceState> {
    match place {
        PlaceModel::Git(source) => if sources.contains_key(source_id(source)) {
            sources
        } else {
            sources.insert(source_id(source), acquired(w, plan, source))
        },
        _ => sources,
    }
}

/// The Git source of a package, if it has one.
pub open spec fn git_of(
    sources: Map<Seq<char>, GitSourceState>,
    source: SourceModel,
) -> Option<GitSourceState> {
    match source {
        SourceModel::Git(id) => Some(sources[id]),
        SourceModel::Path(_) => None,
    }
}

/// The package that is found for what is being looked for, with the sources that are then here; none
/// where something stops the walk.
pub open spec fn finding(w: World, plan: Plan, s: RunModel) -> Option<
    (PackageModel, Map<Seq<char>, GitSourceState>),
> {
    let frame = s.walk.stack.last();
    match place_sought(s.walk) {
        Err(_) => None,
        Ok(place) => {
            let sources = sources_for(w, plan, s.sources, place);
            match (w.package)(
                place,
                git_at(sources, place),
                current_name(frame),
                current_dependency(frame).namespace,
            ) {
                Some(package) => if found_fault(s.walk, sources, package) is None {
                    Some((package, sources))
                } else {
                    None
                },
                None => None,
            }
        },
    }
}

/// A resolution one step further; one that is finished or stopped stays as it is.
pub open spec fn next(w: World, plan: Plan, s: RunModel) -> RunModel {
    match s.walk.awaited {
        Some(a) => match (w.manifest)(git_of(s.sources, a.source), a.root) {
            Some((names, dependencies)) => RunModel {
                walk: opened(
                    s.walk,
                    fresh_frame(Some(a.node), Some(a.source), a.root, names, dependencies),
                ),
                ..s
            },
            None => s,
        },
        None => if s.walk.stack.len() == 0 {
            s
        } else {
            match finding(w, plan, s) {
                Some((package, sources)) => RunModel {
                    walk: noted(
                        s.walk,
                        found_node(s.walk, sources, package),
                        found_source(s.walk, package),
                    ),
                    sources,
                },
                None => s,
            }
        },
    }
}

/// A resolution some steps further.
pub open spec fn run(w: World, plan: Plan, s: RunModel, n: nat) -> RunModel
    decreases n,
{
    if n == 0 {
        s
    } else {
        next(w, plan, run(w, plan, s, (n - 1) as nat))
    }
}

/// How the resolution of a project in a directory begins, with the Git sources that are here already.
pub open spec fn begun_with(
    base: Seq<char>,
    names: Seq<Seq<char>>,
    dependencies: Map<Seq<char>, DependencyModel>,
    sources: Map<Seq<char>, GitSourceState>,
) -> RunModel {
    RunModel {
        walk: opened(
            WalkModel {
                nodes: Seq::empty(),
                edges: Seq::empty(),
                ids: Map::empty(),
                direct: Map::empty(),
                stack: Seq::empty(),
                awaited: None,
                twins: Seq::empty(),
            },
            fresh_frame(None, None, base, names, dependencies),
        ),
        sources,
    }
}

/// How the resolution of a project in a directory begins.
pub open spec fn begun(
    base: Seq<char>,
    names: Seq<Seq<char>>,
    dependencies: Map<Seq<char>, DependencyModel>,
) -> RunModel {
    begun_with(base, names, dependencies, Map::empty())
}

/// The sources are there under their identities and as they were brought here.
pub open spec fn as_acquired(
    w: World,
    plan: Plan,
    sources: Map<Seq<char>, GitSourceState>,
) -> bool {
    &&& sources_named(sources)
    &&& forall|id: Seq<char>| #[trigger]
        sources.contains_key(id) ==> sources[id] == acquired(w, plan, sources[id].specification)
}

/// How far a resolver has come.
pub open spec fn reached(r: Resolver) -> RunModel {
    RunModel { walk: r@, sources: source_states(r.sources.providers@) }
}

/// With what a resolver was begun.
pub open spec fn plan_of(r: Resolver) -> Plan {
    Plan { pins: pin_models(r.sources.previous_pins@), policy: r.sources.refresh@ }
}

/// A resolver that goes on with the package found in what is outside, once the Git source of its place
/// was brought here, is one step further.
pub proof fn lemma_found_is_a_step(
    w: World,
    before: Resolver,
    loaded: Resolver,
    after: Resolver,
    package: PackageModel,
)
    requires
        searching(before@),
        loaded@ == before@,
        plan_of(loaded) == plan_of(before),
        finding(w, plan_of(before), reached(before)) == Some(
            (package, source_states(loaded.sources.providers@)),
        ),
        after.sources == loaded.sources,
        after@ == noted(
            loaded@,
            found_node(loaded@, source_states(loaded.sources.providers@), package),
            found_source(loaded@, package),
        ),
    ensures
        reached(after) == next(w, plan_of(before), reached(before)),
        plan_of(after) == plan_of(before),
{
}

/// A resolver that goes on with the dependencies that a package declares is one step further.
pub proof fn lemma_described_is_a_step(
    w: World,
    before: Resolver,
    after: Resolver,
    names: Seq<Seq<char>>,
    dependencies: Map<Seq<char>, DependencyModel>,
)
    requires
        before@.awaited matches Some(a) && (w.manifest)(
            git_of(reached(before).sources, a.source),
            a.root,
        ) == Some((names, dependencies)) && after@ == opened(
            before@,
            fresh_frame(Some(a.node), Some(a.source), a.root, names, dependencies),
        ),
        after.sources == before.sources,
    ensures
        reached(after) == next(w, plan_of(before), reached(before)),
        plan_of(after) == plan_of(before),
{
}

/// A source is that of a package.
pub open spec fn in_use(nodes: Seq<NodeModel>, id: Seq<char>) -> bool {
    exists|i: int|
        0 <= i < nodes.len() && (#[trigger] nodes[i]).pin is Some && nodes[i].pin->0.source_id == id
}

/// What holds of a resolution at every step: the sources that the walk needs are there, all of them
/// as they were brought here, the pins are theirs, and what is known is there.
pub open spec fn run_drawn(w: World, plan: Plan, s: RunModel) -> bool {
    &&& sources_ok(s.walk, s.sources)
    &&& as_acquired(w, plan, s.sources)
    &&& pins_drawn(s.walk.nodes, s.sources)
    &&& forall|id: Seq<char>| #[trigger]
        s.walk.ids.contains_key(id) ==> s.walk.ids[id] < s.walk.nodes.len()
}

/// What holds at every step of a resolution that was begun without sources: every source is that of a
/// package, too, unless packages of different sources were taken for one.
pub open spec fn run_ok(w: World, plan: Plan, s: RunModel) -> bool {
    &&& run_drawn(w, plan, s)
    &&& s.walk.twins.len() == 0 ==> forall|id: Seq<char>| #[trigger]
        s.sources.contains_key(id) ==> in_use(s.walk.nodes, id)
}

/// Nothing is forgotten on the way from one state to another.
pub open spec fn grows(s: RunModel, t: RunModel) -> bool {
    &&& forall|id: Seq<char>| #[trigger]
        s.sources.contains_key(id) ==> t.sources.contains_key(id) && t.sources[id] == s.sources[id]
    &&& s.walk.twins.len() <= t.walk.twins.len()
}

/// The package that is found is pinned to one of the sources that are then here.
proof fn lemma_found_is_drawn(w: World, plan: Plan, s: RunModel)
    requires
        run_drawn(w, plan, s),
        s.walk.stack.len() > 0,
        finding(w, plan, s) is Some,
    ensures
        ({
            let (package, sources) = finding(w, plan, s)->0;
            let place = place_sought(s.walk)->Ok_0;
            let node = found_node(s.walk, sources, package);
            &&& sources_ok(s.walk, sources)
            &&& as_acquired(w, plan, sources)
            &&& pins_drawn(s.walk.nodes, sources)
            &&& pin_drawn(node, sources)
            &&& source_here(sources, Some(found_source(s.walk, package)))
            &&& place matches PlaceModel::Git(source) ==> node.pin is Some
                && node.pin->0.source_id == source_id(source)
        }),
{
    let (package, sources) = finding(w, plan, s)->0;
    let place = place_sought(s.walk)->Ok_0;
    let last = s.walk.stack.len() - 1;
    assert(s.walk.stack[last] == s.walk.stack.last());
    assert(source_here(s.sources, s.walk.stack[last].source));
    assert forall|k: int| 0 <= k < s.walk.stack.len() implies source_here(
        sources,
        (#[trigger] s.walk.stack[k]).source,
    ) by {
        assert(source_here(s.sources, s.walk.stack[k].source));
    }
    assert forall|i: int| 0 <= i < s.walk.nodes.len() implies pin_drawn(
        #[trigger] s.walk.nodes[i],
        sources,
    ) by {
        assert(pin_drawn(s.walk.nodes[i], s.sources));
    }
    match place {
        PlaceModel::Git(source) => {
            assert(sources.contains_key(source_id(source)));
        },
        PlaceModel::Inside { id, .. } => {
            assert(sources.contains_key(id));
        },
        PlaceModel::Local(_) => {},
    }
}

/// A step keeps what holds, and nothing is forgotten in it.
proof fn lemma_next_drawn(w: World, plan: Plan, s: RunModel)
    requires
        run_drawn(w, plan, s),
    ensures
        run_drawn(w, plan, next(w, plan, s)),
        grows(s, next(w, plan, s)),
{
    let t = next(w, plan, s);
    match s.walk.awaited {
        Some(a) => match (w.manifest)(git_of(s.sources, a.source), a.root) {
            Some((names, dependencies)) => {
                let frame = fresh_frame(
                    Some(a.node),
                    Some(a.source),
                    a.root,
                    names,
                    dependencies,
                );
                let pushed = WalkModel {
                    stack: s.walk.stack.push(frame),
                    awaited: None,
                    ..s.walk
                };
                assert forall|k: int| 0 <= k < pushed.stack.len() implies source_here(
                    s.sources,
                    (#[trigger] pushed.stack[k]).source,
                ) by {
                    if k < s.walk.stack.len() {
                        assert(source_here(s.sources, s.walk.stack[k].source));
                    }
                }
                lemma_settled_sources(pushed, s.sources);
                lemma_settled_grows(pushed);
                lemma_settled_keeps(pushed);
            },
            None => {},
        },
        None => if s.walk.stack.len() > 0 && finding(w, plan, s) is Some {
            let (package, sources) = finding(w, plan, s)->0;
            let node = found_node(s.walk, sources, package);
            lemma_found_is_drawn(w, plan, s);
            if s.walk.ids.contains_key(node.id) {
                let child = s.walk.ids[node.id];
                let told = WalkModel { twins: twins_with(s.walk, node), ..s.walk };
                assert(sources_ok(told, sources));
                lemma_attached_sources(told, child, sources);
                lemma_settled_sources(attached(told, child), sources);
                lemma_settled_grows(attached(told, child));
                lemma_settled_keeps(attached(told, child));
            } else {
                assert forall|i: int| 0 <= i < t.walk.nodes.len() implies pin_drawn(
                    #[trigger] t.walk.nodes[i],
                    sources,
                ) by {
                    if i < s.walk.nodes.len() {
                        assert(t.walk.nodes[i] == s.walk.nodes[i]);
                    }
                }
                assert forall|k: int| 0 <= k < t.walk.stack.len() implies source_here(
                    sources,
                    (#[trigger] t.walk.stack[k]).source,
                ) by {
                    assert(source_here(sources, s.walk.stack[k].source));
                }
            }
        },
    }
}

/// A step keeps what holds of a resolution that was begun without sources.
proof fn lemma_next_ok(w: World, plan: Plan, s: RunModel)
    requires
        run_ok(w, plan, s),
    ensures
        run_ok(w, plan, next(w, plan, s)),
        grows(s, next(w, plan, s)),
{
    let t = next(w, plan, s);
    lemma_next_drawn(w, plan, s);
    if t.walk.twins.len() == 0 {
        assert forall|id: Seq<char>| #[trigger] t.sources.contains_key(id) implies in_use(
            t.walk.nodes,
            id,
        ) by {
            match s.walk.awaited {
                Some(a) => match (w.manifest)(git_of(s.sources, a.source), a.root) {
                    Some((names, dependencies)) => {
                        let pushed = WalkModel {
                            stack: s.walk.stack.push(
                                fresh_frame(
                                    Some(a.node),
                                    Some(a.source),
                                    a.root,
                                    names,
                                    dependencies,
                                ),
                            ),
                            awaited: None,
                            ..s.walk
                        };
                        lemma_settled_grows(pushed);
                    },
                    None => {},
                },
                None => if s.walk.stack.len() > 0 && finding(w, plan, s) is Some {
                    lemma_source_in_use(w, plan, s, id);
                },
            }
        }
    }
}

/// Every source that is here after a package was found is that of a package.
proof fn lemma_source_in_use(w: World, plan: Plan, s: RunModel, id: Seq<char>)
    requires
        run_ok(w, plan, s),
        s.walk.awaited is None,
        s.walk.stack.len() > 0,
        finding(w, plan, s) is Some,
        next(w, plan, s).walk.twins.len() == 0,
        next(w, plan, s).sources.contains_key(id),
    ensures
        in_use(next(w, plan, s).walk.nodes, id),
{
    let t = next(w, plan, s);
    let (package, sources) = finding(w, plan, s)->0;
    let node = found_node(s.walk, sources, package);
    lemma_found_is_drawn(w, plan, s);
    if s.walk.ids.contains_key(node.id) {
        let child = s.walk.ids[node.id];
        let told = WalkModel { twins: twins_with(s.walk, node), ..s.walk };
        lemma_settled_grows(attached(told, child));
        lemma_settled_keeps(attached(told, child));
        assert(t.walk.nodes == s.walk.nodes);
        assert(same_source(s.walk.nodes[child as int], node));
        if s.sources.contains_key(id) {
            assert(in_use(s.walk.nodes, id));
        } else {
            assert(t.walk.nodes[child as int].pin->0.source_id == id);
        }
    } else {
        let last = s.walk.nodes.len() as int;
        assert(t.walk.nodes[last] == node);
        if s.sources.contains_key(id) {
            assert(in_use(s.walk.nodes, id));
            let i = choose|i: int|
                0 <= i < s.walk.nodes.len() && (#[trigger] s.walk.nodes[i]).pin is Some
                    && s.walk.nodes[i].pin->0.source_id == id;
            assert(t.walk.nodes[i] == s.walk.nodes[i]);
        }
    }
}

/// What holds at the beginning.
proof fn lemma_begun_drawn(
    w: World,
    plan: Plan,
    base: Seq<char>,
    names: Seq<Seq<char>>,
    dependencies: Map<Seq<char>, DependencyModel>,
    sources: Map<Seq<char>, GitSourceState>,
)
    requires
        as_acquired(w, plan, sources),
    ensures
        run_drawn(w, plan, begun_with(base, names, dependencies, sources)),
{
    let pushed = WalkModel {
        nodes: Seq::empty(),
        edges: Seq::empty(),
        ids: Map::empty(),
        direct: Map::empty(),
        stack: Seq::<FrameModel>::empty().push(
            fresh_frame(None, None, base, names, dependencies),
        ),
        awaited: None,
        twins: Seq::empty(),
    };
    assert(sources_ok(pushed, sources));
    lemma_settled_sources(pushed, sources);
    lemma_settled_grows(pushed);
    lemma_settled_keeps(pushed);
}

/// What holds stays, however many steps are made.
proof fn lemma_run_drawn(w: World, plan: Plan, s: RunModel, n: nat)
    requires
        run_drawn(w, plan, s),
    ensures
        run_drawn(w, plan, run(w, plan, s, n)),
    decreases n,
{
    if n > 0 {
        lemma_run_drawn(w, plan, s, (n - 1) as nat);
        lemma_next_drawn(w, plan, run(w, plan, s, (n - 1) as nat));
    }
}

/// What holds stays, however many steps are made.
proof fn lemma_run_ok(w: World, plan: Plan, s: RunModel, n: nat)
    requires
        run_ok(w, plan, s),
    ensures
        run_ok(w, plan, run(w, plan, s, n)),
    decreases n,
{
    if n > 0 {
        lemma_run_ok(w, plan, s, (n - 1) as nat);
        lemma_next_ok(w, plan, run(w, plan, s, (n - 1) as nat));
    }
}

/// Nothing is forgotten, however many steps are made.
proof fn lemma_run_grows(w: World, plan: Plan, s: RunModel, k: nat, n: nat)
    requires
        run_ok(w, plan, s),
        k <= n,
    ensures
        grows(run(w, plan, s, k), run(w, plan, s, n)),
    decreases n,
{
    if k < n {
        lemma_run_grows(w, plan, s, k, (n - 1) as nat);
        lemma_run_ok(w, plan, s, (n - 1) as nat);
        lemma_next_ok(w, plan, run(w, plan, s, (n - 1) as nat));
    }
}

/// A resolution that a step does not take further stays where it is.
proof fn lemma_stopped_stays(w: World, plan: Plan, s: RunModel, k: nat, n: nat)
    requires
        k <= n,
        next(w, plan, run(w, plan, s, k)) == run(w, plan, s, k),
    ensures
        run(w, plan, s, n) == run(w, plan, s, k),
    decreases n,
{
    if k < n {
        lemma_stopped_stays(w, plan, s, k, (n - 1) as nat);
    }
}

/// What the pins of a finished resolution say of a source that is here.
proof fn lemma_source_is_pinned(w: World, plan: Plan, s: RunModel, id: Seq<char>)
    requires
        run_ok(w, plan, s),
        s.walk.twins.len() == 0,
        s.sources.contains_key(id),
    ensures
        pinned_sources(s.walk.nodes).contains_key(id),
        pinned_sources(s.walk.nodes)[id] == locked_at(s.sources[id]),
{
    let nodes = s.walk.nodes;
    lemma_pinned_sources(nodes);
    assert(in_use(nodes, id));
    let i = choose|i: int|
        0 <= i < nodes.len() && (#[trigger] nodes[i]).pin is Some && nodes[i].pin->0.source_id
            == id;
    assert(pinned_sources(nodes).contains_key(nodes[i].pin->0.source_id));
    let j = choose|j: int|
        0 <= j < nodes.len() && (#[trigger] nodes[j]).pin is Some && nodes[j].pin->0.source_id == id
            && nodes[j].pin->0.source == pinned_sources(nodes)[id];
    assert(pin_drawn(nodes[j], s.sources));
}

/// With the pins of a finished resolution, a step from anywhere on its way is the same step, whatever
/// the sources name by then.
proof fn lemma_same_step(w: World, later: World, plan: Plan, s: RunModel, k: nat, n: nat)
    requires
        same_but_tips(w, later),
        run_ok(w, plan, s),
        k < n,
        finished(run(w, plan, s, n).walk),
        run(w, plan, s, n).walk.twins.len() == 0,
    ensures
        ({
            let again = Plan {
                pins: pinned_sources(run(w, plan, s, n).walk.nodes),
                policy: RefreshModel::Preserve,
            };
            next(later, again, run(w, plan, s, k)) == next(w, plan, run(w, plan, s, k))
        }),
{
    let here = run(w, plan, s, k);
    let end = run(w, plan, s, n);
    let again = Plan { pins: pinned_sources(end.walk.nodes), policy: RefreshModel::Preserve };
    lemma_run_ok(w, plan, s, k);
    lemma_run_ok(w, plan, s, n);
    if here.walk.awaited is None && here.walk.stack.len() > 0 {
        if finding(w, plan, here) is None {
            lemma_stopped_stays(w, plan, s, k, n);
            assert(false);
        }
        let place = place_sought(here.walk)->Ok_0;
        if let PlaceModel::Git(source) = place {
            let id = source_id(source);
            if !here.sources.contains_key(id) {
                let after = run(w, plan, s, k + 1);
                assert(after == next(w, plan, here));
                assert(after.sources.contains_key(id));
                assert(after.sources[id] == acquired(w, plan, source));
                lemma_run_grows(w, plan, s, k + 1, n);
                assert(end.sources[id] == acquired(w, plan, source));
                lemma_source_is_pinned(w, plan, end, id);
                assert(kept_commit(again.pins, again.policy, source) == Some(
                    acquired(w, plan, source).commit,
                ));
                assert(acquired(later, again, source) == acquired(w, plan, source));
            }
        }
        assert(sources_for(later, again, here.sources, place) == sources_for(
            w,
            plan,
            here.sources,
            place,
        ));
    }
}

/// A project that is resolved a second time, with the pins of the first time and nothing asked for
/// anew, is resolved to the same packages from the same commits, though the sources may name other
/// commits by then. Left out are packages of different sources that are known by one digest.
pub proof fn lemma_second_sync_is_the_first(
    w: World,
    later: World,
    plan: Plan,
    base: Seq<char>,
    names: Seq<Seq<char>>,
    dependencies: Map<Seq<char>, DependencyModel>,
    n: nat,
)
    requires
        same_but_tips(w, later),
        finished(run(w, plan, begun(base, names, dependencies), n).walk),
        run(w, plan, begun(base, names, dependencies), n).walk.twins.len() == 0,
    ensures
        ({
            let first = run(w, plan, begun(base, names, dependencies), n);
            let again = Plan {
                pins: pinned_sources(first.walk.nodes),
                policy: RefreshModel::Preserve,
            };
            run(later, again, begun(base, names, dependencies), n) == first
        }),
{
    let s = begun(base, names, dependencies);
    lemma_begun_drawn(w, plan, base, names, dependencies, Map::empty());
    lemma_second_run_follows(w, later, plan, s, n, n);
}

/// Where a project is synced a second time, with the pins that the first time wrote, the pins and the
/// imports are the same, though the sources may name other commits by then.
pub proof fn lemma_second_sync_writes_the_same(
    w: World,
    later: World,
    first: Resolver,
    second: Resolver,
    base: Seq<char>,
    names: Seq<Seq<char>>,
    dependencies: Map<Seq<char>, DependencyModel>,
    n: nat,
    a: Resolution,
    b: Resolution,
)
    requires
        same_but_tips(w, later),
        reached(first) == run(w, plan_of(first), begun(base, names, dependencies), n),
        finished(first@),
        first@.twins.len() == 0,
        resolution_right(first@.nodes, first@.edges, first.direct.keys(), first.direct@, a),
        plan_of(second) == (Plan {
            pins: pin_models(a.lock.sources@),
            policy: RefreshModel::Preserve,
        }),
        reached(second) == run(later, plan_of(second), begun(base, names, dependencies), n),
        resolution_right(second@.nodes, second@.edges, second.direct.keys(), second.direct@, b),
    ensures
        a.lock.version == b.lock.version,
        pin_models(a.lock.sources@) == pin_models(b.lock.sources@),
        a.lock.packages@.map_values(|p: LockedPackage| p@) == b.lock.packages@.map_values(
            |p: LockedPackage| p@,
        ),
        a.lock.roots@.map_values(|r: Vec<String>| texts(r@)) == b.lock.roots@.map_values(
            |r: Vec<String>| texts(r@),
        ),
        a.imports@.len() == b.imports@.len(),
        forall|i: int|
            0 <= i < a.imports@.len() ==> same_import(#[trigger] a.imports@[i], b.imports@[i]),
{
    lemma_second_sync_is_the_first(w, later, plan_of(first), base, names, dependencies, n);
    assert(first@ == second@);
    let x = first.direct@;
    let y = second.direct@;
    assert(node_map(x) == node_map(y));
    assert forall|name: Seq<char>|
        #![trigger x.dom().contains(name)]
        #![trigger y.dom().contains(name)]
        x.dom().contains(name) == y.dom().contains(name) && (x.dom().contains(name) ==> x[name]
            == y[name]) by {
        assert(node_map(x).dom().contains(name) == x.dom().contains(name));
        assert(node_map(y).dom().contains(name) == y.dom().contains(name));
        if x.dom().contains(name) {
            assert(node_map(x)[name] == x[name] as nat);
            assert(node_map(y)[name] == y[name] as nat);
        }
    }
    assert(x.dom() =~= y.dom());
    assert(x =~= y);
    lemma_same_packages_same_resolution(
        first@.nodes,
        first@.edges,
        first.direct.keys(),
        second.direct.keys(),
        x,
        a,
        b,
    );
}

/// The second time follows the first step by step.
proof fn lemma_second_run_follows(
    w: World,
    later: World,
    plan: Plan,
    s: RunModel,
    k: nat,
    n: nat,
)
    requires
        same_but_tips(w, later),
        run_ok(w, plan, s),
        k <= n,
        finished(run(w, plan, s, n).walk),
        run(w, plan, s, n).walk.twins.len() == 0,
    ensures
        ({
            let again = Plan {
                pins: pinned_sources(run(w, plan, s, n).walk.nodes),
                policy: RefreshModel::Preserve,
            };
            run(later, again, s, k) == run(w, plan, s, k)
        }),
    decreases k,
{
    if k > 0 {
        lemma_second_run_follows(w, later, plan, s, (k - 1) as nat, n);
        lemma_same_step(w, later, plan, s, (k - 1) as nat, n);
    }
}

/// The pins of a resolution are those of the sources as they were brought here: a source that is
/// asked for anew is pinned to the commit it names, any other to the one it was pinned to, if it was.
pub proof fn lemma_pins_are_as_acquired(
    w: World,
    plan: Plan,
    base: Seq<char>,
    names: Seq<Seq<char>>,
    dependencies: Map<Seq<char>, DependencyModel>,
    sources: Map<Seq<char>, GitSourceState>,
    n: nat,
)
    requires
        as_acquired(w, plan, sources),
    ensures
        ({
            let pins = pinned_sources(
                run(w, plan, begun_with(base, names, dependencies, sources), n).walk.nodes,
            );
            forall|id: Seq<char>| #[trigger]
                pins.contains_key(id) ==> {
                    &&& source_id(pins[id].source) == id
                    &&& pins[id].commit == match kept_commit(
                        plan.pins,
                        plan.policy,
                        pins[id].source,
                    ) {
                        Some(commit) => commit,
                        None => (w.tip)(pins[id].source),
                    }
                }
        }),
{
    let s = begun_with(base, names, dependencies, sources);
    lemma_begun_drawn(w, plan, base, names, dependencies, sources);
    lemma_run_drawn(w, plan, s, n);
    let end = run(w, plan, s, n);
    let nodes = end.walk.nodes;
    let pins = pinned_sources(nodes);
    lemma_pinned_sources(nodes);
    assert forall|id: Seq<char>| #[trigger] pins.contains_key(id) implies source_id(pins[id].source)
        == id && pins[id] == locked_at(acquired(w, plan, pins[id].source)) by {
        let j = choose|j: int|
            0 <= j < nodes.len() && (#[trigger] nodes[j]).pin is Some && nodes[j].pin->0.source_id
                == id && nodes[j].pin->0.source == pins[id];
        assert(pin_drawn(nodes[j], end.sources));
        assert(end.sources.contains_key(id));
    }
}

/// A dependency that was added and is added again from a source of its own: that source is pinned to
/// the commit it names by then, and every other source that was pinned and still is keeps its pin.
pub proof fn lemma_repeated_add(
    w: World,
    pins: Map<Seq<char>, LockedSourceModel>,
    added: Seq<char>,
    base: Seq<char>,
    names: Seq<Seq<char>>,
    dependencies: Map<Seq<char>, DependencyModel>,
    sources: Map<Seq<char>, GitSourceState>,
    n: nat,
)
    requires
        as_acquired(w, (Plan { pins, policy: RefreshModel::Source(added) }), sources),
    ensures
        ({
            let plan = Plan { pins, policy: RefreshModel::Source(added) };
            let now = pinned_sources(
                run(w, plan, begun_with(base, names, dependencies, sources), n).walk.nodes,
            );
            &&& now.contains_key(added) ==> now[added].commit == (w.tip)(now[added].source)
            &&& forall|id: Seq<char>|
                id != added && #[trigger] now.contains_key(id) && pins.contains_key(id)
                    && pins[id].source == now[id].source ==> now[id] == pins[id]
        }),
{
    let plan = Plan { pins, policy: RefreshModel::Source(added) };
    lemma_pins_are_as_acquired(w, plan, base, names, dependencies, sources, n);
}

} // verus!
