//! Laws of collecting a dependency tree.
use crate::collect;
use crate::collect::InfoModel;
use crate::collect::KnownMetadata;
use crate::collect::OpenModel;
use crate::collect::WorldModel;
use crate::coord::CoordModel;
use crate::coord::DependencyScope;
use crate::coord::ExclusionModel;
use crate::effective;
use crate::effective::KnownPoms;
use crate::known;
use crate::known::Fetched;
use crate::laws::effective as effective_laws;
use crate::laws::resolver as resolver_laws;
use crate::laws::version as version_laws;
use crate::pom;
use crate::pom::DependencyModel;
use crate::pom::EnvironmentModel;
use crate::pom::PomModel;
use crate::resolver;
use crate::resolver::Ga;
use crate::resolver::NodeModel;
use crate::resolver::Reached;
use crate::resolver::ResolvedModel;
use crate::text::Order;
use crate::version;
use crate::version::ConstraintModel;
use vstd::prelude::*;

verus! {

// ---------------------------------------------------------------------------
// Versions
// ---------------------------------------------------------------------------

proof fn lemma_highest(
    versions: Seq<Seq<char>>,
    i: int,
    best: Option<Seq<char>>,
    c: ConstraintModel,
)
    requires
        0 <= i <= versions.len(),
        best matches Some(b) ==> versions.contains(b) && collect::eligible(b, c),
    ensures
        collect::highest_from(versions, i, best, c) matches Some(v) ==> versions.contains(v)
            && collect::eligible(v, c),
        collect::highest_from(versions, i, best, c) is None ==> best is None && forall|j: int|
            i <= j < versions.len() ==> !collect::eligible(#[trigger] versions[j], c),
    decreases versions.len() - i,
{
    if i < versions.len() {
        if collect::eligible(versions[i], c) && (best matches Some(b) ==> version::version_order(
            versions[i],
            b,
        ) == Order::Greater) {
            lemma_highest(versions, i + 1, Some(versions[i]), c);
        } else {
            lemma_highest(versions, i + 1, best, c);
        }
    }
}

/// A range selects a version that is listed, lies in the range and is no snapshot, and it
/// selects one wherever there is one.
pub proof fn selected_version_satisfies(versions: Seq<Seq<char>>, c: ConstraintModel)
    ensures
        collect::highest_from(versions, 0, None, c) matches Some(v) ==> versions.contains(v)
            && version::constraint_holds(c, v) && !collect::is_snapshot(v),
        collect::highest_from(versions, 0, None, c) is None <==> forall|j: int|
            0 <= j < versions.len() ==> !collect::eligible(#[trigger] versions[j], c),
{
    lemma_highest(versions, 0, None, c);
}

proof fn lemma_none_higher(
    versions: Seq<Seq<char>>,
    i: int,
    best: Option<Seq<char>>,
    c: ConstraintModel,
    w: Seq<char>,
)
    requires
        0 <= i <= versions.len(),
        (best matches Some(b) && version::version_order(w, b) != Order::Greater) || (exists|j: int|
            i <= j < versions.len() && #[trigger] versions[j] == w && collect::eligible(w, c)),
    ensures
        collect::highest_from(versions, i, best, c) matches Some(v) && version::version_order(w, v)
            != Order::Greater,
    decreases versions.len() - i,
{
    if i < versions.len() {
        let x = versions[i];
        if collect::eligible(x, c) && (best matches Some(b) ==> version::version_order(x, b)
            == Order::Greater) {
            if let Some(b) = best {
                version_laws::order_flips(x, b);
                if version::version_order(w, b) != Order::Greater {
                    version_laws::order_is_transitive(w, b, x);
                }
            }
            if w == x {
                version_laws::version_equals_itself(x);
            }
            lemma_none_higher(versions, i + 1, Some(x), c, w);
        } else {
            lemma_none_higher(versions, i + 1, best, c, w);
        }
    }
}

/// A range selects the highest of the versions that it may select.
pub proof fn selected_version_is_highest(
    versions: Seq<Seq<char>>,
    c: ConstraintModel,
    w: Seq<char>,
)
    requires
        versions.contains(w),
        collect::eligible(w, c),
    ensures
        collect::highest_from(versions, 0, None, c) matches Some(v) && version::version_order(w, v)
            != Order::Greater,
{
    let k = choose|k: int| 0 <= k < versions.len() && versions[k] == w;
    assert(versions[k] == w);
    lemma_none_higher(versions, 0, None, c, w);
}

// ---------------------------------------------------------------------------
// What holds of every node
// ---------------------------------------------------------------------------

/// Whether a version is what a managed version comes to: itself, or where it is a range a
/// version in the range that is no snapshot.
pub open spec fn meets(v: Seq<char>, managed: Seq<char>) -> bool {
    if collect::is_range(managed) {
        version::constraint_of(managed) matches Ok(c) && collect::eligible(v, c)
    } else {
        v == managed
    }
}

/// What holds of a node below a node with the given scope, if any, and exclusions, where the
/// artifacts in `visited` were met before, and of all nodes below it:
/// - it is not optional, and neither an import nor a system file;
/// - its scope is passed on to the root;
/// - no exclusion above it matches it;
/// - where the root manages its artifact, it has the managed version, and as a transitive
///   dependency the managed scope if there is one;
/// - nothing stands below it where its artifact was met before.
pub open spec fn proper(
    w: WorldModel,
    above: Option<DependencyScope>,
    exclusions: Seq<ExclusionModel>,
    visited: Set<Ga>,
    n: NodeModel,
) -> bool
    decreases n,
{
    &&& !n.optional
    &&& n.scope != DependencyScope::Import && n.scope != DependencyScope::System
    &&& collect::reached_scope(above, n.scope) is Some
    &&& !collect::any_excludes(exclusions, n.coord.group_id, n.coord.artifact_id)
    &&& as_managed(w, above, n.coord, n.scope)
    &&& visited.contains(resolver_laws::artifact_at(n)) ==> n.children.len() == 0
    &&& forall|i: int|
        0 <= i < n.children.len() ==> proper(
            w,
            collect::reached_scope(above, n.scope),
            exclusions + n.exclusions,
            visited.insert(resolver_laws::artifact_at(n)),
            #[trigger] n.children[i],
        )
}

/// Whether an artifact has the version that the root manages for it, and as a transitive
/// dependency the scope.
pub open spec fn as_managed(
    w: WorldModel,
    above: Option<DependencyScope>,
    coord: CoordModel,
    scope: DependencyScope,
) -> bool {
    pom::managed_entry(w.managed, coord.group_id, coord.artifact_id, coord.extension) matches Some(
        m,
    ) ==> {
        &&& m.version matches Some(v) && meets(coord.version, v)
        &&& above is Some && m.scope is Some ==> scope == collect::declared_scope(m)
    }
}

/// Whether a tree has at most `levels` levels.
pub open spec fn within(n: NodeModel, levels: int) -> bool
    decreases n,
{
    levels > 0 && forall|i: int|
        0 <= i < n.children.len() ==> within(#[trigger] n.children[i], levels - 1)
}

spec fn info_proper(
    w: WorldModel,
    above: Option<DependencyScope>,
    exclusions: Seq<ExclusionModel>,
    info: InfoModel,
) -> bool {
    &&& info.scope != DependencyScope::Import && info.scope != DependencyScope::System
    &&& collect::reached_scope(above, info.scope) == Some(info.reached)
    &&& !collect::any_excludes(exclusions, info.coord.group_id, info.coord.artifact_id)
    &&& as_managed(w, above, info.coord, info.scope)
    &&& info.recurse ==> info.child_exclusions == exclusions + info.exclusions
}

/// The artifact of a dependency.
pub open spec fn info_ga(info: InfoModel) -> Ga {
    (info.coord.group_id, info.coord.artifact_id)
}

/// A version that is chosen is one that the declared version stands for.
pub proof fn lemma_chosen_version(d: DependencyModel, metadata: KnownMetadata)
    ensures
        collect::chosen_version(d, metadata) matches Some(Some(v)) ==> d.version matches Some(dv)
            && meets(v, dv),
{
    let v = collect::wanted_version(d);
    if effective::is_usable(v) && collect::is_range(v) {
        if let Ok(c) = version::constraint_of(v) {
            if let Some(Fetched::Found(m)) = known::outcome(
                metadata,
                collect::ga_key(d.group_id, d.artifact_id),
            ) {
                selected_version_satisfies(crate::metadata::versions_of(m), c);
            }
        }
    }
}

proof fn lemma_selected(
    w: WorldModel,
    deps: Seq<DependencyModel>,
    i: int,
    above: Option<DependencyScope>,
    exclusions: Seq<ExclusionModel>,
    visited: Set<Ga>,
)
    requires
        0 <= i,
        collect::selected(deps, i, above, exclusions, visited, w.managed, w.metadata) is Some,
    ensures
        ({
            let (infos, met) = collect::selected(
                deps,
                i,
                above,
                exclusions,
                visited,
                w.managed,
                w.metadata,
            )->0;
            &&& visited.subset_of(met)
            &&& forall|k: int|
                0 <= k < infos.len() ==> info_proper(w, above, exclusions, #[trigger] infos[k])
                    && met.contains(info_ga(infos[k])) && (visited.contains(info_ga(infos[k]))
                    ==> !infos[k].recurse)
        }),
    decreases deps.len() - i,
{
    if i < deps.len() {
        let d = collect::overridden(deps[i], w.managed, above is Some);
        if !collect::takes_part(d, above) {
            lemma_selected(w, deps, i + 1, above, exclusions, visited);
        } else {
            lemma_chosen_version(d, w.metadata);
            match collect::chosen_version(d, w.metadata) {
                None => {},
                Some(None) => lemma_selected(w, deps, i + 1, above, exclusions, visited),
                Some(Some(v)) => if collect::any_excludes(
                    exclusions,
                    d.group_id,
                    d.artifact_id,
                ) {
                    lemma_selected(w, deps, i + 1, above, exclusions, visited);
                } else {
                    let ga = (d.group_id, d.artifact_id);
                    lemma_selected(w, deps, i + 1, above, exclusions, visited.insert(ga));
                    let (rest, met) = collect::selected(
                        deps,
                        i + 1,
                        above,
                        exclusions,
                        visited.insert(ga),
                        w.managed,
                        w.metadata,
                    )->0;
                    let first = collect::info_of(d, v, above, exclusions, visited);
                    let infos = seq![first] + rest;
                    assert(visited.insert(ga).contains(ga));
                    assert forall|k: int| 0 <= k < infos.len() implies info_proper(
                        w,
                        above,
                        exclusions,
                        #[trigger] infos[k],
                    ) && met.contains(info_ga(infos[k])) && (visited.contains(info_ga(infos[k]))
                        ==> !infos[k].recurse) by {
                        if k > 0 {
                            assert(infos[k] == rest[k - 1]);
                        }
                    }
                },
            }
        }
    }
}

proof fn lemma_level(w: WorldModel, opens: Seq<OpenModel>, k: int, visited: Set<Ga>)
    requires
        0 <= k <= opens.len(),
        collect::level_from(w, opens, k, visited) is Some,
    ensures
        ({
            let (groups, met) = collect::level_from(w, opens, k, visited)->0;
            &&& visited.subset_of(met)
            &&& groups.len() == opens.len() - k
            &&& forall|g: int|
                0 <= g < groups.len() && opens[k + g].dependencies.len() == 0 ==> (
                #[trigger] groups[g]).len() == 0
            &&& forall|g: int, j: int|
                0 <= g < groups.len() && 0 <= j < groups[g].len() ==> info_proper(
                    w,
                    opens[k + g].scope,
                    opens[k + g].exclusions,
                    #[trigger] groups[g][j],
                ) && met.contains(info_ga(groups[g][j])) && (visited.contains(
                    info_ga(groups[g][j]),
                ) ==> !groups[g][j].recurse)
        }),
    decreases opens.len() - k,
{
    if k < opens.len() {
        let (infos, met) = collect::infos_below(w, opens[k], visited)->0;
        lemma_selected(
            w,
            opens[k].dependencies,
            0,
            opens[k].scope,
            opens[k].exclusions,
            visited,
        );
        lemma_level(w, opens, k + 1, met);
        let (rest, last) = collect::level_from(w, opens, k + 1, met)->0;
        let groups = seq![infos] + rest;
        assert forall|g: int|
            0 <= g < groups.len() && opens[k + g].dependencies.len() == 0 implies (
        #[trigger] groups[g]).len() == 0 by {
            if g > 0 {
                assert(groups[g] == rest[g - 1]);
                assert(k + g == (k + 1) + (g - 1));
            }
        }
        assert forall|g: int, j: int|
            0 <= g < groups.len() && 0 <= j < groups[g].len() implies info_proper(
            w,
            opens[k + g].scope,
            opens[k + g].exclusions,
            #[trigger] groups[g][j],
        ) && last.contains(info_ga(groups[g][j])) && (visited.contains(info_ga(groups[g][j]))
            ==> !groups[g][j].recurse) by {
            if g > 0 {
                assert(groups[g][j] == rest[g - 1][j]);
                assert(k + g == (k + 1) + (g - 1));
            } else {
                assert(groups[g][j] == infos[j]);
            }
        }
    }
}

/// Where a group starts in its level.
pub open spec fn start_of<T>(groups: Seq<Seq<T>>, k: int) -> int
    decreases k,
{
    if k <= 0 {
        0
    } else {
        groups[0].len() + start_of(groups.skip(1), k - 1)
    }
}

/// The group that a place in a level belongs to.
pub open spec fn group_of<T>(groups: Seq<Seq<T>>, i: int) -> int
    decreases groups.len(),
{
    if groups.len() == 0 || i < groups[0].len() {
        0
    } else {
        1 + group_of(groups.skip(1), i - groups[0].len())
    }
}

/// Grouping keeps the lengths of the groups.
pub proof fn lemma_group_len(groups: Seq<Seq<InfoModel>>, nodes: Seq<NodeModel>, k: int)
    requires
        0 <= k < groups.len(),
        nodes.len() == collect::all_of(groups).len(),
    ensures
        collect::grouped(groups, nodes)[k].len() == groups[k].len(),
    decreases groups.len(),
{
    let n = groups[0].len() as int;
    let rest = collect::grouped(groups.skip(1), nodes.skip(n));
    if k > 0 {
        lemma_group_len(groups.skip(1), nodes.skip(n), k - 1);
        collect::lemma_grouped_len(groups.skip(1), nodes.skip(n));
        assert(collect::grouped(groups, nodes)[k] == rest[k - 1]);
        assert(groups.skip(1)[k - 1] == groups[k]);
    }
}

/// Where a node of a group stands in its level.
pub proof fn lemma_place(groups: Seq<Seq<InfoModel>>, nodes: Seq<NodeModel>, k: int, j: int)
    requires
        0 <= k < groups.len(),
        0 <= j < groups[k].len(),
        nodes.len() == collect::all_of(groups).len(),
    ensures
        0 <= start_of(groups, k),
        start_of(groups, k) + j < nodes.len(),
        collect::all_of(groups)[start_of(groups, k) + j] == groups[k][j],
        group_of(groups, start_of(groups, k) + j) == k,
        collect::grouped(groups, nodes)[k][j] == nodes[start_of(groups, k) + j],
    decreases groups.len(),
{
    let n = groups[0].len() as int;
    if k > 0 {
        assert(groups.skip(1)[k - 1] == groups[k]);
        lemma_place(groups.skip(1), nodes.skip(n), k - 1, j);
        collect::lemma_grouped_len(groups.skip(1), nodes.skip(n));
        assert(collect::grouped(groups, nodes)[k] == collect::grouped(
            groups.skip(1),
            nodes.skip(n),
        )[k - 1]);
    }
}

/// Every place of a level belongs to a group.
pub proof fn lemma_group<T>(groups: Seq<Seq<T>>, i: int) -> (j: int)
    requires
        0 <= i < collect::all_of(groups).len(),
    ensures
        0 <= group_of(groups, i) < groups.len(),
        0 <= j < groups[group_of(groups, i)].len(),
        groups[group_of(groups, i)][j] == collect::all_of(groups)[i],
    decreases groups.len(),
{
    if i < groups[0].len() {
        i
    } else {
        lemma_group(groups.skip(1), i - groups[0].len())
    }
}

/// Nothing stands below a node without dependencies.
pub proof fn lemma_closed(
    w: WorldModel,
    opens: Seq<OpenModel>,
    visited: Set<Ga>,
    depth: nat,
    k: int,
)
    requires
        collect::collected(w, opens, visited, depth) is Some,
        0 <= k < opens.len(),
        opens[k].dependencies.len() == 0,
    ensures
        collect::collected(w, opens, visited, depth)->0[k].len() == 0,
{
    if depth < collect::MAX_DEPTH {
        lemma_level(w, opens, 0, visited);
        let (groups, met) = collect::level_from(w, opens, 0, visited)->0;
        let all = collect::all_of(groups);
        let next = collect::opened_from(w, all, 0)->0;
        let below = collect::collected(w, next, met, depth + 1)->0;
        assert(opens[0 + k].dependencies.len() == 0 ==> groups[k].len() == 0);
        lemma_group_len(groups, collect::nodes_of(all, below), k);
    }
}

/// Every node that is collected is a proper one.
pub proof fn lemma_collected(
    w: WorldModel,
    opens: Seq<OpenModel>,
    visited: Set<Ga>,
    known: Seq<Set<Ga>>,
    depth: nat,
)
    requires
        depth <= collect::MAX_DEPTH,
        known.len() == opens.len(),
        forall|k: int| 0 <= k < known.len() ==> (#[trigger] known[k]).subset_of(visited),
        collect::collected(w, opens, visited, depth) is Some,
    ensures
        ({
            let below = collect::collected(w, opens, visited, depth)->0;
            &&& below.len() == opens.len()
            &&& forall|k: int, j: int|
                0 <= k < below.len() && 0 <= j < below[k].len() ==> proper(
                    w,
                    opens[k].scope,
                    opens[k].exclusions,
                    known[k],
                    #[trigger] below[k][j],
                ) && within(below[k][j], collect::MAX_DEPTH - depth)
        }),
    decreases collect::MAX_DEPTH - depth,
{
    collect::lemma_collected_len(w, opens, visited, depth);
    if depth < collect::MAX_DEPTH && opens.len() > 0 {
        lemma_level(w, opens, 0, visited);
        let (groups, met) = collect::level_from(w, opens, 0, visited)->0;
        let all = collect::all_of(groups);
        let next = collect::opened_from(w, all, 0)->0;
        collect::lemma_opened_len(w, all, 0);
        let known_next: Seq<Set<Ga>> = Seq::new(
            all.len(),
            |i: int| known[group_of(groups, i)].insert(info_ga(all[i])),
        );
        assert forall|i: int| 0 <= i < known_next.len() implies (
        #[trigger] known_next[i]).subset_of(met) by {
            let j = lemma_group(groups, i);
            let g = group_of(groups, i);
            assert(groups[g][j] == all[i]);
            assert(known[g].subset_of(visited));
        }
        lemma_collected(w, next, met, known_next, depth + 1);
        let below = collect::collected(w, next, met, depth + 1)->0;
        let nodes = collect::nodes_of(all, below);
        let result = collect::grouped(groups, nodes);
        assert forall|k: int, j: int|
            0 <= k < result.len() && 0 <= j < result[k].len() implies proper(
            w,
            opens[k].scope,
            opens[k].exclusions,
            known[k],
            #[trigger] result[k][j],
        ) && within(result[k][j], collect::MAX_DEPTH - depth) by {
            lemma_group_len(groups, nodes, k);
            lemma_place(groups, nodes, k, j);
            let i = start_of(groups, k) + j;
            let info = groups[k][j];
            assert(info_proper(w, opens[0 + k].scope, opens[0 + k].exclusions, info));
            assert(collect::open_of(w, all[0 + i]) == Some(next[i]));
            if !info.recurse {
                lemma_closed(w, next, met, depth + 1, i);
            }
            let n = result[k][j];
            assert(n == collect::node_of(info, below[i]));
            assert(resolver_laws::artifact_at(n) == info_ga(info));
            assert(known[k].contains(info_ga(info)) ==> visited.contains(info_ga(info)));
            assert(known_next[i] == known[k].insert(info_ga(info)));
            assert(forall|c: int|
                0 <= c < n.children.len() ==> #[trigger] n.children[c] == below[i][c]);
        }
    }
}

/// Every node of a tree is a proper one: the exclusions above it, the root's dependency
/// management and the scopes are kept, and an artifact is not expanded below itself, nor the root
/// anywhere.
pub proof fn tree_is_proper(
    root: CoordModel,
    pom: PomModel,
    env: EnvironmentModel,
    raw: KnownPoms,
    metadata: KnownMetadata,
    i: int,
)
    requires
        collect::tree_of(root, pom, env, raw, metadata) is Some,
        0 <= i < collect::tree_of(root, pom, env, raw, metadata)->0.len(),
    ensures
        proper(
            collect::world_of(pom, env, raw, metadata),
            None,
            Seq::empty(),
            set![(root.group_id, root.artifact_id)],
            collect::tree_of(root, pom, env, raw, metadata)->0[i],
        ),
{
    let w = collect::world_of(pom, env, raw, metadata);
    let visited = set![(root.group_id, root.artifact_id)];
    lemma_collected(w, seq![collect::root_of(pom)], visited, seq![visited], 0);
    let below = collect::collected(w, seq![collect::root_of(pom)], visited, 0)->0;
    assert(below[0][i] == collect::tree_of(root, pom, env, raw, metadata)->0[i]);
}

/// No branch of a tree is longer than the greatest depth.
pub proof fn tree_is_bounded(
    root: CoordModel,
    pom: PomModel,
    env: EnvironmentModel,
    raw: KnownPoms,
    metadata: KnownMetadata,
    i: int,
)
    requires
        collect::tree_of(root, pom, env, raw, metadata) is Some,
        0 <= i < collect::tree_of(root, pom, env, raw, metadata)->0.len(),
    ensures
        within(collect::tree_of(root, pom, env, raw, metadata)->0[i], collect::MAX_DEPTH as int),
{
    let w = collect::world_of(pom, env, raw, metadata);
    let visited = set![(root.group_id, root.artifact_id)];
    lemma_collected(w, seq![collect::root_of(pom)], visited, seq![visited], 0);
    let below = collect::collected(w, seq![collect::root_of(pom)], visited, 0)->0;
    assert(below[0][i] == collect::tree_of(root, pom, env, raw, metadata)->0[i]);
}

// ---------------------------------------------------------------------------
// Breadth first
// ---------------------------------------------------------------------------

/// The nodes right below those of a level, in order.
pub open spec fn next_level(level: Seq<NodeModel>) -> Seq<NodeModel> {
    collect::all_of(Seq::new(level.len(), |i: int| level[i].children))
}

/// The artifacts of a level.
pub open spec fn artifacts_of(level: Seq<NodeModel>) -> Set<Ga> {
    level.map_values(|n: NodeModel| resolver_laws::artifact_at(n)).to_set()
}

/// Whether something stands below a node only where its artifact was not met before: neither in
/// `seen`, nor further to the front in the same level, nor in a level above. This is said of
/// `levels` levels, the given one first.
pub open spec fn expanded_once(level: Seq<NodeModel>, seen: Set<Ga>, levels: nat) -> bool
    decreases levels,
{
    levels == 0 || {
        &&& forall|i: int|
            0 <= i < level.len() && (#[trigger] level[i]).children.len() > 0 ==> !seen.contains(
                resolver_laws::artifact_at(level[i]),
            )
        &&& forall|i: int, j: int|
            0 <= j < i < level.len() && (#[trigger] level[i]).children.len() > 0
                ==> resolver_laws::artifact_at(#[trigger] level[j]) != resolver_laws::artifact_at(level[i])
        &&& expanded_once(
            next_level(level),
            seen.union(artifacts_of(level)),
            (levels - 1) as nat,
        )
    }
}

/// The dependencies in order: the artifacts that they add, and which of them are met for the
/// first time.
pub open spec fn in_order(infos: Seq<InfoModel>, visited: Set<Ga>, met: Set<Ga>) -> bool {
    &&& forall|ga: Ga| #[trigger]
        met.contains(ga) <==> visited.contains(ga) || exists|k: int|
            0 <= k < infos.len() && info_ga(#[trigger] infos[k]) == ga
    &&& forall|k: int|
        0 <= k < infos.len() && (#[trigger] infos[k]).recurse ==> !visited.contains(
            info_ga(infos[k]),
        )
    &&& forall|k: int, j: int|
        0 <= j < k < infos.len() && (#[trigger] infos[k]).recurse ==> info_ga(#[trigger] infos[j])
            != info_ga(infos[k])
}

proof fn lemma_in_order(
    a: Seq<InfoModel>,
    b: Seq<InfoModel>,
    visited: Set<Ga>,
    middle: Set<Ga>,
    met: Set<Ga>,
)
    requires
        in_order(a, visited, middle),
        in_order(b, middle, met),
    ensures
        in_order(a + b, visited, met),
{
    let infos = a + b;
    assert forall|ga: Ga| #[trigger] met.contains(ga) <==> visited.contains(ga) || exists|k: int|
        0 <= k < infos.len() && info_ga(#[trigger] infos[k]) == ga by {
        assert(met.contains(ga) <==> middle.contains(ga) || exists|k: int|
            0 <= k < b.len() && info_ga(#[trigger] b[k]) == ga);
        assert(middle.contains(ga) <==> visited.contains(ga) || exists|k: int|
            0 <= k < a.len() && info_ga(#[trigger] a[k]) == ga);
        if exists|k: int| 0 <= k < b.len() && info_ga(#[trigger] b[k]) == ga {
            let k = choose|k: int| 0 <= k < b.len() && info_ga(#[trigger] b[k]) == ga;
            assert(infos[a.len() + k] == b[k]);
        }
        if exists|k: int| 0 <= k < a.len() && info_ga(#[trigger] a[k]) == ga {
            let k = choose|k: int| 0 <= k < a.len() && info_ga(#[trigger] a[k]) == ga;
            assert(infos[k] == a[k]);
        }
        if exists|k: int| 0 <= k < infos.len() && info_ga(#[trigger] infos[k]) == ga {
            let k = choose|k: int| 0 <= k < infos.len() && info_ga(#[trigger] infos[k]) == ga;
            if k < a.len() {
                assert(infos[k] == a[k]);
            } else {
                assert(infos[k] == b[k - a.len()]);
            }
        }
    }
    assert forall|k: int|
        0 <= k < infos.len() && (#[trigger] infos[k]).recurse implies !visited.contains(
        info_ga(infos[k]),
    ) by {
        if k < a.len() {
            assert(infos[k] == a[k]);
        } else {
            assert(infos[k] == b[k - a.len()]);
            assert(!middle.contains(info_ga(b[k - a.len()])));
        }
    }
    assert forall|k: int, j: int|
        0 <= j < k < infos.len() && (#[trigger] infos[k]).recurse implies info_ga(
        #[trigger] infos[j],
    ) != info_ga(infos[k]) by {
        if k < a.len() {
            assert(infos[k] == a[k] && infos[j] == a[j]);
        } else {
            assert(infos[k] == b[k - a.len()]);
            assert(!middle.contains(info_ga(b[k - a.len()])));
            if j < a.len() {
                assert(infos[j] == a[j]);
                assert(middle.contains(info_ga(a[j])));
            } else {
                assert(infos[j] == b[j - a.len()]);
            }
        }
    }
}

/// The dependencies that are selected stand in order.
pub proof fn lemma_selected_in_order(
    w: WorldModel,
    deps: Seq<DependencyModel>,
    i: int,
    above: Option<DependencyScope>,
    exclusions: Seq<ExclusionModel>,
    visited: Set<Ga>,
)
    requires
        0 <= i,
        collect::selected(deps, i, above, exclusions, visited, w.managed, w.metadata) is Some,
    ensures
        ({
            let (infos, met) = collect::selected(
                deps,
                i,
                above,
                exclusions,
                visited,
                w.managed,
                w.metadata,
            )->0;
            in_order(infos, visited, met)
        }),
    decreases deps.len() - i,
{
    if i < deps.len() {
        let d = collect::overridden(deps[i], w.managed, above is Some);
        if !collect::takes_part(d, above) {
            lemma_selected_in_order(w, deps, i + 1, above, exclusions, visited);
        } else {
            match collect::chosen_version(d, w.metadata) {
                None => {},
                Some(None) => lemma_selected_in_order(w, deps, i + 1, above, exclusions, visited),
                Some(Some(v)) => if collect::any_excludes(
                    exclusions,
                    d.group_id,
                    d.artifact_id,
                ) {
                    lemma_selected_in_order(w, deps, i + 1, above, exclusions, visited);
                } else {
                    let ga = (d.group_id, d.artifact_id);
                    let middle = visited.insert(ga);
                    lemma_selected_in_order(w, deps, i + 1, above, exclusions, middle);
                    let (rest, met) = collect::selected(
                        deps,
                        i + 1,
                        above,
                        exclusions,
                        middle,
                        w.managed,
                        w.metadata,
                    )->0;
                    let first = seq![collect::info_of(d, v, above, exclusions, visited)];
                    assert(info_ga(first[0]) == ga);
                    assert(in_order(first, visited, middle));
                    lemma_in_order(first, rest, visited, middle, met);
                },
            }
        }
    }
}

/// The dependencies of a level stand in order.
pub proof fn lemma_level_in_order(w: WorldModel, opens: Seq<OpenModel>, k: int, visited: Set<Ga>)
    requires
        0 <= k,
        collect::level_from(w, opens, k, visited) is Some,
    ensures
        ({
            let (groups, met) = collect::level_from(w, opens, k, visited)->0;
            in_order(collect::all_of(groups), visited, met)
        }),
    decreases opens.len() - k,
{
    if k < opens.len() {
        let (infos, middle) = collect::infos_below(w, opens[k], visited)->0;
        lemma_selected_in_order(
            w,
            opens[k].dependencies,
            0,
            opens[k].scope,
            opens[k].exclusions,
            visited,
        );
        lemma_level_in_order(w, opens, k + 1, middle);
        let (rest, met) = collect::level_from(w, opens, k + 1, middle)->0;
        let groups = seq![infos] + rest;
        assert(groups.skip(1) =~= rest);
        assert(groups[0] == infos);
        lemma_in_order(infos, collect::all_of(rest), visited, middle, met);
    }
}

/// The groups of a level one after the other are the level.
pub proof fn lemma_ungrouped(groups: Seq<Seq<InfoModel>>, nodes: Seq<NodeModel>)
    requires
        nodes.len() == collect::all_of(groups).len(),
    ensures
        collect::all_of(collect::grouped(groups, nodes)) == nodes,
    decreases groups.len(),
{
    if groups.len() > 0 {
        let n = groups[0].len() as int;
        let rest = collect::grouped(groups.skip(1), nodes.skip(n));
        lemma_ungrouped(groups.skip(1), nodes.skip(n));
        let all = seq![nodes.take(n)] + rest;
        assert(all.skip(1) =~= rest);
        assert(all[0] == nodes.take(n));
        assert(nodes.take(n) + nodes.skip(n) =~= nodes);
    }
}

proof fn lemma_expanded(w: WorldModel, opens: Seq<OpenModel>, visited: Set<Ga>, depth: nat)
    requires
        depth <= collect::MAX_DEPTH,
        collect::collected(w, opens, visited, depth) is Some,
    ensures
        expanded_once(
            collect::all_of(collect::collected(w, opens, visited, depth)->0),
            visited,
            (collect::MAX_DEPTH - depth) as nat,
        ),
    decreases collect::MAX_DEPTH - depth,
{
    if depth < collect::MAX_DEPTH {
        if opens.len() == 0 {
            lemma_nothing_expanded(visited, (collect::MAX_DEPTH - depth) as nat);
            assert(collect::collected(w, opens, visited, depth)->0 =~= Seq::empty());
        } else {
            lemma_level_in_order(w, opens, 0, visited);
            let (groups, met) = collect::level_from(w, opens, 0, visited)->0;
            let all = collect::all_of(groups);
            let next = collect::opened_from(w, all, 0)->0;
            collect::lemma_opened_len(w, all, 0);
            lemma_expanded(w, next, met, depth + 1);
            collect::lemma_collected_len(w, next, met, depth + 1);
            let below = collect::collected(w, next, met, depth + 1)->0;
            let level = collect::nodes_of(all, below);
            lemma_ungrouped(groups, level);
            assert(Seq::new(level.len(), |i: int| level[i].children) =~= below);
            let gas = level.map_values(|n: NodeModel| resolver_laws::artifact_at(n));
            assert forall|ga: Ga| #[trigger] met.contains(ga) <==> visited.union(
                artifacts_of(level),
            ).contains(ga) by {
                if exists|k: int| 0 <= k < all.len() && info_ga(#[trigger] all[k]) == ga {
                    let k = choose|k: int| 0 <= k < all.len() && info_ga(#[trigger] all[k]) == ga;
                    assert(gas[k] == ga);
                    assert(gas.contains(ga));
                }
                if gas.contains(ga) {
                    let k = choose|k: int| 0 <= k < gas.len() && gas[k] == ga;
                    assert(info_ga(all[k]) == ga);
                }
            }
            assert(met =~= visited.union(artifacts_of(level)));
            assert forall|i: int|
                0 <= i < level.len() && (#[trigger] level[i]).children.len()
                    > 0 implies all[i].recurse by {
                assert(collect::open_of(w, all[0 + i]) == Some(next[i]));
                if !all[i].recurse {
                    lemma_closed(w, next, met, depth + 1, i);
                }
            }
            assert forall|i: int, j: int|
                0 <= j < i < level.len() && (#[trigger] level[i]).children.len()
                    > 0 implies resolver_laws::artifact_at(#[trigger] level[j]) != resolver_laws::artifact_at(level[i]) by {
                assert(all[i].recurse);
                assert(info_ga(all[j]) != info_ga(all[i]));
            }
        }
    }
}

proof fn lemma_nothing_expanded(seen: Set<Ga>, levels: nat)
    ensures
        expanded_once(Seq::empty(), seen, levels),
    decreases levels,
{
    if levels > 0 {
        let none = Seq::<NodeModel>::empty();
        assert(next_level(none) =~= none);
        lemma_nothing_expanded(seen.union(artifacts_of(none)), (levels - 1) as nat);
    }
}

/// An artifact is expanded where it is nearest to the root, and only there: something stands
/// below a node only where its artifact occurs in no level above and not further to the front in
/// its own.
pub proof fn nearest_occurrence_is_expanded(
    root: CoordModel,
    pom: PomModel,
    env: EnvironmentModel,
    raw: KnownPoms,
    metadata: KnownMetadata,
)
    requires
        collect::tree_of(root, pom, env, raw, metadata) is Some,
    ensures
        expanded_once(
            collect::tree_of(root, pom, env, raw, metadata)->0,
            set![(root.group_id, root.artifact_id)],
            collect::MAX_DEPTH as nat,
        ),
{
    let w = collect::world_of(pom, env, raw, metadata);
    let visited = set![(root.group_id, root.artifact_id)];
    let opens = seq![collect::root_of(pom)];
    lemma_expanded(w, opens, visited, 0);
    collect::lemma_collected_len(w, opens, visited, 0);
    let below = collect::collected(w, opens, visited, 0)->0;
    assert(below.skip(1) =~= Seq::empty());
    assert(collect::all_of(below.skip(1)) =~= Seq::empty());
    assert(collect::all_of(below) =~= below[0]);
}

// ---------------------------------------------------------------------------
// From the tree to the list
// ---------------------------------------------------------------------------

/// Whether an artifact occurs among nodes or anywhere below them.
pub open spec fn occurs(ns: Seq<NodeModel>, ga: Ga) -> bool
    decreases ns,
{
    exists|i: int|
        0 <= i < ns.len() && (resolver_laws::artifact_at(#[trigger] ns[i]) == ga || occurs(
            ns[i].children,
            ga,
        ))
}

/// Whether an artifact is among the resolved dependencies.
pub open spec fn is_resolved(l: Seq<ResolvedModel>, ga: Ga) -> bool {
    exists|k: int|
        0 <= k < l.len() && ((#[trigger] l[k]).coord.group_id, l[k].coord.artifact_id) == ga
}

spec fn nodes_in(q: Seq<Reached>) -> Seq<NodeModel> {
    Seq::new(q.len(), |i: int| q[i].0)
}

/// What the nodes of a queue reach, in order.
spec fn reached_below(q: Seq<Reached>) -> Seq<Reached> {
    collect::all_of(Seq::new(q.len(), |i: int| resolver::reached_from(q[i].0.children, q[i].1, 0)))
}

/// Whether something stands below a node of a queue only where its artifact is met first.
spec fn met_first(q: Seq<Reached>, seen: Set<Ga>) -> bool {
    &&& forall|i: int|
        0 <= i < q.len() && (#[trigger] q[i]).0.children.len() > 0 ==> !seen.contains(
            resolver_laws::artifact_at(q[i].0),
        )
    &&& forall|i: int, j: int|
        0 <= j < i < q.len() && (#[trigger] q[i]).0.children.len() > 0 ==> resolver_laws::artifact_at(
            (#[trigger] q[j]).0,
        ) != resolver_laws::artifact_at(q[i].0)
}

/// Whether the scope of a node is passed on to all that stands below it.
spec fn passes_on(n: NodeModel, scope: DependencyScope) -> bool
    decreases n,
{
    forall|i: int|
        0 <= i < n.children.len() ==> resolver::propagated(
            scope,
            (#[trigger] n.children[i]).scope,
        ) is Some && passes_on(
            n.children[i],
            resolver::propagated(scope, n.children[i].scope)->0,
        )
}

proof fn lemma_passes_on(
    w: WorldModel,
    above: Option<DependencyScope>,
    exclusions: Seq<ExclusionModel>,
    visited: Set<Ga>,
    n: NodeModel,
)
    requires
        proper(w, above, exclusions, visited, n),
    ensures
        passes_on(n, collect::reached_scope(above, n.scope)->0),
    decreases n,
{
    let scope = collect::reached_scope(above, n.scope);
    assert forall|i: int| 0 <= i < n.children.len() implies resolver::propagated(
        scope->0,
        (#[trigger] n.children[i]).scope,
    ) is Some && passes_on(
        n.children[i],
        resolver::propagated(scope->0, n.children[i].scope)->0,
    ) by {
        let c = n.children[i];
        assert(proper(
            w,
            scope,
            exclusions + n.exclusions,
            visited.insert(resolver_laws::artifact_at(n)),
            c,
        ));
        assert(scope is Some && collect::reached_scope(scope, c.scope) is Some);
        lemma_passes_on(
            w,
            scope,
            exclusions + n.exclusions,
            visited.insert(resolver_laws::artifact_at(n)),
            c,
        );
    }
}

proof fn lemma_artifacts(q: Seq<Reached>, ga: Ga)
    ensures
        artifacts_of(nodes_in(q)).contains(ga) <==> exists|i: int|
            0 <= i < q.len() && resolver_laws::artifact_at((#[trigger] q[i]).0) == ga,
{
    let gas = nodes_in(q).map_values(|n: NodeModel| resolver_laws::artifact_at(n));
    if exists|i: int| 0 <= i < q.len() && resolver_laws::artifact_at((#[trigger] q[i]).0) == ga {
        let i = choose|i: int| 0 <= i < q.len() && resolver_laws::artifact_at((#[trigger] q[i]).0) == ga;
        assert(gas[i] == ga);
    }
    if gas.contains(ga) {
        let i = choose|i: int| 0 <= i < gas.len() && gas[i] == ga;
        assert(resolver_laws::artifact_at(q[i].0) == ga);
    }
}

proof fn lemma_reached_skip(q: Seq<Reached>)
    requires
        q.len() > 0,
    ensures
        reached_below(q) == resolver::reached_from(q[0].0.children, q[0].1, 0) + reached_below(
            q.skip(1),
        ),
{
    let all = Seq::new(
        q.len(),
        |i: int| resolver::reached_from(q[i].0.children, q[i].1, 0),
    );
    let rest = q.skip(1);
    assert(all.skip(1) =~= Seq::new(
        rest.len(),
        |i: int| resolver::reached_from(rest[i].0.children, rest[i].1, 0),
    ));
}

/// A level of a queue: its artifacts are resolved, and then what it reaches is.
proof fn lemma_level_resolved(q: Seq<Reached>, more: Seq<Reached>, seen: Set<Ga>)
    requires
        met_first(q, seen),
    ensures
        forall|ga: Ga|
            is_resolved(
                resolver::flattened(
                    more + reached_below(q),
                    seen.union(artifacts_of(nodes_in(q))),
                    None,
                ),
                ga,
            ) ==> #[trigger] is_resolved(resolver::flattened(q + more, seen, None), ga),
        forall|ga: Ga|
            artifacts_of(nodes_in(q)).contains(ga) && !seen.contains(ga)
                ==> #[trigger] is_resolved(resolver::flattened(q + more, seen, None), ga),
    decreases q.len(),
{
    let f = resolver::flattened(q + more, seen, None);
    let after = seen.union(artifacts_of(nodes_in(q)));
    let g = resolver::flattened(more + reached_below(q), after, None);
    if q.len() == 0 {
        assert(q + more =~= more);
        assert(more + reached_below(q) =~= more);
        assert(after =~= seen) by {
            assert forall|ga: Ga| #[trigger] after.contains(ga) == seen.contains(ga) by {
                lemma_artifacts(q, ga);
            }
        }
        assert forall|ga: Ga|
            artifacts_of(nodes_in(q)).contains(ga) && !seen.contains(ga) implies #[trigger]
            is_resolved(f, ga) by {
            lemma_artifacts(q, ga);
        }
    } else {
        let (n, scope) = q[0];
        let ga0 = resolver_laws::artifact_at(n);
        let rest = q.skip(1);
        let ch = resolver::reached_from(n.children, scope, 0);
        lemma_reached_skip(q);
        assert((q + more).skip(1) =~= rest + more);
        assert((q + more)[0] == q[0]);
        assert(forall|i: int| 0 <= i < rest.len() ==> #[trigger] rest[i] == q[i + 1]);
        assert forall|ga: Ga|
            #![trigger artifacts_of(nodes_in(q)).contains(ga)]
            artifacts_of(nodes_in(q)).contains(ga) <==> ga == ga0 || artifacts_of(
                nodes_in(rest),
            ).contains(ga) by {
            lemma_artifacts(q, ga);
            lemma_artifacts(rest, ga);
            if exists|i: int| 0 <= i < q.len() && resolver_laws::artifact_at((#[trigger] q[i]).0) == ga {
                let i = choose|i: int|
                    0 <= i < q.len() && resolver_laws::artifact_at((#[trigger] q[i]).0) == ga;
                if i > 0 {
                    assert(rest[i - 1] == q[i]);
                }
            }
        }
        if seen.contains(ga0) {
            assert(n.children.len() == 0);
            assert(ch =~= Seq::empty());
            assert(ch + reached_below(rest) =~= reached_below(rest));
            assert(met_first(rest, seen)) by {
                assert forall|i: int, j: int|
                    0 <= j < i < rest.len() && (#[trigger] rest[i]).0.children.len() > 0 implies
                    resolver_laws::artifact_at((#[trigger] rest[j]).0) != resolver_laws::artifact_at(rest[i].0) by {
                    assert(q[i + 1] == rest[i] && q[j + 1] == rest[j]);
                }
            }
            lemma_level_resolved(rest, more, seen);
            assert(after =~= seen.union(artifacts_of(nodes_in(rest))));
            assert(f == resolver::flattened(rest + more, seen, None));
        } else {
            let seen1 = seen.insert(ga0);
            assert(met_first(rest, seen1)) by {
                assert forall|i: int|
                    0 <= i < rest.len() && (#[trigger] rest[i]).0.children.len()
                        > 0 implies !seen1.contains(resolver_laws::artifact_at(rest[i].0)) by {
                    assert(q[i + 1] == rest[i]);
                    assert(resolver_laws::artifact_at(q[0].0) != resolver_laws::artifact_at(q[i + 1].0));
                }
                assert forall|i: int, j: int|
                    0 <= j < i < rest.len() && (#[trigger] rest[i]).0.children.len() > 0 implies
                    resolver_laws::artifact_at((#[trigger] rest[j]).0) != resolver_laws::artifact_at(rest[i].0) by {
                    assert(q[i + 1] == rest[i] && q[j + 1] == rest[j]);
                }
            }
            lemma_level_resolved(rest, more + ch, seen1);
            let tail = resolver::flattened(rest + (more + ch), seen1, None);
            assert((rest + more) + ch =~= rest + (more + ch));
            assert((more + ch) + reached_below(rest) =~= more + reached_below(q));
            assert(after =~= seen1.union(artifacts_of(nodes_in(rest))));
            let entry = ResolvedModel { coord: n.coord, scope, path: None };
            assert(f == seq![entry] + tail);
            assert(f[0] == entry);
            assert forall|ga: Ga| #[trigger] is_resolved(tail, ga) implies is_resolved(f, ga) by {
                let k = choose|k: int|
                    0 <= k < tail.len() && (
                    (#[trigger] tail[k]).coord.group_id,
                    tail[k].coord.artifact_id,
                ) == ga;
                assert(f[k + 1] == tail[k]);
            }
            assert forall|ga: Ga| is_resolved(g, ga) implies #[trigger] is_resolved(f, ga) by {
                assert(is_resolved(tail, ga));
            }
            assert forall|ga: Ga|
                artifacts_of(nodes_in(q)).contains(ga) && !seen.contains(ga) implies #[trigger]
                is_resolved(f, ga) by {
                if ga != ga0 {
                    assert(is_resolved(tail, ga));
                }
            }
        }
    }
}

proof fn lemma_reached_all(n: NodeModel, scope: DependencyScope, i: int)
    requires
        passes_on(n, scope),
        0 <= i <= n.children.len(),
    ensures
        nodes_in(resolver::reached_from(n.children, scope, i)) == n.children.skip(i),
        forall|k: int|
            0 <= k < resolver::reached_from(n.children, scope, i).len() ==> passes_on(
                (#[trigger] resolver::reached_from(n.children, scope, i)[k]).0,
                resolver::reached_from(n.children, scope, i)[k].1,
            ),
    decreases n.children.len() - i,
{
    let all = resolver::reached_from(n.children, scope, i);
    if i < n.children.len() {
        let c = n.children[i];
        lemma_reached_all(n, scope, i + 1);
        let rest = resolver::reached_from(n.children, scope, i + 1);
        let s = resolver::propagated(scope, c.scope)->0;
        assert(all == seq![(c, s)] + rest);
        assert(forall|k: int| 0 < k < all.len() ==> #[trigger] all[k] == rest[k - 1]);
        let below = n.children.skip(i + 1);
        assert(nodes_in(rest).len() == below.len());
        assert forall|k: int| 0 <= k < all.len() implies #[trigger] nodes_in(all)[k]
            == n.children.skip(i)[k] by {
            if k > 0 {
                assert(nodes_in(rest)[k - 1] == below[k - 1]);
                assert(all[k] == rest[k - 1]);
            } else {
                assert(all[0] == (c, s));
            }
        }
        assert(nodes_in(all) =~= n.children.skip(i));
    } else {
        assert(nodes_in(all) =~= n.children.skip(i));
    }
}

/// What a level reaches is the next level.
proof fn lemma_reached_level(q: Seq<Reached>, levels: int)
    requires
        forall|i: int| 0 <= i < q.len() ==> passes_on((#[trigger] q[i]).0, q[i].1),
        forall|i: int| 0 <= i < q.len() ==> within((#[trigger] q[i]).0, levels),
    ensures
        nodes_in(reached_below(q)) == next_level(nodes_in(q)),
        forall|i: int|
            0 <= i < reached_below(q).len() ==> passes_on(
                (#[trigger] reached_below(q)[i]).0,
                reached_below(q)[i].1,
            ) && within(reached_below(q)[i].0, levels - 1),
    decreases q.len(),
{
    let ns = nodes_in(q);
    let lists = Seq::new(ns.len(), |i: int| ns[i].children);
    if q.len() == 0 {
        assert(nodes_in(reached_below(q)) =~= next_level(ns));
    } else {
        let rest = q.skip(1);
        assert(forall|i: int| 0 <= i < rest.len() ==> #[trigger] rest[i] == q[i + 1]);
        lemma_reached_level(rest, levels);
        lemma_reached_skip(q);
        let (n, scope) = q[0];
        lemma_reached_all(n, scope, 0);
        assert(n.children.skip(0) =~= n.children);
        let ch = resolver::reached_from(n.children, scope, 0);
        let tail = reached_below(rest);
        assert(lists[0] == n.children);
        let others = nodes_in(rest);
        assert(lists.skip(1) =~= Seq::new(others.len(), |i: int| others[i].children));
        assert(nodes_in(ch + tail) =~= nodes_in(ch) + nodes_in(tail));
        assert(within(q[0].0, levels));
        assert forall|i: int| 0 <= i < (ch + tail).len() implies passes_on(
            (#[trigger] (ch + tail)[i]).0,
            (ch + tail)[i].1,
        ) && within((ch + tail)[i].0, levels - 1) by {
            if i < ch.len() {
                assert((ch + tail)[i] == ch[i]);
                assert(nodes_in(ch)[i] == n.children[i]);
            } else {
                assert((ch + tail)[i] == tail[i - ch.len()]);
            }
        }
    }
}

proof fn lemma_occurs_below(ns: Seq<NodeModel>, ga: Ga)
    requires
        occurs(ns, ga),
    ensures
        (exists|i: int| 0 <= i < ns.len() && resolver_laws::artifact_at(#[trigger] ns[i]) == ga) || occurs(
            next_level(ns),
            ga,
        ),
{
    let i = choose|i: int|
        0 <= i < ns.len() && (resolver_laws::artifact_at(#[trigger] ns[i]) == ga || occurs(
            ns[i].children,
            ga,
        ));
    if resolver_laws::artifact_at(ns[i]) != ga {
        let lists = Seq::new(ns.len(), |i: int| ns[i].children);
        let c = choose|c: int|
            0 <= c < ns[i].children.len() && (resolver_laws::artifact_at(#[trigger] ns[i].children[c]) == ga
                || occurs(ns[i].children[c].children, ga));
        let at = lemma_in_all(lists, i, c);
        assert(next_level(ns)[at] == ns[i].children[c]);
    }
}

proof fn lemma_in_all<T>(groups: Seq<Seq<T>>, k: int, j: int) -> (at: int)
    requires
        0 <= k < groups.len(),
        0 <= j < groups[k].len(),
    ensures
        0 <= at < collect::all_of(groups).len(),
        collect::all_of(groups)[at] == groups[k][j],
    decreases groups.len(),
{
    if k == 0 {
        j
    } else {
        assert(groups.skip(1)[k - 1] == groups[k]);
        let at = lemma_in_all(groups.skip(1), k - 1, j);
        groups[0].len() + at
    }
}

proof fn lemma_levels_resolved(
    q: Seq<Reached>,
    seen: Set<Ga>,
    met: Set<Ga>,
    levels: nat,
    ga: Ga,
)
    requires
        expanded_once(nodes_in(q), met, levels),
        seen.subset_of(met),
        forall|i: int| 0 <= i < q.len() ==> passes_on((#[trigger] q[i]).0, q[i].1),
        forall|i: int| 0 <= i < q.len() ==> within((#[trigger] q[i]).0, levels as int),
        occurs(nodes_in(q), ga),
    ensures
        seen.contains(ga) || is_resolved(resolver::flattened(q, seen, None), ga),
    decreases levels,
{
    let ns = nodes_in(q);
    if levels == 0 {
        let i = choose|i: int|
            0 <= i < ns.len() && (resolver_laws::artifact_at(#[trigger] ns[i]) == ga || occurs(
                ns[i].children,
                ga,
            ));
        assert(within(q[i].0, 0));
    } else {
        assert(met_first(q, seen)) by {
            assert forall|i: int|
                0 <= i < q.len() && (#[trigger] q[i]).0.children.len() > 0 implies !seen.contains(
                resolver_laws::artifact_at(q[i].0),
            ) by {
                assert(ns[i] == q[i].0);
            }
            assert forall|i: int, j: int|
                0 <= j < i < q.len() && (#[trigger] q[i]).0.children.len() > 0 implies
                resolver_laws::artifact_at((#[trigger] q[j]).0) != resolver_laws::artifact_at(q[i].0) by {
                assert(ns[i] == q[i].0 && ns[j] == q[j].0);
            }
        }
        let none = Seq::<Reached>::empty();
        lemma_level_resolved(q, none, seen);
        assert(q + none =~= q);
        let next = reached_below(q);
        assert(none + next =~= next);
        lemma_reached_level(q, levels as int);
        lemma_occurs_below(ns, ga);
        let gas = artifacts_of(ns);
        if exists|i: int| 0 <= i < ns.len() && resolver_laws::artifact_at(#[trigger] ns[i]) == ga {
            let i = choose|i: int| 0 <= i < ns.len() && resolver_laws::artifact_at(#[trigger] ns[i]) == ga;
            assert(q[i].0 == ns[i]);
            lemma_artifacts(q, ga);
        } else {
            lemma_levels_resolved(
                next,
                seen.union(gas),
                met.union(gas),
                (levels - 1) as nat,
                ga,
            );
        }
    }
}

/// No artifact of a tree is lost: without a filter, each one that occurs in the tree is among the
/// resolved dependencies.
pub proof fn no_artifact_is_lost(
    root: CoordModel,
    pom: PomModel,
    env: EnvironmentModel,
    raw: KnownPoms,
    metadata: KnownMetadata,
    ga: Ga,
)
    requires
        collect::tree_of(root, pom, env, raw, metadata) is Some,
        occurs(collect::tree_of(root, pom, env, raw, metadata)->0, ga),
    ensures
        is_resolved(resolver::flat(collect::tree_of(root, pom, env, raw, metadata)->0, None), ga),
{
    let tree = collect::tree_of(root, pom, env, raw, metadata)->0;
    let w = collect::world_of(pom, env, raw, metadata);
    let met = set![(root.group_id, root.artifact_id)];
    let q = resolver::roots(tree);
    assert(nodes_in(q) =~= tree);
    nearest_occurrence_is_expanded(root, pom, env, raw, metadata);
    assert forall|i: int| 0 <= i < q.len() implies passes_on((#[trigger] q[i]).0, q[i].1)
        && within(q[i].0, collect::MAX_DEPTH as int) by {
        tree_is_proper(root, pom, env, raw, metadata, i);
        tree_is_bounded(root, pom, env, raw, metadata, i);
        lemma_passes_on(w, None, Seq::empty(), met, tree[i]);
    }
    lemma_levels_resolved(q, Set::empty(), met, collect::MAX_DEPTH as nat, ga);
}

// ---------------------------------------------------------------------------
// More knowledge
// ---------------------------------------------------------------------------

proof fn lemma_followed_stays(
    env: EnvironmentModel,
    raw: KnownPoms,
    more: KnownPoms,
    pom: PomModel,
    at: CoordModel,
    seen: Seq<Seq<char>>,
)
    requires
        effective_laws::keeps(raw, more),
        collect::followed(env, raw, pom, at, seen) is Some,
    ensures
        collect::followed(env, more, pom, at, seen) == collect::followed(env, raw, pom, at, seen),
    decreases known::count_keys(raw, effective::outside(seen), 0),
{
    if let Some(next) = collect::relocation_of(pom, at) {
        let key = effective::coord_key(next);
        if !seen.contains(key) {
            effective::lemma_longer_chain(raw, seen, key);
            collect::lemma_own_model(next, env, raw);
            let r = collect::own_request(next);
            effective_laws::complete_model_stays(key, r.depth, r.chain, env, raw, more);
            if let Some(Fetched::Found(p)) = collect::own_model(next, env, raw) {
                lemma_followed_stays(env, raw, more, p, next, seen.push(key));
            }
        }
    }
}

proof fn lemma_selected_stays(
    deps: Seq<DependencyModel>,
    i: int,
    above: Option<DependencyScope>,
    exclusions: Seq<ExclusionModel>,
    visited: Set<Ga>,
    managed: Seq<DependencyModel>,
    metadata: KnownMetadata,
    more: KnownMetadata,
)
    requires
        effective_laws::keeps(metadata, more),
        0 <= i,
        collect::selected(deps, i, above, exclusions, visited, managed, metadata) is Some,
    ensures
        collect::selected(deps, i, above, exclusions, visited, managed, more) == collect::selected(
            deps,
            i,
            above,
            exclusions,
            visited,
            managed,
            metadata,
        ),
    decreases deps.len() - i,
{
    if i < deps.len() {
        let d = collect::overridden(deps[i], managed, above is Some);
        if !collect::takes_part(d, above) {
            lemma_selected_stays(deps, i + 1, above, exclusions, visited, managed, metadata, more);
        } else {
            let key = collect::ga_key(d.group_id, d.artifact_id);
            assert(known::outcome(metadata, key) is Some ==> known::outcome(more, key)
                == known::outcome(metadata, key));
            match collect::chosen_version(d, metadata) {
                None => {},
                Some(None) => lemma_selected_stays(
                    deps,
                    i + 1,
                    above,
                    exclusions,
                    visited,
                    managed,
                    metadata,
                    more,
                ),
                Some(Some(v)) => if collect::any_excludes(
                    exclusions,
                    d.group_id,
                    d.artifact_id,
                ) {
                    lemma_selected_stays(
                        deps,
                        i + 1,
                        above,
                        exclusions,
                        visited,
                        managed,
                        metadata,
                        more,
                    );
                } else {
                    lemma_selected_stays(
                        deps,
                        i + 1,
                        above,
                        exclusions,
                        visited.insert((d.group_id, d.artifact_id)),
                        managed,
                        metadata,
                        more,
                    );
                },
            }
        }
    }
}

proof fn lemma_level_stays(
    w: WorldModel,
    more: WorldModel,
    opens: Seq<OpenModel>,
    k: int,
    visited: Set<Ga>,
)
    requires
        effective_laws::keeps(w.metadata, more.metadata),
        w.managed == more.managed,
        0 <= k,
        collect::level_from(w, opens, k, visited) is Some,
    ensures
        collect::level_from(more, opens, k, visited) == collect::level_from(w, opens, k, visited),
    decreases opens.len() - k,
{
    if k < opens.len() {
        let open = opens[k];
        lemma_selected_stays(
            open.dependencies,
            0,
            open.scope,
            open.exclusions,
            visited,
            w.managed,
            w.metadata,
            more.metadata,
        );
        let (infos, met) = collect::infos_below(w, open, visited)->0;
        lemma_level_stays(w, more, opens, k + 1, met);
    }
}

proof fn lemma_opened_stay(w: WorldModel, more: WorldModel, infos: Seq<InfoModel>, i: int)
    requires
        effective_laws::keeps(w.raw, more.raw),
        w.env == more.env,
        0 <= i,
        collect::opened_from(w, infos, i) is Some,
    ensures
        collect::opened_from(more, infos, i) == collect::opened_from(w, infos, i),
    decreases infos.len() - i,
{
    if i < infos.len() {
        let info = infos[i];
        let key = effective::coord_key(info.coord);
        if info.recurse {
            effective_laws::complete_model_stays(key, 0, seq![key], w.env, w.raw, more.raw);
            if let Some(Fetched::Found(p)) = collect::own_model(info.coord, w.env, w.raw) {
                lemma_followed_stays(w.env, w.raw, more.raw, p, info.coord, seq![key]);
            }
        }
        lemma_opened_stay(w, more, infos, i + 1);
    }
}

proof fn lemma_collected_stays(
    w: WorldModel,
    more: WorldModel,
    opens: Seq<OpenModel>,
    visited: Set<Ga>,
    depth: nat,
)
    requires
        effective_laws::keeps(w.raw, more.raw),
        w.env == more.env,
        effective_laws::keeps(w.metadata, more.metadata),
        w.managed == more.managed,
        collect::collected(w, opens, visited, depth) is Some,
    ensures
        collect::collected(more, opens, visited, depth) == collect::collected(
            w,
            opens,
            visited,
            depth,
        ),
    decreases collect::MAX_DEPTH - depth,
{
    if depth < collect::MAX_DEPTH && opens.len() > 0 {
        lemma_level_stays(w, more, opens, 0, visited);
        let (groups, met) = collect::level_from(w, opens, 0, visited)->0;
        lemma_opened_stay(w, more, collect::all_of(groups), 0);
        let next = collect::opened_from(w, collect::all_of(groups), 0)->0;
        lemma_collected_stays(w, more, next, met, depth + 1);
    }
}

/// A dependency tree that is complete stays the same however many more documents are fetched.
pub proof fn complete_tree_stays(
    root: CoordModel,
    env: EnvironmentModel,
    raw: KnownPoms,
    metadata: KnownMetadata,
    more_raw: KnownPoms,
    more_metadata: KnownMetadata,
)
    requires
        collect::resolution(root, env, raw, metadata) is Some,
        effective_laws::keeps(raw, more_raw),
        effective_laws::keeps(metadata, more_metadata),
    ensures
        collect::resolution(root, env, more_raw, more_metadata) == collect::resolution(
            root,
            env,
            raw,
            metadata,
        ),
{
    let r = collect::own_request(root);
    let key = effective::coord_key(root);
    effective_laws::complete_model_stays(key, r.depth, r.chain, env, raw, more_raw);
    if let Some(Fetched::Found(pom)) = collect::own_model(root, env, raw) {
        lemma_collected_stays(
            collect::world_of(pom, env, raw, metadata),
            collect::world_of(pom, env, more_raw, more_metadata),
            seq![collect::root_of(pom)],
            set![(root.group_id, root.artifact_id)],
            0,
        );
    }
}

// ---------------------------------------------------------------------------
// When a tree is owed
// ---------------------------------------------------------------------------

/// Whether the metadata of none of the artifacts was fetched.
pub open spec fn unasked(artifacts: Seq<Ga>, metadata: KnownMetadata) -> bool {
    forall|i: int|
        0 <= i < artifacts.len() ==> known::outcome(
            metadata,
            collect::ga_key((#[trigger] artifacts[i]).0, artifacts[i].1),
        ) is None
}

proof fn lemma_unasked(
    deps: Seq<DependencyModel>,
    i: int,
    above: Option<DependencyScope>,
    managed: Seq<DependencyModel>,
    metadata: KnownMetadata,
)
    ensures
        unasked(collect::unlisted(deps, i, above, managed, metadata), metadata),
    decreases deps.len() - i,
{
    if i < deps.len() {
        lemma_unasked(deps, i + 1, above, managed, metadata);
        let all = collect::unlisted(deps, i, above, managed, metadata);
        let rest = collect::unlisted(deps, i + 1, above, managed, metadata);
        assert forall|j: int| 0 <= j < all.len() implies known::outcome(
            metadata,
            collect::ga_key((#[trigger] all[j]).0, all[j].1),
        ) is None by {
            if all.len() == rest.len() {
                assert(all[j] == rest[j]);
            } else if j > 0 {
                assert(all[j] == rest[j - 1]);
            }
        }
    }
}

proof fn lemma_unasked_below(w: WorldModel, opens: Seq<OpenModel>, k: int)
    ensures
        unasked(collect::unlisted_below(w, opens, k), w.metadata),
    decreases opens.len() - k,
{
    if k < opens.len() {
        lemma_unasked(opens[k].dependencies, 0, opens[k].scope, w.managed, w.metadata);
        lemma_unasked_below(w, opens, k + 1);
        let own = collect::unlisted(
            opens[k].dependencies,
            0,
            opens[k].scope,
            w.managed,
            w.metadata,
        );
        let rest = collect::unlisted_below(w, opens, k + 1);
        let all = own + rest;
        assert forall|j: int| 0 <= j < all.len() implies known::outcome(
            w.metadata,
            collect::ga_key((#[trigger] all[j]).0, all[j].1),
        ) is None by {
            if j < own.len() {
                assert(all[j] == own[j]);
            } else {
                assert(all[j] == rest[j - own.len()]);
            }
        }
    }
}

proof fn lemma_wanted(w: WorldModel, opens: Seq<OpenModel>, visited: Set<Ga>, depth: nat)
    ensures
        collect::collected(w, opens, visited, depth) is None <==> !collect::is_nothing(
            collect::wanted(w, opens, visited, depth),
        ),
        effective::unfetched(collect::wanted(w, opens, visited, depth).poms, w.raw),
        unasked(collect::wanted(w, opens, visited, depth).metadata, w.metadata),
    decreases collect::MAX_DEPTH - depth,
{
    if depth < collect::MAX_DEPTH && opens.len() > 0 {
        collect::lemma_unlisted_below(w, opens, 0, visited);
        lemma_unasked_below(w, opens, 0);
        if let Some((groups, met)) = collect::level_from(w, opens, 0, visited) {
            let all = collect::all_of(groups);
            collect::lemma_missing_level(w, all, 0);
            if let Some(next) = collect::opened_from(w, all, 0) {
                lemma_wanted(w, next, met, depth + 1);
            }
        }
    }
}

/// The documents that a tree waits for were not fetched: none is asked for again.
pub proof fn fetched_documents_are_not_wanted(
    root: CoordModel,
    env: EnvironmentModel,
    raw: KnownPoms,
    metadata: KnownMetadata,
)
    ensures
        effective::unfetched(collect::documents_wanted(root, env, raw, metadata).poms, raw),
        unasked(collect::documents_wanted(root, env, raw, metadata).metadata, metadata),
{
    effective::lemma_missing_at(collect::own_request(root), env, raw);
    let needs = match collect::own_model(root, env, raw) {
        Some(Fetched::Found(pom)) => {
            let w = collect::world_of(pom, env, raw, metadata);
            let opens = seq![collect::root_of(pom)];
            let visited = set![(root.group_id, root.artifact_id)];
            lemma_wanted(w, opens, visited, 0);
            collect::wanted(w, opens, visited, 0)
        },
        _ => collect::NeedsModel {
            poms: effective::missing_at(collect::own_request(root), env, raw),
            metadata: Seq::empty(),
        },
    };
    if collect::own_model(root, env, raw) != Some(Fetched::<PomModel>::Failed) {
        collect::lemma_distinct_poms(needs.poms);
        collect::lemma_distinct_artifacts(needs.metadata);
        let poms = collect::distinct_poms(needs.poms);
        assert forall|i: int| 0 <= i < poms.len() implies known::outcome(
            raw,
            effective::coord_key(#[trigger] poms[i]),
        ) is None by {
            let n = choose|n: int| 0 <= n < needs.poms.len() && needs.poms[n] == poms[i];
            assert(needs.poms[n] == poms[i]);
        }
        let artifacts = collect::distinct_artifacts(needs.metadata);
        assert forall|i: int| 0 <= i < artifacts.len() implies known::outcome(
            metadata,
            collect::ga_key((#[trigger] artifacts[i]).0, artifacts[i].1),
        ) is None by {
            let n = choose|n: int|
                0 <= n < needs.metadata.len() && needs.metadata[n] == artifacts[i];
            assert(needs.metadata[n] == artifacts[i]);
        }
    }
}

/// No document is asked for twice at a time.
pub proof fn wanted_documents_are_distinct(
    root: CoordModel,
    env: EnvironmentModel,
    raw: KnownPoms,
    metadata: KnownMetadata,
)
    ensures
        ({
            let needs = collect::documents_wanted(root, env, raw, metadata);
            &&& needs.metadata.no_duplicates()
            &&& forall|i: int, j: int|
                0 <= i < j < needs.poms.len() ==> effective::coord_key(#[trigger] needs.poms[i])
                    != effective::coord_key(#[trigger] needs.poms[j])
        }),
{
    match collect::own_model(root, env, raw) {
        None => {
            collect::lemma_distinct_poms(
                effective::missing_at(collect::own_request(root), env, raw),
            );
            collect::lemma_distinct_artifacts(Seq::empty());
        },
        Some(Fetched::Failed) => {},
        Some(Fetched::Found(pom)) => {
            let w = collect::world_of(pom, env, raw, metadata);
            let opens = seq![collect::root_of(pom)];
            let visited = set![(root.group_id, root.artifact_id)];
            let needs = collect::wanted(w, opens, visited, 0);
            collect::lemma_distinct_poms(needs.poms);
            collect::lemma_distinct_artifacts(needs.metadata);
        },
    }
}

/// A tree, or the word that there is none, is owed as soon as all the documents that are wanted
/// for it are fetched, and only then: documents are wanted just where it is not known.
pub proof fn tree_is_owed(
    root: CoordModel,
    env: EnvironmentModel,
    raw: KnownPoms,
    metadata: KnownMetadata,
)
    ensures
        collect::resolution(root, env, raw, metadata) is Some <==> collect::is_nothing(
            collect::documents_wanted(root, env, raw, metadata),
        ),
        ({
            let needs = collect::documents_wanted(root, env, raw, metadata);
            (forall|i: int|
                0 <= i < needs.poms.len() ==> known::outcome(
                    raw,
                    effective::coord_key(#[trigger] needs.poms[i]),
                ) is Some) && (forall|i: int|
                0 <= i < needs.metadata.len() ==> known::outcome(
                    metadata,
                    collect::ga_key((#[trigger] needs.metadata[i]).0, needs.metadata[i].1),
                ) is Some) ==> collect::resolution(root, env, raw, metadata) is Some
        }),
{
    fetched_documents_are_not_wanted(root, env, raw, metadata);
    effective::lemma_missing_at(collect::own_request(root), env, raw);
    match collect::own_model(root, env, raw) {
        None => {
            collect::lemma_distinct_poms(
                effective::missing_at(collect::own_request(root), env, raw),
            );
        },
        Some(Fetched::Failed) => {},
        Some(Fetched::Found(pom)) => {
            let w = collect::world_of(pom, env, raw, metadata);
            let opens = seq![collect::root_of(pom)];
            let visited = set![(root.group_id, root.artifact_id)];
            lemma_wanted(w, opens, visited, 0);
            let needs = collect::wanted(w, opens, visited, 0);
            collect::lemma_distinct_poms(needs.poms);
            collect::lemma_distinct_artifacts(needs.metadata);
        },
    }
    let needs = collect::documents_wanted(root, env, raw, metadata);
    if needs.poms.len() > 0 {
        assert(known::outcome(raw, effective::coord_key(needs.poms[0])) is None);
    }
    if needs.metadata.len() > 0 {
        assert(known::outcome(
            metadata,
            collect::ga_key(needs.metadata[0].0, needs.metadata[0].1),
        ) is None);
    }
}

// ---------------------------------------------------------------------------
// Relocation
// ---------------------------------------------------------------------------

/// An artifact that does not move is where it says it is.
pub proof fn unmoved_artifact_stays(
    env: EnvironmentModel,
    raw: KnownPoms,
    pom: PomModel,
    at: CoordModel,
    seen: Seq<Seq<char>>,
)
    requires
        pom.distribution_management matches Some(d) ==> d is None,
    ensures
        collect::followed(env, raw, pom, at, seen) == Some(Some(pom)),
{
}

/// A part of a relocation: what it names, and that of the artifact where it names nothing.
pub open spec fn named_or_kept(named: Option<Seq<char>>, kept: Seq<char>) -> Seq<char> {
    if named is Some {
        named->0
    } else {
        kept
    }
}

/// A POM with a relocation leads to the group, the artifact and the version that the relocation
/// names, each part that it does not name staying as it is, as a `jar` without a classifier. It
/// leads nowhere just where that is the artifact itself, or where there is no relocation.
pub proof fn relocation_leads_to_what_it_names(pom: PomModel, at: CoordModel)
    ensures
        pom.distribution_management matches Some(Some(r)) ==> ({
            let g = named_or_kept(r.group_id, at.group_id);
            let a = named_or_kept(r.artifact_id, at.artifact_id);
            let v = named_or_kept(r.version, at.version);
            let to = collect::relocation_of(pom, at);
            &&& to is None <==> (g == at.group_id && a == at.artifact_id && v == at.version)
            &&& to matches Some(c) ==> c.group_id == g && c.artifact_id == a && c.version == v
                && c.classifier is None && c.extension == "jar"@
        }),
        !(pom.distribution_management matches Some(Some(_))) ==> collect::relocation_of(pom, at)
            is None,
{
}

/// A relocation is followed: the POM below a node whose POM is relocated to an artifact that was
/// not passed on the way is the one below that artifact's place.
pub proof fn relocations_are_followed(
    env: EnvironmentModel,
    raw: KnownPoms,
    pom: PomModel,
    at: CoordModel,
    seen: Seq<Seq<char>>,
    next: CoordModel,
    moved: PomModel,
)
    requires
        collect::relocation_of(pom, at) == Some(next),
        !seen.contains(effective::coord_key(next)),
        collect::own_model(next, env, raw) == Some(Fetched::Found(moved)),
    ensures
        collect::followed(env, raw, pom, at, seen) == collect::followed(
            env,
            raw,
            moved,
            next,
            seen.push(effective::coord_key(next)),
        ),
{
}

/// A relocation never leads back to the artifact itself.
pub proof fn relocation_moves(pom: PomModel, at: CoordModel)
    ensures
        collect::relocation_of(pom, at) matches Some(next) ==> !(next.group_id == at.group_id
            && next.artifact_id == at.artifact_id && next.version == at.version),
{
}

} // verus!
