//! Laws of scopes and of the list that a dependency tree comes to.
use crate::coord::CoordModel;
use crate::coord::DependencyScope;
use crate::resolver;
use crate::resolver::Ga;
use crate::resolver::NodeModel;
use crate::resolver::Reached;
use crate::resolver::ResolvedModel;
use crate::coord;
use crate::laws::lists;
use vstd::prelude::*;

verus! {

// ---------------------------------------------------------------------------
// Scopes
// ---------------------------------------------------------------------------

/// Only `compile` and `runtime` dependencies of a dependency are passed on.
pub proof fn only_transitive_scopes_are_passed_on(parent: DependencyScope, child: DependencyScope)
    ensures
        resolver::propagated(parent, child) is Some ==> child == DependencyScope::Compile || child
            == DependencyScope::Runtime,
{
}

/// A dependency of a `compile` dependency keeps its scope; below any other scope it never comes
/// back to `compile`.
pub proof fn scopes_only_narrow(parent: DependencyScope, child: DependencyScope)
    ensures
        parent == DependencyScope::Compile && resolver::propagated(parent, child) is Some
            ==> resolver::propagated(parent, child) == Some(child),
        parent != DependencyScope::Compile ==> resolver::propagated(parent, child) != Some(
            DependencyScope::Compile,
        ),
{
}

/// A dependency of a dependency is passed on where it is declared as `compile` or `runtime` and
/// stands below a `compile`, `runtime`, `provided` or `test` dependency. Below a `compile`
/// dependency it keeps its scope, and below any other it takes that of the dependency.
pub proof fn scopes_pass_on_by_the_table(parent: DependencyScope, child: DependencyScope)
    ensures
        resolver::propagated(parent, child) == (if (child == DependencyScope::Compile || child
            == DependencyScope::Runtime) && parent != DependencyScope::System && parent
            != DependencyScope::Import {
            Some(
                if parent == DependencyScope::Compile {
                    child
                } else {
                    parent
                },
            )
        } else {
            None
        }),
{
}

/// A filter lets its own scope through, and beside it `compile` lets `provided` through, `runtime`
/// lets `compile` through, and `test` lets `compile` and `runtime` through. Where there is no
/// filter, every scope is let through.
pub proof fn filters_let_through_by_the_table(scope: DependencyScope, filter: DependencyScope)
    ensures
        resolver::passes(scope, filter) <==> scope == filter || (scope == DependencyScope::Compile
            && (filter == DependencyScope::Runtime || filter == DependencyScope::Test)) || (scope
            == DependencyScope::Provided && filter == DependencyScope::Compile) || (scope
            == DependencyScope::Runtime && filter == DependencyScope::Test),
        resolver::admits(Some(filter), scope) <==> resolver::passes(scope, filter),
        resolver::admits(None, scope),
{
}

/// What the `runtime` filter lets through, the `test` filter lets through too.
pub proof fn test_filter_holds_runtime(scope: DependencyScope)
    ensures
        resolver::passes(scope, DependencyScope::Runtime) ==> resolver::passes(
            scope,
            DependencyScope::Test,
        ),
{
}

// ---------------------------------------------------------------------------
// Flattening
// ---------------------------------------------------------------------------

/// The artifact of a node: its group and its name, regardless of anything else.
pub open spec fn artifact_at(n: NodeModel) -> Ga {
    (n.coord.group_id, n.coord.artifact_id)
}

/// The artifact of a resolved dependency.
pub open spec fn artifact_of(d: ResolvedModel) -> Ga {
    (d.coord.group_id, d.coord.artifact_id)
}

proof fn lemma_flattened_facts(
    queue: Seq<Reached>,
    seen: Set<Ga>,
    filter: Option<DependencyScope>,
)
    ensures
        forall|i: int|
            #![trigger resolver::flattened(queue, seen, filter)[i]]
            0 <= i < resolver::flattened(queue, seen, filter).len() ==> resolver::admits(
                filter,
                resolver::flattened(queue, seen, filter)[i].scope,
            ) && !seen.contains(artifact_of(resolver::flattened(queue, seen, filter)[i])),
        forall|i: int, j: int|
            0 <= i < j < resolver::flattened(queue, seen, filter).len() ==> artifact_of(
                #[trigger] resolver::flattened(queue, seen, filter)[i],
            ) != artifact_of(#[trigger] resolver::flattened(queue, seen, filter)[j]),
    decreases resolver::queue_size(queue),
{
    if queue.len() > 0 {
        resolver::lemma_enqueue_size(queue);
        let (node, scope) = queue[0];
        let rest = queue.skip(1);
        let ga = artifact_at(node);
        if seen.contains(ga) {
            lemma_flattened_facts(rest, seen, filter);
        } else if !resolver::admits(filter, scope) {
            lemma_flattened_facts(rest, seen.insert(ga), filter);
        } else {
            let more = rest + resolver::reached_from(node.children, scope, 0);
            lemma_flattened_facts(more, seen.insert(ga), filter);
            let tail = resolver::flattened(more, seen.insert(ga), filter);
            let all = resolver::flattened(queue, seen, filter);
            let first = ResolvedModel { coord: node.coord, scope, path: None };
            assert(all == seq![first] + tail);
            assert(forall|i: int| 0 < i < all.len() ==> #[trigger] all[i] == tail[i - 1]);
        }
    }
}

/// An artifact occurs at most once among the resolved dependencies.
pub proof fn artifacts_occur_once(
    tree: Seq<NodeModel>,
    filter: Option<DependencyScope>,
    i: int,
    j: int,
)
    requires
        0 <= i < j < resolver::flat(tree, filter).len(),
    ensures
        artifact_of(resolver::flat(tree, filter)[i]) != artifact_of(
            resolver::flat(tree, filter)[j],
        ),
{
    lemma_flattened_facts(resolver::roots(tree), Set::empty(), filter);
}

/// Every resolved dependency has a scope that the filter lets through.
pub proof fn filter_is_kept(tree: Seq<NodeModel>, filter: Option<DependencyScope>, i: int)
    requires
        0 <= i < resolver::flat(tree, filter).len(),
    ensures
        resolver::admits(filter, resolver::flat(tree, filter)[i].scope),
{
    lemma_flattened_facts(resolver::roots(tree), Set::empty(), filter);
}

/// A node that is met on the way through a tree, with its distance from the root.
pub type Met = (Reached, nat);

/// The nodes below a met node.
pub open spec fn below(m: Met) -> Seq<Met> {
    let r = resolver::reached_from(m.0.0.children, m.0.1, 0);
    Seq::new(r.len(), |i: int| (r[i], m.1 + 1))
}

/// Met nodes without their distances.
pub open spec fn strip(q: Seq<Met>) -> Seq<Reached> {
    Seq::new(q.len(), |i: int| q[i].0)
}

/// All nodes that are met on the way through a queue, in turn. What stands below a node is met
/// only where the node is the first of its artifact and the filter lets it through.
pub open spec fn met(
    queue: Seq<Met>,
    seen: Set<Ga>,
    filter: Option<DependencyScope>,
) -> Seq<Met>
    decreases resolver::queue_size(strip(queue)),
{
    proof {
        lemma_strip(queue);
    }
    if queue.len() == 0 {
        Seq::empty()
    } else {
        let ga = artifact_at(queue[0].0.0);
        if seen.contains(ga) || !resolver::admits(filter, queue[0].0.1) {
            seq![queue[0]] + met(queue.skip(1), seen.insert(ga), filter)
        } else {
            seq![queue[0]] + met(queue.skip(1) + below(queue[0]), seen.insert(ga), filter)
        }
    }
}

/// Taking the first of a queue, with or without what stands below it, leaves less.
pub proof fn lemma_strip(queue: Seq<Met>)
    ensures
        queue.len() > 0 ==> strip(queue.skip(1)) == strip(queue).skip(1),
        queue.len() > 0 ==> strip(queue.skip(1) + below(queue[0])) == strip(queue).skip(1)
            + resolver::reached_from(queue[0].0.0.children, queue[0].0.1, 0),
        queue.len() > 0 ==> resolver::queue_size(strip(queue.skip(1))) < resolver::queue_size(
            strip(queue),
        ),
        queue.len() > 0 ==> resolver::queue_size(strip(queue.skip(1) + below(queue[0])))
            < resolver::queue_size(strip(queue)),
{
    if queue.len() > 0 {
        resolver::lemma_enqueue_size(strip(queue));
        assert(strip(queue.skip(1)) =~= strip(queue).skip(1));
        assert(strip(queue.skip(1) + below(queue[0])) =~= strip(queue).skip(1)
            + resolver::reached_from(queue[0].0.0.children, queue[0].0.1, 0));
    }
}

/// Those of the met nodes that are kept: the first of each artifact, where the filter lets it
/// through.
pub open spec fn kept(
    ms: Seq<Met>,
    seen: Set<Ga>,
    filter: Option<DependencyScope>,
) -> Seq<ResolvedModel>
    decreases ms.len(),
{
    if ms.len() == 0 {
        Seq::empty()
    } else {
        let (node, scope) = ms[0].0;
        let rest = kept(ms.skip(1), seen.insert(artifact_at(node)), filter);
        if seen.contains(artifact_at(node)) || !resolver::admits(filter, scope) {
            rest
        } else {
            seq![ResolvedModel { coord: node.coord, scope, path: None }] + rest
        }
    }
}

/// The nodes that are met on the way through a tree.
pub open spec fn met_in(tree: Seq<NodeModel>, filter: Option<DependencyScope>) -> Seq<Met> {
    met(
        Seq::new(tree.len(), |i: int| ((tree[i], tree[i].scope), 0nat)),
        Set::empty(),
        filter,
    )
}

proof fn lemma_flattened_is_kept(
    queue: Seq<Met>,
    seen: Set<Ga>,
    filter: Option<DependencyScope>,
)
    ensures
        resolver::flattened(strip(queue), seen, filter) == kept(
            met(queue, seen, filter),
            seen,
            filter,
        ),
    decreases resolver::queue_size(strip(queue)),
{
    lemma_strip(queue);
    if queue.len() > 0 {
        let ga = artifact_at(queue[0].0.0);
        let next = if seen.contains(ga) || !resolver::admits(filter, queue[0].0.1) {
            queue.skip(1)
        } else {
            queue.skip(1) + below(queue[0])
        };
        let all = met(queue, seen, filter);
        assert(all.skip(1) =~= met(next, seen.insert(ga), filter));
        lemma_flattened_is_kept(next, seen.insert(ga), filter);
        if seen.contains(ga) {
            assert(seen.insert(ga) =~= seen);
        }
    }
}

/// The resolved dependencies are the first nodes of their artifacts that are met.
pub proof fn first_met_is_kept(tree: Seq<NodeModel>, filter: Option<DependencyScope>)
    ensures
        resolver::flat(tree, filter) == kept(met_in(tree, filter), Set::empty(), filter),
{
    let queue = Seq::new(tree.len(), |i: int| ((tree[i], tree[i].scope), 0nat));
    assert(strip(queue) =~= resolver::roots(tree));
    lemma_flattened_is_kept(queue, Set::empty(), filter);
}

spec fn ordered(ms: Seq<Met>) -> bool {
    forall|i: int, j: int| 0 <= i < j < ms.len() ==> (#[trigger] ms[i]).1 <= (#[trigger] ms[j]).1
}

spec fn level_queue(q: Seq<Met>, d: nat) -> bool {
    ordered(q) && forall|i: int| 0 <= i < q.len() ==> d <= (#[trigger] q[i]).1 <= d + 1
}

proof fn lemma_met_ordered(
    queue: Seq<Met>,
    d: nat,
    seen: Set<Ga>,
    filter: Option<DependencyScope>,
)
    requires
        level_queue(queue, d),
    ensures
        ordered(met(queue, seen, filter)),
        forall|i: int|
            0 <= i < met(queue, seen, filter).len() ==> d <= (#[trigger] met(
                queue,
                seen,
                filter,
            )[i]).1,
        met(queue, seen, filter).len() >= queue.len(),
        met(queue, seen, filter).take(queue.len() as int) == queue,
    decreases resolver::queue_size(strip(queue)),
{
    lemma_strip(queue);
    let all = met(queue, seen, filter);
    if queue.len() > 0 {
        let first = queue[0];
        let ga = artifact_at(first.0.0);
        let next = if seen.contains(ga) || !resolver::admits(filter, first.0.1) {
            queue.skip(1)
        } else {
            queue.skip(1) + below(first)
        };
        let e = first.1;
        assert(level_queue(next, e)) by {
            assert forall|i: int| 0 <= i < next.len() implies e <= (#[trigger] next[i]).1 <= e
                + 1 by {
                if i < queue.len() - 1 {
                    assert(next[i] == queue[i + 1]);
                }
            }
            assert forall|i: int, j: int| 0 <= i < j < next.len() implies (#[trigger] next[i]).1
                <= (#[trigger] next[j]).1 by {
                if j < queue.len() - 1 {
                    assert(next[i] == queue[i + 1]);
                    assert(next[j] == queue[j + 1]);
                }
            }
        }
        lemma_met_ordered(next, e, seen.insert(ga), filter);
        let tail = met(next, seen.insert(ga), filter);
        assert(all == seq![first] + tail);
        assert(forall|i: int| 0 < i < all.len() ==> #[trigger] all[i] == tail[i - 1]);
        assert forall|i: int| 0 <= i < queue.len() implies all[i] == queue[i] by {
            if i > 0 {
                assert(tail.take(next.len() as int)[i - 1] == next[i - 1]);
            }
        }
        assert(all.take(queue.len() as int) =~= queue);
    } else {
        assert(all.take(0) =~= queue);
    }
}

proof fn lemma_kept_was_met(
    ms: Seq<Met>,
    seen: Set<Ga>,
    filter: Option<DependencyScope>,
    k: int,
) -> (i: int)
    requires
        0 <= k < kept(ms, seen, filter).len(),
    ensures
        0 <= i < ms.len(),
        ms[i].0.0.coord == kept(ms, seen, filter)[k].coord,
        ms[i].0.1 == kept(ms, seen, filter)[k].scope,
        !seen.contains(artifact_at(ms[i].0.0)),
        forall|j: int|
            0 <= j < i ==> artifact_at((#[trigger] ms[j]).0.0) != artifact_at(ms[i].0.0),
    decreases ms.len(),
{
    let (node, scope) = ms[0].0;
    let ga = artifact_at(node);
    let rest = ms.skip(1);
    let passed = seen.contains(ga) || !resolver::admits(filter, scope);
    if !passed && k == 0 {
        0
    } else {
        let h = lemma_kept_was_met(
            rest,
            seen.insert(ga),
            filter,
            if passed {
                k
            } else {
                k - 1
            },
        );
        assert forall|j: int| 0 <= j < h + 1 implies artifact_at((#[trigger] ms[j]).0.0)
            != artifact_at(ms[h + 1].0.0) by {
            if j > 0 {
                assert(rest[j - 1] == ms[j]);
            }
        }
        h + 1
    }
}

/// The nearest occurrence of an artifact wins: of all nodes of the artifact that are met on the
/// way through the tree, none is nearer to the root than the one that is kept.
pub proof fn nearest_wins(
    tree: Seq<NodeModel>,
    filter: Option<DependencyScope>,
    k: int,
    j: int,
)
    requires
        0 <= k < resolver::flat(tree, filter).len(),
        0 <= j < met_in(tree, filter).len(),
        artifact_at(met_in(tree, filter)[j].0.0) == artifact_of(
            resolver::flat(tree, filter)[k],
        ),
    ensures
        exists|i: int|
            {
                &&& 0 <= i <= j
                &&& (#[trigger] met_in(tree, filter)[i]).0.0.coord == resolver::flat(
                    tree,
                    filter,
                )[k].coord
                &&& met_in(tree, filter)[i].0.1 == resolver::flat(tree, filter)[k].scope
                &&& met_in(tree, filter)[i].1 <= met_in(tree, filter)[j].1
            },
{
    first_met_is_kept(tree, filter);
    let queue = Seq::new(tree.len(), |i: int| ((tree[i], tree[i].scope), 0nat));
    lemma_met_ordered(queue, 0, Set::empty(), filter);
    let i = lemma_kept_was_met(met_in(tree, filter), Set::empty(), filter, k);
    if i > j {
        assert(met_in(tree, filter)[j].1 <= met_in(tree, filter)[i].1);
    }
}

proof fn lemma_first_is_kept(
    ms: Seq<Met>,
    seen: Set<Ga>,
    filter: Option<DependencyScope>,
    i: int,
)
    requires
        0 <= i < ms.len(),
        !seen.contains(artifact_at(ms[i].0.0)),
        resolver::admits(filter, ms[i].0.1),
        forall|j: int|
            0 <= j < i ==> artifact_at((#[trigger] ms[j]).0.0) != artifact_at(ms[i].0.0),
    ensures
        kept(ms, seen, filter).contains(
            ResolvedModel { coord: ms[i].0.0.coord, scope: ms[i].0.1, path: None },
        ),
    decreases ms.len(),
{
    let e = ResolvedModel { coord: ms[i].0.0.coord, scope: ms[i].0.1, path: None };
    let all = kept(ms, seen, filter);
    if i == 0 {
        assert(all[0] == e);
    } else {
        let (node, scope) = ms[0].0;
        let ga = artifact_at(node);
        let rest = ms.skip(1);
        assert(ga != artifact_at(ms[i].0.0));
        assert forall|j: int| 0 <= j < i - 1 implies artifact_at((#[trigger] rest[j]).0.0)
            != artifact_at(rest[i - 1].0.0) by {
            assert(rest[j] == ms[j + 1]);
        }
        lemma_first_is_kept(rest, seen.insert(ga), filter, i - 1);
        let tail = kept(rest, seen.insert(ga), filter);
        let h = choose|h: int| 0 <= h < tail.len() && tail[h] == e;
        if seen.contains(ga) || !resolver::admits(filter, scope) {
            assert(all[h] == e);
        } else {
            assert(all[h + 1] == e);
        }
    }
}

/// A direct dependency that the filter lets through is among the resolved ones as it is
/// declared, whatever else depends on its artifact; of several for one artifact, the first.
pub proof fn direct_dependencies_win(
    tree: Seq<NodeModel>,
    filter: Option<DependencyScope>,
    i: int,
)
    requires
        0 <= i < tree.len(),
        resolver::admits(filter, tree[i].scope),
        forall|j: int|
            0 <= j < i ==> artifact_at(#[trigger] tree[j]) != artifact_at(tree[i]),
    ensures
        resolver::flat(tree, filter).contains(
            ResolvedModel { coord: tree[i].coord, scope: tree[i].scope, path: None },
        ),
{
    first_met_is_kept(tree, filter);
    let queue = Seq::new(tree.len(), |i: int| ((tree[i], tree[i].scope), 0nat));
    lemma_met_ordered(queue, 0, Set::empty(), filter);
    let ms = met_in(tree, filter);
    assert forall|j: int| 0 <= j <= i implies #[trigger] ms[j] == queue[j] by {
        assert(ms.take(queue.len() as int)[j] == queue[j]);
    }
    assert forall|j: int| 0 <= j < i implies artifact_at((#[trigger] ms[j]).0.0)
        != artifact_at(ms[i].0.0) by {
        assert(ms[j] == queue[j]);
    }
    lemma_first_is_kept(ms, Set::empty(), filter, i);
}

/// Whether coordinates occur anywhere in a tree.
pub open spec fn occurs(n: NodeModel, c: CoordModel) -> bool
    decreases n,
{
    n.coord == c || exists|i: int| 0 <= i < n.children.len() && occurs(#[trigger] n.children[i], c)
}

/// Whether coordinates occur anywhere in trees.
pub open spec fn occurs_in(tree: Seq<NodeModel>, c: CoordModel) -> bool {
    exists|i: int| 0 <= i < tree.len() && occurs(#[trigger] tree[i], c)
}

proof fn lemma_reached_are_children(
    children: Seq<NodeModel>,
    scope: DependencyScope,
    i: int,
    k: int,
) -> (j: int)
    requires
        0 <= i,
        0 <= k < resolver::reached_from(children, scope, i).len(),
    ensures
        0 <= j < children.len(),
        resolver::reached_from(children, scope, i)[k].0 == children[j],
    decreases children.len() - i,
{
    match resolver::propagated(scope, children[i].scope) {
        Some(s) => if k == 0 {
            i
        } else {
            lemma_reached_are_children(children, scope, i + 1, k - 1)
        },
        None => lemma_reached_are_children(children, scope, i + 1, k),
    }
}

proof fn lemma_flattened_occur(
    queue: Seq<Reached>,
    seen: Set<Ga>,
    filter: Option<DependencyScope>,
    k: int,
) -> (i: int)
    requires
        0 <= k < resolver::flattened(queue, seen, filter).len(),
    ensures
        0 <= i < queue.len(),
        occurs(queue[i].0, resolver::flattened(queue, seen, filter)[k].coord),
    decreases resolver::queue_size(queue),
{
    resolver::lemma_enqueue_size(queue);
    let (node, scope) = queue[0];
    let rest = queue.skip(1);
    let ga = artifact_at(node);
    if seen.contains(ga) {
        lemma_flattened_occur(rest, seen, filter, k) + 1
    } else if !resolver::admits(filter, scope) {
        lemma_flattened_occur(rest, seen.insert(ga), filter, k) + 1
    } else if k == 0 {
        0
    } else {
        let reached = resolver::reached_from(node.children, scope, 0);
        let h = lemma_flattened_occur(rest + reached, seen.insert(ga), filter, k - 1);
        if h < rest.len() {
            assert((rest + reached)[h] == queue[h + 1]);
            h + 1
        } else {
            let j = lemma_reached_are_children(node.children, scope, 0, h - rest.len());
            assert((rest + reached)[h] == reached[h - rest.len()]);
            assert(occurs(
                node.children[j],
                resolver::flattened(queue, seen, filter)[k].coord,
            ));
            0
        }
    }
}

/// Every resolved dependency occurs in the tree.
pub proof fn resolved_dependencies_occur(
    tree: Seq<NodeModel>,
    filter: Option<DependencyScope>,
    k: int,
)
    requires
        0 <= k < resolver::flat(tree, filter).len(),
    ensures
        occurs_in(tree, resolver::flat(tree, filter)[k].coord),
{
    let i = lemma_flattened_occur(resolver::roots(tree), Set::empty(), filter, k);
    assert(occurs(tree[i], resolver::flat(tree, filter)[k].coord));
}

/// What is reached below a node: those of its children that its scope is passed on to, in order,
/// each in the scope that it is passed on in.
pub proof fn children_are_reached_in_order(children: Seq<NodeModel>, scope: DependencyScope)
    ensures
        resolver::reached_from(children, scope, 0) == children.filter(
            |c: NodeModel| resolver::propagated(scope, c.scope) is Some,
        ).map_values(|c: NodeModel| (c, resolver::propagated(scope, c.scope)->0)),
{
    lemma_reached_filter(children, scope, 0);
    assert(children.skip(0) =~= children);
}

proof fn lemma_reached_filter(children: Seq<NodeModel>, scope: DependencyScope, i: int)
    requires
        0 <= i <= children.len(),
    ensures
        resolver::reached_from(children, scope, i) == children.skip(i).filter(
            |c: NodeModel| resolver::propagated(scope, c.scope) is Some,
        ).map_values(|c: NodeModel| (c, resolver::propagated(scope, c.scope)->0)),
    decreases children.len() - i,
{
    let wanted = |c: NodeModel| resolver::propagated(scope, c.scope) is Some;
    let put = |c: NodeModel| (c, resolver::propagated(scope, c.scope)->0);
    lists::lemma_filter_front(children, i, wanted);
    let all = children.skip(i).filter(wanted).map_values(put);
    if i < children.len() {
        lemma_reached_filter(children, scope, i + 1);
        let rest = children.skip(i + 1).filter(wanted).map_values(put);
        if wanted(children[i]) {
            assert(all =~= seq![put(children[i])] + rest);
        } else {
            assert(all =~= rest);
        }
    } else {
        assert(all =~= Seq::empty());
    }
}

// ---------------------------------------------------------------------------
// Downloading
// ---------------------------------------------------------------------------

proof fn lemma_files_filter(ds: Seq<ResolvedModel>, i: int)
    requires
        0 <= i <= ds.len(),
    ensures
        resolver::files_from(ds, i) == ds.skip(i).filter(
            |d: ResolvedModel| d.coord.extension != "pom"@,
        ).map_values(|d: ResolvedModel| d.coord),
    decreases ds.len() - i,
{
    let wanted = |d: ResolvedModel| d.coord.extension != "pom"@;
    let put = |d: ResolvedModel| d.coord;
    lists::lemma_filter_front(ds, i, wanted);
    let all = ds.skip(i).filter(wanted).map_values(put);
    if i < ds.len() {
        lemma_files_filter(ds, i + 1);
        let rest = ds.skip(i + 1).filter(wanted).map_values(put);
        if wanted(ds[i]) {
            assert(all =~= seq![ds[i].coord] + rest);
        } else {
            assert(all =~= rest);
        }
    } else {
        assert(all =~= Seq::empty());
    }
}

/// Every dependency is downloaded but those that are only a POM, whatever else they are, in
/// order.
pub proof fn all_but_poms_are_downloaded(ds: Seq<ResolvedModel>)
    ensures
        resolver::files_from(ds, 0) == ds.filter(
            |d: ResolvedModel| d.coord.extension != "pom"@,
        ).map_values(|d: ResolvedModel| d.coord),
        forall|i: int|
            0 <= i < ds.len() ==> (resolver::files_from(ds, 0).contains((#[trigger] ds[i]).coord)
                <==> ds[i].coord.extension != "pom"@),
{
    let wanted = |d: ResolvedModel| d.coord.extension != "pom"@;
    let put = |d: ResolvedModel| d.coord;
    lemma_files_filter(ds, 0);
    assert(ds.skip(0) =~= ds);
    let kept = ds.filter(wanted);
    let files = kept.map_values(put);
    assert forall|i: int| 0 <= i < ds.len() implies (files.contains((#[trigger] ds[i]).coord)
        <==> ds[i].coord.extension != "pom"@) by {
        lists::lemma_filter_contains(ds, wanted, ds[i]);
        if wanted(ds[i]) {
            let k = choose|k: int| 0 <= k < kept.len() && kept[k] == ds[i];
            assert(files[k] == ds[i].coord);
        }
        if files.contains(ds[i].coord) {
            let k = choose|k: int| 0 <= k < files.len() && files[k] == ds[i].coord;
            lists::lemma_filter_contains(ds, wanted, kept[k]);
            assert(kept.contains(kept[k]));
        }
    }
}

/// A dependency keeps its coordinates and its scope when downloads are noted. Where the last
/// download of its coordinates came to a file, the dependency has the path of that file; where it
/// failed, or there was none, the dependency stays as it is.
pub proof fn last_download_gives_the_path(
    d: ResolvedModel,
    results: Seq<(CoordModel, Option<Seq<char>>)>,
)
    ensures
        resolver::with_path(d, results).coord == d.coord,
        resolver::with_path(d, results).scope == d.scope,
        forall|k: int|
            0 <= k < results.len() && coord::coord_text((#[trigger] results[k]).0)
                == coord::coord_text(d.coord) && (forall|j: int|
                k < j < results.len() ==> coord::coord_text((#[trigger] results[j]).0)
                    != coord::coord_text(d.coord)) ==> resolver::with_path(d, results).path == (
            if results[k].1 is Some {
                results[k].1
            } else {
                d.path
            }),
        (forall|k: int|
            0 <= k < results.len() ==> coord::coord_text((#[trigger] results[k]).0)
                != coord::coord_text(d.coord)) ==> resolver::with_path(d, results) == d,
    decreases results.len(),
{
    let wanted = coord::coord_text(d.coord);
    if results.len() > 0 {
        let front = results.drop_last();
        let n = results.len() - 1;
        assert(results[n] == results.last());
        if coord::coord_text(results.last().0) != wanted {
            last_download_gives_the_path(d, front);
            assert(resolver::path_for(results, d.coord) == resolver::path_for(front, d.coord));
            assert forall|k: int|
                0 <= k < results.len() && coord::coord_text((#[trigger] results[k]).0) == wanted
                    && (forall|j: int|
                    k < j < results.len() ==> coord::coord_text((#[trigger] results[j]).0)
                        != wanted) implies resolver::with_path(d, results).path == (
            if results[k].1 is Some {
                results[k].1
            } else {
                d.path
            }) by {
                assert(front[k] == results[k]);
                assert forall|j: int| k < j < front.len() implies coord::coord_text(
                    (#[trigger] front[j]).0,
                ) != wanted by {
                    assert(front[j] == results[j]);
                }
            }
            if forall|k: int|
                0 <= k < results.len() ==> coord::coord_text((#[trigger] results[k]).0) != wanted {
                assert forall|k: int| 0 <= k < front.len() implies coord::coord_text(
                    (#[trigger] front[k]).0,
                ) != wanted by {
                    assert(front[k] == results[k]);
                }
            }
        } else {
            assert forall|k: int|
                0 <= k < results.len() && coord::coord_text((#[trigger] results[k]).0) == wanted
                    && (forall|j: int|
                    k < j < results.len() ==> coord::coord_text((#[trigger] results[j]).0)
                        != wanted) implies k == n by {
                if k < n {
                    assert(coord::coord_text(results[n].0) == wanted);
                }
            }
        }
    }
}

} // verus!
