//! The dependency tree: scope rules, conflict resolution by nearness, and display.
use crate::coord;
use crate::coord::ArtifactCoord;
use crate::coord::CoordModel;
use crate::coord::DependencyScope;
use crate::coord::Exclusion;
use crate::coord::ExclusionModel;
use crate::text;
use vstd::prelude::*;

verus! {

// ============================================================================
// Data
// ============================================================================

/// A node in the dependency tree.
#[derive(Debug)]
pub struct DependencyNode {
    pub coord: ArtifactCoord,
    pub scope: DependencyScope,
    pub optional: bool,
    pub exclusions: Vec<Exclusion>,
    pub children: Vec<DependencyNode>,
}

/// A flattened resolved dependency with its effective scope, and where it lies once it has been
/// downloaded.
#[derive(Debug)]
pub struct ResolvedDependency {
    pub coord: ArtifactCoord,
    pub scope: DependencyScope,
    pub path: Option<String>,
}

/// Result of dependency resolution.
#[derive(Debug)]
pub struct ResolutionResult {
    pub root: ArtifactCoord,
    pub tree: Vec<DependencyNode>,
    pub dependencies: Vec<ResolvedDependency>,
}

/// A node over texts.
#[verifier::ext_equal]
pub struct NodeModel {
    pub coord: CoordModel,
    pub scope: DependencyScope,
    pub optional: bool,
    pub exclusions: Seq<ExclusionModel>,
    pub children: Seq<NodeModel>,
}

/// A resolved dependency over texts.
#[verifier::ext_equal]
pub struct ResolvedModel {
    pub coord: CoordModel,
    pub scope: DependencyScope,
    pub path: Option<Seq<char>>,
}

/// A node over texts.
pub open spec fn node_view(n: DependencyNode) -> NodeModel
    decreases n,
{
    NodeModel {
        coord: n.coord@,
        scope: n.scope,
        optional: n.optional,
        exclusions: text::views(n.exclusions@),
        children: nodes_view(n.children@),
    }
}

/// Nodes over texts.
pub open spec fn nodes_view(ns: Seq<DependencyNode>) -> Seq<NodeModel>
    decreases ns,
{
    if ns.len() == 0 {
        Seq::empty()
    } else {
        nodes_view(ns.drop_last()).push(node_view(ns.last()))
    }
}

/// `nodes_view` views each node.
pub proof fn lemma_nodes_view(ns: Seq<DependencyNode>)
    ensures
        nodes_view(ns).len() == ns.len(),
        forall|i: int| 0 <= i < ns.len() ==> nodes_view(ns)[i] == node_view(#[trigger] ns[i]),
    decreases ns.len(),
{
    if ns.len() > 0 {
        lemma_nodes_view(ns.drop_last());
        assert forall|i: int| 0 <= i < ns.len() implies nodes_view(ns)[i] == node_view(
            #[trigger] ns[i],
        ) by {
            if i < ns.len() - 1 {
                assert(ns.drop_last()[i] == ns[i]);
            }
        }
    }
}

impl View for DependencyNode {
    type V = NodeModel;

    open spec fn view(&self) -> NodeModel {
        node_view(*self)
    }
}

impl View for ResolvedDependency {
    type V = ResolvedModel;

    open spec fn view(&self) -> ResolvedModel {
        ResolvedModel { coord: self.coord@, scope: self.scope, path: text::opt_view(self.path) }
    }
}

/// A copy of a list of exclusions.
pub fn clone_exclusions(v: &Vec<Exclusion>) -> (r: Vec<Exclusion>)
    ensures
        text::views(r@) == text::views(v@),
{
    let mut out: Vec<Exclusion> = Vec::new();
    for i in 0..v.len()
        invariant
            out@.len() == i,
            forall|j: int| 0 <= j < i ==> out@[j]@ == v@[j]@,
    {
        out.push(v[i].clone());
    }
    assert(text::views(out@) =~= text::views(v@));
    out
}

impl Clone for DependencyNode {
    fn clone(&self) -> (r: Self)
        ensures
            r@ == self@,
        decreases self,
    {
        let mut children: Vec<DependencyNode> = Vec::new();
        for i in 0..self.children.len()
            invariant
                children@.len() == i,
                nodes_view(children@) == nodes_view(self.children@).take(i as int),
        {
            proof {
                lemma_nodes_view(self.children@);
            }
            let child = self.children[i].clone();
            let ghost before = children@;
            children.push(child);
            proof {
                assert(children@.drop_last() =~= before);
                assert(nodes_view(children@) =~= nodes_view(self.children@).take(i + 1));
            }
        }
        proof {
            lemma_nodes_view(self.children@);
            assert(nodes_view(children@) =~= nodes_view(self.children@));
        }
        DependencyNode {
            coord: self.coord.clone(),
            scope: self.scope,
            optional: self.optional,
            exclusions: clone_exclusions(&self.exclusions),
            children,
        }
    }
}

impl Clone for ResolvedDependency {
    fn clone(&self) -> (r: Self)
        ensures
            r@ == self@,
    {
        ResolvedDependency {
            coord: self.coord.clone(),
            scope: self.scope,
            path: text::clone_opt(&self.path),
        }
    }
}

// ============================================================================
// Scopes
// ============================================================================

/// The scope of a dependency of a dependency; none where it is not passed on.
pub open spec fn propagated(parent: DependencyScope, child: DependencyScope) -> Option<
    DependencyScope,
> {
    if child != DependencyScope::Compile && child != DependencyScope::Runtime {
        None
    } else {
        match parent {
            DependencyScope::Compile => Some(child),
            DependencyScope::Runtime => Some(DependencyScope::Runtime),
            DependencyScope::Provided => Some(DependencyScope::Provided),
            DependencyScope::Test => Some(DependencyScope::Test),
            DependencyScope::System | DependencyScope::Import => None,
        }
    }
}

/// Whether a filter lets a scope through.
pub open spec fn passes(scope: DependencyScope, filter: DependencyScope) -> bool {
    match filter {
        DependencyScope::Compile => scope == DependencyScope::Compile || scope
            == DependencyScope::Provided,
        DependencyScope::Runtime => scope == DependencyScope::Compile || scope
            == DependencyScope::Runtime,
        DependencyScope::Test => scope == DependencyScope::Compile || scope
            == DependencyScope::Runtime || scope == DependencyScope::Test,
        _ => scope == filter,
    }
}

/// The effective scope of a transitive dependency, or `None` if it is not passed on.
///
/// ```text
/// Parent \ Child | compile  | runtime  | provided | test
/// ---------------|----------|----------|----------|------
/// compile        | compile  | runtime  | -        | -
/// runtime        | runtime  | runtime  | -        | -
/// provided       | provided | provided | -        | -
/// test           | test     | test     | -        | -
/// ```
pub fn propagate_scope(parent_scope: DependencyScope, child_scope: DependencyScope) -> (r: Option<
    DependencyScope,
>)
    ensures
        r == propagated(parent_scope, child_scope),
{
    match child_scope {
        DependencyScope::Compile | DependencyScope::Runtime => match parent_scope {
            DependencyScope::Compile => Some(child_scope),
            DependencyScope::Runtime => Some(DependencyScope::Runtime),
            DependencyScope::Provided => Some(DependencyScope::Provided),
            DependencyScope::Test => Some(DependencyScope::Test),
            DependencyScope::System | DependencyScope::Import => None,
        },
        _ => None,
    }
}

/// Whether a dependency scope is let through by a filter scope.
///
/// - `Compile`: compile, provided
/// - `Runtime`: compile, runtime
/// - `Test`: compile, runtime, test
/// - other: exact match only
pub fn scope_matches(dep_scope: DependencyScope, filter: DependencyScope) -> (r: bool)
    ensures
        r == passes(dep_scope, filter),
{
    match filter {
        DependencyScope::Compile => match dep_scope {
            DependencyScope::Compile | DependencyScope::Provided => true,
            _ => false,
        },
        DependencyScope::Runtime => match dep_scope {
            DependencyScope::Compile | DependencyScope::Runtime => true,
            _ => false,
        },
        DependencyScope::Test => match dep_scope {
            DependencyScope::Compile | DependencyScope::Runtime | DependencyScope::Test => true,
            _ => false,
        },
        _ => dep_scope == filter,
    }
}

// ============================================================================
// Artifacts regardless of version
// ============================================================================

/// An artifact of a group, regardless of version.
pub type Ga = (Seq<char>, Seq<char>);

#[derive(Debug)]
struct ArtifactKey {
    group_id: String,
    artifact_id: String,
}

/// A set of artifacts, each an artifact of a group regardless of version.
#[derive(Debug)]
pub struct ArtifactSet {
    items: Vec<ArtifactKey>,
}

impl View for ArtifactSet {
    type V = Set<Ga>;

    closed spec fn view(&self) -> Set<Ga> {
        Set::new(
            |k: Ga|
                exists|i: int|
                    0 <= i < self.items@.len() && (#[trigger] self.items@[i]).group_id@ == k.0
                        && self.items@[i].artifact_id@ == k.1,
        )
    }
}

impl ArtifactSet {
    /// The empty set.
    pub fn new() -> (r: ArtifactSet)
        ensures
            r@ == Set::<Ga>::empty(),
    {
        let r = ArtifactSet { items: Vec::new() };
        assert(r@ =~= Set::<Ga>::empty());
        r
    }

    /// Whether an artifact is in the set.
    pub fn contains(&self, group_id: &String, artifact_id: &String) -> (r: bool)
        ensures
            r == self@.contains((group_id@, artifact_id@)),
    {
        for i in 0..self.items.len()
            invariant
                forall|j: int|
                    0 <= j < i ==> !((#[trigger] self.items@[j]).group_id@ == group_id@
                        && self.items@[j].artifact_id@ == artifact_id@),
        {
            if self.items[i].group_id == *group_id && self.items[i].artifact_id == *artifact_id {
                return true;
            }
        }
        false
    }

    /// Adds an artifact; says whether it is new.
    pub fn insert(&mut self, group_id: &String, artifact_id: &String) -> (r: bool)
        ensures
            r == !old(self)@.contains((group_id@, artifact_id@)),
            final(self)@ == old(self)@.insert((group_id@, artifact_id@)),
    {
        if self.contains(group_id, artifact_id) {
            assert(self@.insert((group_id@, artifact_id@)) =~= self@);
            return false;
        }
        let ghost before = *self;
        self.items.push(
            ArtifactKey { group_id: group_id.clone(), artifact_id: artifact_id.clone() },
        );
        proof {
            let new = (group_id@, artifact_id@);
            assert forall|k: Ga| self@.contains(k) == before@.insert(new).contains(k) by {
                if before@.contains(k) {
                    let i = choose|i: int|
                        0 <= i < before.items@.len() && (#[trigger] before.items@[i]).group_id@
                            == k.0 && before.items@[i].artifact_id@ == k.1;
                    assert(self.items@[i] == before.items@[i]);
                }
                if k == new {
                    assert(self.items@[before.items@.len() as int].group_id@ == k.0);
                }
                if self@.contains(k) {
                    let i = choose|i: int|
                        0 <= i < self.items@.len() && (#[trigger] self.items@[i]).group_id@ == k.0
                            && self.items@[i].artifact_id@ == k.1;
                    if i < before.items@.len() {
                        assert(before.items@[i] == self.items@[i]);
                    }
                }
            }
            assert(self@ =~= before@.insert(new));
        }
        true
    }
}

impl Clone for ArtifactSet {
    fn clone(&self) -> (r: Self)
        ensures
            r@ == self@,
    {
        let mut items: Vec<ArtifactKey> = Vec::new();
        for i in 0..self.items.len()
            invariant
                items@.len() == i,
                forall|j: int|
                    0 <= j < i ==> items@[j].group_id@ == (#[trigger] self.items@[j]).group_id@
                        && items@[j].artifact_id@ == self.items@[j].artifact_id@,
        {
            items.push(
                ArtifactKey {
                    group_id: self.items[i].group_id.clone(),
                    artifact_id: self.items[i].artifact_id.clone(),
                },
            );
        }
        let r = ArtifactSet { items };
        proof {
            assert forall|k: Ga| r@.contains(k) == self@.contains(k) by {
                if r@.contains(k) {
                    let i = choose|i: int|
                        0 <= i < r.items@.len() && (#[trigger] r.items@[i]).group_id@ == k.0
                            && r.items@[i].artifact_id@ == k.1;
                    assert(self.items@[i].group_id@ == k.0);
                }
                if self@.contains(k) {
                    let i = choose|i: int|
                        0 <= i < self.items@.len() && (#[trigger] self.items@[i]).group_id@ == k.0
                            && self.items@[i].artifact_id@ == k.1;
                    assert(r.items@[i].group_id@ == k.0);
                }
            }
            assert(r@ =~= self@);
        }
        r
    }
}

// ============================================================================
// Flattening
// ============================================================================

/// A node with the scope in which it was reached.
pub type Reached = (NodeModel, DependencyScope);

/// How many nodes a tree holds.
pub open spec fn node_size(n: NodeModel) -> nat
    decreases n, 0nat,
{
    1 + nodes_size(n.children)
}

/// How many nodes trees hold.
pub open spec fn nodes_size(ns: Seq<NodeModel>) -> nat
    decreases ns, ns.len(),
{
    if ns.len() == 0 {
        0
    } else {
        nodes_size(ns.drop_last()) + node_size(ns.last())
    }
}

/// How many nodes the trees of a queue hold.
pub open spec fn queue_size(q: Seq<Reached>) -> nat
    decreases q.len(),
{
    if q.len() == 0 {
        0
    } else {
        node_size(q[0].0) + queue_size(q.skip(1))
    }
}

/// The children of a node that its scope passes on to, from position `i` on, each with the
/// scope that is passed on.
pub open spec fn reached_from(
    children: Seq<NodeModel>,
    scope: DependencyScope,
    i: int,
) -> Seq<Reached>
    decreases children.len() - i,
{
    if i >= children.len() {
        Seq::empty()
    } else {
        match propagated(scope, children[i].scope) {
            Some(s) => seq![(children[i], s)] + reached_from(children, scope, i + 1),
            None => reached_from(children, scope, i + 1),
        }
    }
}

/// The artifact that a node stands for.
pub open spec fn ga_of(n: NodeModel) -> Ga {
    (n.coord.group_id, n.coord.artifact_id)
}

/// Whether an optional filter lets a scope through.
pub open spec fn admits(filter: Option<DependencyScope>, scope: DependencyScope) -> bool {
    match filter {
        Some(f) => passes(scope, f),
        None => true,
    }
}

/// What a queue of nodes comes to: its nodes in turn, each followed at the end of the queue by
/// its children. An artifact counts where it is met first; where the filter keeps that node
/// out, the artifact and what that node depends on are left out.
pub open spec fn flattened(
    queue: Seq<Reached>,
    seen: Set<Ga>,
    filter: Option<DependencyScope>,
) -> Seq<ResolvedModel>
    decreases queue_size(queue),
{
    proof {
        if queue.len() > 0 {
            lemma_enqueue_size(queue);
        }
    }
    if queue.len() == 0 {
        Seq::empty()
    } else {
        let (node, scope) = queue[0];
        let rest = queue.skip(1);
        if seen.contains(ga_of(node)) {
            flattened(rest, seen, filter)
        } else if !admits(filter, scope) {
            flattened(rest, seen.insert(ga_of(node)), filter)
        } else {
            seq![ResolvedModel { coord: node.coord, scope, path: None }] + flattened(
                rest + reached_from(node.children, scope, 0),
                seen.insert(ga_of(node)),
                filter,
            )
        }
    }
}

/// The queue that trees begin with: their roots in the scopes they declare.
pub open spec fn roots(tree: Seq<NodeModel>) -> Seq<Reached> {
    Seq::new(tree.len(), |i: int| (tree[i], tree[i].scope))
}

/// The dependencies that trees come to.
pub open spec fn flat(tree: Seq<NodeModel>, filter: Option<DependencyScope>) -> Seq<
    ResolvedModel,
> {
    flattened(roots(tree), Set::empty(), filter)
}

proof fn lemma_queue_size_add(a: Seq<Reached>, b: Seq<Reached>)
    ensures
        queue_size(a + b) == queue_size(a) + queue_size(b),
    decreases a.len(),
{
    if a.len() == 0 {
        assert(a + b =~= b);
    } else {
        assert((a + b).skip(1) =~= a.skip(1) + b);
        lemma_queue_size_add(a.skip(1), b);
    }
}

proof fn lemma_reached_size(children: Seq<NodeModel>, scope: DependencyScope, i: int)
    requires
        0 <= i <= children.len(),
    ensures
        queue_size(reached_from(children, scope, i)) + nodes_size(children.take(i)) <= nodes_size(
            children,
        ),
    decreases children.len() - i,
{
    if i < children.len() {
        lemma_reached_size(children, scope, i + 1);
        assert(children.take(i + 1).drop_last() =~= children.take(i));
        let rest = reached_from(children, scope, i + 1);
        if let Some(s) = propagated(scope, children[i].scope) {
            let one = seq![(children[i], s)];
            lemma_queue_size_add(one, rest);
            assert(one.skip(1) =~= Seq::empty());
            assert(queue_size(one.skip(1)) == 0);
            assert(queue_size(one) == node_size(children[i]));
        }
    } else {
        assert(children.take(i) =~= children);
    }
}

/// Taking a node from a queue and adding its children makes the queue smaller.
pub proof fn lemma_enqueue_size(queue: Seq<Reached>)
    requires
        queue.len() > 0,
    ensures
        queue_size(queue.skip(1)) < queue_size(queue),
        queue_size(queue.skip(1) + reached_from(queue[0].0.children, queue[0].1, 0)) < queue_size(
            queue,
        ),
{
    let n = queue[0].0;
    lemma_queue_size_add(queue.skip(1), reached_from(n.children, queue[0].1, 0));
    lemma_reached_size(n.children, queue[0].1, 0);
    assert(node_size(n) == 1 + nodes_size(n.children));
}

/// A queue of references to nodes over texts.
spec fn queue_view(q: Seq<(&DependencyNode, DependencyScope)>) -> Seq<Reached> {
    Seq::new(q.len(), |i: int| (node_view(*q[i].0), q[i].1))
}

/// Flattens trees: breadth first, and the nearest occurrence of an artifact wins.
pub fn flatten(tree: &Vec<DependencyNode>, scope_filter: Option<DependencyScope>) -> (r: Vec<
    ResolvedDependency,
>)
    ensures
        text::views(r@) == flat(nodes_view(tree@), scope_filter),
{
    let mut queue: Vec<(&DependencyNode, DependencyScope)> = Vec::new();
    proof {
        lemma_nodes_view(tree@);
    }
    let ghost start = roots(nodes_view(tree@));
    for i in 0..tree.len()
        invariant
            start == roots(nodes_view(tree@)),
            start.len() == tree@.len(),
            queue_view(queue@) =~= start.take(i as int),
    {
        proof {
            lemma_nodes_view(tree@);
            assert(nodes_view(tree@)[i as int] == node_view(tree@[i as int]));
            assert(start[i as int] == (tree@[i as int]@, tree@[i as int].scope));
        }
        let ghost before = queue_view(queue@);
        queue.push((&tree[i], tree[i].scope));
        assert(queue_view(queue@) =~= before.push(start[i as int]));
        assert(start.take(i + 1) =~= start.take(i as int).push(start[i as int]));
    }
    let mut head: usize = 0;
    let mut seen = ArtifactSet::new();
    let mut result: Vec<ResolvedDependency> = Vec::new();
    proof {
        assert(queue_view(queue@).skip(0) =~= start);
        assert(text::views(result@) + flattened(start, Set::empty(), scope_filter) =~= flattened(
            start,
            Set::empty(),
            scope_filter,
        ));
    }
    while head < queue.len()
        invariant
            head <= queue@.len(),
            flattened(start, Set::empty(), scope_filter) == text::views(result@) + flattened(
                queue_view(queue@).skip(head as int),
                seen@,
                scope_filter,
            ),
        decreases queue_size(queue_view(queue@).skip(head as int)),
    {
        let (node, scope) = queue[head];
        let ghost q = queue_view(queue@).skip(head as int);
        let ghost done = text::views(result@);
        let ghost seen0 = seen@;
        proof {
            lemma_enqueue_size(q);
            assert(q[0] == (node@, scope));
            assert(q.skip(1) =~= queue_view(queue@).skip(head + 1));
        }
        head += 1;
        let is_new = seen.insert(&node.coord.group_id, &node.coord.artifact_id);
        proof {
            if !is_new {
                assert(seen@ =~= seen0);
            }
        }
        if is_new {
            let admitted = match scope_filter {
                Some(filter) => scope_matches(scope, filter),
                None => true,
            };
            if admitted {
                result.push(ResolvedDependency { coord: node.coord.clone(), scope, path: None });
                let ghost children = node@.children;
                let ghost before = queue_view(queue@);
                proof {
                    lemma_nodes_view(node.children@);
                    assert(before + reached_from(children, scope, 0) =~= queue_view(queue@)
                        + reached_from(children, scope, 0));
                }
                for i in 0..node.children.len()
                    invariant
                        children == nodes_view(node.children@),
                        before + reached_from(children, scope, 0) == queue_view(queue@)
                            + reached_from(children, scope, i as int),
                {
                    proof {
                        lemma_nodes_view(node.children@);
                    }
                    let child = &node.children[i];
                    if let Some(s) = propagate_scope(scope, child.scope) {
                        let ghost mid = queue_view(queue@);
                        queue.push((child, s));
                        proof {
                            assert(queue_view(queue@) =~= mid.push((children[i as int], s)));
                            assert(mid + (seq![(children[i as int], s)] + reached_from(
                                children,
                                scope,
                                i + 1,
                            )) =~= queue_view(queue@) + reached_from(children, scope, i + 1));
                        }
                    }
                }
                proof {
                    lemma_nodes_view(node.children@);
                    let entry = ResolvedModel { coord: node@.coord, scope, path: None };
                    assert(!seen0.contains(ga_of(node@)));
                    assert(text::views(result@) =~= done.push(entry));
                    assert(queue_view(queue@) =~= before + reached_from(children, scope, 0));
                    assert(queue_view(queue@).skip(head as int) =~= q.skip(1) + reached_from(
                        children,
                        scope,
                        0,
                    ));
                    let next = queue_view(queue@).skip(head as int);
                    assert(done + (seq![entry] + flattened(next, seen@, scope_filter))
                        =~= text::views(result@) + flattened(next, seen@, scope_filter));
                }
            }
        }
    }
    result
}

// ============================================================================
// Downloading
// ============================================================================

/// Whether a dependency has a file of its own: one that is only a POM has none.
pub open spec fn has_file(d: ResolvedModel) -> bool {
    d.coord.extension != "pom"@
}

/// The coordinates of the dependencies, from position `i` on, that have a file of their own.
pub open spec fn files_from(ds: Seq<ResolvedModel>, i: int) -> Seq<CoordModel>
    decreases ds.len() - i,
{
    if i >= ds.len() {
        Seq::empty()
    } else if has_file(ds[i]) {
        seq![ds[i].coord] + files_from(ds, i + 1)
    } else {
        files_from(ds, i + 1)
    }
}

/// The artifacts that are downloaded for dependencies.
pub fn artifacts_to_download(deps: &Vec<ResolvedDependency>) -> (r: Vec<ArtifactCoord>)
    ensures
        text::views(r@) == files_from(text::views(deps@), 0),
{
    let mut out: Vec<ArtifactCoord> = Vec::new();
    let ghost ds = text::views(deps@);
    assert(text::views(out@) + files_from(ds, 0) =~= files_from(ds, 0));
    for i in 0..deps.len()
        invariant
            ds == text::views(deps@),
            text::views(out@) + files_from(ds, i as int) == files_from(ds, 0),
    {
        assert(ds[i as int] == deps@[i as int]@);
        if !text::str_eq(deps[i].coord.extension.as_str(), "pom") {
            let ghost before = text::views(out@);
            out.push(deps[i].coord.clone());
            assert(text::views(out@) =~= before.push(ds[i as int].coord));
            assert(before + (seq![ds[i as int].coord] + files_from(ds, i + 1)) =~= text::views(
                out@,
            ) + files_from(ds, i + 1));
        }
    }
    assert(text::views(out@) =~= files_from(ds, 0));
    out
}

/// What came of a download: the path of the file, or none where it failed.
#[derive(Debug)]
pub struct Downloaded {
    pub coord: ArtifactCoord,
    pub path: Option<String>,
}

impl View for Downloaded {
    type V = (CoordModel, Option<Seq<char>>);

    open spec fn view(&self) -> (CoordModel, Option<Seq<char>>) {
        (self.coord@, text::opt_view(self.path))
    }
}

/// The path that the downloads give for an artifact, by the text of its coordinates: that of the
/// last one.
pub open spec fn path_for(
    results: Seq<(CoordModel, Option<Seq<char>>)>,
    c: CoordModel,
) -> Option<Seq<char>>
    decreases results.len(),
{
    if results.len() == 0 {
        None
    } else if coord::coord_text(results.last().0) == coord::coord_text(c) {
        results.last().1
    } else {
        path_for(results.drop_last(), c)
    }
}

/// A dependency with the path that the downloads give for it.
pub open spec fn with_path(
    d: ResolvedModel,
    results: Seq<(CoordModel, Option<Seq<char>>)>,
) -> ResolvedModel {
    match path_for(results, d.coord) {
        Some(p) => ResolvedModel { path: Some(p), ..d },
        None => d,
    }
}

fn find_path(results: &Vec<Downloaded>, coord: &ArtifactCoord) -> (r: Option<String>)
    ensures
        text::opt_view(r) == path_for(text::views(results@), coord@),
{
    let ghost m = text::views(results@);
    let wanted = coord.to_string();
    let mut i: usize = results.len();
    assert(m.take(m.len() as int) =~= m);
    while i > 0
        invariant
            i <= results@.len(),
            m == text::views(results@),
            wanted@ == coord::coord_text(coord@),
            path_for(m, coord@) == path_for(m.take(i as int), coord@),
        decreases i,
    {
        i -= 1;
        assert(m.take(i + 1).last() == m[i as int]);
        assert(m.take(i + 1).drop_last() =~= m.take(i as int));
        if results[i].coord.to_string() == wanted {
            return text::clone_opt(&results[i].path);
        }
    }
    None
}

/// Notes in dependencies where their files lie. A dependency whose download failed stays without
/// a path.
pub fn note_downloads(deps: Vec<ResolvedDependency>, results: &Vec<Downloaded>) -> (r: Vec<
    ResolvedDependency,
>)
    ensures
        text::views(r@) == text::views(deps@).map_values(
            |d: ResolvedModel| with_path(d, text::views(results@)),
        ),
{
    let mut out: Vec<ResolvedDependency> = Vec::new();
    for i in 0..deps.len()
        invariant
            out@.len() == i,
            forall|j: int|
                0 <= j < i ==> (#[trigger] out@[j])@ == with_path(
                    deps@[j]@,
                    text::views(results@),
                ),
    {
        let mut d = deps[i].clone();
        if let Some(p) = find_path(results, &deps[i].coord) {
            d.path = Some(p);
        }
        out.push(d);
    }
    assert(text::views(out@) =~= text::views(deps@).map_values(
        |d: ResolvedModel| with_path(d, text::views(results@)),
    ));
    out
}

} // verus!
