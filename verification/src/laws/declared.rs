//! Laws of how the dependencies that a POM declares become the nodes of a tree.
use crate::collect;
use crate::collect::InfoModel;
use crate::collect::KnownMetadata;
use crate::collect::OpenModel;
use crate::collect::WorldModel;
use crate::coord::CoordModel;
use crate::coord::DependencyScope;
use crate::coord::ExclusionModel;
use crate::effective;
use crate::effective::KnownPoms;
use crate::known;
use crate::known::Fetched;
use crate::laws::collect as collect_laws;
use crate::laws::pom as pom_laws;
use crate::laws::resolver as resolver_laws;
use crate::metadata;
use crate::pom;
use crate::pom::DependencyModel;
use crate::pom::EnvironmentModel;
use crate::pom::PomModel;
use crate::resolver::Ga;
use crate::resolver::NodeModel;
use crate::text;
use crate::version;
use vstd::prelude::*;

verus! {

// ---------------------------------------------------------------------------
// What a declaration says
// ---------------------------------------------------------------------------

/// The type that a dependency declares, `jar` where it declares none.
pub open spec fn type_word(d: DependencyModel) -> Seq<char> {
    if d.dep_type is Some {
        d.dep_type->0
    } else {
        "jar"@
    }
}

/// Whether a managed dependency is for the group, the artifact and the type of a dependency.
pub open spec fn manages(m: DependencyModel, d: DependencyModel) -> bool {
    m.group_id == d.group_id && m.artifact_id == d.artifact_id && type_word(m) == type_word(d)
}

/// Whether the managed dependency at a position is the last one for a dependency.
pub open spec fn is_last_for(managed: Seq<DependencyModel>, d: DependencyModel, k: int) -> bool {
    &&& 0 <= k < managed.len()
    &&& manages(managed[k], d)
    &&& forall|j: int| k < j < managed.len() ==> !manages(#[trigger] managed[j], d)
}

/// Whether nothing is managed for a dependency.
pub open spec fn is_unmanaged(managed: Seq<DependencyModel>, d: DependencyModel) -> bool {
    forall|j: int| 0 <= j < managed.len() ==> !manages(#[trigger] managed[j], d)
}

/// The scope that a word stands for, in capitals or not; `compile` where there is none or it
/// stands for no scope.
pub open spec fn scope_word(s: Option<Seq<char>>) -> DependencyScope {
    if s is None {
        DependencyScope::Compile
    } else if text::lower_of(s->0) == "runtime"@ {
        DependencyScope::Runtime
    } else if text::lower_of(s->0) == "test"@ {
        DependencyScope::Test
    } else if text::lower_of(s->0) == "provided"@ {
        DependencyScope::Provided
    } else if text::lower_of(s->0) == "system"@ {
        DependencyScope::System
    } else if text::lower_of(s->0) == "import"@ {
        DependencyScope::Import
    } else {
        DependencyScope::Compile
    }
}

proof fn lemma_last_for(managed: Seq<DependencyModel>, d: DependencyModel) -> (k: int)
    ensures
        match pom::managed_entry(managed, d.group_id, d.artifact_id, type_word(d)) {
            Some(m) => is_last_for(managed, d, k) && managed[k] == m,
            None => is_unmanaged(managed, d),
        },
    decreases managed.len(),
{
    if managed.len() == 0 {
        0
    } else {
        let front = managed.drop_last();
        let n = managed.len() - 1;
        assert(managed[n] == managed.last());
        assert(pom::type_of(managed.last()) == type_word(managed.last()));
        if manages(managed.last(), d) {
            n
        } else {
            let k = lemma_last_for(front, d);
            assert forall|j: int| 0 <= j < n implies #[trigger] managed[j] == front[j] by {}
            k
        }
    }
}

/// Of several managed dependencies for one group, artifact and type, the last one counts.
pub proof fn last_management_counts(managed: Seq<DependencyModel>, d: DependencyModel)
    ensures
        forall|k: int| #[trigger]
            is_last_for(managed, d, k) ==> pom::managed_entry(
                managed,
                d.group_id,
                d.artifact_id,
                type_word(d),
            ) == Some(managed[k]),
        is_unmanaged(managed, d) <==> pom::managed_entry(
            managed,
            d.group_id,
            d.artifact_id,
            type_word(d),
        ) is None,
        pom::managed_entry(managed, d.group_id, d.artifact_id, type_word(d)) is Some ==> exists|
            k: int,
        | #[trigger] is_last_for(managed, d, k),
{
    let last = lemma_last_for(managed, d);
    assert forall|k: int| #[trigger] is_last_for(managed, d, k) implies pom::managed_entry(
        managed,
        d.group_id,
        d.artifact_id,
        type_word(d),
    ) == Some(managed[k]) by {
        assert(manages(managed[k], d));
        if k < last {
            assert(manages(managed[last], d));
        }
    }
}

/// What the dependency management of a POM adds to a dependency: a version where it declares none,
/// a scope where it declares none, and every exclusion beside its own. All else stays as it is
/// declared, and so does a dependency that nothing is managed for.
pub proof fn injection_fills_gaps(d: DependencyModel, managed: Seq<DependencyModel>)
    ensures
        ({
            let r = pom::under_management(d, managed);
            &&& is_unmanaged(managed, d) ==> r == d
            &&& r.group_id == d.group_id && r.artifact_id == d.artifact_id && r.dep_type
                == d.dep_type && r.classifier == d.classifier && r.optional == d.optional
            &&& d.exclusions.is_prefix_of(r.exclusions)
            &&& forall|e: int|
                d.exclusions.len() <= e < r.exclusions.len() ==> !d.exclusions.contains(
                    #[trigger] r.exclusions[e],
                )
            &&& forall|k: int| #[trigger]
                is_last_for(managed, d, k) ==> {
                    &&& r.version == (if d.version is Some {
                        d.version
                    } else {
                        managed[k].version
                    })
                    &&& r.scope == (if d.scope is Some {
                        d.scope
                    } else {
                        managed[k].scope
                    })
                    &&& forall|e: int|
                        0 <= e < managed[k].exclusions.len() ==> r.exclusions.contains(
                            #[trigger] managed[k].exclusions[e],
                        )
                    &&& forall|e: int|
                        0 <= e < r.exclusions.len() ==> d.exclusions.contains(
                            #[trigger] r.exclusions[e],
                        ) || managed[k].exclusions.contains(r.exclusions[e])
                }
        }),
{
    last_management_counts(managed, d);
    pom_laws::management_overrides_nothing(d, managed);
    if let Some(m) = pom::managed_entry(managed, d.group_id, d.artifact_id, type_word(d)) {
        pom_laws::lemma_exclusions_with(d.exclusions, m.exclusions, 0);
        lemma_exclusions_from(d.exclusions, d.exclusions, m.exclusions, 0);
    }
}

proof fn lemma_exclusions_from(
    base: Seq<(Seq<char>, Seq<char>)>,
    own: Seq<(Seq<char>, Seq<char>)>,
    more: Seq<(Seq<char>, Seq<char>)>,
    i: int,
)
    requires
        0 <= i <= more.len(),
        base.is_prefix_of(own),
        forall|e: int|
            base.len() <= e < own.len() ==> !base.contains(#[trigger] own[e]) && more.contains(
                own[e],
            ),
    ensures
        forall|e: int|
            base.len() <= e < pom::exclusions_with(own, more, i).len() ==> !base.contains(
                #[trigger] pom::exclusions_with(own, more, i)[e],
            ) && more.contains(pom::exclusions_with(own, more, i)[e]),
        base.is_prefix_of(pom::exclusions_with(own, more, i)),
        forall|e: int|
            0 <= e < pom::exclusions_with(own, more, i).len() ==> base.contains(
                #[trigger] pom::exclusions_with(own, more, i)[e],
            ) || more.contains(pom::exclusions_with(own, more, i)[e]),
    decreases more.len() - i,
{
    if i >= more.len() {
        assert forall|e: int| 0 <= e < own.len() implies base.contains(#[trigger] own[e])
            || more.contains(own[e]) by {
            if e < base.len() {
                assert(base[e] == own[e]);
            }
        }
    } else if own.contains(more[i]) {
        lemma_exclusions_from(base, own, more, i + 1);
    } else {
        let next = own.push(more[i]);
        assert(base =~= next.subrange(0, base.len() as int));
        assert forall|e: int| base.len() <= e < next.len() implies !base.contains(
            #[trigger] next[e],
        ) && more.contains(next[e]) by {
            if e == own.len() {
                assert(more[i] == next[e]);
                if base.contains(next[e]) {
                    let b = choose|b: int| 0 <= b < base.len() && base[b] == next[e];
                    assert(own[b] == base[b]);
                }
            } else {
                assert(next[e] == own[e]);
            }
        }
        lemma_exclusions_from(base, next, more, i + 1);
    }
}

/// Injecting the dependency management of a POM treats each of its dependencies by itself and
/// changes nothing else.
pub proof fn injection_treats_each_dependency(pom: PomModel)
    ensures
        ({
            let r = pom::injected(pom);
            &&& r.dependencies.len() == pom.dependencies.len()
            &&& forall|i: int|
                0 <= i < r.dependencies.len() ==> #[trigger] r.dependencies[i] == (
                match pom.dependency_management {
                    Some(managed) => pom::under_management(pom.dependencies[i], managed),
                    None => pom.dependencies[i],
                })
            &&& r == (PomModel { dependencies: r.dependencies, ..pom })
        }),
{
}

// ---------------------------------------------------------------------------
// From a declaration to a node
// ---------------------------------------------------------------------------

/// What the root's management makes of the version that a dependency declares: where it manages
/// the dependency, its version counts.
pub open spec fn version_wanted(managed: Seq<DependencyModel>, d: DependencyModel, k: int) -> Option<
    Seq<char>,
> {
    if is_last_for(managed, d, k) {
        managed[k].version
    } else {
        d.version
    }
}

/// What the root's management makes of the scope that a dependency declares: for transitive
/// dependencies its scope counts where it names one.
pub open spec fn scope_wanted(
    managed: Seq<DependencyModel>,
    d: DependencyModel,
    k: int,
    transitive: bool,
) -> DependencyScope {
    if is_last_for(managed, d, k) && transitive && managed[k].scope is Some {
        scope_word(managed[k].scope)
    } else {
        scope_word(d.scope)
    }
}

/// The position of what the root manages for a dependency, or a position outside of the list.
pub open spec fn managed_at(managed: Seq<DependencyModel>, d: DependencyModel, k: int) -> bool {
    is_last_for(managed, d, k) || (k == -1 && is_unmanaged(managed, d))
}

/// Whether a text begins with the bracket of a range.
pub open spec fn begins_range(v: Seq<char>) -> bool {
    v.len() > 0 && (v[0] == '[' || v[0] == '(')
}

/// Whether a version is one that a wanted text stands for: the text itself, or for a range a
/// version in it that is no snapshot.
pub open spec fn stands_for(v: Seq<char>, wanted: Seq<char>) -> bool {
    if begins_range(wanted) {
        version::constraint_of(wanted) matches Ok(c) && version::constraint_holds(c, v)
            && !text::holds_text(v, "SNAPSHOT"@)
    } else {
        v == wanted
    }
}

/// Whether a pattern matches an artifact: each part names it, or is a wildcard.
pub open spec fn matches_artifact(
    e: (Seq<char>, Seq<char>),
    group_id: Seq<char>,
    artifact_id: Seq<char>,
) -> bool {
    (e.0 == "*"@ || e.0 == group_id) && (e.1 == "*"@ || e.1 == artifact_id)
}

/// Whether nothing below a node, at any depth, matches a pattern.
pub open spec fn nothing_below(n: NodeModel, e: (Seq<char>, Seq<char>)) -> bool
    decreases n,
{
    forall|i: int|
        0 <= i < n.children.len() ==> !matches_artifact(
            e,
            (#[trigger] n.children[i]).coord.group_id,
            n.children[i].coord.artifact_id,
        ) && nothing_below(n.children[i], e)
}

/// The scope that a dependency has in the root below a node with a scope, if it is passed on.
pub open spec fn scope_in_root(
    above: Option<DependencyScope>,
    scope: DependencyScope,
) -> Option<DependencyScope> {
    if above is None {
        Some(scope)
    } else if (scope == DependencyScope::Compile || scope == DependencyScope::Runtime) && above->0
        != DependencyScope::System && above->0 != DependencyScope::Import {
        Some(
            if above->0 == DependencyScope::Compile {
                scope
            } else {
                above->0
            },
        )
    } else {
        None
    }
}

/// Whether a node is that of a declared dependency, below a node with the scope `above`:
/// - it has the group, the artifact, the classifier and the type that are declared;
/// - it has the version and the scope that are declared or that the root manages;
/// - where something stands below it, it holds every exclusion that is declared or that the root
///   manages;
/// - nothing below it matches such an exclusion.
pub open spec fn comes_from(
    managed: Seq<DependencyModel>,
    d: DependencyModel,
    above: Option<DependencyScope>,
    n: NodeModel,
) -> bool {
    &&& n.coord.group_id == d.group_id
    &&& n.coord.artifact_id == d.artifact_id
    &&& n.coord.classifier == d.classifier
    &&& n.coord.extension == type_word(d)
    &&& !n.optional
    &&& forall|e: int|
        0 <= e < d.exclusions.len() ==> nothing_below(n, #[trigger] d.exclusions[e])
    &&& exists|k: int| #[trigger]
        managed_at(managed, d, k) && {
            &&& version_wanted(managed, d, k) matches Some(v) && stands_for(n.coord.version, v)
            &&& n.scope == scope_wanted(managed, d, k, above is Some)
            &&& is_last_for(managed, d, k) ==> forall|e: int|
                0 <= e < managed[k].exclusions.len() ==> nothing_below(
                    n,
                    #[trigger] managed[k].exclusions[e],
                )
        }
}

/// Whether a dependency is left out, below a node with the given scope and exclusions: it is
/// optional, an import or a system file, its scope is not passed on, it has no version that can be
/// looked up, its range has no version to offer, or it is excluded.
pub open spec fn is_left_out(
    w: WorldModel,
    d: DependencyModel,
    above: Option<DependencyScope>,
    exclusions: Seq<ExclusionModel>,
) -> bool {
    exists|k: int| #[trigger]
        managed_at(w.managed, d, k) && {
            let scope = scope_wanted(w.managed, d, k, above is Some);
            let v = version_wanted(w.managed, d, k);
            ||| d.optional == Some("true"@)
            ||| scope == DependencyScope::Import
            ||| scope == DependencyScope::System
            ||| scope_in_root(above, scope) is None
            ||| v is None
            ||| v->0.len() == 0
            ||| text::holds_text(v->0, "${"@)
            ||| (begins_range(v->0) && offers_nothing(v->0, d, w.metadata))
            ||| exists|e: int|
                0 <= e < exclusions.len() && matches_artifact(
                    ((#[trigger] exclusions[e]).group_id, exclusions[e].artifact_id),
                    d.group_id,
                    d.artifact_id,
                )
        }
}

/// Whether the range of a dependency has no version to offer: it cannot be read, the metadata of
/// the artifact cannot be had, or it lists no version that the range stands for.
pub open spec fn offers_nothing(
    range: Seq<char>,
    d: DependencyModel,
    metadata: KnownMetadata,
) -> bool {
    ||| version::constraint_of(range) is Err
    ||| known::outcome(metadata, d.group_id + ":"@ + d.artifact_id) matches Some(Fetched::Failed)
    ||| known::outcome(metadata, d.group_id + ":"@ + d.artifact_id) matches Some(
        Fetched::Found(m),
    ) && forall|i: int|
        0 <= i < metadata::versions_of(m).len() ==> !stands_for(
            #[trigger] metadata::versions_of(m)[i],
            range,
        )
}

/// Whether nodes are those of declared dependencies, in the order of the declarations: `places`
/// says of each node where its dependency is declared, and what is declared elsewhere is left out.
pub open spec fn follow(
    w: WorldModel,
    deps: Seq<DependencyModel>,
    above: Option<DependencyScope>,
    exclusions: Seq<ExclusionModel>,
    nodes: Seq<NodeModel>,
    places: Seq<int>,
) -> bool {
    &&& places.len() == nodes.len()
    &&& forall|i: int| 0 <= i < places.len() ==> 0 <= #[trigger] places[i] < deps.len()
    &&& forall|i: int, j: int|
        0 <= i < j < places.len() ==> #[trigger] places[i] < #[trigger] places[j]
    &&& forall|i: int|
        0 <= i < nodes.len() ==> comes_from(
            w.managed,
            deps[places[i]],
            above,
            #[trigger] nodes[i],
        )
    &&& forall|j: int|
        0 <= j < deps.len() && !places.contains(j) ==> is_left_out(
            w,
            #[trigger] deps[j],
            above,
            exclusions,
        )
}

/// Whether nodes are those of declared dependencies.
pub open spec fn nodes_follow(
    w: WorldModel,
    deps: Seq<DependencyModel>,
    above: Option<DependencyScope>,
    exclusions: Seq<ExclusionModel>,
    nodes: Seq<NodeModel>,
) -> bool {
    exists|places: Seq<int>| #[trigger] follow(w, deps, above, exclusions, nodes, places)
}

/// What holds of a dependency that was selected, apart from what stands below it.
spec fn info_from(
    managed: Seq<DependencyModel>,
    d: DependencyModel,
    above: Option<DependencyScope>,
    exclusions: Seq<ExclusionModel>,
    info: InfoModel,
) -> bool {
    &&& info.coord.group_id == d.group_id
    &&& info.coord.artifact_id == d.artifact_id
    &&& info.coord.classifier == d.classifier
    &&& info.coord.extension == type_word(d)
    &&& scope_in_root(above, info.scope) == Some(info.reached)
    &&& info.recurse ==> info.child_exclusions == exclusions + info.exclusions
    &&& forall|e: int|
        0 <= e < d.exclusions.len() ==> has_exclusion(info.exclusions, #[trigger] d.exclusions[e])
    &&& exists|k: int| #[trigger]
        managed_at(managed, d, k) && {
            &&& version_wanted(managed, d, k) matches Some(v) && stands_for(info.coord.version, v)
            &&& info.scope == scope_wanted(managed, d, k, above is Some)
            &&& is_last_for(managed, d, k) ==> forall|e: int|
                0 <= e < managed[k].exclusions.len() ==> has_exclusion(
                    info.exclusions,
                    #[trigger] managed[k].exclusions[e],
                )
        }
}

spec fn has_exclusion(l: Seq<ExclusionModel>, e: (Seq<char>, Seq<char>)) -> bool {
    l.contains(ExclusionModel { group_id: e.0, artifact_id: e.1 })
}

proof fn lemma_scope_word(d: DependencyModel)
    ensures
        collect::declared_scope(d) == scope_word(d.scope),
{
    reveal_strlit("compile");
    reveal_strlit("runtime");
    reveal_strlit("test");
    reveal_strlit("provided");
    reveal_strlit("system");
    reveal_strlit("import");
    assert("compile"@[0] == 'c' && "runtime"@[0] == 'r' && "test"@[0] == 't' && "provided"@[0]
        == 'p' && "system"@[0] == 's' && "import"@[0] == 'i');
}

proof fn lemma_scope_in_root(above: Option<DependencyScope>, scope: DependencyScope)
    ensures
        collect::reached_scope(above, scope) == scope_in_root(above, scope),
{
}

/// What the root's management makes of a dependency.
proof fn lemma_overridden(
    d: DependencyModel,
    managed: Seq<DependencyModel>,
    transitive: bool,
) -> (k: int)
    ensures
        managed_at(managed, d, k),
        ({
            let r = collect::overridden(d, managed, transitive);
            &&& r.group_id == d.group_id && r.artifact_id == d.artifact_id && r.classifier
                == d.classifier && r.optional == d.optional && type_word(r) == type_word(d)
            &&& r.version == version_wanted(managed, d, k)
            &&& scope_word(r.scope) == scope_wanted(managed, d, k, transitive)
            &&& forall|e: int|
                0 <= e < d.exclusions.len() ==> r.exclusions.contains(#[trigger] d.exclusions[e])
            &&& is_last_for(managed, d, k) ==> forall|e: int|
                0 <= e < managed[k].exclusions.len() ==> r.exclusions.contains(
                    #[trigger] managed[k].exclusions[e],
                )
        }),
{
    let last = lemma_last_for(managed, d);
    let r = collect::overridden(d, managed, transitive);
    match pom::managed_entry(managed, d.group_id, d.artifact_id, type_word(d)) {
        Some(m) => {
            pom_laws::lemma_exclusions_with(d.exclusions, m.exclusions, 0);
            let all = pom::exclusions_with(d.exclusions, m.exclusions, 0);
            assert(r.exclusions == all);
            assert forall|e: int| 0 <= e < d.exclusions.len() implies all.contains(
                #[trigger] d.exclusions[e],
            ) by {
                assert(all.take(d.exclusions.len() as int)[e] == all[e]);
            }
            last
        },
        None => {
            assert(r == d);
            assert forall|e: int| 0 <= e < d.exclusions.len() implies r.exclusions.contains(
                #[trigger] d.exclusions[e],
            ) by {}
            assert(!is_last_for(managed, d, -1));
            -1
        },
    }
}

proof fn lemma_info_from(
    w: WorldModel,
    d: DependencyModel,
    above: Option<DependencyScope>,
    exclusions: Seq<ExclusionModel>,
    visited: Set<Ga>,
    v: Seq<char>,
)
    requires
        ({
            let r = collect::overridden(d, w.managed, above is Some);
            &&& collect::takes_part(r, above)
            &&& collect::chosen_version(r, w.metadata) == Some(Some(v))
        }),
    ensures
        info_from(
            w.managed,
            d,
            above,
            exclusions,
            collect::info_of(
                collect::overridden(d, w.managed, above is Some),
                v,
                above,
                exclusions,
                visited,
            ),
        ),
{
    let r = collect::overridden(d, w.managed, above is Some);
    let info = collect::info_of(r, v, above, exclusions, visited);
    let k = lemma_overridden(d, w.managed, above is Some);
    lemma_scope_word(r);
    lemma_scope_in_root(above, collect::declared_scope(r));
    collect_laws::lemma_chosen_version(r, w.metadata);
    assert(managed_at(w.managed, d, k));
    assert(stands_for(v, version_wanted(w.managed, d, k)->0));
    assert forall|e: int| 0 <= e < d.exclusions.len() implies has_exclusion(
        info.exclusions,
        #[trigger] d.exclusions[e],
    ) by {
        lemma_exclusion_listed(r, d.exclusions[e]);
    }
    if is_last_for(w.managed, d, k) {
        assert forall|e: int| 0 <= e < w.managed[k].exclusions.len() implies has_exclusion(
            info.exclusions,
            #[trigger] w.managed[k].exclusions[e],
        ) by {
            lemma_exclusion_listed(r, w.managed[k].exclusions[e]);
        }
    }
}

proof fn lemma_exclusion_listed(d: DependencyModel, e: (Seq<char>, Seq<char>))
    requires
        d.exclusions.contains(e),
    ensures
        has_exclusion(collect::exclusions_of(d), e),
{
    let i = choose|i: int| 0 <= i < d.exclusions.len() && d.exclusions[i] == e;
    assert(collect::exclusions_of(d)[i] == (ExclusionModel { group_id: e.0, artifact_id: e.1 }));
}

proof fn lemma_left_out(
    w: WorldModel,
    d: DependencyModel,
    above: Option<DependencyScope>,
    exclusions: Seq<ExclusionModel>,
)
    requires
        ({
            let r = collect::overridden(d, w.managed, above is Some);
            ||| !collect::takes_part(r, above)
            ||| collect::chosen_version(r, w.metadata) == Some(None::<Seq<char>>)
            ||| collect::any_excludes(exclusions, d.group_id, d.artifact_id)
        }),
    ensures
        is_left_out(w, d, above, exclusions),
{
    let r = collect::overridden(d, w.managed, above is Some);
    let k = lemma_overridden(d, w.managed, above is Some);
    lemma_scope_word(r);
    lemma_scope_in_root(above, collect::declared_scope(r));
    assert(managed_at(w.managed, d, k));
    let v = version_wanted(w.managed, d, k);
    if collect::takes_part(r, above) && collect::chosen_version(r, w.metadata) == Some(
        None::<Seq<char>>,
    ) {
        let t = collect::wanted_version(r);
        if v is Some && v->0.len() > 0 && !text::holds_text(v->0, "${"@) {
            assert(begins_range(t));
            if let Ok(c) = version::constraint_of(t) {
                if let Some(Fetched::Found(m)) = known::outcome(
                    w.metadata,
                    collect::ga_key(d.group_id, d.artifact_id),
                ) {
                    let vs = metadata::versions_of(m);
                    collect_laws::selected_version_satisfies(vs, c);
                    assert forall|i: int| 0 <= i < vs.len() implies !stands_for(
                        #[trigger] vs[i],
                        t,
                    ) by {
                        assert(!collect::eligible(vs[i], c));
                    }
                }
            }
            assert(offers_nothing(t, d, w.metadata));
        }
    }
    if collect::any_excludes(exclusions, d.group_id, d.artifact_id) {
        let e = choose|e: int|
            0 <= e < exclusions.len() && crate::coord::excludes(
                #[trigger] exclusions[e],
                d.group_id,
                d.artifact_id,
            );
        assert(matches_artifact(
            (exclusions[e].group_id, exclusions[e].artifact_id),
            d.group_id,
            d.artifact_id,
        ));
    }
}

/// Where the dependencies that are selected are declared.
spec fn info_places(
    w: WorldModel,
    deps: Seq<DependencyModel>,
    i: int,
    above: Option<DependencyScope>,
    exclusions: Seq<ExclusionModel>,
    visited: Set<Ga>,
    infos: Seq<InfoModel>,
    places: Seq<int>,
) -> bool {
    &&& places.len() == infos.len()
    &&& forall|k: int| 0 <= k < places.len() ==> i <= #[trigger] places[k] < deps.len()
    &&& forall|k: int, j: int|
        0 <= k < j < places.len() ==> #[trigger] places[k] < #[trigger] places[j]
    &&& forall|k: int|
        0 <= k < infos.len() ==> info_from(
            w.managed,
            deps[places[k]],
            above,
            exclusions,
            #[trigger] infos[k],
        )
    &&& forall|k: int|
        0 <= k < infos.len() ==> ((#[trigger] infos[k]).recurse <==> !visited.contains(
            collect_laws::info_ga(infos[k]),
        ) && forall|j: int| 0 <= j < k ==> collect_laws::info_ga(#[trigger] infos[j]) != collect_laws::info_ga(infos[k]))
    &&& forall|j: int|
        i <= j < deps.len() && !places.contains(j) ==> is_left_out(
            w,
            #[trigger] deps[j],
            above,
            exclusions,
        )
}

proof fn lemma_places(
    w: WorldModel,
    deps: Seq<DependencyModel>,
    i: int,
    above: Option<DependencyScope>,
    exclusions: Seq<ExclusionModel>,
    visited: Set<Ga>,
) -> (places: Seq<int>)
    requires
        0 <= i <= deps.len(),
        collect::selected(deps, i, above, exclusions, visited, w.managed, w.metadata) is Some,
    ensures
        ({
            let (infos, _) = collect::selected(
                deps,
                i,
                above,
                exclusions,
                visited,
                w.managed,
                w.metadata,
            )->0;
            info_places(w, deps, i, above, exclusions, visited, infos, places)
        }),
    decreases deps.len() - i,
{
    if i >= deps.len() {
        Seq::empty()
    } else {
        let d = deps[i];
        let r = collect::overridden(d, w.managed, above is Some);
        let k = lemma_overridden(d, w.managed, above is Some);
        let version = collect::chosen_version(r, w.metadata);
        let passed = !collect::takes_part(r, above) || version == Some(None::<Seq<char>>)
            || collect::any_excludes(exclusions, r.group_id, r.artifact_id);
        if passed {
            lemma_left_out(w, d, above, exclusions);
            let places = lemma_places(w, deps, i + 1, above, exclusions, visited);
            assert forall|j: int| i <= j < deps.len() && !places.contains(j) implies is_left_out(
                w,
                #[trigger] deps[j],
                above,
                exclusions,
            ) by {}
            places
        } else {
            let v = version->0->0;
            let ga = (d.group_id, d.artifact_id);
            let later = visited.insert(ga);
            lemma_info_from(w, d, above, exclusions, visited, v);
            let first = collect::info_of(r, v, above, exclusions, visited);
            let (rest, _) = collect::selected(
                deps,
                i + 1,
                above,
                exclusions,
                later,
                w.managed,
                w.metadata,
            )->0;
            let tail = lemma_places(w, deps, i + 1, above, exclusions, later);
            let infos = seq![first] + rest;
            let places = seq![i] + tail;
            assert(collect_laws::info_ga(first) == ga);
            assert forall|k: int| 0 <= k < places.len() implies i <= #[trigger] places[k]
                < deps.len() by {
                if k > 0 {
                    assert(places[k] == tail[k - 1]);
                }
            }
            assert forall|k: int, j: int| 0 <= k < j < places.len() implies #[trigger] places[k]
                < #[trigger] places[j] by {
                assert(places[j] == tail[j - 1]);
                if k > 0 {
                    assert(places[k] == tail[k - 1]);
                }
            }
            assert forall|k: int| 0 <= k < infos.len() implies info_from(
                w.managed,
                deps[places[k]],
                above,
                exclusions,
                #[trigger] infos[k],
            ) by {
                if k > 0 {
                    assert(infos[k] == rest[k - 1]);
                    assert(places[k] == tail[k - 1]);
                }
            }
            assert forall|k: int| 0 <= k < infos.len() implies ((#[trigger] infos[k]).recurse
                <==> !visited.contains(collect_laws::info_ga(infos[k])) && forall|j: int|
                0 <= j < k ==> collect_laws::info_ga(#[trigger] infos[j]) != collect_laws::info_ga(infos[k])) by {
                if k > 0 {
                    assert(infos[k] == rest[k - 1]);
                    assert(infos[0] == first);
                    if infos[k].recurse {
                        assert forall|j: int| 0 <= j < k implies collect_laws::info_ga(#[trigger] infos[j])
                            != collect_laws::info_ga(infos[k]) by {
                            if j > 0 {
                                assert(infos[j] == rest[j - 1]);
                            }
                        }
                    } else if !visited.contains(collect_laws::info_ga(infos[k])) && collect_laws::info_ga(infos[0]) != collect_laws::info_ga(
                        infos[k],
                    ) {
                        let j = choose|j: int|
                            0 <= j < k - 1 && collect_laws::info_ga(#[trigger] rest[j]) == collect_laws::info_ga(rest[k - 1]);
                        assert(infos[j + 1] == rest[j]);
                    }
                }
            }
            assert forall|j: int| i <= j < deps.len() && !places.contains(j) implies is_left_out(
                w,
                #[trigger] deps[j],
                above,
                exclusions,
            ) by {
                if j == i {
                    assert(places[0] == i);
                } else if tail.contains(j) {
                    let h = choose|h: int| 0 <= h < tail.len() && tail[h] == j;
                    assert(places[h + 1] == j);
                }
            }
            places
        }
    }
}

// ---------------------------------------------------------------------------
// Levels
// ---------------------------------------------------------------------------

/// Whether just those dependencies are opened whose artifact is met for the first time.
spec fn fresh(infos: Seq<InfoModel>, visited: Set<Ga>) -> bool {
    forall|k: int|
        0 <= k < infos.len() ==> ((#[trigger] infos[k]).recurse <==> !visited.contains(
            collect_laws::info_ga(infos[k]),
        ) && forall|j: int|
            0 <= j < k ==> collect_laws::info_ga(#[trigger] infos[j]) != collect_laws::info_ga(
                infos[k],
            ))
}

spec fn group_follows(w: WorldModel, open: OpenModel, infos: Seq<InfoModel>) -> bool {
    exists|places: Seq<int>, visited: Set<Ga>| #[trigger]
        info_places(
            w,
            open.dependencies,
            0,
            open.scope,
            open.exclusions,
            visited,
            infos,
            places,
        )
}

proof fn lemma_fresh_add(
    a: Seq<InfoModel>,
    b: Seq<InfoModel>,
    visited: Set<Ga>,
    middle: Set<Ga>,
)
    requires
        fresh(a, visited),
        fresh(b, middle),
        collect_laws::in_order(a, visited, middle),
    ensures
        fresh(a + b, visited),
{
    let all = a + b;
    assert forall|k: int| 0 <= k < all.len() implies ((#[trigger] all[k]).recurse
        <==> !visited.contains(collect_laws::info_ga(all[k])) && forall|j: int|
        0 <= j < k ==> collect_laws::info_ga(#[trigger] all[j]) != collect_laws::info_ga(
            all[k],
        )) by {
        if k < a.len() {
            assert(all[k] == a[k]);
            assert forall|j: int| 0 <= j < k implies #[trigger] all[j] == a[j] by {}
            if forall|j: int|
                0 <= j < k ==> collect_laws::info_ga(#[trigger] all[j]) != collect_laws::info_ga(
                    all[k],
                ) {
                assert forall|j: int| 0 <= j < k implies collect_laws::info_ga(#[trigger] a[j])
                    != collect_laws::info_ga(a[k]) by {
                    assert(all[j] == a[j]);
                }
            }
        } else {
            let h = k - a.len();
            let ga = collect_laws::info_ga(all[k]);
            assert(all[k] == b[h]);
            assert(middle.contains(ga) <==> visited.contains(ga) || exists|x: int|
                0 <= x < a.len() && collect_laws::info_ga(#[trigger] a[x]) == ga);
            if all[k].recurse {
                assert forall|j: int| 0 <= j < k implies collect_laws::info_ga(#[trigger] all[j])
                    != ga by {
                    if j < a.len() {
                        assert(all[j] == a[j]);
                    } else {
                        assert(all[j] == b[j - a.len()]);
                    }
                }
            } else if !visited.contains(ga) {
                if middle.contains(ga) {
                    let x = choose|x: int|
                        0 <= x < a.len() && collect_laws::info_ga(#[trigger] a[x]) == ga;
                    assert(all[x] == a[x]);
                } else {
                    let x = choose|x: int|
                        0 <= x < h && collect_laws::info_ga(#[trigger] b[x])
                            == collect_laws::info_ga(b[h]);
                    assert(all[a.len() + x] == b[x]);
                }
            }
        }
    }
}

proof fn lemma_level_follows(w: WorldModel, opens: Seq<OpenModel>, k: int, visited: Set<Ga>)
    requires
        0 <= k <= opens.len(),
        collect::level_from(w, opens, k, visited) is Some,
    ensures
        ({
            let (groups, met) = collect::level_from(w, opens, k, visited)->0;
            &&& groups.len() == opens.len() - k
            &&& fresh(collect::all_of(groups), visited)
            &&& forall|g: int|
                0 <= g < groups.len() ==> group_follows(w, opens[k + g], #[trigger] groups[g])
        }),
    decreases opens.len() - k,
{
    if k < opens.len() {
        let open = opens[k];
        let (infos, middle) = collect::infos_below(w, open, visited)->0;
        let places = lemma_places(
            w,
            open.dependencies,
            0,
            open.scope,
            open.exclusions,
            visited,
        );
        collect_laws::lemma_selected_in_order(
            w,
            open.dependencies,
            0,
            open.scope,
            open.exclusions,
            visited,
        );
        lemma_level_follows(w, opens, k + 1, middle);
        let (rest, met) = collect::level_from(w, opens, k + 1, middle)->0;
        let groups = seq![infos] + rest;
        assert(groups.skip(1) =~= rest);
        assert(groups[0] == infos);
        lemma_fresh_add(infos, collect::all_of(rest), visited, middle);
        assert forall|g: int| 0 <= g < groups.len() implies group_follows(
            w,
            opens[k + g],
            #[trigger] groups[g],
        ) by {
            if g > 0 {
                assert(groups[g] == rest[g - 1]);
                assert(k + g == (k + 1) + (g - 1));
            }
        }
    }
}

/// A node with the scope that it has in the root and the exclusions that hold below it.
#[verifier::ext_equal]
pub struct Placed {
    pub node: NodeModel,
    pub scope: DependencyScope,
    pub exclusions: Seq<ExclusionModel>,
}

/// Nodes below one with the given scope, if any, and exclusions.
pub open spec fn placed_below(
    nodes: Seq<NodeModel>,
    above: Option<DependencyScope>,
    exclusions: Seq<ExclusionModel>,
) -> Seq<Placed> {
    Seq::new(
        nodes.len(),
        |i: int|
            Placed {
                node: nodes[i],
                scope: scope_in_root(above, nodes[i].scope)->0,
                exclusions: exclusions + nodes[i].exclusions,
            },
    )
}

/// The nodes right below those of a level, in order.
pub open spec fn placed_next(level: Seq<Placed>) -> Seq<Placed> {
    collect::all_of(
        Seq::new(
            level.len(),
            |i: int|
                placed_below(level[i].node.children, Some(level[i].scope), level[i].exclusions),
        ),
    )
}

/// The artifacts of a level.
pub open spec fn placed_artifacts(level: Seq<Placed>) -> Set<Ga> {
    level.map_values(|p: Placed| resolver_laws::artifact_at(p.node)).to_set()
}

/// Whether the node at a place of a level is the first of its artifact: it was not met in a level
/// above, nor further to the front.
pub open spec fn is_first(level: Seq<Placed>, seen: Set<Ga>, i: int) -> bool {
    &&& !seen.contains(resolver_laws::artifact_at(level[i].node))
    &&& forall|j: int|
        0 <= j < i ==> resolver_laws::artifact_at((#[trigger] level[j]).node)
            != resolver_laws::artifact_at(level[i].node)
}

/// Whether below every node of a level stand just the dependencies that it has, as far as they are
/// not left out, and nothing where the artifact was met before or its POM cannot be had. This is
/// said of the level and of all those below it, of which `levels` may follow.
pub open spec fn grown(w: WorldModel, level: Seq<Placed>, seen: Set<Ga>, levels: nat) -> bool
    decreases levels,
{
    &&& forall|i: int|
        0 <= i < level.len() ==> {
            let n = (#[trigger] level[i]).node;
            if levels > 0 && is_first(level, seen, i) {
                match collect::pom_below(w, n.coord) {
                    Some(Some(p)) => nodes_follow(
                        w,
                        p.dependencies,
                        Some(level[i].scope),
                        level[i].exclusions,
                        n.children,
                    ),
                    _ => n.children.len() == 0,
                }
            } else {
                n.children.len() == 0
            }
        }
    &&& levels > 0 ==> grown(
        w,
        placed_next(level),
        seen.union(placed_artifacts(level)),
        (levels - 1) as nat,
    )
}

proof fn lemma_nothing_below(
    w: WorldModel,
    above: Option<DependencyScope>,
    exclusions: Seq<ExclusionModel>,
    visited: Set<Ga>,
    n: NodeModel,
    e: (Seq<char>, Seq<char>),
)
    requires
        collect_laws::proper(w, above, exclusions, visited, n),
        has_exclusion(exclusions + n.exclusions, e),
    ensures
        nothing_below(n, e),
    decreases n,
{
    let here = exclusions + n.exclusions;
    let x = ExclusionModel { group_id: e.0, artifact_id: e.1 };
    let at = choose|at: int| 0 <= at < here.len() && here[at] == x;
    assert forall|i: int| 0 <= i < n.children.len() implies !matches_artifact(
        e,
        (#[trigger] n.children[i]).coord.group_id,
        n.children[i].coord.artifact_id,
    ) && nothing_below(n.children[i], e) by {
        let c = n.children[i];
        let s = collect::reached_scope(above, n.scope);
        let v = visited.insert(resolver_laws::artifact_at(n));
        assert(collect_laws::proper(w, s, here, v, c));
        if matches_artifact(e, c.coord.group_id, c.coord.artifact_id) {
            assert(crate::coord::excludes(here[at], c.coord.group_id, c.coord.artifact_id));
        }
        assert((here + c.exclusions)[at] == x);
        lemma_nothing_below(w, s, here, v, c, e);
    }
}

/// The node of a selected dependency comes from the declaration that the dependency comes from.
proof fn lemma_node_from(
    w: WorldModel,
    d: DependencyModel,
    above: Option<DependencyScope>,
    exclusions: Seq<ExclusionModel>,
    visited: Set<Ga>,
    info: InfoModel,
    n: NodeModel,
)
    requires
        info_from(w.managed, d, above, exclusions, info),
        n == collect::node_of(info, n.children),
        !info.recurse ==> n.children.len() == 0,
        collect_laws::proper(w, above, exclusions, visited, n),
    ensures
        comes_from(w.managed, d, above, n),
{
    assert forall|e: (Seq<char>, Seq<char>)|
        has_exclusion(info.exclusions, e) implies #[trigger] nothing_below(n, e) by {
        if info.recurse {
            let x = ExclusionModel { group_id: e.0, artifact_id: e.1 };
            let i = choose|i: int| 0 <= i < info.exclusions.len() && info.exclusions[i] == x;
            assert((exclusions + n.exclusions)[exclusions.len() + i] == x);
            lemma_nothing_below(w, above, exclusions, visited, n, e);
        }
    }
    let k = choose|k: int| #[trigger]
        managed_at(w.managed, d, k) && {
            &&& version_wanted(w.managed, d, k) matches Some(v) && stands_for(
                info.coord.version,
                v,
            )
            &&& info.scope == scope_wanted(w.managed, d, k, above is Some)
            &&& is_last_for(w.managed, d, k) ==> forall|e: int|
                0 <= e < w.managed[k].exclusions.len() ==> has_exclusion(
                    info.exclusions,
                    #[trigger] w.managed[k].exclusions[e],
                )
        };
    assert(managed_at(w.managed, d, k));
    assert forall|e: int| 0 <= e < d.exclusions.len() implies nothing_below(
        n,
        #[trigger] d.exclusions[e],
    ) by {
        assert(has_exclusion(info.exclusions, d.exclusions[e]));
    }
    if is_last_for(w.managed, d, k) {
        assert forall|e: int| 0 <= e < w.managed[k].exclusions.len() implies nothing_below(
            n,
            #[trigger] w.managed[k].exclusions[e],
        ) by {
            assert(has_exclusion(info.exclusions, w.managed[k].exclusions[e]));
        }
    }
}

/// The nodes of all groups of a level, as they stand below the open nodes.
spec fn placed_of(opens: Seq<OpenModel>, below: Seq<Seq<NodeModel>>) -> Seq<Seq<Placed>> {
    Seq::new(
        opens.len(),
        |k: int| placed_below(below[k], opens[k].scope, opens[k].exclusions),
    )
}

/// Whether the nodes of a level are those of its dependencies: with the scope that they have in
/// the root, and where they are opened with the exclusions that hold below them; and just the
/// first ones of their artifacts are opened.
spec fn level_matches(
    level: Seq<Placed>,
    all: Seq<InfoModel>,
    below: Seq<Seq<NodeModel>>,
    visited: Set<Ga>,
) -> bool {
    &&& level.len() == all.len()
    &&& below.len() == all.len()
    &&& forall|i: int|
        0 <= i < level.len() ==> (#[trigger] level[i]).node == collect::node_of(all[i], below[i])
            && level[i].scope == all[i].reached && (all[i].recurse ==> level[i].exclusions
            == all[i].child_exclusions) && is_first(level, visited, i) == all[i].recurse
}

proof fn lemma_level_matches(
    w: WorldModel,
    opens: Seq<OpenModel>,
    visited: Set<Ga>,
    groups: Seq<Seq<InfoModel>>,
    met: Set<Ga>,
    below: Seq<Seq<NodeModel>>,
)
    requires
        groups.len() == opens.len(),
        below.len() == collect::all_of(groups).len(),
        fresh(collect::all_of(groups), visited),
        collect_laws::in_order(collect::all_of(groups), visited, met),
        forall|g: int|
            0 <= g < groups.len() ==> group_follows(w, opens[0 + g], #[trigger] groups[g]),
    ensures
        ({
            let all = collect::all_of(groups);
            let result = collect::grouped(groups, collect::nodes_of(all, below));
            let level = collect::all_of(placed_of(opens, result));
            level_matches(level, all, below, visited) && met == visited.union(
                placed_artifacts(level),
            )
        }),
{
    let all = collect::all_of(groups);
    let nodes = collect::nodes_of(all, below);
    let result = collect::grouped(groups, nodes);
    let level = collect::all_of(placed_of(opens, result));
    assert forall|g: int| 0 <= g < groups.len() implies group_follows(
        w,
        opens[g],
        #[trigger] groups[g],
    ) by {
        assert(group_follows(w, opens[0 + g], groups[g]));
    }
    lemma_placed_level(w, opens, groups, nodes, result);
    let gas = level.map_values(|p: Placed| resolver_laws::artifact_at(p.node));
    assert forall|i: int| 0 <= i < level.len() implies resolver_laws::artifact_at(
        (#[trigger] level[i]).node,
    ) == collect_laws::info_ga(all[i]) && gas[i] == collect_laws::info_ga(all[i]) by {
        assert(level[i].node == nodes[i]);
    }
    assert forall|ga: Ga| #[trigger] met.contains(ga) <==> visited.union(
        placed_artifacts(level),
    ).contains(ga) by {
        if exists|k: int| 0 <= k < all.len() && collect_laws::info_ga(#[trigger] all[k]) == ga {
            let k = choose|k: int|
                0 <= k < all.len() && collect_laws::info_ga(#[trigger] all[k]) == ga;
            assert(level[k].node == nodes[k]);
            assert(gas[k] == ga);
            assert(gas.contains(ga));
        }
        if gas.contains(ga) {
            let k = choose|k: int| 0 <= k < gas.len() && gas[k] == ga;
            assert(level[k].node == nodes[k]);
            assert(collect_laws::info_ga(all[k]) == ga);
        }
    }
    assert(met =~= visited.union(placed_artifacts(level)));
    assert forall|i: int| 0 <= i < level.len() implies (#[trigger] level[i]).node
        == collect::node_of(all[i], below[i]) && level[i].scope == all[i].reached && (
    all[i].recurse ==> level[i].exclusions == all[i].child_exclusions) && is_first(
        level,
        visited,
        i,
    ) == all[i].recurse by {
        assert(level[i].node == nodes[i]);
        if is_first(level, visited, i) {
            assert forall|j: int| 0 <= j < i implies collect_laws::info_ga(#[trigger] all[j])
                != collect_laws::info_ga(all[i]) by {
                assert(resolver_laws::artifact_at(level[j].node) == collect_laws::info_ga(all[j]));
            }
        } else if all[i].recurse {
            let j = choose|j: int|
                0 <= j < i && resolver_laws::artifact_at((#[trigger] level[j]).node)
                    == resolver_laws::artifact_at(level[i].node);
            assert(collect_laws::info_ga(all[j]) == collect_laws::info_ga(all[i]));
        }
    }
}

/// What stands below the node at a place of a level.
spec fn grown_at(w: WorldModel, level: Seq<Placed>, seen: Set<Ga>, levels: nat, i: int) -> bool {
    let n = level[i].node;
    if levels > 0 && is_first(level, seen, i) {
        match collect::pom_below(w, n.coord) {
            Some(Some(p)) => nodes_follow(
                w,
                p.dependencies,
                Some(level[i].scope),
                level[i].exclusions,
                n.children,
            ),
            _ => n.children.len() == 0,
        }
    } else {
        n.children.len() == 0
    }
}

proof fn lemma_grown_at(
    w: WorldModel,
    level: Seq<Placed>,
    visited: Set<Ga>,
    levels: nat,
    all: Seq<InfoModel>,
    below: Seq<Seq<NodeModel>>,
    open: OpenModel,
    i: int,
)
    requires
        0 <= i < level.len(),
        levels > 0,
        level_matches(level, all, below, visited),
        collect::open_of(w, all[i]) == Some(open),
        nodes_follow(w, open.dependencies, open.scope, open.exclusions, below[i]),
    ensures
        grown_at(w, level, visited, levels, i),
{
    assert(level[i].node == collect::node_of(all[i], below[i]));
    if open.dependencies.len() == 0 {
        lemma_nothing_follows(w, open.dependencies, open.scope, open.exclusions, below[i]);
    }
}

proof fn lemma_deeper(
    w: WorldModel,
    level: Seq<Placed>,
    visited: Set<Ga>,
    all: Seq<InfoModel>,
    below: Seq<Seq<NodeModel>>,
    next: Seq<OpenModel>,
)
    requires
        level_matches(level, all, below, visited),
        next.len() == all.len(),
        forall|i: int|
            0 <= i < next.len() ==> collect::open_of(w, all[i]) == Some(#[trigger] next[i]),
        forall|i: int|
            0 <= i < all.len() && !(#[trigger] all[i]).recurse ==> below[i].len() == 0,
    ensures
        placed_next(level) == collect::all_of(placed_of(next, below)),
{
    let deeper = Seq::new(
        level.len(),
        |i: int|
            placed_below(level[i].node.children, Some(level[i].scope), level[i].exclusions),
    );
    let there = placed_of(next, below);
    assert forall|i: int| 0 <= i < level.len() implies #[trigger] deeper[i] == there[i] by {
        assert(level[i].node == collect::node_of(all[i], below[i]));
        assert(collect::open_of(w, all[i]) == Some(next[i]));
        if all[i].recurse {
            assert(next[i].scope == Some(level[i].scope));
            assert(next[i].exclusions == level[i].exclusions);
        } else {
            assert(below[i].len() == 0);
        }
        assert(deeper[i] =~= there[i]);
    }
    assert(deeper =~= there);
}

proof fn lemma_grown(w: WorldModel, opens: Seq<OpenModel>, visited: Set<Ga>, depth: nat)
    requires
        depth < collect::MAX_DEPTH,
        collect::collected(w, opens, visited, depth) is Some,
    ensures
        ({
            let below = collect::collected(w, opens, visited, depth)->0;
            &&& below.len() == opens.len()
            &&& forall|k: int|
                0 <= k < opens.len() ==> nodes_follow(
                    w,
                    (#[trigger] opens[k]).dependencies,
                    opens[k].scope,
                    opens[k].exclusions,
                    below[k],
                )
            &&& grown(
                w,
                collect::all_of(placed_of(opens, below)),
                visited,
                (collect::MAX_DEPTH - 1 - depth) as nat,
            )
        }),
    decreases collect::MAX_DEPTH - depth,
{
    collect::lemma_collected_len(w, opens, visited, depth);
    let result = collect::collected(w, opens, visited, depth)->0;
    let levels = (collect::MAX_DEPTH - 1 - depth) as nat;
    if opens.len() == 0 {
        assert(placed_of(opens, result) =~= Seq::empty());
        lemma_nothing_grown(w, visited, levels);
    } else {
        assert forall|k: int| 0 <= k < opens.len() implies nodes_follow(
            w,
            (#[trigger] opens[k]).dependencies,
            opens[k].scope,
            opens[k].exclusions,
            result[k],
        ) by {
            lemma_group_nodes(w, opens, visited, depth, k);
        }
        lemma_level_follows(w, opens, 0, visited);
        collect_laws::lemma_level_in_order(w, opens, 0, visited);
        let (groups, met) = collect::level_from(w, opens, 0, visited)->0;
        let all = collect::all_of(groups);
        let next = collect::opened_from(w, all, 0)->0;
        collect::lemma_opened_len(w, all, 0);
        collect::lemma_collected_len(w, next, met, depth + 1);
        let below = collect::collected(w, next, met, depth + 1)->0;
        lemma_level_matches(w, opens, visited, groups, met, below);
        let level = collect::all_of(placed_of(opens, result));
        assert(level_matches(level, all, below, visited));
        assert forall|i: int| 0 <= i < next.len() implies collect::open_of(w, all[i]) == Some(
            #[trigger] next[i],
        ) by {
            assert(collect::open_of(w, all[0 + i]) == Some(next[i]));
        }
        assert forall|i: int| 0 <= i < all.len() && !(#[trigger] all[i]).recurse implies below[i].len()
            == 0 by {
            assert(collect::open_of(w, all[i]) == Some(next[i]));
            collect_laws::lemma_closed(w, next, met, depth + 1, i);
        }
        if levels > 0 {
            lemma_grown(w, next, met, depth + 1);
            lemma_deeper(w, level, visited, all, below, next);
        }
        assert forall|i: int| 0 <= i < level.len() implies grown_at(
            w,
            level,
            visited,
            levels,
            i,
        ) by {
            if levels > 0 {
                assert(nodes_follow(
                    w,
                    next[i].dependencies,
                    next[i].scope,
                    next[i].exclusions,
                    below[i],
                ));
                lemma_grown_at(w, level, visited, levels, all, below, next[i], i);
            } else {
                assert(level[i].node == collect::node_of(all[i], below[i]));
            }
        }
        lemma_grown_from(w, level, visited, levels);
    }
}

proof fn lemma_grown_from(w: WorldModel, level: Seq<Placed>, seen: Set<Ga>, levels: nat)
    requires
        forall|i: int| 0 <= i < level.len() ==> grown_at(w, level, seen, levels, i),
        levels > 0 ==> grown(
            w,
            placed_next(level),
            seen.union(placed_artifacts(level)),
            (levels - 1) as nat,
        ),
    ensures
        grown(w, level, seen, levels),
{
    assert forall|i: int| 0 <= i < level.len() implies {
        let n = (#[trigger] level[i]).node;
        if levels > 0 && is_first(level, seen, i) {
            match collect::pom_below(w, n.coord) {
                Some(Some(p)) => nodes_follow(
                    w,
                    p.dependencies,
                    Some(level[i].scope),
                    level[i].exclusions,
                    n.children,
                ),
                _ => n.children.len() == 0,
            }
        } else {
            n.children.len() == 0
        }
    } by {
        assert(grown_at(w, level, seen, levels, i));
    }
}

proof fn lemma_nothing_follows(
    w: WorldModel,
    deps: Seq<DependencyModel>,
    above: Option<DependencyScope>,
    exclusions: Seq<ExclusionModel>,
    nodes: Seq<NodeModel>,
)
    requires
        deps.len() == 0,
        nodes_follow(w, deps, above, exclusions, nodes),
    ensures
        nodes.len() == 0,
{
    let places = choose|places: Seq<int>| #[trigger]
        follow(w, deps, above, exclusions, nodes, places);
    assert(follow(w, deps, above, exclusions, nodes, places));
    assert(places.len() == nodes.len());
    if nodes.len() > 0 {
        let first = places[0];
        assert(0 <= first && first < deps.len());
    }
}

proof fn lemma_nothing_grown(w: WorldModel, seen: Set<Ga>, levels: nat)
    ensures
        grown(w, collect::all_of(Seq::<Seq<Placed>>::empty()), seen, levels),
    decreases levels,
{
    let none = collect::all_of(Seq::<Seq<Placed>>::empty());
    assert(none =~= Seq::empty());
    if levels > 0 {
        let inner = Seq::new(
            none.len(),
            |i: int|
                placed_below(none[i].node.children, Some(none[i].scope), none[i].exclusions),
        );
        assert(inner =~= Seq::<Seq<Placed>>::empty());
        lemma_nothing_grown(w, seen.union(placed_artifacts(none)), (levels - 1) as nat);
    }
}

proof fn lemma_group_nodes(
    w: WorldModel,
    opens: Seq<OpenModel>,
    visited: Set<Ga>,
    depth: nat,
    k: int,
)
    requires
        depth < collect::MAX_DEPTH,
        0 <= k < opens.len(),
        collect::collected(w, opens, visited, depth) is Some,
    ensures
        nodes_follow(
            w,
            opens[k].dependencies,
            opens[k].scope,
            opens[k].exclusions,
            collect::collected(w, opens, visited, depth)->0[k],
        ),
{
    lemma_level_follows(w, opens, 0, visited);
    let (groups, met) = collect::level_from(w, opens, 0, visited)->0;
    let all = collect::all_of(groups);
    let next = collect::opened_from(w, all, 0)->0;
    collect::lemma_opened_len(w, all, 0);
    collect::lemma_collected_len(w, next, met, depth + 1);
    let below = collect::collected(w, next, met, depth + 1)->0;
    let nodes = collect::nodes_of(all, below);
    let result = collect::grouped(groups, nodes);
    let none = Seq::new(opens.len(), |k: int| Set::<Ga>::empty());
    collect_laws::lemma_collected(w, opens, visited, none, depth);
    collect_laws::lemma_group_len(groups, nodes, k);
    let open = opens[0 + k];
    assert(group_follows(w, open, groups[k]));
    let (places, v) = choose|places: Seq<int>, v: Set<Ga>| #[trigger]
        info_places(w, open.dependencies, 0, open.scope, open.exclusions, v, groups[k], places);
    assert forall|j: int| 0 <= j < result[k].len() implies comes_from(
        w.managed,
        open.dependencies[places[j]],
        open.scope,
        #[trigger] result[k][j],
    ) by {
        collect_laws::lemma_place(groups, nodes, k, j);
        let i = collect_laws::start_of(groups, k) + j;
        let info = groups[k][j];
        let n = result[k][j];
        assert(n == nodes[i]);
        assert(all[i] == info);
        assert(collect::open_of(w, all[0 + i]) == Some(next[i]));
        if !info.recurse {
            collect_laws::lemma_closed(w, next, met, depth + 1, i);
        }
        assert(collect_laws::proper(w, open.scope, open.exclusions, none[k], n));
        assert(info_from(
            w.managed,
            open.dependencies[places[j]],
            open.scope,
            open.exclusions,
            info,
        ));
        lemma_node_from(
            w,
            open.dependencies[places[j]],
            open.scope,
            open.exclusions,
            none[k],
            info,
            n,
        );
    }
    assert(follow(w, open.dependencies, open.scope, open.exclusions, result[k], places));
}

/// The nodes of a level, group after group, with the scope and the exclusions of their place.
proof fn lemma_placed_level(
    w: WorldModel,
    opens: Seq<OpenModel>,
    groups: Seq<Seq<InfoModel>>,
    nodes: Seq<NodeModel>,
    result: Seq<Seq<NodeModel>>,
)
    requires
        groups.len() == opens.len(),
        result == collect::grouped(groups, nodes),
        nodes.len() == collect::all_of(groups).len(),
        forall|g: int|
            0 <= g < groups.len() ==> group_follows(w, opens[g], #[trigger] groups[g]),
        forall|i: int|
            0 <= i < nodes.len() ==> (#[trigger] nodes[i]).scope == collect::all_of(
                groups,
            )[i].scope && (collect::all_of(groups)[i].recurse ==> nodes[i].exclusions
                == collect::all_of(groups)[i].exclusions),
    ensures
        ({
            let level = collect::all_of(placed_of(opens, result));
            let all = collect::all_of(groups);
            &&& level.len() == nodes.len()
            &&& forall|i: int|
                0 <= i < level.len() ==> (#[trigger] level[i]).node == nodes[i] && level[i].scope
                    == all[i].reached && (all[i].recurse ==> level[i].exclusions
                    == all[i].child_exclusions)
        }),
    decreases groups.len(),
{
    let placed = placed_of(opens, result);
    let level = collect::all_of(placed);
    let all = collect::all_of(groups);
    if groups.len() > 0 {
        let n = groups[0].len() as int;
        let rest = groups.skip(1);
        collect::lemma_grouped_len(rest, nodes.skip(n));
        collect::lemma_grouped_len(groups, nodes);
        let result_rest = collect::grouped(rest, nodes.skip(n));
        assert(all == groups[0] + collect::all_of(rest));
        assert forall|g: int| 0 <= g < rest.len() implies group_follows(
            w,
            opens.skip(1)[g],
            #[trigger] rest[g],
        ) by {
            assert(rest[g] == groups[g + 1]);
            assert(opens.skip(1)[g] == opens[g + 1]);
        }
        assert forall|i: int| 0 <= i < nodes.skip(n).len() implies (
        #[trigger] nodes.skip(n)[i]).scope == collect::all_of(rest)[i].scope && (collect::all_of(
            rest,
        )[i].recurse ==> nodes.skip(n)[i].exclusions == collect::all_of(rest)[i].exclusions) by {
            assert(nodes.skip(n)[i] == nodes[n + i]);
            assert(all[n + i] == collect::all_of(rest)[i]);
        }
        lemma_placed_level(w, opens.skip(1), rest, nodes.skip(n), result_rest);
        assert(result[0] == nodes.take(n));
        assert(result.skip(1) =~= result_rest);
        let placed_rest = placed_of(opens.skip(1), result_rest);
        assert(placed.skip(1) =~= placed_rest) by {
            assert forall|k: int| 0 <= k < placed_rest.len() implies placed.skip(1)[k]
                == #[trigger] placed_rest[k] by {
                assert(result[k + 1] == result_rest[k]);
            }
        }
        assert(level == placed[0] + collect::all_of(placed_rest));
        assert forall|i: int| 0 <= i < level.len() implies (#[trigger] level[i]).node == nodes[i]
            && level[i].scope == all[i].reached && (all[i].recurse ==> level[i].exclusions
            == all[i].child_exclusions) by {
            if i < n {
                let info = groups[0][i];
                assert(all[i] == info);
                assert(level[i] == placed[0][i]);
                assert(nodes.take(n)[i] == nodes[i]);
                assert(group_follows(w, opens[0], groups[0]));
                let open = opens[0];
                let (places, v) = choose|places: Seq<int>, v: Set<Ga>| #[trigger]
                    info_places(
                        w,
                        open.dependencies,
                        0,
                        open.scope,
                        open.exclusions,
                        v,
                        groups[0],
                        places,
                    );
                assert(info_from(
                    w.managed,
                    open.dependencies[places[i]],
                    open.scope,
                    open.exclusions,
                    groups[0][i],
                ));
            } else {
                assert(level[i] == collect::all_of(placed_rest)[i - n]);
                assert(all[i] == collect::all_of(rest)[i - n]);
                assert(nodes.skip(n)[i - n] == nodes[i]);
            }
        }
    } else {
        assert(placed =~= Seq::empty());
    }
}

/// Below the root stand just the dependencies that its effective POM declares, and below every
/// node whose artifact is met for the first time those that the POM at its place declares, in the
/// order of the declarations, as far as they are not left out. Each node has the coordinates, the
/// scope and the version that are declared or that the root manages, and every exclusion that is
/// declared for it or that the root manages holds for all that stands below it.
pub proof fn trees_follow_declarations(
    root: CoordModel,
    pom: PomModel,
    env: EnvironmentModel,
    raw: KnownPoms,
    metadata: KnownMetadata,
)
    requires
        collect::tree_of(root, pom, env, raw, metadata) is Some,
    ensures
        ({
            let tree = collect::tree_of(root, pom, env, raw, metadata)->0;
            let managed = match pom.dependency_management {
                Some(ds) => ds,
                None => Seq::empty(),
            };
            let w = WorldModel { env, raw, metadata, managed };
            &&& nodes_follow(w, pom.dependencies, None, Seq::empty(), tree)
            &&& grown(
                w,
                placed_below(tree, None, Seq::empty()),
                set![(root.group_id, root.artifact_id)],
                (collect::MAX_DEPTH - 1) as nat,
            )
        }),
{
    let w = collect::world_of(pom, env, raw, metadata);
    let visited = set![(root.group_id, root.artifact_id)];
    let opens = seq![collect::root_of(pom)];
    lemma_grown(w, opens, visited, 0);
    let below = collect::collected(w, opens, visited, 0)->0;
    let tree = collect::tree_of(root, pom, env, raw, metadata)->0;
    assert(opens[0] == collect::root_of(pom));
    assert(below[0] == tree);
    let placed = placed_of(opens, below);
    assert(placed.skip(1) =~= Seq::empty());
    assert(collect::all_of(placed.skip(1)) =~= Seq::empty());
    assert(collect::all_of(placed) =~= placed[0]);
    assert(placed[0] =~= placed_below(tree, None, Seq::empty()));
}

} // verus!
