//! Collecting the dependency tree of an artifact from the POMs and the metadata that were fetched
//! so far.
use crate::coord;
use crate::coord::ArtifactCoord;
use crate::coord::CoordModel;
use crate::coord::DependencyScope;
use crate::coord::Exclusion;
use crate::coord::ExclusionModel;
use crate::effective;
use crate::effective::Effective;
use crate::effective::KnownPoms;
use crate::effective::PomRequest;
use crate::effective::PomRequestModel;
use crate::known;
use crate::known::Fetched;
use crate::known::Known;
use crate::laws;
use crate::metadata;
use crate::metadata::MavenMetadata;
use crate::metadata::MetadataModel;
use crate::pom;
use crate::pom::Dependencies;
use crate::pom::DependencyModel;
use crate::pom::Environment;
use crate::pom::EnvironmentModel;
use crate::pom::Pom;
use crate::pom::PomDependency;
use crate::pom::PomModel;
use crate::resolver;
use crate::resolver::ArtifactSet;
use crate::resolver::DependencyNode;
use crate::resolver::Ga;
use crate::resolver::NodeModel;
use crate::resolver::ResolvedDependency;
use crate::text;
use crate::text::Order;
use crate::version;
use crate::version::ConstraintModel;
use crate::version::Version;
use crate::version::VersionConstraint;
use vstd::prelude::*;

verus! {

/// The deepest level of dependencies that is collected.
pub const MAX_DEPTH: usize = 50;

/// The known metadata.
pub type KnownMetadata = Seq<(Seq<char>, Fetched<MetadataModel>)>;

/// The name under which the metadata of an artifact is known.
pub open spec fn ga_key(g: Seq<char>, a: Seq<char>) -> Seq<char> {
    g + ":"@ + a
}

/// The name under which the metadata of an artifact is known.
pub fn metadata_key(group_id: &str, artifact_id: &str) -> (r: String)
    ensures
        r@ == ga_key(group_id@, artifact_id@),
{
    let mut out = group_id.to_owned();
    out.append(":");
    out.append(artifact_id);
    out
}

// ============================================================================
// Versions
// ============================================================================

/// Whether a version is a snapshot.
pub open spec fn is_snapshot(v: Seq<char>) -> bool {
    text::holds_text(v, "SNAPSHOT"@)
}

/// Whether a version may be chosen under a constraint: it satisfies it and is no snapshot.
pub open spec fn eligible(v: Seq<char>, c: ConstraintModel) -> bool {
    !is_snapshot(v) && version::constraint_holds(c, v)
}

/// The highest eligible version among `best` and the versions from position `i` on; the first
/// of several equal ones.
pub open spec fn highest_from(
    versions: Seq<Seq<char>>,
    i: int,
    best: Option<Seq<char>>,
    c: ConstraintModel,
) -> Option<Seq<char>>
    decreases versions.len() - i,
{
    if i >= versions.len() {
        best
    } else if eligible(versions[i], c) && (best matches Some(b) ==> version::version_order(
        versions[i],
        b,
    ) == Order::Greater) {
        highest_from(versions, i + 1, Some(versions[i]), c)
    } else {
        highest_from(versions, i + 1, best, c)
    }
}

/// The version that a range selects among those that the metadata lists, if any; nothing where
/// the metadata is not known yet.
pub open spec fn range_version(
    range: Seq<char>,
    g: Seq<char>,
    a: Seq<char>,
    metadata: KnownMetadata,
) -> Option<Option<Seq<char>>> {
    match version::constraint_of(range) {
        Err(_) => Some(None),
        Ok(c) => match known::outcome(metadata, ga_key(g, a)) {
            None => None,
            Some(Fetched::Failed) => Some(None),
            Some(Fetched::Found(m)) => Some(highest_from(metadata::versions_of(m), 0, None, c)),
        },
    }
}

/// The highest version that satisfies a constraint among the given ones, snapshots left out.
pub fn select_version(constraint: &VersionConstraint, versions: &Vec<&str>) -> (r: Option<String>)
    ensures
        text::opt_view(r) == highest_from(text::views(versions@), 0, None, constraint@),
{
    let mut best: Option<String> = None;
    let ghost m = text::views(versions@);
    for i in 0..versions.len()
        invariant
            m == text::views(versions@),
            highest_from(m, 0, None, constraint@) == highest_from(
                m,
                i as int,
                text::opt_view(best),
                constraint@,
            ),
    {
        let v = versions[i];
        assert(m[i as int] == v@);
        let parsed = Version::new(v);
        if !text::contains(v, "SNAPSHOT") && constraint.contains(&parsed) {
            let higher = match &best {
                Some(b) => parsed.compare(&Version::new(b.as_str())) == Order::Greater,
                None => true,
            };
            if higher {
                best = Some(v.to_owned());
            }
        }
    }
    best
}

// ============================================================================
// One dependency
// ============================================================================

/// The scope of a declared dependency, `compile` where it names none that exists.
pub open spec fn declared_scope(d: DependencyModel) -> DependencyScope {
    match d.scope {
        Some(s) => match coord::scope_named(s) {
            Some(scope) => scope,
            None => DependencyScope::Compile,
        },
        None => DependencyScope::Compile,
    }
}

/// A declared dependency under what the root manages, which wins over what is declared: the
/// version, the exclusions, and for transitive dependencies the scope. The root's own
/// dependencies keep the scope that they declare.
pub open spec fn overridden(
    d: DependencyModel,
    managed: Seq<DependencyModel>,
    transitive: bool,
) -> DependencyModel {
    match pom::managed_entry(managed, d.group_id, d.artifact_id, pom::type_of(d)) {
        Some(m) => DependencyModel {
            version: m.version,
            scope: if transitive && m.scope is Some {
                m.scope
            } else {
                d.scope
            },
            exclusions: pom::exclusions_with(d.exclusions, m.exclusions, 0),
            ..d
        },
        None => d,
    }
}

/// The scope that a dependency has in the root below a node with the scope `above`, if it is
/// passed on; a dependency of the root itself has the scope that it declares.
pub open spec fn reached_scope(
    above: Option<DependencyScope>,
    scope: DependencyScope,
) -> Option<DependencyScope> {
    match above {
        Some(parent) => resolver::propagated(parent, scope),
        None => Some(scope),
    }
}

/// Whether a dependency takes part: it is not optional, neither an import nor a system file, and
/// its scope is passed on.
pub open spec fn takes_part(d: DependencyModel, above: Option<DependencyScope>) -> bool {
    declared_scope(d) != DependencyScope::Import && declared_scope(d) != DependencyScope::System
        && d.optional != Some("true"@) && reached_scope(above, declared_scope(d)) is Some
}

/// The version that a dependency asks for.
pub open spec fn wanted_version(d: DependencyModel) -> Seq<char> {
    match d.version {
        Some(v) => v,
        None => Seq::empty(),
    }
}

/// Whether a version is a range.
pub open spec fn is_range(v: Seq<char>) -> bool {
    v.len() > 0 && (v[0] == '[' || v[0] == '(')
}

/// The version of a dependency, if it has one; nothing where that takes metadata that is not
/// known yet.
pub open spec fn chosen_version(
    d: DependencyModel,
    metadata: KnownMetadata,
) -> Option<Option<Seq<char>>> {
    let v = wanted_version(d);
    if !effective::is_usable(v) {
        Some(None)
    } else if is_range(v) {
        range_version(v, d.group_id, d.artifact_id, metadata)
    } else {
        Some(Some(v))
    }
}

/// The coordinates of a dependency in a version.
pub open spec fn coord_of_dependency(d: DependencyModel, v: Seq<char>) -> CoordModel {
    CoordModel {
        group_id: d.group_id,
        artifact_id: d.artifact_id,
        version: v,
        classifier: d.classifier,
        extension: pom::type_of(d),
    }
}

/// The exclusions of a dependency.
pub open spec fn exclusions_of(d: DependencyModel) -> Seq<ExclusionModel> {
    Seq::new(
        d.exclusions.len(),
        |i: int|
            ExclusionModel { group_id: d.exclusions[i].0, artifact_id: d.exclusions[i].1 },
    )
}

/// Whether one of the exclusions matches an artifact of a group.
pub open spec fn any_excludes(
    exclusions: Seq<ExclusionModel>,
    group_id: Seq<char>,
    artifact_id: Seq<char>,
) -> bool {
    exists|i: int|
        0 <= i < exclusions.len() && coord::excludes(
            #[trigger] exclusions[i],
            group_id,
            artifact_id,
        )
}

/// A dependency that takes part in a level of the tree, with the scope that it declares and the
/// one that it has in the root.
#[verifier::ext_equal]
pub struct InfoModel {
    pub coord: CoordModel,
    pub scope: DependencyScope,
    pub reached: DependencyScope,
    pub exclusions: Seq<ExclusionModel>,
    pub child_exclusions: Seq<ExclusionModel>,
    pub recurse: bool,
}

/// A dependency in a version, below a node with the given scope and exclusions. Its own
/// dependencies are collected where the artifact was not met before.
pub open spec fn info_of(
    d: DependencyModel,
    v: Seq<char>,
    above: Option<DependencyScope>,
    exclusions: Seq<ExclusionModel>,
    visited: Set<Ga>,
) -> InfoModel {
    let recurse = !visited.contains((d.group_id, d.artifact_id));
    InfoModel {
        coord: coord_of_dependency(d, v),
        scope: declared_scope(d),
        reached: reached_scope(above, declared_scope(d))->0,
        exclusions: exclusions_of(d),
        child_exclusions: if recurse {
            exclusions + exclusions_of(d)
        } else {
            exclusions
        },
        recurse,
    }
}

/// The dependencies, from position `i` on, that take part below a node with the given scope and
/// exclusions, and the artifacts met by then; nothing where metadata is needed that is not known
/// yet. What does not take part is not met either.
pub open spec fn selected(
    deps: Seq<DependencyModel>,
    i: int,
    above: Option<DependencyScope>,
    exclusions: Seq<ExclusionModel>,
    visited: Set<Ga>,
    managed: Seq<DependencyModel>,
    metadata: KnownMetadata,
) -> Option<(Seq<InfoModel>, Set<Ga>)>
    decreases deps.len() - i,
{
    if i >= deps.len() {
        Some((Seq::empty(), visited))
    } else {
        let d = overridden(deps[i], managed, above is Some);
        if !takes_part(d, above) {
            selected(deps, i + 1, above, exclusions, visited, managed, metadata)
        } else {
            match chosen_version(d, metadata) {
                None => None,
                Some(None) => selected(deps, i + 1, above, exclusions, visited, managed, metadata),
                Some(Some(v)) => if any_excludes(exclusions, d.group_id, d.artifact_id) {
                    selected(deps, i + 1, above, exclusions, visited, managed, metadata)
                } else {
                    match selected(
                        deps,
                        i + 1,
                        above,
                        exclusions,
                        visited.insert((d.group_id, d.artifact_id)),
                        managed,
                        metadata,
                    ) {
                        None => None,
                        Some((rest, met)) => Some(
                            (seq![info_of(d, v, above, exclusions, visited)] + rest, met),
                        ),
                    }
                },
            }
        }
    }
}

/// The artifacts whose metadata is to be fetched for the dependencies from position `i` on: those
/// that take part in a range of versions.
pub open spec fn unlisted(
    deps: Seq<DependencyModel>,
    i: int,
    above: Option<DependencyScope>,
    managed: Seq<DependencyModel>,
    metadata: KnownMetadata,
) -> Seq<Ga>
    decreases deps.len() - i,
{
    if i >= deps.len() {
        Seq::empty()
    } else {
        let d = overridden(deps[i], managed, above is Some);
        let rest = unlisted(deps, i + 1, above, managed, metadata);
        if takes_part(d, above) && chosen_version(d, metadata) is None {
            seq![(d.group_id, d.artifact_id)] + rest
        } else {
            rest
        }
    }
}

// ============================================================================
// Relocation
// ============================================================================

/// The need for the effective POM of coordinates in their own right.
pub open spec fn own_request(c: CoordModel) -> PomRequestModel {
    PomRequestModel { coord: c, depth: 0, chain: seq![effective::coord_key(c)] }
}

/// The effective POM of coordinates in their own right; nothing where a POM that it takes was not
/// fetched yet.
pub open spec fn own_model(c: CoordModel, env: EnvironmentModel, raw: KnownPoms) -> Option<
    Fetched<PomModel>,
> {
    effective::model_of(own_request(c), env, raw)
}

/// Where a POM says its artifact has moved to, unless it names the artifact itself.
pub open spec fn relocation_of(pom: PomModel, original: CoordModel) -> Option<CoordModel> {
    match pom.distribution_management {
        Some(Some(r)) => {
            let g = match r.group_id {
                Some(g) => g,
                None => original.group_id,
            };
            let a = match r.artifact_id {
                Some(a) => a,
                None => original.artifact_id,
            };
            let v = match r.version {
                Some(v) => v,
                None => original.version,
            };
            if g == original.group_id && a == original.artifact_id && v == original.version {
                None
            } else {
                Some(coord::plain_coord(g, a, v, "jar"@))
            }
        },
        _ => None,
    }
}

/// The POM at the end of the relocations that begin with `pom`: none where it cannot be had,
/// nothing where it has no effective model yet. A relocation back to one of those in `seen` is
/// circular, and ends there.
pub open spec fn followed(
    env: EnvironmentModel,
    raw: KnownPoms,
    pom: PomModel,
    at: CoordModel,
    seen: Seq<Seq<char>>,
) -> Option<Option<PomModel>>
    decreases known::count_keys(raw, effective::outside(seen), 0),
{
    match relocation_of(pom, at) {
        None => Some(Some(pom)),
        Some(next) => if seen.contains(effective::coord_key(next)) {
            Some(Some(pom))
        } else {
            proof {
                effective::lemma_longer_chain(raw, seen, effective::coord_key(next));
                lemma_own_model(next, env, raw);
            }
            match own_model(next, env, raw) {
                None => None,
                Some(Fetched::Failed) => Some(None),
                Some(Fetched::Found(p)) => followed(
                    env,
                    raw,
                    p,
                    next,
                    seen.push(effective::coord_key(next)),
                ),
            }
        },
    }
}

/// The POMs that are to be fetched for that.
pub open spec fn missing_on_the_way(
    env: EnvironmentModel,
    raw: KnownPoms,
    pom: PomModel,
    at: CoordModel,
    seen: Seq<Seq<char>>,
) -> Seq<CoordModel>
    decreases known::count_keys(raw, effective::outside(seen), 0),
{
    match relocation_of(pom, at) {
        None => Seq::empty(),
        Some(next) => if seen.contains(effective::coord_key(next)) {
            Seq::empty()
        } else {
            proof {
                effective::lemma_longer_chain(raw, seen, effective::coord_key(next));
                lemma_own_model(next, env, raw);
            }
            match own_model(next, env, raw) {
                None => effective::missing_at(own_request(next), env, raw),
                Some(Fetched::Failed) => Seq::empty(),
                Some(Fetched::Found(p)) => missing_on_the_way(
                    env,
                    raw,
                    p,
                    next,
                    seen.push(effective::coord_key(next)),
                ),
            }
        },
    }
}

/// What has an effective model was fetched.
pub proof fn lemma_own_model(c: CoordModel, env: EnvironmentModel, raw: KnownPoms)
    ensures
        own_model(c, env, raw) is Some ==> known::outcome(raw, effective::coord_key(c)) is Some,
{
}

/// Relocations wait for POMs just where they cannot be followed to the end.
pub proof fn lemma_missing_on_the_way(
    env: EnvironmentModel,
    raw: KnownPoms,
    pom: PomModel,
    at: CoordModel,
    seen: Seq<Seq<char>>,
)
    ensures
        followed(env, raw, pom, at, seen) is None <==> missing_on_the_way(
            env,
            raw,
            pom,
            at,
            seen,
        ).len() > 0,
        effective::unfetched(missing_on_the_way(env, raw, pom, at, seen), raw),
    decreases known::count_keys(raw, effective::outside(seen), 0),
{
    if let Some(next) = relocation_of(pom, at) {
        let key = effective::coord_key(next);
        if !seen.contains(key) {
            effective::lemma_longer_chain(raw, seen, key);
            effective::lemma_missing_at(own_request(next), env, raw);
            if let Some(Fetched::Found(p)) = own_model(next, env, raw) {
                lemma_missing_on_the_way(env, raw, p, next, seen.push(key));
            }
        }
    }
}

// ============================================================================
// The tree
// ============================================================================

/// What a tree is collected from: the environment, the fetched POMs, the fetched metadata, and
/// what the root manages.
#[verifier::ext_equal]
pub struct WorldModel {
    pub env: EnvironmentModel,
    pub raw: KnownPoms,
    pub metadata: KnownMetadata,
    pub managed: Seq<DependencyModel>,
}

/// The POM whose dependencies stand below a node: none where it cannot be had, nothing where it
/// has no effective model yet.
pub open spec fn pom_below(w: WorldModel, c: CoordModel) -> Option<Option<PomModel>> {
    match own_model(c, w.env, w.raw) {
        None => None,
        Some(Fetched::Failed) => Some(None),
        Some(Fetched::Found(p)) => followed(w.env, w.raw, p, c, seq![effective::coord_key(c)]),
    }
}

/// The POMs that are to be fetched for that.
pub open spec fn missing_below(w: WorldModel, c: CoordModel) -> Seq<CoordModel> {
    match own_model(c, w.env, w.raw) {
        None => effective::missing_at(own_request(c), w.env, w.raw),
        Some(Fetched::Failed) => Seq::empty(),
        Some(Fetched::Found(p)) => missing_on_the_way(
            w.env,
            w.raw,
            p,
            c,
            seq![effective::coord_key(c)],
        ),
    }
}

/// A node waits for POMs just where it is not known what stands below it.
pub proof fn lemma_missing_below(w: WorldModel, c: CoordModel)
    ensures
        pom_below(w, c) is None <==> missing_below(w, c).len() > 0,
        effective::unfetched(missing_below(w, c), w.raw),
{
    effective::lemma_missing_at(own_request(c), w.env, w.raw);
    if let Some(Fetched::Found(p)) = own_model(c, w.env, w.raw) {
        lemma_missing_on_the_way(w.env, w.raw, p, c, seq![effective::coord_key(c)]);
    }
}

/// The dependencies that a POM declares; none where there is no POM.
pub open spec fn dependencies_of(pom: Option<PomModel>) -> Seq<DependencyModel> {
    match pom {
        Some(p) => p.dependencies,
        None => Seq::empty(),
    }
}

/// A node whose dependencies are still to be collected: the dependencies that it declares, the
/// scope that the node has in the root, which itself has none, and the exclusions that hold below
/// it.
#[verifier::ext_equal]
pub struct OpenModel {
    pub dependencies: Seq<DependencyModel>,
    pub scope: Option<DependencyScope>,
    pub exclusions: Seq<ExclusionModel>,
}

/// The dependencies that stand below an open node, and the artifacts met by then; nothing where
/// metadata is needed that was not fetched yet.
pub open spec fn infos_below(w: WorldModel, open: OpenModel, visited: Set<Ga>) -> Option<
    (Seq<InfoModel>, Set<Ga>),
> {
    selected(
        open.dependencies,
        0,
        open.scope,
        open.exclusions,
        visited,
        w.managed,
        w.metadata,
    )
}

/// The artifacts whose metadata is to be fetched for the open nodes of a level, from position `k`
/// on.
pub open spec fn unlisted_below(w: WorldModel, opens: Seq<OpenModel>, k: int) -> Seq<Ga>
    decreases opens.len() - k,
{
    if k >= opens.len() {
        Seq::empty()
    } else {
        unlisted(opens[k].dependencies, 0, opens[k].scope, w.managed, w.metadata)
            + unlisted_below(w, opens, k + 1)
    }
}

/// The dependencies that stand below each of the open nodes of a level, from position `k` on, and
/// the artifacts met by then.
pub open spec fn level_from(
    w: WorldModel,
    opens: Seq<OpenModel>,
    k: int,
    visited: Set<Ga>,
) -> Option<(Seq<Seq<InfoModel>>, Set<Ga>)>
    decreases opens.len() - k,
{
    if k >= opens.len() {
        Some((Seq::empty(), visited))
    } else {
        match infos_below(w, opens[k], visited) {
            None => None,
            Some((infos, met)) => match level_from(w, opens, k + 1, met) {
                None => None,
                Some((rest, last)) => Some((seq![infos] + rest, last)),
            },
        }
    }
}

/// The groups of a level one after the other.
pub open spec fn all_of<T>(groups: Seq<Seq<T>>) -> Seq<T>
    decreases groups.len(),
{
    if groups.len() == 0 {
        Seq::empty()
    } else {
        groups[0] + all_of(groups.skip(1))
    }
}

/// A dependency as an open node; nothing where its POM has no effective model yet. An artifact
/// that was met before is not opened again.
pub open spec fn open_of(w: WorldModel, info: InfoModel) -> Option<OpenModel> {
    if !info.recurse {
        Some(
            OpenModel {
                dependencies: Seq::empty(),
                scope: Some(info.reached),
                exclusions: info.child_exclusions,
            },
        )
    } else {
        match pom_below(w, info.coord) {
            None => None,
            Some(pom) => Some(
                OpenModel {
                    dependencies: dependencies_of(pom),
                    scope: Some(info.reached),
                    exclusions: info.child_exclusions,
                },
            ),
        }
    }
}

/// The POMs that are to be fetched for the dependencies of a level, from position `i` on.
pub open spec fn missing_level(w: WorldModel, infos: Seq<InfoModel>, i: int) -> Seq<CoordModel>
    decreases infos.len() - i,
{
    if i >= infos.len() {
        Seq::empty()
    } else if infos[i].recurse {
        missing_below(w, infos[i].coord) + missing_level(w, infos, i + 1)
    } else {
        missing_level(w, infos, i + 1)
    }
}

/// The dependencies of a level, from position `i` on, as open nodes.
pub open spec fn opened_from(w: WorldModel, infos: Seq<InfoModel>, i: int) -> Option<
    Seq<OpenModel>,
>
    decreases infos.len() - i,
{
    if i >= infos.len() {
        Some(Seq::empty())
    } else {
        match (open_of(w, infos[i]), opened_from(w, infos, i + 1)) {
            (Some(open), Some(rest)) => Some(seq![open] + rest),
            _ => None,
        }
    }
}

/// The node for a dependency.
pub open spec fn node_of(info: InfoModel, children: Seq<NodeModel>) -> NodeModel {
    NodeModel {
        coord: info.coord,
        scope: info.scope,
        optional: false,
        exclusions: if info.recurse {
            info.exclusions
        } else {
            Seq::empty()
        },
        children,
    }
}

/// The nodes for the dependencies of a level, each with what stands below it.
pub open spec fn nodes_of(infos: Seq<InfoModel>, below: Seq<Seq<NodeModel>>) -> Seq<NodeModel> {
    Seq::new(infos.len(), |i: int| node_of(infos[i], below[i]))
}

/// The nodes of a level in the groups that they stand in.
pub open spec fn grouped(groups: Seq<Seq<InfoModel>>, nodes: Seq<NodeModel>) -> Seq<Seq<NodeModel>>
    decreases groups.len(),
{
    if groups.len() == 0 {
        Seq::empty()
    } else {
        let n = groups[0].len() as int;
        seq![nodes.take(n)] + grouped(groups.skip(1), nodes.skip(n))
    }
}

/// What stands below each of the open nodes of a level, collected breadth first: the artifacts of
/// a level are met before those of the next one. Nothing where something is needed that was not
/// fetched yet.
pub open spec fn collected(
    w: WorldModel,
    opens: Seq<OpenModel>,
    visited: Set<Ga>,
    depth: nat,
) -> Option<Seq<Seq<NodeModel>>>
    decreases MAX_DEPTH - depth,
{
    if depth >= MAX_DEPTH || opens.len() == 0 {
        Some(Seq::new(opens.len(), |i: int| Seq::empty()))
    } else {
        match level_from(w, opens, 0, visited) {
            None => None,
            Some((groups, met)) => match opened_from(w, all_of(groups), 0) {
                None => None,
                Some(next) => match collected(w, next, met, depth + 1) {
                    None => None,
                    Some(below) => Some(grouped(groups, nodes_of(all_of(groups), below))),
                },
            },
        }
    }
}

/// What a POM manages.
pub open spec fn management_of(pom: PomModel) -> Seq<DependencyModel> {
    match pom.dependency_management {
        Some(ds) => ds,
        None => Seq::empty(),
    }
}

/// The root of a tree as an open node.
pub open spec fn root_of(pom: PomModel) -> OpenModel {
    OpenModel { dependencies: pom.dependencies, scope: None, exclusions: Seq::empty() }
}

/// What the tree of an artifact whose effective POM is `pom` is collected from. What it manages
/// holds for all that it depends on.
pub open spec fn world_of(
    pom: PomModel,
    env: EnvironmentModel,
    raw: KnownPoms,
    metadata: KnownMetadata,
) -> WorldModel {
    WorldModel { env, raw, metadata, managed: management_of(pom) }
}

/// The dependency tree of an artifact whose effective POM is `pom`; nothing where something is
/// needed that was not fetched yet.
pub open spec fn tree_of(
    root: CoordModel,
    pom: PomModel,
    env: EnvironmentModel,
    raw: KnownPoms,
    metadata: KnownMetadata,
) -> Option<Seq<NodeModel>> {
    match collected(
        world_of(pom, env, raw, metadata),
        seq![root_of(pom)],
        set![(root.group_id, root.artifact_id)],
        0,
    ) {
        None => None,
        Some(below) => Some(below[0]),
    }
}

/// The dependency tree of an artifact: none where its POM cannot be had, nothing where something
/// is needed that was not fetched yet.
pub open spec fn resolution(
    root: CoordModel,
    env: EnvironmentModel,
    raw: KnownPoms,
    metadata: KnownMetadata,
) -> Option<Option<Seq<NodeModel>>> {
    match own_model(root, env, raw) {
        None => None,
        Some(Fetched::Failed) => Some(None),
        Some(Fetched::Found(pom)) => match tree_of(root, pom, env, raw, metadata) {
            None => None,
            Some(tree) => Some(Some(tree)),
        },
    }
}

// ============================================================================
// What it waits for
// ============================================================================

/// The documents that are to be fetched: POMs by coordinates, and metadata by artifact.
#[verifier::ext_equal]
pub struct NeedsModel {
    pub poms: Seq<CoordModel>,
    pub metadata: Seq<Ga>,
}

/// The documents that the collection below the open nodes of a level waits for: the metadata that
/// the first level that cannot be told takes, or, where that is all there, the POMs of its
/// dependencies.
pub open spec fn wanted(
    w: WorldModel,
    opens: Seq<OpenModel>,
    visited: Set<Ga>,
    depth: nat,
) -> NeedsModel
    decreases MAX_DEPTH - depth,
{
    if depth >= MAX_DEPTH || opens.len() == 0 {
        NeedsModel { poms: Seq::empty(), metadata: Seq::empty() }
    } else {
        match level_from(w, opens, 0, visited) {
            None => NeedsModel { poms: Seq::empty(), metadata: unlisted_below(w, opens, 0) },
            Some((groups, met)) => match opened_from(w, all_of(groups), 0) {
                None => NeedsModel {
                    poms: missing_level(w, all_of(groups), 0),
                    metadata: Seq::empty(),
                },
                Some(next) => wanted(w, next, met, depth + 1),
            },
        }
    }
}

/// The first of the coordinates under each name.
pub open spec fn distinct_poms(coords: Seq<CoordModel>) -> Seq<CoordModel>
    decreases coords.len(),
{
    if coords.len() == 0 {
        Seq::empty()
    } else {
        let first = distinct_poms(coords.drop_last());
        if names_pom(first, effective::coord_key(coords.last())) {
            first
        } else {
            first.push(coords.last())
        }
    }
}

/// Whether the POM of one of the coordinates is known under a name.
pub open spec fn names_pom(coords: Seq<CoordModel>, key: Seq<char>) -> bool {
    exists|i: int| 0 <= i < coords.len() && effective::coord_key(#[trigger] coords[i]) == key
}

/// The artifacts without repetitions.
pub open spec fn distinct_artifacts(artifacts: Seq<Ga>) -> Seq<Ga>
    decreases artifacts.len(),
{
    if artifacts.len() == 0 {
        Seq::empty()
    } else {
        let first = distinct_artifacts(artifacts.drop_last());
        if first.contains(artifacts.last()) {
            first
        } else {
            first.push(artifacts.last())
        }
    }
}

/// Documents without repetitions.
pub open spec fn distinct_needs(needs: NeedsModel) -> NeedsModel {
    NeedsModel {
        poms: distinct_poms(needs.poms),
        metadata: distinct_artifacts(needs.metadata),
    }
}

/// The documents that are to be fetched for the dependency tree of an artifact: those that its own
/// effective POM waits for, and once it has one, those that the collection waits for.
pub open spec fn documents_wanted(
    root: CoordModel,
    env: EnvironmentModel,
    raw: KnownPoms,
    metadata: KnownMetadata,
) -> NeedsModel {
    match own_model(root, env, raw) {
        None => distinct_needs(
            NeedsModel {
                poms: effective::missing_at(own_request(root), env, raw),
                metadata: Seq::empty(),
            },
        ),
        Some(Fetched::Failed) => NeedsModel { poms: Seq::empty(), metadata: Seq::empty() },
        Some(Fetched::Found(pom)) => distinct_needs(
            wanted(
                world_of(pom, env, raw, metadata),
                seq![root_of(pom)],
                set![(root.group_id, root.artifact_id)],
                0,
            ),
        ),
    }
}

/// There is a list of nodes for each open node.
pub proof fn lemma_collected_len(
    w: WorldModel,
    opens: Seq<OpenModel>,
    visited: Set<Ga>,
    depth: nat,
)
    ensures
        collected(w, opens, visited, depth) matches Some(below) ==> below.len() == opens.len(),
{
    if depth < MAX_DEPTH && opens.len() > 0 {
        if let Some((groups, met)) = level_from(w, opens, 0, visited) {
            lemma_level_len(w, opens, 0, visited);
            if let Some(next) = opened_from(w, all_of(groups), 0) {
                if let Some(below) = collected(w, next, met, depth + 1) {
                    lemma_grouped_len(groups, nodes_of(all_of(groups), below));
                }
            }
        }
    }
}

/// A level has a group for each open node.
pub proof fn lemma_level_len(w: WorldModel, opens: Seq<OpenModel>, k: int, visited: Set<Ga>)
    requires
        0 <= k <= opens.len(),
    ensures
        level_from(w, opens, k, visited) matches Some((groups, _)) ==> groups.len() == opens.len()
            - k,
    decreases opens.len() - k,
{
    if k < opens.len() {
        if let Some((_, met)) = infos_below(w, opens[k], visited) {
            lemma_level_len(w, opens, k + 1, met);
        }
    }
}

/// Grouping keeps the number of groups.
pub proof fn lemma_grouped_len(groups: Seq<Seq<InfoModel>>, nodes: Seq<NodeModel>)
    ensures
        grouped(groups, nodes).len() == groups.len(),
    decreases groups.len(),
{
    if groups.len() > 0 {
        lemma_grouped_len(groups.skip(1), nodes.skip(groups[0].len() as int));
    }
}

/// A level has an open node for each dependency.
pub proof fn lemma_opened_len(w: WorldModel, infos: Seq<InfoModel>, i: int)
    requires
        0 <= i <= infos.len(),
    ensures
        opened_from(w, infos, i) matches Some(opens) ==> opens.len() == infos.len() - i && forall|
            k: int,
        |
            0 <= k < opens.len() ==> open_of(w, infos[i + k]) == Some(#[trigger] opens[k]),
    decreases infos.len() - i,
{
    if i < infos.len() {
        lemma_opened_len(w, infos, i + 1);
        if let (Some(open), Some(rest)) = (open_of(w, infos[i]), opened_from(w, infos, i + 1)) {
            let opens = seq![open] + rest;
            assert forall|k: int| 0 <= k < opens.len() implies open_of(w, infos[i + k]) == Some(
                #[trigger] opens[k],
            ) by {
                if k > 0 {
                    assert(opens[k] == rest[k - 1]);
                    assert(open_of(w, infos[i + 1 + (k - 1)]) == Some(rest[k - 1]));
                }
            }
        }
    }
}

proof fn lemma_all_of_push<T>(groups: Seq<Seq<T>>, group: Seq<T>)
    ensures
        all_of(groups.push(group)) == all_of(groups) + group,
    decreases groups.len(),
{
    let more = groups.push(group);
    if groups.len() == 0 {
        assert(more.skip(1) =~= Seq::empty());
        assert(all_of(more.skip(1)) =~= Seq::empty());
        assert(more[0] + Seq::<T>::empty() =~= Seq::<T>::empty() + group);
    } else {
        assert(more.skip(1) =~= groups.skip(1).push(group));
        lemma_all_of_push(groups.skip(1), group);
        assert(more[0] == groups[0]);
        assert(groups[0] + (all_of(groups.skip(1)) + group) =~= groups[0] + all_of(groups.skip(1))
            + group);
    }
}

/// Dependencies wait for metadata just where it cannot be told which of them take part.
pub proof fn lemma_unlisted(
    deps: Seq<DependencyModel>,
    i: int,
    above: Option<DependencyScope>,
    exclusions: Seq<ExclusionModel>,
    visited: Set<Ga>,
    managed: Seq<DependencyModel>,
    metadata: KnownMetadata,
)
    ensures
        selected(deps, i, above, exclusions, visited, managed, metadata) is None <==> unlisted(
            deps,
            i,
            above,
            managed,
            metadata,
        ).len() > 0,
    decreases deps.len() - i,
{
    if i < deps.len() {
        let d = overridden(deps[i], managed, above is Some);
        lemma_unlisted(deps, i + 1, above, exclusions, visited, managed, metadata);
        lemma_unlisted(
            deps,
            i + 1,
            above,
            exclusions,
            visited.insert((d.group_id, d.artifact_id)),
            managed,
            metadata,
        );
    }
}

/// A level waits for metadata just where it cannot be told which dependencies stand in it.
pub proof fn lemma_unlisted_below(
    w: WorldModel,
    opens: Seq<OpenModel>,
    k: int,
    visited: Set<Ga>,
)
    ensures
        level_from(w, opens, k, visited) is None <==> unlisted_below(w, opens, k).len() > 0,
    decreases opens.len() - k,
{
    if k < opens.len() {
        let open = opens[k];
        lemma_unlisted(
            open.dependencies,
            0,
            open.scope,
            open.exclusions,
            visited,
            w.managed,
            w.metadata,
        );
        let met = match infos_below(w, open, visited) {
            Some((_, met)) => met,
            None => visited,
        };
        lemma_unlisted_below(w, opens, k + 1, met);
    }
}

/// A level waits for POMs just where it is not known what stands below one of its nodes.
pub proof fn lemma_missing_level(w: WorldModel, infos: Seq<InfoModel>, i: int)
    ensures
        opened_from(w, infos, i) is None <==> missing_level(w, infos, i).len() > 0,
        effective::unfetched(missing_level(w, infos, i), w.raw),
    decreases infos.len() - i,
{
    if i < infos.len() {
        lemma_missing_level(w, infos, i + 1);
        lemma_missing_below(w, infos[i].coord);
        effective::lemma_unfetched_add(
            missing_below(w, infos[i].coord),
            missing_level(w, infos, i + 1),
            w.raw,
        );
    }
}

// ============================================================================
// Collecting
// ============================================================================

/// The artifact whose metadata is needed.
#[derive(Debug)]
pub struct MetadataRequest {
    pub group_id: String,
    pub artifact_id: String,
}

impl View for MetadataRequest {
    type V = Ga;

    open spec fn view(&self) -> Ga {
        (self.group_id@, self.artifact_id@)
    }
}

/// The documents that are to be fetched to go on.
#[derive(Debug)]
pub struct Needs {
    pub poms: Vec<ArtifactCoord>,
    pub metadata: Vec<MetadataRequest>,
}

impl View for Needs {
    type V = NeedsModel;

    open spec fn view(&self) -> NeedsModel {
        NeedsModel { poms: text::views(self.poms@), metadata: text::views(self.metadata@) }
    }
}

/// Whether nothing is to be fetched.
pub open spec fn is_nothing(needs: NeedsModel) -> bool {
    needs.poms.len() == 0 && needs.metadata.len() == 0
}

#[derive(Debug)]
struct DepInfo {
    coord: ArtifactCoord,
    scope: DependencyScope,
    reached: DependencyScope,
    exclusions: Vec<Exclusion>,
    child_exclusions: Vec<Exclusion>,
    needs_recurse: bool,
}

impl View for DepInfo {
    type V = InfoModel;

    closed spec fn view(&self) -> InfoModel {
        InfoModel {
            coord: self.coord@,
            scope: self.scope,
            reached: self.reached,
            exclusions: text::views(self.exclusions@),
            child_exclusions: text::views(self.child_exclusions@),
            recurse: self.needs_recurse,
        }
    }
}

fn scope_of(d: &PomDependency) -> (r: DependencyScope)
    ensures
        r == declared_scope(d@),
{
    match &d.scope {
        Some(s) => match DependencyScope::parse(s.as_str()) {
            Ok(scope) => scope,
            Err(_) => DependencyScope::Compile,
        },
        None => DependencyScope::Compile,
    }
}

/// A declared dependency under what the root manages.
fn override_dependency(
    d: &PomDependency,
    managed: &Vec<PomDependency>,
    transitive: bool,
) -> (r: PomDependency)
    ensures
        r@ == overridden(d@, text::views(managed@), transitive),
{
    let mut out = d.clone();
    if let Some(i) = pom::find_managed(
        managed,
        d.group_id.as_str(),
        d.artifact_id.as_str(),
        d.effective_type(),
    ) {
        let m = &managed[i];
        out.version = text::clone_opt(&m.version);
        if transitive && m.scope.is_some() {
            out.scope = text::clone_opt(&m.scope);
        }
        out.exclusions = pom::add_exclusions(&d.exclusions, &m.exclusions);
    }
    out
}

/// The scope in the root of a dependency that takes part.
fn participates(d: &PomDependency, above: Option<DependencyScope>) -> (r: Option<
    DependencyScope,
>)
    ensures
        r is Some == takes_part(d@, above),
        r is Some ==> r == reached_scope(above, declared_scope(d@)),
{
    let optional = match &d.optional {
        Some(s) => text::str_eq(s.as_str(), "true"),
        None => false,
    };
    let scope = scope_of(d);
    let reached = match above {
        Some(parent) => resolver::propagate_scope(parent, scope),
        None => Some(scope),
    };
    match scope {
        DependencyScope::Import | DependencyScope::System => None,
        _ => if optional {
            None
        } else {
            reached
        },
    }
}

fn requested_version(d: &PomDependency) -> (r: String)
    ensures
        r@ == wanted_version(d@),
{
    match &d.version {
        Some(s) => s.clone(),
        None => String::new(),
    }
}

/// The version that a range selects among those that the metadata lists.
enum Choice {
    Version(String),
    Nothing,
    Unknown,
}

spec fn choice_view(c: Choice) -> Option<Option<Seq<char>>> {
    match c {
        Choice::Version(v) => Some(Some(v@)),
        Choice::Nothing => Some(None),
        Choice::Unknown => None,
    }
}

/// Resolves a version range such as `[1.0,2.0)` by the metadata of the artifact: the highest
/// version that lies in the range.
fn resolve_version_range(
    range: &str,
    group_id: &str,
    artifact_id: &str,
    metadata: &Known<MavenMetadata>,
) -> (r: Choice)
    ensures
        choice_view(r) == range_version(range@, group_id@, artifact_id@, metadata@),
{
    match VersionConstraint::parse(range) {
        Err(_) => Choice::Nothing,
        Ok(constraint) => {
            let key = metadata_key(group_id, artifact_id);
            match metadata.get(key.as_str()) {
                None => Choice::Unknown,
                Some(Fetched::Failed) => Choice::Nothing,
                Some(Fetched::Found(m)) => {
                    let versions = m.available_versions();
                    match select_version(&constraint, &versions) {
                        Some(v) => Choice::Version(v),
                        None => Choice::Nothing,
                    }
                },
            }
        },
    }
}

fn choose_version(d: &PomDependency, metadata: &Known<MavenMetadata>) -> (r: Choice)
    ensures
        choice_view(r) == chosen_version(d@, metadata@),
{
    let v = requested_version(d);
    if !effective::version_is_usable(v.as_str()) {
        return Choice::Nothing;
    }
    let chars = text::chars_of(v.as_str());
    if chars[0] == '[' || chars[0] == '(' {
        resolve_version_range(
            v.as_str(),
            d.group_id.as_str(),
            d.artifact_id.as_str(),
            metadata,
        )
    } else {
        Choice::Version(v)
    }
}

fn coordinates(d: &PomDependency, v: String) -> (r: ArtifactCoord)
    ensures
        r@ == coord_of_dependency(d@, v@),
{
    ArtifactCoord {
        group_id: d.group_id.clone(),
        artifact_id: d.artifact_id.clone(),
        version: v,
        classifier: text::clone_opt(&d.classifier),
        extension: d.effective_type().to_owned(),
    }
}

fn own_exclusions(d: &PomDependency) -> (r: Vec<Exclusion>)
    ensures
        text::views(r@) == exclusions_of(d@),
{
    let mut out: Vec<Exclusion> = Vec::new();
    let list = &d.exclusions.exclusion;
    for i in 0..list.len()
        invariant
            out@.len() == i,
            forall|j: int|
                0 <= j < i ==> (#[trigger] out@[j])@ == (ExclusionModel {
                    group_id: list@[j].group_id@,
                    artifact_id: list@[j].artifact_id@,
                }),
    {
        out.push(Exclusion::new(list[i].group_id.as_str(), list[i].artifact_id.as_str()));
    }
    assert(text::views(out@) =~= exclusions_of(d@));
    out
}

fn is_excluded(exclusions: &Vec<Exclusion>, c: &ArtifactCoord) -> (r: bool)
    ensures
        r == any_excludes(text::views(exclusions@), c@.group_id, c@.artifact_id),
{
    let ghost m = text::views(exclusions@);
    for i in 0..exclusions.len()
        invariant
            m == text::views(exclusions@),
            forall|j: int|
                0 <= j < i ==> !coord::excludes(#[trigger] m[j], c@.group_id, c@.artifact_id),
    {
        if exclusions[i].matches(c) {
            assert(coord::excludes(m[i as int], c@.group_id, c@.artifact_id));
            return true;
        }
    }
    false
}

fn make_info(
    d: &PomDependency,
    c: ArtifactCoord,
    reached: DependencyScope,
    exclusions: &Vec<Exclusion>,
    is_new: bool,
) -> (r: DepInfo)
    ensures
        r@.coord == c@,
        r@.scope == declared_scope(d@),
        r@.reached == reached,
        r@.exclusions == exclusions_of(d@),
        r@.child_exclusions == if is_new {
            text::views(exclusions@) + exclusions_of(d@)
        } else {
            text::views(exclusions@)
        },
        r@.recurse == is_new,
{
    let own = own_exclusions(d);
    let mut child_exclusions = resolver::clone_exclusions(exclusions);
    if is_new {
        let mut more = own_exclusions(d);
        let ghost a = child_exclusions@;
        let ghost b = more@;
        child_exclusions.append(&mut more);
        assert(text::views(child_exclusions@) =~= text::views(a) + text::views(b));
    }
    DepInfo {
        coord: c,
        scope: scope_of(d),
        reached,
        exclusions: own,
        child_exclusions,
        needs_recurse: is_new,
    }
}

/// The dependencies that take part below a node; nothing where metadata is to be fetched, which
/// is then added to `needs`.
fn select(
    deps: &Vec<PomDependency>,
    above: Option<DependencyScope>,
    exclusions: &Vec<Exclusion>,
    visited: &mut ArtifactSet,
    managed: &Vec<PomDependency>,
    metadata: &Known<MavenMetadata>,
    needs: &mut Vec<MetadataRequest>,
) -> (r: Option<Vec<DepInfo>>)
    ensures
        text::views(final(needs)@) == text::views(old(needs)@) + unlisted(
            text::views(deps@),
            0,
            above,
            text::views(managed@),
            metadata@,
        ),
        match r {
            Some(infos) => selected(
                text::views(deps@),
                0,
                above,
                text::views(exclusions@),
                old(visited)@,
                text::views(managed@),
                metadata@,
            ) == Some((text::views(infos@), final(visited)@)),
            None => selected(
                text::views(deps@),
                0,
                above,
                text::views(exclusions@),
                old(visited)@,
                text::views(managed@),
                metadata@,
            ) is None,
        },
{
    let mut infos: Vec<DepInfo> = Vec::new();
    let mut missing = false;
    let ghost ds = text::views(deps@);
    let ghost ex = text::views(exclusions@);
    let ghost mg = text::views(managed@);
    let ghost goal = selected(ds, 0, above, ex, visited@, mg, metadata@);
    let ghost needs0 = text::views(needs@);
    let ghost all = unlisted(ds, 0, above, mg, metadata@);
    proof {
        if let Some((rest, met)) = goal {
            assert(text::views(infos@) + rest =~= rest);
        }
    }
    for i in 0..deps.len()
        invariant
            ds == text::views(deps@),
            ex == text::views(exclusions@),
            mg == text::views(managed@),
            text::views(needs@) + unlisted(ds, i as int, above, mg, metadata@) == needs0 + all,
            missing ==> goal is None,
            !missing ==> goal == (match selected(
                ds,
                i as int,
                above,
                ex,
                visited@,
                mg,
                metadata@,
            ) {
                None => None,
                Some((rest, met)) => Some((text::views(infos@) + rest, met)),
            }),
    {
        let d = override_dependency(&deps[i], managed, above.is_some());
        assert(ds[i as int] == deps@[i as int]@);
        if let Some(reached) = participates(&d, above) {
            match choose_version(&d, metadata) {
                Choice::Unknown => {
                    missing = true;
                    let ghost before = text::views(needs@);
                    let request = MetadataRequest {
                        group_id: d.group_id.clone(),
                        artifact_id: d.artifact_id.clone(),
                    };
                    let ghost rm = request@;
                    needs.push(request);
                    proof {
                        let rest = unlisted(ds, i + 1, above, mg, metadata@);
                        assert(text::views(needs@) =~= before.push(rm));
                        assert(before + (seq![rm] + rest) =~= text::views(needs@) + rest);
                    }
                },
                Choice::Nothing => {},
                Choice::Version(v) => {
                    let ghost vm = v@;
                    let c = coordinates(&d, v);
                    if !is_excluded(exclusions, &c) {
                        let ghost visited0 = visited@;
                        let is_new = visited.insert(&d.group_id, &d.artifact_id);
                        let info = make_info(&d, c, reached, exclusions, is_new);
                        let ghost im = info@;
                        let ghost before = text::views(infos@);
                        infos.push(info);
                        proof {
                            assert(im =~= info_of(d@, vm, above, ex, visited0));
                            assert(text::views(infos@) =~= before.push(im));
                            if let Some((rest, met)) = selected(
                                ds,
                                i + 1,
                                above,
                                ex,
                                visited@,
                                mg,
                                metadata@,
                            ) {
                                assert(before + (seq![im] + rest) =~= text::views(infos@) + rest);
                            }
                        }
                    }
                },
            }
        }
    }
    assert(text::views(needs@) + Seq::<Ga>::empty() =~= text::views(needs@));
    if missing {
        return None;
    }
    assert(text::views(infos@) + Seq::<InfoModel>::empty() =~= text::views(infos@));
    Some(infos)
}

/// Where a POM says its artifact has moved to.
fn relocated(pom: &Pom, original: &ArtifactCoord) -> (r: Option<ArtifactCoord>)
    ensures
        text::opt_view(r) == relocation_of(pom@, original@),
{
    match &pom.distribution_management {
        Some(dm) => match &dm.relocation {
            Some(reloc) => {
                let g = match &reloc.group_id {
                    Some(g) => g,
                    None => &original.group_id,
                };
                let a = match &reloc.artifact_id {
                    Some(a) => a,
                    None => &original.artifact_id,
                };
                let v = match &reloc.version {
                    Some(v) => v,
                    None => &original.version,
                };
                if *g == original.group_id && *a == original.artifact_id && *v
                    == original.version {
                    None
                } else {
                    Some(ArtifactCoord::new(g.as_str(), a.as_str(), v.as_str()))
                }
            },
            None => None,
        },
        None => None,
    }
}

fn coord_key(c: &ArtifactCoord) -> (r: String)
    ensures
        r@ == effective::coord_key(c@),
{
    effective::key_of(c.group_id.as_str(), c.artifact_id.as_str(), c.version.as_str())
}

fn make_request(c: &ArtifactCoord) -> (r: PomRequest)
    ensures
        r@ == own_request(c@),
{
    let mut chain: Vec<String> = Vec::new();
    chain.push(coord_key(c));
    assert(text::views(chain@) =~= seq![effective::coord_key(c@)]);
    PomRequest { coord: c.clone(), depth: 0, chain }
}

/// Whether every entry is the effective model of its POM in its own right.
pub open spec fn remembers(models: KnownPoms, env: EnvironmentModel, raw: KnownPoms) -> bool {
    forall|j: int|
        0 <= j < models.len() ==> effective::model_at(
            (#[trigger] models[j]).0,
            0,
            seq![models[j].0],
            env,
            raw,
        ) == Some(models[j].1)
}

/// Brings the effective POM of an artifact into `models`, which keeps what was made before; where
/// that takes POMs that were not fetched yet, returns their coordinates.
fn settle(
    c: &ArtifactCoord,
    env: &Environment,
    raw: &Known<Pom>,
    models: &mut Known<Pom>,
) -> (r: Result<(), Vec<ArtifactCoord>>)
    requires
        remembers(old(models)@, env@, raw@),
    ensures
        remembers(final(models)@, env@, raw@),
        match r {
            Ok(()) => own_model(c@, env@, raw@) is Some && known::outcome(
                final(models)@,
                effective::coord_key(c@),
            ) == own_model(c@, env@, raw@),
            Err(coords) => {
                &&& own_model(c@, env@, raw@) is None
                &&& coords@.len() > 0
                &&& text::views(coords@) == effective::missing_at(own_request(c@), env@, raw@)
            },
        },
{
    let key = coord_key(c);
    if models.has(key.as_str()) {
        proof {
            known::lemma_known_from(models@, key@, 0);
            let j = known::known_from(models@, key@, 0);
            assert(models@[j].0 == key@);
        }
        return Ok(());
    }
    let request = make_request(c);
    match effective::resolve_effective_pom(&request, env, raw) {
        Effective::Needs(coords) => Err(coords),
        Effective::Known(f) => {
            let ghost before = models@;
            let ghost fm = f@;
            models.note(key.as_str(), f);
            proof {
                known::lemma_push_outcome(before, key@, fm, key@);
                assert forall|j: int| 0 <= j < models@.len() implies effective::model_at(
                    (#[trigger] models@[j]).0,
                    0,
                    seq![models@[j].0],
                    env@,
                    raw@,
                ) == Some(models@[j].1) by {
                    if j < before.len() {
                        assert(models@[j] == before[j]);
                    }
                }
            }
            Ok(())
        },
    }
}

/// The dependencies that stand below a node, at the end of its relocations; where that takes POMs
/// that were not fetched yet, their coordinates.
fn find_dependencies(
    c: &ArtifactCoord,
    env: &Environment,
    raw: &Known<Pom>,
    models: &mut Known<Pom>,
    Ghost(w): Ghost<WorldModel>,
) -> (r: Result<Dependencies, Vec<ArtifactCoord>>)
    requires
        remembers(old(models)@, env@, raw@),
        w.env == env@,
        w.raw == raw@,
    ensures
        remembers(final(models)@, env@, raw@),
        match r {
            Ok(ds) => pom_below(w, c@) is Some && text::views(ds.dependency@) == dependencies_of(
                pom_below(w, c@)->0,
            ),
            Err(coords) => {
                &&& pom_below(w, c@) is None
                &&& coords@.len() > 0
                &&& text::views(coords@) == missing_below(w, c@)
            },
        },
{
    let mut at = c.clone();
    let mut key = coord_key(c);
    let mut seen: Vec<String> = Vec::new();
    seen.push(key.clone());
    assert(text::views(seen@) =~= seq![effective::coord_key(c@)]);
    let none = Dependencies { dependency: Vec::new() };
    assert(text::views(none.dependency@) =~= Seq::empty());
    if let Err(coords) = settle(c, env, raw, models) {
        return Err(coords);
    }
    loop
        invariant
            remembers(models@, env@, raw@),
            w.env == env@,
            w.raw == raw@,
            text::views(none.dependency@) == Seq::<DependencyModel>::empty(),
            key@ == effective::coord_key(at@),
            own_model(at@, w.env, w.raw) is Some,
            known::outcome(models@, key@) == own_model(at@, w.env, w.raw),
            pom_below(w, c@) == (match own_model(at@, w.env, w.raw)->0 {
                Fetched::Failed => Some(None),
                Fetched::Found(p) => followed(w.env, w.raw, p, at@, text::views(seen@)),
            }),
            missing_below(w, c@) == (match own_model(at@, w.env, w.raw)->0 {
                Fetched::Failed => Seq::empty(),
                Fetched::Found(p) => missing_on_the_way(
                    w.env,
                    w.raw,
                    p,
                    at@,
                    text::views(seen@),
                ),
            }),
        decreases known::count_keys(w.raw, effective::outside(text::views(seen@)), 0),
    {
        let next = match models.get(key.as_str()) {
            Some(Fetched::Found(pom)) => match relocated(pom, &at) {
                None => {
                    return Ok(pom.dependencies.clone());
                },
                Some(next) => {
                    key = coord_key(&next);
                    if text::contains_string(&seen, key.as_str()) {
                        return Ok(pom.dependencies.clone());
                    }
                    next
                },
            },
            _ => {
                return Ok(none);
            },
        };
        proof {
            effective::lemma_longer_chain(w.raw, text::views(seen@), key@);
            lemma_own_model(next@, w.env, w.raw);
        }
        if let Err(coords) = settle(&next, env, raw, models) {
            return Err(coords);
        }
        let ghost before = text::views(seen@);
        at = next;
        seen.push(key.clone());
        assert(text::views(seen@) =~= before.push(key@));
    }
}

/// A node whose dependencies are still to be collected.
struct Open {
    dependencies: Dependencies,
    scope: Option<DependencyScope>,
    exclusions: Vec<Exclusion>,
}

spec fn open_view(o: Open) -> OpenModel {
    OpenModel {
        dependencies: text::views(o.dependencies.dependency@),
        scope: o.scope,
        exclusions: text::views(o.exclusions@),
    }
}

spec fn opens_view(os: Seq<Open>) -> Seq<OpenModel> {
    Seq::new(os.len(), |i: int| open_view(os[i]))
}

spec fn groups_view(gs: Seq<Vec<DependencyNode>>) -> Seq<Seq<NodeModel>> {
    Seq::new(gs.len(), |i: int| resolver::nodes_view(gs[i]@))
}

/// The dependencies of a level in one list, with the number of them in each group; where metadata
/// is to be fetched for that, the artifacts.
fn collect_level(
    opens: &Vec<Open>,
    visited: &mut ArtifactSet,
    managed: &Vec<PomDependency>,
    metadata: &Known<MavenMetadata>,
    Ghost(w): Ghost<WorldModel>,
) -> (r: Result<(Vec<DepInfo>, Vec<usize>), Vec<MetadataRequest>>)
    requires
        w.managed == text::views(managed@),
        w.metadata == metadata@,
    ensures
        match r {
            Ok((infos, counts)) => level_from(
                w,
                opens_view(opens@),
                0,
                old(visited)@,
            ) matches Some((groups, met)) && text::views(infos@) == all_of(groups)
                && final(visited)@ == met && counts@.len() == groups.len() && forall|k: int|
                0 <= k < groups.len() ==> (#[trigger] counts@[k]) == groups[k].len(),
            Err(needs) => {
                &&& level_from(w, opens_view(opens@), 0, old(visited)@) is None
                &&& needs@.len() > 0
                &&& text::views(needs@) == unlisted_below(w, opens_view(opens@), 0)
            },
        },
{
    let mut infos: Vec<DepInfo> = Vec::new();
    let mut counts: Vec<usize> = Vec::new();
    let mut needs: Vec<MetadataRequest> = Vec::new();
    let ghost os = opens_view(opens@);
    let ghost mut groups: Seq<Seq<InfoModel>> = Seq::empty();
    let ghost goal = level_from(w, os, 0, visited@);
    let ghost all = unlisted_below(w, os, 0);
    proof {
        lemma_unlisted_below(w, os, 0, visited@);
        assert(text::views(needs@) + all =~= all);
        assert(text::views(infos@) =~= all_of(groups));
        if let Some((rest, met)) = goal {
            assert(groups + rest =~= rest);
        }
    }
    for k in 0..opens.len()
        invariant
            w.managed == text::views(managed@),
            w.metadata == metadata@,
            os == opens_view(opens@),
            text::views(needs@) + unlisted_below(w, os, k as int) == all,
            text::views(infos@) == all_of(groups),
            counts@.len() == groups.len(),
            forall|j: int| 0 <= j < groups.len() ==> (#[trigger] counts@[j]) == groups[j].len(),
            needs@.len() == 0 ==> goal == (match level_from(w, os, k as int, visited@) {
                None => None,
                Some((rest, met)) => Some((groups + rest, met)),
            }),
    {
        let open = &opens[k];
        assert(os[k as int] == open_view(*open));
        let ghost visited0 = visited@;
        let ghost needs0 = text::views(needs@);
        let found = select(
            &open.dependencies.dependency,
            open.scope,
            &open.exclusions,
            visited,
            managed,
            metadata,
            &mut needs,
        );
        proof {
            let own = unlisted(
                os[k as int].dependencies,
                0,
                os[k as int].scope,
                w.managed,
                w.metadata,
            );
            lemma_unlisted(
                os[k as int].dependencies,
                0,
                os[k as int].scope,
                os[k as int].exclusions,
                visited0,
                w.managed,
                w.metadata,
            );
            assert(needs0 + (own + unlisted_below(w, os, k + 1)) =~= text::views(needs@)
                + unlisted_below(w, os, k + 1));
            assert(text::views(needs@).len() == needs@.len());
        }
        if let Some(found) = found {
            let mut more = found;
            let ghost mv = text::views(more@);
            let ghost before = text::views(infos@);
            proof {
                assert(infos_below(w, os[k as int], visited0) == Some((mv, visited@)));
                lemma_all_of_push(groups, mv);
                if let Some((rest, met)) = level_from(w, os, k + 1, visited@) {
                    assert(groups + (seq![mv] + rest) =~= groups.push(mv) + rest);
                }
                groups = groups.push(mv);
            }
            counts.push(more.len());
            infos.append(&mut more);
            assert(text::views(infos@) =~= before + mv);
        }
    }
    assert(text::views(needs@) =~= all);
    if needs.len() > 0 {
        return Err(needs);
    }
    assert(groups + Seq::<Seq<InfoModel>>::empty() =~= groups);
    Ok((infos, counts))
}

/// The dependencies of a level as open nodes; where POMs are to be fetched for that, their
/// coordinates.
fn open_all(
    infos: &Vec<DepInfo>,
    env: &Environment,
    raw: &Known<Pom>,
    models: &mut Known<Pom>,
    Ghost(w): Ghost<WorldModel>,
) -> (r: Result<Vec<Open>, Vec<ArtifactCoord>>)
    requires
        remembers(old(models)@, env@, raw@),
        w.env == env@,
        w.raw == raw@,
    ensures
        remembers(final(models)@, env@, raw@),
        match r {
            Ok(opens) => opened_from(w, text::views(infos@), 0) == Some(opens_view(opens@)),
            Err(coords) => {
                &&& opened_from(w, text::views(infos@), 0) is None
                &&& coords@.len() > 0
                &&& text::views(coords@) == missing_level(w, text::views(infos@), 0)
            },
        },
{
    let mut opens: Vec<Open> = Vec::new();
    let mut needs: Vec<ArtifactCoord> = Vec::new();
    let ghost ims = text::views(infos@);
    let ghost goal = opened_from(w, ims, 0);
    let ghost all = missing_level(w, ims, 0);
    proof {
        lemma_missing_level(w, ims, 0);
        assert(text::views(needs@) + all =~= all);
        if let Some(rest) = goal {
            assert(opens_view(opens@) + rest =~= rest);
        }
    }
    for i in 0..infos.len()
        invariant
            remembers(models@, env@, raw@),
            w.env == env@,
            w.raw == raw@,
            ims == text::views(infos@),
            text::views(needs@) + missing_level(w, ims, i as int) == all,
            needs@.len() == 0 ==> goal == (match opened_from(w, ims, i as int) {
                None => None,
                Some(rest) => Some(opens_view(opens@) + rest),
            }),
    {
        let info = &infos[i];
        let ghost im = ims[i as int];
        assert(im == info@);
        let ghost needs0 = text::views(needs@);
        let ghost rest = missing_level(w, ims, i + 1);
        let dependencies = if info.needs_recurse {
            proof {
                lemma_missing_below(w, im.coord);
            }
            match find_dependencies(&info.coord, env, raw, models, Ghost(w)) {
                Ok(ds) => {
                    assert(missing_below(w, im.coord) + rest =~= rest);
                    ds
                },
                Err(coords) => {
                    let mut coords = coords;
                    let ghost cs = coords@;
                    needs.append(&mut coords);
                    proof {
                        assert(text::views(needs@) =~= needs0 + text::views(cs));
                        assert(needs0 + (text::views(cs) + rest) =~= text::views(needs@) + rest);
                    }
                    Dependencies { dependency: Vec::new() }
                },
            }
        } else {
            let none = Dependencies { dependency: Vec::new() };
            assert(text::views(none.dependency@) =~= Seq::empty());
            none
        };
        let ghost before = opens@;
        let open = Open {
            dependencies,
            scope: Some(info.reached),
            exclusions: resolver::clone_exclusions(&info.child_exclusions),
        };
        let ghost om = open_view(open);
        opens.push(open);
        proof {
            if needs@.len() == 0 {
                assert(open_of(w, im) == Some(om));
            }
            assert(opens_view(opens@) =~= opens_view(before).push(om));
            if let Some(rest) = opened_from(w, ims, i + 1) {
                assert(opens_view(before) + (seq![om] + rest) =~= opens_view(opens@) + rest);
            }
        }
    }
    assert(text::views(needs@) =~= all);
    if needs.len() > 0 {
        return Err(needs);
    }
    assert(opens_view(opens@) + Seq::<OpenModel>::empty() =~= opens_view(opens@));
    Ok(opens)
}

/// The nodes for the dependencies of a level with what stands below them, last one first.
fn make_nodes(infos: Vec<DepInfo>, below: Vec<Vec<DependencyNode>>) -> (r: Vec<DependencyNode>)
    requires
        infos@.len() == below@.len(),
    ensures
        r@.len() == infos@.len(),
        forall|i: int|
            0 <= i < r@.len() ==> (#[trigger] r@[i])@ == nodes_of(
                text::views(infos@),
                groups_view(below@),
            )[r@.len() - 1 - i],
{
    let ghost ims = text::views(infos@);
    let ghost bm = groups_view(below@);
    let ghost n = infos@.len();
    let mut infos = infos;
    let mut below = below;
    let mut nodes: Vec<DependencyNode> = Vec::new();
    while infos.len() > 0
        invariant
            infos@.len() == below@.len(),
            infos@.len() + nodes@.len() == n,
            n == ims.len(),
            n == bm.len(),
            forall|i: int| 0 <= i < infos@.len() ==> (#[trigger] infos@[i])@ == ims[i],
            forall|i: int|
                0 <= i < below@.len() ==> resolver::nodes_view((#[trigger] below@[i])@) == bm[i],
            forall|i: int|
                0 <= i < nodes@.len() ==> (#[trigger] nodes@[i])@ == nodes_of(ims, bm)[n - 1 - i],
        decreases infos@.len(),
    {
        let ghost last = infos@.len() - 1;
        assert(infos@[last]@ == ims[last]);
        assert(resolver::nodes_view(below@[last]@) == bm[last]);
        match (infos.pop(), below.pop()) {
            (Some(info), Some(children)) => {
                let exclusions = if info.needs_recurse {
                    info.exclusions
                } else {
                    Vec::new()
                };
                let node = DependencyNode {
                    coord: info.coord,
                    scope: info.scope,
                    optional: false,
                    exclusions,
                    children,
                };
                assert(node@ =~= node_of(ims[last], bm[last]));
                nodes.push(node);
            },
            _ => {},
        }
    }
    nodes
}

/// The nodes of a level, handed over last one first, in the groups that they stand in.
fn group_nodes(
    nodes: Vec<DependencyNode>,
    counts: &Vec<usize>,
    Ghost(groups): Ghost<Seq<Seq<InfoModel>>>,
    Ghost(flat): Ghost<Seq<NodeModel>>,
) -> (out: Vec<Vec<DependencyNode>>)
    requires
        counts@.len() == groups.len(),
        forall|k: int| 0 <= k < groups.len() ==> (#[trigger] counts@[k]) == groups[k].len(),
        flat.len() == all_of(groups).len(),
        nodes@.len() == flat.len(),
        forall|i: int|
            0 <= i < nodes@.len() ==> (#[trigger] nodes@[i])@ == flat[flat.len() - 1 - i],
    ensures
        groups_view(out@) == grouped(groups, flat),
{
    let mut nodes = nodes;
    let mut out: Vec<Vec<DependencyNode>> = Vec::new();
    let ghost mut taken: int = 0;
    let ghost result = grouped(groups, flat);
    proof {
        assert(flat.skip(0) =~= flat);
        assert(groups.skip(0) =~= groups);
        assert(groups_view(out@) + result =~= result);
    }
    for k in 0..counts.len()
        invariant
            counts@.len() == groups.len(),
            forall|j: int| 0 <= j < groups.len() ==> (#[trigger] counts@[j]) == groups[j].len(),
            0 <= taken <= flat.len(),
            nodes@.len() == flat.len() - taken,
            all_of(groups.skip(k as int)).len() == nodes@.len(),
            forall|i: int|
                0 <= i < nodes@.len() ==> (#[trigger] nodes@[i])@ == flat[flat.len() - 1 - i],
            result == groups_view(out@) + grouped(groups.skip(k as int), flat.skip(taken)),
    {
        let count: usize = counts[k];
        let ghost here = groups.skip(k as int);
        proof {
            assert(here[0] == groups[k as int]);
            assert(here.skip(1) =~= groups.skip(k + 1));
            assert(counts@[k as int] == groups[k as int].len());
        }
        let mut group: Vec<DependencyNode> = Vec::new();
        for j in 0..count
            invariant
                0 <= taken,
                taken + count <= flat.len(),
                nodes@.len() == flat.len() - taken - j,
                group@.len() == j,
                forall|i: int|
                    0 <= i < nodes@.len() ==> (#[trigger] nodes@[i])@ == flat[flat.len() - 1 - i],
                forall|i: int| 0 <= i < j ==> (#[trigger] group@[i])@ == flat[taken + i],
        {
            assert(nodes@[nodes@.len() - 1]@ == flat[taken + j]);
            if let Some(node) = nodes.pop() {
                group.push(node);
            }
        }
        proof {
            let gm = resolver::nodes_view(group@);
            resolver::lemma_nodes_view(group@);
            assert forall|i: int| 0 <= i < count implies #[trigger] gm[i] == flat[taken + i] by {
                assert(group@[i]@ == flat[taken + i]);
            }
            assert(gm =~= flat.skip(taken).take(count as int));
            assert(flat.skip(taken).skip(count as int) =~= flat.skip(taken + count));
        }
        let ghost before = groups_view(out@);
        let ghost gm = resolver::nodes_view(group@);
        out.push(group);
        proof {
            assert(groups_view(out@) =~= before.push(gm));
            assert(before + (seq![gm] + grouped(groups.skip(k + 1), flat.skip(taken + count)))
                =~= groups_view(out@) + grouped(groups.skip(k + 1), flat.skip(taken + count)));
            taken = taken + count;
        }
    }
    proof {
        assert(groups.skip(groups.len() as int) =~= Seq::empty());
        assert(groups_view(out@) + Seq::<Seq<NodeModel>>::empty() =~= groups_view(out@));
    }
    out
}

/// Collects what stands below the open nodes of a level, breadth first; where documents are to be
/// fetched for that, says which.
///
/// `managed` is what the root manages: it holds for the whole tree, so that the versions of the
/// top-level POM always win.
fn collect_children(
    opens: &Vec<Open>,
    visited: &mut ArtifactSet,
    depth: usize,
    managed: &Vec<PomDependency>,
    env: &Environment,
    raw: &Known<Pom>,
    models: &mut Known<Pom>,
    metadata: &Known<MavenMetadata>,
    Ghost(w): Ghost<WorldModel>,
) -> (r: Result<Vec<Vec<DependencyNode>>, Needs>)
    requires
        remembers(old(models)@, env@, raw@),
        w.env == env@,
        w.raw == raw@,
        w.metadata == metadata@,
        w.managed == text::views(managed@),
    ensures
        remembers(final(models)@, env@, raw@),
        match r {
            Ok(groups) => collected(w, opens_view(opens@), old(visited)@, depth as nat) == Some(
                groups_view(groups@),
            ),
            Err(needs) => {
                &&& collected(w, opens_view(opens@), old(visited)@, depth as nat) is None
                &&& needs@ == wanted(w, opens_view(opens@), old(visited)@, depth as nat)
                &&& !is_nothing(needs@)
            },
        },
    decreases MAX_DEPTH - depth,
{
    let ghost os = opens_view(opens@);
    if depth >= MAX_DEPTH || opens.len() == 0 {
        let mut out: Vec<Vec<DependencyNode>> = Vec::new();
        for k in 0..opens.len()
            invariant
                out@.len() == k,
                forall|j: int| 0 <= j < k ==> (#[trigger] out@[j])@.len() == 0,
        {
            out.push(Vec::new());
        }
        proof {
            let bare: Seq<Seq<NodeModel>> = Seq::new(os.len(), |i: int| Seq::empty());
            assert forall|i: int| 0 <= i < out@.len() implies groups_view(out@)[i]
                =~= #[trigger] bare[i] by {
                resolver::lemma_nodes_view(out@[i]@);
            }
            assert(groups_view(out@) =~= bare);
        }
        return Ok(out);
    }
    let (infos, counts) = match collect_level(opens, visited, managed, metadata, Ghost(w)) {
        Ok(level) => level,
        Err(unlisted) => {
            let needs = Needs { poms: Vec::new(), metadata: unlisted };
            assert(needs@.poms =~= Seq::empty());
            return Err(needs);
        },
    };
    let ghost (groups, met) = level_from(w, os, 0, old(visited)@)->0;
    let ghost ims = text::views(infos@);
    let next = match open_all(&infos, env, raw, models, Ghost(w)) {
        Ok(next) => next,
        Err(poms) => {
            let needs = Needs { poms, metadata: Vec::new() };
            assert(needs@.metadata =~= Seq::empty());
            return Err(needs);
        },
    };
    let below = match collect_children(
        &next,
        visited,
        depth + 1,
        managed,
        env,
        raw,
        models,
        metadata,
        Ghost(w),
    ) {
        Ok(below) => below,
        Err(needs) => {
            return Err(needs);
        },
    };
    let ghost bm = groups_view(below@);
    let ghost flat = nodes_of(ims, bm);
    proof {
        lemma_opened_len(w, ims, 0);
        lemma_collected_len(w, opens_view(next@), met, depth as nat + 1);
    }
    let nodes = make_nodes(infos, below);
    Ok(group_nodes(nodes, &counts, Ghost(groups), Ghost(flat)))
}

fn without_repetitions(needs: Needs) -> (r: Needs)
    ensures
        r@ == distinct_needs(needs@),
{
    let mut poms: Vec<ArtifactCoord> = Vec::new();
    let ghost pm = needs@.poms;
    assert(pm.take(0) =~= Seq::empty());
    assert(text::views(poms@) =~= Seq::empty());
    for i in 0..needs.poms.len()
        invariant
            pm == text::views(needs.poms@),
            text::views(poms@) == distinct_poms(pm.take(i as int)),
    {
        let c = &needs.poms[i];
        let key = coord_key(c);
        let mut repeated = false;
        for j in 0..poms.len()
            invariant
                key@ == effective::coord_key(c@),
                repeated == names_pom(text::views(poms@).take(j as int), key@),
        {
            let other = coord_key(&poms[j]);
            let ghost all = text::views(poms@);
            proof {
                let upto = all.take(j as int);
                let more = all.take(j + 1);
                assert(more[j as int] == poms@[j as int]@);
                if names_pom(upto, key@) {
                    let n = choose|n: int|
                        0 <= n < upto.len() && effective::coord_key(#[trigger] upto[n]) == key@;
                    assert(more[n] == upto[n]);
                }
                if names_pom(more, key@) && other@ != key@ {
                    let n = choose|n: int|
                        0 <= n < more.len() && effective::coord_key(#[trigger] more[n]) == key@;
                    assert(upto[n] == more[n]);
                }
            }
            if text::str_eq(other.as_str(), key.as_str()) {
                repeated = true;
            }
        }
        proof {
            assert(text::views(poms@).take(poms@.len() as int) =~= text::views(poms@));
            assert(pm.take(i + 1).drop_last() =~= pm.take(i as int));
            assert(pm.take(i + 1).last() == c@);
        }
        if !repeated {
            let ghost before = text::views(poms@);
            poms.push(c.clone());
            assert(text::views(poms@) =~= before.push(c@));
        }
    }
    assert(pm.take(pm.len() as int) =~= pm);
    let mut metadata: Vec<MetadataRequest> = Vec::new();
    let ghost mm = needs@.metadata;
    assert(mm.take(0) =~= Seq::empty());
    assert(text::views(metadata@) =~= Seq::empty());
    for i in 0..needs.metadata.len()
        invariant
            mm == text::views(needs.metadata@),
            text::views(metadata@) == distinct_artifacts(mm.take(i as int)),
    {
        let m = &needs.metadata[i];
        let mut repeated = false;
        for j in 0..metadata.len()
            invariant
                repeated == text::views(metadata@).take(j as int).contains(m@),
        {
            let other = &metadata[j];
            let ghost all = text::views(metadata@);
            proof {
                let upto = all.take(j as int);
                let more = all.take(j + 1);
                assert(more[j as int] == other@);
                if upto.contains(m@) {
                    let n = choose|n: int| 0 <= n < upto.len() && upto[n] == m@;
                    assert(more[n] == m@);
                }
                if more.contains(m@) && other@ != m@ {
                    let n = choose|n: int| 0 <= n < more.len() && more[n] == m@;
                    assert(upto[n] == m@);
                }
            }
            if other.group_id == m.group_id && other.artifact_id == m.artifact_id {
                repeated = true;
            }
        }
        proof {
            assert(text::views(metadata@).take(metadata@.len() as int) =~= text::views(metadata@));
            assert(mm.take(i + 1).drop_last() =~= mm.take(i as int));
            assert(mm.take(i + 1).last() == m@);
        }
        if !repeated {
            let ghost before = text::views(metadata@);
            metadata.push(
                MetadataRequest {
                    group_id: m.group_id.clone(),
                    artifact_id: m.artifact_id.clone(),
                },
            );
            assert(text::views(metadata@) =~= before.push(m@));
        }
    }
    assert(mm.take(mm.len() as int) =~= mm);
    Needs { poms, metadata }
}

// ============================================================================
// What a POM manages
// ============================================================================

/// What a dependency is managed by: its group, its artifact and its type.
pub type ManagedKey = (Seq<char>, Seq<char>, Seq<char>);

/// What a dependency is managed by.
pub open spec fn managed_key(d: DependencyModel) -> ManagedKey {
    (d.group_id, d.artifact_id, pom::type_of(d))
}

/// Managed dependencies by key; a later entry takes the place of an earlier one.
pub open spec fn managed_map(ds: Seq<DependencyModel>) -> Map<ManagedKey, DependencyModel>
    decreases ds.len(),
{
    if ds.len() == 0 {
        Map::empty()
    } else {
        managed_map(ds.drop_last()).insert(managed_key(ds.last()), ds.last())
    }
}

/// The map holds what `managed_entry` finds.
pub proof fn lemma_managed_map(
    ds: Seq<DependencyModel>,
    g: Seq<char>,
    a: Seq<char>,
    t: Seq<char>,
)
    ensures
        match pom::managed_entry(ds, g, a, t) {
            Some(d) => managed_map(ds).contains_key((g, a, t)) && managed_map(ds)[(g, a, t)] == d,
            None => !managed_map(ds).contains_key((g, a, t)),
        },
        managed_map(ds).dom().finite(),
    decreases ds.len(),
{
    if ds.len() > 0 {
        lemma_managed_map(ds.drop_last(), g, a, t);
    }
}

/// The managed dependencies of a POM by group, artifact and type.
#[derive(Debug)]
pub struct ManagedMap {
    entries: Vec<PomDependency>,
}

impl View for ManagedMap {
    type V = Map<ManagedKey, DependencyModel>;

    closed spec fn view(&self) -> Map<ManagedKey, DependencyModel> {
        managed_map(text::views(self.entries@))
    }
}

impl ManagedMap {
    /// The managed dependency on an artifact of a group in its usual type, `jar`.
    pub fn get(&self, group_id: &str, artifact_id: &str) -> (r: Option<&PomDependency>)
        ensures
            match r {
                Some(m) => self@.contains_key((group_id@, artifact_id@, "jar"@)) && self@[(
                    group_id@,
                    artifact_id@,
                    "jar"@,
                )] == m@,
                None => !self@.contains_key((group_id@, artifact_id@, "jar"@)),
            },
    {
        self.get_typed(group_id, artifact_id, "jar")
    }

    /// The managed dependency on an artifact of a group in a type.
    pub fn get_typed(&self, group_id: &str, artifact_id: &str, dep_type: &str) -> (r: Option<
        &PomDependency,
    >)
        ensures
            match r {
                Some(m) => self@.contains_key((group_id@, artifact_id@, dep_type@)) && self@[(
                    group_id@,
                    artifact_id@,
                    dep_type@,
                )] == m@,
                None => !self@.contains_key((group_id@, artifact_id@, dep_type@)),
            },
    {
        proof {
            lemma_managed_map(text::views(self.entries@), group_id@, artifact_id@, dep_type@);
        }
        match pom::find_managed(&self.entries, group_id, artifact_id, dep_type) {
            Some(i) => Some(&self.entries[i]),
            None => None,
        }
    }

    /// The number of keys that are managed.
    pub fn len(&self) -> (r: usize)
        ensures
            r == self@.dom().len(),
    {
        let ghost m = text::views(self.entries@);
        let mut n: usize = 0;
        assert(m.take(0) =~= Seq::empty());
        for i in 0..self.entries.len()
            invariant
                m == text::views(self.entries@),
                n <= i,
                n == managed_map(m.take(i as int)).dom().len(),
        {
            let d = &self.entries[i];
            let mut first = true;
            for j in 0..i
                invariant
                    m == text::views(self.entries@),
                    i < self.entries@.len(),
                    d@ == m[i as int],
                    first == !managed_map(m.take(j as int)).contains_key(managed_key(d@)),
            {
                assert(m.take(j + 1).drop_last() =~= m.take(j as int));
                assert(m.take(j + 1).last() == m[j as int]);
                let e = &self.entries[j];
                if e.group_id == d.group_id && e.artifact_id == d.artifact_id && text::str_eq(
                    e.effective_type(),
                    d.effective_type(),
                ) {
                    first = false;
                }
            }
            proof {
                assert(m.take(i + 1).drop_last() =~= m.take(i as int));
                assert(m.take(i + 1).last() == m[i as int]);
                let key = managed_key(d@);
                lemma_managed_map(m.take(i as int), key.0, key.1, key.2);
            }
            if first {
                n += 1;
            }
        }
        assert(m.take(m.len() as int) =~= m);
        n
    }

    /// Whether nothing is managed.
    pub fn is_empty(&self) -> (r: bool)
        ensures
            r == (self@.dom().len() == 0),
    {
        self.len() == 0
    }
}

fn managed_dependencies(pom: &Pom) -> (r: Vec<PomDependency>)
    ensures
        text::views(r@) == management_of(pom@),
{
    match &pom.dependency_management {
        Some(dm) => {
            let copy = dm.dependencies.clone();
            copy.dependency
        },
        None => {
            let r: Vec<PomDependency> = Vec::new();
            assert(text::views(r@) =~= Seq::empty());
            r
        },
    }
}

// ============================================================================
// Resolving
// ============================================================================

/// Resolves Maven dependencies: it collects the tree, resolves conflicts by nearness, and says
/// which documents it needs for that.
///
/// - Parent POM chains are followed up to a limit
/// - BOM imports are carried out, circular ones passed over
/// - What the root POM manages holds for all transitive dependencies
/// - Version ranges are resolved by the metadata of the artifact
/// - Relocations are followed, circular ones passed over
/// - The tree is collected breadth first: an artifact is expanded where it is nearest
#[derive(Debug)]
pub struct DependencyResolver {
    env: Environment,
    raw: Known<Pom>,
    poms: Known<Pom>,
    metadata: Known<MavenMetadata>,
}

/// How far the collection of a tree has come.
#[derive(Debug)]
pub enum Progress {
    /// The tree is complete.
    Tree(Vec<DependencyNode>),
    /// These documents are needed to go on.
    Needs(Needs),
    /// The POM of the root cannot be had.
    Unavailable,
}

impl DependencyResolver {
    /// The environment that POMs are interpolated in.
    pub closed spec fn env(&self) -> EnvironmentModel {
        self.env@
    }

    /// The POMs that were fetched.
    pub closed spec fn fetched(&self) -> KnownPoms {
        self.raw@
    }

    /// The metadata that was fetched.
    pub closed spec fn metadata(&self) -> KnownMetadata {
        self.metadata@
    }

    /// The effective POMs that are kept are those of the fetched POMs.
    pub closed spec fn wf(&self) -> bool {
        remembers(self.poms@, self.env@, self.raw@)
    }

    /// A resolver that knows nothing yet.
    pub fn new(env: Environment) -> (r: DependencyResolver)
        ensures
            r.wf(),
            r.env() == env@,
            r.fetched().len() == 0,
            r.metadata().len() == 0,
    {
        DependencyResolver {
            env,
            raw: Known::new(),
            poms: Known::new(),
            metadata: Known::new(),
        }
    }

    /// Notes what came of fetching the POM of an artifact.
    pub fn note_pom(&mut self, coord: &ArtifactCoord, answer: Fetched<Pom>)
        requires
            old(self).wf(),
        ensures
            final(self).wf(),
            final(self).env() == old(self).env(),
            final(self).metadata() == old(self).metadata(),
            final(self).fetched() == if known::outcome(
                old(self).fetched(),
                effective::coord_key(coord@),
            ) is Some {
                old(self).fetched()
            } else {
                old(self).fetched().push((effective::coord_key(coord@), answer@))
            },
    {
        let key = coord_key(coord);
        let ghost before = self.raw@;
        let ghost am = answer@;
        self.raw.note(key.as_str(), answer);
        proof {
            if known::outcome(before, key@) is None {
                assert forall|k: Seq<char>|
                    (#[trigger] known::outcome(before, k)) is Some implies known::outcome(
                    self.raw@,
                    k,
                ) == known::outcome(before, k) by {
                    known::lemma_push_outcome(before, key@, am, k);
                }
                assert forall|j: int| 0 <= j < self.poms@.len() implies effective::model_at(
                    (#[trigger] self.poms@[j]).0,
                    0,
                    seq![self.poms@[j].0],
                    self.env@,
                    self.raw@,
                ) == Some(self.poms@[j].1) by {
                    let k = self.poms@[j].0;
                    laws::effective::complete_model_stays(
                        k,
                        0,
                        seq![k],
                        self.env@,
                        before,
                        self.raw@,
                    );
                }
            }
        }
    }

    /// Notes what came of fetching the metadata of an artifact.
    pub fn note_metadata(
        &mut self,
        group_id: &str,
        artifact_id: &str,
        answer: Fetched<MavenMetadata>,
    )
        requires
            old(self).wf(),
        ensures
            final(self).wf(),
            final(self).env() == old(self).env(),
            final(self).fetched() == old(self).fetched(),
            final(self).metadata() == if known::outcome(
                old(self).metadata(),
                ga_key(group_id@, artifact_id@),
            ) is Some {
                old(self).metadata()
            } else {
                old(self).metadata().push((ga_key(group_id@, artifact_id@), answer@))
            },
    {
        let key = metadata_key(group_id, artifact_id);
        self.metadata.note(key.as_str(), answer);
    }

    /// The dependency tree of an artifact as far as the fetched documents give it, or the documents
    /// that are to be fetched for it.
    pub fn collect(&mut self, coord: &ArtifactCoord) -> (r: Progress)
        requires
            old(self).wf(),
        ensures
            final(self).wf(),
            final(self).env() == old(self).env(),
            final(self).fetched() == old(self).fetched(),
            final(self).metadata() == old(self).metadata(),
            match r {
                Progress::Tree(tree) => resolution(
                    coord@,
                    old(self).env(),
                    old(self).fetched(),
                    old(self).metadata(),
                ) == Some(Some(resolver::nodes_view(tree@))),
                Progress::Unavailable => resolution(
                    coord@,
                    old(self).env(),
                    old(self).fetched(),
                    old(self).metadata(),
                ) == Some(None::<Seq<NodeModel>>),
                Progress::Needs(needs) => {
                    &&& resolution(
                        coord@,
                        old(self).env(),
                        old(self).fetched(),
                        old(self).metadata(),
                    ) is None
                    &&& needs@ == documents_wanted(
                        coord@,
                        old(self).env(),
                        old(self).fetched(),
                        old(self).metadata(),
                    )
                    &&& !is_nothing(needs@)
                },
            },
    {
        let key = coord_key(coord);
        if let Err(poms) = settle(coord, &self.env, &self.raw, &mut self.poms) {
            let needs = Needs { poms, metadata: Vec::new() };
            assert(needs@.metadata =~= Seq::empty());
            proof {
                lemma_distinct_needs(needs@);
            }
            return Progress::Needs(without_repetitions(needs));
        }
        let (managed, dependencies) = match self.poms.get(key.as_str()) {
            Some(Fetched::Found(p)) => (managed_dependencies(p), p.dependencies.clone()),
            _ => {
                return Progress::Unavailable;
            },
        };
        let ghost p = own_model(coord@, self.env@, self.raw@)->0->Found_0;
        let ghost w = world_of(p, self.env@, self.raw@, self.metadata@);
        let mut visited = ArtifactSet::new();
        visited.insert(&coord.group_id, &coord.artifact_id);
        let mut opens: Vec<Open> = Vec::new();
        opens.push(Open { dependencies, scope: None, exclusions: Vec::new() });
        proof {
            assert(visited@ =~= set![(coord@.group_id, coord@.artifact_id)]);
            assert(open_view(opens@[0]) =~= root_of(p));
            assert(opens_view(opens@) =~= seq![root_of(p)]);
            lemma_collected_len(w, opens_view(opens@), visited@, 0);
        }
        match collect_children(
            &opens,
            &mut visited,
            0,
            &managed,
            &self.env,
            &self.raw,
            &mut self.poms,
            &self.metadata,
            Ghost(w),
        ) {
            Ok(groups) => {
                let mut groups = groups;
                match groups.pop() {
                    Some(tree) => Progress::Tree(tree),
                    None => Progress::Unavailable,
                }
            },
            Err(needs) => {
                proof {
                    lemma_distinct_needs(needs@);
                }
                Progress::Needs(without_repetitions(needs))
            },
        }
    }

    /// Where a POM says its artifact has moved to, unless it names the artifact itself.
    pub fn check_relocation(pom: &Pom, original: &ArtifactCoord) -> (r: Option<ArtifactCoord>)
        ensures
            text::opt_view(r) == relocation_of(pom@, original@),
    {
        relocated(pom, original)
    }

    /// The managed dependencies of a POM by group, artifact and type.
    pub fn build_managed_map(pom: &Pom) -> (r: ManagedMap)
        ensures
            r@ == managed_map(management_of(pom@)),
    {
        ManagedMap { entries: managed_dependencies(pom) }
    }

    /// Flattens a tree: breadth first, and the nearest occurrence of an artifact wins.
    pub fn flatten(
        &self,
        tree: &Vec<DependencyNode>,
        scope_filter: Option<DependencyScope>,
    ) -> (r: Vec<ResolvedDependency>)
        ensures
            text::views(r@) == resolver::flat(resolver::nodes_view(tree@), scope_filter),
    {
        resolver::flatten(tree, scope_filter)
    }
}

proof fn lemma_distinct_needs(needs: NeedsModel)
    ensures
        is_nothing(distinct_needs(needs)) == is_nothing(needs),
{
    lemma_distinct_poms(needs.poms);
    lemma_distinct_artifacts(needs.metadata);
}

/// Something is left without repetitions just where there was something, all of it was there, and
/// none of it stands twice.
pub proof fn lemma_distinct_poms(coords: Seq<CoordModel>)
    ensures
        distinct_poms(coords).len() == 0 <==> coords.len() == 0,
        forall|i: int|
            0 <= i < distinct_poms(coords).len() ==> coords.contains(
                #[trigger] distinct_poms(coords)[i],
            ),
        forall|i: int, j: int|
            0 <= i < j < distinct_poms(coords).len() ==> effective::coord_key(
                #[trigger] distinct_poms(coords)[i],
            ) != effective::coord_key(#[trigger] distinct_poms(coords)[j]),
    decreases coords.len(),
{
    if coords.len() > 0 {
        let front = coords.drop_last();
        lemma_distinct_poms(front);
        let all = distinct_poms(coords);
        assert forall|i: int| 0 <= i < all.len() implies coords.contains(#[trigger] all[i]) by {
            let first = distinct_poms(front);
            if i < first.len() {
                assert(all[i] == first[i]);
                let n = choose|n: int| 0 <= n < front.len() && front[n] == first[i];
                assert(coords[n] == all[i]);
            } else {
                assert(coords[coords.len() - 1] == all[i]);
            }
        }
    }
}

/// Something is left without repetitions just where there was something, all of it was there, and
/// none of it stands twice.
pub proof fn lemma_distinct_artifacts(artifacts: Seq<Ga>)
    ensures
        distinct_artifacts(artifacts).len() == 0 <==> artifacts.len() == 0,
        forall|i: int|
            0 <= i < distinct_artifacts(artifacts).len() ==> artifacts.contains(
                #[trigger] distinct_artifacts(artifacts)[i],
            ),
        distinct_artifacts(artifacts).no_duplicates(),
    decreases artifacts.len(),
{
    if artifacts.len() > 0 {
        let front = artifacts.drop_last();
        lemma_distinct_artifacts(front);
        let all = distinct_artifacts(artifacts);
        assert forall|i: int| 0 <= i < all.len() implies artifacts.contains(#[trigger] all[i]) by {
            let first = distinct_artifacts(front);
            if i < first.len() {
                assert(all[i] == first[i]);
                let n = choose|n: int| 0 <= n < front.len() && front[n] == first[i];
                assert(artifacts[n] == all[i]);
            } else {
                assert(artifacts[artifacts.len() - 1] == all[i]);
            }
        }
    }
}

} // verus!
