//! Laws of which documents are asked for, and of how deep trees go.
use crate::collect;
use crate::collect::InfoModel;
use crate::collect::KnownMetadata;
use crate::collect::OpenModel;
use crate::collect::WorldModel;
use crate::coord::CoordModel;
use crate::coord::DependencyScope;
use crate::effective;
use crate::effective::KnownPoms;
use crate::effective::PomRequestModel;
use crate::known;
use crate::known::Fetched;
use crate::laws::heritage;
use crate::pom;
use crate::pom::DependencyModel;
use crate::pom::EnvironmentModel;
use crate::pom::PomModel;
use crate::resolver::Ga;
use crate::resolver::NodeModel;
use vstd::prelude::*;

verus! {

// ---------------------------------------------------------------------------
// Depth
// ---------------------------------------------------------------------------

/// Below the fiftieth level nothing is collected; on every level above it the dependencies of all
/// of its nodes are, and what is collected below them stands below them.
pub proof fn trees_have_fifty_levels(
    w: WorldModel,
    opens: Seq<OpenModel>,
    visited: Set<Ga>,
    depth: nat,
    groups: Seq<Seq<InfoModel>>,
    met: Set<Ga>,
    next: Seq<OpenModel>,
    below: Seq<Seq<NodeModel>>,
)
    ensures
        depth >= 50 ==> collect::collected(w, opens, visited, depth) == Some(
            opens.map_values(|o: OpenModel| Seq::<NodeModel>::empty()),
        ),
        depth < 50 && opens.len() > 0 && collect::level_from(w, opens, 0, visited) == Some(
            (groups, met),
        ) && collect::opened_from(w, collect::all_of(groups), 0) == Some(next)
            && collect::collected(w, next, met, depth + 1) == Some(below) ==> collect::collected(
            w,
            opens,
            visited,
            depth,
        ) == Some(collect::grouped(groups, collect::nodes_of(collect::all_of(groups), below))),
{
    if depth >= 50 {
        assert(collect::collected(w, opens, visited, depth)->0 =~= opens.map_values(
            |o: OpenModel| Seq::<NodeModel>::empty(),
        ));
    }
}

// ---------------------------------------------------------------------------
// POMs
// ---------------------------------------------------------------------------

/// A POM that was not fetched is asked for itself, by its own coordinates; one that cannot be had
/// is not asked for again.
pub proof fn unknown_poms_are_asked_for(c: CoordModel, env: EnvironmentModel, raw: KnownPoms)
    ensures
        ({
            let key = c.group_id + ":"@ + c.artifact_id + ":"@ + c.version;
            let asked = effective::missing_at(collect::own_request(c), env, raw);
            &&& known::outcome(raw, key) is None ==> asked == seq![c]
            &&& known::outcome(raw, key) == Some(Fetched::<PomModel>::Failed) ==> asked.len() == 0
        }),
{
}

/// For a POM whose parent was not fetched, the parent is asked for, and nothing else.
pub proof fn parents_are_asked_for_first(
    p: PomModel,
    depth: usize,
    chain: Seq<Seq<char>>,
    env: EnvironmentModel,
    raw: KnownPoms,
    r: PomRequestModel,
)
    requires
        effective::parent_request(p, depth, chain) == Some(r),
        known::outcome(raw, effective::request_key(r)) is None,
    ensures
        effective::missing_for(p, depth, chain, env, raw) == seq![r.coord],
{
    assert(effective::model_at(effective::request_key(r), r.depth, r.chain, env, raw) is None);
    assert(effective::with_parent(p, depth, chain, env, raw) is None);
    assert(effective::missing_at(r, env, raw) == seq![r.coord]);
}

/// All imports are asked for together: what the first one waits for and what the others do. One
/// whose BOM was not fetched waits for the BOM itself, by the group, the artifact and the version
/// that the import names.
pub proof fn imports_are_asked_for_together(
    imports: Seq<DependencyModel>,
    i: int,
    seen: Seq<Seq<char>>,
    path: Seq<Seq<char>>,
    depth: usize,
    env: EnvironmentModel,
    raw: KnownPoms,
)
    requires
        0 <= i < imports.len(),
        imports[i].version is Some,
        imports[i].version->0.len() > 0,
        ({
            let id = imports[i].group_id + ":"@ + imports[i].artifact_id + ":"@
                + imports[i].version->0;
            &&& !path.contains(id)
            &&& !seen.contains(id)
            &&& known::outcome(raw, id) is None
        }),
    ensures
        ({
            let d = imports[i];
            let id = d.group_id + ":"@ + d.artifact_id + ":"@ + d.version->0;
            let bom = CoordModel {
                group_id: d.group_id,
                artifact_id: d.artifact_id,
                version: d.version->0,
                classifier: None,
                extension: "jar"@,
            };
            effective::missing_imports(imports, i, seen, path, depth, env, raw) == seq![bom]
                + effective::missing_imports(imports, i + 1, seen.push(id), path, depth, env, raw)
        }),
{
    reveal_with_fuel(effective::missing_imports, 2);
}

/// An import whose BOM was fetched waits for what the model of the BOM waits for, one level deeper.
pub proof fn fetched_imports_wait_for_their_models(
    imports: Seq<DependencyModel>,
    i: int,
    seen: Seq<Seq<char>>,
    path: Seq<Seq<char>>,
    depth: usize,
    env: EnvironmentModel,
    raw: KnownPoms,
)
    requires
        0 <= i < imports.len(),
        imports[i].version is Some,
        imports[i].version->0.len() > 0,
        ({
            let id = imports[i].group_id + ":"@ + imports[i].artifact_id + ":"@
                + imports[i].version->0;
            &&& !path.contains(id)
            &&& !seen.contains(id)
            &&& known::outcome(raw, id) is Some
        }),
    ensures
        ({
            let d = imports[i];
            let id = d.group_id + ":"@ + d.artifact_id + ":"@ + d.version->0;
            let bom = PomRequestModel {
                coord: CoordModel {
                    group_id: d.group_id,
                    artifact_id: d.artifact_id,
                    version: d.version->0,
                    classifier: None,
                    extension: "jar"@,
                },
                depth: if depth < 20 {
                    (depth + 1) as usize
                } else {
                    depth
                },
                chain: path.push(id),
            };
            effective::missing_imports(imports, i, seen, path, depth, env, raw)
                == effective::missing_at(bom, env, raw) + effective::missing_imports(
                imports,
                i + 1,
                seen.push(id),
                path,
                depth,
                env,
                raw,
            )
        }),
{
    reveal_with_fuel(effective::missing_imports, 2);
}

/// Once the parent of a POM is there, what its imports wait for is asked for: those among what it
/// manages with what it inherits, and with its placeholders replaced.
pub proof fn imports_are_asked_for_after_the_parent(
    p: PomModel,
    depth: usize,
    chain: Seq<Seq<char>>,
    env: EnvironmentModel,
    raw: KnownPoms,
    merged: PomModel,
)
    requires
        effective::with_parent(p, depth, chain, env, raw) == Some(merged),
    ensures
        ({
            let full = pom::interpolated_pom(merged, env);
            let imports = if full.dependency_management is Some {
                full.dependency_management->0.filter(
                    |d: DependencyModel| heritage::asks_for_bom(d) == true,
                )
            } else {
                Seq::empty()
            };
            effective::missing_for(p, depth, chain, env, raw) == effective::missing_imports(
                imports,
                0,
                Seq::empty(),
                chain.push(heritage::name_of(full)),
                depth,
                env,
                raw,
            )
        }),
{
    let full = pom::interpolated_pom(merged, env);
    if let Some(ds) = full.dependency_management {
        heritage::imports_are_told_apart(ds);
    }
}

proof fn lemma_level_push(w: WorldModel, infos: Seq<InfoModel>, x: InfoModel, i: int)
    requires
        0 <= i <= infos.len(),
    ensures
        collect::missing_level(w, infos.push(x), i) == collect::missing_level(w, infos, i)
            + (if x.recurse {
            collect::missing_below(w, x.coord)
        } else {
            Seq::empty()
        }),
    decreases infos.len() - i,
{
    let all = infos.push(x);
    let last = if x.recurse {
        collect::missing_below(w, x.coord)
    } else {
        Seq::empty()
    };
    if i < infos.len() {
        assert(all[i] == infos[i]);
        lemma_level_push(w, infos, x, i + 1);
        if infos[i].recurse {
            let here = collect::missing_below(w, infos[i].coord);
            let more = collect::missing_level(w, infos, i + 1);
            assert(here + (more + last) =~= (here + more) + last);
        }
    } else {
        assert(all[i] == x);
        assert(collect::missing_level(w, all, i + 1) =~= Seq::empty());
        assert(collect::missing_level(w, infos, i) =~= Seq::empty());
        assert(collect::missing_level(w, all, i) =~= last);
        assert(Seq::empty() + last =~= last);
    }
}

/// The POMs of a whole level are asked for together: one more node adds all that it waits for,
/// unless its artifact was met before.
pub proof fn levels_are_asked_for_together(w: WorldModel, infos: Seq<InfoModel>, x: InfoModel)
    ensures
        collect::missing_level(w, Seq::empty(), 0) == Seq::<CoordModel>::empty(),
        collect::missing_level(w, infos.push(x), 0) == collect::missing_level(w, infos, 0)
            + (if x.recurse {
            collect::missing_below(w, x.coord)
        } else {
            Seq::empty()
        }),
{
    lemma_level_push(w, infos, x, 0);
}

/// A node waits for what its own POM waits for, and once that is there, for what the place waits
/// for that it is relocated to.
pub proof fn relocated_nodes_wait_for_their_new_place(w: WorldModel, c: CoordModel)
    ensures
        ({
            let asked = collect::missing_below(w, c);
            match collect::own_model(c, w.env, w.raw) {
                None => asked == effective::missing_at(collect::own_request(c), w.env, w.raw),
                Some(Fetched::Failed) => asked.len() == 0,
                Some(Fetched::Found(p)) => match collect::relocation_of(p, c) {
                    None => asked.len() == 0,
                    Some(next) => effective::coord_key(next) != effective::coord_key(c)
                        && collect::own_model(next, w.env, w.raw) is None ==> asked
                        == effective::missing_at(collect::own_request(next), w.env, w.raw),
                },
            }
        }),
{
    let here = seq![effective::coord_key(c)];
    if let Some(Fetched::Found(p)) = collect::own_model(c, w.env, w.raw) {
        if let Some(next) = collect::relocation_of(p, c) {
            if effective::coord_key(next) != effective::coord_key(c) {
                assert(!here.contains(effective::coord_key(next)));
            }
        }
    }
}

// ---------------------------------------------------------------------------
// Metadata
// ---------------------------------------------------------------------------

proof fn lemma_unlisted_push(
    deps: Seq<DependencyModel>,
    d: DependencyModel,
    i: int,
    above: Option<DependencyScope>,
    managed: Seq<DependencyModel>,
    answers: KnownMetadata,
)
    requires
        0 <= i <= deps.len(),
    ensures
        collect::unlisted(deps.push(d), i, above, managed, answers) == collect::unlisted(
            deps,
            i,
            above,
            managed,
            answers,
        ) + asked_for(d, above, managed, answers),
    decreases deps.len() - i,
{
    let all = deps.push(d);
    let last = asked_for(d, above, managed, answers);
    if i < deps.len() {
        assert(all[i] == deps[i]);
        lemma_unlisted_push(deps, d, i + 1, above, managed, answers);
        let here = asked_for(deps[i], above, managed, answers);
        let more = collect::unlisted(deps, i + 1, above, managed, answers);
        assert(here + (more + last) =~= (here + more) + last);
    } else {
        assert(all[i] == d);
        assert(collect::unlisted(all, i + 1, above, managed, answers) =~= Seq::empty());
        assert(collect::unlisted(deps, i, above, managed, answers) =~= Seq::empty());
        assert(collect::unlisted(all, i, above, managed, answers) =~= last);
        assert(Seq::empty() + last =~= last);
    }
}

/// The artifact whose metadata a dependency waits for, where it takes part and its version is
/// open.
pub open spec fn asked_for(
    d: DependencyModel,
    above: Option<DependencyScope>,
    managed: Seq<DependencyModel>,
    answers: KnownMetadata,
) -> Seq<Ga> {
    let o = collect::overridden(d, managed, above is Some);
    if collect::takes_part(o, above) && collect::chosen_version(o, answers) is None {
        seq![(d.group_id, d.artifact_id)]
    } else {
        Seq::empty()
    }
}

/// The metadata for all dependencies of a node is asked for together: one more dependency adds its
/// artifact where it waits for it.
pub proof fn ranges_are_asked_for_together(
    deps: Seq<DependencyModel>,
    d: DependencyModel,
    above: Option<DependencyScope>,
    managed: Seq<DependencyModel>,
    answers: KnownMetadata,
)
    ensures
        collect::unlisted(Seq::empty(), 0, above, managed, answers) == Seq::<Ga>::empty(),
        collect::unlisted(deps.push(d), 0, above, managed, answers) == collect::unlisted(
            deps,
            0,
            above,
            managed,
            answers,
        ) + asked_for(d, above, managed, answers),
{
    lemma_unlisted_push(deps, d, 0, above, managed, answers);
}

proof fn lemma_unlisted_below_push(
    w: WorldModel,
    opens: Seq<OpenModel>,
    open: OpenModel,
    k: int,
)
    requires
        0 <= k <= opens.len(),
    ensures
        collect::unlisted_below(w, opens.push(open), k) == collect::unlisted_below(w, opens, k)
            + collect::unlisted(open.dependencies, 0, open.scope, w.managed, w.metadata),
    decreases opens.len() - k,
{
    let all = opens.push(open);
    let last = collect::unlisted(open.dependencies, 0, open.scope, w.managed, w.metadata);
    if k < opens.len() {
        assert(all[k] == opens[k]);
        lemma_unlisted_below_push(w, opens, open, k + 1);
        let here = collect::unlisted(
            opens[k].dependencies,
            0,
            opens[k].scope,
            w.managed,
            w.metadata,
        );
        let more = collect::unlisted_below(w, opens, k + 1);
        assert(here + (more + last) =~= (here + more) + last);
    } else {
        assert(all[k] == open);
        assert(collect::unlisted_below(w, all, k + 1) =~= Seq::empty());
        assert(collect::unlisted_below(w, opens, k) =~= Seq::empty());
        assert(last + Seq::<Ga>::empty() =~= last);
        assert(Seq::<Ga>::empty() + last =~= last);
    }
}

/// The metadata for a whole level is asked for together: one more node adds all that its
/// dependencies wait for.
pub proof fn levels_ask_for_metadata_together(
    w: WorldModel,
    opens: Seq<OpenModel>,
    open: OpenModel,
)
    ensures
        collect::unlisted_below(w, Seq::empty(), 0) == Seq::<Ga>::empty(),
        collect::unlisted_below(w, opens.push(open), 0) == collect::unlisted_below(w, opens, 0)
            + collect::unlisted(open.dependencies, 0, open.scope, w.managed, w.metadata),
{
    lemma_unlisted_below_push(w, opens, open, 0);
}

/// A level asks for metadata as long as its dependencies cannot be told, and then for the POMs of
/// its dependencies; once those are there, the next level asks.
pub proof fn levels_ask_one_after_the_other(
    w: WorldModel,
    opens: Seq<OpenModel>,
    visited: Set<Ga>,
    depth: nat,
)
    requires
        depth < 50,
        opens.len() > 0,
    ensures
        ({
            let needs = collect::wanted(w, opens, visited, depth);
            match collect::level_from(w, opens, 0, visited) {
                None => needs.poms.len() == 0 && needs.metadata == collect::unlisted_below(
                    w,
                    opens,
                    0,
                ),
                Some((groups, met)) => match collect::opened_from(w, collect::all_of(groups), 0) {
                    None => needs.metadata.len() == 0 && needs.poms == collect::missing_level(
                        w,
                        collect::all_of(groups),
                        0,
                    ),
                    Some(next) => needs == collect::wanted(w, next, met, depth + 1),
                },
            }
        }),
{
}

// ---------------------------------------------------------------------------
// Repetitions
// ---------------------------------------------------------------------------

/// Of the POMs that are waited for, each is asked for once, by the first of its coordinates: those
/// with the group, the artifact and the version of an earlier one are left out, and no others.
pub proof fn poms_are_asked_for_once(coords: Seq<CoordModel>, c: CoordModel)
    ensures
        collect::distinct_poms(Seq::empty()) == Seq::<CoordModel>::empty(),
        ({
            let before = collect::distinct_poms(coords);
            let key = c.group_id + ":"@ + c.artifact_id + ":"@ + c.version;
            &&& (exists|i: int|
                0 <= i < coords.len() && (#[trigger] coords[i]).group_id + ":"@
                    + coords[i].artifact_id + ":"@ + coords[i].version == key)
                ==> collect::distinct_poms(coords.push(c)) == before
            &&& (forall|i: int|
                0 <= i < coords.len() ==> (#[trigger] coords[i]).group_id + ":"@
                    + coords[i].artifact_id + ":"@ + coords[i].version != key)
                ==> collect::distinct_poms(coords.push(c)) == before.push(c)
        }),
{
    assert(coords.push(c).drop_last() =~= coords);
    lemma_same_names(coords, effective::coord_key(c));
    let key = c.group_id + ":"@ + c.artifact_id + ":"@ + c.version;
    if exists|i: int|
        0 <= i < coords.len() && (#[trigger] coords[i]).group_id + ":"@ + coords[i].artifact_id
            + ":"@ + coords[i].version == key {
        let i = choose|i: int|
            0 <= i < coords.len() && (#[trigger] coords[i]).group_id + ":"@ + coords[i].artifact_id
                + ":"@ + coords[i].version == key;
        assert(effective::coord_key(coords[i]) == key);
        assert(collect::names_pom(coords, key));
    }
    if collect::names_pom(coords, key) {
        let i = choose|i: int|
            0 <= i < coords.len() && effective::coord_key(#[trigger] coords[i]) == key;
        assert(coords[i].group_id + ":"@ + coords[i].artifact_id + ":"@ + coords[i].version
            == key);
    }
}

proof fn lemma_same_names(coords: Seq<CoordModel>, key: Seq<char>)
    ensures
        collect::names_pom(collect::distinct_poms(coords), key) <==> collect::names_pom(
            coords,
            key,
        ),
    decreases coords.len(),
{
    if coords.len() > 0 {
        let front = coords.drop_last();
        let first = collect::distinct_poms(front);
        let all = collect::distinct_poms(coords);
        let last = effective::coord_key(coords.last());
        lemma_same_names(front, key);
        lemma_same_names(front, last);
        assert(coords[coords.len() - 1] == coords.last());
        if collect::names_pom(front, key) {
            let i = choose|i: int|
                0 <= i < front.len() && effective::coord_key(#[trigger] front[i]) == key;
            assert(coords[i] == front[i]);
        }
        if collect::names_pom(coords, key) {
            let i = choose|i: int|
                0 <= i < coords.len() && effective::coord_key(#[trigger] coords[i]) == key;
            if i < front.len() {
                assert(front[i] == coords[i]);
                assert(collect::names_pom(front, key));
            }
        }
        if collect::names_pom(first, key) {
            let i = choose|i: int|
                0 <= i < first.len() && effective::coord_key(#[trigger] first[i]) == key;
            assert(all[i] == first[i]);
        }
        if !collect::names_pom(first, last) {
            assert(all == first.push(coords.last()));
            assert(all[first.len() as int] == coords.last());
            if collect::names_pom(all, key) {
                let i = choose|i: int|
                    0 <= i < all.len() && effective::coord_key(#[trigger] all[i]) == key;
                if i < first.len() {
                    assert(first[i] == all[i]);
                }
            }
        }
    }
}

/// Of the artifacts whose metadata is waited for, each is asked for once, where it is first named.
pub proof fn metadata_is_asked_for_once(artifacts: Seq<Ga>, a: Ga)
    ensures
        collect::distinct_artifacts(Seq::empty()) == Seq::<Ga>::empty(),
        artifacts.contains(a) ==> collect::distinct_artifacts(artifacts.push(a))
            == collect::distinct_artifacts(artifacts),
        !artifacts.contains(a) ==> collect::distinct_artifacts(artifacts.push(a))
            == collect::distinct_artifacts(artifacts).push(a),
{
    assert(artifacts.push(a).drop_last() =~= artifacts);
    lemma_same_artifacts(artifacts, a);
}

proof fn lemma_same_artifacts(artifacts: Seq<Ga>, a: Ga)
    ensures
        collect::distinct_artifacts(artifacts).contains(a) <==> artifacts.contains(a),
    decreases artifacts.len(),
{
    if artifacts.len() > 0 {
        let front = artifacts.drop_last();
        let first = collect::distinct_artifacts(front);
        let all = collect::distinct_artifacts(artifacts);
        lemma_same_artifacts(front, a);
        lemma_same_artifacts(front, artifacts.last());
        assert(artifacts[artifacts.len() - 1] == artifacts.last());
        if front.contains(a) {
            let i = choose|i: int| 0 <= i < front.len() && front[i] == a;
            assert(artifacts[i] == a);
        }
        if artifacts.contains(a) {
            let i = choose|i: int| 0 <= i < artifacts.len() && artifacts[i] == a;
            if i < front.len() {
                assert(front[i] == a);
            }
        }
        if first.contains(a) {
            let i = choose|i: int| 0 <= i < first.len() && first[i] == a;
            assert(all[i] == a);
        }
        if !first.contains(artifacts.last()) {
            assert(all == first.push(artifacts.last()));
            assert(all[first.len() as int] == artifacts.last());
            if all.contains(a) {
                let i = choose|i: int| 0 <= i < all.len() && all[i] == a;
                if i < first.len() {
                    assert(first[i] == a);
                }
            }
        }
    }
}

/// Before the POM of the root has a model, what that waits for is asked for, and no metadata.
pub proof fn the_root_is_asked_for_first(
    root: CoordModel,
    env: EnvironmentModel,
    raw: KnownPoms,
    answers: KnownMetadata,
)
    requires
        known::outcome(raw, root.group_id + ":"@ + root.artifact_id + ":"@ + root.version) is None,
    ensures
        collect::documents_wanted(root, env, raw, answers).poms == seq![root],
        collect::documents_wanted(root, env, raw, answers).metadata.len() == 0,
{
    unknown_poms_are_asked_for(root, env, raw);
    assert(collect::own_model(root, env, raw) is None);
    reveal_with_fuel(collect::distinct_poms, 2);
    assert(seq![root].drop_last() =~= Seq::empty());
    let none = Seq::<CoordModel>::empty();
    assert(collect::distinct_poms(seq![root]) =~= seq![root]) by {
        assert(!collect::names_pom(none, effective::coord_key(root)));
        assert(none.push(root) =~= seq![root]);
    }
}

} // verus!
