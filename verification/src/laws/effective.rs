//! Laws of effective models: parents, BOM imports, and what a model waits for.
use crate::coord::CoordModel;
use crate::effective;
use crate::effective::KnownPoms;
use crate::effective::PomRequestModel;
use crate::known;
use crate::known::Fetched;
use crate::laws::pom::bom_fills_gaps;
use crate::pom;
use crate::pom::DependencyModel;
use crate::pom::EnvironmentModel;
use crate::pom::PomModel;
use vstd::prelude::*;

verus! {

// ---------------------------------------------------------------------------
// Imports
// ---------------------------------------------------------------------------

/// What the importing POM declares itself, and what an earlier import brought, is not changed by
/// later imports.
pub proof fn earlier_entries_win(
    own: Seq<DependencyModel>,
    imports: Seq<DependencyModel>,
    i: int,
    seen: Seq<Seq<char>>,
    path: Seq<Seq<char>>,
    depth: usize,
    env: EnvironmentModel,
    raw: KnownPoms,
    group_id: Seq<char>,
    artifact_id: Seq<char>,
    dep_type: Seq<char>,
)
    requires
        0 <= i,
        pom::managed_entry(own, group_id, artifact_id, dep_type) is Some,
        effective::imported_from(own, imports, i, seen, path, depth, env, raw) is Some,
    ensures
        pom::managed_entry(
            effective::imported_from(own, imports, i, seen, path, depth, env, raw)->0,
            group_id,
            artifact_id,
            dep_type,
        ) == pom::managed_entry(own, group_id, artifact_id, dep_type),
    decreases imports.len() - i,
{
    if i < imports.len() {
        let (grown, more) = match effective::import_key(imports[i]) {
            None => (own, seen),
            Some(id) => if path.contains(id) || seen.contains(id) {
                (own, seen)
            } else {
                match effective::model_at(id, effective::deeper(depth), path.push(id), env, raw) {
                    Some(Fetched::Found(bom)) => {
                        bom_fills_gaps(own, imports[i], bom, group_id, artifact_id, dep_type);
                        (effective::with_bom(own, imports[i], bom), seen.push(id))
                    },
                    _ => (own, seen.push(id)),
                }
            },
        };
        assert(effective::imported_from(own, imports, i, seen, path, depth, env, raw)
            == effective::imported_from(grown, imports, i + 1, more, path, depth, env, raw));
        earlier_entries_win(
            grown,
            imports,
            i + 1,
            more,
            path,
            depth,
            env,
            raw,
            group_id,
            artifact_id,
            dep_type,
        );
    }
}

/// An import of a BOM that is being prepared already, or was imported before, is passed over.
pub proof fn circular_import_is_passed_over(
    own: Seq<DependencyModel>,
    imports: Seq<DependencyModel>,
    i: int,
    seen: Seq<Seq<char>>,
    path: Seq<Seq<char>>,
    depth: usize,
    env: EnvironmentModel,
    raw: KnownPoms,
)
    requires
        0 <= i < imports.len(),
        effective::import_key(imports[i]) matches Some(id) && (path.contains(id) || seen.contains(
            id,
        )),
    ensures
        effective::imported_from(own, imports, i, seen, path, depth, env, raw)
            == effective::imported_from(own, imports, i + 1, seen, path, depth, env, raw),
{
}

// ---------------------------------------------------------------------------
// Parents
// ---------------------------------------------------------------------------

/// A parent is asked for up to the greatest depth, where the POM names one with a version that
/// can be looked up, and from the greatest depth on none is. Each parent lies one level deeper
/// than its child.
pub proof fn parent_chain_is_bounded(pom: PomModel, depth: usize, chain: Seq<Seq<char>>)
    ensures
        effective::parent_request(pom, depth, chain) is Some <==> depth
            < effective::MAX_PARENT_DEPTH && effective::parent_version(pom) is Some,
        effective::parent_request(pom, depth, chain) matches Some(r) ==> r.depth == depth + 1,
{
}

/// A POM whose parent cannot be had is taken as it is.
pub proof fn missing_parent_is_passed_over(
    pom: PomModel,
    depth: usize,
    chain: Seq<Seq<char>>,
    env: EnvironmentModel,
    raw: KnownPoms,
)
    requires
        effective::parent_request(pom, depth, chain) matches Some(r) && known::outcome(
            raw,
            effective::request_key(r),
        ) == Some(Fetched::<PomModel>::Failed),
    ensures
        effective::with_parent(pom, depth, chain, env, raw) == Some(pom),
{
    let r = effective::parent_request(pom, depth, chain)->0;
    assert(effective::model_at(effective::request_key(r), r.depth, r.chain, env, raw) == Some(
        Fetched::<PomModel>::Failed,
    ));
}

/// A POM and its ancestors, `n` of them at most, the nearest first; nothing where one of them was
/// not fetched yet. An ancestor that cannot be had ends the line.
pub open spec fn lineage(pom: PomModel, n: nat, raw: KnownPoms) -> Option<Seq<PomModel>>
    decreases n,
{
    match (pom.parent, effective::parent_version(pom)) {
        (Some(p), Some(v)) => if n == 0 {
            Some(seq![pom])
        } else {
            match known::outcome(raw, effective::pom_key(p.group_id, p.artifact_id, v)) {
                None => None,
                Some(Fetched::Failed) => Some(seq![pom]),
                Some(Fetched::Found(parent)) => match lineage(parent, (n - 1) as nat, raw) {
                    None => None,
                    Some(rest) => Some(seq![pom] + rest),
                },
            }
        },
        _ => Some(seq![pom]),
    }
}

/// The first of a line with what it inherits from the model of the others.
pub open spec fn line_merged(line: Seq<PomModel>, env: EnvironmentModel) -> PomModel
    decreases line.len(), 0nat,
{
    if line.len() <= 1 {
        line[0]
    } else {
        pom::inherited(line[0], line_model(line.skip(1), env))
    }
}

/// The model of the first of a line: each POM of it inherits from the model of the next one, and
/// is then interpolated and has its management injected.
pub open spec fn line_model(line: Seq<PomModel>, env: EnvironmentModel) -> PomModel
    decreases line.len(), 1nat,
{
    pom::injected(pom::interpolated_pom(pom::interpolated_pom(line_merged(line, env), env), env))
}

/// Whether no POM of a line imports a BOM, once it is merged and interpolated.
pub open spec fn line_is_importless(line: Seq<PomModel>, env: EnvironmentModel) -> bool
    decreases line.len(),
{
    &&& effective::management_imports(
        pom::interpolated_pom(line_merged(line, env), env),
    ).len() == 0
    &&& line.len() > 1 ==> line_is_importless(line.skip(1), env)
}

proof fn lemma_no_imports(ds: Seq<DependencyModel>, i: int)
    requires
        0 <= i <= ds.len(),
        effective::imports_from(ds, i, true).len() == 0,
    ensures
        effective::imports_from(ds, i, false) == ds.skip(i),
    decreases ds.len() - i,
{
    if i < ds.len() {
        lemma_no_imports(ds, i + 1);
        assert(seq![ds[i]] + ds.skip(i + 1) =~= ds.skip(i));
    } else {
        assert(ds.skip(i) =~= Seq::empty());
    }
}

proof fn lemma_importless(
    full: PomModel,
    depth: usize,
    chain: Seq<Seq<char>>,
    env: EnvironmentModel,
    raw: KnownPoms,
)
    requires
        effective::management_imports(full).len() == 0,
    ensures
        effective::with_imports(full, depth, chain, env, raw) == Some(full),
{
    if let Some(ds) = full.dependency_management {
        lemma_no_imports(ds, 0);
        assert(ds.skip(0) =~= ds);
        let path = chain.push(effective::pom_id(full));
        assert(effective::imported_from(
            ds,
            effective::imports_from(ds, 0, true),
            0,
            Seq::empty(),
            path,
            depth,
            env,
            raw,
        ) == Some(ds));
        assert(full == PomModel { dependency_management: Some(ds), ..full });
    }
}

/// Where no BOM is imported, the model of a POM at a depth is made of the POM and its ancestors,
/// of all of them up to the greatest depth and of no others, whatever it is needed for.
pub proof fn ancestors_are_merged_up_to_the_limit(
    pom: PomModel,
    depth: usize,
    chain: Seq<Seq<char>>,
    env: EnvironmentModel,
    raw: KnownPoms,
)
    requires
        lineage(pom, effective::parents_left(depth), raw) matches Some(line) && line_is_importless(
            line,
            env,
        ),
    ensures
        effective::prepared(pom, depth, chain, env, raw) == Some(
            line_model(lineage(pom, effective::parents_left(depth), raw)->0, env),
        ),
    decreases effective::parents_left(depth),
{
    let n = effective::parents_left(depth);
    let line = lineage(pom, n, raw)->0;
    assert(line[0] == pom);
    match effective::parent_request(pom, depth, chain) {
        None => {
            assert(line =~= seq![pom]);
        },
        Some(r) => match known::outcome(raw, effective::request_key(r)) {
            None => {},
            Some(Fetched::Failed) => {
                missing_parent_is_passed_over(pom, depth, chain, env, raw);
            },
            Some(Fetched::Found(parent)) => {
                let rest = lineage(parent, (n - 1) as nat, raw)->0;
                lemma_line(parent, (n - 1) as nat, raw);
                assert(line.skip(1) =~= rest);
                ancestors_are_merged_up_to_the_limit(parent, r.depth, r.chain, env, raw);
                let model = line_model(rest, env);
                assert(effective::model_at(effective::request_key(r), r.depth, r.chain, env, raw)
                    == Some(Fetched::Found(model)));
                assert(effective::with_parent(pom, depth, chain, env, raw) == Some(
                    pom::inherited(pom, model),
                ));
            },
        },
    }
    let merged = line_merged(line, env);
    assert(effective::with_parent(pom, depth, chain, env, raw) == Some(merged));
    lemma_importless(pom::interpolated_pom(merged, env), depth, chain, env, raw);
}

proof fn lemma_line(pom: PomModel, n: nat, raw: KnownPoms)
    ensures
        lineage(pom, n, raw) matches Some(line) ==> 1 <= line.len() <= n + 1 && line[0] == pom,
    decreases n,
{
    if n > 0 {
        if let (Some(p), Some(v)) = (pom.parent, effective::parent_version(pom)) {
            if let Some(Fetched::Found(parent)) = known::outcome(
                raw,
                effective::pom_key(p.group_id, p.artifact_id, v),
            ) {
                lemma_line(parent, (n - 1) as nat, raw);
            }
        }
    }
}

/// At most as many ancestors take part as the limit leaves.
pub proof fn line_is_bounded(pom: PomModel, depth: usize, raw: KnownPoms)
    ensures
        lineage(pom, effective::parents_left(depth), raw) matches Some(line) ==> line.len() - 1
            <= effective::parents_left(depth),
{
    lemma_line(pom, effective::parents_left(depth), raw);
}

// ---------------------------------------------------------------------------
// Complete models
// ---------------------------------------------------------------------------

/// A needed POM has an effective model as soon as all the POMs that it waits for are fetched, and
/// waits for none that is fetched already.
pub proof fn model_is_owed(r: PomRequestModel, env: EnvironmentModel, raw: KnownPoms)
    ensures
        forall|i: int|
            0 <= i < effective::missing_at(r, env, raw).len() ==> known::outcome(
                raw,
                effective::coord_key(#[trigger] effective::missing_at(r, env, raw)[i]),
            ) is None,
        (forall|c: CoordModel|
            #[trigger] effective::missing_at(r, env, raw).contains(c) ==> known::outcome(
                raw,
                effective::coord_key(c),
            ) is Some) ==> effective::model_of(r, env, raw) is Some,
{
    effective::lemma_missing_at(r, env, raw);
    let all = effective::missing_at(r, env, raw);
    if all.len() > 0 {
        assert(all.contains(all[0]));
    }
}

/// Whether what is known in `old_answers` is known, and the same, in `new_answers`.
pub open spec fn keeps<V>(
    old_answers: Seq<(Seq<char>, Fetched<V>)>,
    new_answers: Seq<(Seq<char>, Fetched<V>)>,
) -> bool {
    forall|key: Seq<char>|
        (#[trigger] known::outcome(old_answers, key)) is Some ==> known::outcome(new_answers, key)
            == known::outcome(old_answers, key)
}

/// An effective model that is complete stays the same however many more POMs are fetched.
pub proof fn complete_model_stays(
    key: Seq<char>,
    depth: usize,
    chain: Seq<Seq<char>>,
    env: EnvironmentModel,
    raw: KnownPoms,
    more: KnownPoms,
)
    requires
        keeps(raw, more),
        effective::model_at(key, depth, chain, env, raw) is Some,
    ensures
        effective::model_at(key, depth, chain, env, more) == effective::model_at(
            key,
            depth,
            chain,
            env,
            raw,
        ),
    decreases
            known::count_keys(raw, effective::outside(chain), 0),
            effective::parents_left(depth),
            3nat,
            0int,
{
    assert(known::outcome(more, key) == known::outcome(raw, key));
    if let Some(Fetched::Found(pom)) = known::outcome(raw, key) {
        prepared_model_stays(pom, depth, chain, env, raw, more);
    }
}

/// A POM that can be prepared is prepared the same way however many more POMs are fetched.
pub proof fn prepared_model_stays(
    pom: PomModel,
    depth: usize,
    chain: Seq<Seq<char>>,
    env: EnvironmentModel,
    raw: KnownPoms,
    more: KnownPoms,
)
    requires
        keeps(raw, more),
        effective::prepared(pom, depth, chain, env, raw) is Some,
    ensures
        effective::prepared(pom, depth, chain, env, more) == effective::prepared(
            pom,
            depth,
            chain,
            env,
            raw,
        ),
    decreases
            known::count_keys(raw, effective::outside(chain), 0),
            effective::parents_left(depth),
            2nat,
            0int,
{
    let merged = effective::with_parent(pom, depth, chain, env, raw)->0;
    if let Some(r) = effective::parent_request(pom, depth, chain) {
        let key = effective::request_key(r);
        effective::lemma_longer_chain(raw, chain, key);
        complete_model_stays(key, r.depth, r.chain, env, raw, more);
    }
    assert(effective::with_parent(pom, depth, chain, env, more) == Some(merged));
    let full = pom::interpolated_pom(merged, env);
    if let Some(ds) = full.dependency_management {
        effective::lemma_longer_chain(raw, chain, effective::pom_id(full));
        lemma_imports_stay(
            effective::imports_from(ds, 0, false),
            effective::imports_from(ds, 0, true),
            0,
            Seq::empty(),
            chain.push(effective::pom_id(full)),
            depth,
            env,
            raw,
            more,
        );
    }
    assert(effective::with_imports(full, depth, chain, env, more) == effective::with_imports(
        full,
        depth,
        chain,
        env,
        raw,
    ));
}

proof fn lemma_imports_stay(
    own: Seq<DependencyModel>,
    imports: Seq<DependencyModel>,
    i: int,
    seen: Seq<Seq<char>>,
    path: Seq<Seq<char>>,
    depth: usize,
    env: EnvironmentModel,
    raw: KnownPoms,
    more: KnownPoms,
)
    requires
        0 <= i,
        keeps(raw, more),
        effective::imported_from(own, imports, i, seen, path, depth, env, raw) is Some,
    ensures
        effective::imported_from(own, imports, i, seen, path, depth, env, more)
            == effective::imported_from(own, imports, i, seen, path, depth, env, raw),
    decreases
            known::count_keys(raw, effective::outside(path), 0),
            effective::parents_left(depth),
            0nat,
            imports.len() - i,
{
    if i < imports.len() {
        match effective::import_key(imports[i]) {
            None => lemma_imports_stay(own, imports, i + 1, seen, path, depth, env, raw, more),
            Some(id) => if path.contains(id) || seen.contains(id) {
                lemma_imports_stay(own, imports, i + 1, seen, path, depth, env, raw, more);
            } else {
                let below = effective::deeper(depth);
                assert(known::outcome(more, id) == known::outcome(raw, id));
                effective::lemma_longer_chain(raw, path, id);
                complete_model_stays(id, below, path.push(id), env, raw, more);
                let grown = match effective::model_at(id, below, path.push(id), env, raw) {
                    Some(Fetched::Found(bom)) => effective::with_bom(own, imports[i], bom),
                    _ => own,
                };
                lemma_imports_stay(
                    grown,
                    imports,
                    i + 1,
                    seen.push(id),
                    path,
                    depth,
                    env,
                    raw,
                    more,
                );
            },
        }
    }
}

} // verus!
