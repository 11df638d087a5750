//! Laws of what a POM has from others: from its parent, from the BOMs that it imports, and from
//! where it is relocated to.
use crate::collect;
use crate::collect::KnownMetadata;
use crate::collect::WorldModel;
use crate::coord;
use crate::coord::CoordModel;
use crate::effective;
use crate::effective::KnownPoms;
use crate::known;
use crate::known::Fetched;
use crate::laws::declared;
use crate::laws::lists;
use crate::pom;
use crate::pom::DependencyModel;
use crate::pom::EnvironmentModel;
use crate::pom::PomModel;
use crate::properties;
use crate::properties::Entries;
use crate::resolver::NodeModel;
use crate::text;
use vstd::prelude::*;

verus! {

// ---------------------------------------------------------------------------
// Coordinates of a POM
// ---------------------------------------------------------------------------

/// The group and the version of a POM are its own where it has them, and otherwise those that it
/// names for its parent; its packaging is `jar` where it names none. It has coordinates just where
/// it has a group, an artifact and a version, with its packaging as the extension; and its parent
/// has the coordinates that it names, with the extension `pom`.
pub proof fn coordinates_come_from_the_pom_or_its_parent(p: PomModel)
    ensures
        p.group_id is Some ==> pom::group_of(p) == p.group_id,
        p.group_id is None && p.parent is Some ==> pom::group_of(p) == Some(p.parent->0.group_id),
        p.group_id is None && p.parent is None ==> pom::group_of(p) is None,
        p.version is Some ==> pom::version_of(p) == p.version,
        p.version is None && p.parent is Some ==> pom::version_of(p) == Some(p.parent->0.version),
        p.version is None && p.parent is None ==> pom::version_of(p) is None,
        p.packaging is Some ==> pom::packaging_of(p) == p.packaging->0,
        p.packaging is None ==> pom::packaging_of(p) == "jar"@,
        pom::coord_of_pom(p) is Some <==> (p.artifact_id is Some && (p.parent is Some || (
        p.group_id is Some && p.version is Some))),
        pom::coord_of_pom(p) matches Some(c) ==> Some(c.group_id) == pom::group_of(p) && Some(
            c.artifact_id,
        ) == p.artifact_id && Some(c.version) == pom::version_of(p) && c.classifier is None
            && c.extension == pom::packaging_of(p),
        p.parent is None ==> pom::parent_coord_of(p) is None,
        p.parent matches Some(q) ==> pom::parent_coord_of(p) matches Some(c) && c.group_id
            == q.group_id && c.artifact_id == q.artifact_id && c.version == q.version
            && c.classifier is None && c.extension == "pom"@,
{
}

// ---------------------------------------------------------------------------
// Inheritance
// ---------------------------------------------------------------------------

/// Whether one of the dependencies is for the group, the artifact and the type of another.
pub open spec fn has_entry_for(ds: Seq<DependencyModel>, d: DependencyModel) -> bool {
    exists|i: int| 0 <= i < ds.len() && declared::manages(#[trigger] ds[i], d)
}

proof fn lemma_declares(ds: Seq<DependencyModel>, d: DependencyModel)
    ensures
        pom::declares(ds, d.group_id, d.artifact_id, pom::type_of(d)) <==> has_entry_for(ds, d),
{
    if pom::declares(ds, d.group_id, d.artifact_id, pom::type_of(d)) {
        let i = choose|i: int|
            0 <= i < ds.len() && pom::has_key(
                #[trigger] ds[i],
                d.group_id,
                d.artifact_id,
                pom::type_of(d),
            );
        assert(declared::manages(ds[i], d));
    }
    if has_entry_for(ds, d) {
        let i = choose|i: int| 0 <= i < ds.len() && declared::manages(#[trigger] ds[i], d);
        assert(pom::has_key(ds[i], d.group_id, d.artifact_id, pom::type_of(d)));
    }
}

proof fn lemma_undeclared(child: Seq<DependencyModel>, parent: Seq<DependencyModel>, i: int)
    requires
        0 <= i <= parent.len(),
    ensures
        pom::undeclared_from(child, parent, i) == parent.skip(i).filter(
            |d: DependencyModel| !has_entry_for(child, d),
        ),
    decreases parent.len() - i,
{
    let wanted = |d: DependencyModel| !has_entry_for(child, d);
    lists::lemma_filter_front(parent, i, wanted);
    if i < parent.len() {
        lemma_declares(child, parent[i]);
        lemma_undeclared(child, parent, i + 1);
    }
}

/// A POM inherits from its parent the group and the version where it has none, the properties
/// that it does not set, the repositories, behind its own, and the managed dependencies that it
/// has no entry for, behind its own and in the order of the parent. All else is its own.
pub proof fn child_inherits_what_it_lacks(child: PomModel, parent: PomModel)
    ensures
        ({
            let p = pom::inherited(child, parent);
            let own = if child.dependency_management is Some {
                child.dependency_management->0
            } else {
                Seq::empty()
            };
            &&& p.group_id == (if child.group_id is Some {
                child.group_id
            } else {
                parent.group_id
            })
            &&& p.version == (if child.version is Some {
                child.version
            } else {
                parent.version
            })
            &&& parent.dependency_management is None ==> p.dependency_management
                == child.dependency_management
            &&& parent.dependency_management is Some ==> p.dependency_management == Some(
                own + parent.dependency_management->0.filter(
                    |d: DependencyModel| !has_entry_for(own, d),
                ),
            )
            &&& p.repositories == child.repositories + parent.repositories
            &&& p.dependencies == child.dependencies
            &&& p.model_version == child.model_version
            &&& p.artifact_id == child.artifact_id
            &&& p.packaging == child.packaging
            &&& p.name == child.name
            &&& p.description == child.description
            &&& p.url == child.url
            &&& p.parent == child.parent
            &&& p.distribution_management == child.distribution_management
        }),
{
    if let Some(ds) = parent.dependency_management {
        let own = if child.dependency_management is Some {
            child.dependency_management->0
        } else {
            Seq::empty()
        };
        lemma_undeclared(own, ds, 0);
        assert(ds.skip(0) =~= ds);
    }
}

// ---------------------------------------------------------------------------
// Which parent
// ---------------------------------------------------------------------------

/// The version of a parent is read with the placeholders of the POM's own properties replaced, one
/// property after the other.
pub proof fn properties_are_put_into_the_parent_version(
    s: Seq<char>,
    props: Entries,
    key: Seq<char>,
    value: Seq<char>,
)
    ensures
        effective::with_values(s, Seq::empty(), 0) == s,
        effective::with_values(s, props.push((key, value)), 0) == text::replace_text(
            effective::with_values(s, props, 0),
            "${"@ + key + "}"@,
            value,
        ),
{
    lemma_values_push(s, props, key, value, 0);
}

proof fn lemma_values_push(
    s: Seq<char>,
    props: Entries,
    key: Seq<char>,
    value: Seq<char>,
    i: int,
)
    requires
        0 <= i <= props.len(),
    ensures
        effective::with_values(s, props.push((key, value)), i) == text::replace_text(
            effective::with_values(s, props, i),
            "${"@ + key + "}"@,
            value,
        ),
    decreases props.len() - i,
{
    let more = props.push((key, value));
    if i < props.len() {
        assert(more[i] == props[i]);
        lemma_values_push(
            text::replace_text(s, effective::placeholder(props[i].0), props[i].1),
            props,
            key,
            value,
            i + 1,
        );
    } else {
        assert(more[i] == (key, value));
        let t = text::replace_text(s, "${"@ + key + "}"@, value);
        assert(effective::with_values(t, more, i + 1) == t);
    }
}

proof fn lemma_no_placeholder(s: Seq<char>, key: Seq<char>, value: Seq<char>)
    requires
        !text::holds_text(s, "${"@),
    ensures
        text::replace_text(s, effective::placeholder(key), value) == s,
{
    let p = effective::placeholder(key);
    text::lemma_find_text(s, p, 0);
    if let Some(j) = text::find_text(s, p, 0) {
        assert(text::stands_at(s, p, j));
        assert(p.take("${"@.len() as int) =~= "${"@);
        let n = "${"@.len() as int;
        assert(s.subrange(j, j + n) =~= s.subrange(j, j + p.len()).take(n));
        assert(text::stands_at(s, "${"@, j));
        assert(text::holds_text(s, "${"@));
    }
}

proof fn lemma_values_stay(s: Seq<char>, props: Entries, i: int)
    requires
        0 <= i <= props.len(),
        !text::holds_text(s, "${"@),
    ensures
        effective::with_values(s, props, i) == s,
    decreases props.len() - i,
{
    if i < props.len() {
        lemma_no_placeholder(s, props[i].0, props[i].1);
        lemma_values_stay(s, props, i + 1);
    }
}

proof fn lemma_other_placeholder(key: Seq<char>, other: Seq<char>, value: Seq<char>)
    requires
        !key.contains('}'),
        !key.contains('$'),
    ensures
        text::replace_text("${"@ + key + "}"@, "${"@ + other + "}"@, value) == (if key == other {
            value
        } else {
            "${"@ + key + "}"@
        }),
{
    reveal_strlit("${");
    reveal_strlit("}");
    let s = "${"@ + key + "}"@;
    let p = "${"@ + other + "}"@;
    text::lemma_find_text(s, p, 0);
    if key == other {
        assert(s.subrange(0, s.len() as int) =~= s);
        assert(text::stands_at(s, p, 0));
        assert(text::find_text(s, p, 0) == Some(0int));
        assert(s.take(0) + value =~= value);
        let none = s.skip(s.len() as int);
        assert(none =~= Seq::empty());
        text::lemma_find_text(none, p, 0);
        assert(text::replace_text(none, p, value) =~= none);
        assert(value + none =~= value);
    } else if let Some(i) = text::find_text(s, p, 0) {
        let part = s.subrange(i, i + p.len());
        assert(part == p);
        assert(p[0] == '$');
        assert(part[0] == s[i]);
        if 2 <= i < 2 + key.len() {
            assert(s[i] == key[i - 2]);
            assert(key.contains('$'));
        }
        assert(i == 0);
        let n = other.len() as int;
        assert(p[2 + n] == '}');
        assert(part[2 + n] == s[2 + n]);
        if n < key.len() {
            assert(s[2 + n] == key[n]);
            assert(key.contains('}'));
        }
        assert(n == key.len());
        assert(part =~= s);
        assert(other =~= p.subrange(2, 2 + n));
        assert(key =~= s.subrange(2, 2 + n));
    }
}

proof fn lemma_values_find(key: Seq<char>, props: Entries, i: int)
    requires
        0 <= i <= props.len(),
        !key.contains('}'),
        !key.contains('$'),
        properties::key_from(props, key, i) < props.len(),
        !text::holds_text(props[properties::key_from(props, key, i)].1, "${"@),
    ensures
        effective::with_values("${"@ + key + "}"@, props, i)
            == props[properties::key_from(props, key, i)].1,
    decreases props.len() - i,
{
    if i < props.len() {
        lemma_other_placeholder(key, props[i].0, props[i].1);
        if props[i].0 == key {
            lemma_values_stay(props[i].1, props, i + 1);
        } else {
            lemma_values_find(key, props, i + 1);
        }
    }
}

/// The parent of a POM has the group and the artifact that the POM names for it, and the version
/// that it names where that holds no placeholder, or the value of the property that it names. It
/// is asked for as a `jar` without a classifier, up to a depth of twenty, and is not asked for
/// where its version is empty or still holds a placeholder.
pub proof fn parents_are_asked_for_as_they_are_named(
    p: PomModel,
    depth: usize,
    chain: Seq<Seq<char>>,
    key: Seq<char>,
)
    requires
        p.parent is Some,
        !key.contains('}'),
        !key.contains('$'),
    ensures
        ({
            let q = p.parent->0;
            let r = effective::parent_request(p, depth, chain);
            let value = properties::lookup(p.properties, key);
            &&& r matches Some(asked) ==> depth < 20 && asked.coord.group_id == q.group_id
                && asked.coord.artifact_id == q.artifact_id && asked.coord.extension == "jar"@
                && asked.coord.classifier is None && asked.depth == depth + 1
                && asked.coord.version.len() > 0 && !text::holds_text(asked.coord.version, "${"@)
            &&& depth < 20 && q.version.len() > 0 && !text::holds_text(q.version, "${"@) ==> r
                is Some && r->0.coord.version == q.version
            &&& depth < 20 && q.version == "${"@ + key + "}"@ && value is Some && value->0.len() > 0
                && !text::holds_text(value->0, "${"@) ==> r is Some
                && r->0.coord.version == value->0
        }),
{
    let q = p.parent->0;
    if !text::holds_text(q.version, "${"@) {
        lemma_values_stay(q.version, p.properties, 0);
    }
    if q.version == "${"@ + key + "}"@ {
        if let Some(value) = properties::lookup(p.properties, key) {
            if !text::holds_text(value, "${"@) {
                lemma_values_find(key, p.properties, 0);
            }
        }
    }
}

/// A POM without a parent asks for none, and is merged with nothing.
pub proof fn orphans_inherit_nothing(
    p: PomModel,
    depth: usize,
    chain: Seq<Seq<char>>,
    env: EnvironmentModel,
    raw: KnownPoms,
)
    requires
        p.parent is None,
    ensures
        effective::parent_request(p, depth, chain) is None,
        effective::with_parent(p, depth, chain, env, raw) == Some(p),
{
}

// ---------------------------------------------------------------------------
// Imports
// ---------------------------------------------------------------------------

/// Whether a managed dependency stands for the import of a BOM: its scope is `import` and its type
/// is `pom`.
pub open spec fn asks_for_bom(d: DependencyModel) -> bool {
    d.scope is Some && d.scope->0 == "import"@ && d.dep_type is Some && d.dep_type->0 == "pom"@
}

proof fn lemma_imports(ds: Seq<DependencyModel>, i: int, imports: bool)
    requires
        0 <= i <= ds.len(),
    ensures
        effective::imports_from(ds, i, imports) == ds.skip(i).filter(
            |d: DependencyModel| asks_for_bom(d) == imports,
        ),
    decreases ds.len() - i,
{
    lists::lemma_filter_front(ds, i, |d: DependencyModel| asks_for_bom(d) == imports);
    if i < ds.len() {
        lemma_imports(ds, i + 1, imports);
    }
}

/// The managed dependencies of a POM are split into those that ask for BOMs and the others, each
/// in their order.
pub proof fn imports_are_told_apart(ds: Seq<DependencyModel>)
    ensures
        effective::imports_from(ds, 0, true) == ds.filter(
            |d: DependencyModel| asks_for_bom(d) == true,
        ),
        effective::imports_from(ds, 0, false) == ds.filter(
            |d: DependencyModel| asks_for_bom(d) == false,
        ),
{
    lemma_imports(ds, 0, true);
    lemma_imports(ds, 0, false);
    assert(ds.skip(0) =~= ds);
}

/// Whether a list of patterns excludes an artifact: one of them has its group and its artifact, or
/// a star in their place.
pub open spec fn pattern_excludes(
    patterns: Seq<(Seq<char>, Seq<char>)>,
    d: DependencyModel,
) -> bool {
    exists|i: int|
        0 <= i < patterns.len() && ((#[trigger] patterns[i]).0 == d.group_id || patterns[i].0
            == "*"@) && (patterns[i].1 == d.artifact_id || patterns[i].1 == "*"@)
}

proof fn lemma_admitted(
    own: Seq<DependencyModel>,
    bom: Seq<DependencyModel>,
    exclusions: Seq<(Seq<char>, Seq<char>)>,
    i: int,
)
    requires
        0 <= i <= bom.len(),
    ensures
        effective::admitted_from(own, bom, exclusions, i) == bom.skip(i).filter(
            |d: DependencyModel| !has_entry_for(own, d) && !pattern_excludes(exclusions, d),
        ),
    decreases bom.len() - i,
{
    let wanted = |d: DependencyModel|
        !has_entry_for(own, d) && !pattern_excludes(exclusions, d);
    lists::lemma_filter_front(bom, i, wanted);
    if i < bom.len() {
        let d = bom[i];
        lemma_declares(own, d);
        assert(effective::excluded_by(exclusions, d.group_id, d.artifact_id) <==> pattern_excludes(
            exclusions,
            d,
        )) by {
            if effective::excluded_by(exclusions, d.group_id, d.artifact_id) {
                let k = choose|k: int|
                    0 <= k < exclusions.len() && coord::excludes(
                        crate::coord::ExclusionModel {
                            group_id: (#[trigger] exclusions[k]).0,
                            artifact_id: exclusions[k].1,
                        },
                        d.group_id,
                        d.artifact_id,
                    );
                assert(pattern_excludes(exclusions, d));
            }
        }
        lemma_admitted(own, bom, exclusions, i + 1);
    }
}

/// A BOM adds to managed dependencies, behind them and in its order, those of its own that they
/// have no entry for and that the import does not exclude.
pub proof fn boms_add_what_is_lacking(
    own: Seq<DependencyModel>,
    import: DependencyModel,
    bom: PomModel,
)
    ensures
        bom.dependency_management is None ==> effective::with_bom(own, import, bom) == own,
        bom.dependency_management matches Some(ds) ==> effective::with_bom(own, import, bom) == own
            + ds.filter(
            |d: DependencyModel| !has_entry_for(own, d) && !pattern_excludes(import.exclusions, d),
        ),
{
    if let Some(ds) = bom.dependency_management {
        lemma_admitted(own, ds, import.exclusions, 0);
        assert(ds.skip(0) =~= ds);
    }
}

/// Imports are carried out one after the other. One that names no version, or an empty one, is
/// passed over; the BOM of any other is that of its group, artifact and version, and where it was
/// not met yet, what its model manages is added, unless it cannot be had.
pub proof fn imports_are_carried_out_in_turn(
    own: Seq<DependencyModel>,
    imports: Seq<DependencyModel>,
    i: int,
    seen: Seq<Seq<char>>,
    path: Seq<Seq<char>>,
    depth: usize,
    env: EnvironmentModel,
    raw: KnownPoms,
)
    requires
        0 <= i <= imports.len(),
    ensures
        i == imports.len() ==> effective::imported_from(
            own,
            imports,
            i,
            seen,
            path,
            depth,
            env,
            raw,
        ) == Some(own),
        i < imports.len() && (imports[i].version is None || imports[i].version->0.len() == 0) ==>
            effective::imported_from(own, imports, i, seen, path, depth, env, raw)
            == effective::imported_from(own, imports, i + 1, seen, path, depth, env, raw),
        i < imports.len() && imports[i].version is Some && imports[i].version->0.len() > 0 ==> ({
            let id = imports[i].group_id + ":"@ + imports[i].artifact_id + ":"@
                + imports[i].version->0;
            let all = effective::imported_from(own, imports, i, seen, path, depth, env, raw);
            let below = if depth < 20 {
                (depth + 1) as usize
            } else {
                depth
            };
            let model = effective::model_at(id, below, path.push(id), env, raw);
            &&& !path.contains(id) && !seen.contains(id) ==> match model {
                None => all is None,
                Some(Fetched::Failed) => all == effective::imported_from(
                    own,
                    imports,
                    i + 1,
                    seen.push(id),
                    path,
                    depth,
                    env,
                    raw,
                ),
                Some(Fetched::Found(bom)) => all == effective::imported_from(
                    effective::with_bom(own, imports[i], bom),
                    imports,
                    i + 1,
                    seen.push(id),
                    path,
                    depth,
                    env,
                    raw,
                ),
            }
            &&& path.contains(id) || seen.contains(id) ==> all == effective::imported_from(
                own,
                imports,
                i + 1,
                seen,
                path,
                depth,
                env,
                raw,
            )
        }),
{
    reveal_with_fuel(effective::imported_from, 2);
}

/// The name by which a POM is told from the BOMs that it imports: its own group, artifact and
/// version, with a question mark for each that it does not have.
pub open spec fn name_of(p: PomModel) -> Seq<char> {
    (if p.group_id is Some {
        p.group_id->0
    } else {
        "?"@
    }) + ":"@ + (if p.artifact_id is Some {
        p.artifact_id->0
    } else {
        "?"@
    }) + ":"@ + (if p.version is Some {
        p.version->0
    } else {
        "?"@
    })
}

/// What a POM manages once its BOMs are imported begins with its own entries, without the imports,
/// and has behind them what the imports add, other than the POM itself and those that it is needed
/// for. The POM is otherwise unchanged, and one that manages nothing imports nothing.
pub proof fn imports_follow_own_entries(
    p: PomModel,
    depth: usize,
    chain: Seq<Seq<char>>,
    env: EnvironmentModel,
    raw: KnownPoms,
)
    ensures
        p.dependency_management is None ==> effective::with_imports(p, depth, chain, env, raw)
            == Some(p),
        p.dependency_management matches Some(ds) ==> ({
            let own = ds.filter(|d: DependencyModel| asks_for_bom(d) == false);
            let imports = ds.filter(|d: DependencyModel| asks_for_bom(d) == true);
            let path = chain.push(name_of(p));
            let all = effective::imported_from(
                own,
                imports,
                0,
                Seq::empty(),
                path,
                depth,
                env,
                raw,
            );
            let full = effective::with_imports(p, depth, chain, env, raw);
            &&& full is Some <==> all is Some
            &&& full matches Some(q) ==> q == (PomModel { dependency_management: all, ..p })
        }),
{
    if let Some(ds) = p.dependency_management {
        imports_are_told_apart(ds);
    }
}

/// A POM is prepared by merging what it inherits, replacing its placeholders, importing its BOMs,
/// replacing the placeholders that came with them, and then injecting what it manages.
pub proof fn models_are_prepared_in_steps(
    p: PomModel,
    depth: usize,
    chain: Seq<Seq<char>>,
    env: EnvironmentModel,
    raw: KnownPoms,
    merged: PomModel,
    full: PomModel,
)
    requires
        effective::with_parent(p, depth, chain, env, raw) == Some(merged),
        effective::with_imports(pom::interpolated_pom(merged, env), depth, chain, env, raw)
            == Some(full),
    ensures
        effective::prepared(p, depth, chain, env, raw) == Some(
            pom::injected(pom::interpolated_pom(full, env)),
        ),
{
}

// ---------------------------------------------------------------------------
// Answers
// ---------------------------------------------------------------------------

/// What is known under a name is the first answer for it, and nothing where there is none.
pub proof fn first_answer_counts<V>(answers: Seq<(Seq<char>, Fetched<V>)>, key: Seq<char>, k: int)
    requires
        0 <= k <= answers.len(),
        forall|j: int| 0 <= j < k ==> (#[trigger] answers[j]).0 != key,
        k < answers.len() ==> answers[k].0 == key,
    ensures
        k < answers.len() ==> known::outcome(answers, key) == Some(answers[k].1),
        k == answers.len() ==> known::outcome(answers, key) is None,
{
    known::lemma_known_from(answers, key, 0);
    let i = known::known_from(answers, key, 0);
    if i < k {
        assert(answers[i].0 != key);
    }
    if k < i && k < answers.len() {
        assert(answers[k].0 != key);
    }
}

/// The model of a needed POM comes from what is known under its group, artifact and version:
/// nothing is known of it before the POM is fetched, and it cannot be had where the POM cannot.
pub proof fn models_come_from_fetched_poms(
    c: CoordModel,
    env: EnvironmentModel,
    raw: KnownPoms,
)
    ensures
        ({
            let key = c.group_id + ":"@ + c.artifact_id + ":"@ + c.version;
            let model = collect::own_model(c, env, raw);
            match known::outcome(raw, key) {
                None => model is None,
                Some(Fetched::Failed) => model == Some(Fetched::<PomModel>::Failed),
                Some(Fetched::Found(p)) => match effective::prepared(p, 0, seq![key], env, raw) {
                    None => model is None,
                    Some(q) => model == Some(Fetched::Found(q)),
                },
            }
        }),
{
}

// ---------------------------------------------------------------------------
// Relocation
// ---------------------------------------------------------------------------

/// Below a node stand the dependencies of its own POM where that is not relocated, and those of
/// the POM at the new place where it is and that one is not relocated again; a new place that was
/// met before is not gone to. Where the POM cannot be had there are none.
pub proof fn nodes_stand_where_their_poms_lead(w: WorldModel, c: CoordModel)
    ensures
        ({
            let below = collect::pom_below(w, c);
            match collect::own_model(c, w.env, w.raw) {
                None => below is None,
                Some(Fetched::Failed) => below == Some(None::<PomModel>),
                Some(Fetched::Found(p)) => match collect::relocation_of(p, c) {
                    None => below == Some(Some(p)),
                    Some(next) => effective::coord_key(next) != effective::coord_key(c) ==>
                        match collect::own_model(next, w.env, w.raw) {
                        None => below is None,
                        Some(Fetched::Failed) => below == Some(None::<PomModel>),
                        Some(Fetched::Found(q)) => collect::relocation_of(q, next) is None ==> below
                            == Some(Some(q)),
                    },
                },
            }
        }),
{
    reveal_with_fuel(collect::followed, 2);
    let here = seq![effective::coord_key(c)];
    if let Some(Fetched::Found(p)) = collect::own_model(c, w.env, w.raw) {
        if let Some(next) = collect::relocation_of(p, c) {
            if effective::coord_key(next) != effective::coord_key(c) {
                assert(!here.contains(effective::coord_key(next)));
            }
        }
    }
}

/// A relocation to a place that was passed on the way is circular, and is not followed.
pub proof fn circular_relocation_ends(
    env: EnvironmentModel,
    raw: KnownPoms,
    p: PomModel,
    at: CoordModel,
    seen: Seq<Seq<char>>,
    next: CoordModel,
)
    requires
        collect::relocation_of(p, at) == Some(next),
        seen.contains(next.group_id + ":"@ + next.artifact_id + ":"@ + next.version),
    ensures
        collect::followed(env, raw, p, at, seen) == Some(Some(p)),
{
}

/// The resolution of an artifact is the tree below its own POM, under what that POM manages, and
/// fails where the POM cannot be had.
pub proof fn resolution_begins_at_the_pom(
    root: CoordModel,
    env: EnvironmentModel,
    raw: KnownPoms,
    metadata: KnownMetadata,
)
    ensures
        ({
            let result = collect::resolution(root, env, raw, metadata);
            match collect::own_model(root, env, raw) {
                None => result is None,
                Some(Fetched::Failed) => result == Some(None::<Seq<NodeModel>>),
                Some(Fetched::Found(p)) => match collect::tree_of(root, p, env, raw, metadata) {
                    None => result is None,
                    Some(tree) => result == Some(Some(tree)),
                },
            }
        }),
{
}

// ---------------------------------------------------------------------------
// Management by key
// ---------------------------------------------------------------------------

proof fn lemma_patterns_push(
    own: Seq<(Seq<char>, Seq<char>)>,
    more: Seq<(Seq<char>, Seq<char>)>,
    x: (Seq<char>, Seq<char>),
    i: int,
)
    requires
        0 <= i <= more.len(),
    ensures
        ({
            let all = pom::exclusions_with(own, more, i);
            pom::exclusions_with(own, more.push(x), i) == if all.contains(x) {
                all
            } else {
                all.push(x)
            }
        }),
    decreases more.len() - i,
{
    let longer = more.push(x);
    if i < more.len() {
        assert(longer[i] == more[i]);
        if own.contains(more[i]) {
            lemma_patterns_push(own, more, x, i + 1);
        } else {
            lemma_patterns_push(own.push(more[i]), more, x, i + 1);
        }
    } else {
        assert(longer[i] == x);
        assert(pom::exclusions_with(own, longer, i + 1) == own);
        assert(pom::exclusions_with(own.push(x), longer, i + 1) == own.push(x));
    }
}

/// Managed exclusions are added behind those of the dependency in their order, each unless it is
/// there already.
pub proof fn exclusions_are_added_in_order(
    own: Seq<(Seq<char>, Seq<char>)>,
    more: Seq<(Seq<char>, Seq<char>)>,
    x: (Seq<char>, Seq<char>),
)
    ensures
        pom::exclusions_with(own, Seq::empty(), 0) == own,
        ({
            let all = pom::exclusions_with(own, more, 0);
            pom::exclusions_with(own, more.push(x), 0) == if all.contains(x) {
                all
            } else {
                all.push(x)
            }
        }),
{
    lemma_patterns_push(own, more, x, 0);
}

/// What a POM manages is found by group, artifact and type: the last entry for them, and nothing
/// where there is none.
pub proof fn management_is_found_by_key(p: PomModel, d: DependencyModel)
    ensures
        ({
            let managed = if p.dependency_management is Some {
                p.dependency_management->0
            } else {
                Seq::empty()
            };
            let map = collect::managed_map(collect::management_of(p));
            let key = (d.group_id, d.artifact_id, declared::type_word(d));
            &&& declared::is_unmanaged(managed, d) <==> !map.contains_key(key)
            &&& forall|k: int|
                #[trigger] declared::is_last_for(managed, d, k) ==> map.contains_key(key)
                    && map[key] == managed[k]
        }),
{
    let managed = collect::management_of(p);
    collect::lemma_managed_map(managed, d.group_id, d.artifact_id, pom::type_of(d));
    declared::last_management_counts(managed, d);
    crate::laws::pom::managed_entry_is_declared(
        managed,
        d.group_id,
        d.artifact_id,
        pom::type_of(d),
    );
    lemma_declares(managed, d);
    if has_entry_for(managed, d) {
        let i = choose|i: int| 0 <= i < managed.len() && declared::manages(#[trigger] managed[i], d);
        assert(!declared::is_unmanaged(managed, d));
    }
}

} // verus!
