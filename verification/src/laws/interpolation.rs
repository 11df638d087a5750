//! Laws of how placeholders are replaced in POMs.
use crate::coord::CoordModel;
use crate::laws::pom as pom_laws;
use crate::pom;
use crate::pom::DependencyModel;
use crate::pom::EnvironmentModel;
use crate::pom::ParentModel;
use crate::pom::PomModel;
use crate::pom::PomRepositoryModel;
use crate::pom::RelocationModel;
use crate::properties;
use crate::properties::Entries;
use crate::text;
use vstd::prelude::*;

verus! {

// ---------------------------------------------------------------------------
// Properties
// ---------------------------------------------------------------------------

/// The value of a name is that of the first entry with the name; a name without an entry has none.
pub proof fn lookup_finds_the_first_entry(l: Entries, key: Seq<char>)
    ensures
        forall|i: int|
            0 <= i < l.len() && (#[trigger] l[i]).0 == key && (forall|j: int|
                0 <= j < i ==> (#[trigger] l[j]).0 != key) ==> properties::lookup(l, key) == Some(
                l[i].1,
            ),
        (forall|i: int| 0 <= i < l.len() ==> (#[trigger] l[i]).0 != key) <==> properties::lookup(
            l,
            key,
        ) is None,
{
    properties::lemma_key_from(l, key, 0);
    let k = properties::key_from(l, key, 0);
    assert forall|i: int|
        0 <= i < l.len() && (#[trigger] l[i]).0 == key && (forall|j: int|
            0 <= j < i ==> (#[trigger] l[j]).0 != key) implies k == i by {
        if k < i {
            assert(l[k].0 != key);
        }
    }
}

// ---------------------------------------------------------------------------
// Texts
// ---------------------------------------------------------------------------

/// A text with its placeholders replaced a number of times.
pub open spec fn replaced_times(s: Seq<char>, props: Entries, n: nat) -> Seq<char>
    decreases n,
{
    if n == 0 {
        s
    } else {
        replaced_times(properties::replace_once(s, props), props, (n - 1) as nat)
    }
}

proof fn lemma_nothing_to_replace(s: Seq<char>, props: Entries)
    requires
        !properties::replaceable(s, props),
    ensures
        properties::replace_once(s, props) == s,
    decreases s.len(),
{
    if s.len() > 0 {
        if !properties::opens(s) {
            lemma_nothing_to_replace(s.skip(1), props);
            assert(seq![s[0]] + s.skip(1) =~= s);
        } else if 2 <= properties::closing(s) < s.len() {
            let end = properties::closing(s) + 1;
            lemma_nothing_to_replace(s.skip(end), props);
            assert(s.take(end) + s.skip(end) =~= s);
        }
    }
}

proof fn lemma_replaced_times(s: Seq<char>, props: Entries, n: nat)
    ensures
        properties::replace_up_to(s, props, n) == replaced_times(s, props, n),
    decreases n,
{
    if n > 0 {
        if properties::replaceable(s, props) {
            lemma_replaced_times(properties::replace_once(s, props), props, (n - 1) as nat);
        } else {
            lemma_nothing_to_replace(s, props);
            lemma_replaced_times(s, props, (n - 1) as nat);
        }
    }
}

/// Placeholders are replaced ten times over, so that a value may itself hold placeholders.
pub proof fn placeholders_are_replaced_ten_times(s: Seq<char>, props: Entries)
    ensures
        properties::interpolated(s, props) == replaced_times(s, props, 10),
{
    lemma_replaced_times(s, props, properties::MAX_DEPTH as nat);
}

/// One replacement leaves the text before a placeholder as it is, puts its value in its place if
/// it has one, and goes on behind it.
pub proof fn placeholder_gives_way_to_its_value(
    head: Seq<char>,
    key: Seq<char>,
    tail: Seq<char>,
    props: Entries,
)
    requires
        !head.contains('$'),
        !key.contains('}'),
    ensures
        properties::replace_once(head + ("${"@ + key + "}"@ + tail), props) == head + ((
        match properties::lookup(props, key) {
            Some(value) => value,
            None => "${"@ + key + "}"@,
        }) + properties::replace_once(tail, props)),
{
    reveal_strlit("${");
    reveal_strlit("}");
    let s = "${"@ + key + "}"@ + tail;
    pom_laws::text_before_placeholders_is_kept(head, s, props);
    text::lemma_find_from(s, '}', 2);
    let close = properties::closing(s);
    assert(s[key.len() as int + 2] == '}');
    if close < key.len() + 2 {
        assert(s[close] == key[close - 2]);
        assert(key.contains('}'));
    }
    assert(close == key.len() + 2);
    assert(properties::placeholder_key(s) =~= key);
    assert(s.skip(close + 1) =~= tail);
    assert(s.take(close + 1) =~= "${"@ + key + "}"@);
}

/// A text without a placeholder's opening stays as it is, and so does one whose placeholder is
/// never closed.
pub proof fn unclosed_placeholder_stays(head: Seq<char>, rest: Seq<char>, props: Entries)
    requires
        !head.contains('$'),
        !rest.contains('}'),
    ensures
        properties::interpolated(head + ("${"@ + rest), props) == head + ("${"@ + rest),
        properties::interpolated(head, props) == head,
{
    reveal_strlit("${");
    let s = "${"@ + rest;
    pom_laws::plain_text_stays(head, props);
    text::lemma_find_from(s, '}', 2);
    let close = properties::closing(s);
    if 2 <= close < s.len() {
        assert(s[close] == rest[close - 2]);
        assert(rest.contains('}'));
    }
    assert(!properties::replaceable(s, props));
    lemma_head_not_replaceable(head, s, props);
}

proof fn lemma_head_not_replaceable(head: Seq<char>, s: Seq<char>, props: Entries)
    requires
        !head.contains('$'),
        !properties::replaceable(s, props),
    ensures
        !properties::replaceable(head + s, props),
    decreases head.len(),
{
    if head.len() == 0 {
        assert(head + s =~= s);
    } else {
        let t = head.skip(1);
        if t.contains('$') {
            let i = choose|i: int| 0 <= i < t.len() && t[i] == '$';
            assert(head[i + 1] == '$');
        }
        assert(head.contains(head[0]));
        lemma_head_not_replaceable(t, s, props);
        assert((head + s).skip(1) =~= t + s);
    }
}

/// A text that is one placeholder becomes the value of its name, where that holds no placeholder.
pub proof fn lone_placeholder_becomes_its_value(key: Seq<char>, value: Seq<char>, props: Entries)
    requires
        !key.contains('}'),
        properties::lookup(props, key) == Some(value),
        !value.contains('$'),
    ensures
        properties::interpolated("${"@ + key + "}"@, props) == value,
{
    let s = "${"@ + key + "}"@;
    let none = Seq::<char>::empty();
    placeholder_gives_way_to_its_value(none, key, none, props);
    assert(none + ("${"@ + key + "}"@ + none) =~= s);
    assert(properties::replace_once(none, props) =~= none);
    assert(none + (value + none) =~= value);
    pom_laws::plain_text_stays(value, props);
    placeholders_are_replaced_ten_times(s, props);
    placeholders_are_replaced_ten_times(value, props);
    lemma_stays_replaced(value, props, 9);
    assert(replaced_times(s, props, 10) == replaced_times(value, props, 9));
}

proof fn lemma_stays_replaced(value: Seq<char>, props: Entries, n: nat)
    requires
        !value.contains('$'),
    ensures
        replaced_times(value, props, n) == value,
    decreases n,
{
    if n > 0 {
        pom_laws::lemma_nothing_replaceable(value, props);
        lemma_nothing_to_replace(value, props);
        lemma_stays_replaced(value, props, (n - 1) as nat);
    }
}

// ---------------------------------------------------------------------------
// Fields
// ---------------------------------------------------------------------------

/// Whether a text is another one with its placeholders replaced.
pub open spec fn is_filled(before: Seq<char>, after: Seq<char>, props: Entries) -> bool {
    after == properties::interpolated(before, props)
}

/// Whether an optional text is another one with its placeholders replaced.
pub open spec fn is_filled_opt(
    before: Option<Seq<char>>,
    after: Option<Seq<char>>,
    props: Entries,
) -> bool {
    match (before, after) {
        (Some(b), Some(a)) => is_filled(b, a, props),
        (None, None) => true,
        _ => false,
    }
}

/// Whether every field of a dependency is filled.
pub open spec fn dependency_filled(
    b: DependencyModel,
    a: DependencyModel,
    props: Entries,
) -> bool {
    &&& is_filled(b.group_id, a.group_id, props)
    &&& is_filled(b.artifact_id, a.artifact_id, props)
    &&& is_filled_opt(b.version, a.version, props)
    &&& is_filled_opt(b.dep_type, a.dep_type, props)
    &&& is_filled_opt(b.scope, a.scope, props)
    &&& is_filled_opt(b.classifier, a.classifier, props)
    &&& is_filled_opt(b.optional, a.optional, props)
    &&& b.exclusions.len() == a.exclusions.len()
    &&& forall|i: int|
        0 <= i < b.exclusions.len() ==> is_filled(
            (#[trigger] b.exclusions[i]).0,
            a.exclusions[i].0,
            props,
        ) && is_filled(b.exclusions[i].1, a.exclusions[i].1, props)
}

/// Whether every field of each of a list of dependencies is filled.
pub open spec fn dependencies_filled(
    b: Seq<DependencyModel>,
    a: Seq<DependencyModel>,
    props: Entries,
) -> bool {
    &&& b.len() == a.len()
    &&& forall|i: int| 0 <= i < b.len() ==> dependency_filled(#[trigger] b[i], a[i], props)
}

/// Whether every field of a parent is filled.
pub open spec fn parent_filled(b: ParentModel, a: ParentModel, props: Entries) -> bool {
    &&& is_filled(b.group_id, a.group_id, props)
    &&& is_filled(b.artifact_id, a.artifact_id, props)
    &&& is_filled(b.version, a.version, props)
    &&& is_filled_opt(b.relative_path, a.relative_path, props)
}

/// Whether every field of a repository is filled.
pub open spec fn repository_filled(
    b: PomRepositoryModel,
    a: PomRepositoryModel,
    props: Entries,
) -> bool {
    &&& is_filled_opt(b.id, a.id, props)
    &&& is_filled(b.url, a.url, props)
    &&& is_filled_opt(b.name, a.name, props)
    &&& is_filled_opt(b.layout, a.layout, props)
}

/// Whether every field of a relocation is filled.
pub open spec fn relocation_filled(b: RelocationModel, a: RelocationModel, props: Entries) -> bool {
    &&& is_filled_opt(b.group_id, a.group_id, props)
    &&& is_filled_opt(b.artifact_id, a.artifact_id, props)
    &&& is_filled_opt(b.version, a.version, props)
    &&& is_filled_opt(b.message, a.message, props)
}

/// Interpolating a POM replaces the placeholders in every text of it: in its own fields, in its
/// parent, in all fields of its dependencies and of those that it manages, in its repositories and
/// in its relocation. Nothing is added or left out.
pub proof fn every_field_is_interpolated(pom: PomModel, env: EnvironmentModel)
    ensures
        ({
            let r = pom::interpolated_pom(pom, env);
            let props = pom::effective_properties(pom, env);
            &&& is_filled_opt(pom.model_version, r.model_version, props)
            &&& is_filled_opt(pom.group_id, r.group_id, props)
            &&& is_filled_opt(pom.artifact_id, r.artifact_id, props)
            &&& is_filled_opt(pom.version, r.version, props)
            &&& is_filled_opt(pom.packaging, r.packaging, props)
            &&& is_filled_opt(pom.name, r.name, props)
            &&& is_filled_opt(pom.description, r.description, props)
            &&& is_filled_opt(pom.url, r.url, props)
            &&& dependencies_filled(pom.dependencies, r.dependencies, props)
            &&& r.repositories.len() == pom.repositories.len()
            &&& forall|i: int|
                0 <= i < pom.repositories.len() ==> repository_filled(
                    #[trigger] pom.repositories[i],
                    r.repositories[i],
                    props,
                )
            &&& match (pom.parent, r.parent) {
                (Some(b), Some(a)) => parent_filled(b, a, props),
                (None, None) => true,
                _ => false,
            }
            &&& match (pom.dependency_management, r.dependency_management) {
                (Some(b), Some(a)) => dependencies_filled(b, a, props),
                (None, None) => true,
                _ => false,
            }
            &&& match (pom.distribution_management, r.distribution_management) {
                (Some(Some(b)), Some(Some(a))) => relocation_filled(b, a, props),
                (Some(None), Some(None)) => true,
                (None, None) => true,
                _ => false,
            }
            &&& r.properties == props
        }),
{
}

/// Whether every field of a dependency that is the placeholder of a name is its value afterwards.
pub open spec fn takes_value(
    b: DependencyModel,
    a: DependencyModel,
    key: Seq<char>,
    value: Seq<char>,
) -> bool {
    let p = "${"@ + key + "}"@;
    &&& b.group_id == p ==> a.group_id == value
    &&& b.artifact_id == p ==> a.artifact_id == value
    &&& b.version == Some(p) ==> a.version == Some(value)
    &&& b.dep_type == Some(p) ==> a.dep_type == Some(value)
    &&& b.scope == Some(p) ==> a.scope == Some(value)
    &&& b.classifier == Some(p) ==> a.classifier == Some(value)
    &&& b.optional == Some(p) ==> a.optional == Some(value)
    &&& forall|i: int|
        0 <= i < b.exclusions.len() ==> ((#[trigger] b.exclusions[i]).0 == p
            ==> a.exclusions[i].0 == value) && (b.exclusions[i].1 == p ==> a.exclusions[i].1
            == value)
}

/// Whether a field that holds no placeholder stays as it is, in every field of a dependency.
pub open spec fn keeps_plain(b: DependencyModel, a: DependencyModel) -> bool {
    &&& !b.group_id.contains('$') ==> a.group_id == b.group_id
    &&& !b.artifact_id.contains('$') ==> a.artifact_id == b.artifact_id
    &&& b.version is Some && !b.version->0.contains('$') ==> a.version == b.version
    &&& b.dep_type is Some && !b.dep_type->0.contains('$') ==> a.dep_type == b.dep_type
    &&& b.scope is Some && !b.scope->0.contains('$') ==> a.scope == b.scope
    &&& b.classifier is Some && !b.classifier->0.contains('$') ==> a.classifier == b.classifier
    &&& b.optional is Some && !b.optional->0.contains('$') ==> a.optional == b.optional
}

proof fn lemma_takes_value(
    b: DependencyModel,
    a: DependencyModel,
    props: Entries,
    key: Seq<char>,
    value: Seq<char>,
)
    requires
        dependency_filled(b, a, props),
        !key.contains('}'),
        properties::lookup(props, key) == Some(value),
        !value.contains('$'),
    ensures
        takes_value(b, a, key, value),
        keeps_plain(b, a),
{
    lone_placeholder_becomes_its_value(key, value, props);
    assert forall|t: Seq<char>| !t.contains('$') implies #[trigger] properties::interpolated(
        t,
        props,
    ) == t by {
        pom_laws::plain_text_stays(t, props);
    }
}

/// A field of a dependency, or of a managed one, that is the placeholder of a name with a value
/// becomes that value, and one without a placeholder stays as it is.
pub proof fn dependency_placeholders_take_their_values(
    pom: PomModel,
    env: EnvironmentModel,
    key: Seq<char>,
    value: Seq<char>,
)
    requires
        !key.contains('}'),
        properties::lookup(pom::effective_properties(pom, env), key) == Some(value),
        !value.contains('$'),
    ensures
        ({
            let r = pom::interpolated_pom(pom, env);
            &&& r.dependencies.len() == pom.dependencies.len()
            &&& forall|i: int|
                0 <= i < pom.dependencies.len() ==> takes_value(
                    #[trigger] pom.dependencies[i],
                    r.dependencies[i],
                    key,
                    value,
                ) && keeps_plain(pom.dependencies[i], r.dependencies[i])
            &&& pom.dependency_management matches Some(b) ==> {
                &&& r.dependency_management matches Some(a)
                &&& a.len() == b.len()
                &&& forall|i: int|
                    0 <= i < b.len() ==> takes_value(#[trigger] b[i], a[i], key, value)
                        && keeps_plain(b[i], a[i])
            }
        }),
{
    let r = pom::interpolated_pom(pom, env);
    let props = pom::effective_properties(pom, env);
    every_field_is_interpolated(pom, env);
    assert forall|i: int| 0 <= i < pom.dependencies.len() implies takes_value(
        #[trigger] pom.dependencies[i],
        r.dependencies[i],
        key,
        value,
    ) && keeps_plain(pom.dependencies[i], r.dependencies[i]) by {
        lemma_takes_value(pom.dependencies[i], r.dependencies[i], props, key, value);
    }
    if let Some(b) = pom.dependency_management {
        let a = r.dependency_management->0;
        assert forall|i: int| 0 <= i < b.len() implies takes_value(
            #[trigger] b[i],
            a[i],
            key,
            value,
        ) && keeps_plain(b[i], a[i]) by {
            lemma_takes_value(b[i], a[i], props, key, value);
        }
    }
}

// ---------------------------------------------------------------------------
// The names that have values
// ---------------------------------------------------------------------------

proof fn lemma_settled_keeps(l: Entries, i: int, key: Seq<char>, value: Seq<char>)
    requires
        properties::lookup(l, key) == Some(value),
        !value.contains('$'),
    ensures
        properties::lookup(properties::settled_from(l, i), key) == Some(value),
    decreases l.len() - i,
{
    if 0 <= i < l.len() {
        let k = l[i].0;
        properties::lemma_key_from(l, k, 0);
        let v = l[properties::key_from(l, k, 0)].1;
        let next = properties::set_entry(l, k, properties::interpolated(v, l));
        pom_laws::set_property_is_read_back(l, k, properties::interpolated(v, l), key);
        if k == key {
            assert(properties::lookup(l, key) == Some(v));
            pom_laws::plain_text_stays(v, l);
        }
        lemma_settled_keeps(next, i + 1, key, value);
    }
}

/// The group of a POM is its own, or else that of its parent; so is its version. Its packaging is
/// its own, or else `jar`.
pub proof fn own_values_come_first(pom: PomModel)
    ensures
        pom::group_of(pom) == (if pom.group_id is Some {
            pom.group_id
        } else if pom.parent is Some {
            Some(pom.parent->0.group_id)
        } else {
            None
        }),
        pom::version_of(pom) == (if pom.version is Some {
            pom.version
        } else if pom.parent is Some {
            Some(pom.parent->0.version)
        } else {
            None
        }),
        pom::packaging_of(pom) == (if pom.packaging is Some {
            pom.packaging->0
        } else {
            "jar"@
        }),
        pom::coord_of_pom(pom) is Some <==> pom::group_of(pom) is Some && pom.artifact_id is Some
            && pom::version_of(pom) is Some,
        pom::coord_of_pom(pom) matches Some(c) ==> Some(c.group_id) == pom::group_of(pom) && Some(
            c.artifact_id,
        ) == pom.artifact_id && Some(c.version) == pom::version_of(pom) && c.extension
            == pom::packaging_of(pom) && c.classifier is None,
        pom::parent_coord_of(pom) is Some <==> pom.parent is Some,
        pom::parent_coord_of(pom) matches Some(c) ==> c == (CoordModel {
            group_id: pom.parent->0.group_id,
            artifact_id: pom.parent->0.artifact_id,
            version: pom.parent->0.version,
            classifier: None,
            extension: "pom"@,
        }),
{
}

/// The names by which a POM speaks of itself have the values of its own group, artifact, version
/// and packaging, whatever its properties say of these names.
pub proof fn project_names_have_the_values_of_the_pom(pom: PomModel, env: EnvironmentModel)
    ensures
        ({
            let props = pom::effective_properties(pom, env);
            &&& pom::group_of(pom) is Some && !pom::group_of(pom)->0.contains('$')
                ==> properties::lookup(props, "project.groupId"@) == pom::group_of(pom)
            &&& pom.artifact_id is Some && !pom.artifact_id->0.contains('$')
                ==> properties::lookup(props, "project.artifactId"@) == pom.artifact_id
            &&& pom::version_of(pom) is Some && !pom::version_of(pom)->0.contains('$')
                ==> properties::lookup(props, "project.version"@) == pom::version_of(pom)
            &&& !pom::packaging_of(pom).contains('$') ==> properties::lookup(
                props,
                "project.packaging"@,
            ) == Some(pom::packaging_of(pom))
        }),
{
    pom_laws::project_properties_are_its_own(pom, env);
    let l = pom::with_environment(pom::with_project(pom.properties, pom), env);
    if let Some(g) = pom::group_of(pom) {
        if !g.contains('$') {
            lemma_settled_keeps(l, 0, "project.groupId"@, g);
        }
    }
    if let Some(a) = pom.artifact_id {
        if !a.contains('$') {
            lemma_settled_keeps(l, 0, "project.artifactId"@, a);
        }
    }
    if let Some(v) = pom::version_of(pom) {
        if !v.contains('$') {
            lemma_settled_keeps(l, 0, "project.version"@, v);
        }
    }
    if !pom::packaging_of(pom).contains('$') {
        lemma_settled_keeps(l, 0, "project.packaging"@, pom::packaging_of(pom));
    }
}

/// A property that a POM declares has its declared value, where that holds no placeholder.
pub proof fn declared_names_have_their_values(
    pom: PomModel,
    env: EnvironmentModel,
    key: Seq<char>,
)
    requires
        !pom_laws::is_project_key(key),
        properties::lookup(pom.properties, key) is Some,
        !properties::lookup(pom.properties, key)->0.contains('$'),
    ensures
        properties::lookup(pom::effective_properties(pom, env), key) == properties::lookup(
            pom.properties,
            key,
        ),
{
    pom_laws::declared_properties_win(pom, env, key);
    lemma_settled_keeps(
        pom::with_environment(pom::with_project(pom.properties, pom), env),
        0,
        key,
        properties::lookup(pom.properties, key)->0,
    );
}

/// A dependency that names the group or the version of its POM by a placeholder has that group or
/// version, and so has a managed one.
pub proof fn dependencies_may_name_their_project(pom: PomModel, env: EnvironmentModel, i: int)
    ensures
        ({
            let r = pom::interpolated_pom(pom, env);
            let g = pom::group_of(pom);
            let v = pom::version_of(pom);
            &&& g is Some && !g->0.contains('$') && 0 <= i < pom.dependencies.len()
                && pom.dependencies[i].group_id == "${project.groupId}"@
                ==> r.dependencies[i].group_id == g->0
            &&& v is Some && !v->0.contains('$') && 0 <= i < pom.dependencies.len()
                && pom.dependencies[i].version == Some("${project.version}"@)
                ==> r.dependencies[i].version == v
            &&& pom.dependency_management is Some && 0 <= i < pom.dependency_management->0.len()
                ==> {
                let ds = pom.dependency_management->0;
                &&& g is Some && !g->0.contains('$') && ds[i].group_id == "${project.groupId}"@
                    ==> r.dependency_management->0[i].group_id == g->0
                &&& v is Some && !v->0.contains('$') && ds[i].version == Some(
                    "${project.version}"@,
                ) ==> r.dependency_management->0[i].version == v
            }
        }),
{
    reveal_strlit("${");
    reveal_strlit("}");
    reveal_strlit("project.groupId");
    reveal_strlit("project.version");
    reveal_strlit("${project.groupId}");
    reveal_strlit("${project.version}");
    assert("${project.groupId}"@ =~= "${"@ + "project.groupId"@ + "}"@);
    assert("${project.version}"@ =~= "${"@ + "project.version"@ + "}"@);
    assert(!"project.groupId"@.contains('}'));
    assert(!"project.version"@.contains('}'));
    project_names_have_the_values_of_the_pom(pom, env);
    if let Some(g) = pom::group_of(pom) {
        if !g.contains('$') {
            dependency_placeholders_take_their_values(pom, env, "project.groupId"@, g);
        }
    }
    if let Some(v) = pom::version_of(pom) {
        if !v.contains('$') {
            dependency_placeholders_take_their_values(pom, env, "project.version"@, v);
        }
    }
}

proof fn lemma_vars_leave(props: Entries, vars: Entries, i: int, key: Seq<char>)
    requires
        !text::begins(key, "env."@),
    ensures
        properties::lookup(pom::with_vars(props, vars, i), key) == properties::lookup(props, key),
    decreases vars.len() - i,
{
    if i < vars.len() {
        let name = "env."@ + vars[i].0;
        assert(name.subrange(0, "env."@.len() as int) =~= "env."@);
        assert(name.take("env."@.len() as int) =~= "env."@);
        pom_laws::default_property_yields(props, name, vars[i].1, key);
        lemma_vars_leave(properties::set_default(props, name, vars[i].1), vars, i + 1, key);
    }
}

proof fn lemma_vars_add(props: Entries, vars: Entries, i: int, name: Seq<char>, k: int)
    requires
        properties::lookup(props, "env."@ + name) is None,
        0 <= i <= k < vars.len(),
        vars[k].0 == name,
        forall|j: int| i <= j < k ==> (#[trigger] vars[j]).0 != name,
    ensures
        properties::lookup(pom::with_vars(props, vars, i), "env."@ + name) == Some(vars[k].1),
    decreases vars.len() - i,
{
    let key = "env."@ + name;
    let here = "env."@ + vars[i].0;
    pom_laws::default_property_yields(props, here, vars[i].1, key);
    let next = properties::set_default(props, here, vars[i].1);
    if i == k {
        pom_laws::lemma_vars_yield(next, vars, i + 1, key);
    } else {
        if here == key {
            let n = "env."@.len() as int;
            assert(here.skip(n) =~= vars[i].0);
            assert(key.skip(n) =~= name);
        }
        lemma_vars_add(next, vars, i + 1, name, k);
    }
}

/// Under the name of an environment variable after `env.` stands its value, and under `os.name`
/// and `os.arch` what the environment says, where the POM declares nothing under these names and
/// the value holds no placeholder.
pub proof fn environment_has_values(pom: PomModel, env: EnvironmentModel, k: int)
    ensures
        ({
            let props = pom::effective_properties(pom, env);
            &&& 0 <= k < env.vars.len() && (forall|j: int|
                0 <= j < k ==> (#[trigger] env.vars[j]).0 != env.vars[k].0)
                && !env.vars[k].1.contains('$') && properties::lookup(
                pom.properties,
                "env."@ + env.vars[k].0,
            ) is None ==> properties::lookup(props, "env."@ + env.vars[k].0) == Some(env.vars[k].1)
            &&& !env.os_name.contains('$') && properties::lookup(pom.properties, "os.name"@)
                is None ==> properties::lookup(props, "os.name"@) == Some(env.os_name)
            &&& !env.os_arch.contains('$') && properties::lookup(pom.properties, "os.arch"@)
                is None ==> properties::lookup(props, "os.arch"@) == Some(env.os_arch)
        }),
{
    reveal_strlit("env.");
    reveal_strlit("os.name");
    reveal_strlit("os.arch");
    reveal_strlit("java.version");
    reveal_strlit("project.groupId");
    reveal_strlit("project.artifactId");
    reveal_strlit("project.version");
    reveal_strlit("project.packaging");
    let own = pom::with_project(pom.properties, pom);
    let a = pom::with_vars(own, env.vars, 0);
    let b = properties::set_default(a, "java.version"@, pom::java_version(env));
    let c = properties::set_default(b, "os.name"@, env.os_name);
    let all = pom::with_environment(own, env);
    assert("env."@[0] == 'e' && "os.name"@[0] == 'o' && "os.arch"@[0] == 'o' && "java.version"@[0]
        == 'j');
    assert("os.name"@[3] == 'n' && "os.arch"@[3] == 'a');
    if 0 <= k < env.vars.len() {
        let name = env.vars[k].0;
        let key = "env."@ + name;
        assert(key[0] == 'e');
        lemma_project_leaves(pom, key);
        if properties::lookup(pom.properties, key) is None && forall|j: int|
            0 <= j < k ==> (#[trigger] env.vars[j]).0 != env.vars[k].0 {
            lemma_vars_add(own, env.vars, 0, name, k);
            pom_laws::default_property_yields(a, "java.version"@, pom::java_version(env), key);
            pom_laws::default_property_yields(b, "os.name"@, env.os_name, key);
            pom_laws::default_property_yields(c, "os.arch"@, env.os_arch, key);
            if !env.vars[k].1.contains('$') {
                lemma_settled_keeps(all, 0, key, env.vars[k].1);
            }
        }
    }
    assert("os.name"@.take(4)[0] == 'o');
    assert("os.arch"@.take(4)[0] == 'o');
    lemma_project_leaves(pom, "os.name"@);
    lemma_project_leaves(pom, "os.arch"@);
    lemma_vars_leave(own, env.vars, 0, "os.name"@);
    lemma_vars_leave(own, env.vars, 0, "os.arch"@);
    pom_laws::default_property_yields(a, "java.version"@, pom::java_version(env), "os.name"@);
    pom_laws::default_property_yields(a, "java.version"@, pom::java_version(env), "os.arch"@);
    pom_laws::default_property_yields(b, "os.name"@, env.os_name, "os.name"@);
    pom_laws::default_property_yields(b, "os.name"@, env.os_name, "os.arch"@);
    pom_laws::default_property_yields(c, "os.arch"@, env.os_arch, "os.name"@);
    pom_laws::default_property_yields(c, "os.arch"@, env.os_arch, "os.arch"@);
    if properties::lookup(pom.properties, "os.name"@) is None && !env.os_name.contains('$') {
        lemma_settled_keeps(all, 0, "os.name"@, env.os_name);
    }
    if properties::lookup(pom.properties, "os.arch"@) is None && !env.os_arch.contains('$') {
        lemma_settled_keeps(all, 0, "os.arch"@, env.os_arch);
    }
}

/// Under `java.version` stands the value of the environment variable `JAVA_VERSION`, and an empty
/// text where there is none, where the POM declares nothing under this name and the value holds no
/// placeholder.
pub proof fn java_has_the_version_of_the_environment(pom: PomModel, env: EnvironmentModel, k: int)
    requires
        0 <= k <= env.vars.len(),
        forall|j: int| 0 <= j < k ==> (#[trigger] env.vars[j]).0 != "JAVA_VERSION"@,
        k < env.vars.len() ==> env.vars[k].0 == "JAVA_VERSION"@ && !env.vars[k].1.contains('$'),
        properties::lookup(pom.properties, "java.version"@) is None,
    ensures
        properties::lookup(pom::effective_properties(pom, env), "java.version"@) == Some(
            if k < env.vars.len() {
                env.vars[k].1
            } else {
                Seq::empty()
            },
        ),
{
    reveal_strlit("env.");
    reveal_strlit("os.name");
    reveal_strlit("os.arch");
    reveal_strlit("java.version");
    let key = "java.version"@;
    let value = pom::java_version(env);
    lookup_finds_the_first_entry(env.vars, "JAVA_VERSION"@);
    properties::lemma_key_from(env.vars, "JAVA_VERSION"@, 0);
    let i = properties::key_from(env.vars, "JAVA_VERSION"@, 0);
    if k < i && k < env.vars.len() {
        assert(env.vars[k].0 != "JAVA_VERSION"@);
    }
    if i < k {
        assert(env.vars[i].0 != "JAVA_VERSION"@);
    }
    assert(i == k);
    let own = pom::with_project(pom.properties, pom);
    let a = pom::with_vars(own, env.vars, 0);
    let b = properties::set_default(a, key, value);
    let c = properties::set_default(b, "os.name"@, env.os_name);
    let all = pom::with_environment(own, env);
    assert("env."@[0] == 'e' && "os.name"@[0] == 'o' && "os.arch"@[0] == 'o' && key[0] == 'j');
    assert(key.take(4)[0] == 'j');
    lemma_project_leaves(pom, key);
    lemma_vars_leave(own, env.vars, 0, key);
    pom_laws::default_property_yields(a, key, value, key);
    pom_laws::default_property_yields(b, "os.name"@, env.os_name, key);
    pom_laws::default_property_yields(c, "os.arch"@, env.os_arch, key);
    assert(!value.contains('$'));
    lemma_settled_keeps(all, 0, key, value);
}

proof fn lemma_project_leaves(pom: PomModel, key: Seq<char>)
    requires
        key.len() > 0,
        key[0] != 'p',
    ensures
        properties::lookup(pom::with_project(pom.properties, pom), key) == properties::lookup(
            pom.properties,
            key,
        ),
{
    reveal_strlit("project.groupId");
    reveal_strlit("project.artifactId");
    reveal_strlit("project.version");
    reveal_strlit("project.packaging");
    let p = pom.properties;
    let g = "project.groupId"@;
    let a = "project.artifactId"@;
    let v = "project.version"@;
    let k = "project.packaging"@;
    assert(g[0] == 'p' && a[0] == 'p' && v[0] == 'p' && k[0] == 'p');
    let p1 = match pom::group_of(pom) {
        Some(x) => properties::set_entry(p, g, x),
        None => p,
    };
    let p2 = match pom.artifact_id {
        Some(x) => properties::set_entry(p1, a, x),
        None => p1,
    };
    let p3 = match pom::version_of(pom) {
        Some(x) => properties::set_entry(p2, v, x),
        None => p2,
    };
    pom_laws::set_property_is_read_back(p, g, pom::group_of(pom)->0, key);
    pom_laws::set_property_is_read_back(p1, a, pom.artifact_id->0, key);
    pom_laws::set_property_is_read_back(p2, v, pom::version_of(pom)->0, key);
    pom_laws::set_property_is_read_back(p3, k, pom::packaging_of(pom), key);
}

/// Setting a property leaves all properties in their places: a known one gets its new value where
/// it stands, and a new one comes last.
pub proof fn properties_keep_their_places(l: Entries, key: Seq<char>, value: Seq<char>, k: int)
    requires
        0 <= k <= l.len(),
        forall|j: int| 0 <= j < k ==> (#[trigger] l[j]).0 != key,
        k < l.len() ==> l[k].0 == key,
    ensures
        k < l.len() ==> properties::set_entry(l, key, value) == l.update(k, (key, value))
            && properties::set_default(l, key, value) == l,
        k == l.len() ==> properties::set_entry(l, key, value) == l.push((key, value))
            && properties::set_default(l, key, value) == l.push((key, value)),
{
    properties::lemma_key_from(l, key, 0);
    let i = properties::key_from(l, key, 0);
    if i < k {
        assert(l[i].0 != key);
    }
    if k < i && k < l.len() {
        assert(l[k].0 != key);
    }
}

/// Properties are set from a list one after the other, from its first on.
pub proof fn properties_are_set_in_order(
    l: Entries,
    more: Entries,
    key: Seq<char>,
    value: Seq<char>,
)
    ensures
        properties::set_all(l, Seq::empty()) == l,
        properties::set_all(l, more.push((key, value))) == properties::set_entry(
            properties::set_all(l, more),
            key,
            value,
        ),
    decreases more.len(),
{
    let all = more.push((key, value));
    if more.len() > 0 {
        properties_are_set_in_order(
            properties::set_entry(l, more[0].0, more[0].1),
            more.skip(1),
            key,
            value,
        );
        assert(all[0] == more[0]);
        assert(all.skip(1) =~= more.skip(1).push((key, value)));
    } else {
        assert(all[0] == (key, value));
        let rest = all.skip(1);
        assert(rest.len() == 0);
        let next = properties::set_entry(l, key, value);
        assert(properties::set_all(next, rest) == next);
        assert(properties::set_all(l, more) == l);
    }
}

/// The values of properties are settled one after the other: each has its placeholders replaced
/// from the properties as they then are.
pub proof fn values_are_settled_in_order(l: Entries, i: int)
    requires
        0 <= i < l.len(),
        properties::distinct_keys(l),
    ensures
        properties::settled_from(l, i) == properties::settled_from(
            l.update(i, (l[i].0, properties::interpolated(l[i].1, l))),
            i + 1,
        ),
        properties::settled_from(l, l.len() as int) == l,
{
    let key = l[i].0;
    properties::lemma_key_from(l, key, 0);
    let k = properties::key_from(l, key, 0);
    assert(k == i);
}

} // verus!
