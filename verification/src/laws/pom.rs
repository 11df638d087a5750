//! Laws of properties, interpolation, inheritance, dependency management and BOM imports.
use crate::effective;
use crate::pom;
use crate::pom::DependencyModel;
use crate::pom::EnvironmentModel;
use crate::pom::PomModel;
use crate::properties;
use crate::properties::Entries;
use crate::text;
use vstd::prelude::*;

verus! {

// ---------------------------------------------------------------------------
// Properties
// ---------------------------------------------------------------------------

proof fn lemma_key_at(l: Entries, key: Seq<char>, i: int)
    requires
        0 <= i <= l.len(),
        i < l.len() ==> l[i].0 == key,
        forall|j: int| 0 <= j < i ==> (#[trigger] l[j]).0 != key,
    ensures
        properties::key_from(l, key, 0) == i,
{
    properties::lemma_key_from(l, key, 0);
    let k = properties::key_from(l, key, 0);
    if k < i {
        assert(l[k].0 != key);
    }
}

/// A property that was set has the value it was set to, and every other property is as it was.
pub proof fn set_property_is_read_back(
    l: Entries,
    key: Seq<char>,
    value: Seq<char>,
    other: Seq<char>,
)
    ensures
        properties::lookup(properties::set_entry(l, key, value), key) == Some(value),
        other != key ==> properties::lookup(properties::set_entry(l, key, value), other)
            == properties::lookup(l, other),
{
    properties::lemma_key_from(l, key, 0);
    properties::lemma_key_from(l, other, 0);
    let i = properties::key_from(l, key, 0);
    let j = properties::key_from(l, other, 0);
    let set = properties::set_entry(l, key, value);
    lemma_key_at(set, key, i);
    if other != key {
        lemma_key_at(set, other, if j < l.len() {
            j
        } else {
            set.len() as int
        });
    }
}

/// A default counts only where the property has no value.
pub proof fn default_property_yields(
    l: Entries,
    key: Seq<char>,
    value: Seq<char>,
    other: Seq<char>,
)
    ensures
        properties::lookup(properties::set_default(l, key, value), other) == (
        if properties::lookup(l, other) is None && other == key {
            Some(value)
        } else {
            properties::lookup(l, other)
        }),
{
    set_property_is_read_back(l, key, value, other);
}

/// Setting a property leaves no property twice.
pub proof fn setting_keeps_keys_distinct(l: Entries, key: Seq<char>, value: Seq<char>)
    requires
        properties::distinct_keys(l),
    ensures
        properties::distinct_keys(properties::set_entry(l, key, value)),
        properties::distinct_keys(properties::set_default(l, key, value)),
{
    properties::lemma_key_from(l, key, 0);
}

/// Setting many properties leaves none twice.
pub proof fn setting_all_keeps_keys_distinct(l: Entries, more: Entries)
    requires
        properties::distinct_keys(l),
    ensures
        properties::distinct_keys(properties::set_all(l, more)),
    decreases more.len(),
{
    if more.len() > 0 {
        setting_keeps_keys_distinct(l, more[0].0, more[0].1);
        setting_all_keeps_keys_distinct(
            properties::set_entry(l, more[0].0, more[0].1),
            more.skip(1),
        );
    }
}

/// Of two maps set one over the other, the second decides wherever it has a value.
pub proof fn later_properties_win(l: Entries, more: Entries, key: Seq<char>)
    requires
        properties::distinct_keys(more),
    ensures
        properties::lookup(properties::set_all(l, more), key) == (match properties::lookup(
            more,
            key,
        ) {
            Some(value) => Some(value),
            None => properties::lookup(l, key),
        }),
    decreases more.len(),
{
    if more.len() > 0 {
        let next = properties::set_entry(l, more[0].0, more[0].1);
        let rest = more.skip(1);
        assert forall|i: int, j: int| 0 <= i < j < rest.len() implies (#[trigger] rest[i]).0 != (
        #[trigger] rest[j]).0 by {
            assert(more[i + 1].0 != more[j + 1].0);
        }
        later_properties_win(next, rest, key);
        set_property_is_read_back(l, more[0].0, more[0].1, key);
        properties::lemma_key_from(rest, key, 0);
        let k = properties::key_from(rest, key, 0);
        if more[0].0 == key {
            lemma_key_at(more, key, 0);
            if k < rest.len() {
                assert(more[k + 1].0 != more[0].0);
            }
        } else {
            assert forall|j: int| 0 <= j < k + 1 implies (#[trigger] more[j]).0 != key by {
                if j > 0 {
                    assert(rest[j - 1].0 != key);
                }
            }
            lemma_key_at(more, key, k + 1);
        }
    }
}

/// A name that has a value keeps it when variables are added.
pub proof fn lemma_vars_yield(props: Entries, vars: Entries, i: int, key: Seq<char>)
    requires
        properties::lookup(props, key) is Some,
    ensures
        properties::lookup(pom::with_vars(props, vars, i), key) == properties::lookup(props, key),
    decreases vars.len() - i,
{
    if i < vars.len() {
        default_property_yields(props, "env."@ + vars[i].0, vars[i].1, key);
        lemma_vars_yield(
            properties::set_default(props, "env."@ + vars[i].0, vars[i].1),
            vars,
            i + 1,
            key,
        );
    }
}

/// Whether a name is one of those by which a POM speaks of itself.
pub open spec fn is_project_key(key: Seq<char>) -> bool {
    key == "project.groupId"@ || key == "project.artifactId"@ || key == "project.version"@ || key
        == "project.packaging"@
}

/// A property that the POM declares is taken before what the environment provides under the same
/// name. (The names by which a POM speaks of itself cannot be declared.)
pub proof fn declared_properties_win(pom: PomModel, env: EnvironmentModel, key: Seq<char>)
    requires
        properties::lookup(pom.properties, key) is Some,
        !is_project_key(key),
    ensures
        properties::lookup(
            pom::with_environment(pom::with_project(pom.properties, pom), env),
            key,
        ) == properties::lookup(pom.properties, key),
{
    let p = pom.properties;
    let a = match pom::group_of(pom) {
        Some(g) => properties::set_entry(p, "project.groupId"@, g),
        None => p,
    };
    set_property_is_read_back(p, "project.groupId"@, pom::group_of(pom)->0, key);
    let b = match pom.artifact_id {
        Some(id) => properties::set_entry(a, "project.artifactId"@, id),
        None => a,
    };
    set_property_is_read_back(a, "project.artifactId"@, pom.artifact_id->0, key);
    let c = match pom::version_of(pom) {
        Some(v) => properties::set_entry(b, "project.version"@, v),
        None => b,
    };
    set_property_is_read_back(b, "project.version"@, pom::version_of(pom)->0, key);
    set_property_is_read_back(c, "project.packaging"@, pom::packaging_of(pom), key);
    lemma_environment_yields(pom::with_project(p, pom), env, key);
}

proof fn lemma_environment_yields(props: Entries, env: EnvironmentModel, key: Seq<char>)
    requires
        properties::lookup(props, key) is Some,
    ensures
        properties::lookup(pom::with_environment(props, env), key) == properties::lookup(
            props,
            key,
        ),
{
    lemma_vars_yield(props, env.vars, 0, key);
    let e = pom::with_vars(props, env.vars, 0);
    default_property_yields(e, "java.version"@, pom::java_version(env), key);
    let f = properties::set_default(e, "java.version"@, pom::java_version(env));
    default_property_yields(f, "os.name"@, env.os_name, key);
    let g = properties::set_default(f, "os.name"@, env.os_name);
    default_property_yields(g, "os.arch"@, env.os_arch, key);
}

/// What a POM says of itself under the names of the project comes from the POM, whatever its
/// parent handed down under these names.
pub proof fn project_properties_are_its_own(pom: PomModel, env: EnvironmentModel)
    ensures
        ({
            let props = pom::with_environment(pom::with_project(pom.properties, pom), env);
            &&& pom::group_of(pom) is Some ==> properties::lookup(props, "project.groupId"@)
                == pom::group_of(pom)
            &&& pom.artifact_id is Some ==> properties::lookup(props, "project.artifactId"@)
                == pom.artifact_id
            &&& pom::version_of(pom) is Some ==> properties::lookup(props, "project.version"@)
                == pom::version_of(pom)
            &&& properties::lookup(props, "project.packaging"@) == Some(pom::packaging_of(pom))
        }),
{
    let (g, a, v, k) = (
        "project.groupId"@,
        "project.artifactId"@,
        "project.version"@,
        "project.packaging"@,
    );
    reveal_strlit("project.groupId");
    reveal_strlit("project.artifactId");
    reveal_strlit("project.version");
    reveal_strlit("project.packaging");
    assert(g.len() == 15 && a.len() == 18 && v.len() == 15 && k.len() == 17);
    assert(g[8] == 'g' && v[8] == 'v');
    let p0 = pom.properties;
    let p1 = match pom::group_of(pom) {
        Some(x) => properties::set_entry(p0, g, x),
        None => p0,
    };
    let p2 = match pom.artifact_id {
        Some(x) => properties::set_entry(p1, a, x),
        None => p1,
    };
    let p3 = match pom::version_of(pom) {
        Some(x) => properties::set_entry(p2, v, x),
        None => p2,
    };
    let p4 = pom::with_project(p0, pom);
    set_property_is_read_back(p0, g, pom::group_of(pom)->0, g);
    set_property_is_read_back(p1, a, pom.artifact_id->0, g);
    set_property_is_read_back(p1, a, pom.artifact_id->0, a);
    set_property_is_read_back(p2, v, pom::version_of(pom)->0, g);
    set_property_is_read_back(p2, v, pom::version_of(pom)->0, a);
    set_property_is_read_back(p2, v, pom::version_of(pom)->0, v);
    set_property_is_read_back(p3, k, pom::packaging_of(pom), g);
    set_property_is_read_back(p3, k, pom::packaging_of(pom), a);
    set_property_is_read_back(p3, k, pom::packaging_of(pom), v);
    set_property_is_read_back(p3, k, pom::packaging_of(pom), k);
    if properties::lookup(p4, g) is Some {
        lemma_environment_yields(p4, env, g);
    }
    if properties::lookup(p4, a) is Some {
        lemma_environment_yields(p4, env, a);
    }
    if properties::lookup(p4, v) is Some {
        lemma_environment_yields(p4, env, v);
    }
    lemma_environment_yields(p4, env, k);
}

// ---------------------------------------------------------------------------
// Interpolation
// ---------------------------------------------------------------------------

/// A text in which no placeholder has a value stays as it is.
pub proof fn unknown_placeholders_stay(s: Seq<char>, props: Entries)
    requires
        !properties::replaceable(s, props),
    ensures
        properties::interpolated(s, props) == s,
{
}

/// Without an opening, or without properties, there is nothing to replace.
pub proof fn lemma_nothing_replaceable(s: Seq<char>, props: Entries)
    requires
        !s.contains('$') || props.len() == 0,
    ensures
        !properties::replaceable(s, props),
    decreases s.len(),
{
    if s.len() > 0 {
        if !properties::opens(s) {
            if s.skip(1).contains('$') {
                let i = choose|i: int| 0 <= i < s.skip(1).len() && s.skip(1)[i] == '$';
                assert(s[i + 1] == '$');
            }
            lemma_nothing_replaceable(s.skip(1), props);
        } else {
            assert(s.contains(s[0]));
            let close = properties::closing(s);
            if 2 <= close < s.len() {
                lemma_nothing_replaceable(s.skip(close + 1), props);
            }
        }
    }
}

/// A text without placeholders stays as it is.
pub proof fn plain_text_stays(s: Seq<char>, props: Entries)
    requires
        !s.contains('$'),
    ensures
        properties::interpolated(s, props) == s,
{
    lemma_nothing_replaceable(s, props);
}

/// Without properties every text stays as it is.
pub proof fn no_properties_replace_nothing(s: Seq<char>)
    ensures
        properties::interpolated(s, Entries::empty()) == s,
{
    lemma_nothing_replaceable(s, Entries::empty());
}

/// A placeholder whose property has a value is replaced by that value.
pub proof fn placeholder_takes_its_value(key: Seq<char>, props: Entries)
    requires
        !key.contains('}'),
        properties::lookup(props, key) is Some,
    ensures
        properties::replace_once(effective::placeholder(key), props) == properties::lookup(
            props,
            key,
        )->0,
{
    let s = effective::placeholder(key);
    reveal_strlit("${");
    reveal_strlit("}");
    text::lemma_find_from(s, '}', 2);
    let close = properties::closing(s);
    assert(s[key.len() as int + 2] == '}');
    if close < key.len() + 2 {
        assert(s[close] == key[close - 2]);
        assert(key.contains('}'));
    }
    assert(s.subrange(2, close) =~= key);
    assert(s.skip(close + 1) =~= Seq::empty());
    let value = properties::lookup(props, key)->0;
    assert(properties::replace_once(Seq::empty(), props) =~= Seq::empty());
    assert(value + Seq::<char>::empty() =~= value);
}

/// What stands before the first placeholder is kept.
pub proof fn text_before_placeholders_is_kept(head: Seq<char>, s: Seq<char>, props: Entries)
    requires
        !head.contains('$'),
    ensures
        properties::replace_once(head + s, props) == head + properties::replace_once(s, props),
    decreases head.len(),
{
    if head.len() == 0 {
        assert(head + s =~= s);
        assert(head + properties::replace_once(s, props) =~= properties::replace_once(s, props));
    } else {
        let t = head.skip(1);
        if t.contains('$') {
            let i = choose|i: int| 0 <= i < t.len() && t[i] == '$';
            assert(head[i + 1] == '$');
        }
        assert(head.contains(head[0]));
        text_before_placeholders_is_kept(t, s, props);
        assert((head + s).skip(1) =~= t + s);
        assert(seq![head[0]] + (t + properties::replace_once(s, props)) =~= head
            + properties::replace_once(s, props));
    }
}

proof fn lemma_replaced_rounds(s: Seq<char>, props: Entries, n: nat, m: nat)
    requires
        !properties::replaceable(properties::replace_up_to(s, props, n), props),
        n <= m,
    ensures
        properties::replace_up_to(s, props, m) == properties::replace_up_to(s, props, n),
    decreases n,
{
    if n > 0 && properties::replaceable(s, props) {
        lemma_replaced_rounds(
            properties::replace_once(s, props),
            props,
            (n - 1) as nat,
            (m - 1) as nat,
        );
    }
}

/// Once no placeholder with a value is left, interpolating again, or for more rounds, changes
/// nothing.
pub proof fn interpolation_settles(s: Seq<char>, props: Entries, rounds: nat)
    requires
        !properties::replaceable(properties::interpolated(s, props), props),
        rounds >= properties::MAX_DEPTH,
    ensures
        properties::interpolated(properties::interpolated(s, props), props)
            == properties::interpolated(s, props),
        properties::replace_up_to(s, props, rounds) == properties::interpolated(s, props),
{
    lemma_replaced_rounds(s, props, properties::MAX_DEPTH as nat, rounds);
}

// ---------------------------------------------------------------------------
// Inheritance
// ---------------------------------------------------------------------------

proof fn lemma_entry_of_sum(
    a: Seq<DependencyModel>,
    b: Seq<DependencyModel>,
    group_id: Seq<char>,
    artifact_id: Seq<char>,
    dep_type: Seq<char>,
)
    ensures
        pom::managed_entry(a + b, group_id, artifact_id, dep_type) == (match pom::managed_entry(
            b,
            group_id,
            artifact_id,
            dep_type,
        ) {
            Some(d) => Some(d),
            None => pom::managed_entry(a, group_id, artifact_id, dep_type),
        }),
    decreases b.len(),
{
    if b.len() == 0 {
        assert(a + b =~= a);
    } else {
        assert((a + b).last() == b.last());
        assert((a + b).drop_last() =~= a + b.drop_last());
        lemma_entry_of_sum(a, b.drop_last(), group_id, artifact_id, dep_type);
    }
}

/// A managed dependency is found just where one is declared for the artifact.
pub proof fn managed_entry_is_declared(
    ds: Seq<DependencyModel>,
    group_id: Seq<char>,
    artifact_id: Seq<char>,
    dep_type: Seq<char>,
)
    ensures
        pom::managed_entry(ds, group_id, artifact_id, dep_type) is Some <==> pom::declares(
            ds,
            group_id,
            artifact_id,
            dep_type,
        ),
        pom::managed_entry(ds, group_id, artifact_id, dep_type) matches Some(d) ==> ds.contains(d)
            && pom::has_key(d, group_id, artifact_id, dep_type),
    decreases ds.len(),
{
    if ds.len() > 0 {
        let last = ds.last();
        let shorter = ds.drop_last();
        managed_entry_is_declared(shorter, group_id, artifact_id, dep_type);
        assert(ds[ds.len() - 1] == last);
        if pom::managed_entry(shorter, group_id, artifact_id, dep_type) is Some {
            let d = pom::managed_entry(shorter, group_id, artifact_id, dep_type)->0;
            let i = choose|i: int| 0 <= i < shorter.len() && shorter[i] == d;
            assert(ds[i] == d);
        }
        if pom::declares(ds, group_id, artifact_id, dep_type) {
            let i = choose|i: int|
                0 <= i < ds.len() && pom::has_key(
                    #[trigger] ds[i],
                    group_id,
                    artifact_id,
                    dep_type,
                );
            if i < ds.len() - 1 {
                assert(shorter[i] == ds[i]);
            }
        }
    }
}

proof fn lemma_undeclared_entry(
    child: Seq<DependencyModel>,
    parent: Seq<DependencyModel>,
    i: int,
    group_id: Seq<char>,
    artifact_id: Seq<char>,
    dep_type: Seq<char>,
)
    requires
        0 <= i <= parent.len(),
    ensures
        pom::managed_entry(
            pom::undeclared_from(child, parent, i),
            group_id,
            artifact_id,
            dep_type,
        ) == (
        if pom::declares(child, group_id, artifact_id, dep_type) {
            None
        } else {
            pom::managed_entry(parent.skip(i), group_id, artifact_id, dep_type)
        }),
    decreases parent.len() - i,
{
    if i < parent.len() {
        let p = parent[i];
        lemma_undeclared_entry(child, parent, i + 1, group_id, artifact_id, dep_type);
        assert(parent.skip(i) =~= seq![p] + parent.skip(i + 1));
        lemma_entry_of_sum(seq![p], parent.skip(i + 1), group_id, artifact_id, dep_type);
        lemma_entry_of_sum(
            seq![p],
            pom::undeclared_from(child, parent, i + 1),
            group_id,
            artifact_id,
            dep_type,
        );
        assert(seq![p].drop_last() =~= Seq::empty());
        assert(pom::managed_entry(seq![p], group_id, artifact_id, dep_type) == (if pom::has_key(
            p,
            group_id,
            artifact_id,
            dep_type,
        ) {
            Some(p)
        } else {
            None
        })) by {
            reveal_with_fuel(pom::managed_entry, 2);
        }
    } else {
        assert(parent.skip(i) =~= Seq::empty());
    }
}

/// The dependency that a POM manages for an artifact, if any.
pub open spec fn managed_in(
    pom: PomModel,
    group_id: Seq<char>,
    artifact_id: Seq<char>,
    dep_type: Seq<char>,
) -> Option<DependencyModel> {
    match pom.dependency_management {
        Some(ds) => pom::managed_entry(ds, group_id, artifact_id, dep_type),
        None => None,
    }
}

/// A child's dependency management takes precedence over its parent's, for each group, artifact
/// and type.
pub proof fn child_management_wins(
    child: PomModel,
    parent: PomModel,
    group_id: Seq<char>,
    artifact_id: Seq<char>,
    dep_type: Seq<char>,
)
    ensures
        managed_in(
            pom::inherited(child, parent),
            group_id,
            artifact_id,
            dep_type,
        ) == (match managed_in(
            child,
            group_id,
            artifact_id,
            dep_type,
        ) {
            Some(d) => Some(d),
            None => managed_in(parent, group_id, artifact_id, dep_type),
        }),
{
    if let Some(p) = parent.dependency_management {
        let own = match child.dependency_management {
            Some(c) => c,
            None => Seq::empty(),
        };
        lemma_undeclared_entry(own, p, 0, group_id, artifact_id, dep_type);
        assert(p.skip(0) =~= p);
        lemma_entry_of_sum(own, pom::undeclared_from(own, p, 0), group_id, artifact_id, dep_type);
        managed_entry_is_declared(own, group_id, artifact_id, dep_type);
    }
}

/// A child's properties take precedence over its parent's.
pub proof fn child_properties_win(child: PomModel, parent: PomModel, key: Seq<char>)
    requires
        properties::distinct_keys(child.properties),
    ensures
        properties::lookup(pom::inherited(child, parent).properties, key) == (
        match properties::lookup(child.properties, key) {
            Some(value) => Some(value),
            None => properties::lookup(parent.properties, key),
        }),
{
    later_properties_win(parent.properties, child.properties, key);
}

/// A parent hands down its group and its version where the child has none, adds its repositories
/// after the child's, and hands down neither its dependencies nor its name.
pub proof fn parent_fills_gaps(child: PomModel, parent: PomModel)
    ensures
        child.group_id is Some ==> pom::inherited(child, parent).group_id == child.group_id,
        child.group_id is None ==> pom::inherited(child, parent).group_id == parent.group_id,
        child.version is Some ==> pom::inherited(child, parent).version == child.version,
        child.version is None ==> pom::inherited(child, parent).version == parent.version,
        pom::inherited(child, parent).repositories == child.repositories + parent.repositories,
        pom::inherited(child, parent).dependencies == child.dependencies,
        pom::inherited(child, parent).artifact_id == child.artifact_id,
        pom::inherited(child, parent).parent == child.parent,
{
}

// ---------------------------------------------------------------------------
// Dependency management
// ---------------------------------------------------------------------------

/// Exclusions with more of them begin with the old ones and hold all of the new ones.
pub proof fn lemma_exclusions_with(
    own: Seq<(Seq<char>, Seq<char>)>,
    more: Seq<(Seq<char>, Seq<char>)>,
    i: int,
)
    requires
        0 <= i <= more.len(),
    ensures
        own.len() <= pom::exclusions_with(own, more, i).len(),
        pom::exclusions_with(own, more, i).take(own.len() as int) == own,
        forall|j: int|
            i <= j < more.len() ==> pom::exclusions_with(own, more, i).contains(#[trigger] more[j]),
    decreases more.len() - i,
{
    let all = pom::exclusions_with(own, more, i);
    if i >= more.len() {
        assert(own.take(own.len() as int) =~= own);
    } else if own.contains(more[i]) {
        lemma_exclusions_with(own, more, i + 1);
        let k = choose|k: int| 0 <= k < own.len() && own[k] == more[i];
        assert(all.take(own.len() as int)[k] == all[k]);
    } else {
        let next = own.push(more[i]);
        lemma_exclusions_with(next, more, i + 1);
        assert(all.take(next.len() as int)[own.len() as int] == all[own.len() as int]);
        assert(all.take(own.len() as int) =~= all.take(next.len() as int).take(own.len() as int));
        assert(next.take(own.len() as int) =~= own);
    }
}

proof fn lemma_exclusions_kept(
    own: Seq<(Seq<char>, Seq<char>)>,
    more: Seq<(Seq<char>, Seq<char>)>,
    i: int,
)
    requires
        0 <= i <= more.len(),
        forall|j: int| i <= j < more.len() ==> own.contains(#[trigger] more[j]),
    ensures
        pom::exclusions_with(own, more, i) == own,
    decreases more.len() - i,
{
    if i < more.len() {
        assert(own.contains(more[i]));
        lemma_exclusions_kept(own, more, i + 1);
    }
}

/// Dependency management adds a version, a scope and exclusions, and overrides nothing that the
/// dependency says itself.
pub proof fn management_overrides_nothing(d: DependencyModel, managed: Seq<DependencyModel>)
    ensures
        pom::under_management(d, managed).group_id == d.group_id,
        pom::under_management(d, managed).artifact_id == d.artifact_id,
        d.version is Some ==> pom::under_management(d, managed).version == d.version,
        d.scope is Some ==> pom::under_management(d, managed).scope == d.scope,
        d.exclusions.is_prefix_of(pom::under_management(d, managed).exclusions),
{
    if let Some(m) = pom::managed_entry(managed, d.group_id, d.artifact_id, pom::type_of(d)) {
        lemma_exclusions_with(d.exclusions, m.exclusions, 0);
        let all = pom::exclusions_with(d.exclusions, m.exclusions, 0);
        assert(all.subrange(0, d.exclusions.len() as int) =~= all.take(d.exclusions.len() as int));
    }
}

/// A dependency without a version takes the managed one.
pub proof fn managed_version_is_taken(d: DependencyModel, managed: Seq<DependencyModel>)
    requires
        d.version is None,
    ensures
        pom::under_management(d, managed).version == (match pom::managed_entry(
            managed,
            d.group_id,
            d.artifact_id,
            pom::type_of(d),
        ) {
            Some(m) => m.version,
            None => None,
        }),
{
}

/// Injecting the dependency management a second time changes nothing.
pub proof fn injecting_twice_is_injecting_once(pom: PomModel)
    ensures
        pom::injected(pom::injected(pom)) == pom::injected(pom),
{
    if let Some(managed) = pom.dependency_management {
        let once = pom::injected(pom);
        let twice = pom::injected(once);
        assert forall|i: int| 0 <= i < once.dependencies.len() implies twice.dependencies[i]
            == #[trigger] once.dependencies[i] by {
            let d = pom.dependencies[i];
            let entry = pom::managed_entry(managed, d.group_id, d.artifact_id, pom::type_of(d));
            if let Some(m) = entry {
                lemma_exclusions_with(d.exclusions, m.exclusions, 0);
                lemma_exclusions_kept(
                    pom::exclusions_with(d.exclusions, m.exclusions, 0),
                    m.exclusions,
                    0,
                );
            }
        }
        assert(twice.dependencies =~= once.dependencies);
    }
}

// ---------------------------------------------------------------------------
// BOM imports
// ---------------------------------------------------------------------------

proof fn lemma_admitted_entry(
    own: Seq<DependencyModel>,
    bom: Seq<DependencyModel>,
    exclusions: Seq<(Seq<char>, Seq<char>)>,
    i: int,
    group_id: Seq<char>,
    artifact_id: Seq<char>,
    dep_type: Seq<char>,
)
    requires
        0 <= i <= bom.len(),
    ensures
        pom::managed_entry(
            effective::admitted_from(own, bom, exclusions, i),
            group_id,
            artifact_id,
            dep_type,
        ) == (if pom::declares(own, group_id, artifact_id, dep_type) || effective::excluded_by(
            exclusions,
            group_id,
            artifact_id,
        ) {
            None
        } else {
            pom::managed_entry(bom.skip(i), group_id, artifact_id, dep_type)
        }),
    decreases bom.len() - i,
{
    if i < bom.len() {
        let p = bom[i];
        lemma_admitted_entry(own, bom, exclusions, i + 1, group_id, artifact_id, dep_type);
        assert(bom.skip(i) =~= seq![p] + bom.skip(i + 1));
        lemma_entry_of_sum(seq![p], bom.skip(i + 1), group_id, artifact_id, dep_type);
        lemma_entry_of_sum(
            seq![p],
            effective::admitted_from(own, bom, exclusions, i + 1),
            group_id,
            artifact_id,
            dep_type,
        );
        assert(seq![p].drop_last() =~= Seq::empty());
        assert(pom::managed_entry(seq![p], group_id, artifact_id, dep_type) == (if pom::has_key(
            p,
            group_id,
            artifact_id,
            dep_type,
        ) {
            Some(p)
        } else {
            None
        })) by {
            reveal_with_fuel(pom::managed_entry, 2);
        }
    } else {
        assert(bom.skip(i) =~= Seq::empty());
    }
}

/// A BOM adds an entry for an artifact just where none is there yet and the import does not
/// exclude the artifact.
pub proof fn bom_fills_gaps(
    own: Seq<DependencyModel>,
    import: DependencyModel,
    bom: PomModel,
    group_id: Seq<char>,
    artifact_id: Seq<char>,
    dep_type: Seq<char>,
)
    ensures
        pom::managed_entry(
            effective::with_bom(own, import, bom),
            group_id,
            artifact_id,
            dep_type,
        ) == (
        match pom::managed_entry(own, group_id, artifact_id, dep_type) {
            Some(d) => Some(d),
            None => if effective::excluded_by(import.exclusions, group_id, artifact_id) {
                None
            } else {
                managed_in(bom, group_id, artifact_id, dep_type)
            },
        }),
{
    if let Some(ds) = bom.dependency_management {
        lemma_admitted_entry(own, ds, import.exclusions, 0, group_id, artifact_id, dep_type);
        assert(ds.skip(0) =~= ds);
        lemma_entry_of_sum(
            own,
            effective::admitted_from(own, ds, import.exclusions, 0),
            group_id,
            artifact_id,
            dep_type,
        );
        managed_entry_is_declared(own, group_id, artifact_id, dep_type);
    }
}

} // verus!
