//! Tests of POMs: properties, interpolation, inheritance and dependency management.
use mvn_core::pom::{
    inject_dependency_management, interpolate, interpolate_pom, merge_parent, Dependencies,
    DependencyManagement, DistributionManagement, Environment, Parent, Pom, PomDependency,
    PomExclusion, PomRepository, Relocation,
};
use mvn_core::properties::PropertyMap;
use mvn_core::xml::{find_attribute_end, strip_xml_namespaces};

fn project(group_id: Option<&str>, artifact_id: Option<&str>, version: Option<&str>) -> Pom {
    Pom {
        model_version: None,
        group_id: group_id.map(String::from),
        artifact_id: artifact_id.map(String::from),
        version: version.map(String::from),
        packaging: None,
        name: None,
        description: None,
        url: None,
        parent: None,
        properties: Default::default(),
        dependency_management: None,
        dependencies: Default::default(),
        repositories: Default::default(),
        distribution_management: None,
    }
}

fn example(artifact_id: &str) -> Pom {
    project(Some("org.example"), Some(artifact_id), Some("1.0.0"))
}

fn parent(group_id: &str, artifact_id: &str, version: &str) -> Option<Parent> {
    Some(Parent {
        group_id: group_id.into(),
        artifact_id: artifact_id.into(),
        version: version.into(),
        relative_path: None,
    })
}

fn dependency(group_id: &str, artifact_id: &str, version: Option<&str>) -> PomDependency {
    PomDependency {
        group_id: group_id.into(),
        artifact_id: artifact_id.into(),
        version: version.map(String::from),
        dep_type: None,
        scope: None,
        classifier: None,
        optional: None,
        exclusions: Default::default(),
    }
}

fn management(dependency: Vec<PomDependency>) -> Option<DependencyManagement> {
    Some(DependencyManagement { dependencies: Dependencies { dependency } })
}

fn repository(id: &str, url: &str) -> PomRepository {
    PomRepository { id: Some(id.into()), url: url.into(), name: None, layout: None }
}

fn environment() -> Environment {
    let mut vars = PropertyMap::new();
    vars.insert("MVN_TEST_PROP".into(), "test_value".into());
    vars.insert("JAVA_VERSION".into(), "21".into());
    Environment { vars, os_name: "linux".into(), os_arch: "x86_64".into() }
}

#[test]
fn effective_group_id_inheritance() {
    let mut pom = project(None, Some("child"), None);
    pom.parent = parent("org.parent", "parent", "1.0");
    assert_eq!(pom.effective_group_id(), Some("org.parent"));
    assert_eq!(pom.effective_version(), Some("1.0"));
}

#[test]
fn to_coord_basic() {
    let pom = example("my-app");
    let coord = pom.to_coord().unwrap();
    assert_eq!(coord.group_id, "org.example");
    assert_eq!(coord.artifact_id, "my-app");
    assert_eq!(coord.version, "1.0.0");
    assert_eq!(coord.extension, "jar");
}

#[test]
fn parent_coord_extraction() {
    let mut pom = project(None, Some("child"), None);
    pom.parent = parent("org.example", "parent-pom", "2.0.0");
    let coord = pom.parent_coord().unwrap();
    assert_eq!(coord.group_id, "org.example");
    assert_eq!(coord.artifact_id, "parent-pom");
    assert_eq!(coord.version, "2.0.0");
    assert_eq!(coord.extension, "pom");
}

#[test]
fn interpolation_custom_property() {
    let mut pom = example("my-app");
    pom.model_version = Some("4.0.0".into());
    pom.properties.entries.insert("spring.version".into(), "6.0.0".into());
    pom.dependencies.dependency.push(dependency(
        "org.springframework",
        "spring-core",
        Some("${spring.version}"),
    ));
    interpolate_pom(&mut pom, &environment());
    assert_eq!(
        pom.dependencies.dependency[0].version.as_deref(),
        Some("6.0.0")
    );
}

#[test]
fn interpolation_project_version() {
    let mut props = PropertyMap::new();
    props.insert("project.version".into(), "2.0.0".into());
    assert_eq!(interpolate("${project.version}", &props), "2.0.0");
}

#[test]
fn interpolation_missing_property() {
    let props = PropertyMap::new();
    assert_eq!(interpolate("${unknown}", &props), "${unknown}");
}

#[test]
fn interpolation_recursive() {
    let mut props = PropertyMap::new();
    props.insert("base".into(), "1.0".into());
    props.insert("ver".into(), "${base}.RELEASE".into());
    assert_eq!(interpolate("${ver}", &props), "1.0.RELEASE");
}

#[test]
fn merge_parent_basic() {
    let mut parent = project(Some("org.parent"), Some("parent"), Some("1.0.0"));
    parent.properties.entries.insert("java.version".into(), "17".into());
    parent.properties.entries.insert("encoding".into(), "UTF-8".into());
    parent.dependency_management =
        management(vec![dependency("org.springframework", "spring-core", Some("6.0.0"))]);

    let mut child = project(None, Some("child"), None);
    child.properties.entries.insert("encoding".into(), "ASCII".into());

    merge_parent(&mut child, &parent);

    assert_eq!(child.group_id.as_deref(), Some("org.parent"));
    assert_eq!(child.version.as_deref(), Some("1.0.0"));
    assert_eq!(
        child.properties.entries.get("java.version").map(String::as_str),
        Some("17")
    );
    // Child override takes priority
    assert_eq!(
        child.properties.entries.get("encoding").map(String::as_str),
        Some("ASCII")
    );
    assert!(child.dependency_management.is_some());
    assert_eq!(
        child
            .dependency_management
            .unwrap()
            .dependencies
            .dependency
            .len(),
        1
    );
}

#[test]
fn inject_dependency_management_basic() {
    let mut pom = example("my-app");
    let mut managed = dependency("org.springframework", "spring-core", Some("6.0.0"));
    managed.scope = Some("compile".into());
    pom.dependency_management = management(vec![managed]);
    pom.dependencies.dependency.push(dependency("org.springframework", "spring-core", None));

    inject_dependency_management(&mut pom);

    let dep = &pom.dependencies.dependency[0];
    assert_eq!(dep.version.as_deref(), Some("6.0.0"));
    assert_eq!(dep.scope.as_deref(), Some("compile"));
}

#[test]
fn to_coord_missing_fields() {
    // artifact_id is missing → to_coord should return None
    let pom = project(Some("org.example"), None, Some("1.0.0"));
    assert!(pom.to_coord().is_none());
}

#[test]
fn parent_coord_no_parent() {
    let pom = example("app");
    assert!(pom.parent_coord().is_none());
}

#[test]
fn interpolation_circular_reference() {
    let mut props = PropertyMap::new();
    props.insert("a".into(), "${b}".into());
    props.insert("b".into(), "${a}".into());
    // Should terminate (depth limit) without infinite loop
    let result = interpolate("${a}", &props);
    // After depth limit, the circular ref will remain unresolved or partially resolved
    assert!(!result.is_empty());
}

#[test]
fn interpolation_deeply_nested() {
    let mut props = PropertyMap::new();
    // Build a chain: p0 -> p1 -> p2 -> ... -> p8 -> "final_value"
    props.insert("p8".into(), "final_value".into());
    props.insert("p7".into(), "${p8}".into());
    props.insert("p6".into(), "${p7}".into());
    props.insert("p5".into(), "${p6}".into());
    props.insert("p4".into(), "${p5}".into());
    props.insert("p3".into(), "${p4}".into());
    props.insert("p2".into(), "${p3}".into());
    props.insert("p1".into(), "${p2}".into());
    props.insert("p0".into(), "${p1}".into());
    let result = interpolate("${p0}", &props);
    assert_eq!(result, "final_value");
}

#[test]
fn interpolation_no_properties() {
    let props = PropertyMap::new();
    assert_eq!(interpolate("no placeholders here", &props), "no placeholders here");
    assert_eq!(interpolate("${missing}", &props), "${missing}");
}

#[test]
fn inject_depmgmt_empty() {
    let mut pom = example("app");
    pom.dependencies.dependency.push(dependency("junit", "junit", Some("4.13")));
    assert!(pom.dependency_management.is_none());
    // Should be a no-op
    inject_dependency_management(&mut pom);
    assert_eq!(pom.dependencies.dependency[0].version.as_deref(), Some("4.13"));
}

#[test]
fn inject_depmgmt_no_match() {
    let mut pom = example("app");
    pom.dependency_management =
        management(vec![dependency("org.unrelated", "unrelated-lib", Some("9.9.9"))]);
    pom.dependencies.dependency.push(dependency("junit", "junit", Some("4.13")));
    inject_dependency_management(&mut pom);
    // junit dep should be unchanged
    let dep = &pom.dependencies.dependency[0];
    assert_eq!(dep.version.as_deref(), Some("4.13"));
    assert!(dep.scope.is_none());
}

#[test]
fn merge_parent_repositories() {
    let mut parent = project(Some("org.parent"), Some("parent"), Some("1.0.0"));
    parent
        .repositories
        .repository
        .push(repository("parent-repo", "https://parent.example.com/repo"));

    let mut child = project(None, Some("child"), None);
    child
        .repositories
        .repository
        .push(repository("child-repo", "https://child.example.com/repo"));

    merge_parent(&mut child, &parent);

    assert_eq!(child.repositories.repository.len(), 2);
    assert_eq!(child.repositories.repository[0].id.as_deref(), Some("child-repo"));
    assert_eq!(child.repositories.repository[1].id.as_deref(), Some("parent-repo"));
}

#[test]
fn merge_parent_dep_management() {
    let mut parent = project(Some("org.parent"), Some("parent"), Some("1.0.0"));
    parent.dependency_management = management(vec![
        dependency("org.lib", "lib-a", Some("1.0")),
        dependency("org.lib", "lib-b", Some("2.0")),
    ]);

    let mut child = project(None, Some("child"), None);
    child.dependency_management =
        management(vec![dependency("org.lib", "lib-a", Some("1.1-child"))]);

    merge_parent(&mut child, &parent);

    let dm = child.dependency_management.as_ref().unwrap();
    // lib-a should be the child's version (override), lib-b inherited from parent
    assert_eq!(dm.dependencies.dependency.len(), 2);
    let lib_a = dm.dependencies.dependency.iter().find(|d| d.artifact_id == "lib-a").unwrap();
    assert_eq!(lib_a.version.as_deref(), Some("1.1-child"));
    let lib_b = dm.dependencies.dependency.iter().find(|d| d.artifact_id == "lib-b").unwrap();
    assert_eq!(lib_b.version.as_deref(), Some("2.0"));
}

#[test]
fn effective_packaging_default() {
    let pom = example("app");
    assert_eq!(pom.effective_packaging(), "jar");
}

#[test]
fn effective_packaging_war() {
    let mut pom = example("app");
    pom.packaging = Some("war".into());
    assert_eq!(pom.effective_packaging(), "war");
}

#[test]
fn interpolate_env_properties() {
    let mut pom = project(Some("org.example"), Some("app"), Some("1.0"));
    pom.model_version = Some("4.0.0".into());
    pom.properties.entries.insert("my.os".into(), "${os.name}".into());
    interpolate_pom(&mut pom, &environment());
    // os.name should be populated
    let os_prop = pom.properties.entries.get("my.os").unwrap();
    assert!(!os_prop.contains("${"), "os.name should be interpolated, got: {os_prop}");
}

#[test]
fn environment_provides_defaults() {
    let mut pom = project(Some("org.example"), Some("app"), Some("1.0"));
    pom.properties.entries.insert("env.JAVA_VERSION".into(), "11".into());
    pom.name = Some("${env.MVN_TEST_PROP}/${env.JAVA_VERSION}/${java.version}/${os.arch}".into());
    pom.url = Some("${project.groupId}:${project.artifactId}:${project.packaging}".into());
    interpolate_pom(&mut pom, &environment());
    assert_eq!(pom.name.as_deref(), Some("test_value/11/21/x86_64"));
    assert_eq!(pom.url.as_deref(), Some("org.example:app:jar"));
}

#[test]
fn interpolation_stops_at_the_depth_limit() {
    let mut props = PropertyMap::new();
    props.insert("a".into(), "${b}".into());
    props.insert("b".into(), "${a}".into());
    assert_eq!(interpolate("${a}", &props), "${a}");
    props.insert("n".into(), "x${n}".into());
    assert_eq!(interpolate("${n}", &props), "xxxxxxxxxx${n}");
}

#[test]
fn interpolation_keeps_what_is_no_placeholder() {
    let mut props = PropertyMap::new();
    props.insert("k".into(), "v".into());
    assert_eq!(interpolate("a$b{c}${k}$", &props), "a$b{c}v$");
    assert_eq!(interpolate("${k", &props), "${k");
    assert_eq!(interpolate("${unknown}-${k}", &props), "${unknown}-v");
    assert_eq!(interpolate("", &props), "");
}

#[test]
fn properties_keep_their_order() {
    let mut props = PropertyMap::new();
    assert!(props.is_empty());
    props.insert("b".into(), "1".into());
    props.insert("a".into(), "2".into());
    props.insert("b".into(), "3".into());
    props.insert_default("a".into(), "4".into());
    props.insert_default("c".into(), "5".into());
    assert_eq!(props.len(), 3);
    assert_eq!(props.entry(0).key, "b");
    assert_eq!(props.entry(0).value, "3");
    assert_eq!(props.entry(1).value, "2");
    assert_eq!(props.entry(2).value, "5");
    assert!(props.contains_key("c"));
    assert!(!props.contains_key("d"));
    let mut more = PropertyMap::new();
    more.insert("d".into(), "6".into());
    more.insert("a".into(), "7".into());
    props.insert_all(&more);
    assert_eq!(props.len(), 4);
    assert_eq!(props.get("a").map(String::as_str), Some("7"));
    assert_eq!(props.get("d").map(String::as_str), Some("6"));
}

#[test]
fn dependencies_are_not_inherited() {
    let mut parent = project(Some("org.parent"), Some("parent"), Some("1.0.0"));
    parent.dependencies.dependency.push(dependency("junit", "junit", Some("4.13")));
    let mut child = project(Some("org.child"), Some("child"), Some("2.0"));
    merge_parent(&mut child, &parent);
    assert!(child.dependencies.dependency.is_empty());
    assert_eq!(child.group_id.as_deref(), Some("org.child"));
    assert_eq!(child.version.as_deref(), Some("2.0"));
}

#[test]
fn injecting_adds_exclusions_and_overrides_nothing() {
    let mut pom = example("app");
    let mut managed = dependency("g", "a", Some("2.0"));
    managed.scope = Some("test".into());
    managed.exclusions.exclusion.push(PomExclusion {
        group_id: "x".into(),
        artifact_id: "y".into(),
    });
    managed.exclusions.exclusion.push(PomExclusion {
        group_id: "p".into(),
        artifact_id: "q".into(),
    });
    pom.dependency_management = management(vec![dependency("g", "a", Some("0.1")), managed]);
    let mut own = dependency("g", "a", Some("1.0"));
    own.exclusions.exclusion.push(PomExclusion {
        group_id: "x".into(),
        artifact_id: "y".into(),
    });
    pom.dependencies.dependency.push(own);
    pom.dependencies.dependency.push(dependency("g", "a", None));
    for _ in 0..2 {
        inject_dependency_management(&mut pom);
        let first = &pom.dependencies.dependency[0];
        assert_eq!(first.version.as_deref(), Some("1.0"));
        assert_eq!(first.scope.as_deref(), Some("test"));
        assert_eq!(first.exclusions.exclusion.len(), 2);
        assert_eq!(first.exclusions.exclusion[1].group_id, "p");
        // Of two managed entries for one artifact the last counts
        assert_eq!(pom.dependencies.dependency[1].version.as_deref(), Some("2.0"));
    }
}

#[test]
fn namespaces_are_stripped() {
    let xml = "<project xmlns=\"http://maven.apache.org/POM/4.0.0\" \
               xmlns:xsi='http://www.w3.org/2001/XMLSchema-instance' \
               xsi:schemaLocation=\"a b\"><name>x</name></project>";
    assert_eq!(strip_xml_namespaces(xml), "<project><name>x</name></project>");
    assert_eq!(strip_xml_namespaces("<a b=\"c\"/>"), "<a b=\"c\"/>");
    assert_eq!(strip_xml_namespaces("<a xmlns=open>"), "<a xmlns=open>");
}

#[test]
fn attributes_end_behind_their_quote() {
    let chars: Vec<char> = "a = 'b' c".chars().collect();
    assert_eq!(find_attribute_end(&chars, 0), Some(7));
    assert_eq!(find_attribute_end(&chars, 3), None);
    let unquoted: Vec<char> = "a=b".chars().collect();
    assert_eq!(find_attribute_end(&unquoted, 0), None);
    let open: Vec<char> = "a=\"b".chars().collect();
    assert_eq!(find_attribute_end(&open, 0), None);
}

#[test]
fn attributes_are_stripped_in_tags_only() {
    let content = "<a>use xmlns:x=\"y\" and xsi:z='w'</a>";
    assert_eq!(strip_xml_namespaces(content), content);
    let comment = "<!-- <a xmlns=\"x\"> --><![CDATA[<b xsi:c='d'>]]>";
    assert_eq!(strip_xml_namespaces(comment), comment);
    let value = "<a b=\" xmlns='x'\"/>";
    assert_eq!(strip_xml_namespaces(value), value);
    let name = "<a notxmlns:b=\"c\"/>";
    assert_eq!(strip_xml_namespaces(name), name);
    assert_eq!(strip_xml_namespaces("<a\n  xmlns=\"x\"\n  b=\"c\">"), "<a\n\n  b=\"c\">");
}

#[test]
fn all_text_fields_are_interpolated() {
    let mut pom = example("app");
    pom.properties.entries.insert("x".into(), "war".into());
    pom.model_version = Some("${x}".into());
    pom.packaging = Some("${x}".into());
    pom.parent = parent("g.${x}", "a-${x}", "${x}");
    pom.repositories.repository.push(repository("${x}", "https://${x}.example.com"));
    pom.distribution_management = Some(DistributionManagement {
        relocation: Some(Relocation {
            group_id: None,
            artifact_id: Some("${x}".into()),
            version: None,
            message: Some("now ${x}".into()),
        }),
    });
    let mut d = dependency("g", "a", Some("${x}"));
    d.optional = Some("${x}".into());
    d.exclusions.exclusion.push(PomExclusion {
        group_id: "${x}".into(),
        artifact_id: "*".into(),
    });
    pom.dependencies.dependency.push(d);
    interpolate_pom(&mut pom, &environment());
    assert_eq!(pom.model_version.as_deref(), Some("war"));
    assert_eq!(pom.packaging.as_deref(), Some("war"));
    let named = pom.parent.as_ref().unwrap();
    assert_eq!((named.group_id.as_str(), named.version.as_str()), ("g.war", "war"));
    assert_eq!(named.artifact_id, "a-war");
    assert_eq!(pom.repositories.repository[0].id.as_deref(), Some("war"));
    assert_eq!(pom.repositories.repository[0].url, "https://war.example.com");
    let moved = pom.distribution_management.as_ref().unwrap().relocation.as_ref().unwrap();
    assert_eq!(moved.artifact_id.as_deref(), Some("war"));
    assert_eq!(moved.message.as_deref(), Some("now war"));
    let d = &pom.dependencies.dependency[0];
    assert_eq!(d.version.as_deref(), Some("war"));
    assert_eq!(d.optional.as_deref(), Some("war"));
    assert_eq!(d.exclusions.exclusion[0].group_id, "war");
}

#[test]
fn project_properties_come_from_the_pom_itself() {
    let mut above = project(Some("g"), Some("parent"), Some("1.0"));
    interpolate_pom(&mut above, &environment());
    let mut child = project(None, Some("child"), Some("2.0"));
    child.parent = parent("g", "parent", "1.0");
    child.dependencies.dependency.push(dependency("g", "lib", Some("${project.version}")));
    merge_parent(&mut child, &above);
    interpolate_pom(&mut child, &environment());
    assert_eq!(child.dependencies.dependency[0].version.as_deref(), Some("2.0"));
    let props = &child.properties.entries;
    assert_eq!(props.get("project.artifactId").map(String::as_str), Some("child"));
    assert_eq!(props.get("project.groupId").map(String::as_str), Some("g"));
}

#[test]
fn management_goes_by_group_artifact_and_type() {
    let mut tests = dependency("g", "a", Some("1.0"));
    tests.dep_type = Some("test-jar".into());
    let mut pom = example("app");
    pom.dependency_management = management(vec![tests.clone()]);
    pom.dependencies.dependency.push(dependency("g", "a", None));
    let mut typed = dependency("g", "a", None);
    typed.dep_type = Some("test-jar".into());
    pom.dependencies.dependency.push(typed);
    let mut above = example("parent");
    let mut jar = dependency("g", "a", Some("3.0"));
    jar.dep_type = Some("jar".into());
    above.dependency_management = management(vec![jar, tests]);
    // The parent's entry of another type is inherited
    let mut child = pom.clone();
    merge_parent(&mut child, &above);
    let managed = &child.dependency_management.as_ref().unwrap().dependencies.dependency;
    assert_eq!(managed.len(), 2);
    assert_eq!(managed[1].version.as_deref(), Some("3.0"));
    // A dependency takes the version of its own type
    inject_dependency_management(&mut pom);
    assert_eq!(pom.dependencies.dependency[0].version, None);
    assert_eq!(pom.dependencies.dependency[1].version.as_deref(), Some("1.0"));
    inject_dependency_management(&mut child);
    assert_eq!(child.dependencies.dependency[0].version.as_deref(), Some("3.0"));
}
