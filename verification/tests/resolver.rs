//! Tests of dependency resolution.
use mvn_core::collect::{select_version, DependencyResolver, Progress};
use mvn_core::coord::{ArtifactCoord, DependencyScope};
use mvn_core::known::Fetched;
use mvn_core::metadata::{MavenMetadata, Versioning, Versions};
use mvn_core::pom::{
    self, Dependencies, DependencyManagement, Environment, Parent, Pom, PomDependency,
    PomExclusion, Relocation,
};
use mvn_core::properties::PropertyMap;
use mvn_core::resolver::{
    artifacts_to_download, note_downloads, propagate_scope, scope_matches, DependencyNode,
    Downloaded, ResolutionResult,
};
use mvn_core::tree::{format_tree, format_tree_plain};
use mvn_core::version::VersionConstraint;

/// Helper: create a dependency node.
fn node(
    group: &str,
    artifact: &str,
    version: &str,
    scope: DependencyScope,
    children: Vec<DependencyNode>,
) -> DependencyNode {
    DependencyNode {
        coord: ArtifactCoord::new(group, artifact, version),
        scope,
        optional: false,
        exclusions: Vec::new(),
        children,
    }
}

fn environment() -> Environment {
    Environment {
        vars: PropertyMap::new(),
        os_name: "linux".into(),
        os_arch: "x86_64".into(),
    }
}

fn new_resolver() -> DependencyResolver {
    DependencyResolver::new(environment())
}

/// A dependency in a version and a scope; an empty text stands for none.
fn dependency(g: &str, a: &str, v: &str, scope: &str) -> PomDependency {
    let given = |s: &str| if s.is_empty() { None } else { Some(s.to_string()) };
    PomDependency {
        group_id: g.into(),
        artifact_id: a.into(),
        version: given(v),
        dep_type: None,
        scope: given(scope),
        classifier: None,
        optional: None,
        exclusions: Default::default(),
    }
}

fn bom_import(g: &str, a: &str, v: &str) -> PomDependency {
    let mut import = dependency(g, a, v, "import");
    import.dep_type = Some("pom".into());
    import
}

fn management(dependency: Vec<PomDependency>) -> Option<DependencyManagement> {
    Some(DependencyManagement { dependencies: Dependencies { dependency } })
}

fn parent(g: &str, a: &str, v: &str) -> Option<Parent> {
    Some(Parent {
        group_id: g.into(),
        artifact_id: a.into(),
        version: v.into(),
        relative_path: None,
    })
}

fn relocation(g: Option<&str>, a: Option<&str>, v: Option<&str>) -> Option<pom::DistributionManagement> {
    Some(pom::DistributionManagement {
        relocation: Some(Relocation {
            group_id: g.map(String::from),
            artifact_id: a.map(String::from),
            version: v.map(String::from),
            message: None,
        }),
    })
}

/// Create a minimal POM with optional dependencies.
fn make_pom(group: &str, artifact: &str, version: &str, deps: &[(&str, &str, &str, &str)]) -> Pom {
    Pom {
        model_version: Some("4.0.0".into()),
        group_id: Some(group.into()),
        artifact_id: Some(artifact.into()),
        version: Some(version.into()),
        packaging: None,
        name: None,
        description: None,
        url: None,
        parent: None,
        properties: Default::default(),
        dependency_management: None,
        dependencies: Dependencies {
            dependency: deps.iter().map(|(g, a, v, s)| dependency(g, a, v, s)).collect(),
        },
        repositories: Default::default(),
        distribution_management: None,
    }
}

/// A repository in memory that counts what is asked of it.
struct Repository {
    poms: Vec<Pom>,
    metadata: Vec<MavenMetadata>,
    asked: Vec<String>,
}

impl Repository {
    fn new(poms: Vec<Pom>) -> Repository {
        Repository { poms, metadata: Vec::new(), asked: Vec::new() }
    }

    fn pom(&mut self, coord: &ArtifactCoord) -> Fetched<Pom> {
        self.asked.push(coord.to_string());
        for p in &self.poms {
            if p.group_id.as_deref() == Some(coord.group_id.as_str())
                && p.artifact_id.as_deref() == Some(coord.artifact_id.as_str())
                && p.version.as_deref() == Some(coord.version.as_str())
            {
                return Fetched::Found(p.clone());
            }
        }
        Fetched::Failed
    }

    fn metadata(&mut self, g: &str, a: &str) -> Fetched<MavenMetadata> {
        self.asked.push(format!("{g}:{a}"));
        for m in &self.metadata {
            if m.group_id.as_deref() == Some(g) && m.artifact_id.as_deref() == Some(a) {
                return Fetched::Found(m.clone());
            }
        }
        Fetched::Failed
    }

    /// Resolves an artifact, answering what the resolver asks.
    fn resolve(
        &mut self,
        coord: &ArtifactCoord,
        scope_filter: Option<DependencyScope>,
    ) -> Option<ResolutionResult> {
        let mut resolver = new_resolver();
        loop {
            match resolver.collect(coord) {
                Progress::Tree(tree) => {
                    let dependencies = resolver.flatten(&tree, scope_filter);
                    return Some(ResolutionResult { root: coord.clone(), tree, dependencies });
                }
                Progress::Needs(needs) => {
                    assert!(!needs.poms.is_empty() || !needs.metadata.is_empty());
                    for c in &needs.poms {
                        let answer = self.pom(c);
                        resolver.note_pom(c, answer);
                    }
                    for m in &needs.metadata {
                        let answer = self.metadata(&m.group_id, &m.artifact_id);
                        resolver.note_metadata(&m.group_id, &m.artifact_id, answer);
                    }
                }
                Progress::Unavailable => return None,
            }
        }
    }
}

#[test]
fn propagate_compile_compile() {
    assert_eq!(
        propagate_scope(DependencyScope::Compile, DependencyScope::Compile),
        Some(DependencyScope::Compile),
    );
}

#[test]
fn propagate_compile_runtime() {
    assert_eq!(
        propagate_scope(DependencyScope::Compile, DependencyScope::Runtime),
        Some(DependencyScope::Runtime),
    );
}

#[test]
fn propagate_compile_provided() {
    assert_eq!(
        propagate_scope(DependencyScope::Compile, DependencyScope::Provided),
        None,
    );
}

#[test]
fn propagate_compile_test() {
    assert_eq!(
        propagate_scope(DependencyScope::Compile, DependencyScope::Test),
        None,
    );
}

#[test]
fn propagate_runtime_compile() {
    assert_eq!(
        propagate_scope(DependencyScope::Runtime, DependencyScope::Compile),
        Some(DependencyScope::Runtime),
    );
}

#[test]
fn propagate_runtime_runtime() {
    assert_eq!(
        propagate_scope(DependencyScope::Runtime, DependencyScope::Runtime),
        Some(DependencyScope::Runtime),
    );
}

#[test]
fn propagate_provided_compile() {
    assert_eq!(
        propagate_scope(DependencyScope::Provided, DependencyScope::Compile),
        Some(DependencyScope::Provided),
    );
}

#[test]
fn propagate_provided_runtime() {
    assert_eq!(
        propagate_scope(DependencyScope::Provided, DependencyScope::Runtime),
        Some(DependencyScope::Provided),
    );
}

#[test]
fn propagate_test_compile() {
    assert_eq!(
        propagate_scope(DependencyScope::Test, DependencyScope::Compile),
        Some(DependencyScope::Test),
    );
}

#[test]
fn propagate_test_runtime() {
    assert_eq!(
        propagate_scope(DependencyScope::Test, DependencyScope::Runtime),
        Some(DependencyScope::Test),
    );
}

#[test]
fn propagate_system_excluded() {
    assert_eq!(
        propagate_scope(DependencyScope::System, DependencyScope::Compile),
        None,
    );
}

#[test]
fn propagate_import_excluded() {
    assert_eq!(
        propagate_scope(DependencyScope::Import, DependencyScope::Runtime),
        None,
    );
}

#[test]
fn propagate_child_system_excluded() {
    assert_eq!(
        propagate_scope(DependencyScope::Compile, DependencyScope::System),
        None,
    );
}

#[test]
fn propagate_child_import_excluded() {
    assert_eq!(
        propagate_scope(DependencyScope::Runtime, DependencyScope::Import),
        None,
    );
}

#[test]
fn scope_filter_compile() {
    assert!(scope_matches(DependencyScope::Compile, DependencyScope::Compile));
    assert!(scope_matches(DependencyScope::Provided, DependencyScope::Compile));
    assert!(!scope_matches(DependencyScope::Runtime, DependencyScope::Compile));
    assert!(!scope_matches(DependencyScope::Test, DependencyScope::Compile));
}

#[test]
fn scope_filter_runtime() {
    assert!(scope_matches(DependencyScope::Compile, DependencyScope::Runtime));
    assert!(scope_matches(DependencyScope::Runtime, DependencyScope::Runtime));
    assert!(!scope_matches(DependencyScope::Provided, DependencyScope::Runtime));
    assert!(!scope_matches(DependencyScope::Test, DependencyScope::Runtime));
}

#[test]
fn scope_filter_test() {
    assert!(scope_matches(DependencyScope::Compile, DependencyScope::Test));
    assert!(scope_matches(DependencyScope::Runtime, DependencyScope::Test));
    assert!(scope_matches(DependencyScope::Test, DependencyScope::Test));
    assert!(!scope_matches(DependencyScope::Provided, DependencyScope::Test));
}

#[test]
fn flatten_diamond_nearest_wins() {
    // Root → B → D:1.0
    // Root → C → D:2.0
    // BFS: B and C at depth 1, D:1.0 and D:2.0 at depth 2.
    // D:1.0 is encountered first (via B) → wins.
    let tree = vec![
        node("org", "b", "1.0", DependencyScope::Compile, vec![
            node("org", "d", "1.0", DependencyScope::Compile, vec![]),
        ]),
        node("org", "c", "1.0", DependencyScope::Compile, vec![
            node("org", "d", "2.0", DependencyScope::Compile, vec![]),
        ]),
    ];

    let resolver = new_resolver();
    let result = resolver.flatten(&tree, None);

    assert_eq!(result.len(), 3); // B, C, D
    assert_eq!(result[0].coord.artifact_id, "b");
    assert_eq!(result[1].coord.artifact_id, "c");
    assert_eq!(result[2].coord.artifact_id, "d");
    assert_eq!(result[2].coord.version, "1.0"); // D:1.0 wins
}

#[test]
fn flatten_scope_propagation() {
    // Root dep A (runtime) has child B (compile) → effective runtime
    let tree = vec![
        node("org", "a", "1.0", DependencyScope::Runtime, vec![
            node("org", "b", "1.0", DependencyScope::Compile, vec![]),
        ]),
    ];

    let resolver = new_resolver();
    let result = resolver.flatten(&tree, None);

    assert_eq!(result.len(), 2);
    assert_eq!(result[0].scope, DependencyScope::Runtime); // A
    assert_eq!(result[1].scope, DependencyScope::Runtime); // B propagated
}

#[test]
fn flatten_excludes_non_transitive_child_scopes() {
    // Root dep A (compile) has child B (test) → excluded by propagation
    let tree = vec![
        node("org", "a", "1.0", DependencyScope::Compile, vec![
            node("org", "b", "1.0", DependencyScope::Test, vec![]),
        ]),
    ];

    let resolver = new_resolver();
    let result = resolver.flatten(&tree, None);

    assert_eq!(result.len(), 1);
    assert_eq!(result[0].coord.artifact_id, "a");
}

#[test]
fn flatten_with_scope_filter() {
    let tree = vec![
        node("org", "a", "1.0", DependencyScope::Compile, vec![]),
        node("org", "b", "1.0", DependencyScope::Runtime, vec![]),
        node("org", "c", "1.0", DependencyScope::Test, vec![]),
    ];

    let resolver = new_resolver();
    // Runtime filter: include compile + runtime
    let result = resolver.flatten(&tree, Some(DependencyScope::Runtime));

    assert_eq!(result.len(), 2);
    assert_eq!(result[0].coord.artifact_id, "a");
    assert_eq!(result[1].coord.artifact_id, "b");
}

#[test]
fn flatten_empty_tree() {
    let resolver = new_resolver();
    let result = resolver.flatten(&vec![], None);
    assert!(result.is_empty());
}

#[test]
fn flatten_deep_propagation_chain() {
    // Root dep A (test) → B (compile) → C (compile)
    // B effective = test, C effective = test (test + compile → test)
    let tree = vec![
        node("org", "a", "1.0", DependencyScope::Test, vec![
            node("org", "b", "1.0", DependencyScope::Compile, vec![
                node("org", "c", "1.0", DependencyScope::Compile, vec![]),
            ]),
        ]),
    ];

    let resolver = new_resolver();
    let result = resolver.flatten(&tree, None);

    assert_eq!(result.len(), 3);
    assert_eq!(result[0].scope, DependencyScope::Test);
    assert_eq!(result[1].scope, DependencyScope::Test);
    assert_eq!(result[2].scope, DependencyScope::Test);
}

#[test]
fn flatten_nearest_wins_shallower_depth() {
    // Root → D:1.0 (direct, depth 1)
    // Root → B → D:2.0 (transitive, depth 2)
    // D:1.0 wins because it's nearer (depth 1 vs depth 2).
    let tree = vec![
        node("org", "d", "1.0", DependencyScope::Compile, vec![]),
        node("org", "b", "1.0", DependencyScope::Compile, vec![
            node("org", "d", "2.0", DependencyScope::Compile, vec![]),
        ]),
    ];

    let resolver = new_resolver();
    let result = resolver.flatten(&tree, None);

    assert_eq!(result.len(), 2); // D and B
    // D:1.0 is at depth 1 (direct), processed first in BFS
    assert_eq!(result[0].coord.artifact_id, "d");
    assert_eq!(result[0].coord.version, "1.0");
    assert_eq!(result[1].coord.artifact_id, "b");
}

#[test]
fn format_tree_basic() {
    let root = ArtifactCoord::new("org.example", "app", "1.0.0");
    let nodes = vec![
        node("org.apache", "lang3", "3.12", DependencyScope::Compile, vec![]),
        node("com.google", "guava", "31.0", DependencyScope::Compile, vec![]),
    ];

    let output = format_tree_plain(&root, &nodes);
    assert!(output.starts_with("org.example:app:1.0.0\n"));
    assert!(output.contains("├── org.apache:lang3:3.12 [compile]"));
    assert!(output.contains("└── com.google:guava:31.0 [compile]"));
}

#[test]
fn format_tree_nested() {
    let root = ArtifactCoord::new("org.example", "app", "1.0.0");
    let nodes = vec![
        node(
            "org.apache", "lang3", "3.12", DependencyScope::Compile,
            vec![
                node("org.apache", "text", "1.0", DependencyScope::Compile, vec![]),
            ],
        ),
    ];

    let output = format_tree_plain(&root, &nodes);
    assert!(output.contains("└── org.apache:lang3:3.12 [compile]"));
    assert!(output.contains("    └── org.apache:text:1.0 [compile]"));
}

#[test]
fn format_tree_empty() {
    let root = ArtifactCoord::new("org.example", "app", "1.0.0");
    let output = format_tree_plain(&root, &vec![]);
    assert_eq!(output, "org.example:app:1.0.0\n");
}

#[test]
fn format_tree_multiple_children_indentation() {
    let root = ArtifactCoord::new("org", "root", "1.0");
    let nodes = vec![
        node("org", "a", "1.0", DependencyScope::Compile, vec![
            node("org", "a1", "1.0", DependencyScope::Compile, vec![]),
            node("org", "a2", "1.0", DependencyScope::Runtime, vec![]),
        ]),
        node("org", "b", "1.0", DependencyScope::Test, vec![]),
    ];

    let output = format_tree_plain(&root, &nodes);
    // "a" is not last, so its prefix uses │
    assert!(output.contains("├── org:a:1.0 [compile]"));
    assert!(output.contains("│   ├── org:a1:1.0 [compile]"));
    assert!(output.contains("│   └── org:a2:1.0 [runtime]"));
    assert!(output.contains("└── org:b:1.0 [test]"));
}

#[test]
fn resolve_simple_no_deps() {
    let pom_xml = make_pom("com.example", "simple", "1.0", &[]);

    let coord = ArtifactCoord::new("com.example", "simple", "1.0");
    let mut repository = Repository::new(vec![pom_xml]);
    let result = repository.resolve(&coord, None).unwrap();

    assert!(result.tree.is_empty());
    assert!(result.dependencies.is_empty());
}

#[test]
fn resolve_single_dependency() {

    let root_pom = make_pom(
        "com.example", "root", "1.0",
        &[("com.example", "child", "2.0", "compile")],
    );
    let child_pom = make_pom("com.example", "child", "2.0", &[]);


    let coord = ArtifactCoord::new("com.example", "root", "1.0");
    let mut repository = Repository::new(vec![root_pom, child_pom]);
    let result = repository.resolve(&coord, None).unwrap();

    assert_eq!(result.tree.len(), 1);
    assert_eq!(result.tree[0].coord.artifact_id, "child");
    assert_eq!(result.dependencies.len(), 1);
    assert_eq!(result.dependencies[0].coord.artifact_id, "child");
    assert_eq!(result.dependencies[0].scope, DependencyScope::Compile);
}

#[test]
fn resolve_transitive_deps() {

    let a_pom = make_pom("com.example", "a", "1.0", &[("com.example", "b", "1.0", "compile")]);
    let b_pom = make_pom("com.example", "b", "1.0", &[("com.example", "c", "1.0", "compile")]);
    let c_pom = make_pom("com.example", "c", "1.0", &[]);


    let coord = ArtifactCoord::new("com.example", "a", "1.0");
    let mut repository = Repository::new(vec![a_pom, b_pom, c_pom]);
    let result = repository.resolve(&coord, None).unwrap();

    // tree: B (with child C)
    assert_eq!(result.tree.len(), 1);
    assert_eq!(result.tree[0].coord.artifact_id, "b");
    assert_eq!(result.tree[0].children.len(), 1);
    assert_eq!(result.tree[0].children[0].coord.artifact_id, "c");

    // flattened: B, C
    assert_eq!(result.dependencies.len(), 2);
    let ids: Vec<&str> = result.dependencies.iter().map(|d| d.coord.artifact_id.as_str()).collect();
    assert!(ids.contains(&"b"));
    assert!(ids.contains(&"c"));

    // C should remain compile scope (compile→compile = compile)
    let c_dep = result.dependencies.iter().find(|d| d.coord.artifact_id == "c").unwrap();
    assert_eq!(c_dep.scope, DependencyScope::Compile);
}

#[test]
fn resolve_diamond_nearest_wins() {

    // A → B, A → C; B → D:1.0; C → D:2.0
    let a_pom = make_pom("com.example", "a", "1.0", &[
        ("com.example", "b", "1.0", "compile"),
        ("com.example", "c", "1.0", "compile"),
    ]);
    let b_pom = make_pom("com.example", "b", "1.0", &[("com.example", "d", "1.0", "compile")]);
    let c_pom = make_pom("com.example", "c", "1.0", &[("com.example", "d", "2.0", "compile")]);
    let d1_pom = make_pom("com.example", "d", "1.0", &[]);
    // d:2.0 won't be fetched since "d" is already visited after d:1.0


    let coord = ArtifactCoord::new("com.example", "a", "1.0");
    let mut repository = Repository::new(vec![a_pom, b_pom, c_pom, d1_pom]);
    let result = repository.resolve(&coord, None).unwrap();

    // D should appear exactly once in flattened results
    let d_deps: Vec<_> = result.dependencies.iter().filter(|d| d.coord.artifact_id == "d").collect();
    assert_eq!(d_deps.len(), 1);
    // B is processed before C → D:1.0 is encountered first
    assert_eq!(d_deps[0].coord.version, "1.0");
}

#[test]
fn resolve_scope_propagation() {

    // A → B(compile) → C(runtime); C effective = runtime (compile→runtime = runtime)
    let a_pom = make_pom("com.example", "a", "1.0", &[("com.example", "b", "1.0", "compile")]);
    let b_pom = make_pom("com.example", "b", "1.0", &[("com.example", "c", "1.0", "runtime")]);
    let c_pom = make_pom("com.example", "c", "1.0", &[]);


    let coord = ArtifactCoord::new("com.example", "a", "1.0");
    let mut repository = Repository::new(vec![a_pom, b_pom, c_pom]);
    let result = repository.resolve(&coord, None).unwrap();

    let c_dep = result.dependencies.iter().find(|d| d.coord.artifact_id == "c").unwrap();
    assert_eq!(c_dep.scope, DependencyScope::Runtime);
}

#[test]
fn resolve_test_scope_not_transitive() {

    // A → B(compile) → C(test); test scope is NOT transitive
    let a_pom = make_pom("com.example", "a", "1.0", &[("com.example", "b", "1.0", "compile")]);
    let b_pom = make_pom("com.example", "b", "1.0", &[("com.example", "c", "1.0", "test")]);
    // C POM not mounted — resolver skips test-scope transitives

    let coord = ArtifactCoord::new("com.example", "a", "1.0");
    let mut repository = Repository::new(vec![a_pom, b_pom]);
    let result = repository.resolve(&coord, None).unwrap();

    // C should NOT appear in flattened deps
    let has_c = result.dependencies.iter().any(|d| d.coord.artifact_id == "c");
    assert!(!has_c, "test-scope transitive dep C should be excluded");
}

#[test]
fn resolve_exclusion_applied() {

    // A → B (with exclusion on C), B → C. C should be excluded.
    let mut a_pom = make_pom("com.example", "a", "1.0", &[("com.example", "b", "1.0", "compile")]);
    a_pom.dependencies.dependency[0].exclusions.exclusion.push(PomExclusion {
        group_id: "com.example".into(),
        artifact_id: "c".into(),
    });
    let b_pom = make_pom("com.example", "b", "1.0", &[("com.example", "c", "1.0", "compile")]);
    let c_pom = make_pom("com.example", "c", "1.0", &[]);


    let coord = ArtifactCoord::new("com.example", "a", "1.0");
    let mut repository = Repository::new(vec![a_pom, b_pom, c_pom]);
    let result = repository.resolve(&coord, None).unwrap();

    // B should be present, C should NOT
    let has_b = result.dependencies.iter().any(|d| d.coord.artifact_id == "b");
    let has_c = result.dependencies.iter().any(|d| d.coord.artifact_id == "c");
    assert!(has_b, "B should be in resolved deps");
    assert!(!has_c, "excluded dep C should not appear");
}

#[test]
fn resolve_optional_deps_skipped() {

    // A has B as optional dependency — resolver skips optional=true
    let mut a_pom = make_pom("com.example", "a", "1.0", &[("com.example", "b", "1.0", "compile")]);
    a_pom.dependencies.dependency[0].optional = Some("true".into());

    // B POM not needed — should be skipped entirely

    let coord = ArtifactCoord::new("com.example", "a", "1.0");
    let mut repository = Repository::new(vec![a_pom]);
    let result = repository.resolve(&coord, None).unwrap();

    assert!(result.dependencies.is_empty(), "optional dep should be skipped");
}

#[test]
fn resolve_scope_filter() {

    // A has compile dep B and test dep C
    let a_pom = make_pom("com.example", "a", "1.0", &[
        ("com.example", "b", "1.0", "compile"),
        ("com.example", "c", "1.0", "test"),
    ]);
    let b_pom = make_pom("com.example", "b", "1.0", &[]);
    let c_pom = make_pom("com.example", "c", "1.0", &[]);


    let coord = ArtifactCoord::new("com.example", "a", "1.0");
    let mut repository = Repository::new(vec![a_pom, b_pom, c_pom]);

    // Compile filter → only compile (+ provided) scopes
    let result = repository.resolve(&coord, Some(DependencyScope::Compile)).unwrap();
    assert_eq!(result.dependencies.len(), 1);
    assert_eq!(result.dependencies[0].coord.artifact_id, "b");
}

#[test]
fn resolve_missing_pom_graceful() {

    // A → B, but B's POM returns 404
    let a_pom = make_pom("com.example", "a", "1.0", &[("com.example", "b", "1.0", "compile")]);

    // Do NOT mount B's POM → 404

    let coord = ArtifactCoord::new("com.example", "a", "1.0");
    let mut repository = Repository::new(vec![a_pom]);
    let result = repository.resolve(&coord, None).unwrap();

    // Resolution should complete without error
    // B appears in tree (node created) but with empty children
    assert_eq!(result.tree.len(), 1);
    assert_eq!(result.tree[0].coord.artifact_id, "b");
    assert!(result.tree[0].children.is_empty());
}

#[test]
fn resolve_parent_chain_injects_version() {

    let mut parent_pom = make_pom("com.example", "parent", "1.0", &[]);
    parent_pom.packaging = Some("pom".into());
    parent_pom.dependency_management =
        management(vec![dependency("com.example", "lib", "3.0", "")]);

    let mut child_pom = make_pom("com.example", "child", "1.0", &[("com.example", "lib", "", "")]);
    child_pom.parent = parent("com.example", "parent", "1.0");

    let lib_pom = make_pom("com.example", "lib", "3.0", &[]);


    let coord = ArtifactCoord::new("com.example", "child", "1.0");
    let mut repository = Repository::new(vec![parent_pom, child_pom, lib_pom]);
    let result = repository.resolve(&coord, None).unwrap();

    assert_eq!(result.dependencies.len(), 1);
    assert_eq!(result.dependencies[0].coord.artifact_id, "lib");
    assert_eq!(result.dependencies[0].coord.version, "3.0");
}

#[test]
fn resolve_parent_properties_inherited() {

    let mut parent_pom = make_pom("com.example", "parent", "1.0", &[]);
    parent_pom.packaging = Some("pom".into());
    parent_pom.properties.entries.insert("lib.version".into(), "5.0".into());

    let mut child_pom =
        make_pom("com.example", "child", "1.0", &[("com.example", "lib", "${lib.version}", "")]);
    child_pom.parent = parent("com.example", "parent", "1.0");

    let lib_pom = make_pom("com.example", "lib", "5.0", &[]);


    let coord = ArtifactCoord::new("com.example", "child", "1.0");
    let mut repository = Repository::new(vec![parent_pom, child_pom, lib_pom]);
    let result = repository.resolve(&coord, None).unwrap();

    assert_eq!(result.dependencies.len(), 1);
    assert_eq!(result.dependencies[0].coord.version, "5.0");
}

#[test]
fn resolve_root_depmgmt_overrides_transitive() {

    let mut root_pom = make_pom("com.example", "root", "1.0", &[("com.example", "mid", "1.0", "")]);
    root_pom.dependency_management = management(vec![dependency("com.example", "lib", "9.0", "")]);

    let mid_pom = make_pom("com.example", "mid", "1.0", &[
        ("com.example", "lib", "2.0", "compile"),
    ]);
    let lib_pom = make_pom("com.example", "lib", "9.0", &[]);


    let coord = ArtifactCoord::new("com.example", "root", "1.0");
    let mut repository = Repository::new(vec![root_pom, mid_pom, lib_pom]);
    let result = repository.resolve(&coord, None).unwrap();

    let lib_dep = result.dependencies.iter().find(|d| d.coord.artifact_id == "lib").unwrap();
    assert_eq!(lib_dep.coord.version, "9.0", "root depMgmt should override transitive version");
}

#[test]
fn resolve_bom_import_merges_depmgmt() {

    let mut bom_pom = make_pom("com.example", "bom", "1.0", &[]);
    bom_pom.packaging = Some("pom".into());
    bom_pom.dependency_management = management(vec![dependency("com.example", "lib", "7.0", "")]);

    let mut root_pom = make_pom("com.example", "root", "1.0", &[("com.example", "lib", "", "")]);
    root_pom.dependency_management = management(vec![bom_import("com.example", "bom", "1.0")]);

    let lib_pom = make_pom("com.example", "lib", "7.0", &[]);


    let coord = ArtifactCoord::new("com.example", "root", "1.0");
    let mut repository = Repository::new(vec![bom_pom, root_pom, lib_pom]);
    let result = repository.resolve(&coord, None).unwrap();

    assert_eq!(result.dependencies.len(), 1);
    assert_eq!(result.dependencies[0].coord.artifact_id, "lib");
    assert_eq!(result.dependencies[0].coord.version, "7.0");
}

#[test]
fn resolve_relocation_followed() {

    let root_pom = make_pom("com.example", "root", "1.0", &[
        ("com.example", "old-lib", "1.0", "compile"),
    ]);

    let mut old_lib_pom = make_pom("com.example", "old-lib", "1.0", &[]);
    old_lib_pom.distribution_management =
        relocation(Some("com.example"), Some("new-lib"), Some("2.0"));

    let new_lib_pom = make_pom("com.example", "new-lib", "2.0", &[
        ("com.example", "util", "1.0", "compile"),
    ]);
    let util_pom = make_pom("com.example", "util", "1.0", &[]);


    let coord = ArtifactCoord::new("com.example", "root", "1.0");
    let mut repository = Repository::new(vec![root_pom, old_lib_pom, new_lib_pom, util_pom]);
    let result = repository.resolve(&coord, None).unwrap();

    let ids: Vec<&str> = result.dependencies.iter().map(|d| d.coord.artifact_id.as_str()).collect();
    assert!(ids.contains(&"util"), "relocated lib's transitive deps should be resolved");
}

#[test]
fn resolve_no_download_method() {

    let root_pom = make_pom("com.example", "root", "1.0", &[
        ("com.example", "lib", "1.0", "compile"),
    ]);
    let lib_pom = make_pom("com.example", "lib", "1.0", &[]);


    let coord = ArtifactCoord::new("com.example", "root", "1.0");
    let mut repository = Repository::new(vec![root_pom, lib_pom]);
    let result = repository.resolve(&coord, None).unwrap();

    assert_eq!(result.dependencies.len(), 1);
    assert_eq!(result.dependencies[0].coord.artifact_id, "lib");
    assert!(result.dependencies[0].path.is_none());
}

#[test]
fn resolve_bom_child_override_wins() {

    let mut bom_pom = make_pom("com.example", "bom", "1.0", &[]);
    bom_pom.packaging = Some("pom".into());
    bom_pom.dependency_management = management(vec![dependency("com.example", "lib", "1.0", "")]);

    let mut root_pom = make_pom("com.example", "root", "1.0", &[("com.example", "lib", "", "")]);
    root_pom.dependency_management = management(vec![
        dependency("com.example", "lib", "2.0", ""),
        bom_import("com.example", "bom", "1.0"),
    ]);

    let lib_pom = make_pom("com.example", "lib", "2.0", &[]);


    let coord = ArtifactCoord::new("com.example", "root", "1.0");
    let mut repository = Repository::new(vec![bom_pom, root_pom, lib_pom]);
    let result = repository.resolve(&coord, None).unwrap();

    assert_eq!(result.dependencies.len(), 1);
    assert_eq!(result.dependencies[0].coord.version, "2.0");
}

#[test]
fn resolve_grandparent_chain() {

    let mut grandparent_pom = make_pom("com.example", "grandparent", "1.0", &[]);
    grandparent_pom.packaging = Some("pom".into());
    grandparent_pom.properties.entries.insert("lib.version".into(), "8.0".into());

    let mut parent_pom = make_pom("com.example", "parent", "1.0", &[]);
    parent_pom.packaging = Some("pom".into());
    parent_pom.parent = parent("com.example", "grandparent", "1.0");

    let mut child_pom =
        make_pom("com.example", "child", "1.0", &[("com.example", "lib", "${lib.version}", "")]);
    child_pom.parent = parent("com.example", "parent", "1.0");

    let lib_pom = make_pom("com.example", "lib", "8.0", &[]);


    let coord = ArtifactCoord::new("com.example", "child", "1.0");
    let mut repository = Repository::new(vec![grandparent_pom, parent_pom, child_pom, lib_pom]);
    let result = repository.resolve(&coord, None).unwrap();

    assert_eq!(result.dependencies.len(), 1);
    assert_eq!(result.dependencies[0].coord.version, "8.0",
        "property from grandparent should be inherited through chain");
}

#[test]
fn check_relocation_returns_relocated_coord() {
    let pom = pom::Pom {
        model_version: None,
        group_id: Some("old.group".into()),
        artifact_id: Some("old-artifact".into()),
        version: Some("1.0".into()),
        packaging: None,
        name: None,
        description: None,
        url: None,
        parent: None,
        properties: Default::default(),
        dependency_management: None,
        dependencies: Default::default(),
        repositories: Default::default(),
        distribution_management: Some(pom::DistributionManagement {
            relocation: Some(pom::Relocation {
                group_id: Some("new.group".into()),
                artifact_id: Some("new-artifact".into()),
                version: Some("2.0".into()),
                message: None,
            }),
        }),
    };

    let original = ArtifactCoord::new("old.group", "old-artifact", "1.0");
    let relocated = DependencyResolver::check_relocation(&pom, &original);
    assert!(relocated.is_some());
    let r = relocated.unwrap();
    assert_eq!(r.group_id, "new.group");
    assert_eq!(r.artifact_id, "new-artifact");
    assert_eq!(r.version, "2.0");
}

#[test]
fn check_relocation_ignores_self() {
    let pom = pom::Pom {
        model_version: None,
        group_id: Some("org".into()),
        artifact_id: Some("lib".into()),
        version: Some("1.0".into()),
        packaging: None,
        name: None,
        description: None,
        url: None,
        parent: None,
        properties: Default::default(),
        dependency_management: None,
        dependencies: Default::default(),
        repositories: Default::default(),
        distribution_management: Some(pom::DistributionManagement {
            relocation: Some(pom::Relocation {
                group_id: Some("org".into()),
                artifact_id: Some("lib".into()),
                version: Some("1.0".into()),
                message: None,
            }),
        }),
    };

    let original = ArtifactCoord::new("org", "lib", "1.0");
    assert!(DependencyResolver::check_relocation(&pom, &original).is_none());
}

#[test]
fn check_relocation_partial() {
    let pom = pom::Pom {
        model_version: None,
        group_id: Some("old.group".into()),
        artifact_id: Some("lib".into()),
        version: Some("1.0".into()),
        packaging: None,
        name: None,
        description: None,
        url: None,
        parent: None,
        properties: Default::default(),
        dependency_management: None,
        dependencies: Default::default(),
        repositories: Default::default(),
        distribution_management: Some(pom::DistributionManagement {
            relocation: Some(pom::Relocation {
                group_id: Some("new.group".into()),
                artifact_id: None,
                version: None,
                message: None,
            }),
        }),
    };

    let original = ArtifactCoord::new("old.group", "lib", "1.0");
    let relocated = DependencyResolver::check_relocation(&pom, &original).unwrap();
    assert_eq!(relocated.group_id, "new.group");
    assert_eq!(relocated.artifact_id, "lib");
    assert_eq!(relocated.version, "1.0");
}

#[test]
fn build_managed_map_basic() {
    let pom = pom::Pom {
        model_version: None,
        group_id: Some("org".into()),
        artifact_id: Some("root".into()),
        version: Some("1.0".into()),
        packaging: None,
        name: None,
        description: None,
        url: None,
        parent: None,
        properties: Default::default(),
        dependency_management: Some(pom::DependencyManagement {
            dependencies: pom::Dependencies {
                dependency: vec![
                    pom::PomDependency {
                        group_id: "com.example".into(),
                        artifact_id: "lib".into(),
                        version: Some("3.0".into()),
                        dep_type: None,
                        scope: None,
                        classifier: None,
                        optional: None,
                        exclusions: Default::default(),
                    },
                ],
            },
        }),
        dependencies: Default::default(),
        repositories: Default::default(),
        distribution_management: None,
    };

    let map = DependencyResolver::build_managed_map(&pom);
    assert_eq!(map.len(), 1);
    let entry = map.get("com.example", "lib").unwrap();
    assert_eq!(entry.version, Some("3.0".into()));
}

#[test]
fn build_managed_map_empty() {
    let pom = pom::Pom {
        model_version: None,
        group_id: Some("org".into()),
        artifact_id: Some("root".into()),
        version: Some("1.0".into()),
        packaging: None,
        name: None,
        description: None,
        url: None,
        parent: None,
        properties: Default::default(),
        dependency_management: None,
        dependencies: Default::default(),
        repositories: Default::default(),
        distribution_management: None,
    };

    let map = DependencyResolver::build_managed_map(&pom);
    assert!(map.is_empty());
}

#[test]
fn unavailable_root_is_told() {
    let coord = ArtifactCoord::new("com.example", "missing", "1.0");
    assert!(Repository::new(vec![]).resolve(&coord, None).is_none());
}

#[test]
fn documents_are_asked_for_once() {
    let mut repository = Repository::new(vec![
        make_pom("g", "a", "1", &[("g", "b", "1", "compile"), ("g", "c", "1", "compile")]),
        make_pom("g", "b", "1", &[("g", "c", "1", "compile"), ("g", "a", "1", "compile")]),
        make_pom("g", "c", "1", &[("g", "b", "1", "compile")]),
    ]);
    let result = repository.resolve(&ArtifactCoord::new("g", "a", "1"), None).unwrap();
    // The root and what was met before are not expanded again
    assert_eq!(result.tree.len(), 2);
    let c_below_b = &result.tree[0].children[0];
    assert_eq!(c_below_b.coord.artifact_id, "c");
    assert!(c_below_b.children.is_empty());
    assert!(result.tree[0].children[1].children.is_empty());
    let mut asked = repository.asked.clone();
    asked.sort();
    asked.dedup();
    assert_eq!(asked.len(), repository.asked.len());
}

#[test]
fn artifacts_are_expanded_where_they_are_nearest() {
    // c stands in the third level below a, and in the second below b
    let mut repository = Repository::new(vec![
        make_pom("g", "root", "1", &[("g", "a", "1", "compile"), ("g", "b", "1", "compile")]),
        make_pom("g", "a", "1", &[("g", "x", "1", "compile")]),
        make_pom("g", "b", "1", &[("g", "c", "2", "compile")]),
        make_pom("g", "x", "1", &[("g", "c", "1", "compile")]),
        make_pom("g", "c", "1", &[("g", "old", "1", "compile")]),
        make_pom("g", "c", "2", &[("g", "d", "1", "compile")]),
        make_pom("g", "d", "1", &[]),
    ]);
    let result = repository.resolve(&ArtifactCoord::new("g", "root", "1"), None).unwrap();
    let far = &result.tree[0].children[0].children[0];
    assert_eq!(far.coord.version, "1");
    assert!(far.children.is_empty());
    let near = &result.tree[1].children[0];
    assert_eq!(near.coord.version, "2");
    assert_eq!(near.children[0].coord.artifact_id, "d");
    let names: Vec<&str> =
        result.dependencies.iter().map(|d| d.coord.artifact_id.as_str()).collect();
    assert_eq!(names, vec!["a", "b", "x", "c", "d"]);
    assert_eq!(result.dependencies[3].coord.version, "2");
}

#[test]
fn exclusions_hold_below_the_dependency() {
    let mut root = make_pom("g", "root", "1", &[("g", "a", "1", "compile")]);
    root.dependencies.dependency[0].exclusions.exclusion.push(PomExclusion {
        group_id: "*".into(),
        artifact_id: "deep".into(),
    });
    let mut repository = Repository::new(vec![
        root,
        make_pom("g", "a", "1", &[("g", "b", "1", "compile")]),
        make_pom("g", "b", "1", &[("h", "deep", "1", "compile"), ("h", "kept", "1", "compile")]),
    ]);
    let result = repository.resolve(&ArtifactCoord::new("g", "root", "1"), None).unwrap();
    let b = &result.tree[0].children[0];
    assert_eq!(b.children.len(), 1);
    assert_eq!(b.children[0].coord.artifact_id, "kept");
    assert_eq!(result.tree[0].exclusions.len(), 1);
}

#[test]
fn version_ranges_take_the_highest_release() {
    let mut repository = Repository::new(vec![
        make_pom("g", "root", "1", &[("g", "lib", "[1.0,2.0)", "compile")]),
        make_pom("g", "lib", "1.10", &[]),
    ]);
    repository.metadata.push(MavenMetadata {
        group_id: Some("g".into()),
        artifact_id: Some("lib".into()),
        version: None,
        versioning: Some(Versioning {
            latest: None,
            release: None,
            versions: Versions {
                version: vec![
                    "0.9".into(),
                    "1.10".into(),
                    "1.9".into(),
                    "1.11-SNAPSHOT".into(),
                    "2.0".into(),
                ],
            },
            last_updated: None,
            snapshot: None,
        }),
    });
    let result = repository.resolve(&ArtifactCoord::new("g", "root", "1"), None).unwrap();
    assert_eq!(result.dependencies[0].coord.version, "1.10");
    assert!(repository.asked.contains(&"g:lib".to_string()));
}

#[test]
fn unsatisfied_range_is_left_out() {
    let mut repository = Repository::new(vec![make_pom(
        "g",
        "root",
        "1",
        &[("g", "lib", "[1.0,2.0)", "compile"), ("g", "bad", "[1.0", "compile")],
    )]);
    let result = repository.resolve(&ArtifactCoord::new("g", "root", "1"), None).unwrap();
    assert!(result.tree.is_empty());
}

#[test]
fn versions_are_selected_by_the_constraint() {
    let range = VersionConstraint::parse("(,3.0)").unwrap();
    let versions = vec!["1.0", "2.5", "2.10", "3.0", "2.11-SNAPSHOT"];
    assert_eq!(select_version(&range, &versions), Some("2.10".to_string()));
    let exact = VersionConstraint::parse("[4.0]").unwrap();
    assert_eq!(select_version(&exact, &versions), None);
    // Of equal versions the first is taken
    let equal = vec!["1.0", "1", "1.0.0"];
    let any = VersionConstraint::parse("[1,)").unwrap();
    assert_eq!(select_version(&any, &equal), Some("1.0".to_string()));
}

#[test]
fn dependencies_without_a_usable_version_are_left_out() {
    let mut repository = Repository::new(vec![make_pom(
        "g",
        "root",
        "1",
        &[
            ("g", "none", "", "compile"),
            ("g", "open", "${unknown}", "compile"),
            ("g", "imported", "1", "import"),
            ("g", "system", "1", "system"),
            ("g", "odd", "1", "bogus"),
        ],
    )]);
    let result = repository.resolve(&ArtifactCoord::new("g", "root", "1"), None).unwrap();
    assert_eq!(result.tree.len(), 1);
    assert_eq!(result.tree[0].coord.artifact_id, "odd");
    assert_eq!(result.tree[0].scope, DependencyScope::Compile);
}

#[test]
fn relocations_are_followed_to_the_end() {
    let mut first = make_pom("g", "old", "1", &[]);
    first.distribution_management = relocation(None, Some("mid"), None);
    let mut second = make_pom("g", "mid", "1", &[]);
    second.distribution_management = relocation(Some("h"), Some("new"), Some("2"));
    let mut repository = Repository::new(vec![
        make_pom("g", "root", "1", &[("g", "old", "1", "compile")]),
        first,
        second,
        make_pom("h", "new", "2", &[("h", "util", "1", "compile")]),
    ]);
    let result = repository.resolve(&ArtifactCoord::new("g", "root", "1"), None).unwrap();
    assert_eq!(result.tree[0].children[0].coord.artifact_id, "util");
}

#[test]
fn circular_relocations_end() {
    let mut first = make_pom("g", "x", "1", &[]);
    first.distribution_management = relocation(None, Some("y"), None);
    let mut second = make_pom("g", "y", "1", &[("g", "util", "1", "compile")]);
    second.distribution_management = relocation(None, Some("x"), None);
    let mut repository = Repository::new(vec![
        make_pom("g", "root", "1", &[("g", "x", "1", "compile")]),
        first,
        second,
    ]);
    let result = repository.resolve(&ArtifactCoord::new("g", "root", "1"), None).unwrap();
    assert_eq!(result.tree[0].children[0].coord.artifact_id, "util");
}

#[test]
fn circular_imports_and_parents_end() {
    let mut a = make_pom("g", "a", "1", &[("g", "lib", "", "")]);
    a.dependency_management = management(vec![bom_import("g", "b", "1")]);
    let mut b = make_pom("g", "b", "1", &[]);
    b.dependency_management = management(vec![
        bom_import("g", "a", "1"),
        dependency("g", "lib", "4", ""),
    ]);
    let mut repository = Repository::new(vec![a, b]);
    let result = repository.resolve(&ArtifactCoord::new("g", "a", "1"), None).unwrap();
    assert_eq!(result.dependencies[0].coord.version, "4");

    let mut p = make_pom("g", "p", "1", &[]);
    p.parent = parent("g", "q", "1");
    let mut q = make_pom("g", "q", "1", &[]);
    q.parent = parent("g", "p", "1");
    let mut circle = Repository::new(vec![p, q]);
    assert!(circle.resolve(&ArtifactCoord::new("g", "p", "1"), None).is_some());
}

#[test]
fn import_exclusions_keep_entries_out() {
    let mut root = make_pom("g", "root", "1", &[("g", "x", "", ""), ("g", "y", "", "")]);
    let mut import = bom_import("g", "bom", "1");
    import.exclusions.exclusion.push(PomExclusion { group_id: "g".into(), artifact_id: "x".into() });
    root.dependency_management = management(vec![import]);
    let mut bom = make_pom("g", "bom", "1", &[]);
    bom.dependency_management =
        management(vec![dependency("g", "x", "1", ""), dependency("g", "y", "2", "")]);
    let mut repository = Repository::new(vec![root, bom]);
    let result = repository.resolve(&ArtifactCoord::new("g", "root", "1"), None).unwrap();
    assert_eq!(result.dependencies.len(), 1);
    assert_eq!(result.dependencies[0].coord.artifact_id, "y");
}

#[test]
fn parent_versions_take_their_properties() {
    let mut child = make_pom("g", "child", "1", &[("g", "lib", "${lib}", "")]);
    child.parent = parent("g", "parent", "${rev}");
    child.properties.entries.insert("rev".into(), "3".into());
    let mut base = make_pom("g", "parent", "3", &[]);
    base.properties.entries.insert("lib".into(), "6".into());
    let mut repository = Repository::new(vec![child, base]);
    let result = repository.resolve(&ArtifactCoord::new("g", "child", "1"), None).unwrap();
    assert_eq!(result.dependencies[0].coord.version, "6");
}

#[test]
fn filtered_artifact_is_left_out_with_what_it_needs() {
    let tree = vec![
        node("org", "a", "1.0", DependencyScope::Test, vec![
            node("org", "b", "1.0", DependencyScope::Compile, vec![]),
        ]),
        node("org", "c", "1.0", DependencyScope::Compile, vec![
            node("org", "a", "2.0", DependencyScope::Compile, vec![]),
        ]),
    ];
    let result = new_resolver().flatten(&tree, Some(DependencyScope::Compile));
    assert_eq!(result.len(), 1);
    assert_eq!(result[0].coord.artifact_id, "c");
}

#[test]
fn downloads_are_noted_with_their_dependencies() {
    let tree = vec![
        node("org", "a", "1.0", DependencyScope::Compile, vec![]),
        node("org", "b", "1.0", DependencyScope::Compile, vec![]),
    ];
    let mut deps = new_resolver().flatten(&tree, None);
    let wanted = artifacts_to_download(&deps);
    assert_eq!(wanted.len(), 2);
    deps[0].coord.extension = "pom".into();
    assert_eq!(artifacts_to_download(&deps).len(), 1);
    deps[0].coord.extension = "jar".into();
    let noted = note_downloads(
        deps,
        &vec![
            Downloaded { coord: ArtifactCoord::new("org", "a", "1.0"), path: None },
            Downloaded {
                coord: ArtifactCoord::new("org", "b", "1.0"),
                path: Some("/r/b.jar".into()),
            },
        ],
    );
    assert!(noted[0].path.is_none());
    assert_eq!(noted[1].path.as_deref(), Some("/r/b.jar"));
}

#[test]
fn trees_are_shown_in_colours() {
    colored::control::set_override(true);
    let root = ArtifactCoord::new("org", "root", "1.0");
    let mut optional = node("org", "b", "1.0", DependencyScope::Import, vec![]);
    optional.optional = true;
    let nodes = vec![
        node("org", "a", "1.0", DependencyScope::Compile, vec![]),
        optional,
    ];
    let output = format_tree(&root, &nodes);
    assert!(output.starts_with("\u{1b}[1morg:root:1.0\u{1b}[0m\n"));
    assert!(output.contains("\u{1b}[2m├── \u{1b}[0morg:a:1.0 \u{1b}[32m[compile]\u{1b}[0m\n"));
    assert!(output.contains(
        "\u{1b}[2morg:b:1.0\u{1b}[0m \u{1b}[2m[import]\u{1b}[0m \u{1b}[2m(optional)\u{1b}[0m\n"
    ));
    for (scope, code) in [
        (DependencyScope::Runtime, "33"),
        (DependencyScope::Test, "36"),
        (DependencyScope::Provided, "35"),
        (DependencyScope::System, "31"),
    ] {
        let line = node("org", "x", "1", scope, vec![]).display_tree("", true);
        assert!(line.contains(&format!("\u{1b}[{code}m[")), "got: {line}");
    }
}

#[test]
fn trees_are_shown_plain_without_colours() {
    colored::control::set_override(false);
    let root = ArtifactCoord::new("org", "root", "1.0");
    let nodes = vec![node("org", "a", "1.0", DependencyScope::Compile, vec![
        node("org", "b", "1.0", DependencyScope::Runtime, vec![]),
    ])];
    assert_eq!(format_tree(&root, &nodes), format_tree_plain(&root, &nodes));
}

#[test]
fn dropped_occurrences_cost_nothing() {
    let mut repository = Repository::new(vec![
        make_pom("g", "root", "1.0", &[("g", "b", "1.0", "compile")]),
        make_pom("g", "b", "1.0", &[("g", "d", "1.0", "test"), ("g", "e", "1.0", "compile")]),
        make_pom("g", "e", "1.0", &[("g", "d", "1.0", "compile")]),
        make_pom("g", "d", "1.0", &[("g", "f", "1.0", "compile")]),
        make_pom("g", "f", "1.0", &[]),
    ]);
    let result = repository.resolve(&ArtifactCoord::new("g", "root", "1.0"), None).unwrap();
    let names: Vec<&str> =
        result.dependencies.iter().map(|d| d.coord.artifact_id.as_str()).collect();
    assert_eq!(names, vec!["b", "e", "d", "f"]);
    // The test dependency of b is not a part of the tree
    assert_eq!(result.tree[0].children.len(), 1);
}

#[test]
fn root_management_sets_scope_and_exclusions_below() {
    let mut root = make_pom("g", "root", "1", &[("g", "a", "1", "compile"), ("g", "x", "1", "test")]);
    let mut lib = dependency("g", "lib", "2", "runtime");
    lib.exclusions.exclusion.push(PomExclusion { group_id: "g".into(), artifact_id: "c".into() });
    let mut other = dependency("g", "lib", "9", "");
    other.dep_type = Some("zip".into());
    root.dependency_management = management(vec![lib, other, dependency("g", "x", "3", "provided")]);
    let mut repository = Repository::new(vec![
        root,
        make_pom("g", "a", "1", &[("g", "lib", "1", "compile")]),
        make_pom("g", "lib", "2", &[("g", "c", "1", "compile"), ("g", "e", "1", "compile")]),
        make_pom("g", "e", "1", &[]),
        make_pom("g", "x", "3", &[]),
    ]);
    let result = repository.resolve(&ArtifactCoord::new("g", "root", "1"), None).unwrap();
    let found = &result.tree[0].children[0];
    assert_eq!(found.coord.version, "2");
    assert_eq!(found.scope, DependencyScope::Runtime);
    assert_eq!(found.children.len(), 1);
    assert_eq!(found.children[0].coord.artifact_id, "e");
    // The root's own dependency keeps the scope that it declares
    assert_eq!(result.tree[1].coord.version, "3");
    assert_eq!(result.tree[1].scope, DependencyScope::Test);
    let scopes: Vec<DependencyScope> = result.dependencies.iter().map(|d| d.scope).collect();
    assert_eq!(
        scopes,
        vec![
            DependencyScope::Compile,
            DependencyScope::Test,
            DependencyScope::Runtime,
            DependencyScope::Runtime,
        ]
    );
}

#[test]
fn circular_parents_contribute() {
    let mut a = make_pom("g", "a", "1", &[("g", "lib", "${lib}", "compile")]);
    a.parent = parent("g", "b", "1");
    let mut b = make_pom("g", "b", "1", &[]);
    b.parent = parent("g", "a", "1");
    b.properties.entries.insert("lib".into(), "7".into());
    let mut repository = Repository::new(vec![a, b, make_pom("g", "lib", "7", &[])]);
    let result = repository.resolve(&ArtifactCoord::new("g", "a", "1"), None).unwrap();
    assert_eq!(result.dependencies.len(), 1);
    assert_eq!(result.dependencies[0].coord.version, "7");
}

#[test]
fn highest_version_follows_the_order() {
    let all = VersionConstraint::parse("[0,)").unwrap();
    let versions = vec!["1-sp", "1.0-alpha", "1"];
    assert_eq!(select_version(&all, &versions).as_deref(), Some("1-sp"));
}

#[test]
fn unstyled_trees_differ_by_the_marks_only() {
    let root = ArtifactCoord::new("g", "root", "1");
    let mut optional = node("g", "o", "1", DependencyScope::Runtime, vec![]);
    optional.optional = true;
    let nodes = vec![node("g", "a", "1", DependencyScope::Compile, vec![optional])];
    let shown = format_tree(&root, &nodes);
    if !shown.contains('\u{1b}') {
        let plain = format_tree_plain(&root, &nodes);
        assert_eq!(shown, plain.replace("[runtime]", "[runtime] (optional)"));
    }
}

/// A chain of POMs from `p0` up to `p<n>`, of which each is the parent of the one before it.
fn parent_chain(n: usize) -> Vec<Pom> {
    (0..=n)
        .map(|i| {
            let mut p = make_pom("g", &format!("p{i}"), "1", &[]);
            if i < n {
                p.parent = parent("g", &format!("p{}", i + 1), "1");
            }
            p
        })
        .collect()
}

fn needed(progress: Progress) -> (Vec<String>, Vec<String>) {
    match progress {
        Progress::Needs(needs) => (
            needs.poms.iter().map(|c| c.to_string()).collect(),
            needs.metadata.iter().map(|m| format!("{}:{}", m.group_id, m.artifact_id)).collect(),
        ),
        other => panic!("expected to be asked for documents, got: {other:?}"),
    }
}

#[test]
fn twentieth_ancestor_is_the_last_that_contributes() {
    let coord = ArtifactCoord::new("g", "p0", "1");
    for (far, version) in [(20, Some("7.0")), (21, None)] {
        let mut poms = parent_chain(22);
        poms[far].properties.entries.insert("lib.version".into(), "7.0".into());
        poms[0].dependencies.dependency.push(dependency("g", "lib", "${lib.version}", ""));
        let mut repository = Repository::new(poms);
        let result = repository.resolve(&coord, None).unwrap();
        let found = result.dependencies.first().map(|d| d.coord.version.clone());
        assert_eq!(found.as_deref(), version, "ancestor {far}");
        assert!(repository.asked.contains(&"g:p20:1".to_string()));
        assert!(!repository.asked.contains(&"g:p21:1".to_string()));
    }
}

#[test]
fn far_ancestor_as_a_dependency_has_its_own_parents() {
    // p20 is reached as the last ancestor of the root, and again as a dependency
    let mut poms = parent_chain(21);
    poms[0].dependencies.dependency.push(dependency("g", "p20", "1", ""));
    poms[20].dependencies.dependency.push(dependency("g", "leaf", "${leaf.version}", ""));
    poms[21].properties.entries.insert("leaf.version".into(), "3".into());
    let mut repository = Repository::new(poms);
    let result = repository.resolve(&ArtifactCoord::new("g", "p0", "1"), None).unwrap();
    let names: Vec<&str> =
        result.dependencies.iter().map(|d| d.coord.artifact_id.as_str()).collect();
    assert_eq!(names, ["p20", "leaf"]);
    assert_eq!(result.dependencies[1].coord.version, "3");
}

#[test]
fn just_the_missing_documents_are_asked_for() {
    let coord = ArtifactCoord::new("g", "root", "1");
    let mut root = make_pom("g", "root", "1", &[
        ("g", "a", "1", ""),
        ("g", "b", "1", ""),
        ("g", "r", "[1,2)", ""),
    ]);
    root.parent = parent("g", "up", "1");
    let mut up = make_pom("g", "up", "1", &[]);
    up.dependency_management =
        management(vec![bom_import("g", "bom1", "1"), bom_import("g", "bom2", "1")]);
    let mut a = make_pom("g", "a", "1", &[]);
    a.parent = parent("g", "base", "1");
    let mut b = make_pom("g", "b", "1", &[]);
    b.parent = parent("g", "base", "1");

    let mut resolver = new_resolver();
    let poms = |names: &[&str]| -> Vec<String> {
        names.iter().map(|n| ArtifactCoord::new("g", n, "1").to_string()).collect()
    };
    assert_eq!(needed(resolver.collect(&coord)), (poms(&["root"]), vec![]));
    resolver.note_pom(&coord, Fetched::Found(root));
    assert_eq!(needed(resolver.collect(&coord)), (poms(&["up"]), vec![]));
    resolver.note_pom(&ArtifactCoord::new("g", "up", "1"), Fetched::Found(up));
    assert_eq!(needed(resolver.collect(&coord)), (poms(&["bom1", "bom2"]), vec![]));
    resolver.note_pom(&ArtifactCoord::new("g", "bom1", "1"), Fetched::Failed);
    assert_eq!(needed(resolver.collect(&coord)), (poms(&["bom2"]), vec![]));
    resolver.note_pom(&ArtifactCoord::new("g", "bom2", "1"), Fetched::Failed);
    assert_eq!(needed(resolver.collect(&coord)), (vec![], vec!["g:r".to_string()]));
    resolver.note_metadata("g", "r", Fetched::Failed);
    assert_eq!(needed(resolver.collect(&coord)), (poms(&["a", "b"]), vec![]));
    resolver.note_pom(&ArtifactCoord::new("g", "a", "1"), Fetched::Found(a));
    resolver.note_pom(&ArtifactCoord::new("g", "b", "1"), Fetched::Found(b));
    assert_eq!(needed(resolver.collect(&coord)), (poms(&["base"]), vec![]));
    resolver.note_pom(&ArtifactCoord::new("g", "base", "1"), Fetched::Failed);
    match resolver.collect(&coord) {
        Progress::Tree(tree) => {
            let names: Vec<&str> = tree.iter().map(|n| n.coord.artifact_id.as_str()).collect();
            assert_eq!(names, ["a", "b"]);
        }
        other => panic!("expected a tree, got: {other:?}"),
    }
}

#[test]
fn first_answer_to_a_question_counts() {
    let coord = ArtifactCoord::new("g", "root", "1");
    let mut resolver = new_resolver();
    resolver.note_pom(&coord, Fetched::Failed);
    resolver.note_pom(&coord, Fetched::Found(make_pom("g", "root", "1", &[])));
    assert!(matches!(resolver.collect(&coord), Progress::Unavailable));
}

#[test]
fn dependency_reached_out_of_scope_is_reached_again() {
    let mut repository = Repository::new(vec![
        make_pom("g", "root", "1", &[("g", "b", "1", "")]),
        make_pom("g", "b", "1", &[("g", "d", "1", "test"), ("g", "e", "1", "")]),
        make_pom("g", "e", "1", &[("g", "d", "1", "")]),
        make_pom("g", "d", "1", &[("g", "f", "1", "")]),
        make_pom("g", "f", "1", &[]),
    ]);
    let result = repository.resolve(&ArtifactCoord::new("g", "root", "1"), None).unwrap();
    let names: Vec<&str> =
        result.dependencies.iter().map(|d| d.coord.artifact_id.as_str()).collect();
    assert_eq!(names, ["b", "e", "d", "f"]);
}

#[test]
fn plain_trees_have_one_line_per_node() {
    let inner = node("g", "c", "1", DependencyScope::Test, vec![]);
    let a = node("g", "a", "1", DependencyScope::Compile, vec![inner]);
    let b = node("g", "b", "1", DependencyScope::Runtime, vec![]);
    let text = a.display_tree_plain(">> ", false);
    let lines: Vec<&str> = text.lines().collect();
    assert_eq!(lines.len(), 2);
    assert!(lines.iter().all(|l| l.starts_with(">> ")));
    assert!(lines[0].ends_with("g:a:1 [compile]"));
    assert!(lines[1].ends_with("g:c:1 [test]"));
    let whole = format_tree_plain(&ArtifactCoord::new("g", "root", "1"), &vec![a, b]);
    assert_eq!(whole.matches('\n').count(), 4);
    assert!(whole.ends_with('\n'));
}

#[test]
fn styles_begin_anew_behind_an_end() {
    colored::control::set_override(true);
    let n = node("g", "a", "1", DependencyScope::Compile, vec![]);
    let shown = n.display_tree("x\u{1b}[0my", true);
    colored::control::unset_override();
    assert!(shown.starts_with("\u{1b}[2mx\u{1b}[0m\u{1b}[2my\u{1b}[0m"));
}
