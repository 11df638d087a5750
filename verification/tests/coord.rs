//! Tests of coordinates, exclusions and scopes.
use mvn_core::coord::{ArtifactCoord, DependencyScope, Exclusion};

#[test]
fn parse_gav() {
    let coord: ArtifactCoord = "org.apache.commons:commons-lang3:3.12.0".parse().unwrap();
    assert_eq!(coord.group_id, "org.apache.commons");
    assert_eq!(coord.artifact_id, "commons-lang3");
    assert_eq!(coord.version, "3.12.0");
    assert_eq!(coord.classifier, None);
    assert_eq!(coord.extension, "jar");
}

#[test]
fn parse_gave() {
    let coord: ArtifactCoord =
        "org.apache.commons:commons-lang3:pom:3.12.0".parse().unwrap();
    assert_eq!(coord.group_id, "org.apache.commons");
    assert_eq!(coord.artifact_id, "commons-lang3");
    assert_eq!(coord.version, "3.12.0");
    assert_eq!(coord.classifier, None);
    assert_eq!(coord.extension, "pom");
}

#[test]
fn parse_gavce() {
    let coord: ArtifactCoord = "org.apache.commons:commons-lang3:jar:sources:3.12.0"
        .parse()
        .unwrap();
    assert_eq!(coord.group_id, "org.apache.commons");
    assert_eq!(coord.artifact_id, "commons-lang3");
    assert_eq!(coord.version, "3.12.0");
    assert_eq!(coord.classifier, Some("sources".to_string()));
    assert_eq!(coord.extension, "jar");
}

#[test]
fn parse_invalid_one_part() {
    assert!("just-one".parse::<ArtifactCoord>().is_err());
}

#[test]
fn parse_invalid_six_parts() {
    assert!("a:b:c:d:e:f".parse::<ArtifactCoord>().is_err());
}

#[test]
fn display_gav() {
    let coord = ArtifactCoord::new("org.example", "foo", "1.0");
    assert_eq!(coord.to_string(), "org.example:foo:1.0");
}

#[test]
fn display_gave() {
    let coord = ArtifactCoord::with_extension("org.example", "foo", "1.0", "pom");
    assert_eq!(coord.to_string(), "org.example:foo:pom:1.0");
}

#[test]
fn display_gavce() {
    let coord = ArtifactCoord::with_classifier("org.example", "foo", "1.0", "sources", "jar");
    assert_eq!(coord.to_string(), "org.example:foo:jar:sources:1.0");
}

#[test]
fn display_roundtrip_gav() {
    let input = "org.apache.commons:commons-lang3:3.12.0";
    let coord: ArtifactCoord = input.parse().unwrap();
    assert_eq!(coord.to_string(), input);
}

#[test]
fn display_roundtrip_gave() {
    let input = "org.apache.commons:commons-lang3:pom:3.12.0";
    let coord: ArtifactCoord = input.parse().unwrap();
    assert_eq!(coord.to_string(), input);
}

#[test]
fn display_roundtrip_gavce() {
    let input = "org.apache.commons:commons-lang3:jar:sources:3.12.0";
    let coord: ArtifactCoord = input.parse().unwrap();
    assert_eq!(coord.to_string(), input);
}

#[test]
fn repository_path_simple() {
    let coord = ArtifactCoord::new("org.apache.commons", "commons-lang3", "3.12.0");
    assert_eq!(
        coord.repository_path(),
        "org/apache/commons/commons-lang3/3.12.0/commons-lang3-3.12.0.jar"
    );
}

#[test]
fn repository_path_with_classifier() {
    let coord = ArtifactCoord::with_classifier(
        "org.apache.commons",
        "commons-lang3",
        "3.12.0",
        "sources",
        "jar",
    );
    assert_eq!(
        coord.repository_path(),
        "org/apache/commons/commons-lang3/3.12.0/commons-lang3-3.12.0-sources.jar"
    );
}

#[test]
fn pom_path_computation() {
    let coord = ArtifactCoord::with_classifier(
        "org.apache.commons",
        "commons-lang3",
        "3.12.0",
        "sources",
        "jar",
    );
    assert_eq!(
        coord.pom_path(),
        "org/apache/commons/commons-lang3/3.12.0/commons-lang3-3.12.0.pom"
    );
}

#[test]
fn exclusion_exact_match() {
    let exc = Exclusion::new("org.example", "foo");
    let coord = ArtifactCoord::new("org.example", "foo", "1.0");
    assert!(exc.matches(&coord));
}

#[test]
fn exclusion_no_match() {
    let exc = Exclusion::new("org.example", "foo");
    let coord = ArtifactCoord::new("org.example", "bar", "1.0");
    assert!(!exc.matches(&coord));
}

#[test]
fn exclusion_wildcard_group() {
    let exc = Exclusion::new("*", "foo");
    let coord = ArtifactCoord::new("com.anything", "foo", "2.0");
    assert!(exc.matches(&coord));
}

#[test]
fn exclusion_wildcard_artifact() {
    let exc = Exclusion::new("org.example", "*");
    let coord = ArtifactCoord::new("org.example", "anything", "1.0");
    assert!(exc.matches(&coord));
}

#[test]
fn exclusion_wildcard_both() {
    let exc = Exclusion::new("*", "*");
    let coord = ArtifactCoord::new("com.any", "thing", "0.1");
    assert!(exc.matches(&coord));
}

#[test]
fn scope_parse_and_display() {
    for s in &["compile", "runtime", "test", "provided", "system", "import"] {
        let scope: DependencyScope = s.parse().unwrap();
        assert_eq!(&scope.to_string(), *s);
    }
}

#[test]
fn scope_default_is_compile() {
    assert_eq!(DependencyScope::default(), DependencyScope::Compile);
}

#[test]
fn scope_is_transitive() {
    assert!(DependencyScope::Compile.is_transitive());
    assert!(DependencyScope::Runtime.is_transitive());
    assert!(!DependencyScope::Test.is_transitive());
    assert!(!DependencyScope::Provided.is_transitive());
    assert!(!DependencyScope::System.is_transitive());
    assert!(!DependencyScope::Import.is_transitive());
}

#[test]
fn scope_parse_invalid() {
    assert!("bogus".parse::<DependencyScope>().is_err());
}

#[test]
fn parse_errors_name_the_text() {
    let e = "just-one".parse::<ArtifactCoord>().unwrap_err();
    assert!(e.contains("just-one"), "got: {e}");
    let e = "bogus".parse::<DependencyScope>().unwrap_err();
    assert_eq!(e, "unknown dependency scope 'bogus'");
}

#[test]
fn scopes_are_read_in_any_case() {
    assert_eq!("COMPILE".parse::<DependencyScope>(), Ok(DependencyScope::Compile));
    assert_eq!("Provided".parse::<DependencyScope>(), Ok(DependencyScope::Provided));
}

#[test]
fn coordinates_are_read_back_from_their_text() {
    for coord in [
        ArtifactCoord::new("g", "a", "1"),
        ArtifactCoord::with_extension("g", "a", "1", "war"),
        ArtifactCoord::with_classifier("g", "a", "1", "tests", "zip"),
    ] {
        assert_eq!(coord.to_string().parse::<ArtifactCoord>(), Ok(coord));
    }
}
