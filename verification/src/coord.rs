//! Artifact coordinates, exclusion patterns and dependency scopes.
use crate::text;
use vstd::prelude::*;

verus! {

// ---------------------------------------------------------------------------
// ArtifactCoord
// ---------------------------------------------------------------------------

/// Maven artifact coordinates: group, artifact and version, with an extension and an optional
/// classifier.
#[derive(Debug, PartialEq, Eq, Hash)]
pub struct ArtifactCoord {
    pub group_id: String,
    pub artifact_id: String,
    pub version: String,
    pub classifier: Option<String>,
    pub extension: String,
}

/// Artifact coordinates over texts.
#[verifier::ext_equal]
pub struct CoordModel {
    pub group_id: Seq<char>,
    pub artifact_id: Seq<char>,
    pub version: Seq<char>,
    pub classifier: Option<Seq<char>>,
    pub extension: Seq<char>,
}

impl View for ArtifactCoord {
    type V = CoordModel;

    open spec fn view(&self) -> CoordModel {
        CoordModel {
            group_id: self.group_id@,
            artifact_id: self.artifact_id@,
            version: self.version@,
            classifier: text::opt_view(self.classifier),
            extension: self.extension@,
        }
    }
}

/// Coordinates without a classifier.
pub open spec fn plain_coord(
    group_id: Seq<char>,
    artifact_id: Seq<char>,
    version: Seq<char>,
    extension: Seq<char>,
) -> CoordModel {
    CoordModel { group_id, artifact_id, version, classifier: None, extension }
}

/// The directory of an artifact version in a repository: the group with its dots as
/// directory levels, the artifact, the version.
pub open spec fn version_dir(c: CoordModel) -> Seq<char> {
    text::replace_of(c.group_id, '.', '/') + "/"@ + c.artifact_id + "/"@ + c.version
}

/// The part of a file name that names the artifact and its version.
pub open spec fn file_stem(c: CoordModel) -> Seq<char> {
    c.artifact_id + "-"@ + c.version
}

/// The part of a file name that names the classifier.
pub open spec fn classifier_part(c: CoordModel) -> Seq<char> {
    match c.classifier {
        Some(classifier) => "-"@ + classifier,
        None => Seq::empty(),
    }
}

/// The repository-relative path of an artifact.
pub open spec fn artifact_path_of(c: CoordModel) -> Seq<char> {
    version_dir(c) + "/"@ + file_stem(c) + classifier_part(c) + "."@ + c.extension
}

/// The repository-relative path of the POM of an artifact.
pub open spec fn pom_path_of(c: CoordModel) -> Seq<char> {
    version_dir(c) + "/"@ + file_stem(c) + ".pom"@
}

/// The coordinates that a text stands for: `group:artifact:version`,
/// `group:artifact:extension:version` or `group:artifact:extension:classifier:version`.
pub open spec fn coord_of(s: Seq<char>) -> Result<CoordModel, Seq<char>> {
    let parts = text::split_of(s, ':');
    if parts.len() == 3 {
        Ok(plain_coord(parts[0], parts[1], parts[2], "jar"@))
    } else if parts.len() == 4 {
        Ok(plain_coord(parts[0], parts[1], parts[3], parts[2]))
    } else if parts.len() == 5 {
        Ok(
            CoordModel {
                group_id: parts[0],
                artifact_id: parts[1],
                version: parts[4],
                classifier: Some(parts[3]),
                extension: parts[2],
            },
        )
    } else {
        Err(
            "invalid artifact coordinates '"@ + s
                + "': expected 3, 4, or 5 colon-separated parts"@,
        )
    }
}

/// The text of coordinates; the extension `jar` goes without saying where there is no
/// classifier.
pub open spec fn coord_text(c: CoordModel) -> Seq<char> {
    match c.classifier {
        Some(classifier) => c.group_id + ":"@ + c.artifact_id + ":"@ + c.extension + ":"@
            + classifier + ":"@ + c.version,
        None => if c.extension == "jar"@ {
            c.group_id + ":"@ + c.artifact_id + ":"@ + c.version
        } else {
            c.group_id + ":"@ + c.artifact_id + ":"@ + c.extension + ":"@ + c.version
        },
    }
}

impl ArtifactCoord {
    /// Coordinates with the default extension `jar` and no classifier.
    pub fn new(group_id: &str, artifact_id: &str, version: &str) -> (r: ArtifactCoord)
        ensures
            r@ == plain_coord(group_id@, artifact_id@, version@, "jar"@),
    {
        ArtifactCoord::with_extension(group_id, artifact_id, version, "jar")
    }

    /// Coordinates with a custom extension and no classifier.
    pub fn with_extension(
        group_id: &str,
        artifact_id: &str,
        version: &str,
        extension: &str,
    ) -> (r: ArtifactCoord)
        ensures
            r@ == plain_coord(group_id@, artifact_id@, version@, extension@),
    {
        ArtifactCoord {
            group_id: group_id.to_owned(),
            artifact_id: artifact_id.to_owned(),
            version: version.to_owned(),
            classifier: None,
            extension: extension.to_owned(),
        }
    }

    /// Coordinates with both classifier and extension.
    pub fn with_classifier(
        group_id: &str,
        artifact_id: &str,
        version: &str,
        classifier: &str,
        extension: &str,
    ) -> (r: ArtifactCoord)
        ensures
            r@ == (CoordModel {
                group_id: group_id@,
                artifact_id: artifact_id@,
                version: version@,
                classifier: Some(classifier@),
                extension: extension@,
            }),
    {
        ArtifactCoord {
            group_id: group_id.to_owned(),
            artifact_id: artifact_id.to_owned(),
            version: version.to_owned(),
            classifier: Some(classifier.to_owned()),
            extension: extension.to_owned(),
        }
    }

    fn write_dir_and_stem(&self) -> (r: String)
        ensures
            r@ == version_dir(self@) + "/"@ + file_stem(self@),
    {
        let mut out = text::replace_char(self.group_id.as_str(), '.', '/');
        out.append("/");
        out.append(self.artifact_id.as_str());
        out.append("/");
        out.append(self.version.as_str());
        let ghost dir = out@;
        out.append("/");
        out.append(self.artifact_id.as_str());
        out.append("-");
        out.append(self.version.as_str());
        assert(dir == version_dir(self@));
        assert(out@ =~= dir + "/"@ + file_stem(self@));
        out
    }

    /// The repository-relative path of this artifact.
    ///
    /// Example: `org/apache/commons/commons-lang3/3.12.0/commons-lang3-3.12.0.jar`
    pub fn repository_path(&self) -> (r: String)
        ensures
            r@ == artifact_path_of(self@),
    {
        let mut out = self.write_dir_and_stem();
        let ghost start = out@;
        if let Some(classifier) = &self.classifier {
            out.append("-");
            out.append(classifier.as_str());
        }
        assert(out@ =~= start + classifier_part(self@));
        out.append(".");
        out.append(self.extension.as_str());
        out
    }

    /// The repository-relative path of the POM of this artifact.
    pub fn pom_path(&self) -> (r: String)
        ensures
            r@ == pom_path_of(self@),
    {
        let mut out = self.write_dir_and_stem();
        out.append(".pom");
        out
    }

    /// Reads coordinates.
    pub fn parse(s: &str) -> (r: Result<ArtifactCoord, String>)
        ensures
            match r {
                Ok(c) => coord_of(s@) == Ok::<CoordModel, Seq<char>>(c@),
                Err(e) => coord_of(s@) == Err::<CoordModel, Seq<char>>(e@),
            },
    {
        let parts = text::split(s, ':');
        assert(forall|i: int|
            0 <= i < parts@.len() ==> text::split_of(s@, ':')[i] == (#[trigger] parts@[i])@);
        if parts.len() == 3 {
            Ok(ArtifactCoord::new(parts[0].as_str(), parts[1].as_str(), parts[2].as_str()))
        } else if parts.len() == 4 {
            Ok(
                ArtifactCoord::with_extension(
                    parts[0].as_str(),
                    parts[1].as_str(),
                    parts[3].as_str(),
                    parts[2].as_str(),
                ),
            )
        } else if parts.len() == 5 {
            Ok(
                ArtifactCoord::with_classifier(
                    parts[0].as_str(),
                    parts[1].as_str(),
                    parts[4].as_str(),
                    parts[3].as_str(),
                    parts[2].as_str(),
                ),
            )
        } else {
            let mut e = "invalid artifact coordinates '".to_owned();
            e.append(s);
            e.append("': expected 3, 4, or 5 colon-separated parts");
            Err(e)
        }
    }

    /// The coordinates as text.
    pub fn to_string(&self) -> (r: String)
        ensures
            r@ == coord_text(self@),
    {
        let mut out = self.group_id.clone();
        out.append(":");
        out.append(self.artifact_id.as_str());
        out.append(":");
        match &self.classifier {
            Some(classifier) => {
                out.append(self.extension.as_str());
                out.append(":");
                out.append(classifier.as_str());
                out.append(":");
            },
            None => {
                if !text::str_eq(self.extension.as_str(), "jar") {
                    out.append(self.extension.as_str());
                    out.append(":");
                }
            },
        }
        out.append(self.version.as_str());
        out
    }
}

impl Clone for ArtifactCoord {
    fn clone(&self) -> (r: Self)
        ensures
            r@ == self@,
    {
        ArtifactCoord {
            group_id: self.group_id.clone(),
            artifact_id: self.artifact_id.clone(),
            version: self.version.clone(),
            classifier: text::clone_opt(&self.classifier),
            extension: self.extension.clone(),
        }
    }
}

impl std::str::FromStr for ArtifactCoord {
    type Err = String;

    fn from_str(s: &str) -> (r: Result<Self, String>)
        ensures
            match r {
                Ok(c) => coord_of(s@) == Ok::<CoordModel, Seq<char>>(c@),
                Err(e) => coord_of(s@) == Err::<CoordModel, Seq<char>>(e@),
            },
    {
        ArtifactCoord::parse(s)
    }
}

// ---------------------------------------------------------------------------
// Exclusion
// ---------------------------------------------------------------------------

/// A dependency exclusion pattern, in which `*` stands for any value.
#[derive(Debug, PartialEq, Eq, Hash)]
pub struct Exclusion {
    pub group_id: String,
    pub artifact_id: String,
}

/// An exclusion pattern over texts.
#[verifier::ext_equal]
pub struct ExclusionModel {
    pub group_id: Seq<char>,
    pub artifact_id: Seq<char>,
}

impl View for Exclusion {
    type V = ExclusionModel;

    open spec fn view(&self) -> ExclusionModel {
        ExclusionModel { group_id: self.group_id@, artifact_id: self.artifact_id@ }
    }
}

/// Whether an exclusion pattern matches an artifact of a group.
pub open spec fn excludes(e: ExclusionModel, group_id: Seq<char>, artifact_id: Seq<char>) -> bool {
    (e.group_id == "*"@ || e.group_id == group_id) && (e.artifact_id == "*"@ || e.artifact_id
        == artifact_id)
}

impl Exclusion {
    /// A pattern for a group and an artifact.
    pub fn new(group_id: &str, artifact_id: &str) -> (r: Exclusion)
        ensures
            r@ == (ExclusionModel { group_id: group_id@, artifact_id: artifact_id@ }),
    {
        Exclusion { group_id: group_id.to_owned(), artifact_id: artifact_id.to_owned() }
    }

    /// Whether this pattern matches the given coordinates.
    pub fn matches(&self, coord: &ArtifactCoord) -> (r: bool)
        ensures
            r == excludes(self@, coord@.group_id, coord@.artifact_id),
    {
        let group_match = text::str_eq(self.group_id.as_str(), "*") || self.group_id
            == coord.group_id;
        let artifact_match = text::str_eq(self.artifact_id.as_str(), "*") || self.artifact_id
            == coord.artifact_id;
        group_match && artifact_match
    }
}

impl Clone for Exclusion {
    fn clone(&self) -> (r: Self)
        ensures
            r@ == self@,
    {
        Exclusion { group_id: self.group_id.clone(), artifact_id: self.artifact_id.clone() }
    }
}

// ---------------------------------------------------------------------------
// DependencyScope
// ---------------------------------------------------------------------------

/// Maven dependency scope.
#[derive(Clone, Copy, Debug, PartialEq, Eq, Structural, Hash)]
pub enum DependencyScope {
    Compile,
    Runtime,
    Test,
    Provided,
    System,
    Import,
}

/// The name of a scope.
pub open spec fn scope_name(s: DependencyScope) -> Seq<char> {
    match s {
        DependencyScope::Compile => "compile"@,
        DependencyScope::Runtime => "runtime"@,
        DependencyScope::Test => "test"@,
        DependencyScope::Provided => "provided"@,
        DependencyScope::System => "system"@,
        DependencyScope::Import => "import"@,
    }
}

/// The scope that a text names, in capitals or not.
pub open spec fn scope_named(s: Seq<char>) -> Option<DependencyScope> {
    let t = text::lower_of(s);
    if t == "compile"@ {
        Some(DependencyScope::Compile)
    } else if t == "runtime"@ {
        Some(DependencyScope::Runtime)
    } else if t == "test"@ {
        Some(DependencyScope::Test)
    } else if t == "provided"@ {
        Some(DependencyScope::Provided)
    } else if t == "system"@ {
        Some(DependencyScope::System)
    } else if t == "import"@ {
        Some(DependencyScope::Import)
    } else {
        None
    }
}

impl Default for DependencyScope {
    fn default() -> (r: Self)
        ensures
            r == DependencyScope::Compile,
    {
        DependencyScope::Compile
    }
}

impl DependencyScope {
    /// Only `Compile` and `Runtime` scopes are transitive.
    pub fn is_transitive(&self) -> (r: bool)
        ensures
            r == (*self == DependencyScope::Compile || *self == DependencyScope::Runtime),
            r == (crate::resolver::propagated(DependencyScope::Compile, *self) is Some),
    {
        match self {
            DependencyScope::Compile | DependencyScope::Runtime => true,
            _ => false,
        }
    }

    /// Reads a scope.
    pub fn parse(s: &str) -> (r: Result<DependencyScope, String>)
        ensures
            match r {
                Ok(scope) => scope_named(s@) == Some(scope),
                Err(e) => scope_named(s@) is None && e@ == "unknown dependency scope '"@ + s@
                    + "'"@,
            },
    {
        let lower = text::to_lower(s);
        let t = lower.as_str();
        if text::str_eq(t, "compile") {
            Ok(DependencyScope::Compile)
        } else if text::str_eq(t, "runtime") {
            Ok(DependencyScope::Runtime)
        } else if text::str_eq(t, "test") {
            Ok(DependencyScope::Test)
        } else if text::str_eq(t, "provided") {
            Ok(DependencyScope::Provided)
        } else if text::str_eq(t, "system") {
            Ok(DependencyScope::System)
        } else if text::str_eq(t, "import") {
            Ok(DependencyScope::Import)
        } else {
            let mut e = "unknown dependency scope '".to_owned();
            e.append(s);
            e.append("'");
            Err(e)
        }
    }

    /// The name of the scope.
    pub fn as_str(&self) -> (r: &'static str)
        ensures
            r@ == scope_name(*self),
    {
        match self {
            DependencyScope::Compile => "compile",
            DependencyScope::Runtime => "runtime",
            DependencyScope::Test => "test",
            DependencyScope::Provided => "provided",
            DependencyScope::System => "system",
            DependencyScope::Import => "import",
        }
    }

    /// The name of the scope.
    pub fn to_string(&self) -> (r: String)
        ensures
            r@ == scope_name(*self),
    {
        self.as_str().to_owned()
    }
}

impl std::str::FromStr for DependencyScope {
    type Err = String;

    fn from_str(s: &str) -> (r: Result<Self, String>)
        ensures
            match r {
                Ok(scope) => scope_named(s@) == Some(scope),
                Err(e) => scope_named(s@) is None && e@ == "unknown dependency scope '"@ + s@
                    + "'"@,
            },
    {
        DependencyScope::parse(s)
    }
}

} // verus!
