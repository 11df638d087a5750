//! The project object model: what a POM holds, inheritance from a parent, property
//! interpolation and dependency management.
use crate::coord::ArtifactCoord;
use crate::coord::CoordModel;
use crate::properties;
use crate::properties::Entries;
use crate::properties::PropertyMap;
use crate::text;
use vstd::prelude::*;

pub use crate::properties::interpolate;

verus! {

// ============================================================================
// Data
// ============================================================================

/// A Maven POM (Project Object Model).
#[derive(Debug)]
pub struct Pom {
    pub model_version: Option<String>,
    pub group_id: Option<String>,
    pub artifact_id: Option<String>,
    pub version: Option<String>,
    pub packaging: Option<String>,
    pub name: Option<String>,
    pub description: Option<String>,
    pub url: Option<String>,
    pub parent: Option<Parent>,
    pub properties: Properties,
    pub dependency_management: Option<DependencyManagement>,
    pub dependencies: Dependencies,
    pub repositories: Repositories,
    pub distribution_management: Option<DistributionManagement>,
}

/// The parent that a POM names.
#[derive(Debug)]
pub struct Parent {
    pub group_id: String,
    pub artifact_id: String,
    pub version: String,
    pub relative_path: Option<String>,
}

/// A dependency declared in a POM.
#[derive(Debug)]
pub struct PomDependency {
    pub group_id: String,
    pub artifact_id: String,
    pub version: Option<String>,
    pub dep_type: Option<String>,
    pub scope: Option<String>,
    pub classifier: Option<String>,
    pub optional: Option<String>,
    pub exclusions: Exclusions,
}

/// An exclusion declared with a dependency.
#[derive(Debug)]
pub struct PomExclusion {
    pub group_id: String,
    pub artifact_id: String,
}

/// A repository declared in a POM.
#[derive(Debug)]
pub struct PomRepository {
    pub id: Option<String>,
    pub url: String,
    pub name: Option<String>,
    pub layout: Option<String>,
}

/// Distribution management section (for relocation support).
#[derive(Debug)]
pub struct DistributionManagement {
    pub relocation: Option<Relocation>,
}

/// Where an artifact has moved to.
#[derive(Debug)]
pub struct Relocation {
    pub group_id: Option<String>,
    pub artifact_id: Option<String>,
    pub version: Option<String>,
    pub message: Option<String>,
}

/// Dependency management section of a POM.
#[derive(Debug)]
pub struct DependencyManagement {
    pub dependencies: Dependencies,
}

/// The dependencies of a POM or of its dependency management.
#[derive(Debug)]
pub struct Dependencies {
    pub dependency: Vec<PomDependency>,
}

/// The repositories of a POM.
#[derive(Debug)]
pub struct Repositories {
    pub repository: Vec<PomRepository>,
}

/// The exclusions of a dependency.
#[derive(Debug)]
pub struct Exclusions {
    pub exclusion: Vec<PomExclusion>,
}

/// The properties of a POM.
#[derive(Debug)]
pub struct Properties {
    pub entries: PropertyMap,
}

/// What the process runs in: its environment variables and the platform's names.
#[derive(Debug)]
pub struct Environment {
    pub vars: PropertyMap,
    pub os_name: String,
    pub os_arch: String,
}

// ============================================================================
// Models
// ============================================================================

/// A parent over texts.
#[verifier::ext_equal]
pub struct ParentModel {
    pub group_id: Seq<char>,
    pub artifact_id: Seq<char>,
    pub version: Seq<char>,
    pub relative_path: Option<Seq<char>>,
}

/// A declared dependency over texts. An exclusion is the pair of its group and artifact.
#[verifier::ext_equal]
pub struct DependencyModel {
    pub group_id: Seq<char>,
    pub artifact_id: Seq<char>,
    pub version: Option<Seq<char>>,
    pub dep_type: Option<Seq<char>>,
    pub scope: Option<Seq<char>>,
    pub classifier: Option<Seq<char>>,
    pub optional: Option<Seq<char>>,
    pub exclusions: Seq<(Seq<char>, Seq<char>)>,
}

/// A repository over texts.
#[verifier::ext_equal]
pub struct PomRepositoryModel {
    pub id: Option<Seq<char>>,
    pub url: Seq<char>,
    pub name: Option<Seq<char>>,
    pub layout: Option<Seq<char>>,
}

/// A relocation over texts.
#[verifier::ext_equal]
pub struct RelocationModel {
    pub group_id: Option<Seq<char>>,
    pub artifact_id: Option<Seq<char>>,
    pub version: Option<Seq<char>>,
    pub message: Option<Seq<char>>,
}

/// A POM over texts. The distribution management section is what it says of a relocation.
#[verifier::ext_equal]
pub struct PomModel {
    pub model_version: Option<Seq<char>>,
    pub group_id: Option<Seq<char>>,
    pub artifact_id: Option<Seq<char>>,
    pub version: Option<Seq<char>>,
    pub packaging: Option<Seq<char>>,
    pub name: Option<Seq<char>>,
    pub description: Option<Seq<char>>,
    pub url: Option<Seq<char>>,
    pub parent: Option<ParentModel>,
    pub properties: Entries,
    pub dependency_management: Option<Seq<DependencyModel>>,
    pub dependencies: Seq<DependencyModel>,
    pub repositories: Seq<PomRepositoryModel>,
    pub distribution_management: Option<Option<RelocationModel>>,
}

/// An environment over texts.
#[verifier::ext_equal]
pub struct EnvironmentModel {
    pub vars: Entries,
    pub os_name: Seq<char>,
    pub os_arch: Seq<char>,
}

impl View for Parent {
    type V = ParentModel;

    open spec fn view(&self) -> ParentModel {
        ParentModel {
            group_id: self.group_id@,
            artifact_id: self.artifact_id@,
            version: self.version@,
            relative_path: text::opt_view(self.relative_path),
        }
    }
}

impl View for PomExclusion {
    type V = (Seq<char>, Seq<char>);

    open spec fn view(&self) -> (Seq<char>, Seq<char>) {
        (self.group_id@, self.artifact_id@)
    }
}

impl View for Exclusions {
    type V = Seq<(Seq<char>, Seq<char>)>;

    open spec fn view(&self) -> Seq<(Seq<char>, Seq<char>)> {
        text::views(self.exclusion@)
    }
}

impl View for PomDependency {
    type V = DependencyModel;

    open spec fn view(&self) -> DependencyModel {
        DependencyModel {
            group_id: self.group_id@,
            artifact_id: self.artifact_id@,
            version: text::opt_view(self.version),
            dep_type: text::opt_view(self.dep_type),
            scope: text::opt_view(self.scope),
            classifier: text::opt_view(self.classifier),
            optional: text::opt_view(self.optional),
            exclusions: self.exclusions@,
        }
    }
}

impl View for PomRepository {
    type V = PomRepositoryModel;

    open spec fn view(&self) -> PomRepositoryModel {
        PomRepositoryModel {
            id: text::opt_view(self.id),
            url: self.url@,
            name: text::opt_view(self.name),
            layout: text::opt_view(self.layout),
        }
    }
}

impl View for Relocation {
    type V = RelocationModel;

    open spec fn view(&self) -> RelocationModel {
        RelocationModel {
            group_id: text::opt_view(self.group_id),
            artifact_id: text::opt_view(self.artifact_id),
            version: text::opt_view(self.version),
            message: text::opt_view(self.message),
        }
    }
}

impl View for DistributionManagement {
    type V = Option<RelocationModel>;

    open spec fn view(&self) -> Option<RelocationModel> {
        text::opt_view(self.relocation)
    }
}

impl View for Dependencies {
    type V = Seq<DependencyModel>;

    open spec fn view(&self) -> Seq<DependencyModel> {
        text::views(self.dependency@)
    }
}

impl View for DependencyManagement {
    type V = Seq<DependencyModel>;

    open spec fn view(&self) -> Seq<DependencyModel> {
        self.dependencies@
    }
}

impl View for Repositories {
    type V = Seq<PomRepositoryModel>;

    open spec fn view(&self) -> Seq<PomRepositoryModel> {
        text::views(self.repository@)
    }
}

impl View for Properties {
    type V = Entries;

    open spec fn view(&self) -> Entries {
        self.entries@
    }
}

impl View for Pom {
    type V = PomModel;

    open spec fn view(&self) -> PomModel {
        PomModel {
            model_version: text::opt_view(self.model_version),
            group_id: text::opt_view(self.group_id),
            artifact_id: text::opt_view(self.artifact_id),
            version: text::opt_view(self.version),
            packaging: text::opt_view(self.packaging),
            name: text::opt_view(self.name),
            description: text::opt_view(self.description),
            url: text::opt_view(self.url),
            parent: text::opt_view(self.parent),
            properties: self.properties@,
            dependency_management: text::opt_view(self.dependency_management),
            dependencies: self.dependencies@,
            repositories: self.repositories@,
            distribution_management: text::opt_view(self.distribution_management),
        }
    }
}

impl View for Environment {
    type V = EnvironmentModel;

    open spec fn view(&self) -> EnvironmentModel {
        EnvironmentModel { vars: self.vars@, os_name: self.os_name@, os_arch: self.os_arch@ }
    }
}

// ============================================================================
// Copies and empty values
// ============================================================================

impl Clone for Parent {
    fn clone(&self) -> (r: Self)
        ensures
            r@ == self@,
    {
        Parent {
            group_id: self.group_id.clone(),
            artifact_id: self.artifact_id.clone(),
            version: self.version.clone(),
            relative_path: text::clone_opt(&self.relative_path),
        }
    }
}

impl Clone for PomExclusion {
    fn clone(&self) -> (r: Self)
        ensures
            r@ == self@,
    {
        PomExclusion { group_id: self.group_id.clone(), artifact_id: self.artifact_id.clone() }
    }
}

impl Clone for Exclusions {
    fn clone(&self) -> (r: Self)
        ensures
            r@ == self@,
    {
        let mut exclusion: Vec<PomExclusion> = Vec::new();
        for i in 0..self.exclusion.len()
            invariant
                exclusion@.len() == i,
                forall|j: int| 0 <= j < i ==> exclusion@[j]@ == self.exclusion@[j]@,
        {
            exclusion.push(self.exclusion[i].clone());
        }
        let r = Exclusions { exclusion };
        assert(r@ =~= self@);
        r
    }
}

impl Clone for PomDependency {
    fn clone(&self) -> (r: Self)
        ensures
            r@ == self@,
    {
        PomDependency {
            group_id: self.group_id.clone(),
            artifact_id: self.artifact_id.clone(),
            version: text::clone_opt(&self.version),
            dep_type: text::clone_opt(&self.dep_type),
            scope: text::clone_opt(&self.scope),
            classifier: text::clone_opt(&self.classifier),
            optional: text::clone_opt(&self.optional),
            exclusions: self.exclusions.clone(),
        }
    }
}

impl Clone for PomRepository {
    fn clone(&self) -> (r: Self)
        ensures
            r@ == self@,
    {
        PomRepository {
            id: text::clone_opt(&self.id),
            url: self.url.clone(),
            name: text::clone_opt(&self.name),
            layout: text::clone_opt(&self.layout),
        }
    }
}

impl Clone for Relocation {
    fn clone(&self) -> (r: Self)
        ensures
            r@ == self@,
    {
        Relocation {
            group_id: text::clone_opt(&self.group_id),
            artifact_id: text::clone_opt(&self.artifact_id),
            version: text::clone_opt(&self.version),
            message: text::clone_opt(&self.message),
        }
    }
}

impl Clone for DistributionManagement {
    fn clone(&self) -> (r: Self)
        ensures
            r@ == self@,
    {
        let relocation = match &self.relocation {
            Some(r) => Some(r.clone()),
            None => None,
        };
        DistributionManagement { relocation }
    }
}

impl Clone for Dependencies {
    fn clone(&self) -> (r: Self)
        ensures
            r@ == self@,
    {
        let mut dependency: Vec<PomDependency> = Vec::new();
        for i in 0..self.dependency.len()
            invariant
                dependency@.len() == i,
                forall|j: int| 0 <= j < i ==> dependency@[j]@ == self.dependency@[j]@,
        {
            dependency.push(self.dependency[i].clone());
        }
        let r = Dependencies { dependency };
        assert(r@ =~= self@);
        r
    }
}

impl Clone for DependencyManagement {
    fn clone(&self) -> (r: Self)
        ensures
            r@ == self@,
    {
        DependencyManagement { dependencies: self.dependencies.clone() }
    }
}

impl Clone for Repositories {
    fn clone(&self) -> (r: Self)
        ensures
            r@ == self@,
    {
        let mut repository: Vec<PomRepository> = Vec::new();
        for i in 0..self.repository.len()
            invariant
                repository@.len() == i,
                forall|j: int| 0 <= j < i ==> repository@[j]@ == self.repository@[j]@,
        {
            repository.push(self.repository[i].clone());
        }
        let r = Repositories { repository };
        assert(r@ =~= self@);
        r
    }
}

impl Clone for Properties {
    fn clone(&self) -> (r: Self)
        ensures
            r@ == self@,
    {
        Properties { entries: self.entries.clone() }
    }
}

impl Clone for Pom {
    fn clone(&self) -> (r: Self)
        ensures
            r@ == self@,
    {
        let parent = match &self.parent {
            Some(p) => Some(p.clone()),
            None => None,
        };
        let dependency_management = match &self.dependency_management {
            Some(dm) => Some(dm.clone()),
            None => None,
        };
        let distribution_management = match &self.distribution_management {
            Some(dm) => Some(dm.clone()),
            None => None,
        };
        Pom {
            model_version: text::clone_opt(&self.model_version),
            group_id: text::clone_opt(&self.group_id),
            artifact_id: text::clone_opt(&self.artifact_id),
            version: text::clone_opt(&self.version),
            packaging: text::clone_opt(&self.packaging),
            name: text::clone_opt(&self.name),
            description: text::clone_opt(&self.description),
            url: text::clone_opt(&self.url),
            parent,
            properties: self.properties.clone(),
            dependency_management,
            dependencies: self.dependencies.clone(),
            repositories: self.repositories.clone(),
            distribution_management,
        }
    }
}

impl Default for Exclusions {
    fn default() -> (r: Self)
        ensures
            r@ == Seq::<(Seq<char>, Seq<char>)>::empty(),
    {
        let r = Exclusions { exclusion: Vec::new() };
        assert(r@ =~= Seq::<(Seq<char>, Seq<char>)>::empty());
        r
    }
}

impl Default for Dependencies {
    fn default() -> (r: Self)
        ensures
            r@ == Seq::<DependencyModel>::empty(),
    {
        let r = Dependencies { dependency: Vec::new() };
        assert(r@ =~= Seq::<DependencyModel>::empty());
        r
    }
}

impl Default for Repositories {
    fn default() -> (r: Self)
        ensures
            r@ == Seq::<PomRepositoryModel>::empty(),
    {
        let r = Repositories { repository: Vec::new() };
        assert(r@ =~= Seq::<PomRepositoryModel>::empty());
        r
    }
}

impl Default for Properties {
    fn default() -> (r: Self)
        ensures
            r@ == Entries::empty(),
    {
        Properties { entries: PropertyMap::new() }
    }
}

impl Default for DistributionManagement {
    fn default() -> (r: Self)
        ensures
            r@ is None,
    {
        DistributionManagement { relocation: None }
    }
}

// ============================================================================
// Effective values
// ============================================================================

/// The group of a POM, which it may have from its parent.
pub open spec fn group_of(pom: PomModel) -> Option<Seq<char>> {
    match (pom.group_id, pom.parent) {
        (Some(g), _) => Some(g),
        (None, Some(parent)) => Some(parent.group_id),
        (None, None) => None,
    }
}

/// The version of a POM, which it may have from its parent.
pub open spec fn version_of(pom: PomModel) -> Option<Seq<char>> {
    match (pom.version, pom.parent) {
        (Some(v), _) => Some(v),
        (None, Some(parent)) => Some(parent.version),
        (None, None) => None,
    }
}

/// The packaging of a POM, `jar` where it names none.
pub open spec fn packaging_of(pom: PomModel) -> Seq<char> {
    match pom.packaging {
        Some(p) => p,
        None => "jar"@,
    }
}

/// The coordinates of a POM that has a group, an artifact and a version.
pub open spec fn coord_of_pom(pom: PomModel) -> Option<CoordModel> {
    match (group_of(pom), pom.artifact_id, version_of(pom)) {
        (Some(g), Some(a), Some(v)) => Some(
            crate::coord::plain_coord(g, a, v, packaging_of(pom)),
        ),
        _ => None,
    }
}

/// The coordinates of the POM that a POM inherits from.
pub open spec fn parent_coord_of(pom: PomModel) -> Option<CoordModel> {
    match pom.parent {
        Some(p) => Some(
            crate::coord::plain_coord(p.group_id, p.artifact_id, p.version, "pom"@),
        ),
        None => None,
    }
}

impl Pom {
    /// The group, which falls back to the parent's.
    pub fn effective_group_id(&self) -> (r: Option<&str>)
        ensures
            match r {
                Some(g) => group_of(self@) == Some(g@),
                None => group_of(self@) is None,
            },
    {
        match &self.group_id {
            Some(g) => Some(g.as_str()),
            None => match &self.parent {
                Some(p) => Some(p.group_id.as_str()),
                None => None,
            },
        }
    }

    /// The version, which falls back to the parent's.
    pub fn effective_version(&self) -> (r: Option<&str>)
        ensures
            match r {
                Some(v) => version_of(self@) == Some(v@),
                None => version_of(self@) is None,
            },
    {
        match &self.version {
            Some(v) => Some(v.as_str()),
            None => match &self.parent {
                Some(p) => Some(p.version.as_str()),
                None => None,
            },
        }
    }

    /// The packaging, `jar` by default.
    pub fn effective_packaging(&self) -> (r: &str)
        ensures
            r@ == packaging_of(self@),
    {
        match &self.packaging {
            Some(p) => p.as_str(),
            None => "jar",
        }
    }

    /// The coordinates, where there are a group, an artifact and a version.
    pub fn to_coord(&self) -> (r: Option<ArtifactCoord>)
        ensures
            text::opt_view(r) == coord_of_pom(self@),
    {
        match (self.effective_group_id(), &self.artifact_id, self.effective_version()) {
            (Some(g), Some(a), Some(v)) => Some(
                ArtifactCoord::with_extension(g, a.as_str(), v, self.effective_packaging()),
            ),
            _ => None,
        }
    }

    /// The coordinates of the parent.
    pub fn parent_coord(&self) -> (r: Option<ArtifactCoord>)
        ensures
            text::opt_view(r) == parent_coord_of(self@),
    {
        match &self.parent {
            Some(p) => Some(
                ArtifactCoord::with_extension(
                    p.group_id.as_str(),
                    p.artifact_id.as_str(),
                    p.version.as_str(),
                    "pom",
                ),
            ),
            None => None,
        }
    }
}

// ============================================================================
// Interpolation
// ============================================================================

/// `props` with what the POM says of itself. A value from elsewhere, such as one that came with
/// the parent's properties, gives way.
pub open spec fn with_project(props: Entries, pom: PomModel) -> Entries {
    let a = match group_of(pom) {
        Some(g) => properties::set_entry(props, "project.groupId"@, g),
        None => props,
    };
    let b = match pom.artifact_id {
        Some(id) => properties::set_entry(a, "project.artifactId"@, id),
        None => a,
    };
    let c = match version_of(pom) {
        Some(v) => properties::set_entry(b, "project.version"@, v),
        None => b,
    };
    properties::set_entry(c, "project.packaging"@, packaging_of(pom))
}

/// `props` with the variables from position `i` on under their names after `env.`, for names
/// that have no value.
pub open spec fn with_vars(props: Entries, vars: Entries, i: int) -> Entries
    decreases vars.len() - i,
{
    if i >= vars.len() {
        props
    } else {
        with_vars(
            properties::set_default(props, "env."@ + vars[i].0, vars[i].1),
            vars,
            i + 1,
        )
    }
}

/// The version of Java that the environment names.
pub open spec fn java_version(env: EnvironmentModel) -> Seq<char> {
    match properties::lookup(env.vars, "JAVA_VERSION"@) {
        Some(v) => v,
        None => Seq::empty(),
    }
}

/// `props` with what the environment provides, for names that have no value.
pub open spec fn with_environment(props: Entries, env: EnvironmentModel) -> Entries {
    let a = with_vars(props, env.vars, 0);
    let b = properties::set_default(a, "java.version"@, java_version(env));
    let c = properties::set_default(b, "os.name"@, env.os_name);
    properties::set_default(c, "os.arch"@, env.os_arch)
}

/// The properties that a POM's placeholders are replaced from: those of the project, its own, and
/// those of the environment, with the placeholders in the values replaced first.
pub open spec fn effective_properties(pom: PomModel, env: EnvironmentModel) -> Entries {
    properties::settled_from(with_environment(with_project(pom.properties, pom), env), 0)
}

/// A dependency with its placeholders replaced.
pub open spec fn interpolated_dependency(d: DependencyModel, props: Entries) -> DependencyModel {
    DependencyModel {
        group_id: properties::interpolated(d.group_id, props),
        artifact_id: properties::interpolated(d.artifact_id, props),
        version: properties::interpolated_opt(d.version, props),
        dep_type: properties::interpolated_opt(d.dep_type, props),
        scope: properties::interpolated_opt(d.scope, props),
        classifier: properties::interpolated_opt(d.classifier, props),
        optional: properties::interpolated_opt(d.optional, props),
        exclusions: Seq::new(
            d.exclusions.len(),
            |i: int|
                (
                    properties::interpolated(d.exclusions[i].0, props),
                    properties::interpolated(d.exclusions[i].1, props),
                ),
        ),
    }
}

/// A parent with its placeholders replaced.
pub open spec fn interpolated_parent(p: ParentModel, props: Entries) -> ParentModel {
    ParentModel {
        group_id: properties::interpolated(p.group_id, props),
        artifact_id: properties::interpolated(p.artifact_id, props),
        version: properties::interpolated(p.version, props),
        relative_path: properties::interpolated_opt(p.relative_path, props),
    }
}

/// A repository with its placeholders replaced.
pub open spec fn interpolated_repository(
    r: PomRepositoryModel,
    props: Entries,
) -> PomRepositoryModel {
    PomRepositoryModel {
        id: properties::interpolated_opt(r.id, props),
        url: properties::interpolated(r.url, props),
        name: properties::interpolated_opt(r.name, props),
        layout: properties::interpolated_opt(r.layout, props),
    }
}

/// A relocation with its placeholders replaced.
pub open spec fn interpolated_relocation(r: RelocationModel, props: Entries) -> RelocationModel {
    RelocationModel {
        group_id: properties::interpolated_opt(r.group_id, props),
        artifact_id: properties::interpolated_opt(r.artifact_id, props),
        version: properties::interpolated_opt(r.version, props),
        message: properties::interpolated_opt(r.message, props),
    }
}

/// Dependencies with their placeholders replaced.
pub open spec fn interpolated_dependencies(
    ds: Seq<DependencyModel>,
    props: Entries,
) -> Seq<DependencyModel> {
    Seq::new(ds.len(), |i: int| interpolated_dependency(ds[i], props))
}

/// A POM with the placeholders of all its fields replaced from `props`, which become its
/// properties.
pub open spec fn interpolated_from(pom: PomModel, props: Entries) -> PomModel {
    PomModel {
        model_version: properties::interpolated_opt(pom.model_version, props),
        group_id: properties::interpolated_opt(pom.group_id, props),
        artifact_id: properties::interpolated_opt(pom.artifact_id, props),
        version: properties::interpolated_opt(pom.version, props),
        packaging: properties::interpolated_opt(pom.packaging, props),
        name: properties::interpolated_opt(pom.name, props),
        description: properties::interpolated_opt(pom.description, props),
        url: properties::interpolated_opt(pom.url, props),
        parent: match pom.parent {
            Some(p) => Some(interpolated_parent(p, props)),
            None => None,
        },
        properties: props,
        dependency_management: match pom.dependency_management {
            Some(ds) => Some(interpolated_dependencies(ds, props)),
            None => None,
        },
        dependencies: interpolated_dependencies(pom.dependencies, props),
        repositories: Seq::new(
            pom.repositories.len(),
            |i: int| interpolated_repository(pom.repositories[i], props),
        ),
        distribution_management: match pom.distribution_management {
            Some(Some(r)) => Some(Some(interpolated_relocation(r, props))),
            other => other,
        },
    }
}

/// A POM with its placeholders replaced.
pub open spec fn interpolated_pom(pom: PomModel, env: EnvironmentModel) -> PomModel {
    interpolated_from(pom, effective_properties(pom, env))
}

fn add_project_properties(props: &mut PropertyMap, pom: &Pom)
    ensures
        final(props)@ == with_project(old(props)@, pom@),
{
    if let Some(g) = pom.effective_group_id() {
        props.insert("project.groupId".to_owned(), g.to_owned());
    }
    if let Some(id) = &pom.artifact_id {
        props.insert("project.artifactId".to_owned(), id.clone());
    }
    if let Some(v) = pom.effective_version() {
        props.insert("project.version".to_owned(), v.to_owned());
    }
    props.insert("project.packaging".to_owned(), pom.effective_packaging().to_owned());
}

fn add_environment_properties(props: &mut PropertyMap, env: &Environment)
    ensures
        final(props)@ == with_environment(old(props)@, env@),
{
    let ghost start = props@;
    let n: usize = env.vars.len();
    for i in 0..n
        invariant
            n == env.vars@.len(),
            with_vars(start, env.vars@, 0) == with_vars(props@, env.vars@, i as int),
    {
        let e = env.vars.entry(i);
        let mut name = "env.".to_owned();
        name.append(e.key.as_str());
        props.insert_default(name, e.value.clone());
    }
    let java = match env.vars.get("JAVA_VERSION") {
        Some(v) => v.clone(),
        None => String::new(),
    };
    props.insert_default("java.version".to_owned(), java);
    props.insert_default("os.name".to_owned(), env.os_name.clone());
    props.insert_default("os.arch".to_owned(), env.os_arch.clone());
}

fn interpolate_exclusions(list: &Exclusions, props: &PropertyMap) -> (r: Exclusions)
    ensures
        r@.len() == list@.len(),
        forall|i: int|
            0 <= i < r@.len() ==> #[trigger] r@[i] == (
                properties::interpolated(list@[i].0, props@),
                properties::interpolated(list@[i].1, props@),
            ),
{
    let mut exclusion: Vec<PomExclusion> = Vec::new();
    for i in 0..list.exclusion.len()
        invariant
            exclusion@.len() == i,
            forall|j: int|
                0 <= j < i ==> (#[trigger] exclusion@[j])@ == (
                    properties::interpolated(list@[j].0, props@),
                    properties::interpolated(list@[j].1, props@),
                ),
    {
        let e = &list.exclusion[i];
        exclusion.push(
            PomExclusion {
                group_id: interpolate(e.group_id.as_str(), props),
                artifact_id: interpolate(e.artifact_id.as_str(), props),
            },
        );
    }
    Exclusions { exclusion }
}

fn interpolate_dep(dep: &PomDependency, props: &PropertyMap) -> (r: PomDependency)
    ensures
        r@ == interpolated_dependency(dep@, props@),
{
    let r = PomDependency {
        group_id: interpolate(dep.group_id.as_str(), props),
        artifact_id: interpolate(dep.artifact_id.as_str(), props),
        version: properties::interpolate_opt(&dep.version, props),
        dep_type: properties::interpolate_opt(&dep.dep_type, props),
        scope: properties::interpolate_opt(&dep.scope, props),
        classifier: properties::interpolate_opt(&dep.classifier, props),
        optional: properties::interpolate_opt(&dep.optional, props),
        exclusions: interpolate_exclusions(&dep.exclusions, props),
    };
    assert(r@.exclusions =~= interpolated_dependency(dep@, props@).exclusions);
    r
}

fn interpolate_parent(parent: &Option<Parent>, props: &PropertyMap) -> (r: Option<Parent>)
    ensures
        text::opt_view(r) == (match text::opt_view(*parent) {
            Some(p) => Some(interpolated_parent(p, props@)),
            None => None,
        }),
{
    match parent {
        Some(p) => Some(
            Parent {
                group_id: interpolate(p.group_id.as_str(), props),
                artifact_id: interpolate(p.artifact_id.as_str(), props),
                version: interpolate(p.version.as_str(), props),
                relative_path: properties::interpolate_opt(&p.relative_path, props),
            },
        ),
        None => None,
    }
}

fn interpolate_repositories(list: &Repositories, props: &PropertyMap) -> (r: Repositories)
    ensures
        r@ == Seq::new(list@.len(), |i: int| interpolated_repository(list@[i], props@)),
{
    let mut repository: Vec<PomRepository> = Vec::new();
    for i in 0..list.repository.len()
        invariant
            repository@.len() == i,
            forall|j: int|
                0 <= j < i ==> (#[trigger] repository@[j])@ == interpolated_repository(
                    list@[j],
                    props@,
                ),
    {
        let e = &list.repository[i];
        repository.push(
            PomRepository {
                id: properties::interpolate_opt(&e.id, props),
                url: interpolate(e.url.as_str(), props),
                name: properties::interpolate_opt(&e.name, props),
                layout: properties::interpolate_opt(&e.layout, props),
            },
        );
    }
    let r = Repositories { repository };
    assert(r@ =~= Seq::new(list@.len(), |i: int| interpolated_repository(list@[i], props@)));
    r
}

fn interpolate_distribution(
    section: &Option<DistributionManagement>,
    props: &PropertyMap,
) -> (r: Option<DistributionManagement>)
    ensures
        text::opt_view(r) == (match text::opt_view(*section) {
            Some(Some(m)) => Some(Some(interpolated_relocation(m, props@))),
            other => other,
        }),
{
    match section {
        Some(dm) => {
            let relocation = match &dm.relocation {
                Some(m) => Some(
                    Relocation {
                        group_id: properties::interpolate_opt(&m.group_id, props),
                        artifact_id: properties::interpolate_opt(&m.artifact_id, props),
                        version: properties::interpolate_opt(&m.version, props),
                        message: properties::interpolate_opt(&m.message, props),
                    },
                ),
                None => None,
            };
            Some(DistributionManagement { relocation })
        },
        None => None,
    }
}

fn interpolate_deps(deps: &Dependencies, props: &PropertyMap) -> (r: Dependencies)
    ensures
        r@ == interpolated_dependencies(deps@, props@),
{
    let mut dependency: Vec<PomDependency> = Vec::new();
    for i in 0..deps.dependency.len()
        invariant
            dependency@.len() == i,
            forall|j: int|
                0 <= j < i ==> dependency@[j]@ == interpolated_dependency(
                    deps.dependency@[j]@,
                    props@,
                ),
    {
        dependency.push(interpolate_dep(&deps.dependency[i], props));
    }
    let r = Dependencies { dependency };
    assert(r@ =~= interpolated_dependencies(deps@, props@));
    r
}

/// Replaces the placeholders in all text fields of a POM.
///
/// `project.groupId`, `project.artifactId`, `project.version` and `project.packaging` come from
/// the POM itself, `env.*` and a few built-in names from the environment.
pub fn interpolate_pom(pom: &mut Pom, env: &Environment)
    ensures
        final(pom)@ == interpolated_pom(old(pom)@, env@),
{
    let mut props = pom.properties.entries.clone();
    add_project_properties(&mut props, pom);
    add_environment_properties(&mut props, env);
    props.settle();
    pom.model_version = properties::interpolate_opt(&pom.model_version, &props);
    pom.group_id = properties::interpolate_opt(&pom.group_id, &props);
    pom.artifact_id = properties::interpolate_opt(&pom.artifact_id, &props);
    pom.version = properties::interpolate_opt(&pom.version, &props);
    pom.packaging = properties::interpolate_opt(&pom.packaging, &props);
    pom.name = properties::interpolate_opt(&pom.name, &props);
    pom.description = properties::interpolate_opt(&pom.description, &props);
    pom.url = properties::interpolate_opt(&pom.url, &props);
    pom.parent = interpolate_parent(&pom.parent, &props);
    pom.repositories = interpolate_repositories(&pom.repositories, &props);
    pom.distribution_management = interpolate_distribution(&pom.distribution_management, &props);
    pom.dependencies = interpolate_deps(&pom.dependencies, &props);
    let managed = match &pom.dependency_management {
        Some(dm) => Some(
            DependencyManagement { dependencies: interpolate_deps(&dm.dependencies, &props) },
        ),
        None => None,
    };
    pom.dependency_management = managed;
    pom.properties = Properties { entries: props };
}

// ============================================================================
// Inheritance
// ============================================================================

/// The type of a dependency, `jar` where it names none.
pub open spec fn type_of(d: DependencyModel) -> Seq<char> {
    match d.dep_type {
        Some(t) => t,
        None => "jar"@,
    }
}

/// What a dependency is managed by: its group, its artifact and its type.
pub open spec fn has_key(
    d: DependencyModel,
    group_id: Seq<char>,
    artifact_id: Seq<char>,
    dep_type: Seq<char>,
) -> bool {
    d.group_id == group_id && d.artifact_id == artifact_id && type_of(d) == dep_type
}

/// Whether a list holds a dependency on an artifact of a group in a type.
pub open spec fn declares(
    ds: Seq<DependencyModel>,
    group_id: Seq<char>,
    artifact_id: Seq<char>,
    dep_type: Seq<char>,
) -> bool {
    exists|i: int|
        0 <= i < ds.len() && has_key(#[trigger] ds[i], group_id, artifact_id, dep_type)
}

/// The dependencies of `parent`, from position `i` on, that `child` does not declare.
pub open spec fn undeclared_from(
    child: Seq<DependencyModel>,
    parent: Seq<DependencyModel>,
    i: int,
) -> Seq<DependencyModel>
    decreases parent.len() - i,
{
    if i >= parent.len() {
        Seq::empty()
    } else if declares(
        child,
        parent[i].group_id,
        parent[i].artifact_id,
        type_of(parent[i]),
    ) {
        undeclared_from(child, parent, i + 1)
    } else {
        seq![parent[i]] + undeclared_from(child, parent, i + 1)
    }
}

/// Managed dependencies of a child and its parent; the child's take priority.
pub open spec fn merged_management(
    child: Option<Seq<DependencyModel>>,
    parent: Option<Seq<DependencyModel>>,
) -> Option<Seq<DependencyModel>> {
    match parent {
        None => child,
        Some(p) => {
            let own = match child {
                Some(c) => c,
                None => Seq::empty(),
            };
            Some(own + undeclared_from(own, p, 0))
        },
    }
}

/// A POM with what it inherits from its parent.
pub open spec fn inherited(child: PomModel, parent: PomModel) -> PomModel {
    PomModel {
        group_id: if child.group_id is Some {
            child.group_id
        } else {
            parent.group_id
        },
        version: if child.version is Some {
            child.version
        } else {
            parent.version
        },
        properties: properties::set_all(parent.properties, child.properties),
        dependency_management: merged_management(
            child.dependency_management,
            parent.dependency_management,
        ),
        repositories: child.repositories + parent.repositories,
        ..child
    }
}

impl PomDependency {
    /// The type, `jar` by default.
    pub fn effective_type(&self) -> (r: &str)
        ensures
            r@ == type_of(self@),
    {
        match &self.dep_type {
            Some(t) => t.as_str(),
            None => "jar",
        }
    }

    fn is_managed_by(&self, group_id: &str, artifact_id: &str, dep_type: &str) -> (r: bool)
        ensures
            r == has_key(self@, group_id@, artifact_id@, dep_type@),
    {
        text::str_eq(self.group_id.as_str(), group_id) && text::str_eq(
            self.artifact_id.as_str(),
            artifact_id,
        ) && text::str_eq(self.effective_type(), dep_type)
    }
}

/// Whether a list holds a dependency on an artifact of a group in a type.
pub fn is_declared(
    deps: &Vec<PomDependency>,
    group_id: &str,
    artifact_id: &str,
    dep_type: &str,
) -> (r: bool)
    ensures
        r == declares(text::views(deps@), group_id@, artifact_id@, dep_type@),
{
    let ghost m = text::views(deps@);
    for i in 0..deps.len()
        invariant
            m == text::views(deps@),
            forall|j: int|
                0 <= j < i ==> !has_key(#[trigger] m[j], group_id@, artifact_id@, dep_type@),
    {
        if deps[i].is_managed_by(group_id, artifact_id, dep_type) {
            assert(has_key(m[i as int], group_id@, artifact_id@, dep_type@));
            return true;
        }
    }
    false
}

fn merge_management(
    child: Option<DependencyManagement>,
    parent: &Option<DependencyManagement>,
) -> (r: Option<DependencyManagement>)
    ensures
        text::opt_view(r) == merged_management(text::opt_view(child), text::opt_view(*parent)),
{
    match parent {
        None => child,
        Some(parent_dm) => {
            let mut own = match child {
                Some(dm) => dm.dependencies.dependency,
                None => Vec::new(),
            };
            let ghost own0 = text::views(own@);
            proof {
                if child is None {
                    assert(own0 =~= Seq::empty());
                }
            }
            let ghost p = parent_dm@;
            let mut extra: Vec<PomDependency> = Vec::new();
            let parents = &parent_dm.dependencies.dependency;
            assert(text::views(extra@) + undeclared_from(own0, p, 0) =~= undeclared_from(
                own0,
                p,
                0,
            ));
            for i in 0..parents.len()
                invariant
                    own0 == text::views(own@),
                    p == text::views(parents@),
                    text::views(extra@) + undeclared_from(own0, p, i as int) == undeclared_from(
                        own0,
                        p,
                        0,
                    ),
            {
                let ghost before = text::views(extra@);
                let d = &parents[i];
                if !is_declared(
                    &own,
                    d.group_id.as_str(),
                    d.artifact_id.as_str(),
                    d.effective_type(),
                ) {
                    extra.push(d.clone());
                    assert(text::views(extra@) =~= before.push(p[i as int]));
                    assert(before + (seq![p[i as int]] + undeclared_from(own0, p, i + 1))
                        =~= text::views(extra@) + undeclared_from(own0, p, i + 1));
                }
            }
            assert(text::views(extra@) =~= undeclared_from(own0, p, 0));
            let ghost e = extra@;
            let ghost o = own@;
            own.append(&mut extra);
            assert(text::views(own@) =~= text::views(o) + text::views(e));
            Some(DependencyManagement { dependencies: Dependencies { dependency: own } })
        },
    }
}

/// Gives a POM what it inherits from its parent.
///
/// The parent's values are defaults: the child's take priority.
/// Dependencies are not inherited, only dependency management is.
pub fn merge_parent(child: &mut Pom, parent: &Pom)
    ensures
        final(child)@ == inherited(old(child)@, parent@),
        forall|key: Seq<char>| #[trigger]
            properties::lookup(final(child)@.properties, key) == (match properties::lookup(
                old(child)@.properties,
                key,
            ) {
                Some(value) => Some(value),
                None => properties::lookup(parent@.properties, key),
            }),
{
    let ghost own = child.properties@;
    proof {
        use_type_invariant(&child.properties.entries);
        assert forall|key: Seq<char>| #[trigger]
            properties::lookup(properties::set_all(parent@.properties, own), key) == (
            match properties::lookup(own, key) {
                Some(value) => Some(value),
                None => properties::lookup(parent@.properties, key),
            }) by {
            crate::laws::pom::later_properties_win(parent@.properties, own, key);
        }
    }
    if child.group_id.is_none() {
        child.group_id = text::clone_opt(&parent.group_id);
    }
    if child.version.is_none() {
        child.version = text::clone_opt(&parent.version);
    }
    let mut merged = parent.properties.entries.clone();
    merged.insert_all(&child.properties.entries);
    child.properties = Properties { entries: merged };
    let managed = child.dependency_management.take();
    child.dependency_management = merge_management(managed, &parent.dependency_management);
    let mut more = parent.repositories.clone();
    let ghost own = child.repositories.repository@;
    let ghost add = more.repository@;
    child.repositories.repository.append(&mut more.repository);
    assert(text::views(child.repositories.repository@) =~= text::views(own) + text::views(add));
}

// ============================================================================
// Dependency management
// ============================================================================

/// The managed dependency on an artifact of a group in a type: the last one that is declared.
pub open spec fn managed_entry(
    ds: Seq<DependencyModel>,
    group_id: Seq<char>,
    artifact_id: Seq<char>,
    dep_type: Seq<char>,
) -> Option<DependencyModel>
    decreases ds.len(),
{
    if ds.len() == 0 {
        None
    } else if has_key(ds.last(), group_id, artifact_id, dep_type) {
        Some(ds.last())
    } else {
        managed_entry(ds.drop_last(), group_id, artifact_id, dep_type)
    }
}

/// `own` with those of `more`, from position `i` on, that are not in it.
pub open spec fn exclusions_with(
    own: Seq<(Seq<char>, Seq<char>)>,
    more: Seq<(Seq<char>, Seq<char>)>,
    i: int,
) -> Seq<(Seq<char>, Seq<char>)>
    decreases more.len() - i,
{
    if i >= more.len() {
        own
    } else if own.contains(more[i]) {
        exclusions_with(own, more, i + 1)
    } else {
        exclusions_with(own.push(more[i]), more, i + 1)
    }
}

/// A dependency with the version, the scope and the exclusions that management adds to it.
pub open spec fn managed_by(d: DependencyModel, m: DependencyModel) -> DependencyModel {
    DependencyModel {
        version: if d.version is Some {
            d.version
        } else {
            m.version
        },
        scope: if d.scope is Some {
            d.scope
        } else {
            m.scope
        },
        exclusions: exclusions_with(d.exclusions, m.exclusions, 0),
        ..d
    }
}

/// A dependency under a dependency management.
pub open spec fn under_management(
    d: DependencyModel,
    managed: Seq<DependencyModel>,
) -> DependencyModel {
    match managed_entry(managed, d.group_id, d.artifact_id, type_of(d)) {
        Some(m) => managed_by(d, m),
        None => d,
    }
}

/// A POM whose dependencies have what its dependency management adds to them.
pub open spec fn injected(pom: PomModel) -> PomModel {
    match pom.dependency_management {
        None => pom,
        Some(managed) => PomModel {
            dependencies: Seq::new(
                pom.dependencies.len(),
                |i: int| under_management(pom.dependencies[i], managed),
            ),
            ..pom
        },
    }
}

/// The position of the last dependency on an artifact of a group in a type.
pub fn find_managed(
    deps: &Vec<PomDependency>,
    group_id: &str,
    artifact_id: &str,
    dep_type: &str,
) -> (r: Option<usize>)
    ensures
        match r {
            Some(i) => i < deps@.len() && managed_entry(
                text::views(deps@),
                group_id@,
                artifact_id@,
                dep_type@,
            ) == Some(deps@[i as int]@),
            None => managed_entry(text::views(deps@), group_id@, artifact_id@, dep_type@) is None,
        },
{
    let ghost m = text::views(deps@);
    let mut i: usize = deps.len();
    assert(m.take(m.len() as int) =~= m);
    while i > 0
        invariant
            i <= deps@.len(),
            m == text::views(deps@),
            managed_entry(m, group_id@, artifact_id@, dep_type@) == managed_entry(
                m.take(i as int),
                group_id@,
                artifact_id@,
                dep_type@,
            ),
        decreases i,
    {
        i -= 1;
        assert(m.take(i + 1).last() == m[i as int]);
        assert(m.take(i + 1).drop_last() =~= m.take(i as int));
        if deps[i].is_managed_by(group_id, artifact_id, dep_type) {
            return Some(i);
        }
    }
    None
}

fn has_exclusion(list: &Vec<PomExclusion>, e: &PomExclusion) -> (r: bool)
    ensures
        r == text::views(list@).contains(e@),
{
    let ghost m = text::views(list@);
    for i in 0..list.len()
        invariant
            m == text::views(list@),
            forall|j: int| 0 <= j < i ==> m[j] != e@,
    {
        if list[i].group_id == e.group_id && list[i].artifact_id == e.artifact_id {
            assert(m[i as int] == e@);
            return true;
        }
    }
    false
}

pub(crate) fn add_exclusions(own: &Exclusions, more: &Exclusions) -> (r: Exclusions)
    ensures
        r@ == exclusions_with(own@, more@, 0),
{
    let copy = own.clone();
    let mut exclusion = copy.exclusion;
    for i in 0..more.exclusion.len()
        invariant
            exclusions_with(own@, more@, 0) == exclusions_with(
                text::views(exclusion@),
                more@,
                i as int,
            ),
    {
        let ghost before = exclusion@;
        if !has_exclusion(&exclusion, &more.exclusion[i]) {
            exclusion.push(more.exclusion[i].clone());
            assert(text::views(exclusion@) =~= text::views(before).push(more@[i as int]));
        }
    }
    Exclusions { exclusion }
}

fn apply_management(dep: &PomDependency, managed: &Vec<PomDependency>) -> (r: PomDependency)
    ensures
        r@ == under_management(dep@, text::views(managed@)),
{
    let mut out = dep.clone();
    if let Some(i) = find_managed(
        managed,
        dep.group_id.as_str(),
        dep.artifact_id.as_str(),
        dep.effective_type(),
    ) {
        let m = &managed[i];
        if out.version.is_none() {
            out.version = text::clone_opt(&m.version);
        }
        if out.scope.is_none() {
            out.scope = text::clone_opt(&m.scope);
        }
        out.exclusions = add_exclusions(&dep.exclusions, &m.exclusions);
    }
    out
}

/// Gives the dependencies of a POM the versions, scopes and exclusions of its dependency
/// management.
pub fn inject_dependency_management(pom: &mut Pom)
    ensures
        final(pom)@ == injected(old(pom)@),
{
    if let Some(dm) = &pom.dependency_management {
        let managed = &dm.dependencies.dependency;
        let mut dependency: Vec<PomDependency> = Vec::new();
        let ghost before = pom@;
        for i in 0..pom.dependencies.dependency.len()
            invariant
                dependency@.len() == i,
                forall|j: int|
                    0 <= j < i ==> dependency@[j]@ == under_management(
                        pom.dependencies.dependency@[j]@,
                        text::views(managed@),
                    ),
        {
            dependency.push(apply_management(&pom.dependencies.dependency[i], managed));
        }
        pom.dependencies = Dependencies { dependency };
        assert(pom@.dependencies =~= injected(before).dependencies);
    }
}

} // verus!
