//! The effective model of a POM: parent chain, interpolation, BOM imports and dependency
//! management, from the POMs that were fetched so far.
use crate::coord;
use crate::coord::ArtifactCoord;
use crate::coord::CoordModel;
use crate::coord::Exclusion;
use crate::coord::ExclusionModel;
use crate::known;
use crate::known::Fetched;
use crate::known::Known;
use crate::pom;
use crate::pom::Dependencies;
use crate::pom::DependencyManagement;
use crate::pom::DependencyModel;
use crate::pom::Environment;
use crate::pom::EnvironmentModel;
use crate::pom::Pom;
use crate::pom::PomDependency;
use crate::pom::PomExclusion;
use crate::pom::PomModel;
use crate::properties::Entries;
use crate::properties::PropertyMap;
use crate::text;
use vstd::prelude::*;

verus! {

/// The longest chain of parents that is followed.
pub const MAX_PARENT_DEPTH: usize = 20;

/// The fetched POMs.
pub type KnownPoms = Seq<(Seq<char>, Fetched<PomModel>)>;

/// The name under which a POM is known.
pub open spec fn pom_key(g: Seq<char>, a: Seq<char>, v: Seq<char>) -> Seq<char> {
    g + ":"@ + a + ":"@ + v
}

/// The name under which the POM of coordinates is known.
pub open spec fn coord_key(c: CoordModel) -> Seq<char> {
    pom_key(c.group_id, c.artifact_id, c.version)
}

/// The name under which a POM is known.
pub fn key_of(group_id: &str, artifact_id: &str, version: &str) -> (r: String)
    ensures
        r@ == pom_key(group_id@, artifact_id@, version@),
{
    let mut out = group_id.to_owned();
    out.append(":");
    out.append(artifact_id);
    out.append(":");
    out.append(version);
    out
}

/// A POM whose effective model is needed, how many parents and imports led to it, and the names
/// of the POMs that it is needed for, its own last.
#[derive(Debug)]
pub struct PomRequest {
    pub coord: ArtifactCoord,
    pub depth: usize,
    pub chain: Vec<String>,
}

/// A needed POM over texts.
#[verifier::ext_equal]
pub struct PomRequestModel {
    pub coord: CoordModel,
    pub depth: usize,
    pub chain: Seq<Seq<char>>,
}

impl View for PomRequest {
    type V = PomRequestModel;

    open spec fn view(&self) -> PomRequestModel {
        PomRequestModel {
            coord: self.coord@,
            depth: self.depth,
            chain: text::views(self.chain@),
        }
    }
}

/// The name of a needed POM.
pub open spec fn request_key(r: PomRequestModel) -> Seq<char> {
    coord_key(r.coord)
}

/// The depth of what a POM at `depth` needs. It only counts up to the limit.
pub open spec fn deeper(depth: usize) -> usize {
    if depth < MAX_PARENT_DEPTH {
        (depth + 1) as usize
    } else {
        depth
    }
}

fn next_depth(depth: usize) -> (r: usize)
    ensures
        r == deeper(depth),
{
    if depth < MAX_PARENT_DEPTH {
        depth + 1
    } else {
        depth
    }
}

/// The names outside a chain.
pub open spec fn outside(chain: Seq<Seq<char>>) -> spec_fn(Seq<char>) -> bool {
    |k: Seq<char>| !chain.contains(k)
}

/// How many parents may still follow.
pub open spec fn parents_left(depth: usize) -> nat {
    if depth < MAX_PARENT_DEPTH {
        (MAX_PARENT_DEPTH - depth) as nat
    } else {
        0
    }
}

// ============================================================================
// Parent
// ============================================================================

/// The placeholder for a name.
pub open spec fn placeholder(key: Seq<char>) -> Seq<char> {
    "${"@ + key + "}"@
}

/// `s` with the placeholders of the entries from position `i` on replaced in turn.
pub open spec fn with_values(s: Seq<char>, props: Entries, i: int) -> Seq<char>
    decreases props.len() - i,
{
    if i >= props.len() {
        s
    } else {
        with_values(text::replace_text(s, placeholder(props[i].0), props[i].1), props, i + 1)
    }
}

/// Whether a version can be looked up: it is there and holds no placeholder.
pub open spec fn is_usable(v: Seq<char>) -> bool {
    v.len() > 0 && !text::holds_text(v, "${"@)
}

/// The version of the parent, which may refer to the POM's own properties.
pub open spec fn parent_version(pom: PomModel) -> Option<Seq<char>> {
    match pom.parent {
        Some(p) => {
            let v = with_values(p.version, pom.properties, 0);
            if is_usable(v) {
                Some(v)
            } else {
                None
            }
        },
        None => None,
    }
}

/// The parent POM that is to be merged, if any.
pub open spec fn parent_request(pom: PomModel, depth: usize, chain: Seq<Seq<char>>) -> Option<
    PomRequestModel,
> {
    match (pom.parent, parent_version(pom)) {
        (Some(p), Some(v)) => if depth < MAX_PARENT_DEPTH {
            Some(
                PomRequestModel {
                    coord: coord::plain_coord(p.group_id, p.artifact_id, v, "jar"@),
                    depth: deeper(depth),
                    chain: chain.push(pom_key(p.group_id, p.artifact_id, v)),
                },
            )
        } else {
            None
        },
        _ => None,
    }
}

fn replace_all(s: &str, p: &str, v: &str) -> (r: String)
    requires
        p@.len() > 0,
    ensures
        r@ == text::replace_text(s@, p@, v@),
{
    let chars = text::chars_of(s);
    let pattern = text::chars_of(p);
    let mut out = String::new();
    let mut i: usize = 0;
    assert(chars@.skip(0) =~= chars@);
    assert(out@ + text::replace_text(chars@.skip(0), p@, v@) =~= text::replace_text(s@, p@, v@));
    loop
        invariant
            i <= chars@.len(),
            chars@ == s@,
            pattern@ == p@,
            p@.len() > 0,
            text::replace_text(s@, p@, v@) == out@ + text::replace_text(chars@.skip(i as int), p@, v@),
        decreases chars@.len() - i,
    {
        let ghost rest = chars@.skip(i as int);
        proof {
            text::lemma_find_text_skip(chars@, p@, i as int, i as int);
            text::lemma_find_text(rest, p@, 0);
        }
        match text::find_chars(&chars, &pattern, i) {
            None => {
                let tail = text::string_of(&chars, i, chars.len());
                assert(tail@ =~= rest);
                out.append(tail.as_str());
                return out;
            },
            Some(at) => {
                let head = text::string_of(&chars, i, at);
                let ghost before = out@;
                out.append(head.as_str());
                out.append(v);
                proof {
                    let k = at - i;
                    assert(head@ =~= rest.take(k));
                    assert(rest.skip(k + p@.len()) =~= chars@.skip(at + p@.len()));
                    assert(before + (rest.take(k) + v@ + text::replace_text(
                        rest.skip(k + p@.len()),
                        p@,
                        v@,
                    )) =~= out@ + text::replace_text(chars@.skip(at + p@.len()), p@, v@));
                }
                assert(at + pattern@.len() <= chars.len());
                i = at + pattern.len();
            },
        }
    }
}

/// A text with the placeholders of the given properties replaced in turn.
fn replace_values(s: &str, props: &PropertyMap) -> (r: String)
    ensures
        r@ == with_values(s@, props@, 0),
{
    let mut out = s.to_owned();
    let n: usize = props.len();
    for i in 0..n
        invariant
            n == props@.len(),
            with_values(s@, props@, 0) == with_values(out@, props@, i as int),
    {
        let e = props.entry(i);
        let mut p = "${".to_owned();
        proof {
            reveal_strlit("${");
        }
        p.append(e.key.as_str());
        p.append("}");
        out = replace_all(out.as_str(), p.as_str(), e.value.as_str());
    }
    out
}

/// Whether a version can be looked up.
pub fn version_is_usable(v: &str) -> (r: bool)
    ensures
        r == is_usable(v@),
{
    !v.is_empty() && !text::contains(v, "${")
}

fn push_string(list: &Vec<String>, s: &str) -> (r: Vec<String>)
    ensures
        text::views(r@) == text::views(list@).push(s@),
{
    let mut out = text::clone_strings(list);
    let ghost before = text::views(out@);
    out.push(s.to_owned());
    assert(text::views(out@) =~= before.push(s@));
    out
}

fn find_parent(pom: &Pom, depth: usize, chain: &Vec<String>) -> (r: Option<PomRequest>)
    ensures
        text::opt_view(r) == parent_request(pom@, depth, text::views(chain@)),
{
    match &pom.parent {
        Some(p) => {
            let v = replace_values(p.version.as_str(), &pom.properties.entries);
            if depth < MAX_PARENT_DEPTH && version_is_usable(v.as_str()) {
                let key = key_of(p.group_id.as_str(), p.artifact_id.as_str(), v.as_str());
                Some(
                    PomRequest {
                        coord: ArtifactCoord::new(
                            p.group_id.as_str(),
                            p.artifact_id.as_str(),
                            v.as_str(),
                        ),
                        depth: next_depth(depth),
                        chain: push_string(chain, key.as_str()),
                    },
                )
            } else {
                None
            }
        },
        None => None,
    }
}

// ============================================================================
// BOM imports
// ============================================================================

/// Whether a managed dependency is a BOM that is to be imported.
pub open spec fn is_import(d: DependencyModel) -> bool {
    d.scope == Some("import"@) && d.dep_type == Some("pom"@)
}

/// Those of `ds`, from position `i` on, that are imports, or that are not.
pub open spec fn imports_from(ds: Seq<DependencyModel>, i: int, imports: bool) -> Seq<
    DependencyModel,
>
    decreases ds.len() - i,
{
    if i >= ds.len() {
        Seq::empty()
    } else if is_import(ds[i]) == imports {
        seq![ds[i]] + imports_from(ds, i + 1, imports)
    } else {
        imports_from(ds, i + 1, imports)
    }
}

/// The name by which a POM is told from the BOMs it imports.
pub open spec fn pom_id(pom: PomModel) -> Seq<char> {
    let g = match pom.group_id {
        Some(g) => g,
        None => "?"@,
    };
    let a = match pom.artifact_id {
        Some(a) => a,
        None => "?"@,
    };
    let v = match pom.version {
        Some(v) => v,
        None => "?"@,
    };
    pom_key(g, a, v)
}

/// The name of the BOM that an import asks for; none where it names no version.
pub open spec fn import_key(d: DependencyModel) -> Option<Seq<char>> {
    match d.version {
        Some(v) => if v.len() > 0 {
            Some(pom_key(d.group_id, d.artifact_id, v))
        } else {
            None
        },
        None => None,
    }
}

/// Whether one of the exclusions matches an artifact of a group.
pub open spec fn excluded_by(
    exclusions: Seq<(Seq<char>, Seq<char>)>,
    group_id: Seq<char>,
    artifact_id: Seq<char>,
) -> bool {
    exists|i: int|
        0 <= i < exclusions.len() && coord::excludes(
            ExclusionModel {
                group_id: (#[trigger] exclusions[i]).0,
                artifact_id: exclusions[i].1,
            },
            group_id,
            artifact_id,
        )
}

/// Those of a BOM's managed dependencies, from position `i` on, that `own` does not declare and
/// the import does not exclude.
pub open spec fn admitted_from(
    own: Seq<DependencyModel>,
    bom: Seq<DependencyModel>,
    exclusions: Seq<(Seq<char>, Seq<char>)>,
    i: int,
) -> Seq<DependencyModel>
    decreases bom.len() - i,
{
    if i >= bom.len() {
        Seq::empty()
    } else if pom::declares(
        own,
        bom[i].group_id,
        bom[i].artifact_id,
        pom::type_of(bom[i]),
    ) || excluded_by(
        exclusions,
        bom[i].group_id,
        bom[i].artifact_id,
    ) {
        admitted_from(own, bom, exclusions, i + 1)
    } else {
        seq![bom[i]] + admitted_from(own, bom, exclusions, i + 1)
    }
}

/// Managed dependencies with what a BOM adds to them.
pub open spec fn with_bom(
    own: Seq<DependencyModel>,
    import: DependencyModel,
    bom: PomModel,
) -> Seq<DependencyModel> {
    match bom.dependency_management {
        Some(ds) => own + admitted_from(own, ds, import.exclusions, 0),
        None => own,
    }
}

fn opt_is(o: &Option<String>, s: &str) -> (r: bool)
    ensures
        r == (text::opt_view(*o) == Some(s@)),
{
    match o {
        Some(t) => text::str_eq(t.as_str(), s),
        None => false,
    }
}

fn is_bom_import(d: &PomDependency) -> (r: bool)
    ensures
        r == is_import(d@),
{
    opt_is(&d.scope, "import") && opt_is(&d.dep_type, "pom")
}

fn select_imports(deps: &Vec<PomDependency>, imports: bool) -> (r: Vec<PomDependency>)
    ensures
        text::views(r@) == imports_from(text::views(deps@), 0, imports),
{
    let mut out: Vec<PomDependency> = Vec::new();
    let ghost m = text::views(deps@);
    assert(text::views(out@) + imports_from(m, 0, imports) =~= imports_from(m, 0, imports));
    for i in 0..deps.len()
        invariant
            m == text::views(deps@),
            text::views(out@) + imports_from(m, i as int, imports) == imports_from(m, 0, imports),
    {
        if is_bom_import(&deps[i]) == imports {
            let ghost before = text::views(out@);
            out.push(deps[i].clone());
            assert(text::views(out@) =~= before.push(m[i as int]));
            assert(before + (seq![m[i as int]] + imports_from(m, i + 1, imports)) =~= text::views(
                out@,
            ) + imports_from(m, i + 1, imports));
        }
    }
    assert(text::views(out@) =~= imports_from(m, 0, imports));
    out
}

fn or_unknown(o: &Option<String>) -> (r: String)
    ensures
        r@ == (match text::opt_view(*o) {
            Some(s) => s,
            None => "?"@,
        }),
{
    match o {
        Some(s) => s.clone(),
        None => "?".to_owned(),
    }
}

fn identity(pom: &Pom) -> (r: String)
    ensures
        r@ == pom_id(pom@),
{
    let g = or_unknown(&pom.group_id);
    let a = or_unknown(&pom.artifact_id);
    let v = or_unknown(&pom.version);
    key_of(g.as_str(), a.as_str(), v.as_str())
}

fn bom_key(d: &PomDependency) -> (r: Option<String>)
    ensures
        text::opt_view(r) == import_key(d@),
{
    match &d.version {
        Some(v) => if v.as_str().is_empty() {
            None
        } else {
            Some(key_of(d.group_id.as_str(), d.artifact_id.as_str(), v.as_str()))
        },
        None => None,
    }
}

fn is_excluded(exclusions: &Vec<PomExclusion>, group_id: &str, artifact_id: &str) -> (r: bool)
    ensures
        r == excluded_by(text::views(exclusions@), group_id@, artifact_id@),
{
    let ghost m = text::views(exclusions@);
    let target = ArtifactCoord::new(group_id, artifact_id, "");
    for i in 0..exclusions.len()
        invariant
            m == text::views(exclusions@),
            target@.group_id == group_id@,
            target@.artifact_id == artifact_id@,
            forall|j: int|
                0 <= j < i ==> !coord::excludes(
                    ExclusionModel { group_id: (#[trigger] m[j]).0, artifact_id: m[j].1 },
                    group_id@,
                    artifact_id@,
                ),
    {
        let e = Exclusion::new(
            exclusions[i].group_id.as_str(),
            exclusions[i].artifact_id.as_str(),
        );
        if e.matches(&target) {
            assert(m[i as int] == exclusions@[i as int]@);
            return true;
        }
    }
    false
}

fn add_bom(own: Vec<PomDependency>, import: &PomDependency, bom: &Pom) -> (r: Vec<PomDependency>)
    ensures
        text::views(r@) == with_bom(text::views(own@), import@, bom@),
{
    let mut own = own;
    match &bom.dependency_management {
        None => own,
        Some(dm) => {
            let deps = &dm.dependencies.dependency;
            let ghost own0 = text::views(own@);
            let ghost m = text::views(deps@);
            let ghost ex = import@.exclusions;
            let mut extra: Vec<PomDependency> = Vec::new();
            assert(text::views(extra@) + admitted_from(own0, m, ex, 0) =~= admitted_from(
                own0,
                m,
                ex,
                0,
            ));
            for i in 0..deps.len()
                invariant
                    m == text::views(deps@),
                    own0 == text::views(own@),
                    ex == import@.exclusions,
                    text::views(extra@) + admitted_from(own0, m, ex, i as int) == admitted_from(
                        own0,
                        m,
                        ex,
                        0,
                    ),
            {
                let d = &deps[i];
                let taken = pom::is_declared(
                    &own,
                    d.group_id.as_str(),
                    d.artifact_id.as_str(),
                    d.effective_type(),
                );
                let excluded = is_excluded(
                    &import.exclusions.exclusion,
                    d.group_id.as_str(),
                    d.artifact_id.as_str(),
                );
                if !taken && !excluded {
                    let ghost before = text::views(extra@);
                    extra.push(d.clone());
                    assert(text::views(extra@) =~= before.push(m[i as int]));
                    assert(before + (seq![m[i as int]] + admitted_from(own0, m, ex, i + 1))
                        =~= text::views(extra@) + admitted_from(own0, m, ex, i + 1));
                }
            }
            assert(text::views(extra@) =~= admitted_from(own0, m, ex, 0));
            let ghost o = own@;
            let ghost e = extra@;
            own.append(&mut extra);
            assert(text::views(own@) =~= text::views(o) + text::views(e));
            own
        },
    }
}

// ============================================================================
// The effective model
// ============================================================================

/// The BOM that an import asks for, needed for the POMs in `path`, of which the last one is at
/// `depth`.
pub open spec fn import_request(
    d: DependencyModel,
    id: Seq<char>,
    path: Seq<Seq<char>>,
    depth: usize,
) -> PomRequestModel {
    PomRequestModel {
        coord: coord::plain_coord(d.group_id, d.artifact_id, d.version->0, "jar"@),
        depth: deeper(depth),
        chain: path.push(id),
    }
}

/// The effective model of the POM that is known under `key`, needed at `depth` for the POMs in
/// `chain`: nothing where a POM that it takes was not fetched yet.
pub open spec fn model_at(
    key: Seq<char>,
    depth: usize,
    chain: Seq<Seq<char>>,
    env: EnvironmentModel,
    raw: KnownPoms,
) -> Option<Fetched<PomModel>>
    decreases known::count_keys(raw, outside(chain), 0), parents_left(depth), 3nat, 0int,
{
    match known::outcome(raw, key) {
        None => None,
        Some(Fetched::Failed) => Some(Fetched::Failed),
        Some(Fetched::Found(pom)) => match prepared(pom, depth, chain, env, raw) {
            None => None,
            Some(model) => Some(Fetched::Found(model)),
        },
    }
}

/// The effective model of a needed POM.
pub open spec fn model_of(r: PomRequestModel, env: EnvironmentModel, raw: KnownPoms) -> Option<
    Fetched<PomModel>,
> {
    model_at(request_key(r), r.depth, r.chain, env, raw)
}

/// The effective model of a POM; nothing where a POM that it takes was not fetched yet. The
/// parent is merged first, so that its properties are there for the interpolation; the imported
/// entries are interpolated before they are injected.
pub open spec fn prepared(
    pom: PomModel,
    depth: usize,
    chain: Seq<Seq<char>>,
    env: EnvironmentModel,
    raw: KnownPoms,
) -> Option<PomModel>
    decreases known::count_keys(raw, outside(chain), 0), parents_left(depth), 2nat, 0int,
{
    match with_parent(pom, depth, chain, env, raw) {
        None => None,
        Some(merged) => match with_imports(
            pom::interpolated_pom(merged, env),
            depth,
            chain,
            env,
            raw,
        ) {
            None => None,
            Some(complete) => Some(pom::injected(pom::interpolated_pom(complete, env))),
        },
    }
}

/// The POM with what it inherits; nothing where the parent has no effective model yet. A POM
/// whose parent cannot be had stays as it is.
pub open spec fn with_parent(
    pom: PomModel,
    depth: usize,
    chain: Seq<Seq<char>>,
    env: EnvironmentModel,
    raw: KnownPoms,
) -> Option<PomModel>
    decreases known::count_keys(raw, outside(chain), 0), parents_left(depth), 1nat, 0int,
{
    match parent_request(pom, depth, chain) {
        None => Some(pom),
        Some(r) => {
            proof {
                lemma_longer_chain(raw, chain, request_key(r));
            }
            match model_at(request_key(r), r.depth, r.chain, env, raw) {
                None => None,
                Some(Fetched::Failed) => Some(pom),
                Some(Fetched::Found(parent)) => Some(pom::inherited(pom, parent)),
            }
        },
    }
}

/// The POM with the managed dependencies of the BOMs it imports in place of the imports.
pub open spec fn with_imports(
    pom: PomModel,
    depth: usize,
    chain: Seq<Seq<char>>,
    env: EnvironmentModel,
    raw: KnownPoms,
) -> Option<PomModel>
    decreases known::count_keys(raw, outside(chain), 0), parents_left(depth), 1nat, 0int,
{
    match pom.dependency_management {
        None => Some(pom),
        Some(ds) => {
            proof {
                lemma_longer_chain(raw, chain, pom_id(pom));
            }
            match imported_from(
                imports_from(ds, 0, false),
                imports_from(ds, 0, true),
                0,
                Seq::empty(),
                chain.push(pom_id(pom)),
                depth,
                env,
                raw,
            ) {
                None => None,
                Some(own) => Some(PomModel { dependency_management: Some(own), ..pom }),
            }
        },
    }
}

/// Managed dependencies with what the imports from position `i` on add to them, in turn;
/// nothing where a BOM has no effective model yet. An import is passed over where it names no
/// version, where its BOM is one of those in `path`, which are being prepared (a circular
/// import), or in `seen` (a repeated one), and where its BOM cannot be had.
pub open spec fn imported_from(
    own: Seq<DependencyModel>,
    imports: Seq<DependencyModel>,
    i: int,
    seen: Seq<Seq<char>>,
    path: Seq<Seq<char>>,
    depth: usize,
    env: EnvironmentModel,
    raw: KnownPoms,
) -> Option<Seq<DependencyModel>>
    decreases
            known::count_keys(raw, outside(path), 0),
            parents_left(depth),
            0nat,
            imports.len() - i,
{
    if i >= imports.len() {
        Some(own)
    } else {
        match import_key(imports[i]) {
            None => imported_from(own, imports, i + 1, seen, path, depth, env, raw),
            Some(id) => if path.contains(id) || seen.contains(id) {
                imported_from(own, imports, i + 1, seen, path, depth, env, raw)
            } else if known::outcome(raw, id) is None {
                None
            } else {
                proof {
                    lemma_longer_chain(raw, path, id);
                }
                match model_at(id, deeper(depth), path.push(id), env, raw) {
                    None => None,
                    Some(Fetched::Failed) => imported_from(
                        own,
                        imports,
                        i + 1,
                        seen.push(id),
                        path,
                        depth,
                        env,
                        raw,
                    ),
                    Some(Fetched::Found(bom)) => imported_from(
                        with_bom(own, imports[i], bom),
                        imports,
                        i + 1,
                        seen.push(id),
                        path,
                        depth,
                        env,
                        raw,
                    ),
                }
            },
        }
    }
}

// ============================================================================
// What it waits for
// ============================================================================

/// The POMs that are to be fetched for the effective model of a needed POM: itself where it was
/// not fetched yet, otherwise those that its model waits for.
pub open spec fn missing_at(r: PomRequestModel, env: EnvironmentModel, raw: KnownPoms) -> Seq<
    CoordModel,
>
    decreases known::count_keys(raw, outside(r.chain), 0), parents_left(r.depth), 2nat, 0int,
{
    match known::outcome(raw, request_key(r)) {
        None => seq![r.coord],
        Some(Fetched::Failed) => Seq::empty(),
        Some(Fetched::Found(pom)) => missing_for(pom, r.depth, r.chain, env, raw),
    }
}

/// The POMs that are to be fetched for the effective model of a POM: those that its parent waits
/// for, and once it has one, those that all of its imports wait for.
pub open spec fn missing_for(
    pom: PomModel,
    depth: usize,
    chain: Seq<Seq<char>>,
    env: EnvironmentModel,
    raw: KnownPoms,
) -> Seq<CoordModel>
    decreases known::count_keys(raw, outside(chain), 0), parents_left(depth), 1nat, 0int,
{
    match with_parent(pom, depth, chain, env, raw) {
        None => match parent_request(pom, depth, chain) {
            None => Seq::empty(),
            Some(r) => {
                proof {
                    lemma_longer_chain(raw, chain, request_key(r));
                }
                missing_at(r, env, raw)
            },
        },
        Some(merged) => {
            let full = pom::interpolated_pom(merged, env);
            proof {
                lemma_longer_chain(raw, chain, pom_id(full));
            }
            missing_imports(
                management_imports(full),
                0,
                Seq::empty(),
                chain.push(pom_id(full)),
                depth,
                env,
                raw,
            )
        },
    }
}

/// The POMs that are to be fetched for the imports from position `i` on.
pub open spec fn missing_imports(
    imports: Seq<DependencyModel>,
    i: int,
    seen: Seq<Seq<char>>,
    path: Seq<Seq<char>>,
    depth: usize,
    env: EnvironmentModel,
    raw: KnownPoms,
) -> Seq<CoordModel>
    decreases
            known::count_keys(raw, outside(path), 0),
            parents_left(depth),
            0nat,
            imports.len() - i,
{
    if i >= imports.len() {
        Seq::empty()
    } else {
        match import_key(imports[i]) {
            None => missing_imports(imports, i + 1, seen, path, depth, env, raw),
            Some(id) => if path.contains(id) || seen.contains(id) {
                missing_imports(imports, i + 1, seen, path, depth, env, raw)
            } else {
                let r = import_request(imports[i], id, path, depth);
                let own = if known::outcome(raw, id) is None {
                    seq![r.coord]
                } else {
                    proof {
                        lemma_longer_chain(raw, path, id);
                    }
                    missing_at(r, env, raw)
                };
                own + missing_imports(imports, i + 1, seen.push(id), path, depth, env, raw)
            },
        }
    }
}

/// The imports among what a POM manages.
pub open spec fn management_imports(pom: PomModel) -> Seq<DependencyModel> {
    match pom.dependency_management {
        None => Seq::empty(),
        Some(ds) => imports_from(ds, 0, true),
    }
}

/// A longer chain leaves no more POMs outside, and fewer where it takes in a fetched one.
pub proof fn lemma_longer_chain(raw: KnownPoms, chain: Seq<Seq<char>>, key: Seq<char>)
    ensures
        known::count_keys(raw, outside(chain.push(key)), 0) <= known::count_keys(
            raw,
            outside(chain),
            0,
        ),
        !chain.contains(key) && known::outcome(raw, key) is Some ==> known::count_keys(
            raw,
            outside(chain.push(key)),
            0,
        ) < known::count_keys(raw, outside(chain), 0),
{
    let wide = outside(chain);
    let narrow = outside(chain.push(key));
    lemma_push_contains(chain, key);
    known::lemma_count_keys(raw, wide, narrow, 0);
    if !chain.contains(key) && known::outcome(raw, key) is Some {
        known::lemma_known_from(raw, key, 0);
        let j = known::known_from(raw, key, 0);
        assert(wide(raw[j].0) && !narrow(raw[j].0));
    }
}

proof fn lemma_push_contains(s: Seq<Seq<char>>, x: Seq<char>)
    ensures
        s.push(x).contains(x),
        forall|k: Seq<char>| #[trigger] s.contains(k) ==> s.push(x).contains(k),
        forall|k: Seq<char>| #[trigger] s.push(x).contains(k) ==> s.contains(k) || k == x,
{
    assert(s.push(x)[s.len() as int] == x);
    assert forall|k: Seq<char>| #[trigger] s.contains(k) implies s.push(x).contains(k) by {
        let i = choose|i: int| 0 <= i < s.len() && s[i] == k;
        assert(s.push(x)[i] == k);
    }
    assert forall|k: Seq<char>| #[trigger] s.push(x).contains(k) implies s.contains(k) || k
        == x by {
        let i = choose|i: int| 0 <= i < s.push(x).len() && s.push(x)[i] == k;
        if i < s.len() {
            assert(s[i] == k);
        }
    }
}


/// Whether none of the coordinates was fetched.
pub open spec fn unfetched(coords: Seq<CoordModel>, raw: KnownPoms) -> bool {
    forall|i: int|
        0 <= i < coords.len() ==> known::outcome(raw, coord_key(#[trigger] coords[i])) is None
}

/// Coordinates of two kinds were not fetched if those of each kind were not.
pub proof fn lemma_unfetched_add(a: Seq<CoordModel>, b: Seq<CoordModel>, raw: KnownPoms)
    requires
        unfetched(a, raw),
        unfetched(b, raw),
    ensures
        unfetched(a + b, raw),
{
    assert forall|i: int| 0 <= i < (a + b).len() implies known::outcome(
        raw,
        coord_key(#[trigger] (a + b)[i]),
    ) is None by {
        if i < a.len() {
            assert((a + b)[i] == a[i]);
        } else {
            assert((a + b)[i] == b[i - a.len()]);
        }
    }
}

/// A needed POM waits for others just where it has no effective model, and what it waits for was
/// not fetched.
pub proof fn lemma_missing_at(r: PomRequestModel, env: EnvironmentModel, raw: KnownPoms)
    ensures
        model_of(r, env, raw) is None <==> missing_at(r, env, raw).len() > 0,
        unfetched(missing_at(r, env, raw), raw),
    decreases known::count_keys(raw, outside(r.chain), 0), parents_left(r.depth), 2nat, 0int,
{
    match known::outcome(raw, request_key(r)) {
        None => {},
        Some(Fetched::Failed) => {},
        Some(Fetched::Found(pom)) => {
            lemma_missing_for(pom, r.depth, r.chain, env, raw);
        },
    }
}

/// A POM waits for others just where it has no effective model.
pub proof fn lemma_missing_for(
    pom: PomModel,
    depth: usize,
    chain: Seq<Seq<char>>,
    env: EnvironmentModel,
    raw: KnownPoms,
)
    ensures
        prepared(pom, depth, chain, env, raw) is None <==> missing_for(
            pom,
            depth,
            chain,
            env,
            raw,
        ).len() > 0,
        unfetched(missing_for(pom, depth, chain, env, raw), raw),
    decreases known::count_keys(raw, outside(chain), 0), parents_left(depth), 1nat, 0int,
{
    match parent_request(pom, depth, chain) {
        None => {},
        Some(r) => {
            lemma_longer_chain(raw, chain, request_key(r));
            lemma_missing_at(r, env, raw);
        },
    }
    if let Some(merged) = with_parent(pom, depth, chain, env, raw) {
        let full = pom::interpolated_pom(merged, env);
        lemma_longer_chain(raw, chain, pom_id(full));
        if let Some(ds) = full.dependency_management {
            lemma_missing_imports(
                imports_from(ds, 0, false),
                imports_from(ds, 0, true),
                0,
                Seq::empty(),
                chain.push(pom_id(full)),
                depth,
                env,
                raw,
            );
        }
    }
}

/// Imports wait for BOMs just where they cannot be carried out.
pub proof fn lemma_missing_imports(
    own: Seq<DependencyModel>,
    imports: Seq<DependencyModel>,
    i: int,
    seen: Seq<Seq<char>>,
    path: Seq<Seq<char>>,
    depth: usize,
    env: EnvironmentModel,
    raw: KnownPoms,
)
    ensures
        imported_from(own, imports, i, seen, path, depth, env, raw) is None <==> missing_imports(
            imports,
            i,
            seen,
            path,
            depth,
            env,
            raw,
        ).len() > 0,
        unfetched(missing_imports(imports, i, seen, path, depth, env, raw), raw),
    decreases
            known::count_keys(raw, outside(path), 0),
            parents_left(depth),
            0nat,
            imports.len() - i,
{
    if i < imports.len() {
        match import_key(imports[i]) {
            None => lemma_missing_imports(own, imports, i + 1, seen, path, depth, env, raw),
            Some(id) => if path.contains(id) || seen.contains(id) {
                lemma_missing_imports(own, imports, i + 1, seen, path, depth, env, raw);
            } else {
                let r = import_request(imports[i], id, path, depth);
                assert(request_key(r) == id);
                let first = if known::outcome(raw, id) is None {
                    seq![r.coord]
                } else {
                    missing_at(r, env, raw)
                };
                let more = seen.push(id);
                if known::outcome(raw, id) is Some {
                    lemma_longer_chain(raw, path, id);
                    lemma_missing_at(r, env, raw);
                }
                let grown = match model_of(r, env, raw) {
                    Some(Fetched::Found(bom)) => with_bom(own, imports[i], bom),
                    _ => own,
                };
                lemma_missing_imports(grown, imports, i + 1, more, path, depth, env, raw);
                let rest = missing_imports(imports, i + 1, more, path, depth, env, raw);
                lemma_unfetched_add(first, rest, raw);
                assert(missing_imports(imports, i, seen, path, depth, env, raw) == first + rest);
            },
        }
    }
}

// ============================================================================
// Preparation
// ============================================================================

/// What came of asking for an effective model: the model, or the POMs that are to be fetched
/// for it.
#[derive(Debug)]
pub enum Effective {
    Known(Fetched<Pom>),
    Needs(Vec<ArtifactCoord>),
}

/// What came of preparing a POM.
#[derive(Debug)]
pub enum Preparation {
    Ready(Pom),
    Needs(Vec<ArtifactCoord>),
}

/// What came of importing the BOMs of a POM.
#[derive(Debug)]
pub enum Imports {
    Done(Pom),
    Needs(Vec<ArtifactCoord>),
}

/// The effective model of a needed POM, or the coordinates of the POMs that are to be fetched for
/// it.
pub fn resolve_effective_pom(request: &PomRequest, env: &Environment, raw: &Known<Pom>) -> (r:
    Effective)
    ensures
        match r {
            Effective::Known(f) => model_of(request@, env@, raw@) == Some(f@),
            Effective::Needs(coords) => {
                &&& model_of(request@, env@, raw@) is None
                &&& coords@.len() > 0
                &&& text::views(coords@) == missing_at(request@, env@, raw@)
            },
        },
    decreases
            known::count_keys(raw@, outside(request@.chain), 0),
            parents_left(request.depth),
            3nat,
{
    let key = key_of(
        request.coord.group_id.as_str(),
        request.coord.artifact_id.as_str(),
        request.coord.version.as_str(),
    );
    proof {
        lemma_missing_at(request@, env@, raw@);
    }
    match raw.get(key.as_str()) {
        None => {
            let mut coords: Vec<ArtifactCoord> = Vec::new();
            coords.push(request.coord.clone());
            assert(text::views(coords@) =~= seq![request@.coord]);
            Effective::Needs(coords)
        },
        Some(Fetched::Failed) => Effective::Known(Fetched::Failed),
        Some(Fetched::Found(pom)) => match prepare_pom(
            pom.clone(),
            request.depth,
            &request.chain,
            env,
            raw,
        ) {
            Preparation::Ready(p) => Effective::Known(Fetched::Found(p)),
            Preparation::Needs(coords) => Effective::Needs(coords),
        },
    }
}

/// Applies parent chain resolution, interpolation, BOM imports and dependency management to a
/// POM at `depth`, needed for the POMs in `chain`, or says which POMs are to be fetched for that.
pub fn prepare_pom(
    pom: Pom,
    depth: usize,
    chain: &Vec<String>,
    env: &Environment,
    raw: &Known<Pom>,
) -> (r: Preparation)
    ensures
        match r {
            Preparation::Ready(p) => prepared(pom@, depth, text::views(chain@), env@, raw@)
                == Some(p@),
            Preparation::Needs(coords) => {
                &&& prepared(pom@, depth, text::views(chain@), env@, raw@) is None
                &&& coords@.len() > 0
                &&& text::views(coords@) == missing_for(
                    pom@,
                    depth,
                    text::views(chain@),
                    env@,
                    raw@,
                )
            },
        },
    decreases
            known::count_keys(raw@, outside(text::views(chain@)), 0),
            parents_left(depth),
            2nat,
{
    let ghost ch = text::views(chain@);
    proof {
        lemma_missing_for(pom@, depth, ch, env@, raw@);
    }
    let mut merged = pom.clone();
    if let Some(request) = find_parent(&pom, depth, chain) {
        proof {
            lemma_longer_chain(raw@, ch, request_key(request@));
        }
        match resolve_effective_pom(&request, env, raw) {
            Effective::Needs(coords) => {
                return Preparation::Needs(coords);
            },
            Effective::Known(Fetched::Failed) => {},
            Effective::Known(Fetched::Found(parent)) => {
                pom::merge_parent(&mut merged, &parent);
            },
        }
    }
    assert(with_parent(pom@, depth, ch, env@, raw@) == Some(merged@));
    pom::interpolate_pom(&mut merged, env);
    match resolve_bom_imports(merged, depth, chain, env, raw) {
        Imports::Needs(coords) => Preparation::Needs(coords),
        Imports::Done(complete) => {
            let mut complete = complete;
            pom::interpolate_pom(&mut complete, env);
            pom::inject_dependency_management(&mut complete);
            Preparation::Ready(complete)
        },
    }
}

/// Puts the managed dependencies of the BOMs that a POM imports in place of the imports, or
/// says which POMs are to be fetched for that.
///
/// A BOM in `chain` is being prepared already: importing it would be circular, and is passed
/// over. The exclusions of an import keep entries of its BOM out.
pub fn resolve_bom_imports(
    pom: Pom,
    depth: usize,
    chain: &Vec<String>,
    env: &Environment,
    raw: &Known<Pom>,
) -> (r: Imports)
    ensures
        match r {
            Imports::Done(p) => with_imports(pom@, depth, text::views(chain@), env@, raw@)
                == Some(p@),
            Imports::Needs(coords) => {
                &&& with_imports(pom@, depth, text::views(chain@), env@, raw@) is None
                &&& coords@.len() > 0
                &&& text::views(coords@) == missing_imports(
                    management_imports(pom@),
                    0,
                    Seq::empty(),
                    text::views(chain@).push(pom_id(pom@)),
                    depth,
                    env@,
                    raw@,
                )
            },
        },
    decreases
            known::count_keys(raw@, outside(text::views(chain@)), 0),
            parents_left(depth),
            1nat,
{
    let mut pom = pom;
    let id = identity(&pom);
    match &pom.dependency_management {
        None => Imports::Done(pom),
        Some(dm) => {
            let imports = select_imports(&dm.dependencies.dependency, true);
            let own = select_imports(&dm.dependencies.dependency, false);
            let path = push_string(chain, id.as_str());
            proof {
                lemma_longer_chain(raw@, text::views(chain@), id@);
            }
            match carry_out_imports(own, &imports, &path, depth, env, raw) {
                Err(coords) => Imports::Needs(coords),
                Ok(dependency) => {
                    pom.dependency_management = Some(
                        DependencyManagement { dependencies: Dependencies { dependency } },
                    );
                    Imports::Done(pom)
                },
            }
        },
    }
}

/// Carries out imports in turn. Where one has to wait, gathers what all of them wait for.
fn carry_out_imports(
    own: Vec<PomDependency>,
    imports: &Vec<PomDependency>,
    path: &Vec<String>,
    depth: usize,
    env: &Environment,
    raw: &Known<Pom>,
) -> (r: Result<Vec<PomDependency>, Vec<ArtifactCoord>>)
    ensures
        match r {
            Ok(ds) => imported_from(
                text::views(own@),
                text::views(imports@),
                0,
                Seq::empty(),
                text::views(path@),
                depth,
                env@,
                raw@,
            ) == Some(text::views(ds@)),
            Err(coords) => {
                &&& imported_from(
                    text::views(own@),
                    text::views(imports@),
                    0,
                    Seq::empty(),
                    text::views(path@),
                    depth,
                    env@,
                    raw@,
                ) is None
                &&& coords@.len() > 0
                &&& text::views(coords@) == missing_imports(
                    text::views(imports@),
                    0,
                    Seq::empty(),
                    text::views(path@),
                    depth,
                    env@,
                    raw@,
                )
            },
        },
    decreases
            known::count_keys(raw@, outside(text::views(path@)), 0),
            parents_left(depth),
            0nat,
{
    let mut out = own;
    let mut seen: Vec<String> = Vec::new();
    let mut needs: Vec<ArtifactCoord> = Vec::new();
    let ghost m = text::views(imports@);
    let ghost ids = text::views(path@);
    let ghost none = Seq::<Seq<char>>::empty();
    let ghost goal = imported_from(text::views(own@), m, 0, none, ids, depth, env@, raw@);
    let ghost all = missing_imports(m, 0, none, ids, depth, env@, raw@);
    proof {
        lemma_missing_imports(text::views(own@), m, 0, none, ids, depth, env@, raw@);
        assert(text::views(seen@) =~= none);
        assert(text::views(needs@) + all =~= all);
    }
    for i in 0..imports.len()
        invariant
            m == text::views(imports@),
            ids == text::views(path@),
            text::views(needs@) + missing_imports(
                m,
                i as int,
                text::views(seen@),
                ids,
                depth,
                env@,
                raw@,
            ) == all,
            needs@.len() == 0 ==> imported_from(
                text::views(out@),
                m,
                i as int,
                text::views(seen@),
                ids,
                depth,
                env@,
                raw@,
            ) == goal,
    {
        let d = &imports[i];
        assert(m[i as int] == d@);
        if let Some(id) = bom_key(d) {
            if !text::contains_string(path, id.as_str()) && !text::contains_string(
                &seen,
                id.as_str(),
            ) {
                let ghost seen0 = text::views(seen@);
                let ghost needs0 = text::views(needs@);
                let version = match &d.version {
                    Some(v) => v.clone(),
                    None => String::new(),
                };
                let request = PomRequest {
                    coord: ArtifactCoord::new(
                        d.group_id.as_str(),
                        d.artifact_id.as_str(),
                        version.as_str(),
                    ),
                    depth: next_depth(depth),
                    chain: push_string(path, id.as_str()),
                };
                assert(request@ == import_request(m[i as int], id@, ids, depth));
                assert(request_key(request@) == id@);
                let ghost rest = missing_imports(
                    m,
                    i + 1,
                    seen0.push(id@),
                    ids,
                    depth,
                    env@,
                    raw@,
                );
                proof {
                    lemma_missing_at(request@, env@, raw@);
                }
                if raw.has(id.as_str()) {
                    proof {
                        lemma_longer_chain(raw@, ids, id@);
                    }
                    match resolve_effective_pom(&request, env, raw) {
                        Effective::Known(f) => {
                            if let Fetched::Found(bom) = &f {
                                out = add_bom(out, d, bom);
                            }
                            assert(missing_at(request@, env@, raw@) + rest =~= rest);
                        },
                        Effective::Needs(coords) => {
                            let mut coords = coords;
                            let ghost cs = coords@;
                            needs.append(&mut coords);
                            proof {
                                assert(text::views(needs@) =~= needs0 + text::views(cs));
                                assert(needs0 + (text::views(cs) + rest) =~= text::views(needs@)
                                    + rest);
                            }
                        },
                    }
                } else {
                    let ghost cm = request@.coord;
                    needs.push(request.coord);
                    proof {
                        assert(text::views(needs@) =~= needs0.push(cm));
                        assert(needs0 + (seq![cm] + rest) =~= text::views(needs@) + rest);
                    }
                }
                seen = push_string(&seen, id.as_str());
            }
        }
    }
    assert(text::views(needs@) =~= all);
    if needs.len() > 0 {
        Err(needs)
    } else {
        assert(text::views(needs@).len() == 0);
        Ok(out)
    }
}

} // verus!
