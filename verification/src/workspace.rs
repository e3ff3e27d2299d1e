//! Workspaces: packages that are developed together.
//!
//! A single package is a workspace with one member.

use vstd::prelude::*;

use crate::dependency_spec::{DependencySpec, DependencySpecView};
use crate::manifest::{
    DependencyMap, DependencyMapView, Manifest, ManifestView, Package, PackageView, PlaceInfo,
    PlaceInfoView, ProjectManifest, ProjectManifestView, Realm, WorkspaceInheritable,
    WorkspaceMetadata, WorkspaceMetadataView,
};
use crate::ordered;
use crate::ordered::{OrdMap, OrdSet};
use crate::package_name;
use crate::package_name::{PackageName, PackageNameView};
use crate::path;
use crate::path::{PathBuf, PathModel};
use crate::plain;
use crate::plain::Plain;
use crate::version::{Version, VersionView};

verus! {

// ---------------------------------------------------------------------------
// Manifests of members, before they take over what they inherit
// ---------------------------------------------------------------------------

/// Dependencies by their aliases, some of them inherited.
pub type InheritableMap = OrdMap<String, WorkspaceInheritable<DependencySpec>>;

/// What dependencies by their aliases hold, some of them inherited.
pub type InheritableMapView = Seq<(Seq<char>, WorkspaceInheritable<DependencySpecView>)>;

/// The `[package]` section of a member, where `registry` and `realm` may be
/// inherited from the workspace root.
#[derive(Debug, PartialEq, Eq)]
pub struct RawMemberPackage {
    pub name: PackageName,
    pub version: Version,
    pub registry: Option<WorkspaceInheritable<String>>,
    pub realm: Option<WorkspaceInheritable<Realm>>,
    pub description: Option<String>,
    pub license: Option<String>,
    pub authors: Vec<String>,
    pub includes: Vec<String>,
    pub exclude: Vec<String>,
    pub private: bool,
    pub homepage: Option<String>,
    pub repository: Option<String>,
}

/// What the `[package]` section of a member holds.
#[verifier::ext_equal]
pub struct RawMemberPackageView {
    pub name: PackageNameView,
    pub version: VersionView,
    pub registry: Option<WorkspaceInheritable<Seq<char>>>,
    pub realm: Option<WorkspaceInheritable<Realm>>,
    pub description: Option<Seq<char>>,
    pub license: Option<Seq<char>>,
    pub authors: Seq<Seq<char>>,
    pub includes: Seq<Seq<char>>,
    pub exclude: Seq<Seq<char>>,
    pub private: bool,
    pub homepage: Option<Seq<char>>,
    pub repository: Option<Seq<char>>,
}

impl View for RawMemberPackage {
    type V = RawMemberPackageView;

    open spec fn view(&self) -> RawMemberPackageView {
        RawMemberPackageView {
            name: self.name@,
            version: self.version@,
            registry: self.registry.deep_view(),
            realm: self.realm.deep_view(),
            description: self.description.deep_view(),
            license: self.license.deep_view(),
            authors: self.authors.deep_view(),
            includes: self.includes.deep_view(),
            exclude: self.exclude.deep_view(),
            private: self.private,
            homepage: self.homepage.deep_view(),
            repository: self.repository.deep_view(),
        }
    }
}

/// The manifest of a member, where dependencies may use `{ workspace = true }`
/// to inherit from `[workspace.dependencies]`.
#[derive(Debug, PartialEq, Eq)]
pub struct RawMemberManifest {
    pub package: RawMemberPackage,
    pub place: PlaceInfo,
    pub dependencies: InheritableMap,
    pub server_dependencies: InheritableMap,
    pub dev_dependencies: InheritableMap,
}

/// What the manifest of a member holds.
#[verifier::ext_equal]
pub struct RawMemberManifestView {
    pub package: RawMemberPackageView,
    pub place: PlaceInfoView,
    pub dependencies: InheritableMapView,
    pub server_dependencies: InheritableMapView,
    pub dev_dependencies: InheritableMapView,
}

impl View for RawMemberManifest {
    type V = RawMemberManifestView;

    open spec fn view(&self) -> RawMemberManifestView {
        RawMemberManifestView {
            package: self.package@,
            place: self.place@,
            dependencies: self.dependencies@,
            server_dependencies: self.server_dependencies@,
            dev_dependencies: self.dev_dependencies@,
        }
    }
}

impl DeepView for RawMemberManifest {
    type V = RawMemberManifestView;

    open spec fn deep_view(&self) -> RawMemberManifestView {
        self.view()
    }
}

// ---------------------------------------------------------------------------
// Errors
// ---------------------------------------------------------------------------

/// A field that can be inherited.
#[derive(Debug, Clone, Copy, PartialEq, Eq, Structural)]
pub enum Field {
    Registry,
    Realm,
}

/// Why a field has no value.
#[derive(Debug, Clone, Copy, PartialEq, Eq, Structural)]
pub enum FieldFault {
    /// It is inherited, and the workspace root does not define it.
    NotDefined,
    /// It says `workspace = false`.
    InvalidDirective,
    /// It is missing, and the workspace root does not define it.
    NotSet,
}

impl DeepView for FieldFault {
    type V = FieldFault;

    open spec fn deep_view(&self) -> FieldFault {
        *self
    }
}

/// A section of dependencies.
#[derive(Debug, Clone, Copy, PartialEq, Eq, Structural)]
pub enum Section {
    Dependencies,
    ServerDependencies,
    DevDependencies,
}

/// Why a dependency has no spec.
#[derive(Debug, Clone, Copy, PartialEq, Eq, Structural)]
pub enum DependencyFault {
    /// It is inherited, and `[workspace.dependencies]` does not define it.
    NotDefined,
    /// It says `workspace = false`.
    InvalidDirective,
}

impl DeepView for DependencyFault {
    type V = DependencyFault;

    open spec fn deep_view(&self) -> DependencyFault {
        *self
    }
}

/// Why a member could not be loaded.
#[allow(inconsistent_fields)]
#[derive(Debug, PartialEq, Eq)]
pub enum MemberError {
    /// Its manifest could not be read, for this reason.
    Unreadable(String),
    /// One of its fields has no value.
    Field { field: Field, fault: FieldFault },
    /// One of its dependencies has no spec.
    Dependency { section: Section, alias: String, fault: DependencyFault },
}

/// What says why a member could not be loaded.
#[allow(inconsistent_fields)]
pub enum MemberErrorView {
    Unreadable(Seq<char>),
    Field { field: Field, fault: FieldFault },
    Dependency { section: Section, alias: Seq<char>, fault: DependencyFault },
}

impl View for MemberError {
    type V = MemberErrorView;

    open spec fn view(&self) -> MemberErrorView {
        match self {
            MemberError::Unreadable(reason) => MemberErrorView::Unreadable(reason@),
            MemberError::Field { field, fault } => MemberErrorView::Field {
                field: *field,
                fault: *fault,
            },
            MemberError::Dependency { section, alias, fault } => MemberErrorView::Dependency {
                section: *section,
                alias: alias@,
                fault: *fault,
            },
        }
    }
}

impl DeepView for MemberError {
    type V = MemberErrorView;

    open spec fn deep_view(&self) -> MemberErrorView {
        self.view()
    }
}

impl Plain for MemberError {
    fn duplicate(&self) -> (copy: Self) {
        match self {
            MemberError::Unreadable(reason) => MemberError::Unreadable(reason.clone()),
            MemberError::Field { field, fault } => MemberError::Field {
                field: *field,
                fault: *fault,
            },
            MemberError::Dependency { section, alias, fault } => MemberError::Dependency {
                section: *section,
                alias: alias.clone(),
                fault: *fault,
            },
        }
    }
}

// ---------------------------------------------------------------------------
// Inheritance
// ---------------------------------------------------------------------------

/// What a field is that may be defined locally, explicitly inherited via
/// `{ workspace = true }`, or omitted (implicitly inherited).
pub open spec fn inheritable_or_default<T>(
    local: Option<WorkspaceInheritable<T>>,
    workspace_value: Option<T>,
) -> Result<T, FieldFault> {
    match (local, workspace_value) {
        (Some(WorkspaceInheritable::Defined(value)), _) => Ok(value),
        (Some(WorkspaceInheritable::Workspace { workspace: false }), _) => Err(
            FieldFault::InvalidDirective,
        ),
        (_, Some(value)) => Ok(value),
        (Some(_), None) => Err(FieldFault::NotDefined),
        (None, None) => Err(FieldFault::NotSet),
    }
}

/// Resolve a field that may be defined locally, explicitly inherited via
/// `{ workspace = true }`, or omitted (implicitly inherited).
pub fn resolve_inheritable_or_default<T: Plain>(
    local: &Option<WorkspaceInheritable<T>>,
    workspace_value: &Option<T>,
) -> (resolved: Result<T, FieldFault>)
    ensures
        plain::outcome(resolved) == inheritable_or_default(
            local.deep_view(),
            workspace_value.deep_view(),
        ),
{
    match local {
        Some(WorkspaceInheritable::Defined(value)) => Ok(value.duplicate()),
        Some(WorkspaceInheritable::Workspace { workspace }) => {
            if !*workspace {
                return Err(FieldFault::InvalidDirective);
            }
            match workspace_value {
                Some(value) => Ok(value.duplicate()),
                None => Err(FieldFault::NotDefined),
            }
        },
        None => match workspace_value {
            Some(value) => Ok(value.duplicate()),
            None => Err(FieldFault::NotSet),
        },
    }
}

/// Member values, with gaps filled by the workspace's.
pub open spec fn merged_place(member: PlaceInfoView, workspace: PlaceInfoView) -> PlaceInfoView {
    PlaceInfoView {
        shared_packages: if member.shared_packages is Some {
            member.shared_packages
        } else {
            workspace.shared_packages
        },
        server_packages: if member.server_packages is Some {
            member.server_packages
        } else {
            workspace.server_packages
        },
    }
}

/// Merge a member's `PlaceInfo` with workspace defaults: member values take
/// precedence, workspace values fill in gaps.
pub fn resolve_place(member: &PlaceInfo, workspace: &PlaceInfo) -> (place: PlaceInfo)
    ensures
        place@ == merged_place(member@, workspace@),
{
    PlaceInfo {
        shared_packages: match &member.shared_packages {
            Some(shared) => Some(shared.clone()),
            None => workspace.shared_packages.duplicate(),
        },
        server_packages: match &member.server_packages {
            Some(server) => Some(server.clone()),
            None => workspace.server_packages.duplicate(),
        },
    }
}

/// The concrete spec of a dependency: the one it has, or the one that
/// `[workspace.dependencies]` has for its alias.
pub open spec fn concrete_spec(
    alias: Seq<char>,
    spec: WorkspaceInheritable<DependencySpecView>,
    ws_deps: DependencyMapView,
) -> Result<DependencySpecView, DependencyFault> {
    let spec = match spec {
        WorkspaceInheritable::Defined(spec) => spec,
        WorkspaceInheritable::Workspace { workspace } => DependencySpecView::Workspace(workspace),
    };
    match spec {
        DependencySpecView::Workspace(true) => match ordered::lookup(ws_deps, alias) {
            Some(spec) if !(spec is Workspace) => Ok(spec),
            _ => Err(DependencyFault::NotDefined),
        },
        DependencySpecView::Workspace(false) => Err(DependencyFault::InvalidDirective),
        _ => Ok(spec),
    }
}

/// The first dependency from `from` on that has no concrete spec.
pub open spec fn first_fault(deps: InheritableMapView, ws_deps: DependencyMapView, from: int) -> int
    decreases deps.len() - from,
{
    if from >= deps.len() || concrete_spec(deps[from].0, deps[from].1, ws_deps) is Err {
        from
    } else {
        first_fault(deps, ws_deps, from + 1)
    }
}

/// The concrete specs of dependencies, or the alias of the first that has none
/// and why.
pub open spec fn concrete_deps(deps: InheritableMapView, ws_deps: DependencyMapView) -> Result<
    DependencyMapView,
    (Seq<char>, DependencyFault),
> {
    let at = first_fault(deps, ws_deps, 0);
    if at < deps.len() {
        Err((deps[at].0, concrete_spec(deps[at].0, deps[at].1, ws_deps)->Err_0))
    } else {
        Ok(
            Seq::new(
                deps.len(),
                |i: int| (deps[i].0, concrete_spec(deps[i].0, deps[i].1, ws_deps)->Ok_0),
            ),
        )
    }
}

fn resolve_spec(
    alias: &String,
    spec: &WorkspaceInheritable<DependencySpec>,
    ws_deps: &DependencyMap,
) -> (resolved: Result<DependencySpec, DependencyFault>)
    ensures
        plain::outcome(resolved) == concrete_spec(alias@, spec.deep_view(), ws_deps@),
{
    let directive: bool = match spec {
        WorkspaceInheritable::Defined(DependencySpec::Workspace { workspace }) => *workspace,
        WorkspaceInheritable::Defined(spec) => {
            return Ok(spec.duplicate());
        },
        WorkspaceInheritable::Workspace { workspace } => *workspace,
    };
    if !directive {
        return Err(DependencyFault::InvalidDirective);
    }
    match ws_deps.get(alias) {
        Some(DependencySpec::Workspace { .. }) => Err(DependencyFault::NotDefined),
        Some(spec) => Ok(spec.duplicate()),
        None => Err(DependencyFault::NotDefined),
    }
}

/// Resolve a dependency map, replacing `{ workspace = true }` entries with
/// the corresponding entry from `[workspace.dependencies]`.
pub fn resolve_dep_map(deps: &InheritableMap, ws_deps: &DependencyMap) -> (resolved: Result<
    DependencyMap,
    (String, DependencyFault),
>)
    ensures
        plain::outcome(resolved) == concrete_deps(deps@, ws_deps@),
{
    let mut resolved: DependencyMap = OrdMap::new();
    let mut i: usize = 0;
    let ghost whole = Seq::new(
        deps@.len(),
        |i: int| (deps@[i].0, concrete_spec(deps@[i].0, deps@[i].1, ws_deps@)->Ok_0),
    );
    let count: usize = deps.len();
    assert(resolved@ =~= whole.take(0));
    while i < count
        invariant
            i <= count,
            count == deps@.len(),
            ordered::ascending(ordered::keys_of(deps@)),
            whole == Seq::new(
                deps@.len(),
                |i: int| (deps@[i].0, concrete_spec(deps@[i].0, deps@[i].1, ws_deps@)->Ok_0),
            ),
            resolved@ == whole.take(i as int),
            first_fault(deps@, ws_deps@, 0) == first_fault(deps@, ws_deps@, i as int),
        decreases count - i,
    {
        let alias: &String = deps.key_at(i);
        match resolve_spec(alias, deps.value_at(i), ws_deps) {
            Ok(spec) => {
                proof {
                    let keys = ordered::keys_of(deps@);
                    assert forall|j: int| 0 <= j < resolved@.len() implies crate::order::precedes(
                        ordered::Ranked::sort_key((#[trigger] resolved@[j]).0),
                        ordered::Ranked::sort_key(alias@),
                    ) by {
                        assert(resolved@[j] == whole[j]);
                        assert(keys[j] == deps@[j].0);
                        assert(keys[i as int] == deps@[i as int].0);
                    }
                    ordered::lemma_with_entry_last(resolved@, alias@, spec@);
                    assert(whole.take(i + 1) =~= whole.take(i as int).push(whole[i as int]));
                }
                resolved.insert(alias.clone(), spec);
            },
            Err(fault) => {
                return Err((alias.clone(), fault));
            },
        }
        i += 1;
    }
    assert(whole.take(whole.len() as int) =~= whole);
    Ok(resolved)
}

/// A section of concrete dependencies, or why it has none.
pub open spec fn concrete_section(
    section: Section,
    deps: InheritableMapView,
    ws_deps: DependencyMapView,
) -> Result<DependencyMapView, MemberErrorView> {
    match concrete_deps(deps, ws_deps) {
        Ok(deps) => Ok(deps),
        Err((alias, fault)) => Err(MemberErrorView::Dependency { section, alias, fault }),
    }
}

fn resolve_section(section: Section, deps: &InheritableMap, ws_deps: &DependencyMap) -> (resolved:
    Result<DependencyMap, MemberError>)
    ensures
        plain::outcome(resolved) == concrete_section(section, deps@, ws_deps@),
{
    match resolve_dep_map(deps, ws_deps) {
        Ok(deps) => Ok(deps),
        Err((alias, fault)) => Err(MemberError::Dependency { section, alias, fault }),
    }
}

/// The manifest of a member with all that it inherits, or why it has none.
pub open spec fn member_manifest(
    raw: RawMemberManifestView,
    ws_meta: WorkspaceMetadataView,
) -> Result<ManifestView, MemberErrorView> {
    let registry = inheritable_or_default(raw.package.registry, ws_meta.registry);
    let realm = inheritable_or_default(raw.package.realm, ws_meta.realm);
    let dependencies = concrete_section(
        Section::Dependencies,
        raw.dependencies,
        ws_meta.dependencies,
    );
    let server_dependencies = concrete_section(
        Section::ServerDependencies,
        raw.server_dependencies,
        ws_meta.dependencies,
    );
    let dev_dependencies = concrete_section(
        Section::DevDependencies,
        raw.dev_dependencies,
        ws_meta.dependencies,
    );
    if registry is Err {
        Err(MemberErrorView::Field { field: Field::Registry, fault: registry->Err_0 })
    } else if realm is Err {
        Err(MemberErrorView::Field { field: Field::Realm, fault: realm->Err_0 })
    } else if dependencies is Err {
        Err(dependencies->Err_0)
    } else if server_dependencies is Err {
        Err(server_dependencies->Err_0)
    } else if dev_dependencies is Err {
        Err(dev_dependencies->Err_0)
    } else {
        Ok(
            ManifestView {
                package: PackageView {
                    name: raw.package.name,
                    version: raw.package.version,
                    registry: registry->Ok_0,
                    realm: realm->Ok_0,
                    description: raw.package.description,
                    license: raw.package.license,
                    authors: raw.package.authors,
                    includes: raw.package.includes,
                    exclude: raw.package.exclude,
                    private: raw.package.private,
                    homepage: raw.package.homepage,
                    repository: raw.package.repository,
                },
                place: merged_place(raw.place, ws_meta.place),
                dependencies: dependencies->Ok_0,
                server_dependencies: server_dependencies->Ok_0,
                dev_dependencies: dev_dependencies->Ok_0,
            },
        )
    }
}

/// Resolve all inheritable fields in a raw member manifest, producing a
/// standard `Manifest` with concrete values.
pub fn resolve_member_manifest(raw: &RawMemberManifest, ws_meta: &WorkspaceMetadata) -> (resolved:
    Result<Manifest, MemberError>)
    ensures
        plain::outcome(resolved) == member_manifest(raw@, ws_meta@),
{
    let registry: String = match resolve_inheritable_or_default(
        &raw.package.registry,
        &ws_meta.registry,
    ) {
        Ok(registry) => registry,
        Err(fault) => {
            return Err(MemberError::Field { field: Field::Registry, fault });
        },
    };
    assert(ws_meta.realm.deep_view() == ws_meta@.realm);
    let realm: Realm = match resolve_inheritable_or_default(&raw.package.realm, &ws_meta.realm) {
        Ok(realm) => realm,
        Err(fault) => {
            return Err(MemberError::Field { field: Field::Realm, fault });
        },
    };
    let place: PlaceInfo = resolve_place(&raw.place, &ws_meta.place);
    let dependencies: DependencyMap = match resolve_section(
        Section::Dependencies,
        &raw.dependencies,
        &ws_meta.dependencies,
    ) {
        Ok(deps) => deps,
        Err(error) => {
            return Err(error);
        },
    };
    let server_dependencies: DependencyMap = match resolve_section(
        Section::ServerDependencies,
        &raw.server_dependencies,
        &ws_meta.dependencies,
    ) {
        Ok(deps) => deps,
        Err(error) => {
            return Err(error);
        },
    };
    let dev_dependencies: DependencyMap = match resolve_section(
        Section::DevDependencies,
        &raw.dev_dependencies,
        &ws_meta.dependencies,
    ) {
        Ok(deps) => deps,
        Err(error) => {
            return Err(error);
        },
    };
    let package = Package {
        name: raw.package.name.duplicate(),
        version: raw.package.version.duplicate(),
        registry,
        realm,
        description: raw.package.description.duplicate(),
        license: raw.package.license.duplicate(),
        authors: raw.package.authors.duplicate(),
        includes: raw.package.includes.duplicate(),
        exclude: raw.package.exclude.duplicate(),
        private: raw.package.private,
        homepage: raw.package.homepage.duplicate(),
        repository: raw.package.repository.duplicate(),
    };
    Ok(Manifest { package, place, dependencies, server_dependencies, dev_dependencies })
}

// ---------------------------------------------------------------------------
// Workspaces
// ---------------------------------------------------------------------------

/// The members of a workspace by their directories.
pub type Members = OrdMap<PathBuf, Manifest>;

/// What the members of a workspace hold.
pub type MembersView = Seq<(PathModel, ManifestView)>;

/// Where the file system leads paths to: for each path that could be
/// canonicalized, its canonical form.
pub type CanonicalPaths = OrdMap<PathBuf, PathBuf>;

/// What is known of canonical paths.
pub type CanonicalPathsView = Seq<(PathModel, Seq<char>)>;

/// A workspace is a collection of one or more packages that are developed
/// together. A single-package project is transparently represented as a
/// one-member workspace.
#[derive(Debug, PartialEq, Eq)]
pub struct Workspace {
    root: PathBuf,
    members: Members,
    default_member: Option<PackageName>,
    registry: String,
    place: PlaceInfo,
    single_package: bool,
}

/// What a workspace holds.
#[verifier::ext_equal]
pub struct WorkspaceView {
    pub root: Seq<char>,
    pub members: MembersView,
    pub default_member: Option<PackageNameView>,
    pub registry: Seq<char>,
    pub place: PlaceInfoView,
    pub single_package: bool,
}

impl View for Workspace {
    type V = WorkspaceView;

    closed spec fn view(&self) -> WorkspaceView {
        WorkspaceView {
            root: self.root@,
            members: self.members@,
            default_member: self.default_member.deep_view(),
            registry: self.registry@,
            place: self.place@,
            single_package: self.single_package,
        }
    }
}

impl DeepView for Workspace {
    type V = WorkspaceView;

    open spec fn deep_view(&self) -> WorkspaceView {
        self.view()
    }
}

/// Why a workspace could not be loaded.
#[derive(Debug, PartialEq, Eq)]
pub enum WorkspaceError {
    /// The manifest has neither `[package]` nor `[workspace]`.
    NoSection,
    /// The member in this directory could not be loaded.
    Member { dir: PathBuf, error: MemberError },
    /// No directory matched the member patterns.
    NoMembers,
    /// Neither `[workspace]` nor a root `[package]` names a registry.
    NoRegistry,
    /// Members in two directories have the same name.
    DuplicateName { name: PackageName, first: PathBuf, second: PathBuf },
    /// No member has the name of the default member.
    NoDefaultMember(PackageName),
}

/// What says why a workspace could not be loaded.
pub enum WorkspaceErrorView {
    NoSection,
    Member { dir: Seq<char>, error: MemberErrorView },
    NoMembers,
    NoRegistry,
    DuplicateName { name: PackageNameView, first: Seq<char>, second: Seq<char> },
    NoDefaultMember(PackageNameView),
}

impl View for WorkspaceError {
    type V = WorkspaceErrorView;

    open spec fn view(&self) -> WorkspaceErrorView {
        match self {
            WorkspaceError::NoSection => WorkspaceErrorView::NoSection,
            WorkspaceError::Member { dir, error } => WorkspaceErrorView::Member {
                dir: dir@,
                error: error@,
            },
            WorkspaceError::NoMembers => WorkspaceErrorView::NoMembers,
            WorkspaceError::NoRegistry => WorkspaceErrorView::NoRegistry,
            WorkspaceError::DuplicateName { name, first, second } => {
                WorkspaceErrorView::DuplicateName { name: name@, first: first@, second: second@ }
            },
            WorkspaceError::NoDefaultMember(name) => WorkspaceErrorView::NoDefaultMember(name@),
        }
    }
}

impl DeepView for WorkspaceError {
    type V = WorkspaceErrorView;

    open spec fn deep_view(&self) -> WorkspaceErrorView {
        self.view()
    }
}

/// A member's directory and what reading its manifest gave.
#[derive(Debug, PartialEq, Eq)]
pub struct LoadedMember {
    pub dir: PathBuf,
    /// The manifest, or why it could not be read.
    pub manifest: Result<RawMemberManifest, String>,
}

/// What a member that was read holds.
#[verifier::ext_equal]
pub struct LoadedMemberView {
    pub dir: Seq<char>,
    pub manifest: Result<RawMemberManifestView, Seq<char>>,
}

impl View for LoadedMember {
    type V = LoadedMemberView;

    open spec fn view(&self) -> LoadedMemberView {
        LoadedMemberView { dir: self.dir@, manifest: plain::outcome(self.manifest) }
    }
}

impl DeepView for LoadedMember {
    type V = LoadedMemberView;

    open spec fn deep_view(&self) -> LoadedMemberView {
        self.view()
    }
}

/// The first member from `from` on with a name.
pub open spec fn name_index(members: MembersView, name: PackageNameView, from: int) -> int
    decreases members.len() - from,
{
    if from >= members.len() || members[from].1.package.name == name {
        from
    } else {
        name_index(members, name, from + 1)
    }
}

/// The first member from `from` on whose name an earlier one has.
pub open spec fn first_duplicate(members: MembersView, from: int) -> int
    decreases members.len() - from,
{
    if from >= members.len() || name_index(members, members[from].1.package.name, 0) < from {
        from
    } else {
        first_duplicate(members, from + 1)
    }
}

/// Why members and a default member do not make a workspace.
pub open spec fn fault(members: MembersView, default_member: Option<PackageNameView>) -> Option<
    WorkspaceErrorView,
> {
    let at = first_duplicate(members, 0);
    if at < members.len() {
        let name = members[at].1.package.name;
        Some(
            WorkspaceErrorView::DuplicateName {
                name,
                first: members[name_index(members, name, 0)].0.text,
                second: members[at].0.text,
            },
        )
    } else {
        match default_member {
            Some(name) if name_index(members, name, 0) == members.len() => Some(
                WorkspaceErrorView::NoDefaultMember(name),
            ),
            _ => None,
        }
    }
}

/// The member in a directory, under the directory's own name or where the file
/// system leads it to.
pub open spec fn member_at(
    members: MembersView,
    path: Seq<char>,
    canonical: CanonicalPathsView,
) -> Option<ManifestView> {
    match ordered::lookup(members, PathModel { text: path }) {
        Some(manifest) => Some(manifest),
        None => match ordered::lookup(canonical, PathModel { text: path }) {
            Some(canonical) => ordered::lookup(members, PathModel { text: canonical }),
            None => None,
        },
    }
}

fn find_name(members: &Members, name: &PackageName) -> (at: usize)
    ensures
        at == name_index(members@, name@, 0),
        at <= members@.len(),
{
    let mut i: usize = 0;
    while i < members.len() && !members.value_at(i).package.name.is_same(name)
        invariant
            i <= members@.len(),
            name_index(members@, name@, 0) == name_index(members@, name@, i as int),
        decreases members@.len() - i,
    {
        i += 1;
    }
    i
}

/// Checks that no name occurs twice and that the default member is a member.
fn validate(members: &Members, default_member: &Option<PackageName>) -> (valid: Result<
    (),
    WorkspaceError,
>)
    ensures
        match valid {
            Ok(_) => fault(members@, default_member.deep_view()) is None,
            Err(error) => fault(members@, default_member.deep_view()) == Some(error@),
        },
{
    let mut i: usize = 0;
    while i < members.len()
        invariant
            i <= members@.len(),
            first_duplicate(members@, 0) == first_duplicate(members@, i as int),
        decreases members@.len() - i,
    {
        let name: &PackageName = &members.value_at(i).package.name;
        let first: usize = find_name(members, name);
        if first < i {
            return Err(
                WorkspaceError::DuplicateName {
                    name: name.duplicate(),
                    first: members.key_at(first).duplicate(),
                    second: members.key_at(i).duplicate(),
                },
            );
        }
        i += 1;
    }
    match default_member {
        Some(name) => {
            if find_name(members, name) == members.len() {
                Err(WorkspaceError::NoDefaultMember(name.duplicate()))
            } else {
                Ok(())
            }
        },
        None => Ok(()),
    }
}

// ---------------------------------------------------------------------------
// Loading
// ---------------------------------------------------------------------------

/// Dependencies that are all defined where they stand.
pub open spec fn as_inheritable(deps: DependencyMapView) -> InheritableMapView {
    Seq::new(deps.len(), |i: int| (deps[i].0, WorkspaceInheritable::Defined(deps[i].1)))
}

fn to_inheritable(deps: &DependencyMap) -> (inheritable: InheritableMap)
    ensures
        inheritable@ == as_inheritable(deps@),
{
    let mut inheritable: InheritableMap = OrdMap::new();
    let mut i: usize = 0;
    let count: usize = deps.len();
    let ghost whole = as_inheritable(deps@);
    assert(inheritable@ =~= whole.take(0));
    while i < count
        invariant
            i <= count,
            count == deps@.len(),
            whole == as_inheritable(deps@),
            ordered::ascending(ordered::keys_of(deps@)),
            inheritable@ == whole.take(i as int),
        decreases count - i,
    {
        let alias: &String = deps.key_at(i);
        let spec = WorkspaceInheritable::Defined(deps.value_at(i).duplicate());
        proof {
            let keys = ordered::keys_of(deps@);
            assert forall|j: int| 0 <= j < inheritable@.len() implies crate::order::precedes(
                ordered::Ranked::sort_key((#[trigger] inheritable@[j]).0),
                ordered::Ranked::sort_key(alias@),
            ) by {
                assert(inheritable@[j] == whole[j]);
                assert(keys[j] == deps@[j].0);
                assert(keys[i as int] == deps@[i as int].0);
            }
            ordered::lemma_with_entry_last(inheritable@, alias@, spec.deep_view());
            assert(whole.take(i + 1) =~= whole.take(i as int).push(whole[i as int]));
        }
        inheritable.insert(alias.clone(), spec);
        i += 1;
    }
    assert(whole.take(whole.len() as int) =~= whole);
    inheritable
}

/// The manifest of a root that is a package and a workspace at once, or why it
/// has none.
pub open spec fn root_manifest(
    package: PackageView,
    project: ProjectManifestView,
    ws_meta: WorkspaceMetadataView,
) -> Result<ManifestView, MemberErrorView> {
    let dependencies = concrete_section(
        Section::Dependencies,
        as_inheritable(project.dependencies),
        ws_meta.dependencies,
    );
    let server_dependencies = concrete_section(
        Section::ServerDependencies,
        as_inheritable(project.server_dependencies),
        ws_meta.dependencies,
    );
    let dev_dependencies = concrete_section(
        Section::DevDependencies,
        as_inheritable(project.dev_dependencies),
        ws_meta.dependencies,
    );
    if dependencies is Err {
        Err(dependencies->Err_0)
    } else if server_dependencies is Err {
        Err(server_dependencies->Err_0)
    } else if dev_dependencies is Err {
        Err(dev_dependencies->Err_0)
    } else {
        Ok(
            ManifestView {
                package,
                place: merged_place(project.place, ws_meta.place),
                dependencies: dependencies->Ok_0,
                server_dependencies: server_dependencies->Ok_0,
                dev_dependencies: dev_dependencies->Ok_0,
            },
        )
    }
}

fn resolve_root_manifest(
    package: &Package,
    project: &ProjectManifest,
    ws_meta: &WorkspaceMetadata,
) -> (resolved: Result<Manifest, MemberError>)
    ensures
        plain::outcome(resolved) == root_manifest(package@, project@, ws_meta@),
{
    let dependencies: DependencyMap = match resolve_section(
        Section::Dependencies,
        &to_inheritable(&project.dependencies),
        &ws_meta.dependencies,
    ) {
        Ok(deps) => deps,
        Err(error) => {
            return Err(error);
        },
    };
    let server_dependencies: DependencyMap = match resolve_section(
        Section::ServerDependencies,
        &to_inheritable(&project.server_dependencies),
        &ws_meta.dependencies,
    ) {
        Ok(deps) => deps,
        Err(error) => {
            return Err(error);
        },
    };
    let dev_dependencies: DependencyMap = match resolve_section(
        Section::DevDependencies,
        &to_inheritable(&project.dev_dependencies),
        &ws_meta.dependencies,
    ) {
        Ok(deps) => deps,
        Err(error) => {
            return Err(error);
        },
    };
    let place: PlaceInfo = resolve_place(&project.place, &ws_meta.place);
    Ok(
        Manifest {
            package: package.duplicate(),
            place,
            dependencies,
            server_dependencies,
            dev_dependencies,
        },
    )
}

/// The manifest of a member that was read, or why it has none.
pub open spec fn loaded_manifest(
    member: LoadedMemberView,
    ws_meta: WorkspaceMetadataView,
) -> Result<ManifestView, MemberErrorView> {
    match member.manifest {
        Ok(raw) => member_manifest(raw, ws_meta),
        Err(reason) => Err(MemberErrorView::Unreadable(reason)),
    }
}

/// The members that were read, by their directories, or the first error.
pub open spec fn loaded_members(
    members: Seq<LoadedMemberView>,
    ws_meta: WorkspaceMetadataView,
) -> Result<MembersView, WorkspaceErrorView>
    decreases members.len(),
{
    if members.len() == 0 {
        Ok(Seq::empty())
    } else {
        let member = members.last();
        match loaded_members(members.drop_last(), ws_meta) {
            Err(error) => Err(error),
            Ok(before) => match loaded_manifest(member, ws_meta) {
                Err(error) => Err(WorkspaceErrorView::Member { dir: member.dir, error }),
                Ok(manifest) => Ok(
                    ordered::with_entry(before, PathModel { text: member.dir }, manifest),
                ),
            },
        }
    }
}

/// The members of a workspace with those of its root, or the first error.
pub open spec fn all_members(
    root: Seq<char>,
    project: ProjectManifestView,
    ws_meta: WorkspaceMetadataView,
    members: Seq<LoadedMemberView>,
) -> Result<MembersView, WorkspaceErrorView> {
    match (loaded_members(members, ws_meta), project.package) {
        (Err(error), _) => Err(error),
        (Ok(members), None) => Ok(members),
        (Ok(members), Some(package)) => match root_manifest(package, project, ws_meta) {
            Err(error) => Err(WorkspaceErrorView::Member { dir: root, error }),
            Ok(manifest) => Ok(ordered::with_entry(members, PathModel { text: root }, manifest)),
        },
    }
}

/// The workspace that a manifest with a `[workspace]` section describes, or why
/// there is none.
pub open spec fn workspace_of(
    root: Seq<char>,
    project: ProjectManifestView,
    ws_meta: WorkspaceMetadataView,
    members: Seq<LoadedMemberView>,
) -> Result<WorkspaceView, WorkspaceErrorView> {
    match all_members(root, project, ws_meta, members) {
        Err(error) => Err(error),
        Ok(members) => if members.len() == 0 {
            Err(WorkspaceErrorView::NoMembers)
        } else if ws_meta.registry is None && project.package is None {
            Err(WorkspaceErrorView::NoRegistry)
        } else {
            match fault(members, ws_meta.default_member) {
                Some(error) => Err(error),
                None => Ok(
                    WorkspaceView {
                        root,
                        members,
                        default_member: ws_meta.default_member,
                        registry: match ws_meta.registry {
                            Some(registry) => registry,
                            None => project.package->Some_0.registry,
                        },
                        place: ws_meta.place,
                        single_package: false,
                    },
                ),
            }
        },
    }
}

/// The one-member workspace of a package.
pub open spec fn single_package_workspace(
    root: Seq<char>,
    package: PackageView,
    project: ProjectManifestView,
) -> WorkspaceView {
    let manifest = ManifestView {
        package,
        place: project.place,
        dependencies: project.dependencies,
        server_dependencies: project.server_dependencies,
        dev_dependencies: project.dev_dependencies,
    };
    WorkspaceView {
        root,
        members: seq![(PathModel { text: root }, manifest)],
        default_member: None,
        registry: package.registry,
        place: project.place,
        single_package: true,
    }
}

/// No dependency is left to be inherited.
pub open spec fn is_concrete_map(deps: DependencyMapView) -> bool {
    forall|i: int| 0 <= i < deps.len() ==> !((#[trigger] deps[i]).1 is Workspace)
}

/// No dependency of a manifest is left to be inherited.
pub open spec fn is_concrete(manifest: ManifestView) -> bool {
    &&& is_concrete_map(manifest.dependencies)
    &&& is_concrete_map(manifest.server_dependencies)
    &&& is_concrete_map(manifest.dev_dependencies)
}

impl WorkspaceView {
    /// No dependency of a member is left to be inherited.
    pub open spec fn is_concrete(self) -> bool {
        forall|i: int| 0 <= i < self.members.len() ==> is_concrete((#[trigger] self.members[i]).1)
    }

    /// What holds of every workspace: it has members, in ascending order of
    /// their directories, no two with the same name, among them the default
    /// member; unless it is a single package, nothing is left to be inherited.
    pub open spec fn is_sound(self) -> bool {
        &&& self.members.len() > 0
        &&& ordered::ascending(ordered::keys_of(self.members))
        &&& forall|i: int, j: int|
            #![trigger self.members[i], self.members[j]]
            0 <= i < j < self.members.len() ==> self.members[i].1.package.name
                != self.members[j].1.package.name
        &&& self.default_member matches Some(name) ==> exists|i: int|
            0 <= i < self.members.len() && (#[trigger] self.members[i]).1.package.name == name
        &&& self.single_package ==> self.members.len() == 1 && self.members[0].0.text == self.root
            && self.default_member is None
        &&& !self.single_package ==> self.is_concrete()
    }
}

proof fn lemma_concrete_deps(deps: InheritableMapView, ws_deps: DependencyMapView, from: int)
    requires
        0 <= from,
        first_fault(deps, ws_deps, from) >= deps.len(),
    ensures
        forall|i: int|
            from <= i < deps.len() ==> concrete_spec(
                (#[trigger] deps[i]).0,
                deps[i].1,
                ws_deps,
            ) is Ok,
    decreases deps.len() - from,
{
    if from < deps.len() {
        lemma_concrete_deps(deps, ws_deps, from + 1);
    }
}

proof fn lemma_concrete_section(
    section: Section,
    deps: InheritableMapView,
    ws_deps: DependencyMapView,
)
    ensures
        concrete_section(section, deps, ws_deps) matches Ok(deps) ==> is_concrete_map(deps),
{
    if concrete_section(section, deps, ws_deps) is Ok {
        lemma_concrete_deps(deps, ws_deps, 0);
    }
}

proof fn lemma_manifest_concrete(member: LoadedMemberView, ws_meta: WorkspaceMetadataView)
    ensures
        loaded_manifest(member, ws_meta) matches Ok(manifest) ==> is_concrete(manifest),
{
    if let Ok(raw) = member.manifest {
        lemma_concrete_section(Section::Dependencies, raw.dependencies, ws_meta.dependencies);
        lemma_concrete_section(
            Section::ServerDependencies,
            raw.server_dependencies,
            ws_meta.dependencies,
        );
        lemma_concrete_section(
            Section::DevDependencies,
            raw.dev_dependencies,
            ws_meta.dependencies,
        );
    }
}

proof fn lemma_root_concrete(
    package: PackageView,
    project: ProjectManifestView,
    ws_meta: WorkspaceMetadataView,
)
    ensures
        root_manifest(package, project, ws_meta) matches Ok(manifest) ==> is_concrete(manifest),
{
    lemma_concrete_section(
        Section::Dependencies,
        as_inheritable(project.dependencies),
        ws_meta.dependencies,
    );
    lemma_concrete_section(
        Section::ServerDependencies,
        as_inheritable(project.server_dependencies),
        ws_meta.dependencies,
    );
    lemma_concrete_section(
        Section::DevDependencies,
        as_inheritable(project.dev_dependencies),
        ws_meta.dependencies,
    );
}

proof fn lemma_loaded_concrete(members: Seq<LoadedMemberView>, ws_meta: WorkspaceMetadataView)
    ensures
        loaded_members(members, ws_meta) matches Ok(loaded) ==> {
            &&& ordered::ascending(ordered::keys_of(loaded))
            &&& forall|i: int| 0 <= i < loaded.len() ==> is_concrete((#[trigger] loaded[i]).1)
        },
    decreases members.len(),
{
    if members.len() > 0 && loaded_members(members, ws_meta) is Ok {
        let before = members.drop_last();
        let member = members.last();
        lemma_loaded_concrete(before, ws_meta);
        lemma_manifest_concrete(member, ws_meta);
        let loaded = loaded_members(before, ws_meta)->Ok_0;
        let manifest = loaded_manifest(member, ws_meta)->Ok_0;
        let key = PathModel { text: member.dir };
        ordered::lemma_with_entry_values(
            loaded,
            key,
            manifest,
            |manifest: ManifestView| is_concrete(manifest),
        );
        ordered::lemma_keys_of_with_entry(loaded, key, manifest);
        ordered::lemma_with_key(ordered::keys_of(loaded), key);
    }
}

/// The member with a name stands at the name's index.
pub proof fn lemma_name_index_is(
    workspace: WorkspaceView,
    name: PackageNameView,
    dir: Seq<char>,
    manifest: ManifestView,
)
    requires
        workspace.is_sound(),
        manifest.package.name == name,
        exists|i: int|
            0 <= i < workspace.members.len() && (#[trigger] workspace.members[i]) == (
                PathModel { text: dir },
                manifest,
            ),
    ensures
        name_index(workspace.members, name, 0) < workspace.members.len(),
        workspace.members[name_index(workspace.members, name, 0)] == (
            PathModel { text: dir },
            manifest,
        ),
{
    let i = choose|i: int|
        0 <= i < workspace.members.len() && (#[trigger] workspace.members[i]) == (
            PathModel { text: dir },
            manifest,
        );
    lemma_name_index(workspace.members, name, 0);
    let at = name_index(workspace.members, name, 0);
    if at < i {
        assert(workspace.members[at].1.package.name != workspace.members[i].1.package.name);
    }
}

/// What `name_index` gives, said without recursion.
pub proof fn lemma_name_index(members: MembersView, name: PackageNameView, from: int)
    requires
        0 <= from <= members.len(),
    ensures
        from <= name_index(members, name, from) <= members.len(),
        name_index(members, name, from) < members.len() ==> members[name_index(
            members,
            name,
            from,
        )].1.package.name == name,
        forall|i: int|
            from <= i < name_index(members, name, from) ==> (
            #[trigger] members[i]).1.package.name != name,
    decreases members.len() - from,
{
    if from < members.len() && members[from].1.package.name != name {
        lemma_name_index(members, name, from + 1);
    }
}

proof fn lemma_no_duplicate(members: MembersView, from: int)
    requires
        0 <= from <= members.len(),
        first_duplicate(members, from) >= members.len(),
    ensures
        forall|i: int, j: int|
            #![trigger members[i], members[j]]
            0 <= i < j < members.len() && from <= j ==> members[i].1.package.name
                != members[j].1.package.name,
    decreases members.len() - from,
{
    if from < members.len() {
        lemma_no_duplicate(members, from + 1);
        lemma_name_index(members, members[from].1.package.name, 0);
    }
}

/// A workspace that is described without a fault is sound.
pub proof fn law_workspaces_are_sound(
    root: Seq<char>,
    project: ProjectManifestView,
    ws_meta: WorkspaceMetadataView,
    members: Seq<LoadedMemberView>,
)
    ensures
        workspace_of(root, project, ws_meta, members) matches Ok(workspace) ==> workspace.is_sound(),
{
    if let Ok(workspace) = workspace_of(root, project, ws_meta, members) {
        lemma_loaded_concrete(members, ws_meta);
        if let Some(package) = project.package {
            let loaded = loaded_members(members, ws_meta)->Ok_0;
            let manifest = root_manifest(package, project, ws_meta)->Ok_0;
            let key = PathModel { text: root };
            lemma_root_concrete(package, project, ws_meta);
            ordered::lemma_with_entry_values(
                loaded,
                key,
                manifest,
                |manifest: ManifestView| is_concrete(manifest),
            );
            ordered::lemma_keys_of_with_entry(loaded, key, manifest);
            ordered::lemma_with_key(ordered::keys_of(loaded), key);
        }
        lemma_no_duplicate(workspace.members, 0);
        if let Some(name) = workspace.default_member {
            lemma_name_index(workspace.members, name, 0);
            let at = name_index(workspace.members, name, 0);
            assert(workspace.members[at].1.package.name == name);
        }
    }
}

proof fn lemma_loaded_members(
    members: Seq<LoadedMemberView>,
    ws_meta: WorkspaceMetadataView,
    i: int,
)
    requires
        0 <= i < members.len(),
        forall|a: int, b: int|
            #![trigger members[a], members[b]]
            0 <= a < b < members.len() ==> path::path_of(members[a].dir) != path::path_of(
                members[b].dir,
            ),
    ensures
        loaded_members(members, ws_meta) matches Ok(loaded) ==> {
            &&& loaded_manifest(members[i], ws_meta) is Ok
            &&& ordered::lookup(loaded, PathModel { text: members[i].dir }) == Some(
                loaded_manifest(members[i], ws_meta)->Ok_0,
            )
        },
    decreases members.len(),
{
    if loaded_members(members, ws_meta) is Ok {
        let fewer = members.drop_last();
        let last = members.last();
        let before = loaded_members(fewer, ws_meta)->Ok_0;
        let manifest = loaded_manifest(last, ws_meta)->Ok_0;
        let key = PathModel { text: last.dir };
        lemma_loaded_concrete(fewer, ws_meta);
        ordered::lemma_lookup_with_entry(before, key, manifest, PathModel { text: members[i].dir });
        path::lemma_path_key_injective(
            path::path_of(members[i].dir),
            path::path_of(last.dir),
        );
        if i < fewer.len() {
            assert forall|a: int, b: int|
                #![trigger fewer[a], fewer[b]]
                0 <= a < b < fewer.len() implies path::path_of(fewer[a].dir) != path::path_of(
                fewer[b].dir,
            ) by {
                assert(fewer[a] == members[a] && fewer[b] == members[b]);
            }
            lemma_loaded_members(fewer, ws_meta, i);
            assert(fewer[i] == members[i]);
            assert(members[i].dir != members[members.len() - 1].dir);
        }
    }
}

/// A member that was loaded is found in its directory, with all that it
/// inherits, and so is a root that is a package.
pub proof fn law_members_are_found_in_their_directories(
    root: Seq<char>,
    project: ProjectManifestView,
    ws_meta: WorkspaceMetadataView,
    members: Seq<LoadedMemberView>,
    canonical: CanonicalPathsView,
    i: int,
)
    requires
        0 <= i < members.len(),
        forall|a: int, b: int|
            #![trigger members[a], members[b]]
            0 <= a < b < members.len() ==> path::path_of(members[a].dir) != path::path_of(
                members[b].dir,
            ),
        project.package is Some ==> path::path_of(members[i].dir) != path::path_of(root),
    ensures
        workspace_of(root, project, ws_meta, members) matches Ok(workspace) ==> {
            &&& loaded_manifest(members[i], ws_meta) is Ok
            &&& member_at(workspace.members, members[i].dir, canonical) == Some(
                loaded_manifest(members[i], ws_meta)->Ok_0,
            )
            &&& project.package matches Some(package) ==> {
                &&& root_manifest(package, project, ws_meta) is Ok
                &&& member_at(workspace.members, root, canonical) == Some(
                    root_manifest(package, project, ws_meta)->Ok_0,
                )
            }
        },
{
    if let Ok(workspace) = workspace_of(root, project, ws_meta, members) {
        lemma_loaded_members(members, ws_meta, i);
        lemma_loaded_concrete(members, ws_meta);
        if let Some(package) = project.package {
            let loaded = loaded_members(members, ws_meta)->Ok_0;
            let manifest = root_manifest(package, project, ws_meta)->Ok_0;
            ordered::lemma_lookup_with_entry(
                loaded,
                PathModel { text: root },
                manifest,
                PathModel { text: members[i].dir },
            );
            ordered::lemma_lookup_with_entry(
                loaded,
                PathModel { text: root },
                manifest,
                PathModel { text: root },
            );
            path::lemma_path_key_injective(
                path::path_of(members[i].dir),
                path::path_of(root),
            );
        }
    }
}

fn check_concrete(deps: &DependencyMap) -> (concrete: bool)
    ensures
        concrete == is_concrete_map(deps@),
{
    let mut i: usize = 0;
    while i < deps.len()
        invariant
            i <= deps@.len(),
            forall|j: int| 0 <= j < i ==> !((#[trigger] deps@[j]).1 is Workspace),
        decreases deps@.len() - i,
    {
        if let DependencySpec::Workspace { .. } = deps.value_at(i) {
            assert(deps@[i as int].1 is Workspace);
            return false;
        }
        i += 1;
    }
    true
}

impl Workspace {
    #[verifier::type_invariant]
    spec fn sound(self) -> bool {
        self@.is_sound()
    }

    /// The workspace of a manifest.
    ///
    /// If the manifest contains a `[workspace]` section, `members` is what the
    /// directories that match its member patterns hold, and workspace
    /// inheritance is resolved.
    ///
    /// If no `[workspace]` section is present, the manifest is treated as a
    /// single-package project and wrapped in a one-member workspace.
    pub fn load(root: PathBuf, project: &ProjectManifest, members: &Vec<LoadedMember>) -> (loaded:
        Result<Workspace, WorkspaceError>)
        ensures
            plain::outcome(loaded) == match (project@.package, project@.workspace) {
                (_, Some(ws_meta)) => workspace_of(root@, project@, ws_meta, members.deep_view()),
                (Some(package), None) => Ok(single_package_workspace(root@, package, project@)),
                (None, None) => Err(WorkspaceErrorView::NoSection),
            },
    {
        match &project.workspace {
            Some(ws_meta) => Workspace::load_workspace(root, project, ws_meta, members),
            None => Workspace::load_single_package(root, project),
        }
    }

    fn load_workspace(
        root: PathBuf,
        project: &ProjectManifest,
        ws_meta: &WorkspaceMetadata,
        loaded: &Vec<LoadedMember>,
    ) -> (workspace: Result<Workspace, WorkspaceError>)
        ensures
            plain::outcome(workspace) == workspace_of(
                root@,
                project@,
                ws_meta@,
                loaded.deep_view(),
            ),
    {
        let mut members: Members = OrdMap::new();
        let mut i: usize = 0;
        let ghost all = loaded.deep_view();
        assert(all.take(0) =~= Seq::<LoadedMemberView>::empty());
        while i < loaded.len()
            invariant
                i <= loaded@.len(),
                all == loaded.deep_view(),
                loaded_members(all.take(i as int), ws_meta@) == Ok::<
                    MembersView,
                    WorkspaceErrorView,
                >(members@),
            decreases loaded@.len() - i,
        {
            let member: &LoadedMember = &loaded[i];
            proof {
                assert(all.take(i + 1).drop_last() =~= all.take(i as int));
                assert(all.take(i + 1).last() == member@);
            }
            let resolved: Result<Manifest, MemberError> = match &member.manifest {
                Ok(raw) => resolve_member_manifest(raw, ws_meta),
                Err(reason) => Err(MemberError::Unreadable(reason.clone())),
            };
            match resolved {
                Ok(manifest) => {
                    members.insert(member.dir.duplicate(), manifest);
                },
                Err(error) => {
                    proof {
                        lemma_first_error(all, ws_meta@, i + 1);
                    }
                    return Err(WorkspaceError::Member { dir: member.dir.duplicate(), error });
                },
            }
            i += 1;
        }
        assert(all.take(all.len() as int) =~= all);
        // Hybrid root: if the root manifest also has [package], it is a member.
        if let Some(package) = &project.package {
            match resolve_root_manifest(package, project, ws_meta) {
                Ok(manifest) => {
                    members.insert(root.duplicate(), manifest);
                },
                Err(error) => {
                    return Err(WorkspaceError::Member { dir: root, error });
                },
            }
        }
        if members.is_empty() {
            return Err(WorkspaceError::NoMembers);
        }
        let registry: String = match &ws_meta.registry {
            Some(registry) => registry.clone(),
            None => match &project.package {
                Some(package) => package.registry.clone(),
                None => {
                    return Err(WorkspaceError::NoRegistry);
                },
            },
        };
        match validate(&members, &ws_meta.default_member) {
            Ok(_) => {},
            Err(error) => {
                return Err(error);
            },
        }
        proof {
            law_workspaces_are_sound(root@, project@, ws_meta@, all);
        }
        Ok(
            Workspace {
                root,
                members,
                default_member: ws_meta.default_member.duplicate(),
                registry,
                place: ws_meta.place.duplicate(),
                single_package: false,
            },
        )
    }

    fn load_single_package(root: PathBuf, project: &ProjectManifest) -> (workspace: Result<
        Workspace,
        WorkspaceError,
    >)
        ensures
            plain::outcome(workspace) == match project@.package {
                Some(package) => Ok(single_package_workspace(root@, package, project@)),
                None => Err(WorkspaceErrorView::NoSection),
            },
    {
        let package: Package = match &project.package {
            Some(package) => package.duplicate(),
            None => {
                return Err(WorkspaceError::NoSection);
            },
        };
        let registry: String = package.registry.clone();
        let manifest = Manifest {
            package,
            place: project.place.duplicate(),
            dependencies: project.dependencies.duplicate(),
            server_dependencies: project.server_dependencies.duplicate(),
            dev_dependencies: project.dev_dependencies.duplicate(),
        };
        let mut members: Members = OrdMap::new();
        proof {
            ordered::lemma_with_entry_last(members@, PathModel { text: root@ }, manifest@);
            assert(members@.push((PathModel { text: root@ }, manifest@)) =~= seq![
                (PathModel { text: root@ }, manifest@),
            ]);
        }
        members.insert(root.duplicate(), manifest);
        Ok(
            Workspace {
                root,
                members,
                default_member: None,
                registry,
                place: project.place.duplicate(),
                single_package: true,
            },
        )
    }

    pub fn root(&self) -> (root: &PathBuf)
        ensures
            root@ == self@.root,
    {
        &self.root
    }

    pub fn members(&self) -> (members: &Members)
        ensures
            members@ == self@.members,
            self@.is_sound(),
    {
        proof {
            use_type_invariant(self);
        }
        &self.members
    }

    pub fn default_member(&self) -> (name: Option<&PackageName>)
        ensures
            name.deep_view() == self@.default_member,
    {
        match &self.default_member {
            Some(name) => Some(name),
            None => None,
        }
    }

    pub fn registry(&self) -> (registry: &str)
        ensures
            registry@ == self@.registry,
    {
        self.registry.as_str()
    }

    pub fn place(&self) -> (place: &PlaceInfo)
        ensures
            place@ == self@.place,
    {
        &self.place
    }

    /// The member with a name, and its directory.
    pub fn find_member_by_name(&self, name: &PackageName) -> (member: Option<(&PathBuf, &Manifest)>)
        ensures
            match member {
                Some((dir, manifest)) => exists|i: int|
                    0 <= i < self@.members.len() && (#[trigger] self@.members[i]) == (
                        PathModel { text: dir@ },
                        manifest@,
                    ) && manifest@.package.name == name@,
                None => forall|i: int|
                    0 <= i < self@.members.len() ==> (#[trigger] self@.members[i]).1.package.name
                        != name@,
            },
            self@.is_sound(),
    {
        proof {
            use_type_invariant(self);
            lemma_name_index(self@.members, name@, 0);
        }
        let at: usize = find_name(&self.members, name);
        if at < self.members.len() {
            let dir: &PathBuf = self.members.key_at(at);
            let manifest: &Manifest = self.members.value_at(at);
            assert(self@.members[at as int] == (PathModel { text: dir@ }, manifest@));
            Some((dir, manifest))
        } else {
            None
        }
    }

    /// The member in a directory, under the directory's own name or where the
    /// file system leads it to.
    pub fn get_member_at_path(&self, path: &PathBuf, canonical: &CanonicalPaths) -> (member: Option<
        &Manifest,
    >)
        ensures
            member.deep_view() == member_at(self@.members, path@, canonical@),
    {
        match self.members.get(path) {
            Some(manifest) => Some(manifest),
            None => match canonical.get(path) {
                Some(canonical) => self.members.get(canonical),
                None => None,
            },
        }
    }

    /// Whether no dependency of a member is left to be inherited. Only that of a
    /// single package can be.
    pub fn is_concrete(&self) -> (concrete: bool)
        ensures
            concrete == self@.is_concrete(),
            !self@.single_package ==> concrete,
    {
        proof {
            use_type_invariant(self);
        }
        let mut i: usize = 0;
        while i < self.members.len()
            invariant
                i <= self.members@.len(),
                self@.is_sound(),
                self@.members == self.members@,
                forall|j: int| 0 <= j < i ==> is_concrete((#[trigger] self@.members[j]).1),
            decreases self.members@.len() - i,
        {
            let manifest: &Manifest = self.members.value_at(i);
            if !check_concrete(&manifest.dependencies) || !check_concrete(
                &manifest.server_dependencies,
            ) || !check_concrete(&manifest.dev_dependencies) {
                assert(!is_concrete(self@.members[i as int].1));
                return false;
            }
            i += 1;
        }
        true
    }

    /// Returns `true` if this workspace was loaded from a single-package
    /// manifest (no `[workspace]` section).
    pub fn is_single_package(&self) -> (single: bool)
        ensures
            single == self@.single_package,
    {
        self.single_package
    }
}

proof fn lemma_first_error(
    members: Seq<LoadedMemberView>,
    ws_meta: WorkspaceMetadataView,
    n: int,
)
    requires
        0 <= n <= members.len(),
        loaded_members(members.take(n), ws_meta) is Err,
    ensures
        loaded_members(members, ws_meta) == loaded_members(members.take(n), ws_meta),
    decreases members.len() - n,
{
    if n == members.len() {
        assert(members.take(n) =~= members);
    } else {
        assert(members.take(n + 1).drop_last() =~= members.take(n));
        lemma_first_error(members, ws_meta, n + 1);
    }
}

// ---------------------------------------------------------------------------
// Finding members
// ---------------------------------------------------------------------------

/// What a member pattern matched.
#[derive(Debug, PartialEq, Eq)]
pub enum GlobMatch {
    /// Something that could not be read.
    Unreadable,
    Found {
        path: PathBuf,
        is_dir: bool,
        has_manifest: bool,
        /// Where the file system leads the path to, if anywhere.
        canonical: Option<PathBuf>,
    },
}

/// What a member pattern matched.
pub enum GlobMatchView {
    Unreadable,
    Found {
        path: Seq<char>,
        is_dir: bool,
        has_manifest: bool,
        canonical: Option<Seq<char>>,
    },
}

impl View for GlobMatch {
    type V = GlobMatchView;

    open spec fn view(&self) -> GlobMatchView {
        match self {
            GlobMatch::Unreadable => GlobMatchView::Unreadable,
            GlobMatch::Found { path, is_dir, has_manifest, canonical } => GlobMatchView::Found {
                path: path@,
                is_dir: *is_dir,
                has_manifest: *has_manifest,
                canonical: canonical.deep_view(),
            },
        }
    }
}

impl DeepView for GlobMatch {
    type V = GlobMatchView;

    open spec fn deep_view(&self) -> GlobMatchView {
        self.view()
    }
}

/// A member pattern and all that it matched, in order, or nothing if it is not a
/// valid pattern.
#[derive(Debug, PartialEq, Eq)]
pub struct PatternMatches {
    pub pattern: String,
    pub matches: Option<Vec<GlobMatch>>,
}

/// What a member pattern and its matches hold.
#[verifier::ext_equal]
pub struct PatternMatchesView {
    pub pattern: Seq<char>,
    pub matches: Option<Seq<GlobMatchView>>,
}

impl View for PatternMatches {
    type V = PatternMatchesView;

    open spec fn view(&self) -> PatternMatchesView {
        PatternMatchesView { pattern: self.pattern@, matches: self.matches.deep_view() }
    }
}

impl DeepView for PatternMatches {
    type V = PatternMatchesView;

    open spec fn deep_view(&self) -> PatternMatchesView {
        self.view()
    }
}

/// Why members could not be found.
#[derive(Debug, PartialEq, Eq)]
pub enum DiscoverError {
    /// This is not a valid pattern.
    InvalidPattern(String),
    /// Something that this pattern matched could not be read.
    Unreadable(String),
    /// The file system does not lead this directory anywhere.
    NotCanonical(PathBuf),
}

/// What says why members could not be found.
pub enum DiscoverErrorView {
    InvalidPattern(Seq<char>),
    Unreadable(Seq<char>),
    NotCanonical(Seq<char>),
}

impl View for DiscoverError {
    type V = DiscoverErrorView;

    open spec fn view(&self) -> DiscoverErrorView {
        match self {
            DiscoverError::InvalidPattern(pattern) => DiscoverErrorView::InvalidPattern(pattern@),
            DiscoverError::Unreadable(pattern) => DiscoverErrorView::Unreadable(pattern@),
            DiscoverError::NotCanonical(dir) => DiscoverErrorView::NotCanonical(dir@),
        }
    }
}

impl DeepView for DiscoverError {
    type V = DiscoverErrorView;

    open spec fn deep_view(&self) -> DiscoverErrorView {
        self.view()
    }
}

impl DiscoverErrorView {
    /// How the error is written.
    pub open spec fn text(self) -> Seq<char> {
        match self {
            DiscoverErrorView::InvalidPattern(pattern) => "invalid glob pattern: "@ + pattern,
            DiscoverErrorView::Unreadable(pattern) => "error reading glob match for pattern: "@
                + pattern,
            DiscoverErrorView::NotCanonical(dir) => "failed to canonicalize: "@ + dir,
        }
    }
}

impl DiscoverError {
    /// The error as text.
    pub fn message(&self) -> (message: String)
        ensures
            message@ == self@.text(),
    {
        match self {
            DiscoverError::InvalidPattern(pattern) => {
                let mut message: String = "invalid glob pattern: ".to_owned();
                message.append(pattern.as_str());
                message
            },
            DiscoverError::Unreadable(pattern) => {
                let mut message: String = "error reading glob match for pattern: ".to_owned();
                message.append(pattern.as_str());
                message
            },
            DiscoverError::NotCanonical(dir) => {
                let mut message: String = "failed to canonicalize: ".to_owned();
                message.append(dir.as_str());
                message
            },
        }
    }
}

/// The pattern that member directories match, taken from the workspace root.
pub fn member_pattern(root: &PathBuf, pattern: &str) -> (full: PathBuf)
    ensures
        full@ == path::join_text(root@, pattern@),
{
    root.join(pattern)
}

/// The members that were found with those that a match adds: a directory with a
/// manifest, once.
pub open spec fn with_match(
    found: Seq<PathModel>,
    pattern: Seq<char>,
    matched: GlobMatchView,
) -> Result<Seq<PathModel>, DiscoverErrorView> {
    match matched {
        GlobMatchView::Unreadable => Err(DiscoverErrorView::Unreadable(pattern)),
        GlobMatchView::Found { path, is_dir, has_manifest, canonical } => if is_dir
            && has_manifest {
            match canonical {
                Some(dir) => Ok(ordered::with_key(found, PathModel { text: dir })),
                None => Err(DiscoverErrorView::NotCanonical(path)),
            }
        } else {
            Ok(found)
        },
    }
}

/// The members that were found with those that matches add.
pub open spec fn with_matches(
    found: Seq<PathModel>,
    pattern: Seq<char>,
    matches: Seq<GlobMatchView>,
) -> Result<Seq<PathModel>, DiscoverErrorView>
    decreases matches.len(),
{
    if matches.len() == 0 {
        Ok(found)
    } else {
        match with_matches(found, pattern, matches.drop_last()) {
            Ok(found) => with_match(found, pattern, matches.last()),
            Err(error) => Err(error),
        }
    }
}

/// The member directories that patterns matched, in order.
pub open spec fn discovered(patterns: Seq<PatternMatchesView>) -> Result<
    Seq<PathModel>,
    DiscoverErrorView,
>
    decreases patterns.len(),
{
    if patterns.len() == 0 {
        Ok(Seq::empty())
    } else {
        let last = patterns.last();
        match (discovered(patterns.drop_last()), last.matches) {
            (Err(error), _) => Err(error),
            (Ok(_), None) => Err(DiscoverErrorView::InvalidPattern(last.pattern)),
            (Ok(found), Some(matches)) => with_matches(found, last.pattern, matches),
        }
    }
}

proof fn lemma_matches_error(
    found: Seq<PathModel>,
    pattern: Seq<char>,
    matches: Seq<GlobMatchView>,
    n: int,
)
    requires
        0 <= n <= matches.len(),
        with_matches(found, pattern, matches.take(n)) is Err,
    ensures
        with_matches(found, pattern, matches) == with_matches(found, pattern, matches.take(n)),
    decreases matches.len() - n,
{
    if n == matches.len() {
        assert(matches.take(n) =~= matches);
    } else {
        assert(matches.take(n + 1).drop_last() =~= matches.take(n));
        lemma_matches_error(found, pattern, matches, n + 1);
    }
}

proof fn lemma_discovered_error(patterns: Seq<PatternMatchesView>, n: int)
    requires
        0 <= n <= patterns.len(),
        discovered(patterns.take(n)) is Err,
    ensures
        discovered(patterns) == discovered(patterns.take(n)),
    decreases patterns.len() - n,
{
    if n == patterns.len() {
        assert(patterns.take(n) =~= patterns);
    } else {
        assert(patterns.take(n + 1).drop_last() =~= patterns.take(n));
        lemma_discovered_error(patterns, n + 1);
    }
}

/// A match that adds a member: a directory with a manifest.
pub open spec fn is_member_dir(matched: GlobMatchView, dir: Seq<char>) -> bool {
    matched matches GlobMatchView::Found { is_dir, has_manifest, canonical, .. } && is_dir
        && has_manifest && canonical == Some(dir)
}

/// Whether a directory is that of a member by one of the matches.
pub open spec fn is_matched(matches: Seq<GlobMatchView>, dir: Seq<char>) -> bool {
    exists|i: int| 0 <= i < matches.len() && is_member_dir(#[trigger] matches[i], dir)
}

/// Whether a directory is that of a member by one of the patterns.
pub open spec fn is_listed(patterns: Seq<PatternMatchesView>, dir: Seq<char>) -> bool {
    exists|i: int|
        0 <= i < patterns.len() && (#[trigger] patterns[i]).matches is Some && is_matched(
            patterns[i].matches->Some_0,
            dir,
        )
}

proof fn lemma_with_matches(
    found: Seq<PathModel>,
    pattern: Seq<char>,
    matches: Seq<GlobMatchView>,
)
    requires
        ordered::ascending(found),
    ensures
        with_matches(found, pattern, matches) matches Ok(after) ==> {
            &&& ordered::ascending(after)
            &&& forall|key: PathModel|
                ordered::holds(found, key) ==> #[trigger] ordered::holds(after, key)
            &&& forall|dir: Seq<char>| #[trigger]
                is_matched(matches, dir) ==> ordered::holds(after, PathModel { text: dir })
            &&& forall|k: int|
                0 <= k < after.len() ==> found.contains(#[trigger] after[k]) || is_matched(
                    matches,
                    after[k].text,
                )
        },
    decreases matches.len(),
{
    if matches.len() > 0 && with_matches(found, pattern, matches) is Ok {
        let fewer = matches.drop_last();
        let last = matches.last();
        let before = with_matches(found, pattern, fewer)->Ok_0;
        let after = with_matches(found, pattern, matches)->Ok_0;
        lemma_with_matches(found, pattern, fewer);
        if let GlobMatchView::Found { is_dir, has_manifest, canonical, .. } = last {
            if is_dir && has_manifest {
                ordered::lemma_with_key(before, PathModel { text: canonical->Some_0 });
            }
        }
        assert forall|key: PathModel| ordered::holds(found, key) implies #[trigger] ordered::holds(
            after,
            key,
        ) by {
            assert(ordered::holds(before, key));
        }
        assert forall|dir: Seq<char>| #[trigger] is_matched(matches, dir) implies ordered::holds(
            after,
            PathModel { text: dir },
        ) by {
            let i = choose|i: int|
                0 <= i < matches.len() && is_member_dir(#[trigger] matches[i], dir);
            if i < fewer.len() {
                assert(is_member_dir(fewer[i], dir));
                assert(is_matched(fewer, dir));
                assert(ordered::holds(before, PathModel { text: dir }));
            }
        }
        assert forall|k: int| 0 <= k < after.len() implies found.contains(#[trigger] after[k])
            || is_matched(matches, after[k].text) by {
            if before.contains(after[k]) {
                let n = choose|n: int| 0 <= n < before.len() && before[n] == after[k];
                if !found.contains(before[n]) {
                    assert(is_matched(fewer, before[n].text));
                    let i = choose|i: int|
                        0 <= i < fewer.len() && is_member_dir(#[trigger] fewer[i], before[n].text);
                    assert(is_member_dir(matches[i], after[k].text));
                }
            } else {
                assert(is_member_dir(matches[matches.len() - 1], after[k].text));
            }
        }
    }
}

/// The members that are found are exactly the directories with a manifest that
/// a pattern matches, in ascending order and each once.
pub proof fn law_all_members_are_found(patterns: Seq<PatternMatchesView>)
    ensures
        discovered(patterns) matches Ok(found) ==> {
            &&& ordered::ascending(found)
            &&& forall|dir: Seq<char>| #[trigger]
                is_listed(patterns, dir) ==> ordered::holds(found, PathModel { text: dir })
            &&& forall|k: int|
                0 <= k < found.len() ==> is_listed(patterns, (#[trigger] found[k]).text)
        },
    decreases patterns.len(),
{
    if patterns.len() > 0 && discovered(patterns) is Ok {
        let fewer = patterns.drop_last();
        let last = patterns.last();
        let before = discovered(fewer)->Ok_0;
        let found = discovered(patterns)->Ok_0;
        law_all_members_are_found(fewer);
        lemma_with_matches(before, last.pattern, last.matches->Some_0);
        assert forall|dir: Seq<char>| #[trigger] is_listed(patterns, dir) implies ordered::holds(
            found,
            PathModel { text: dir },
        ) by {
            let i = choose|i: int|
                0 <= i < patterns.len() && (#[trigger] patterns[i]).matches is Some && is_matched(
                    patterns[i].matches->Some_0,
                    dir,
                );
            if i < fewer.len() {
                assert(fewer[i] == patterns[i]);
                assert(is_listed(fewer, dir));
                assert(ordered::holds(before, PathModel { text: dir }));
            } else {
                assert(is_matched(last.matches->Some_0, dir));
            }
        }
        assert forall|k: int| 0 <= k < found.len() implies is_listed(
            patterns,
            (#[trigger] found[k]).text,
        ) by {
            if before.contains(found[k]) {
                let n = choose|n: int| 0 <= n < before.len() && before[n] == found[k];
                assert(is_listed(fewer, before[n].text));
                let i = choose|i: int|
                    0 <= i < fewer.len() && (#[trigger] fewer[i]).matches is Some && is_matched(
                        fewer[i].matches->Some_0,
                        before[n].text,
                    );
                assert(patterns[i] == fewer[i]);
            } else {
                assert(patterns[patterns.len() - 1] == last);
            }
        }
    } else if patterns.len() == 0 {
        assert(ordered::ascending(Seq::<PathModel>::empty()));
    }
}

fn add_matches(found: &mut OrdSet<PathBuf>, pattern: &String, matches: &Vec<GlobMatch>) -> (added:
    Result<(), DiscoverError>)
    ensures
        with_matches(old(found)@, pattern@, matches.deep_view()) == match added {
            Ok(_) => Ok(final(found)@),
            Err(error) => Err(error@),
        },
{
    let ghost all = matches.deep_view();
    let ghost first = found@;
    let mut i: usize = 0;
    assert(all.take(0) =~= Seq::<GlobMatchView>::empty());
    while i < matches.len()
        invariant
            i <= matches@.len(),
            all == matches.deep_view(),
            first == old(found)@,
            with_matches(first, pattern@, all.take(i as int)) == Ok::<
                Seq<PathModel>,
                DiscoverErrorView,
            >(found@),
        decreases matches@.len() - i,
    {
        let matched: &GlobMatch = &matches[i];
        proof {
            assert(all[i as int] == matched@);
            assert(all.take(i + 1).last() == matched@);
            assert(all.take(i + 1).drop_last() =~= all.take(i as int));
        }
        match matched {
            GlobMatch::Unreadable => {
                proof {
                    lemma_matches_error(first, pattern@, all, i + 1);
                }
                return Err(DiscoverError::Unreadable(pattern.clone()));
            },
            GlobMatch::Found { path, is_dir, has_manifest, canonical } => {
                if *is_dir && *has_manifest {
                    match canonical {
                        Some(dir) => {
                            found.insert(dir.duplicate());
                        },
                        None => {
                            proof {
                                lemma_matches_error(first, pattern@, all, i + 1);
                            }
                            return Err(DiscoverError::NotCanonical(path.duplicate()));
                        },
                    }
                }
            },
        }
        i += 1;
    }
    assert(all.take(all.len() as int) =~= all);
    Ok(())
}

/// The member directories that the patterns of a workspace matched: those with a
/// manifest, each once and in order.
pub fn discover_members(patterns: &Vec<PatternMatches>) -> (members: Result<
    OrdSet<PathBuf>,
    DiscoverError,
>)
    ensures
        plain::outcome(members) == discovered(patterns.deep_view()),
{
    let mut found: OrdSet<PathBuf> = OrdSet::new();
    let ghost all = patterns.deep_view();
    let mut i: usize = 0;
    assert(all.take(0) =~= Seq::<PatternMatchesView>::empty());
    while i < patterns.len()
        invariant
            i <= patterns@.len(),
            all == patterns.deep_view(),
            discovered(all.take(i as int)) == Ok::<Seq<PathModel>, DiscoverErrorView>(found@),
        decreases patterns@.len() - i,
    {
        let matched: &PatternMatches = &patterns[i];
        proof {
            assert(all[i as int] == matched@);
            assert(all.take(i + 1).last() == matched@);
            assert(all.take(i + 1).drop_last() =~= all.take(i as int));
        }
        match &matched.matches {
            Some(matches) => match add_matches(&mut found, &matched.pattern, matches) {
                Ok(_) => {},
                Err(error) => {
                    proof {
                        lemma_discovered_error(all, i + 1);
                    }
                    return Err(error);
                },
            },
            None => {
                proof {
                    lemma_discovered_error(all, i + 1);
                }
                return Err(DiscoverError::InvalidPattern(matched.pattern.clone()));
            },
        }
        i += 1;
    }
    assert(all.take(all.len() as int) =~= all);
    Ok(found)
}

// ---------------------------------------------------------------------------
// Directories of path dependencies
// ---------------------------------------------------------------------------

/// The directories that path dependencies of a package in `dir` point to.
pub open spec fn target_dirs(dir: Seq<char>, deps: DependencyMapView) -> Seq<Seq<char>>
    decreases deps.len(),
{
    if deps.len() == 0 {
        Seq::empty()
    } else {
        let before = target_dirs(dir, deps.drop_last());
        match deps.last().1 {
            DependencySpecView::Path(path) => before.push(path::join_text(dir, path)),
            _ => before,
        }
    }
}

/// The directories that path dependencies of members point to.
pub open spec fn all_target_dirs(members: MembersView) -> Seq<Seq<char>>
    decreases members.len(),
{
    if members.len() == 0 {
        Seq::empty()
    } else {
        let (dir, manifest) = members.last();
        all_target_dirs(members.drop_last()) + target_dirs(dir.text, manifest.dependencies)
            + target_dirs(dir.text, manifest.server_dependencies) + target_dirs(
            dir.text,
            manifest.dev_dependencies,
        )
    }
}

fn add_target_dirs(dir: &PathBuf, deps: &DependencyMap, dirs: &mut Vec<PathBuf>)
    ensures
        final(dirs).deep_view() == old(dirs).deep_view() + target_dirs(dir@, deps@),
{
    let ghost all = deps@;
    let ghost first = dirs.deep_view();
    let mut i: usize = 0;
    assert(all.take(0) =~= Seq::empty());
    assert(dirs.deep_view() =~= first + target_dirs(dir@, all.take(0)));
    while i < deps.len()
        invariant
            i <= deps@.len(),
            all == deps@,
            first == old(dirs).deep_view(),
            dirs.deep_view() == first + target_dirs(dir@, all.take(i as int)),
        decreases deps@.len() - i,
    {
        let ghost before = dirs.deep_view();
        proof {
            assert(all.take(i + 1).last() == all[i as int]);
            assert(all.take(i + 1).drop_last() =~= all.take(i as int));
        }
        if let DependencySpec::Path(spec) = deps.value_at(i) {
            let target: PathBuf = dir.join(spec.path.as_str());
            dirs.push(target);
            assert(dirs.deep_view() =~= before.push(target@));
            assert(first + target_dirs(dir@, all.take(i as int)).push(target@) =~= before.push(
                target@,
            ));
        }
        i += 1;
    }
    assert(all.take(all.len() as int) =~= all);
}

impl Workspace {
    /// The directories that path dependencies of the members point to. Where the
    /// file system leads them to has to be known before the workspace is
    /// resolved or published.
    pub fn path_dependency_dirs(&self) -> (dirs: Vec<PathBuf>)
        ensures
            dirs.deep_view() == all_target_dirs(self@.members),
    {
        let mut dirs: Vec<PathBuf> = Vec::new();
        let ghost all = self@.members;
        let mut i: usize = 0;
        assert(all.take(0) =~= Seq::empty());
        assert(dirs.deep_view() =~= Seq::<Seq<char>>::empty());
        while i < self.members.len()
            invariant
                i <= all.len(),
                all == self@.members,
                dirs.deep_view() == all_target_dirs(all.take(i as int)),
            decreases all.len() - i,
        {
            let dir: &PathBuf = self.members.key_at(i);
            let manifest: &Manifest = self.members.value_at(i);
            proof {
                assert(all.take(i + 1).last() == all[i as int]);
                assert(all.take(i + 1).drop_last() =~= all.take(i as int));
            }
            add_target_dirs(dir, &manifest.dependencies, &mut dirs);
            add_target_dirs(dir, &manifest.server_dependencies, &mut dirs);
            add_target_dirs(dir, &manifest.dev_dependencies, &mut dirs);
            i += 1;
        }
        assert(all.take(all.len() as int) =~= all);
        dirs
    }
}

// ---------------------------------------------------------------------------
// Messages
// ---------------------------------------------------------------------------

impl Field {
    /// How the field is written.
    pub open spec fn text(self) -> Seq<char> {
        match self {
            Field::Registry => "registry"@,
            Field::Realm => "realm"@,
        }
    }

    fn name(self) -> (name: &'static str)
        ensures
            name@ == self.text(),
    {
        match self {
            Field::Registry => "registry",
            Field::Realm => "realm",
        }
    }
}

impl Section {
    /// How the section is written.
    pub open spec fn text(self) -> Seq<char> {
        match self {
            Section::Dependencies => "[dependencies]"@,
            Section::ServerDependencies => "[server-dependencies]"@,
            Section::DevDependencies => "[dev-dependencies]"@,
        }
    }

    /// The section as it is written.
    pub fn name(self) -> (name: &'static str)
        ensures
            name@ == self.text(),
    {
        match self {
            Section::Dependencies => "[dependencies]",
            Section::ServerDependencies => "[server-dependencies]",
            Section::DevDependencies => "[dev-dependencies]",
        }
    }
}

impl MemberErrorView {
    /// How the error is written.
    pub open spec fn text(self) -> Seq<char> {
        match self {
            MemberErrorView::Unreadable(reason) => reason,
            MemberErrorView::Field { field, fault: FieldFault::NotDefined } => {
                "field '"@ + field.text()
                    + "' is set to `workspace = true` but the workspace root does not define it"@
            },
            MemberErrorView::Field { field, fault: FieldFault::InvalidDirective } => {
                "field '"@ + field.text()
                    + "' has `workspace = false` which is not a valid directive"@
            },
            MemberErrorView::Field { field, fault: FieldFault::NotSet } => {
                "field '"@ + field.text()
                    + "' is not set and the workspace root does not provide a default"@
            },
            MemberErrorView::Dependency { section, alias, fault: DependencyFault::NotDefined } => {
                "failed to resolve "@ + section.text() + ": dependency '"@ + alias
                    + "' is set to `workspace = true` but is not defined in [workspace.dependencies]"@
            },
            MemberErrorView::Dependency { section, alias, fault: DependencyFault::InvalidDirective } => {
                "failed to resolve "@ + section.text() + ": dependency '"@ + alias
                    + "' has `workspace = false` which is not a valid directive"@
            },
        }
    }
}

impl MemberError {
    /// The error as text.
    pub fn message(&self) -> (message: String)
        ensures
            message@ == self@.text(),
    {
        match self {
            MemberError::Unreadable(reason) => {
                reason.as_str().to_owned()
            },
            MemberError::Field { field, fault: FieldFault::NotDefined } => {
                let mut message: String = "field '".to_owned();
                message.append(field.name());
                message.append("' is set to `workspace = true` but the workspace root does not define it");
                message
            },
            MemberError::Field { field, fault: FieldFault::InvalidDirective } => {
                let mut message: String = "field '".to_owned();
                message.append(field.name());
                message.append("' has `workspace = false` which is not a valid directive");
                message
            },
            MemberError::Field { field, fault: FieldFault::NotSet } => {
                let mut message: String = "field '".to_owned();
                message.append(field.name());
                message.append("' is not set and the workspace root does not provide a default");
                message
            },
            MemberError::Dependency { section, alias, fault: DependencyFault::NotDefined } => {
                let mut message: String = "failed to resolve ".to_owned();
                message.append(section.name());
                message.append(": dependency '");
                message.append(alias.as_str());
                message.append("' is set to `workspace = true` but is not defined in [workspace.dependencies]");
                message
            },
            MemberError::Dependency { section, alias, fault: DependencyFault::InvalidDirective } => {
                let mut message: String = "failed to resolve ".to_owned();
                message.append(section.name());
                message.append(": dependency '");
                message.append(alias.as_str());
                message.append("' has `workspace = false` which is not a valid directive");
                message
            },
        }
    }
}

impl WorkspaceErrorView {
    /// How the error is written.
    pub open spec fn text(self) -> Seq<char> {
        match self {
            WorkspaceErrorView::NoSection => "manifest has neither [package] nor [workspace]"@,
            WorkspaceErrorView::Member { dir, error } => {
                "failed to load member at "@ + dir + ": "@ + error.text()
            },
            WorkspaceErrorView::NoMembers => "workspace has no members: no directories matched the member patterns"@,
            WorkspaceErrorView::NoRegistry => "workspace must specify a registry in [workspace] or have a root [package] with a registry"@,
            WorkspaceErrorView::DuplicateName { name, first, second } => {
                "duplicate package name '"@ + package_name::name_text(name) + "' found at "@ + first
                    + " and "@ + second
            },
            WorkspaceErrorView::NoDefaultMember(name) => {
                "default-member '"@ + package_name::name_text(name)
                    + "' does not match any workspace member"@
            },
        }
    }
}

impl WorkspaceError {
    /// The error as text.
    pub fn message(&self) -> (message: String)
        ensures
            message@ == self@.text(),
    {
        match self {
            WorkspaceError::NoSection => {
                "manifest has neither [package] nor [workspace]".to_owned()
            },
            WorkspaceError::Member { dir, error } => {
                let mut message: String = "failed to load member at ".to_owned();
                message.append(dir.as_str());
                message.append(": ");
                message.append(error.message().as_str());
                message
            },
            WorkspaceError::NoMembers => {
                "workspace has no members: no directories matched the member patterns".to_owned()
            },
            WorkspaceError::NoRegistry => {
                "workspace must specify a registry in [workspace] or have a root [package] with a registry".to_owned()
            },
            WorkspaceError::DuplicateName { name, first, second } => {
                let mut message: String = "duplicate package name '".to_owned();
                message.append(name.to_text().as_str());
                message.append("' found at ");
                message.append(first.as_str());
                message.append(" and ");
                message.append(second.as_str());
                message
            },
            WorkspaceError::NoDefaultMember(name) => {
                let mut message: String = "default-member '".to_owned();
                message.append(name.to_text().as_str());
                message.append("' does not match any workspace member");
                message
            },
        }
    }
}

/// Whether one of the dependencies of a package in `dir` is by a path that leads to
/// `target`.
pub open spec fn points_to(dir: Seq<char>, deps: DependencyMapView, target: Seq<char>) -> bool {
    exists|j: int|
        0 <= j < deps.len() && ((#[trigger] deps[j]).1 matches DependencySpecView::Path(path)
            && target == path::join_text(dir, path))
}

/// The directories that have to be looked up are exactly those that the path
/// dependencies of members lead to, each taken from the directory of its member.
pub proof fn law_all_path_dependencies_are_looked_up(members: MembersView, target: Seq<char>)
    ensures
        all_target_dirs(members).contains(target) <==> exists|i: int|
            {
                &&& 0 <= i < members.len()
                &&& {
                    let (dir, manifest) = #[trigger] members[i];
                    ||| points_to(dir.text, manifest.dependencies, target)
                    ||| points_to(dir.text, manifest.server_dependencies, target)
                    ||| points_to(dir.text, manifest.dev_dependencies, target)
                }
            },
    decreases members.len(),
{
    if members.len() > 0 {
        let fewer = members.drop_last();
        let n = members.len() - 1;
        let (dir, manifest) = members.last();
        law_all_path_dependencies_are_looked_up(fewer, target);
        lemma_target_dirs(dir.text, manifest.dependencies, target);
        lemma_target_dirs(dir.text, manifest.server_dependencies, target);
        lemma_target_dirs(dir.text, manifest.dev_dependencies, target);
        let a = all_target_dirs(fewer);
        let b = target_dirs(dir.text, manifest.dependencies);
        let c = target_dirs(dir.text, manifest.server_dependencies);
        let d = target_dirs(dir.text, manifest.dev_dependencies);
        lemma_holds_concat(a + b + c, d, target);
        lemma_holds_concat(a + b, c, target);
        lemma_holds_concat(a, b, target);
        assert(members[n] == members.last());
        if a.contains(target) {
            let i = choose|i: int|
                {
                    &&& 0 <= i < fewer.len()
                    &&& {
                        let (dir, manifest) = #[trigger] fewer[i];
                        ||| points_to(dir.text, manifest.dependencies, target)
                        ||| points_to(dir.text, manifest.server_dependencies, target)
                        ||| points_to(dir.text, manifest.dev_dependencies, target)
                    }
                };
            assert(members[i] == fewer[i]);
        }
        assert forall|i: int|
            {
                &&& 0 <= i < members.len()
                &&& {
                    let (dir, manifest) = #[trigger] members[i];
                    ||| points_to(dir.text, manifest.dependencies, target)
                    ||| points_to(dir.text, manifest.server_dependencies, target)
                    ||| points_to(dir.text, manifest.dev_dependencies, target)
                }
            } implies all_target_dirs(members).contains(target) by {
            if i < n {
                assert(fewer[i] == members[i]);
            }
        }
    }
}

proof fn lemma_holds_concat(a: Seq<Seq<char>>, b: Seq<Seq<char>>, target: Seq<char>)
    ensures
        (a + b).contains(target) <==> a.contains(target) || b.contains(target),
{
    if a.contains(target) {
        let i = choose|i: int| 0 <= i < a.len() && a[i] == target;
        assert((a + b)[i] == target);
    }
    if b.contains(target) {
        let i = choose|i: int| 0 <= i < b.len() && b[i] == target;
        assert((a + b)[a.len() + i] == target);
    }
    if (a + b).contains(target) {
        let i = choose|i: int| 0 <= i < (a + b).len() && (a + b)[i] == target;
        if i < a.len() {
            assert(a[i] == target);
        } else {
            assert(b[i - a.len()] == target);
        }
    }
}

proof fn lemma_target_dirs(dir: Seq<char>, deps: DependencyMapView, target: Seq<char>)
    ensures
        target_dirs(dir, deps).contains(target) <==> points_to(dir, deps, target),
    decreases deps.len(),
{
    if deps.len() > 0 {
        let fewer = deps.drop_last();
        let n = deps.len() - 1;
        let before = target_dirs(dir, fewer);
        lemma_target_dirs(dir, fewer, target);
        assert(deps[n] == deps.last());
        if let DependencySpecView::Path(path) = deps.last().1 {
            let found = path::join_text(dir, path);
            assert(target_dirs(dir, deps) =~= before + seq![found]);
            lemma_holds_concat(before, seq![found], target);
            assert(seq![found].contains(target) <==> found == target) by {
                assert(seq![found][0] == found);
            }
        }
        if points_to(dir, fewer, target) {
            let j = choose|j: int|
                0 <= j < fewer.len() && ((#[trigger] fewer[j]).1 matches DependencySpecView::Path(
                    path,
                ) && target == path::join_text(dir, path));
            assert(deps[j] == fewer[j]);
        }
        if points_to(dir, deps, target) {
            let j = choose|j: int|
                0 <= j < deps.len() && ((#[trigger] deps[j]).1 matches DependencySpecView::Path(
                    path,
                ) && target == path::join_text(dir, path));
            if j < n {
                assert(fewer[j] == deps[j]);
            }
        }
    }
}

/// A match that stops the search: one that cannot be read, or a directory with a
/// manifest that has no canonical path.
pub open spec fn is_faulty(
    pattern: Seq<char>,
    matched: GlobMatchView,
    error: DiscoverErrorView,
) -> bool {
    match matched {
        GlobMatchView::Unreadable => error == DiscoverErrorView::Unreadable(pattern),
        GlobMatchView::Found { path, is_dir, has_manifest, canonical } => is_dir && has_manifest
            && canonical is None && error == DiscoverErrorView::NotCanonical(path),
    }
}

/// A pattern that stops the search: one that is no pattern, or that has such a
/// match.
pub open spec fn is_faulty_pattern(pattern: PatternMatchesView, error: DiscoverErrorView) -> bool {
    match pattern.matches {
        None => error == DiscoverErrorView::InvalidPattern(pattern.pattern),
        Some(matches) => has_first_fault(pattern.pattern, matches, error),
    }
}

/// No match before this one stops the search, and this one does.
pub open spec fn has_first_fault(
    pattern: Seq<char>,
    matches: Seq<GlobMatchView>,
    error: DiscoverErrorView,
) -> bool {
    exists|j: int|
        {
            &&& 0 <= j < matches.len()
            &&& is_faulty(pattern, #[trigger] matches[j], error)
            &&& are_sound(pattern, matches.take(j))
        }
}

/// No match stops the search.
pub open spec fn are_sound(pattern: Seq<char>, matches: Seq<GlobMatchView>) -> bool {
    forall|j: int, error: DiscoverErrorView|
        0 <= j < matches.len() ==> !#[trigger] is_faulty(pattern, matches[j], error)
}

/// No pattern stops the search.
pub open spec fn are_sound_patterns(patterns: Seq<PatternMatchesView>) -> bool {
    forall|i: int, error: DiscoverErrorView|
        0 <= i < patterns.len() ==> !#[trigger] is_faulty_pattern(patterns[i], error)
}

/// Members are found exactly if no pattern stops the search, and where the search
/// stops, it is for the first pattern that stops it.
pub proof fn law_searches_stop_for_a_reason(patterns: Seq<PatternMatchesView>)
    ensures
        match discovered(patterns) {
            Ok(_) => are_sound_patterns(patterns),
            Err(error) => exists|i: int|
                {
                    &&& 0 <= i < patterns.len()
                    &&& is_faulty_pattern(#[trigger] patterns[i], error)
                    &&& are_sound_patterns(patterns.take(i))
                },
        },
    decreases patterns.len(),
{
    if patterns.len() > 0 {
        let fewer = patterns.drop_last();
        let n = patterns.len() - 1;
        let last = patterns.last();
        law_searches_stop_for_a_reason(fewer);
        assert(patterns[n] == last);
        match discovered(fewer) {
            Err(error) => {
                let i = choose|i: int|
                    {
                        &&& 0 <= i < fewer.len()
                        &&& is_faulty_pattern(#[trigger] fewer[i], error)
                        &&& are_sound_patterns(fewer.take(i))
                    };
                assert(patterns[i] == fewer[i]);
                assert(patterns.take(i) =~= fewer.take(i));
            },
            Ok(found) => {
                if let Some(matches) = last.matches {
                    lemma_matches_stop_for_a_reason(found, last.pattern, matches);
                }
                assert(patterns.take(n) =~= fewer);
                if discovered(patterns) is Ok {
                    assert forall|i: int, error: DiscoverErrorView|
                        0 <= i < patterns.len() implies !#[trigger] is_faulty_pattern(
                        patterns[i],
                        error,
                    ) by {
                        if i < n {
                            assert(fewer[i] == patterns[i]);
                            assert(!is_faulty_pattern(fewer[i], error));
                        }
                    }
                } else {
                    assert(is_faulty_pattern(patterns[n], discovered(patterns)->Err_0));
                }
            },
        }
    }
}

proof fn lemma_matches_stop_for_a_reason(
    found: Seq<PathModel>,
    pattern: Seq<char>,
    matches: Seq<GlobMatchView>,
)
    ensures
        match with_matches(found, pattern, matches) {
            Ok(_) => are_sound(pattern, matches),
            Err(error) => has_first_fault(pattern, matches, error),
        },
    decreases matches.len(),
{
    if matches.len() > 0 {
        let fewer = matches.drop_last();
        let n = matches.len() - 1;
        lemma_matches_stop_for_a_reason(found, pattern, fewer);
        assert(matches[n] == matches.last());
        match with_matches(found, pattern, fewer) {
            Err(error) => {
                let j = choose|j: int|
                    {
                        &&& 0 <= j < fewer.len()
                        &&& is_faulty(pattern, #[trigger] fewer[j], error)
                        &&& are_sound(pattern, fewer.take(j))
                    };
                assert(matches[j] == fewer[j]);
                assert(matches.take(j) =~= fewer.take(j));
            },
            Ok(before) => {
                assert(matches.take(n) =~= fewer);
                if with_matches(found, pattern, matches) is Ok {
                    assert forall|j: int, error: DiscoverErrorView|
                        0 <= j < matches.len() implies !#[trigger] is_faulty(
                        pattern,
                        matches[j],
                        error,
                    ) by {
                        if j < n {
                            assert(fewer[j] == matches[j]);
                            assert(!is_faulty(pattern, fewer[j], error));
                        }
                    }
                } else {
                    assert(is_faulty(
                        pattern,
                        matches[n],
                        with_matches(found, pattern, matches)->Err_0,
                    ));
                }
            },
        }
    }
}

/// What is read of a member shows every field as it was read.
pub proof fn law_members_show_what_was_read(raw: RawMemberManifest)
    ensures
        raw@.package.name == raw.package.name@,
        raw@.package.version == raw.package.version@,
        raw@.package.registry == raw.package.registry.deep_view(),
        raw@.package.realm == raw.package.realm.deep_view(),
        raw@.package.description == raw.package.description.deep_view(),
        raw@.package.license == raw.package.license.deep_view(),
        raw@.package.authors == raw.package.authors.deep_view(),
        raw@.package.includes == raw.package.includes.deep_view(),
        raw@.package.exclude == raw.package.exclude.deep_view(),
        raw@.package.private == raw.package.private,
        raw@.package.homepage == raw.package.homepage.deep_view(),
        raw@.package.repository == raw.package.repository.deep_view(),
        raw@.place.shared_packages == raw.place.shared_packages.deep_view(),
        raw@.place.server_packages == raw.place.server_packages.deep_view(),
        raw@.dependencies == raw.dependencies@,
        raw@.server_dependencies == raw.server_dependencies@,
        raw@.dev_dependencies == raw.dev_dependencies@,
{
}

} // verus!
