//! What manifests hold.

use vstd::prelude::*;

use crate::dependency_spec::{DependencySpec, DependencySpecView};
use crate::ordered::OrdMap;
use crate::package_id::{PackageId, PackageIdView};
use crate::package_name::{PackageName, PackageNameView};
use crate::plain::Plain;
use crate::version::{Version, VersionView};

verus! {

/// The file name of a manifest.
pub const MANIFEST_FILE_NAME: &'static str = "wally.toml";

/// Where a package can run.
#[derive(Debug, Clone, Copy, PartialEq, Eq, Structural)]
pub enum Realm {
    Server,
    Shared,
    Dev,
}

impl DeepView for Realm {
    type V = Realm;

    open spec fn deep_view(&self) -> Realm {
        *self
    }
}

impl Plain for Realm {
    fn duplicate(&self) -> (copy: Self) {
        *self
    }
}

impl Realm {
    /// A dependency of the shared realm has to be a package of the shared
    /// realm. The others can be packages of any.
    pub open spec fn allows(self, dep_realm: Realm) -> bool {
        self == Realm::Shared ==> dep_realm == Realm::Shared
    }

    /// How the realm is written in messages.
    pub open spec fn text(self) -> Seq<char> {
        match self {
            Realm::Server => "Server"@,
            Realm::Shared => "Shared"@,
            Realm::Dev => "Dev"@,
        }
    }

    /// Whether a dependency of one realm can be a package of another.
    pub fn is_dependency_valid(dep_type: Realm, dep_realm: Realm) -> (valid: bool)
        ensures
            valid == dep_type.allows(dep_realm),
    {
        match (dep_type, dep_realm) {
            (Realm::Server, _) => true,
            (Realm::Shared, Realm::Shared) => true,
            (Realm::Dev, _) => true,
            _ => false,
        }
    }

    /// The realm as it is written in messages.
    pub fn to_text(self) -> (written: &'static str)
        ensures
            written@ == self.text(),
    {
        match self {
            Realm::Server => "Server",
            Realm::Shared => "Shared",
            Realm::Dev => "Dev",
        }
    }
}

/// The `[package]` section.
#[derive(Debug, PartialEq, Eq)]
pub struct Package {
    pub name: PackageName,
    pub version: Version,
    pub registry: String,
    pub realm: Realm,
    pub description: Option<String>,
    pub license: Option<String>,
    pub authors: Vec<String>,
    pub includes: Vec<String>,
    pub exclude: Vec<String>,
    pub private: bool,
    pub homepage: Option<String>,
    pub repository: Option<String>,
}

/// What a `[package]` section holds.
#[verifier::ext_equal]
pub struct PackageView {
    pub name: PackageNameView,
    pub version: VersionView,
    pub registry: Seq<char>,
    pub realm: Realm,
    pub description: Option<Seq<char>>,
    pub license: Option<Seq<char>>,
    pub authors: Seq<Seq<char>>,
    pub includes: Seq<Seq<char>>,
    pub exclude: Seq<Seq<char>>,
    pub private: bool,
    pub homepage: Option<Seq<char>>,
    pub repository: Option<Seq<char>>,
}

impl View for Package {
    type V = PackageView;

    open spec fn view(&self) -> PackageView {
        PackageView {
            name: self.name@,
            version: self.version@,
            registry: self.registry@,
            realm: self.realm,
            description: self.description.deep_view(),
            license: self.license.deep_view(),
            authors: self.authors.deep_view(),
            includes: self.includes.deep_view(),
            exclude: self.exclude.deep_view(),
            private: self.private,
            homepage: self.homepage.deep_view(),
            repository: self.repository.deep_view(),
        }
    }
}

impl DeepView for Package {
    type V = PackageView;

    open spec fn deep_view(&self) -> PackageView {
        self.view()
    }
}

impl Plain for Package {
    fn duplicate(&self) -> (copy: Self) {
        Package {
            name: self.name.duplicate(),
            version: self.version.duplicate(),
            registry: self.registry.clone(),
            realm: self.realm,
            description: self.description.duplicate(),
            license: self.license.duplicate(),
            authors: self.authors.duplicate(),
            includes: self.includes.duplicate(),
            exclude: self.exclude.duplicate(),
            private: self.private,
            homepage: self.homepage.duplicate(),
            repository: self.repository.duplicate(),
        }
    }
}

impl Clone for Package {
    fn clone(&self) -> (copy: Self)
        ensures
            copy@ == self@,
    {
        self.duplicate()
    }
}

/// The `[place]` section: where the packages stand in the place.
#[derive(Debug, PartialEq, Eq)]
pub struct PlaceInfo {
    pub shared_packages: Option<String>,
    pub server_packages: Option<String>,
}

/// What a `[place]` section holds.
pub struct PlaceInfoView {
    pub shared_packages: Option<Seq<char>>,
    pub server_packages: Option<Seq<char>>,
}

impl View for PlaceInfo {
    type V = PlaceInfoView;

    open spec fn view(&self) -> PlaceInfoView {
        PlaceInfoView {
            shared_packages: self.shared_packages.deep_view(),
            server_packages: self.server_packages.deep_view(),
        }
    }
}

impl DeepView for PlaceInfo {
    type V = PlaceInfoView;

    open spec fn deep_view(&self) -> PlaceInfoView {
        self.view()
    }
}

impl Plain for PlaceInfo {
    fn duplicate(&self) -> (copy: Self) {
        PlaceInfo {
            shared_packages: self.shared_packages.duplicate(),
            server_packages: self.server_packages.duplicate(),
        }
    }
}

impl Clone for PlaceInfo {
    fn clone(&self) -> (copy: Self)
        ensures
            copy@ == self@,
    {
        self.duplicate()
    }
}

impl Default for PlaceInfo {
    fn default() -> (place: Self)
        ensures
            place@ == (PlaceInfoView { shared_packages: None, server_packages: None }),
    {
        PlaceInfo { shared_packages: None, server_packages: None }
    }
}

/// Dependencies by their aliases.
pub type DependencyMap = OrdMap<String, DependencySpec>;

/// What dependencies by their aliases hold.
pub type DependencyMapView = Seq<(Seq<char>, DependencySpecView)>;

/// The manifest of a package.
#[derive(Debug, PartialEq, Eq)]
pub struct Manifest {
    pub package: Package,
    pub place: PlaceInfo,
    pub dependencies: DependencyMap,
    pub server_dependencies: DependencyMap,
    pub dev_dependencies: DependencyMap,
}

/// What a manifest holds.
#[verifier::ext_equal]
pub struct ManifestView {
    pub package: PackageView,
    pub place: PlaceInfoView,
    pub dependencies: DependencyMapView,
    pub server_dependencies: DependencyMapView,
    pub dev_dependencies: DependencyMapView,
}

impl View for Manifest {
    type V = ManifestView;

    open spec fn view(&self) -> ManifestView {
        ManifestView {
            package: self.package@,
            place: self.place@,
            dependencies: self.dependencies@,
            server_dependencies: self.server_dependencies@,
            dev_dependencies: self.dev_dependencies@,
        }
    }
}

impl DeepView for Manifest {
    type V = ManifestView;

    open spec fn deep_view(&self) -> ManifestView {
        self.view()
    }
}

impl Plain for Manifest {
    fn duplicate(&self) -> (copy: Self) {
        Manifest {
            package: self.package.duplicate(),
            place: self.place.duplicate(),
            dependencies: self.dependencies.duplicate(),
            server_dependencies: self.server_dependencies.duplicate(),
            dev_dependencies: self.dev_dependencies.duplicate(),
        }
    }
}

impl Clone for Manifest {
    fn clone(&self) -> (copy: Self)
        ensures
            copy@ == self@,
    {
        self.duplicate()
    }
}

impl ManifestView {
    /// The id of the package.
    pub open spec fn package_id(self) -> PackageIdView {
        PackageIdView { name: self.package.name, version: self.package.version }
    }
}

impl Manifest {
    /// The id of the package.
    pub fn package_id(&self) -> (id: PackageId)
        ensures
            id@ == self@.package_id(),
    {
        PackageId::new(self.package.name.duplicate(), self.package.version.duplicate())
    }
}

/// The `[workspace]` section.
#[derive(Debug, PartialEq, Eq)]
pub struct WorkspaceMetadata {
    pub members: Vec<String>,
    pub registry: Option<String>,
    pub realm: Option<Realm>,
    pub default_member: Option<PackageName>,
    pub place: PlaceInfo,
    pub dependencies: DependencyMap,
}

/// What a `[workspace]` section holds.
#[verifier::ext_equal]
pub struct WorkspaceMetadataView {
    pub members: Seq<Seq<char>>,
    pub registry: Option<Seq<char>>,
    pub realm: Option<Realm>,
    pub default_member: Option<PackageNameView>,
    pub place: PlaceInfoView,
    pub dependencies: DependencyMapView,
}

impl View for WorkspaceMetadata {
    type V = WorkspaceMetadataView;

    open spec fn view(&self) -> WorkspaceMetadataView {
        WorkspaceMetadataView {
            members: self.members.deep_view(),
            registry: self.registry.deep_view(),
            realm: self.realm,
            default_member: self.default_member.deep_view(),
            place: self.place@,
            dependencies: self.dependencies@,
        }
    }
}

impl DeepView for WorkspaceMetadata {
    type V = WorkspaceMetadataView;

    open spec fn deep_view(&self) -> WorkspaceMetadataView {
        self.view()
    }
}

/// A manifest that can be that of a package, of a workspace or of both.
#[derive(Debug, PartialEq, Eq)]
pub struct ProjectManifest {
    pub package: Option<Package>,
    pub workspace: Option<WorkspaceMetadata>,
    pub place: PlaceInfo,
    pub dependencies: DependencyMap,
    pub server_dependencies: DependencyMap,
    pub dev_dependencies: DependencyMap,
}

/// What a project manifest holds.
#[verifier::ext_equal]
pub struct ProjectManifestView {
    pub package: Option<PackageView>,
    pub workspace: Option<WorkspaceMetadataView>,
    pub place: PlaceInfoView,
    pub dependencies: DependencyMapView,
    pub server_dependencies: DependencyMapView,
    pub dev_dependencies: DependencyMapView,
}

impl View for ProjectManifest {
    type V = ProjectManifestView;

    open spec fn view(&self) -> ProjectManifestView {
        ProjectManifestView {
            package: self.package.deep_view(),
            workspace: self.workspace.deep_view(),
            place: self.place@,
            dependencies: self.dependencies@,
            server_dependencies: self.server_dependencies@,
            dev_dependencies: self.dev_dependencies@,
        }
    }
}

/// A field that a member defines itself or takes over from its workspace.
#[derive(Debug, PartialEq, Eq)]
pub enum WorkspaceInheritable<T> {
    Defined(T),
    Workspace { workspace: bool },
}

impl<T: DeepView> DeepView for WorkspaceInheritable<T> {
    type V = WorkspaceInheritable<T::V>;

    open spec fn deep_view(&self) -> WorkspaceInheritable<T::V> {
        match self {
            WorkspaceInheritable::Defined(value) => WorkspaceInheritable::Defined(
                value.deep_view(),
            ),
            WorkspaceInheritable::Workspace { workspace } => WorkspaceInheritable::Workspace {
                workspace: *workspace,
            },
        }
    }
}

impl<T: Plain> Plain for WorkspaceInheritable<T> {
    fn duplicate(&self) -> (copy: Self) {
        match self {
            WorkspaceInheritable::Defined(value) => WorkspaceInheritable::Defined(
                value.duplicate(),
            ),
            WorkspaceInheritable::Workspace { workspace } => WorkspaceInheritable::Workspace {
                workspace: *workspace,
            },
        }
    }
}

/// Two manifests are taken for the same only if they agree in every field, each
/// with its own counterpart.
pub proof fn law_manifests_are_known_by_every_field(a: Manifest, b: Manifest)
    ensures
        a@ == b@ <==> {
            &&& a.package.name@ == b.package.name@
            &&& a.package.version@ == b.package.version@
            &&& a.package.registry@ == b.package.registry@
            &&& a.package.realm == b.package.realm
            &&& a.package.description.deep_view() == b.package.description.deep_view()
            &&& a.package.license.deep_view() == b.package.license.deep_view()
            &&& a.package.authors.deep_view() == b.package.authors.deep_view()
            &&& a.package.includes.deep_view() == b.package.includes.deep_view()
            &&& a.package.exclude.deep_view() == b.package.exclude.deep_view()
            &&& a.package.private == b.package.private
            &&& a.package.homepage.deep_view() == b.package.homepage.deep_view()
            &&& a.package.repository.deep_view() == b.package.repository.deep_view()
            &&& a.place.shared_packages.deep_view() == b.place.shared_packages.deep_view()
            &&& a.place.server_packages.deep_view() == b.place.server_packages.deep_view()
            &&& a.dependencies@ == b.dependencies@
            &&& a.server_dependencies@ == b.server_dependencies@
            &&& a.dev_dependencies@ == b.dev_dependencies@
        },
        a@.package.private == a.package.private,
        a@.package.realm == a.package.realm,
        a@.package.registry == a.package.registry@,
        a@.package.includes == a.package.includes.deep_view(),
        a@.package.exclude == a.package.exclude.deep_view(),
        a@.package.homepage == a.package.homepage.deep_view(),
        a@.package.repository == a.package.repository.deep_view(),
        a@.package.description == a.package.description.deep_view(),
        a@.package.license == a.package.license.deep_view(),
        a@.package.authors == a.package.authors.deep_view(),
        a@.package.name == a.package.name@,
        a@.package.version == a.package.version@,
        a@.place.shared_packages == a.place.shared_packages.deep_view(),
        a@.place.server_packages == a.place.server_packages.deep_view(),
        a@.dependencies == a.dependencies@,
        a@.server_dependencies == a.server_dependencies@,
        a@.dev_dependencies == a.dev_dependencies@,
{
}

/// A shared dependency has to be a package of the shared realm, and no other
/// dependency has to be of any one realm.
pub proof fn law_only_shared_dependencies_are_bound_to_a_realm(section: Realm, realm: Realm)
    ensures
        !section.allows(realm) <==> section == Realm::Shared && (realm == Realm::Server || realm
            == Realm::Dev),
{
}

} // verus!
