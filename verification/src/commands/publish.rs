//! Publishing packages.

use vstd::prelude::*;

use crate::dependency_spec::{DependencySpec, DependencySpecView};
use crate::manifest::{DependencyMap, DependencyMapView, Manifest, ManifestView};
use crate::order;
use crate::ordered;
use crate::ordered::OrdMap;
use crate::package_id;
use crate::package_name;
use crate::package_name::{PackageName, PackageNameView};
use crate::package_req::{PackageReq, PackageReqView};
use crate::path;
use crate::path::{PathBuf, PathModel};
use crate::plain;
use crate::plain::Plain;
use crate::version;
use crate::version::VersionView;
use crate::version_req::{VersionReq, VersionReqView};
use crate::workspace;
use crate::workspace::{
    CanonicalPaths, CanonicalPathsView, MembersView, Section, Workspace, WorkspaceView,
};

verus! {

/// Publish this project to a registry.
#[derive(Debug, PartialEq, Eq)]
pub struct PublishSubcommand {
    /// Path to the project to publish.
    pub project_path: PathBuf,
    /// Auth token to use
    pub token: Option<String>,
    /// Name of the workspace member to publish (e.g. "scope/name").
    /// Required when publishing from a workspace.
    pub package: Option<PackageName>,
}

// ---------------------------------------------------------------------------
// Errors
// ---------------------------------------------------------------------------

/// Why a path dependency cannot be published as a registry dependency.
#[derive(Debug, PartialEq, Eq)]
pub enum RewriteError {
    /// The file system does not lead its directory anywhere.
    Unresolved { alias: String, dir: PathBuf },
    /// Its directory is not that of a member.
    NotAMember { alias: String, dir: PathBuf },
}

/// What says why a path dependency cannot be published.
pub enum RewriteErrorView {
    Unresolved { alias: Seq<char>, dir: Seq<char> },
    NotAMember { alias: Seq<char>, dir: Seq<char> },
}

impl View for RewriteError {
    type V = RewriteErrorView;

    open spec fn view(&self) -> RewriteErrorView {
        match self {
            RewriteError::Unresolved { alias, dir } => RewriteErrorView::Unresolved {
                alias: alias@,
                dir: dir@,
            },
            RewriteError::NotAMember { alias, dir } => RewriteErrorView::NotAMember {
                alias: alias@,
                dir: dir@,
            },
        }
    }
}

impl DeepView for RewriteError {
    type V = RewriteErrorView;

    open spec fn deep_view(&self) -> RewriteErrorView {
        self.view()
    }
}

/// Why a package cannot be published.
#[derive(Debug, PartialEq, Eq)]
pub enum PublishError {
    /// The package of a single-package project is private.
    PrivatePackage,
    /// A member was named, but the project is a single package.
    NotAWorkspace,
    /// No member was named.
    NoPackageNamed,
    /// No member has this name.
    NoSuchMember(PackageName),
    /// The member with this name is private.
    PrivateMember(PackageName),
    /// The package depends on a private member.
    PrivateDependency { name: PackageName, target: PackageName, alias: String },
    /// A path dependency in a section cannot be published.
    Rewrite { section: Section, error: RewriteError },
    /// The package is too large.
    TooLarge,
    /// There is no token.
    NoToken,
}

/// What says why a package cannot be published.
pub enum PublishErrorView {
    PrivatePackage,
    NotAWorkspace,
    NoPackageNamed,
    NoSuchMember(PackageNameView),
    PrivateMember(PackageNameView),
    PrivateDependency { name: PackageNameView, target: PackageNameView, alias: Seq<char> },
    Rewrite { section: Section, error: RewriteErrorView },
    TooLarge,
    NoToken,
}

impl View for PublishError {
    type V = PublishErrorView;

    open spec fn view(&self) -> PublishErrorView {
        match self {
            PublishError::PrivatePackage => PublishErrorView::PrivatePackage,
            PublishError::NotAWorkspace => PublishErrorView::NotAWorkspace,
            PublishError::NoPackageNamed => PublishErrorView::NoPackageNamed,
            PublishError::NoSuchMember(name) => PublishErrorView::NoSuchMember(name@),
            PublishError::PrivateMember(name) => PublishErrorView::PrivateMember(name@),
            PublishError::PrivateDependency { name, target, alias } => {
                PublishErrorView::PrivateDependency {
                    name: name@,
                    target: target@,
                    alias: alias@,
                }
            },
            PublishError::Rewrite { section, error } => PublishErrorView::Rewrite {
                section: *section,
                error: error@,
            },
            PublishError::TooLarge => PublishErrorView::TooLarge,
            PublishError::NoToken => PublishErrorView::NoToken,
        }
    }
}

impl DeepView for PublishError {
    type V = PublishErrorView;

    open spec fn deep_view(&self) -> PublishErrorView {
        self.view()
    }
}

// ---------------------------------------------------------------------------
// Path dependencies
// ---------------------------------------------------------------------------

/// What a dependency is published as: a path dependency on a member as the
/// requirement that only the member's version meets, any other as it is.
pub open spec fn published_spec(
    alias: Seq<char>,
    spec: DependencySpecView,
    member_dir: Seq<char>,
    members: MembersView,
    canonical: CanonicalPathsView,
) -> Result<DependencySpecView, RewriteErrorView> {
    match spec {
        DependencySpecView::Path(path) => {
            let target_dir = path::join_text(member_dir, path);
            match ordered::lookup(canonical, PathModel { text: target_dir }) {
                None => Err(RewriteErrorView::Unresolved { alias, dir: target_dir }),
                Some(dir) => match workspace::member_at(members, dir, canonical) {
                    None => Err(RewriteErrorView::NotAMember { alias, dir }),
                    Some(target) => Ok(
                        DependencySpecView::Registry(
                            PackageReqView {
                                name: target.package.name,
                                version_req: VersionReqView::Exact(target.package.version),
                            },
                        ),
                    ),
                },
            }
        },
        _ => Ok(spec),
    }
}

/// The first dependency from `from` on that cannot be published.
pub open spec fn first_unpublished(
    deps: DependencyMapView,
    member_dir: Seq<char>,
    members: MembersView,
    canonical: CanonicalPathsView,
    from: int,
) -> int
    decreases deps.len() - from,
{
    if from >= deps.len() || published_spec(
        deps[from].0,
        deps[from].1,
        member_dir,
        members,
        canonical,
    ) is Err {
        from
    } else {
        first_unpublished(deps, member_dir, members, canonical, from + 1)
    }
}

/// What dependencies are published as, or why one cannot be.
pub open spec fn published_deps(
    deps: DependencyMapView,
    member_dir: Seq<char>,
    members: MembersView,
    canonical: CanonicalPathsView,
) -> Result<DependencyMapView, RewriteErrorView> {
    let at = first_unpublished(deps, member_dir, members, canonical, 0);
    if at < deps.len() {
        Err(
            published_spec(deps[at].0, deps[at].1, member_dir, members, canonical)->Err_0,
        )
    } else {
        Ok(
            Seq::new(
                deps.len(),
                |i: int|
                    (
                        deps[i].0,
                        published_spec(
                            deps[i].0,
                            deps[i].1,
                            member_dir,
                            members,
                            canonical,
                        )->Ok_0,
                    ),
            ),
        )
    }
}

/// What a manifest is published as, or why it cannot be.
pub open spec fn published_manifest(
    manifest: ManifestView,
    member_dir: Seq<char>,
    members: MembersView,
    canonical: CanonicalPathsView,
) -> Result<ManifestView, PublishErrorView> {
    let dependencies = published_deps(manifest.dependencies, member_dir, members, canonical);
    let server_dependencies = published_deps(
        manifest.server_dependencies,
        member_dir,
        members,
        canonical,
    );
    let dev_dependencies = published_deps(
        manifest.dev_dependencies,
        member_dir,
        members,
        canonical,
    );
    if dependencies is Err {
        Err(
            PublishErrorView::Rewrite {
                section: Section::Dependencies,
                error: dependencies->Err_0,
            },
        )
    } else if server_dependencies is Err {
        Err(
            PublishErrorView::Rewrite {
                section: Section::ServerDependencies,
                error: server_dependencies->Err_0,
            },
        )
    } else if dev_dependencies is Err {
        Err(
            PublishErrorView::Rewrite {
                section: Section::DevDependencies,
                error: dev_dependencies->Err_0,
            },
        )
    } else {
        Ok(
            ManifestView {
                dependencies: dependencies->Ok_0,
                server_dependencies: server_dependencies->Ok_0,
                dev_dependencies: dev_dependencies->Ok_0,
                ..manifest
            },
        )
    }
}

fn rewrite_spec(
    alias: &String,
    spec: &DependencySpec,
    member_dir: &PathBuf,
    workspace: &Workspace,
    canonical: &CanonicalPaths,
) -> (rewritten: Result<DependencySpec, RewriteError>)
    ensures
        plain::outcome(rewritten) == published_spec(
            alias@,
            spec@,
            member_dir@,
            workspace@.members,
            canonical@,
        ),
{
    match spec {
        DependencySpec::Path(path_spec) => {
            let target_dir: PathBuf = member_dir.join(path_spec.path.as_str());
            let dir: &PathBuf = match canonical.get(&target_dir) {
                Some(dir) => dir,
                None => {
                    return Err(RewriteError::Unresolved { alias: alias.clone(), dir: target_dir });
                },
            };
            match workspace.get_member_at_path(dir, canonical) {
                Some(target) => {
                    let exact_req: VersionReq = VersionReq::exact(&target.package.version);
                    Ok(
                        DependencySpec::Registry(
                            PackageReq::new(target.package.name.duplicate(), exact_req),
                        ),
                    )
                },
                None => Err(
                    RewriteError::NotAMember { alias: alias.clone(), dir: dir.duplicate() },
                ),
            }
        },
        _ => Ok(spec.duplicate()),
    }
}

fn rewrite_dep_map(
    deps: &DependencyMap,
    member_dir: &PathBuf,
    workspace: &Workspace,
    canonical: &CanonicalPaths,
) -> (rewritten: Result<DependencyMap, RewriteError>)
    ensures
        plain::outcome(rewritten) == published_deps(
            deps@,
            member_dir@,
            workspace@.members,
            canonical@,
        ),
{
    let mut rewritten: DependencyMap = OrdMap::new();
    let mut i: usize = 0;
    let count: usize = deps.len();
    let ghost members = workspace@.members;
    let ghost whole = Seq::new(
        deps@.len(),
        |i: int|
            (
                deps@[i].0,
                published_spec(
                    deps@[i].0,
                    deps@[i].1,
                    member_dir@,
                    members,
                    canonical@,
                )->Ok_0,
            ),
    );
    assert(rewritten@ =~= whole.take(0));
    while i < count
        invariant
            i <= count,
            count == deps@.len(),
            members == workspace@.members,
            ordered::ascending(ordered::keys_of(deps@)),
            whole == Seq::new(
                deps@.len(),
                |i: int|
                    (
                        deps@[i].0,
                        published_spec(
                            deps@[i].0,
                            deps@[i].1,
                            member_dir@,
                            members,
                            canonical@,
                        )->Ok_0,
                    ),
            ),
            rewritten@ == whole.take(i as int),
            first_unpublished(deps@, member_dir@, members, canonical@, 0) == first_unpublished(
                deps@,
                member_dir@,
                members,
                canonical@,
                i as int,
            ),
        decreases count - i,
    {
        let alias: &String = deps.key_at(i);
        match rewrite_spec(alias, deps.value_at(i), member_dir, workspace, canonical) {
            Ok(spec) => {
                proof {
                    let keys = ordered::keys_of(deps@);
                    assert forall|j: int| 0 <= j < rewritten@.len() implies order::precedes(
                        ordered::Ranked::sort_key((#[trigger] rewritten@[j]).0),
                        ordered::Ranked::sort_key(alias@),
                    ) by {
                        assert(rewritten@[j] == whole[j]);
                        assert(keys[j] == deps@[j].0);
                        assert(keys[i as int] == deps@[i as int].0);
                    }
                    ordered::lemma_with_entry_last(rewritten@, alias@, spec@);
                    assert(whole.take(i + 1) =~= whole.take(i as int).push(whole[i as int]));
                }
                rewritten.insert(alias.clone(), spec);
            },
            Err(error) => {
                return Err(error);
            },
        }
        i += 1;
    }
    assert(whole.take(whole.len() as int) =~= whole);
    Ok(rewritten)
}

/// Rewrite all `DependencySpec::Path` entries to `DependencySpec::Registry`
/// pinned to the target member's exact version. The resulting manifest can be
/// published as a standard package.
pub fn rewrite_path_deps_to_registry(
    manifest: &Manifest,
    member_dir: &PathBuf,
    workspace: &Workspace,
    canonical: &CanonicalPaths,
) -> (rewritten: Result<Manifest, PublishError>)
    ensures
        plain::outcome(rewritten) == published_manifest(
            manifest@,
            member_dir@,
            workspace@.members,
            canonical@,
        ),
{
    let dependencies: DependencyMap = match rewrite_dep_map(
        &manifest.dependencies,
        member_dir,
        workspace,
        canonical,
    ) {
        Ok(deps) => deps,
        Err(error) => {
            return Err(PublishError::Rewrite { section: Section::Dependencies, error });
        },
    };
    let server_dependencies: DependencyMap = match rewrite_dep_map(
        &manifest.server_dependencies,
        member_dir,
        workspace,
        canonical,
    ) {
        Ok(deps) => deps,
        Err(error) => {
            return Err(PublishError::Rewrite { section: Section::ServerDependencies, error });
        },
    };
    let dev_dependencies: DependencyMap = match rewrite_dep_map(
        &manifest.dev_dependencies,
        member_dir,
        workspace,
        canonical,
    ) {
        Ok(deps) => deps,
        Err(error) => {
            return Err(PublishError::Rewrite { section: Section::DevDependencies, error });
        },
    };
    Ok(
        Manifest {
            package: manifest.package.duplicate(),
            place: manifest.place.duplicate(),
            dependencies,
            server_dependencies,
            dev_dependencies,
        },
    )
}

// ---------------------------------------------------------------------------
// Private members
// ---------------------------------------------------------------------------

/// The private member that a dependency points to, if any.
pub open spec fn private_target(
    spec: DependencySpecView,
    member_dir: Seq<char>,
    members: MembersView,
    canonical: CanonicalPathsView,
) -> Option<PackageNameView> {
    match spec {
        DependencySpecView::Path(path) => match ordered::lookup(
            canonical,
            PathModel { text: path::join_text(member_dir, path) },
        ) {
            Some(dir) => match workspace::member_at(members, dir, canonical) {
                Some(target) if target.package.private => Some(target.package.name),
                _ => None,
            },
            None => None,
        },
        _ => None,
    }
}

/// The first dependency from `from` on that points to a private member.
pub open spec fn first_private(
    deps: DependencyMapView,
    member_dir: Seq<char>,
    members: MembersView,
    canonical: CanonicalPathsView,
    from: int,
) -> int
    decreases deps.len() - from,
{
    if from >= deps.len() || private_target(deps[from].1, member_dir, members, canonical) is Some {
        from
    } else {
        first_private(deps, member_dir, members, canonical, from + 1)
    }
}

/// Why a package cannot be published with these dependencies, because one of
/// them points to a private member.
pub open spec fn private_fault(
    name: PackageNameView,
    deps: DependencyMapView,
    member_dir: Seq<char>,
    members: MembersView,
    canonical: CanonicalPathsView,
) -> Option<PublishErrorView> {
    let at = first_private(deps, member_dir, members, canonical, 0);
    if at < deps.len() {
        Some(
            PublishErrorView::PrivateDependency {
                name,
                target: private_target(deps[at].1, member_dir, members, canonical)->Some_0,
                alias: deps[at].0,
            },
        )
    } else {
        None
    }
}

/// Why a package cannot be published, because it depends on a private member.
pub open spec fn publish_fault(
    manifest: ManifestView,
    member_dir: Seq<char>,
    members: MembersView,
    canonical: CanonicalPathsView,
) -> Option<PublishErrorView> {
    let name = manifest.package.name;
    let shared = private_fault(name, manifest.dependencies, member_dir, members, canonical);
    let server = private_fault(
        name,
        manifest.server_dependencies,
        member_dir,
        members,
        canonical,
    );
    if shared is Some {
        shared
    } else if server is Some {
        server
    } else {
        private_fault(name, manifest.dev_dependencies, member_dir, members, canonical)
    }
}

fn find_private(
    name: &PackageName,
    deps: &DependencyMap,
    member_dir: &PathBuf,
    workspace: &Workspace,
    canonical: &CanonicalPaths,
) -> (found: Option<PublishError>)
    ensures
        found.deep_view() == private_fault(
            name@,
            deps@,
            member_dir@,
            workspace@.members,
            canonical@,
        ),
{
    let mut i: usize = 0;
    let ghost members = workspace@.members;
    while i < deps.len()
        invariant
            i <= deps@.len(),
            members == workspace@.members,
            first_private(deps@, member_dir@, members, canonical@, 0) == first_private(
                deps@,
                member_dir@,
                members,
                canonical@,
                i as int,
            ),
        decreases deps@.len() - i,
    {
        if let DependencySpec::Path(path_spec) = deps.value_at(i) {
            let target_dir: PathBuf = member_dir.join(path_spec.path.as_str());
            if let Some(dir) = canonical.get(&target_dir) {
                if let Some(target) = workspace.get_member_at_path(dir, canonical) {
                    if target.package.private {
                        return Some(
                            PublishError::PrivateDependency {
                                name: name.duplicate(),
                                target: target.package.name.duplicate(),
                                alias: deps.key_at(i).clone(),
                            },
                        );
                    }
                }
            }
        }
        i += 1;
    }
    None
}

/// Validate that a publishable member does not depend on any private members
/// via path dependencies.
pub fn validate_publish_graph(
    manifest: &Manifest,
    member_dir: &PathBuf,
    workspace: &Workspace,
    canonical: &CanonicalPaths,
) -> (valid: Result<(), PublishError>)
    ensures
        match valid {
            Ok(_) => publish_fault(
                manifest@,
                member_dir@,
                workspace@.members,
                canonical@,
            ) is None,
            Err(error) => publish_fault(
                manifest@,
                member_dir@,
                workspace@.members,
                canonical@,
            ) == Some(error@),
        },
{
    let name: &PackageName = &manifest.package.name;
    if let Some(error) = find_private(
        name,
        &manifest.dependencies,
        member_dir,
        workspace,
        canonical,
    ) {
        return Err(error);
    }
    if let Some(error) = find_private(
        name,
        &manifest.server_dependencies,
        member_dir,
        workspace,
        canonical,
    ) {
        return Err(error);
    }
    match find_private(name, &manifest.dev_dependencies, member_dir, workspace, canonical) {
        Some(error) => Err(error),
        None => Ok(()),
    }
}

// ---------------------------------------------------------------------------
// What is published
// ---------------------------------------------------------------------------

/// What has to be published.
#[derive(Debug, PartialEq, Eq)]
pub enum PublishPlan {
    /// The project as it is.
    SinglePackage { manifest: Manifest },
    /// The contents of a member's directory, with this manifest.
    Member { dir: PathBuf, manifest: Manifest },
}

/// What a plan to publish holds.
pub enum PublishPlanView {
    SinglePackage { manifest: ManifestView },
    Member { dir: Seq<char>, manifest: ManifestView },
}

impl View for PublishPlan {
    type V = PublishPlanView;

    open spec fn view(&self) -> PublishPlanView {
        match self {
            PublishPlan::SinglePackage { manifest } => PublishPlanView::SinglePackage {
                manifest: manifest@,
            },
            PublishPlan::Member { dir, manifest } => PublishPlanView::Member {
                dir: dir@,
                manifest: manifest@,
            },
        }
    }
}

impl DeepView for PublishPlan {
    type V = PublishPlanView;

    open spec fn deep_view(&self) -> PublishPlanView {
        self.view()
    }
}

/// What has to be published of a single package, or why it cannot be.
pub open spec fn single_package_plan(workspace: WorkspaceView) -> Result<
    PublishPlanView,
    PublishErrorView,
> {
    let manifest = workspace.members[0].1;
    if manifest.package.private {
        Err(PublishErrorView::PrivatePackage)
    } else {
        Ok(PublishPlanView::SinglePackage { manifest })
    }
}

/// What has to be published of a member, or why it cannot be.
pub open spec fn member_plan(
    name: PackageNameView,
    dir: Seq<char>,
    manifest: ManifestView,
    members: MembersView,
    canonical: CanonicalPathsView,
) -> Result<PublishPlanView, PublishErrorView> {
    if manifest.package.private {
        Err(PublishErrorView::PrivateMember(name))
    } else {
        match publish_fault(manifest, dir, members, canonical) {
            Some(error) => Err(error),
            None => match published_manifest(manifest, dir, members, canonical) {
                Ok(manifest) => Ok(PublishPlanView::Member { dir, manifest }),
                Err(error) => Err(error),
            },
        }
    }
}

/// What has to be published, or why nothing can be.
pub open spec fn publish_plan(
    package: Option<PackageNameView>,
    workspace: WorkspaceView,
    canonical: CanonicalPathsView,
) -> Result<PublishPlanView, PublishErrorView> {
    match (workspace.single_package, package) {
        (true, None) => single_package_plan(workspace),
        (true, Some(_)) => Err(PublishErrorView::NotAWorkspace),
        (false, None) => Err(PublishErrorView::NoPackageNamed),
        (false, Some(name)) => {
            let at = workspace::name_index(workspace.members, name, 0);
            if at < workspace.members.len() {
                member_plan(
                    name,
                    workspace.members[at].0.text,
                    workspace.members[at].1,
                    workspace.members,
                    canonical,
                )
            } else {
                Err(PublishErrorView::NoSuchMember(name))
            }
        },
    }
}

impl PublishSubcommand {
    /// Decides what has to be published.
    pub fn run(&self, workspace: &Workspace, canonical: &CanonicalPaths) -> (plan: Result<
        PublishPlan,
        PublishError,
    >)
        ensures
            plain::outcome(plan) == publish_plan(
                self.package.deep_view(),
                workspace@,
                canonical@,
            ),
    {
        let name: &PackageName = match &self.package {
            Some(name) => {
                if workspace.is_single_package() {
                    return Err(PublishError::NotAWorkspace);
                }
                name
            },
            None => {
                if workspace.is_single_package() {
                    return PublishSubcommand::publish_single_package(workspace);
                }
                return Err(PublishError::NoPackageNamed);
            },
        };
        proof {
            workspace::lemma_name_index(workspace@.members, name@, 0);
        }
        match workspace.find_member_by_name(name) {
            Some((dir, manifest)) => {
                proof {
                    workspace::lemma_name_index_is(workspace@, name@, dir@, manifest@);
                }
                if manifest.package.private {
                    return Err(PublishError::PrivateMember(name.duplicate()));
                }
                match validate_publish_graph(manifest, dir, workspace, canonical) {
                    Ok(_) => {},
                    Err(error) => {
                        return Err(error);
                    },
                }
                match rewrite_path_deps_to_registry(manifest, dir, workspace, canonical) {
                    Ok(manifest) => Ok(PublishPlan::Member { dir: dir.duplicate(), manifest }),
                    Err(error) => Err(error),
                }
            },
            None => Err(PublishError::NoSuchMember(name.duplicate())),
        }
    }

    fn publish_single_package(workspace: &Workspace) -> (plan: Result<PublishPlan, PublishError>)
        requires
            workspace@.single_package,
        ensures
            plain::outcome(plan) == single_package_plan(workspace@),
    {
        let manifest: &Manifest = workspace.members().value_at(0);
        if manifest.package.private {
            Err(PublishError::PrivatePackage)
        } else {
            Ok(PublishPlan::SinglePackage { manifest: manifest.duplicate() })
        }
    }

    /// Checks that a package of this many bytes can be published, finds the token
    /// to publish it with and says what is sent. With a token to check against,
    /// which has to be the one to publish with, nothing is sent.
    pub fn do_publish(
        &self,
        manifest: &Manifest,
        index: &str,
        bytes: u64,
        stored: &Option<String>,
        check_token: &Option<String>,
    ) -> (outcome: Result<Publication, PublishError>)
        requires
            token_agrees(
                self.token.deep_view(),
                bytes as nat,
                stored.deep_view(),
                check_token.deep_view(),
            ),
        ensures
            plain::outcome(outcome) == publication(
                self.token.deep_view(),
                manifest@,
                index@,
                bytes as nat,
                stored.deep_view(),
                check_token.deep_view(),
            ),
            check_token is Some ==> !(outcome matches Ok(Publication::Send(_))),
    {
        match check_size(bytes) {
            Ok(_) => {},
            Err(error) => {
                return Err(error);
            },
        }
        let token: String = match self.auth_token(stored) {
            Ok(token) => token,
            Err(error) => {
                return Err(error);
            },
        };
        match check_token {
            Some(_) => Ok(Publication::Checked),
            None => {
                let announcement: String = announcement(manifest, index);
                Ok(Publication::Send(PublishRequest { token, announcement }))
            },
        }
    }

    /// The token to publish with: the one that was given or else the one that
    /// is stored.
    pub fn auth_token(&self, stored: &Option<String>) -> (token: Result<String, PublishError>)
        ensures
            plain::outcome(token) == match (self.token.deep_view(), stored.deep_view()) {
                (Some(token), _) => Ok(token),
                (None, Some(token)) => Ok(token),
                (None, None) => Err(PublishErrorView::NoToken),
            },
    {
        match &self.token {
            Some(token) => Ok(token.clone()),
            None => match stored {
                Some(token) => Ok(token.clone()),
                None => Err(PublishError::NoToken),
            },
        }
    }
}

/// What a package is sent with.
#[derive(Debug, PartialEq, Eq)]
pub struct PublishRequest {
    pub token: String,
    /// What is said before it is sent.
    pub announcement: String,
}

/// What a package is sent with.
pub struct PublishRequestView {
    pub token: Seq<char>,
    pub announcement: Seq<char>,
}

impl View for PublishRequest {
    type V = PublishRequestView;

    open spec fn view(&self) -> PublishRequestView {
        PublishRequestView { token: self.token@, announcement: self.announcement@ }
    }
}

impl DeepView for PublishRequest {
    type V = PublishRequestView;

    open spec fn deep_view(&self) -> PublishRequestView {
        self.view()
    }
}

/// What is said before a package is sent.
pub open spec fn announcement_text(manifest: ManifestView, index: Seq<char>) -> Seq<char> {
    "Publishing "@ + package_id::id_text(manifest.package_id()) + " to "@ + index
}

/// What is said before a package is sent.
pub fn announcement(manifest: &Manifest, index: &str) -> (announcement: String)
    ensures
        announcement@ == announcement_text(manifest@, index@),
{
    let mut announcement: String = "Publishing ".to_owned();
    announcement.append(manifest.package_id().to_text().as_str());
    announcement.append(" to ");
    announcement.append(index);
    announcement
}

/// What a package of this many bytes is sent with, or why it is not sent.
pub open spec fn publish_request(
    token: Option<Seq<char>>,
    manifest: ManifestView,
    index: Seq<char>,
    bytes: nat,
    stored: Option<Seq<char>>,
) -> Result<PublishRequestView, PublishErrorView> {
    let announcement = announcement_text(manifest, index);
    if bytes > 2 * 1024 * 1024 {
        Err(PublishErrorView::TooLarge)
    } else {
        match (token, stored) {
            (Some(token), _) => Ok(PublishRequestView { token, announcement }),
            (None, Some(token)) => Ok(PublishRequestView { token, announcement }),
            (None, None) => Err(PublishErrorView::NoToken),
        }
    }
}

/// What becomes of a package that can be published.
#[derive(Debug, PartialEq, Eq)]
pub enum Publication {
    /// The token is the one that was expected. Nothing is sent.
    Checked,
    /// The package is sent.
    Send(PublishRequest),
}

/// What becomes of a package that can be published.
pub enum PublicationView {
    Checked,
    Send(PublishRequestView),
}

impl View for Publication {
    type V = PublicationView;

    open spec fn view(&self) -> PublicationView {
        match self {
            Publication::Checked => PublicationView::Checked,
            Publication::Send(request) => PublicationView::Send(request@),
        }
    }
}

impl DeepView for Publication {
    type V = PublicationView;

    open spec fn deep_view(&self) -> PublicationView {
        self.view()
    }
}

/// What becomes of a package of this many bytes, or why it cannot be published.
pub open spec fn publication(
    token: Option<Seq<char>>,
    manifest: ManifestView,
    index: Seq<char>,
    bytes: nat,
    stored: Option<Seq<char>>,
    check_token: Option<Seq<char>>,
) -> Result<PublicationView, PublishErrorView> {
    match publish_request(token, manifest, index, bytes, stored) {
        Ok(request) => if check_token is Some {
            Ok(PublicationView::Checked)
        } else {
            Ok(PublicationView::Send(request))
        },
        Err(error) => Err(error),
    }
}

/// A token to check against is the one that a package of this many bytes is
/// published with, where it comes to that.
pub open spec fn token_agrees(
    token: Option<Seq<char>>,
    bytes: nat,
    stored: Option<Seq<char>>,
    check_token: Option<Seq<char>>,
) -> bool {
    bytes > 2 * 1024 * 1024 || match (token, stored, check_token) {
        (_, _, None) => true,
        (Some(token), _, Some(expected)) => expected == token,
        (None, Some(token), Some(expected)) => expected == token,
        (None, None, Some(_)) => true,
    }
}

// ---------------------------------------------------------------------------
// Sizes and addresses
// ---------------------------------------------------------------------------

/// How many mebibytes a package can have at most.
pub const MAX_MEBIBYTES: u64 = 2;

/// How many bytes `n` mebibytes are, with `ubyte::ToByteUnit::mebibytes`. Stated
/// of it: they are `n` times two to the power of twenty, or the largest number
/// of 64 bits where that is more.
#[verifier::external_body]
fn mebibytes(n: u64) -> (bytes: u64)
    ensures
        bytes == if n * 0x10_0000 <= u64::MAX {
            n * 0x10_0000
        } else {
            u64::MAX as int
        },
{
    ubyte::ToByteUnit::mebibytes(n).as_u64()
}

/// Checks that a package of this many bytes can be published.
pub fn check_size(bytes: u64) -> (checked: Result<(), PublishError>)
    ensures
        match checked {
            Ok(_) => bytes <= 2 * 1024 * 1024,
            Err(error) => bytes > 2 * 1024 * 1024 && error@ == PublishErrorView::TooLarge,
        },
{
    if bytes > mebibytes(MAX_MEBIBYTES) {
        Err(PublishError::TooLarge)
    } else {
        Ok(())
    }
}

/// What `url::Url::parse` makes of a text: the address as it is written, or
/// what is wrong with the text.
pub uninterp spec fn parsed_url(text: Seq<char>) -> Result<Seq<char>, Seq<char>>;

/// Reads an address with `url::Url::parse`, and writes what comes out, the
/// address or the error, as text. Stated of it: the result is a function of the
/// text.
#[verifier::external_body]
fn parse_url(text: &str) -> (parsed: Result<String, String>)
    ensures
        plain::outcome(parsed) == parsed_url(text@),
{
    match url::Url::parse(text) {
        Ok(address) => Ok(address.to_string()),
        Err(error) => Err(error.to_string()),
    }
}

/// What `url::Url::join` makes of an address and a text: the address that the
/// text stands for as seen from the other, or what is wrong.
pub uninterp spec fn joined_url(base: Seq<char>, text: Seq<char>) -> Result<Seq<char>, Seq<char>>;

/// Reads an address as seen from another with `url::Url::join`, after reading
/// that with `url::Url::parse`, and writes what comes out, the address or the
/// error, as text. Stated of it: the result is a function of the two texts.
#[verifier::external_body]
fn join_url(base: &str, text: &str) -> (joined: Result<String, String>)
    ensures
        plain::outcome(joined) == joined_url(base@, text@),
{
    match url::Url::parse(base).and_then(|base| base.join(text)) {
        Ok(address) => Ok(address.to_string()),
        Err(error) => Err(error.to_string()),
    }
}

/// The address that `url::Url::from_directory_path` makes of a path, if it makes
/// one.
pub uninterp spec fn directory_address(path: Seq<char>) -> Option<Seq<char>>;

/// Makes an address of the path of a directory with
/// `url::Url::from_directory_path`, and writes it as text. Stated of it: the
/// result is a function of the path, on systems that write paths alike, and an
/// address ends in a slash.
#[verifier::external_body]
fn address_of_directory(path: &str) -> (address: Option<String>)
    ensures
        address.deep_view() == directory_address(path@),
        address matches Some(address) ==> address@.len() > 0 && address@.last() == '/',
{
    match url::Url::from_directory_path(path) {
        Ok(address) => Some(address.to_string()),
        Err(_) => None,
    }
}

/// The address of the index of a test registry, which is a directory. There is
/// none where the path is not absolute.
pub fn test_index_url(index_path: &PathBuf) -> (address: Option<String>)
    ensures
        address.deep_view() == directory_address(index_path@),
        address matches Some(address) ==> address@.len() > 0 && address@.last() == '/',
{
    address_of_directory(index_path.as_str())
}

/// The address of the index that a package is published to, or what is wrong
/// with its registry.
pub fn index_url(manifest: &Manifest) -> (address: Result<String, String>)
    ensures
        plain::outcome(address) == parsed_url(manifest@.package.registry),
{
    parse_url(manifest.package.registry.as_str())
}

/// The address that a package is sent to, or what is wrong with that of the
/// registry's interface.
pub fn publish_url(api: &str) -> (address: Result<String, String>)
    ensures
        plain::outcome(address) == joined_url(api@, "/v1/publish"@),
{
    join_url(api, "/v1/publish")
}

// ---------------------------------------------------------------------------
// Laws
// ---------------------------------------------------------------------------

proof fn lemma_published_deps(
    deps: DependencyMapView,
    member_dir: Seq<char>,
    members: MembersView,
    canonical: CanonicalPathsView,
    from: int,
)
    requires
        0 <= from,
        first_unpublished(deps, member_dir, members, canonical, from) >= deps.len(),
    ensures
        forall|i: int|
            from <= i < deps.len() ==> published_spec(
                (#[trigger] deps[i]).0,
                deps[i].1,
                member_dir,
                members,
                canonical,
            ) is Ok,
    decreases deps.len() - from,
{
    if from < deps.len() {
        lemma_published_deps(deps, member_dir, members, canonical, from + 1);
    }
}

/// No dependency is on a path.
pub open spec fn has_no_paths(deps: DependencyMapView) -> bool {
    forall|i: int| 0 <= i < deps.len() ==> !((#[trigger] deps[i]).1 is Path)
}

/// The dependencies have the same aliases, and those that were not on a path
/// are the same.
pub open spec fn keeps_the_rest(before: DependencyMapView, after: DependencyMapView) -> bool {
    &&& after.len() == before.len()
    &&& forall|i: int|
        0 <= i < before.len() ==> {
            &&& (#[trigger] after[i]).0 == before[i].0
            &&& !(before[i].1 is Path) ==> after[i].1 == before[i].1
        }
}

proof fn lemma_published_section(
    deps: DependencyMapView,
    member_dir: Seq<char>,
    members: MembersView,
    canonical: CanonicalPathsView,
)
    ensures
        published_deps(deps, member_dir, members, canonical) matches Ok(published) ==> has_no_paths(
            published,
        ) && keeps_the_rest(deps, published),
{
    if let Ok(published) = published_deps(deps, member_dir, members, canonical) {
        lemma_published_deps(deps, member_dir, members, canonical, 0);
        assert forall|i: int| 0 <= i < published.len() implies !(
        (#[trigger] published[i]).1 is Path) by {
            assert(published_spec(
                deps[i].0,
                deps[i].1,
                member_dir,
                members,
                canonical,
            ) is Ok);
        }
    }
}

/// What is published depends on no path. All but path dependencies, and all
/// that the manifest says beside dependencies, is as it was.
pub proof fn law_published_manifests_have_no_paths(
    manifest: ManifestView,
    member_dir: Seq<char>,
    members: MembersView,
    canonical: CanonicalPathsView,
)
    ensures
        published_manifest(manifest, member_dir, members, canonical) matches Ok(published) ==> {
            &&& has_no_paths(published.dependencies)
            &&& has_no_paths(published.server_dependencies)
            &&& has_no_paths(published.dev_dependencies)
            &&& keeps_the_rest(manifest.dependencies, published.dependencies)
            &&& keeps_the_rest(manifest.server_dependencies, published.server_dependencies)
            &&& keeps_the_rest(manifest.dev_dependencies, published.dev_dependencies)
            &&& published.package == manifest.package
            &&& published.place == manifest.place
        },
{
    lemma_published_section(manifest.dependencies, member_dir, members, canonical);
    lemma_published_section(manifest.server_dependencies, member_dir, members, canonical);
    lemma_published_section(manifest.dev_dependencies, member_dir, members, canonical);
}

/// A path dependency on a member is published as a requirement on the member's
/// package that exactly the member's version meets.
pub proof fn law_path_dependencies_are_pinned(
    alias: Seq<char>,
    path: Seq<char>,
    member_dir: Seq<char>,
    members: MembersView,
    canonical: CanonicalPathsView,
    name: PackageNameView,
    version: VersionView,
)
    ensures
        published_spec(
            alias,
            DependencySpecView::Path(path),
            member_dir,
            members,
            canonical,
        ) matches Ok(spec) ==> {
            let dir = ordered::lookup(
                canonical,
                PathModel { text: path::join_text(member_dir, path) },
            )->Some_0;
            let target = workspace::member_at(members, dir, canonical)->Some_0;
            &&& spec is Registry
            &&& spec->Registry_0.matches(name, version) <==> name == target.package.name
                && version::same_version(target.package.version, version)
        },
{
}

proof fn lemma_no_private(
    deps: DependencyMapView,
    member_dir: Seq<char>,
    members: MembersView,
    canonical: CanonicalPathsView,
    from: int,
)
    requires
        0 <= from,
        first_private(deps, member_dir, members, canonical, from) >= deps.len(),
    ensures
        forall|i: int|
            from <= i < deps.len() ==> private_target(
                (#[trigger] deps[i]).1,
                member_dir,
                members,
                canonical,
            ) is None,
    decreases deps.len() - from,
{
    if from < deps.len() {
        lemma_no_private(deps, member_dir, members, canonical, from + 1);
    }
}

/// No dependency points to a private member.
pub open spec fn has_no_private(
    deps: DependencyMapView,
    member_dir: Seq<char>,
    members: MembersView,
    canonical: CanonicalPathsView,
) -> bool {
    forall|i: int|
        0 <= i < deps.len() ==> private_target(
            (#[trigger] deps[i]).1,
            member_dir,
            members,
            canonical,
        ) is None
}

/// No private package is published, and none that depends on a private member.
pub proof fn law_private_packages_are_not_published(
    package: Option<PackageNameView>,
    workspace: WorkspaceView,
    canonical: CanonicalPathsView,
)
    ensures
        match publish_plan(package, workspace, canonical) {
            Ok(PublishPlanView::SinglePackage { manifest }) => !manifest.package.private,
            Ok(PublishPlanView::Member { dir, manifest }) => {
                &&& !manifest.package.private
                &&& exists|i: int|
                    {
                        &&& 0 <= i < workspace.members.len()
                        &&& (#[trigger] workspace.members[i]).0.text == dir
                        &&& workspace.members[i].1.package == manifest.package
                        &&& has_no_private(
                            workspace.members[i].1.dependencies,
                            dir,
                            workspace.members,
                            canonical,
                        )
                        &&& has_no_private(
                            workspace.members[i].1.server_dependencies,
                            dir,
                            workspace.members,
                            canonical,
                        )
                        &&& has_no_private(
                            workspace.members[i].1.dev_dependencies,
                            dir,
                            workspace.members,
                            canonical,
                        )
                    }
            },
            Err(_) => true,
        },
{
    if let Ok(PublishPlanView::Member { dir, manifest }) = publish_plan(
        package,
        workspace,
        canonical,
    ) {
        let name = package->Some_0;
        workspace::lemma_name_index(workspace.members, name, 0);
        let at = workspace::name_index(workspace.members, name, 0);
        let own = workspace.members[at].1;
        lemma_no_private(own.dependencies, dir, workspace.members, canonical, 0);
        lemma_no_private(own.server_dependencies, dir, workspace.members, canonical, 0);
        lemma_no_private(own.dev_dependencies, dir, workspace.members, canonical, 0);
        assert(workspace.members[at].0.text == dir);
    }
}

// ---------------------------------------------------------------------------
// Messages
// ---------------------------------------------------------------------------

impl RewriteErrorView {
    /// How the error is written.
    pub open spec fn text(self) -> Seq<char> {
        match self {
            RewriteErrorView::Unresolved { alias, dir } => {
                "path dependency '"@ + alias + "' points to "@ + dir
                    + " which could not be resolved"@
            },
            RewriteErrorView::NotAMember { alias, dir } => {
                "path dependency '"@ + alias + "' at "@ + dir + " is not a workspace member"@
            },
        }
    }
}

impl RewriteError {
    /// The error as text.
    pub fn message(&self) -> (message: String)
        ensures
            message@ == self@.text(),
    {
        match self {
            RewriteError::Unresolved { alias, dir } => {
                let mut message: String = "path dependency '".to_owned();
                message.append(alias.as_str());
                message.append("' points to ");
                message.append(dir.as_str());
                message.append(" which could not be resolved");
                message
            },
            RewriteError::NotAMember { alias, dir } => {
                let mut message: String = "path dependency '".to_owned();
                message.append(alias.as_str());
                message.append("' at ");
                message.append(dir.as_str());
                message.append(" is not a workspace member");
                message
            },
        }
    }
}

impl PublishErrorView {
    /// How the error is written.
    pub open spec fn text(self) -> Seq<char> {
        match self {
            PublishErrorView::PrivatePackage => "Cannot publish private package."@,
            PublishErrorView::NotAWorkspace => "--package flag is only valid in a workspace context, but this project is a single-package manifest"@,
            PublishErrorView::NoPackageNamed => "this is a workspace project; use --package <scope/name> to select which member to publish"@,
            PublishErrorView::NoSuchMember(name) => {
                "no workspace member named '"@ + package_name::name_text(name) + "' found"@
            },
            PublishErrorView::PrivateMember(name) => {
                "Cannot publish private package '"@ + package_name::name_text(name) + "'."@
            },
            PublishErrorView::PrivateDependency { name, target, alias } => {
                "cannot publish '"@ + package_name::name_text(name)
                    + "': it depends on private member '"@ + package_name::name_text(target)
                    + "' (via '"@ + alias + "')"@
            },
            PublishErrorView::TooLarge => {
                "Package size exceeds 2MB. Reduce package size and try again."@
            },
            PublishErrorView::NoToken => {
                "Authentication is required to publish, use `wally login`"@
            },
            PublishErrorView::Rewrite { section, error } => "failed to rewrite "@ + section.text() + ": "@ + error.text(),
        }
    }
}

impl PublishError {
    /// The error as text.
    pub fn message(&self) -> (message: String)
        ensures
            message@ == self@.text(),
    {
        match self {
            PublishError::PrivatePackage => {
                "Cannot publish private package.".to_owned()
            },
            PublishError::NotAWorkspace => {
                "--package flag is only valid in a workspace context, but this project is a single-package manifest".to_owned()
            },
            PublishError::NoPackageNamed => {
                "this is a workspace project; use --package <scope/name> to select which member to publish".to_owned()
            },
            PublishError::NoSuchMember(name) => {
                let mut message: String = "no workspace member named '".to_owned();
                message.append(name.to_text().as_str());
                message.append("' found");
                message
            },
            PublishError::PrivateMember(name) => {
                let mut message: String = "Cannot publish private package '".to_owned();
                message.append(name.to_text().as_str());
                message.append("'.");
                message
            },
            PublishError::PrivateDependency { name, target, alias } => {
                let mut message: String = "cannot publish '".to_owned();
                message.append(name.to_text().as_str());
                message.append("': it depends on private member '");
                message.append(target.to_text().as_str());
                message.append("' (via '");
                message.append(alias.as_str());
                message.append("')");
                message
            },
            PublishError::TooLarge => {
                "Package size exceeds 2MB. Reduce package size and try again.".to_owned()
            },
            PublishError::NoToken => {
                "Authentication is required to publish, use `wally login`".to_owned()
            },
            PublishError::Rewrite { section, error } => {
                let mut message: String = "failed to rewrite ".to_owned();
                message.append(section.name());
                message.append(": ");
                message.append(error.message().as_str());
                message
            },
        }
    }
}

} // verus!
