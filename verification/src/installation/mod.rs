//! Putting resolved packages where a project can use them.
//!
//! What has to be done is a list of actions. Whoever installs takes them one
//! after the other.

use vstd::prelude::*;

use crate::manifest::Realm;
use crate::order;
use crate::ordered;
use crate::ordered::OrdSet;
use crate::package_id;
use crate::package_id::{PackageId, PackageIdView};
use crate::package_name;
use crate::package_source::{PackageSourceId, PackageSourceIdView};
use crate::path;
use crate::path::PathBuf;
use crate::plain::Plain;
use crate::resolution;
use crate::resolution::{
    DependencyGraph, Edges, EdgesView, GraphView, Resolve, ResolvePackageMetadata, ResolveView,
};
use crate::text;
use crate::version;

pub mod files;
pub mod laws;

verus! {

// ---------------------------------------------------------------------------
// Containers
// ---------------------------------------------------------------------------

/// Distinguishes between the two container directories within each realm's
/// package folder (`Packages/`, `ServerPackages/`, `DevPackages/`).
///
/// - `Index` (`_Index/`) holds unpacked registry packages.
/// - `Workspace` (`_Workspace/`) holds Rojo project references to local
///   workspace members.
#[derive(Debug, Clone, Copy, PartialEq, Eq, Structural)]
pub enum PackageContainer {
    Index,
    Workspace,
}

impl PackageContainer {
    /// The name of the container's directory.
    pub open spec fn dir_text(self) -> Seq<char> {
        match self {
            PackageContainer::Index => "_Index"@,
            PackageContainer::Workspace => "_Workspace"@,
        }
    }

    /// The name of the container's directory.
    pub fn dir_name(&self) -> (name: &'static str)
        ensures
            name@ == self.dir_text(),
    {
        match self {
            PackageContainer::Index => "_Index",
            PackageContainer::Workspace => "_Workspace",
        }
    }
}

/// The container that a package belongs in: that of workspace members for those
/// that are known to be, that of registry packages for all others.
pub open spec fn container_of(resolve: ResolveView, id: PackageIdView) -> PackageContainer {
    match ordered::lookup(resolve.metadata, id) {
        Some(metadata) if metadata.is_workspace_member => PackageContainer::Workspace,
        _ => PackageContainer::Index,
    }
}

/// Determine which container a resolved package belongs in based on whether
/// it is a workspace member.
pub fn package_container(resolved: &Resolve, package_id: &PackageId) -> (container: PackageContainer)
    ensures
        container == container_of(resolved@, package_id@),
{
    match resolved.metadata.get(package_id) {
        Some(metadata) => {
            if metadata.is_workspace_member {
                PackageContainer::Workspace
            } else {
                PackageContainer::Index
            }
        },
        None => PackageContainer::Index,
    }
}

/// The name for files that refer to a package.
pub open spec fn file_name(id: PackageIdView) -> Seq<char> {
    id.name.scope + "_"@ + id.name.name + "@"@ + version::version_text(id.version)
}

/// Creates a suitable name for use in file paths that refer to this package.
pub fn package_id_file_name(id: &PackageId) -> (name: String)
    ensures
        name@ == file_name(id@),
{
    let mut name: String = id.name().scope().to_owned();
    name.append("_");
    name.append(id.name().name());
    name.append("@");
    name.append(id.version().to_text().as_str());
    name
}

// ---------------------------------------------------------------------------
// Links
// ---------------------------------------------------------------------------

/// Why a dependency cannot be linked.
#[derive(Debug, Clone, Copy, PartialEq, Eq, Structural)]
pub enum LinkError {
    /// It is a shared package, and where those are placed is not known.
    NoSharedPath,
    /// It is a server package, and where those are placed is not known.
    NoServerPath,
    /// It is a dev package, and the dependent is not.
    DevDependency,
}

impl LinkError {
    /// How the error is written.
    pub open spec fn text(self) -> Seq<char> {
        match self {
            LinkError::NoSharedPath => {
                "A server or dev dependency is depending on a shared dependency.\nTo link these packages correctly you must declare where shared\npackages are placed in the roblox datamodel in your wally.toml.\n\nThis typically looks like:\n\n[place]\nshared-packages = \"game.ReplicatedStorage.Packages\"\n"@
            },
            LinkError::NoServerPath => {
                "A dev dependency is depending on a server dependency.\nTo link these packages correctly you must declare where server\npackages are placed in the roblox datamodel in your wally.toml.\n\nThis typically looks like:\n\n[place]\nserver-packages = \"game.ServerScriptService.Packages\"\n"@
            },
            LinkError::DevDependency => {
                "A dev dependency cannot be depended upon by a non-dev dependency"@
            },
        }
    }

    /// The error as text.
    pub fn message(&self) -> (message: String)
        ensures
            message@ == self.text(),
    {
        match self {
            LinkError::NoSharedPath => {
                "A server or dev dependency is depending on a shared dependency.\nTo link these packages correctly you must declare where shared\npackages are placed in the roblox datamodel in your wally.toml.\n\nThis typically looks like:\n\n[place]\nshared-packages = \"game.ReplicatedStorage.Packages\"\n".to_owned()
            },
            LinkError::NoServerPath => {
                "A dev dependency is depending on a server dependency.\nTo link these packages correctly you must declare where server\npackages are placed in the roblox datamodel in your wally.toml.\n\nThis typically looks like:\n\n[place]\nserver-packages = \"game.ServerScriptService.Packages\"\n".to_owned()
            },
            LinkError::DevDependency => {
                "A dev dependency cannot be depended upon by a non-dev dependency".to_owned()
            },
        }
    }
}

/// How a link names a package in a container.
pub open spec fn link_text(container: Seq<char>, id: PackageIdView) -> Seq<char> {
    "return require("@ + container + "[\""@ + file_name(id) + "\"][\""@ + id.name.name + "\"])\n"@
}

fn write_link(container: &str, id: &PackageId) -> (link: String)
    ensures
        link@ == link_text(container@, id@),
{
    let mut link: String = "return require(".to_owned();
    link.append(container);
    link.append("[\"");
    link.append(package_id_file_name(id).as_str());
    link.append("\"][\"");
    link.append(id.name().name());
    link.append("\"])\n");
    link
}

/// The link from a realm's directory to a package in a container.
pub open spec fn root_link(id: PackageIdView, container: PackageContainer) -> Seq<char> {
    link_text("script.Parent."@ + container.dir_text(), id)
}

/// The link from one package to another of the same realm.
pub open spec fn sibling_link(
    id: PackageIdView,
    source: PackageContainer,
    target: PackageContainer,
) -> Seq<char> {
    if source == target {
        link_text("script.Parent.Parent"@, id)
    } else {
        link_text("script.Parent.Parent.Parent."@ + target.dir_text(), id)
    }
}

/// The link to a package of a realm whose packages are placed at `packages`.
pub open spec fn placed_link(
    packages: Seq<char>,
    id: PackageIdView,
    container: PackageContainer,
) -> Seq<char> {
    link_text(packages + "."@ + container.dir_text(), id)
}

// ---------------------------------------------------------------------------
// Contexts
// ---------------------------------------------------------------------------

/// Where packages get installed.
#[derive(Debug, PartialEq, Eq)]
pub struct InstallationContext {
    shared_dir: PathBuf,
    shared_index_dir: PathBuf,
    shared_workspace_dir: PathBuf,
    shared_path: Option<String>,
    server_dir: PathBuf,
    server_index_dir: PathBuf,
    server_workspace_dir: PathBuf,
    server_path: Option<String>,
    dev_dir: PathBuf,
    dev_index_dir: PathBuf,
    dev_workspace_dir: PathBuf,
}

/// What is known of where packages get installed.
#[verifier::ext_equal]
pub struct InstallationView {
    pub shared_dir: Seq<char>,
    pub server_dir: Seq<char>,
    pub dev_dir: Seq<char>,
    pub shared_path: Option<Seq<char>>,
    pub server_path: Option<Seq<char>>,
}

impl View for InstallationContext {
    type V = InstallationView;

    closed spec fn view(&self) -> InstallationView {
        InstallationView {
            shared_dir: self.shared_dir@,
            server_dir: self.server_dir@,
            dev_dir: self.dev_dir@,
            shared_path: self.shared_path.deep_view(),
            server_path: self.server_path.deep_view(),
        }
    }
}

impl Clone for InstallationContext {
    fn clone(&self) -> (copy: Self)
        ensures
            copy@ == self@,
    {
        proof {
            use_type_invariant(self);
        }
        InstallationContext {
            shared_dir: self.shared_dir.duplicate(),
            shared_index_dir: self.shared_index_dir.duplicate(),
            shared_workspace_dir: self.shared_workspace_dir.duplicate(),
            shared_path: self.shared_path.duplicate(),
            server_dir: self.server_dir.duplicate(),
            server_index_dir: self.server_index_dir.duplicate(),
            server_workspace_dir: self.server_workspace_dir.duplicate(),
            server_path: self.server_path.duplicate(),
            dev_dir: self.dev_dir.duplicate(),
            dev_index_dir: self.dev_index_dir.duplicate(),
            dev_workspace_dir: self.dev_workspace_dir.duplicate(),
        }
    }
}

impl InstallationView {
    /// The directory of a realm's packages.
    pub open spec fn realm_dir(self, realm: Realm) -> Seq<char> {
        match realm {
            Realm::Shared => self.shared_dir,
            Realm::Server => self.server_dir,
            Realm::Dev => self.dev_dir,
        }
    }

    /// The directory of a container of a realm's packages.
    pub open spec fn container_dir(self, realm: Realm, container: PackageContainer) -> Seq<char> {
        path::join_text(self.realm_dir(realm), container.dir_text())
    }

    /// The directory of a package in a container.
    pub open spec fn package_dir(
        self,
        realm: Realm,
        container: PackageContainer,
        id: PackageIdView,
    ) -> Seq<char> {
        path::join_text(self.container_dir(realm, container), file_name(id))
    }

    /// The link to a package of another realm.
    pub open spec fn foreign_link(
        self,
        realm: Realm,
        id: PackageIdView,
        container: PackageContainer,
    ) -> Result<Seq<char>, LinkError> {
        match (realm, self.shared_path, self.server_path) {
            (Realm::Shared, Some(packages), _) => Ok(placed_link(packages, id, container)),
            (Realm::Shared, None, _) => Err(LinkError::NoSharedPath),
            (Realm::Server, _, Some(packages)) => Ok(placed_link(packages, id, container)),
            (Realm::Server, _, None) => Err(LinkError::NoServerPath),
            (Realm::Dev, _, _) => Err(LinkError::DevDependency),
        }
    }
}

impl InstallationContext {
    #[verifier::type_invariant]
    spec fn dirs_fit(self) -> bool {
        &&& self.shared_index_dir@ == path::join_text(self.shared_dir@, "_Index"@)
        &&& self.shared_workspace_dir@ == path::join_text(self.shared_dir@, "_Workspace"@)
        &&& self.server_index_dir@ == path::join_text(self.server_dir@, "_Index"@)
        &&& self.server_workspace_dir@ == path::join_text(self.server_dir@, "_Workspace"@)
        &&& self.dev_index_dir@ == path::join_text(self.dev_dir@, "_Index"@)
        &&& self.dev_workspace_dir@ == path::join_text(self.dev_dir@, "_Workspace"@)
    }

    /// Create a new `InstallationContext` for the given path.
    pub fn new(
        project_path: &PathBuf,
        shared_path: Option<String>,
        server_path: Option<String>,
    ) -> (context: InstallationContext)
        ensures
            context@ == (InstallationView {
                shared_dir: path::join_text(project_path@, "Packages"@),
                server_dir: path::join_text(project_path@, "ServerPackages"@),
                dev_dir: path::join_text(project_path@, "DevPackages"@),
                shared_path: shared_path.deep_view(),
                server_path: server_path.deep_view(),
            }),
    {
        let shared_dir: PathBuf = project_path.join("Packages");
        let server_dir: PathBuf = project_path.join("ServerPackages");
        let dev_dir: PathBuf = project_path.join("DevPackages");
        let shared_index_dir: PathBuf = shared_dir.join("_Index");
        let server_index_dir: PathBuf = server_dir.join("_Index");
        let dev_index_dir: PathBuf = dev_dir.join("_Index");
        let shared_workspace_dir: PathBuf = shared_dir.join("_Workspace");
        let server_workspace_dir: PathBuf = server_dir.join("_Workspace");
        let dev_workspace_dir: PathBuf = dev_dir.join("_Workspace");
        InstallationContext {
            shared_dir,
            shared_index_dir,
            shared_workspace_dir,
            shared_path,
            server_dir,
            server_index_dir,
            server_workspace_dir,
            server_path,
            dev_dir,
            dev_index_dir,
            dev_workspace_dir,
        }
    }

    /// The existing package directories, which are deleted, if they exist,
    /// before packages are installed.
    pub fn clean(&self) -> (dirs: Vec<PathBuf>)
        ensures
            dirs.deep_view() == seq![self@.shared_dir, self@.server_dir, self@.dev_dir],
    {
        let mut dirs: Vec<PathBuf> = Vec::new();
        dirs.push(self.shared_dir.duplicate());
        dirs.push(self.server_dir.duplicate());
        dirs.push(self.dev_dir.duplicate());
        assert(dirs.deep_view() =~= seq![self@.shared_dir, self@.server_dir, self@.dev_dir]);
        dirs
    }

    /// The directory of a realm's packages.
    fn realm_dir(&self, realm: Realm) -> (dir: &PathBuf)
        ensures
            dir@ == self@.realm_dir(realm),
    {
        match realm {
            Realm::Shared => &self.shared_dir,
            Realm::Server => &self.server_dir,
            Realm::Dev => &self.dev_dir,
        }
    }

    /// Return the container directory for a given realm and container type.
    pub fn container_dir(&self, realm: Realm, container: PackageContainer) -> (dir: &PathBuf)
        ensures
            dir@ == self@.container_dir(realm, container),
    {
        proof {
            use_type_invariant(self);
        }
        match (realm, container) {
            (Realm::Shared, PackageContainer::Index) => &self.shared_index_dir,
            (Realm::Shared, PackageContainer::Workspace) => &self.shared_workspace_dir,
            (Realm::Server, PackageContainer::Index) => &self.server_index_dir,
            (Realm::Server, PackageContainer::Workspace) => &self.server_workspace_dir,
            (Realm::Dev, PackageContainer::Index) => &self.dev_index_dir,
            (Realm::Dev, PackageContainer::Workspace) => &self.dev_workspace_dir,
        }
    }

    /// Link from a realm root directory (e.g. `Packages/Foo.lua`) into the
    /// specified container (`_Index` or `_Workspace`).
    pub fn link_root(&self, id: &PackageId, container: PackageContainer) -> (link: String)
        ensures
            link@ == root_link(id@, container),
    {
        let mut place: String = "script.Parent.".to_owned();
        place.append(container.dir_name());
        write_link(place.as_str(), id)
    }

    /// Link between packages. When `source_container` and `target_container`
    /// are the same, the link navigates within the same container
    /// (`script.Parent.Parent`). When they differ, the link goes up to the
    /// realm root and back down into the target container.
    pub fn link_sibling(
        &self,
        id: &PackageId,
        source_container: PackageContainer,
        target_container: PackageContainer,
    ) -> (link: String)
        ensures
            link@ == sibling_link(id@, source_container, target_container),
    {
        if source_container == target_container {
            write_link("script.Parent.Parent", id)
        } else {
            let mut place: String = "script.Parent.Parent.Parent.".to_owned();
            place.append(target_container.dir_name());
            write_link(place.as_str(), id)
        }
    }

    /// Cross-realm link into the shared packages directory, targeting the
    /// specified container.
    pub fn link_shared(&self, id: &PackageId, container: PackageContainer) -> (link: Result<
        String,
        LinkError,
    >)
        ensures
            match (link, self@.shared_path) {
                (Ok(link), Some(packages)) => link@ == placed_link(packages, id@, container),
                (Err(error), None) => error == LinkError::NoSharedPath,
                _ => false,
            },
    {
        match &self.shared_path {
            Some(shared_path) => {
                let mut place: String = shared_path.clone();
                place.append(".");
                place.append(container.dir_name());
                Ok(write_link(place.as_str(), id))
            },
            None => Err(LinkError::NoSharedPath),
        }
    }

    /// Cross-realm link into the server packages directory, targeting the
    /// specified container.
    pub fn link_server(&self, id: &PackageId, container: PackageContainer) -> (link: Result<
        String,
        LinkError,
    >)
        ensures
            match (link, self@.server_path) {
                (Ok(link), Some(packages)) => link@ == placed_link(packages, id@, container),
                (Err(error), None) => error == LinkError::NoServerPath,
                _ => false,
            },
    {
        match &self.server_path {
            Some(server_path) => {
                let mut place: String = server_path.clone();
                place.append(".");
                place.append(container.dir_name());
                Ok(write_link(place.as_str(), id))
            },
            None => Err(LinkError::NoServerPath),
        }
    }

    /// Cross-realm link to a package of `realm`.
    fn link_foreign(&self, realm: Realm, id: &PackageId, container: PackageContainer) -> (link:
        Result<String, LinkError>)
        ensures
            match link {
                Ok(link) => self@.foreign_link(realm, id@, container) == Ok::<
                    Seq<char>,
                    LinkError,
                >(link@),
                Err(error) => self@.foreign_link(realm, id@, container) == Err::<
                    Seq<char>,
                    LinkError,
                >(error),
            },
    {
        match realm {
            Realm::Server => self.link_server(id, container),
            Realm::Shared => self.link_shared(id, container),
            Realm::Dev => Err(LinkError::DevDependency),
        }
    }
}

// ---------------------------------------------------------------------------
// Plans
// ---------------------------------------------------------------------------

/// One step of an installation.
#[derive(Debug, PartialEq, Eq)]
pub enum Action {
    /// Create a directory and those above it.
    CreateDir(PathBuf),
    /// Write a file.
    WriteFile { path: PathBuf, contents: String },
    /// Create the directory `dir` and put a project file in it that points back
    /// to the member's own directory.
    LinkMember { id: PackageId, dir: PathBuf, member_dir: PathBuf },
    /// Download a package and unpack it into a directory.
    Download { id: PackageId, source: PackageSourceId, dir: PathBuf },
}

/// What a step of an installation does.
pub enum ActionView {
    CreateDir(Seq<char>),
    WriteFile { path: Seq<char>, contents: Seq<char> },
    LinkMember { id: PackageIdView, dir: Seq<char>, member_dir: Seq<char> },
    Download { id: PackageIdView, source: PackageSourceIdView, dir: Seq<char> },
}

impl View for Action {
    type V = ActionView;

    open spec fn view(&self) -> ActionView {
        match self {
            Action::CreateDir(dir) => ActionView::CreateDir(dir@),
            Action::WriteFile { path, contents } => ActionView::WriteFile {
                path: path@,
                contents: contents@,
            },
            Action::LinkMember { id, dir, member_dir } => ActionView::LinkMember {
                id: id@,
                dir: dir@,
                member_dir: member_dir@,
            },
            Action::Download { id, source, dir } => ActionView::Download {
                id: id@,
                source: source@,
                dir: dir@,
            },
        }
    }
}

impl DeepView for Action {
    type V = ActionView;

    open spec fn deep_view(&self) -> ActionView {
        self.view()
    }
}

/// What has to be done, and the error with which it ends, if any.
#[derive(Debug, PartialEq, Eq)]
pub struct InstallPlan {
    pub actions: Vec<Action>,
    pub error: Option<LinkError>,
}

/// What a plan holds.
#[verifier::ext_equal]
pub struct PlanView {
    pub actions: Seq<ActionView>,
    pub error: Option<LinkError>,
}

impl View for InstallPlan {
    type V = PlanView;

    open spec fn view(&self) -> PlanView {
        PlanView { actions: self.actions.deep_view(), error: self.error }
    }
}

impl PlanView {
    /// Nothing has to be done.
    pub open spec fn nothing() -> PlanView {
        PlanView { actions: Seq::empty(), error: None }
    }

    /// This plan and, unless it ends with an error, another.
    pub open spec fn followed_by(self, next: PlanView) -> PlanView {
        if self.error is Some {
            self
        } else {
            PlanView { actions: self.actions + next.actions, error: next.error }
        }
    }
}

/// Where links stand.
#[derive(Debug, Clone, Copy, PartialEq, Eq, Structural)]
pub enum LinkFrom {
    /// In the directory of a realm.
    Root,
    /// In the directory of a package in a container.
    Package(PackageContainer),
}

/// What the link to a dependency says.
pub open spec fn link_contents(
    context: InstallationView,
    from: LinkFrom,
    realm: Realm,
    resolve: ResolveView,
    target: PackageIdView,
) -> Result<Seq<char>, LinkError> {
    let target_realm = ordered::lookup(resolve.metadata, target)->Some_0.origin_realm;
    let container = container_of(resolve, target);
    if realm == target_realm {
        Ok(
            match from {
                LinkFrom::Root => root_link(target, container),
                LinkFrom::Package(source) => sibling_link(target, source, container),
            },
        )
    } else {
        context.foreign_link(target_realm, target, container)
    }
}

/// The links to dependencies, in a directory.
pub open spec fn links(
    context: InstallationView,
    from: LinkFrom,
    realm: Realm,
    base: Seq<char>,
    edges: EdgesView,
    resolve: ResolveView,
) -> PlanView
    decreases edges.len(),
{
    if edges.len() == 0 {
        PlanView { actions: seq![ActionView::CreateDir(base)], error: None }
    } else {
        let before = links(context, from, realm, base, edges.drop_last(), resolve);
        let (alias, target) = edges.last();
        before.followed_by(
            match link_contents(context, from, realm, resolve, target) {
                Ok(contents) => PlanView {
                    actions: seq![
                        ActionView::WriteFile {
                            path: path::join_text(base, alias + ".lua"@),
                            contents,
                        },
                    ],
                    error: None,
                },
                Err(error) => PlanView { actions: Seq::empty(), error: Some(error) },
            },
        )
    }
}

/// The links to what a package depends on in a graph, if it does.
pub open spec fn links_of(
    context: InstallationView,
    from: LinkFrom,
    realm: Realm,
    base: Seq<char>,
    graph: GraphView,
    id: PackageIdView,
    resolve: ResolveView,
) -> PlanView {
    match ordered::lookup(graph, id) {
        Some(edges) => links(context, from, realm, base, edges, resolve),
        None => PlanView::nothing(),
    }
}

/// The links to what a package depends on: those in the graph of shared
/// dependencies, then in that of server and of dev dependencies, each from a
/// realm and in a directory.
pub open spec fn all_links(
    context: InstallationView,
    from: LinkFrom,
    shared: (Realm, Seq<char>),
    server: (Realm, Seq<char>),
    dev: (Realm, Seq<char>),
    resolve: ResolveView,
    id: PackageIdView,
) -> PlanView {
    let shared_links = links_of(
        context,
        from,
        shared.0,
        shared.1,
        resolve.shared_dependencies,
        id,
        resolve,
    );
    let server_links = links_of(
        context,
        from,
        server.0,
        server.1,
        resolve.server_dependencies,
        id,
        resolve,
    );
    let dev_links = links_of(
        context,
        from,
        dev.0,
        dev.1,
        resolve.dev_dependencies,
        id,
        resolve,
    );
    shared_links.followed_by(server_links).followed_by(dev_links)
}

/// The top-level links of a root: from each realm's directory.
pub open spec fn root_links(
    context: InstallationView,
    resolve: ResolveView,
    id: PackageIdView,
) -> PlanView {
    all_links(
        context,
        LinkFrom::Root,
        (Realm::Shared, context.shared_dir),
        (Realm::Server, context.server_dir),
        (Realm::Dev, context.dev_dir),
        resolve,
        id,
    )
}

/// The links inside a package's entry in its container.
pub open spec fn package_links(
    context: InstallationView,
    resolve: ResolveView,
    id: PackageIdView,
) -> PlanView {
    let realm = ordered::lookup(resolve.metadata, id)->Some_0.origin_realm;
    let container = container_of(resolve, id);
    let base = context.package_dir(realm, container, id);
    all_links(
        context,
        LinkFrom::Package(container),
        (realm, base),
        (realm, base),
        (realm, base),
        resolve,
        id,
    )
}

/// How a package itself gets into its container: a member is linked, any other
/// package is downloaded.
pub open spec fn entry(
    context: InstallationView,
    resolve: ResolveView,
    id: PackageIdView,
) -> ActionView {
    let metadata = ordered::lookup(resolve.metadata, id)->Some_0;
    let realm = metadata.origin_realm;
    if metadata.is_workspace_member {
        ActionView::LinkMember {
            id,
            dir: path::join_text(
                context.package_dir(realm, PackageContainer::Workspace, id),
                id.name.name,
            ),
            member_dir: metadata.source_registry->Path_0,
        }
    } else {
        ActionView::Download {
            id,
            source: metadata.source_registry,
            dir: path::join_text(
                context.package_dir(realm, PackageContainer::Index, id),
                id.name.name,
            ),
        }
    }
}

/// Whether a package is the only root: it is the user's own project.
pub open spec fn is_sole_root(roots: Seq<PackageIdView>, id: PackageIdView) -> bool {
    ordered::holds(roots, id) && roots.len() == 1
}

/// What has to be done for a package.
pub open spec fn package_plan(
    context: InstallationView,
    roots: Seq<PackageIdView>,
    resolve: ResolveView,
    id: PackageIdView,
) -> PlanView {
    let top = if ordered::holds(roots, id) {
        root_links(context, resolve, id)
    } else {
        PlanView::nothing()
    };
    if is_sole_root(roots, id) {
        top
    } else {
        top.followed_by(package_links(context, resolve, id)).followed_by(
            PlanView { actions: seq![entry(context, resolve, id)], error: None },
        )
    }
}

/// What has to be done for packages, one after the other.
pub open spec fn plan_of(
    context: InstallationView,
    roots: Seq<PackageIdView>,
    resolve: ResolveView,
    ids: Seq<PackageIdView>,
) -> PlanView
    decreases ids.len(),
{
    if ids.len() == 0 {
        PlanView::nothing()
    } else {
        plan_of(context, roots, resolve, ids.drop_last()).followed_by(
            package_plan(context, roots, resolve, ids.last()),
        )
    }
}

/// Something is known of all that a package depends on in a graph.
pub open spec fn targets_known(resolve: ResolveView, graph: GraphView, id: PackageIdView) -> bool {
    forall|j: int|
        0 <= j < resolution::edges_of(graph, id).len() ==> ordered::holds(
            ordered::keys_of(resolve.metadata),
            (#[trigger] resolution::edges_of(graph, id)[j]).1,
        )
}

/// Something is known of all that a package depends on.
pub open spec fn is_linkable(resolve: ResolveView, id: PackageIdView) -> bool {
    &&& targets_known(resolve, resolve.shared_dependencies, id)
    &&& targets_known(resolve, resolve.server_dependencies, id)
    &&& targets_known(resolve, resolve.dev_dependencies, id)
}

/// Something is known of a package and of all that it depends on, and a member
/// that has an entry has a directory.
pub open spec fn is_ready(
    roots: Seq<PackageIdView>,
    resolve: ResolveView,
    id: PackageIdView,
) -> bool {
    &&& ordered::holds(ordered::keys_of(resolve.metadata), id)
    &&& is_linkable(resolve, id)
    &&& !is_sole_root(roots, id) && ordered::lookup(
        resolve.metadata,
        id,
    )->Some_0.is_workspace_member ==> ordered::lookup(
        resolve.metadata,
        id,
    )->Some_0.source_registry is Path
}

/// All chosen packages are such.
pub open spec fn is_installable(roots: Seq<PackageIdView>, resolve: ResolveView) -> bool {
    forall|i: int|
        0 <= i < resolve.activated.len() ==> is_ready(roots, resolve, #[trigger] resolve.activated[i])
}

impl InstallationContext {
    /// Links to dependencies, in a directory.
    fn write_links(
        &self,
        from: LinkFrom,
        realm: Realm,
        base_path: &PathBuf,
        dependencies: &Edges,
        resolved: &Resolve,
        actions: &mut Vec<Action>,
    ) -> (written: Result<(), LinkError>)
        requires
            forall|j: int|
                0 <= j < dependencies@.len() ==> ordered::holds(
                    ordered::keys_of(resolved@.metadata),
                    (#[trigger] dependencies@[j]).1,
                ),
        ensures
            ({
                let plan = links(self@, from, realm, base_path@, dependencies@, resolved@);
                &&& final(actions).deep_view() == old(actions).deep_view() + plan.actions
                &&& match written {
                    Ok(_) => plan.error is None,
                    Err(error) => plan.error == Some(error),
                }
            }),
    {
        let ghost first = actions.deep_view();
        let ghost all = dependencies@;
        actions.push(Action::CreateDir(base_path.duplicate()));
        assert(actions.deep_view() =~= first + seq![ActionView::CreateDir(base_path@)]);
        assert(all.take(0) =~= Seq::<(Seq<char>, PackageIdView)>::empty());
        let mut i: usize = 0;
        while i < dependencies.len()
            invariant
                i <= dependencies@.len(),
                all == dependencies@,
                first == old(actions).deep_view(),
                forall|j: int|
                    0 <= j < all.len() ==> ordered::holds(
                        ordered::keys_of(resolved@.metadata),
                        (#[trigger] all[j]).1,
                    ),
                ({
                    let plan = links(
                        self@,
                        from,
                        realm,
                        base_path@,
                        all.take(i as int),
                        resolved@,
                    );
                    &&& actions.deep_view() == first + plan.actions
                    &&& plan.error is None
                }),
            decreases dependencies@.len() - i,
        {
            let alias: &String = dependencies.key_at(i);
            let target: &PackageId = dependencies.value_at(i);
            let ghost before = links(
                self@,
                from,
                realm,
                base_path@,
                all.take(i as int),
                resolved@,
            );
            let ghost so_far = actions.deep_view();
            proof {
                assert(ordered::holds(
                    ordered::keys_of(resolved@.metadata),
                    all[i as int].1,
                ));
                assert(all.take(i + 1).last() == all[i as int]);
                assert(all.take(i + 1).drop_last() =~= all.take(i as int));
            }
            let target_realm: Realm = match resolved.metadata.get(target) {
                Some(metadata) => metadata.origin_realm,
                None => vstd::pervasive::unreached(),
            };
            let container: PackageContainer = package_container(resolved, target);
            let linked: Result<String, LinkError> = if realm == target_realm {
                Ok(
                    match from {
                        LinkFrom::Root => self.link_root(target, container),
                        LinkFrom::Package(source) => self.link_sibling(target, source, container),
                    },
                )
            } else {
                self.link_foreign(target_realm, target, container)
            };
            let contents: String = match linked {
                Ok(contents) => contents,
                Err(error) => {
                    proof {
                        assert(before.actions + Seq::<ActionView>::empty() =~= before.actions);
                        lemma_links_error(
                            self@,
                            from,
                            realm,
                            base_path@,
                            all,
                            resolved@,
                            i + 1,
                        );
                    }
                    return Err(error);
                },
            };
            let mut file: String = alias.clone();
            file.append(".lua");
            let action = Action::WriteFile { path: base_path.join(file.as_str()), contents };
            actions.push(action);
            proof {
                assert(actions.deep_view() =~= so_far + seq![action@]);
                assert(first + before.actions + seq![action@] =~= first + (before.actions + seq![
                    action@,
                ]));
            }
            i += 1;
        }
        assert(all.take(all.len() as int) =~= all);
        Ok(())
    }

    /// Links to what a package depends on in a graph, if it does.
    fn write_links_of(
        &self,
        from: LinkFrom,
        realm: Realm,
        base_path: &PathBuf,
        graph: &DependencyGraph,
        id: &PackageId,
        resolved: &Resolve,
        actions: &mut Vec<Action>,
    ) -> (written: Result<(), LinkError>)
        requires
            targets_known(resolved@, graph@, id@),
        ensures
            ({
                let plan = links_of(self@, from, realm, base_path@, graph@, id@, resolved@);
                &&& final(actions).deep_view() == old(actions).deep_view() + plan.actions
                &&& match written {
                    Ok(_) => plan.error is None,
                    Err(error) => plan.error == Some(error),
                }
            }),
    {
        match graph.get(id) {
            Some(edges) => {
                assert(resolution::edges_of(graph@, id@) == edges@);
                self.write_links(from, realm, base_path, edges, resolved, actions)
            },
            None => {
                assert(actions.deep_view() + Seq::<ActionView>::empty() =~= actions.deep_view());
                Ok(())
            },
        }
    }

    /// Links to what a package depends on.
    fn write_all_links(
        &self,
        from: LinkFrom,
        shared: (Realm, &PathBuf),
        server: (Realm, &PathBuf),
        dev: (Realm, &PathBuf),
        id: &PackageId,
        resolved: &Resolve,
        actions: &mut Vec<Action>,
    ) -> (written: Result<(), LinkError>)
        requires
            is_linkable(resolved@, id@),
        ensures
            ({
                let plan = all_links(
                    self@,
                    from,
                    (shared.0, shared.1@),
                    (server.0, server.1@),
                    (dev.0, dev.1@),
                    resolved@,
                    id@,
                );
                &&& final(actions).deep_view() == old(actions).deep_view() + plan.actions
                &&& match written {
                    Ok(_) => plan.error is None,
                    Err(error) => plan.error == Some(error),
                }
            }),
    {
        let ghost first = actions.deep_view();
        match self.write_links_of(
            from,
            shared.0,
            shared.1,
            &resolved.shared_dependencies,
            id,
            resolved,
            actions,
        ) {
            Ok(_) => {},
            Err(error) => {
                return Err(error);
            },
        }
        let ghost second = actions.deep_view();
        match self.write_links_of(
            from,
            server.0,
            server.1,
            &resolved.server_dependencies,
            id,
            resolved,
            actions,
        ) {
            Ok(_) => {},
            Err(error) => {
                proof {
                    lemma_added_twice(first, second, actions.deep_view());
                }
                return Err(error);
            },
        }
        let ghost third = actions.deep_view();
        let written: Result<(), LinkError> = self.write_links_of(
            from,
            dev.0,
            dev.1,
            &resolved.dev_dependencies,
            id,
            resolved,
            actions,
        );
        proof {
            lemma_added_twice(first, second, third);
            lemma_added_twice(first, third, actions.deep_view());
        }
        written
    }

    /// The links of a root from the realms' directories.
    fn write_root_package_links(
        &self,
        id: &PackageId,
        resolved: &Resolve,
        actions: &mut Vec<Action>,
    ) -> (written: Result<(), LinkError>)
        requires
            is_linkable(resolved@, id@),
        ensures
            ({
                let plan = root_links(self@, resolved@, id@);
                &&& final(actions).deep_view() == old(actions).deep_view() + plan.actions
                &&& match written {
                    Ok(_) => plan.error is None,
                    Err(error) => plan.error == Some(error),
                }
            }),
    {
        self.write_all_links(
            LinkFrom::Root,
            (Realm::Shared, &self.shared_dir),
            (Realm::Server, &self.server_dir),
            (Realm::Dev, &self.dev_dir),
            id,
            resolved,
            actions,
        )
    }

    /// The links inside a package's entry in its container.
    fn write_package_links(
        &self,
        id: &PackageId,
        package_realm: Realm,
        resolved: &Resolve,
        actions: &mut Vec<Action>,
    ) -> (written: Result<(), LinkError>)
        requires
            is_linkable(resolved@, id@),
            package_realm == ordered::lookup(resolved@.metadata, id@)->Some_0.origin_realm,
        ensures
            ({
                let plan = package_links(self@, resolved@, id@);
                &&& final(actions).deep_view() == old(actions).deep_view() + plan.actions
                &&& match written {
                    Ok(_) => plan.error is None,
                    Err(error) => plan.error == Some(error),
                }
            }),
    {
        let container: PackageContainer = package_container(resolved, id);
        let base: PathBuf = self.container_dir(package_realm, container).join(
            package_id_file_name(id).as_str(),
        );
        self.write_all_links(
            LinkFrom::Package(container),
            (package_realm, &base),
            (package_realm, &base),
            (package_realm, &base),
            id,
            resolved,
            actions,
        )
    }
}

/// What is added in two goes is added in one.
proof fn lemma_added_twice(first: Seq<ActionView>, second: Seq<ActionView>, third: Seq<ActionView>)
    ensures
        forall|a: Seq<ActionView>, b: Seq<ActionView>|
            #![trigger first + a, second + b]
            second == first + a && third == second + b ==> third == first + (a + b),
{
    assert forall|a: Seq<ActionView>, b: Seq<ActionView>|
        #![trigger first + a, second + b]
        second == first + a && third == second + b implies third == first + (a + b) by {
        assert(first + a + b =~= first + (a + b));
    }
}

proof fn lemma_links_error(
    context: InstallationView,
    from: LinkFrom,
    realm: Realm,
    base: Seq<char>,
    edges: EdgesView,
    resolve: ResolveView,
    n: int,
)
    requires
        0 <= n <= edges.len(),
        links(context, from, realm, base, edges.take(n), resolve).error is Some,
    ensures
        links(context, from, realm, base, edges, resolve) == links(
            context,
            from,
            realm,
            base,
            edges.take(n),
            resolve,
        ),
    decreases edges.len() - n,
{
    if n == edges.len() {
        assert(edges.take(n) =~= edges);
    } else {
        assert(edges.take(n + 1).drop_last() =~= edges.take(n));
        lemma_links_error(context, from, realm, base, edges, resolve, n + 1);
    }
}

proof fn lemma_plan_error(
    context: InstallationView,
    roots: Seq<PackageIdView>,
    resolve: ResolveView,
    ids: Seq<PackageIdView>,
    n: int,
)
    requires
        0 <= n <= ids.len(),
        plan_of(context, roots, resolve, ids.take(n)).error is Some,
    ensures
        plan_of(context, roots, resolve, ids) == plan_of(context, roots, resolve, ids.take(n)),
    decreases ids.len() - n,
{
    if n == ids.len() {
        assert(ids.take(n) =~= ids);
    } else {
        assert(ids.take(n + 1).drop_last() =~= ids.take(n));
        lemma_plan_error(context, roots, resolve, ids, n + 1);
    }
}

/// Whether a package has to be downloaded.
pub open spec fn is_downloaded(
    roots: Seq<PackageIdView>,
    resolve: ResolveView,
    id: PackageIdView,
) -> bool {
    !is_sole_root(roots, id) && container_of(resolve, id) == PackageContainer::Index
}

/// How many packages have to be downloaded.
pub open spec fn downloads(
    roots: Seq<PackageIdView>,
    resolve: ResolveView,
    ids: Seq<PackageIdView>,
) -> nat
    decreases ids.len(),
{
    if ids.len() == 0 {
        0
    } else {
        downloads(roots, resolve, ids.drop_last()) + if is_downloaded(roots, resolve, ids.last()) {
            1nat
        } else {
            0nat
        }
    }
}

/// How many packages have to be downloaded.
pub fn download_count(root_package_ids: &OrdSet<PackageId>, resolved: &Resolve) -> (count: usize)
    ensures
        count == downloads(root_package_ids@, resolved@, resolved@.activated),
{
    let mut count: usize = 0;
    let mut i: usize = 0;
    let ghost all = resolved.activated@;
    assert(all.take(0) =~= Seq::<PackageIdView>::empty());
    while i < resolved.activated.len()
        invariant
            i <= all.len(),
            count <= i,
            all == resolved@.activated,
            count == downloads(root_package_ids@, resolved@, all.take(i as int)),
        decreases all.len() - i,
    {
        let id: &PackageId = resolved.activated.at(i);
        let sole_root: bool = root_package_ids.contains(id) && root_package_ids.len() == 1;
        proof {
            assert(all.take(i + 1).last() == id@);
            assert(all.take(i + 1).drop_last() =~= all.take(i as int));
        }
        if !sole_root && package_container(resolved, id) == PackageContainer::Index {
            count += 1;
        }
        i += 1;
    }
    assert(all.take(all.len() as int) =~= all);
    count
}

impl InstallationContext {
    /// What has to be done for a package.
    fn plan_package(
        &self,
        root_package_ids: &OrdSet<PackageId>,
        resolved: &Resolve,
        id: &PackageId,
        actions: &mut Vec<Action>,
    ) -> (planned: Result<(), LinkError>)
        requires
            is_ready(root_package_ids@, resolved@, id@),
        ensures
            ({
                let plan = package_plan(self@, root_package_ids@, resolved@, id@);
                &&& final(actions).deep_view() == old(actions).deep_view() + plan.actions
                &&& match planned {
                    Ok(_) => plan.error is None,
                    Err(error) => plan.error == Some(error),
                }
            }),
    {
        let ghost first = actions.deep_view();
        let metadata: &ResolvePackageMetadata = match resolved.metadata.get(id) {
            Some(metadata) => metadata,
            None => vstd::pervasive::unreached(),
        };
        let is_root: bool = root_package_ids.contains(id);
        // Root packages get top-level links from the realm directory
        // (e.g. Packages/Foo.lua -> _Index or _Workspace).
        if is_root {
            match self.write_root_package_links(id, resolved, actions) {
                Ok(_) => {},
                Err(error) => {
                    return Err(error);
                },
            }
        }
        let ghost second = actions.deep_view();
        assert(first + Seq::<ActionView>::empty() =~= first);
        // In a single-package project the sole root is the user's own project --
        // it doesn't need a container entry or sibling links.
        if is_root && root_package_ids.len() == 1 {
            return Ok(());
        }
        let package_realm: Realm = metadata.origin_realm;
        match self.write_package_links(id, package_realm, resolved, actions) {
            Ok(_) => {},
            Err(error) => {
                proof {
                    lemma_added_twice(first, second, actions.deep_view());
                }
                return Err(error);
            },
        }
        let ghost third = actions.deep_view();
        let container: PackageContainer = package_container(resolved, id);
        let dir: PathBuf = self.container_dir(package_realm, container).join(
            package_id_file_name(id).as_str(),
        ).join(id.name().name());
        let action: Action = if metadata.is_workspace_member {
            let member_dir: PathBuf = match &metadata.source_registry {
                PackageSourceId::Path(dir) => dir.duplicate(),
                _ => vstd::pervasive::unreached(),
            };
            Action::LinkMember { id: id.duplicate(), dir, member_dir }
        } else {
            Action::Download {
                id: id.duplicate(),
                source: metadata.source_registry.duplicate(),
                dir,
            }
        };
        assert(action@ == entry(self@, resolved@, id@));
        actions.push(action);
        proof {
            assert(actions.deep_view() =~= third + seq![action@]);
            lemma_added_twice(first, second, third);
            lemma_added_twice(first, third, actions.deep_view());
        }
        Ok(())
    }

    /// What has to be done to install all packages from the given `Resolve`.
    ///
    /// `root_package_ids` contains the set of packages that are "roots" --
    /// workspace members or the single root in a non-workspace project. Root
    /// packages get top-level links (e.g. `Packages/Foo.lua`). In a
    /// multi-member workspace, roots also get `_Workspace/` entries with a
    /// Rojo `default.project.json` pointing back to their source directory.
    pub fn install(&self, root_package_ids: &OrdSet<PackageId>, resolved: &Resolve) -> (plan:
        InstallPlan)
        requires
            is_installable(root_package_ids@, resolved@),
        ensures
            plan@ == plan_of(self@, root_package_ids@, resolved@, resolved@.activated),
    {
        let mut actions: Vec<Action> = Vec::new();
        let ghost all = resolved@.activated;
        let mut i: usize = 0;
        assert(all.take(0) =~= Seq::<PackageIdView>::empty());
        assert(actions.deep_view() =~= Seq::<ActionView>::empty());
        while i < resolved.activated.len()
            invariant
                i <= all.len(),
                all == resolved@.activated,
                is_installable(root_package_ids@, resolved@),
                plan_of(self@, root_package_ids@, resolved@, all.take(i as int)) == (PlanView {
                    actions: actions.deep_view(),
                    error: None,
                }),
            decreases all.len() - i,
        {
            let id: &PackageId = resolved.activated.at(i);
            proof {
                assert(is_ready(root_package_ids@, resolved@, resolved@.activated[i as int]));
                assert(all.take(i + 1).last() == id@);
                assert(all.take(i + 1).drop_last() =~= all.take(i as int));
            }
            match self.plan_package(root_package_ids, resolved, id, &mut actions) {
                Ok(_) => {},
                Err(error) => {
                    proof {
                        lemma_plan_error(self@, root_package_ids@, resolved@, all, i + 1);
                    }
                    return InstallPlan { actions, error: Some(error) };
                },
            }
            i += 1;
        }
        assert(all.take(all.len() as int) =~= all);
        InstallPlan { actions, error: None }
    }
}

// ---------------------------------------------------------------------------
// Project files
// ---------------------------------------------------------------------------

/// A character that stands for itself in a JSON string.
pub open spec fn is_plain_json(c: char) -> bool {
    c != '"' && c != '\\' && c >= ' '
}

/// All characters stand for themselves in a JSON string.
pub open spec fn all_plain_json(text: Seq<char>) -> bool {
    forall|i: int| 0 <= i < text.len() ==> is_plain_json(#[trigger] text[i])
}

/// How `serde_json::to_string_pretty` writes an object with a text under one
/// key and, under a second, an object with a text under a third.
pub uninterp spec fn pretty_json(
    first_key: Seq<char>,
    first: Seq<char>,
    second_key: Seq<char>,
    inner_key: Seq<char>,
    inner: Seq<char>,
) -> Seq<char>;

/// Writes an object with `serde_json::to_string_pretty`: a text under the first
/// key and, under the second, an object with a text under the third. Stated of
/// it: the result is a function of the five texts; where all their characters
/// stand for themselves and the first key comes before the second, it is the
/// object on five lines with indents of two.
#[verifier::external_body]
fn write_pretty_json(
    first_key: &str,
    first: &str,
    second_key: &str,
    inner_key: &str,
    inner: &str,
) -> (json: String)
    ensures
        json@ == pretty_json(first_key@, first@, second_key@, inner_key@, inner@),
        order::precedes(order::plain_key(first_key@), order::plain_key(second_key@))
            && all_plain_json(first_key@) && all_plain_json(first@) && all_plain_json(second_key@)
            && all_plain_json(inner_key@) && all_plain_json(inner@) ==> json@ == "{\n  \""@
            + first_key@ + "\": \""@ + first@ + "\",\n  \""@ + second_key@ + "\": {\n    \""@
            + inner_key@ + "\": \""@ + inner@ + "\"\n  }\n}"@,
{
    let text = |value: &str| serde_json::Value::String(value.to_owned());
    let mut below = serde_json::Map::new();
    below.insert(inner_key.to_owned(), text(inner));
    let mut object = serde_json::Map::new();
    object.insert(first_key.to_owned(), text(first));
    object.insert(second_key.to_owned(), serde_json::Value::Object(below));
    serde_json::to_string_pretty(&serde_json::Value::Object(object)).unwrap()
}

/// The path from the directory of a project file to the member, as the project
/// file writes it.
pub open spec fn project_path(member_dir: Seq<char>, project_dir: Seq<char>) -> Seq<char> {
    text::with_slashes(
        match path::path_difference(member_dir, project_dir) {
            Some(relative) => relative,
            None => member_dir,
        },
    )
}

/// The way from one canonical directory to another.
pub open spec fn way_back(member_dir: Seq<char>, project_dir: Seq<char>) -> Seq<char> {
    path::path_text(path::relative_path(path::path_of(member_dir), path::path_of(project_dir)))
}

/// The Rojo `default.project.json` in the directory `project_dir` that points
/// back to a workspace member's source directory. This acts as a platform-safe
/// symlink that Rojo can follow.
pub fn workspace_project_json(package_id: &PackageId, member_dir: &PathBuf, project_dir: &PathBuf)
    -> (json: String)
    ensures
        json@ == pretty_json(
            "name"@,
            package_id@.name.name,
            "tree"@,
            "$path"@,
            project_path(member_dir@, project_dir@),
        ),
        path::is_canonical(path::path_of(member_dir@)) && path::is_canonical(
            path::path_of(project_dir@),
        ) && path::is_slashed(member_dir@) && path::is_slashed(project_dir@) ==> project_path(
            member_dir@,
            project_dir@,
        ) == way_back(member_dir@, project_dir@),
        all_plain_json(project_path(member_dir@, project_dir@)) ==> json@
            == "{\n  \"name\": \""@ + package_id@.name.name
            + "\",\n  \"tree\": {\n    \"$path\": \""@ + project_path(
            member_dir@,
            project_dir@,
        ) + "\"\n  }\n}"@,
{
    let relative: String = match path::diff_paths(member_dir, project_dir) {
        Some(relative) => relative,
        None => member_dir.text.clone(),
    };
    let path: String = text::to_slashes(relative.as_str());
    let name: &str = package_id.name().name();
    let json: String = write_pretty_json("name", name, "tree", "$path", path.as_str());
    proof {
        reveal_strlit("name");
        reveal_strlit("tree");
        reveal_strlit("$path");
        reveal_strlit("{\n  \"");
        reveal_strlit("\": \"");
        reveal_strlit("\",\n  \"");
        reveal_strlit("\": {\n    \"");
        reveal_strlit("\"\n  }\n}");
        reveal_strlit("{\n  \"name\": \"");
        reveal_strlit("\",\n  \"tree\": {\n    \"$path\": \"");
        assert(order::splits(order::plain_key("name"@), order::plain_key("tree"@), 0));
        assert(all_plain_json(name@)) by {
            assert forall|i: int| 0 <= i < name@.len() implies is_plain_json(
                #[trigger] name@[i],
            ) by {
                assert(package_name::is_name_char(name@[i]));
            }
        }
        if all_plain_json(path@) {
            assert(json@ =~= "{\n  \"name\": \""@ + package_id@.name.name
                + "\",\n  \"tree\": {\n    \"$path\": \""@ + path@ + "\"\n  }\n}"@);
        }
    }
    json
}

} // verus!
