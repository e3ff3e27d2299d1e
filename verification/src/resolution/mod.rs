//! Choosing the packages that a project is made of.
//!
//! Requests for dependencies stand in a queue. Each is met by a package that
//! was chosen before or by a new one, whose own dependencies then join the
//! queue. What the sources of packages hold is not known from the start: where
//! an answer of a source is missing, resolution ends with the query that has to
//! be asked, and starts over once the answer is recorded. When all requests are
//! met, packages move to the realms that they turn out to be asked for from.

use vstd::prelude::*;

use std::collections::VecDeque;

use crate::dependency_spec::{DependencySpec, DependencySpecView};
use crate::manifest::{DependencyMap, DependencyMapView, Manifest, ManifestView, Realm};
use crate::order;
use crate::order::Order;
use crate::ordered;
use crate::ordered::{OrdMap, OrdSet};
use crate::package_id;
use crate::package_id::{PackageId, PackageIdView};
use crate::package_name::{PackageName, PackageNameView};
use crate::package_req;
use crate::package_req::{PackageReq, PackageReqView};
use crate::package_source;
use crate::package_source::{
    AnswerView, PackageSourceId, PackageSourceIdView, PackageSourceMap, PackageSourceMapView,
};
use crate::path;
use crate::path::PathBuf;
use crate::plain;
use crate::plain::Plain;
use crate::text;
use crate::version;
use crate::version::{Version, VersionView};
use crate::workspace;
use crate::workspace::{CanonicalPaths, CanonicalPathsView, Members, MembersView, Workspace};

pub mod laws;
pub mod met;
pub mod needed;
pub mod origins;
pub mod realms;
pub mod rules;
pub mod stable;

verus! {

// ---------------------------------------------------------------------------
// Resolved graphs
// ---------------------------------------------------------------------------

/// A single node in the package resolution graph.
///
/// The origin realm is the most restrictive realm that the package can still be
/// depended upon from. It is where the package gets placed during install.
#[derive(Debug, PartialEq, Eq)]
pub struct ResolvePackageMetadata {
    pub realm: Realm,
    pub origin_realm: Realm,
    pub source_registry: PackageSourceId,
    /// `true` when this package is a local workspace member rather than a
    /// package fetched from a registry.
    pub is_workspace_member: bool,
}

/// What a node in the package resolution graph holds.
pub struct MetadataView {
    pub realm: Realm,
    pub origin_realm: Realm,
    pub source_registry: PackageSourceIdView,
    pub is_workspace_member: bool,
}

impl View for ResolvePackageMetadata {
    type V = MetadataView;

    open spec fn view(&self) -> MetadataView {
        MetadataView {
            realm: self.realm,
            origin_realm: self.origin_realm,
            source_registry: self.source_registry@,
            is_workspace_member: self.is_workspace_member,
        }
    }
}

impl DeepView for ResolvePackageMetadata {
    type V = MetadataView;

    open spec fn deep_view(&self) -> MetadataView {
        self.view()
    }
}

impl Plain for ResolvePackageMetadata {
    fn duplicate(&self) -> (copy: Self) {
        ResolvePackageMetadata {
            realm: self.realm,
            origin_realm: self.origin_realm,
            source_registry: self.source_registry.duplicate(),
            is_workspace_member: self.is_workspace_member,
        }
    }
}

impl Clone for ResolvePackageMetadata {
    fn clone(&self) -> (copy: Self)
        ensures
            copy@ == self@,
    {
        self.duplicate()
    }
}

/// What packages depend on, by their aliases.
pub type Edges = OrdMap<String, PackageId>;

/// What a package depends on, by their aliases.
pub type EdgesView = Seq<(Seq<char>, PackageIdView)>;

/// The dependencies of packages.
pub type DependencyGraph = OrdMap<PackageId, Edges>;

/// The dependencies of packages.
pub type GraphView = Seq<(PackageIdView, EdgesView)>;

/// A completely resolved graph of packages.
#[derive(Debug, PartialEq, Eq)]
pub struct Resolve {
    /// Set of all packages that have been chosen to be part of the package
    /// graph.
    pub activated: OrdSet<PackageId>,
    /// What is known about each package.
    pub metadata: OrdMap<PackageId, ResolvePackageMetadata>,
    /// Graph of all dependencies originating from the "shared" dependency realm.
    pub shared_dependencies: DependencyGraph,
    /// Graph of all dependencies originating from the "server" dependency realm.
    pub server_dependencies: DependencyGraph,
    /// Graph of all dependencies originating from the "dev" dependency realm.
    pub dev_dependencies: DependencyGraph,
}

/// What a resolved graph holds.
#[verifier::ext_equal]
pub struct ResolveView {
    pub activated: Seq<PackageIdView>,
    pub metadata: Seq<(PackageIdView, MetadataView)>,
    pub shared_dependencies: GraphView,
    pub server_dependencies: GraphView,
    pub dev_dependencies: GraphView,
}

impl View for Resolve {
    type V = ResolveView;

    open spec fn view(&self) -> ResolveView {
        ResolveView {
            activated: self.activated@,
            metadata: self.metadata@,
            shared_dependencies: self.shared_dependencies@,
            server_dependencies: self.server_dependencies@,
            dev_dependencies: self.dev_dependencies@,
        }
    }
}

impl DeepView for Resolve {
    type V = ResolveView;

    open spec fn deep_view(&self) -> ResolveView {
        self.view()
    }
}

impl Plain for Resolve {
    fn duplicate(&self) -> (copy: Self) {
        Resolve {
            activated: self.activated.duplicate(),
            metadata: self.metadata.duplicate(),
            shared_dependencies: self.shared_dependencies.duplicate(),
            server_dependencies: self.server_dependencies.duplicate(),
            dev_dependencies: self.dev_dependencies.duplicate(),
        }
    }
}

impl Clone for Resolve {
    fn clone(&self) -> (copy: Self)
        ensures
            copy@ == self@,
    {
        self.duplicate()
    }
}

/// What a package depends on in a graph.
pub open spec fn edges_of(graph: GraphView, source: PackageIdView) -> EdgesView {
    match ordered::lookup(graph, source) {
        Some(edges) => edges,
        None => Seq::empty(),
    }
}

/// A graph in which `source` depends on `dep` under the name `alias`.
pub open spec fn with_edge(
    graph: GraphView,
    source: PackageIdView,
    alias: Seq<char>,
    dep: PackageIdView,
) -> GraphView {
    ordered::with_entry(graph, source, ordered::with_entry(edges_of(graph, source), alias, dep))
}

impl ResolveView {
    /// The graph in which nothing was chosen.
    pub open spec fn empty() -> ResolveView {
        ResolveView {
            activated: Seq::empty(),
            metadata: Seq::empty(),
            shared_dependencies: Seq::empty(),
            server_dependencies: Seq::empty(),
            dev_dependencies: Seq::empty(),
        }
    }

    /// The dependencies that originate from a realm.
    pub open spec fn graph(self, realm: Realm) -> GraphView {
        match realm {
            Realm::Shared => self.shared_dependencies,
            Realm::Server => self.server_dependencies,
            Realm::Dev => self.dev_dependencies,
        }
    }

    /// `dep` is chosen, and `source` depends on it.
    pub open spec fn activate(
        self,
        source: PackageIdView,
        alias: Seq<char>,
        realm: Realm,
        dep: PackageIdView,
    ) -> ResolveView {
        let activated = ordered::with_key(self.activated, dep);
        let graph = with_edge(self.graph(realm), source, alias, dep);
        match realm {
            Realm::Shared => ResolveView { activated, shared_dependencies: graph, ..self },
            Realm::Server => ResolveView { activated, server_dependencies: graph, ..self },
            Realm::Dev => ResolveView { activated, dev_dependencies: graph, ..self },
        }
    }

    /// Something is known of exactly the packages that were chosen.
    pub open spec fn is_sound(self) -> bool {
        &&& ordered::ascending(self.activated)
        &&& ordered::keys_of(self.metadata) == self.activated
    }
}

fn put_edge(graph: &mut DependencyGraph, source: &PackageId, alias: &String, dep: &PackageId)
    ensures
        final(graph)@ == with_edge(old(graph)@, source@, alias@, dep@),
{
    let mut edges: Edges = match graph.get(source) {
        Some(edges) => edges.duplicate(),
        None => OrdMap::new(),
    };
    edges.insert(alias.clone(), dep.duplicate());
    graph.insert(source.duplicate(), edges);
}

impl Default for Resolve {
    /// The graph in which nothing was chosen.
    fn default() -> (resolve: Resolve)
        ensures
            resolve@ == ResolveView::empty(),
    {
        Resolve {
            activated: OrdSet::new(),
            metadata: OrdMap::new(),
            shared_dependencies: OrdMap::new(),
            server_dependencies: OrdMap::new(),
            dev_dependencies: OrdMap::new(),
        }
    }
}

impl Resolve {
    fn activate(&mut self, source: &PackageId, dep_name: &String, dep_realm: Realm, dep: &PackageId)
        ensures
            final(self)@ == old(self)@.activate(source@, dep_name@, dep_realm, dep@),
    {
        self.activated.insert(dep.duplicate());
        match dep_realm {
            Realm::Shared => put_edge(&mut self.shared_dependencies, source, dep_name, dep),
            Realm::Server => put_edge(&mut self.server_dependencies, source, dep_name, dep),
            Realm::Dev => put_edge(&mut self.dev_dependencies, source, dep_name, dep),
        }
    }
}

// ---------------------------------------------------------------------------
// Requests
// ---------------------------------------------------------------------------

/// What a request asks for.
#[derive(Debug, PartialEq, Eq)]
pub enum DependencyRequestKind {
    /// A package that meets this requirement.
    Registry(PackageReq),
    /// The package in this directory.
    Path(PathBuf),
}

/// A dependency that has to be met.
#[derive(Debug, PartialEq, Eq)]
pub struct DependencyRequest {
    /// The package that depends on another.
    pub request_source: PackageId,
    /// The section that the dependency stands in.
    pub request_realm: Realm,
    /// The realm that the other package is asked for from.
    pub origin_realm: Realm,
    pub package_alias: String,
    pub kind: DependencyRequestKind,
}

/// What a request asks for.
pub enum KindView {
    Registry(PackageReqView),
    Path(Seq<char>),
}

/// What a request holds.
pub struct RequestView {
    pub source: PackageIdView,
    pub realm: Realm,
    pub origin_realm: Realm,
    pub alias: Seq<char>,
    pub kind: KindView,
}

impl View for DependencyRequest {
    type V = RequestView;

    open spec fn view(&self) -> RequestView {
        RequestView {
            source: self.request_source@,
            realm: self.request_realm,
            origin_realm: self.origin_realm,
            alias: self.package_alias@,
            kind: match self.kind {
                DependencyRequestKind::Registry(req) => KindView::Registry(req@),
                DependencyRequestKind::Path(dir) => KindView::Path(dir@),
            },
        }
    }
}

impl DeepView for DependencyRequest {
    type V = RequestView;

    open spec fn deep_view(&self) -> RequestView {
        self.view()
    }
}

/// A request and the package that met it.
#[derive(Debug, PartialEq, Eq)]
pub(crate) struct Link {
    pub(crate) request: DependencyRequest,
    pub(crate) target: PackageId,
}

/// A request and the package that met it.
pub struct LinkView {
    pub request: RequestView,
    pub target: PackageIdView,
}

impl View for Link {
    type V = LinkView;

    open(crate) spec fn view(&self) -> LinkView {
        LinkView { request: self.request@, target: self.target@ }
    }
}

impl DeepView for Link {
    type V = LinkView;

    open(crate) spec fn deep_view(&self) -> LinkView {
        self.view()
    }
}

/// What the dependency of a package in the directory `dir` asks for.
pub open spec fn kind_of(spec: DependencySpecView, dir: Seq<char>) -> KindView {
    match spec {
        DependencySpecView::Registry(req) => KindView::Registry(req),
        DependencySpecView::Path(path) => KindView::Path(path::join_text(dir, path)),
        DependencySpecView::Workspace(_) => arbitrary(),
    }
}

/// The requests that the dependencies of a package make.
pub open spec fn requests(
    deps: DependencyMapView,
    source: PackageIdView,
    realm: Realm,
    origin_realm: Realm,
    dir: Seq<char>,
) -> Seq<RequestView> {
    Seq::new(
        deps.len(),
        |i: int|
            RequestView {
                source,
                realm,
                origin_realm,
                alias: deps[i].0,
                kind: kind_of(deps[i].1, dir),
            },
    )
}

/// The requests of a root: shared, server and dev.
pub open spec fn root_requests(manifest: ManifestView, dir: Seq<char>) -> Seq<RequestView> {
    let id = manifest.package_id();
    requests(manifest.dependencies, id, Realm::Shared, Realm::Shared, dir) + requests(
        manifest.server_dependencies,
        id,
        Realm::Server,
        Realm::Server,
        dir,
    ) + requests(manifest.dev_dependencies, id, Realm::Dev, Realm::Dev, dir)
}

/// The realm that a package asks for its dependencies from: the one that it
/// originates from itself, but that server dependencies are always server-only
/// and dev dependencies always dev-only.
pub open spec fn passed_on(origin_realm: Realm, section: Realm) -> Realm {
    match section {
        Realm::Shared => origin_realm,
        Realm::Server => if origin_realm == Realm::Shared {
            Realm::Server
        } else {
            origin_realm
        },
        Realm::Dev => Realm::Dev,
    }
}

/// The realm that a package of an origin realm asks for the dependencies of a
/// section from.
pub(crate) fn pass_on(origin_realm: Realm, section: Realm) -> (passed: Realm)
    ensures
        passed == passed_on(origin_realm, section),
{
    match (origin_realm, section) {
        (_, Realm::Shared) => origin_realm,
        (Realm::Shared, Realm::Server) => Realm::Server,
        (_, Realm::Server) => origin_realm,
        (_, Realm::Dev) => Realm::Dev,
    }
}

/// The requests of a package that was chosen: shared and server, not dev.
pub open spec fn transitive_requests(manifest: ManifestView, origin_realm: Realm) -> Seq<
    RequestView,
> {
    let id = manifest.package_id();
    requests(
        manifest.dependencies,
        id,
        Realm::Shared,
        passed_on(origin_realm, Realm::Shared),
        Seq::empty(),
    ) + requests(
        manifest.server_dependencies,
        id,
        Realm::Server,
        passed_on(origin_realm, Realm::Server),
        Seq::empty(),
    )
}

/// Convert a [`DependencySpec`] into what is asked for. A path is taken from
/// `source_dir`.
fn dep_spec_to_request_kind(spec: &DependencySpec, source_dir: &PathBuf) -> (kind:
    DependencyRequestKind)
    requires
        !(spec@ is Workspace),
    ensures
        kind_of(spec@, source_dir@) == match kind {
            DependencyRequestKind::Registry(req) => KindView::Registry(req@),
            DependencyRequestKind::Path(dir) => KindView::Path(dir@),
        },
{
    match spec {
        DependencySpec::Registry(req) => DependencyRequestKind::Registry(req.duplicate()),
        DependencySpec::Path(spec) => DependencyRequestKind::Path(
            source_dir.join(spec.path.as_str()),
        ),
        DependencySpec::Workspace { .. } => vstd::pervasive::unreached(),
    }
}

fn enqueue(
    deps: &DependencyMap,
    source_id: &PackageId,
    request_realm: Realm,
    origin_realm: Realm,
    source_dir: &PathBuf,
    queue: &mut VecDeque<DependencyRequest>,
)
    requires
        workspace::is_concrete_map(deps@),
    ensures
        final(queue).deep_view() == old(queue).deep_view() + requests(
            deps@,
            source_id@,
            request_realm,
            origin_realm,
            source_dir@,
        ),
{
    let mut i: usize = 0;
    let ghost before = queue.deep_view();
    let ghost made = requests(deps@, source_id@, request_realm, origin_realm, source_dir@);
    assert(made.take(0) =~= Seq::<RequestView>::empty());
    assert(queue.deep_view() =~= before + made.take(0));
    while i < deps.len()
        invariant
            i <= deps@.len(),
            workspace::is_concrete_map(deps@),
            made == requests(deps@, source_id@, request_realm, origin_realm, source_dir@),
            queue.deep_view() == before + made.take(i as int),
        decreases deps@.len() - i,
    {
        let ghost so_far = queue.deep_view();
        assert(!(deps@[i as int].1 is Workspace));
        let request = DependencyRequest {
            request_source: source_id.duplicate(),
            request_realm,
            origin_realm,
            package_alias: deps.key_at(i).clone(),
            kind: dep_spec_to_request_kind(deps.value_at(i), source_dir),
        };
        assert(request@ == made[i as int]);
        queue.push_back(request);
        proof {
            assert(queue.deep_view() =~= so_far.push(request@));
            assert(made.take(i + 1) =~= made.take(i as int).push(request@));
        }
        i += 1;
    }
    assert(made.take(made.len() as int) =~= made);
}

/// Enqueue all dependencies from a root manifest (shared, server, and dev).
fn enqueue_manifest_deps(
    manifest: &Manifest,
    source_dir: &PathBuf,
    queue: &mut VecDeque<DependencyRequest>,
)
    requires
        workspace::is_concrete(manifest@),
    ensures
        final(queue).deep_view() == old(queue).deep_view() + root_requests(manifest@, source_dir@),
{
    let id: PackageId = manifest.package_id();
    let ghost before = queue.deep_view();
    enqueue(&manifest.dependencies, &id, Realm::Shared, Realm::Shared, source_dir, queue);
    enqueue(&manifest.server_dependencies, &id, Realm::Server, Realm::Server, source_dir, queue);
    enqueue(&manifest.dev_dependencies, &id, Realm::Dev, Realm::Dev, source_dir, queue);
    assert(queue.deep_view() =~= before + root_requests(manifest@, source_dir@));
}

/// Enqueue transitive dependencies (shared + server only, not dev). Those of the
/// server section are always server-only.
fn enqueue_transitive_deps(
    manifest: &Manifest,
    origin_realm: Realm,
    queue: &mut VecDeque<DependencyRequest>,
)
    requires
        package_source::is_published(manifest@),
    ensures
        final(queue).deep_view() == old(queue).deep_view() + transitive_requests(
            manifest@,
            origin_realm,
        ),
{
    let id: PackageId = manifest.package_id();
    let nowhere: PathBuf = PathBuf::parse("");
    let ghost before = queue.deep_view();
    proof {
        reveal_strlit("");
        assert(nowhere@ =~= Seq::<char>::empty());
    }
    let shared: Realm = pass_on(origin_realm, Realm::Shared);
    let server: Realm = pass_on(origin_realm, Realm::Server);
    enqueue(&manifest.dependencies, &id, Realm::Shared, shared, &nowhere, queue);
    enqueue(&manifest.server_dependencies, &id, Realm::Server, server, &nowhere, queue);
    assert(queue.deep_view() =~= before + transitive_requests(manifest@, origin_realm));
}

// ---------------------------------------------------------------------------
// Errors
// ---------------------------------------------------------------------------

/// Why dependencies could not be resolved.
#[derive(Debug, PartialEq, Eq)]
pub enum ResolveError {
    /// A source has to be asked for the packages that meet a requirement.
    Unanswered { source: PackageSourceId, req: PackageReq },
    /// A path dependency does not point to a workspace member.
    NotAMember { alias: String, dir: PathBuf },
    /// A dependency is one on a package of a realm that it cannot be of.
    RealmMismatch {
        dependent: PackageId,
        realm: Realm,
        alias: String,
        target: PackageId,
        target_realm: Realm,
    },
    /// No source has packages that meet the requirement.
    NoSource(PackageReq),
    /// No package of a realm that fits meets the requirement.
    NoMatch { realm: Realm, req: PackageReq },
    /// All packages that meet the requirement conflict with others.
    Conflict { realm: Realm, req: PackageReq, conflicting: Vec<PackageId> },
    /// The package that meets the requirement depends on packages outside of
    /// registries.
    NotPublished(PackageId),
}

/// What says why dependencies could not be resolved.
pub enum ResolveErrorView {
    Unanswered { source: PackageSourceIdView, req: PackageReqView },
    NotAMember { alias: Seq<char>, dir: Seq<char> },
    RealmMismatch {
        dependent: PackageIdView,
        realm: Realm,
        alias: Seq<char>,
        target: PackageIdView,
        target_realm: Realm,
    },
    NoSource(PackageReqView),
    NoMatch { realm: Realm, req: PackageReqView },
    Conflict { realm: Realm, req: PackageReqView, conflicting: Seq<PackageIdView> },
    NotPublished(PackageIdView),
}

impl View for ResolveError {
    type V = ResolveErrorView;

    open spec fn view(&self) -> ResolveErrorView {
        match self {
            ResolveError::Unanswered { source, req } => ResolveErrorView::Unanswered {
                source: source@,
                req: req@,
            },
            ResolveError::NotAMember { alias, dir } => ResolveErrorView::NotAMember {
                alias: alias@,
                dir: dir@,
            },
            ResolveError::RealmMismatch { dependent, realm, alias, target, target_realm } => {
                ResolveErrorView::RealmMismatch {
                    dependent: dependent@,
                    realm: *realm,
                    alias: alias@,
                    target: target@,
                    target_realm: *target_realm,
                }
            },
            ResolveError::NoSource(req) => ResolveErrorView::NoSource(req@),
            ResolveError::NoMatch { realm, req } => ResolveErrorView::NoMatch {
                realm: *realm,
                req: req@,
            },
            ResolveError::Conflict { realm, req, conflicting } => ResolveErrorView::Conflict {
                realm: *realm,
                req: req@,
                conflicting: conflicting.deep_view(),
            },
            ResolveError::NotPublished(id) => ResolveErrorView::NotPublished(id@),
        }
    }
}

impl DeepView for ResolveError {
    type V = ResolveErrorView;

    open spec fn deep_view(&self) -> ResolveErrorView {
        self.view()
    }
}

// ---------------------------------------------------------------------------
// Realms and versions
// ---------------------------------------------------------------------------

/// The less restrictive of two realms: shared before server before dev.
pub open spec fn merged_realm(existing: Realm, incoming: Realm) -> Realm {
    if existing == Realm::Shared || incoming == Realm::Shared {
        Realm::Shared
    } else if existing == Realm::Server || incoming == Realm::Server {
        Realm::Server
    } else {
        Realm::Dev
    }
}

/// Merge two origin realms, selecting the least restrictive (most visible).
/// Shared is the least restrictive, Dev is the most restrictive.
pub fn merge_origin_realm(existing: Realm, incoming: Realm) -> (merged: Realm)
    ensures
        merged == merged_realm(existing, incoming),
{
    match (existing, incoming) {
        (_, Realm::Shared) | (Realm::Shared, _) => Realm::Shared,
        (_, Realm::Server) | (Realm::Server, _) => Realm::Server,
        (Realm::Dev, Realm::Dev) => Realm::Dev,
    }
}

/// Versions of which only one can be chosen: those with the same major number
/// or, where that is zero, with the same minor number.
pub open spec fn are_compatible(a: VersionView, b: VersionView) -> bool {
    a.major == b.major && (a.major == 0 ==> a.minor == b.minor)
}

/// Whether only one of two versions of a package can be chosen.
pub fn compatible(a: &Version, b: &Version) -> (compatible: bool)
    ensures
        compatible == are_compatible(a@, b@),
{
    if a.is_same(b) {
        return true;
    }
    if a.major == 0 && b.major == 0 {
        a.minor == b.minor
    } else {
        a.major == b.major
    }
}

// ---------------------------------------------------------------------------
// Choosing among packages
// ---------------------------------------------------------------------------

/// The last of the packages that meets a requirement: of those in ascending
/// order, the one with the highest version.
pub open spec fn best_activated(activated: Seq<PackageIdView>, req: PackageReqView) -> Option<
    PackageIdView,
>
    decreases activated.len(),
{
    if activated.len() == 0 {
        None
    } else if req.matches_id(activated.last()) {
        Some(activated.last())
    } else {
        best_activated(activated.drop_last(), req)
    }
}

/// Whether a version of a package cannot be chosen beside those that were.
pub open spec fn has_conflict(
    activated: Seq<PackageIdView>,
    name: PackageNameView,
    version: VersionView,
) -> bool {
    exists|i: int|
        0 <= i < activated.len() && (#[trigger] activated[i]).name == name && are_compatible(
            version,
            activated[i].version,
        )
}

/// Whether one candidate is tried before another: packages that should be used
/// if possible come first, then higher versions.
pub open spec fn is_before(
    a: ManifestView,
    b: ManifestView,
    try_to_use: Seq<PackageIdView>,
) -> bool {
    let use_a = ordered::holds(try_to_use, a.package_id());
    let use_b = ordered::holds(try_to_use, b.package_id());
    if use_a != use_b {
        use_a
    } else {
        order::precedes(
            version::version_key(b.package.version),
            version::version_key(a.package.version),
        )
    }
}

/// The first of the candidates from `from` on that `candidate` is tried before.
pub open spec fn candidate_place(
    candidates: Seq<ManifestView>,
    candidate: ManifestView,
    try_to_use: Seq<PackageIdView>,
    from: int,
) -> int
    decreases candidates.len() - from,
{
    if from >= candidates.len() || is_before(candidate, candidates[from], try_to_use) {
        from
    } else {
        candidate_place(candidates, candidate, try_to_use, from + 1)
    }
}

/// Candidates in the order in which they are tried. Where neither of two comes
/// before the other, they stay in the order in which they were found.
pub open spec fn order_candidates(
    candidates: Seq<ManifestView>,
    try_to_use: Seq<PackageIdView>,
) -> Seq<ManifestView>
    decreases candidates.len(),
{
    if candidates.len() == 0 {
        candidates
    } else {
        let before = order_candidates(candidates.drop_last(), try_to_use);
        before.insert(
            candidate_place(before, candidates.last(), try_to_use, 0),
            candidates.last(),
        )
    }
}

/// Whether a candidate is of a realm that fits and conflicts with no package
/// that was chosen.
pub open spec fn is_eligible(
    candidate: ManifestView,
    realm: Realm,
    activated: Seq<PackageIdView>,
    name: PackageNameView,
) -> bool {
    realm.allows(candidate.package.realm) && !has_conflict(
        activated,
        name,
        candidate.package.version,
    )
}

/// The first of the candidates from `from` on that is eligible.
pub open spec fn first_eligible(
    candidates: Seq<ManifestView>,
    realm: Realm,
    activated: Seq<PackageIdView>,
    name: PackageNameView,
    from: int,
) -> int
    decreases candidates.len() - from,
{
    if from >= candidates.len() || is_eligible(candidates[from], realm, activated, name) {
        from
    } else {
        first_eligible(candidates, realm, activated, name, from + 1)
    }
}

/// The candidates of a realm that fits.
pub open spec fn of_realm(candidates: Seq<ManifestView>, realm: Realm) -> Seq<PackageIdView>
    decreases candidates.len(),
{
    if candidates.len() == 0 {
        Seq::empty()
    } else {
        let before = of_realm(candidates.drop_last(), realm);
        if realm.allows(candidates.last().package.realm) {
            before.push(candidates.last().package_id())
        } else {
            before
        }
    }
}

/// What the sources say to a requirement.
pub enum FoundView {
    /// This source has to be asked first.
    Unanswered(PackageSourceIdView),
    /// All queries failed.
    Nowhere,
    /// The first source whose query did not fail, and what it found.
    At(PackageSourceIdView, Seq<ManifestView>),
}

/// What the sources from `from` on say to a requirement.
pub open spec fn find_source(
    sources: PackageSourceMapView,
    req: PackageReqView,
    from: int,
) -> FoundView
    decreases sources.order.len() - from,
{
    if from >= sources.order.len() {
        FoundView::Nowhere
    } else {
        match sources.answer(sources.order[from], req) {
            None => FoundView::Unanswered(sources.order[from]),
            Some(None) => find_source(sources, req, from + 1),
            Some(Some(manifests)) => FoundView::At(sources.order[from], manifests),
        }
    }
}

// ---------------------------------------------------------------------------
// Resolution
// ---------------------------------------------------------------------------

/// What was chosen so far, and what is still asked for.
#[verifier::ext_equal]
pub struct StateView {
    pub resolve: ResolveView,
    pub queue: Seq<RequestView>,
}

/// What resolution goes by.
#[verifier::ext_equal]
pub struct ContextView {
    pub try_to_use: Seq<PackageIdView>,
    pub sources: PackageSourceMapView,
    pub members: MembersView,
    pub canonical: CanonicalPathsView,
}

/// A request is met by a package that was chosen before. Where the request
/// comes from a less restrictive realm, the package moves there.
pub open spec fn reuse(resolve: ResolveView, request: RequestView, id: PackageIdView) -> ResolveView {
    let metadata = ordered::lookup(resolve.metadata, id)->Some_0;
    let origin_realm = merged_realm(metadata.origin_realm, request.origin_realm);
    ResolveView {
        metadata: ordered::with_entry(
            resolve.metadata,
            id,
            MetadataView { origin_realm, ..metadata },
        ),
        ..resolve
    }.activate(request.source, request.alias, origin_realm, id)
}

/// A request is met by a package that was not chosen before.
pub open spec fn take_in(
    resolve: ResolveView,
    request: RequestView,
    candidate: ManifestView,
    source: PackageSourceIdView,
) -> ResolveView {
    let activated = resolve.activate(
        request.source,
        request.alias,
        request.origin_realm,
        candidate.package_id(),
    );
    ResolveView {
        metadata: ordered::with_entry(
            resolve.metadata,
            candidate.package_id(),
            MetadataView {
                realm: candidate.package.realm,
                origin_realm: request.origin_realm,
                source_registry: source,
                is_workspace_member: false,
            },
        ),
        ..activated
    }
}

/// A request for the member in a directory is met.
pub open spec fn path_step(
    resolve: ResolveView,
    queue: Seq<RequestView>,
    request: RequestView,
    dir: Seq<char>,
    context: ContextView,
) -> Result<StateView, ResolveErrorView> {
    match workspace::member_at(context.members, dir, context.canonical) {
        None => Err(ResolveErrorView::NotAMember { alias: request.alias, dir }),
        Some(target) => if request.realm.allows(target.package.realm) {
            Ok(StateView { resolve: reuse(resolve, request, target.package_id()), queue })
        } else {
            Err(
                ResolveErrorView::RealmMismatch {
                    dependent: request.source,
                    realm: request.realm,
                    alias: request.alias,
                    target: target.package_id(),
                    target_realm: target.package.realm,
                },
            )
        },
    }
}

/// A request for a package is met by one that was found.
pub open spec fn choose_candidate(
    resolve: ResolveView,
    queue: Seq<RequestView>,
    request: RequestView,
    req: PackageReqView,
    source: PackageSourceIdView,
    candidates: Seq<ManifestView>,
) -> Result<StateView, ResolveErrorView> {
    let at = first_eligible(candidates, request.realm, resolve.activated, req.name, 0);
    if at < candidates.len() {
        if package_source::is_published(candidates[at]) {
            Ok(
                StateView {
                    resolve: take_in(resolve, request, candidates[at], source),
                    queue: queue + transitive_requests(candidates[at], request.origin_realm),
                },
            )
        } else {
            Err(ResolveErrorView::NotPublished(candidates[at].package_id()))
        }
    } else if of_realm(candidates, request.realm).len() == 0 {
        Err(ResolveErrorView::NoMatch { realm: request.realm, req })
    } else {
        Err(
            ResolveErrorView::Conflict {
                realm: request.realm,
                req,
                conflicting: of_realm(candidates, request.realm),
            },
        )
    }
}

/// A request for a package is met.
pub open spec fn registry_step(
    resolve: ResolveView,
    queue: Seq<RequestView>,
    request: RequestView,
    req: PackageReqView,
    context: ContextView,
) -> Result<StateView, ResolveErrorView> {
    match best_activated(resolve.activated, req) {
        Some(id) => {
            let realm = ordered::lookup(resolve.metadata, id)->Some_0.realm;
            if request.realm.allows(realm) {
                Ok(StateView { resolve: reuse(resolve, request, id), queue })
            } else {
                Err(
                    ResolveErrorView::RealmMismatch {
                        dependent: request.source,
                        realm: request.realm,
                        alias: request.alias,
                        target: id,
                        target_realm: realm,
                    },
                )
            }
        },
        None => match find_source(context.sources, req, 0) {
            FoundView::Unanswered(source) => Err(ResolveErrorView::Unanswered { source, req }),
            FoundView::Nowhere => Err(ResolveErrorView::NoSource(req)),
            FoundView::At(source, manifests) => choose_candidate(
                resolve,
                queue,
                request,
                req,
                source,
                order_candidates(manifests, context.try_to_use),
            ),
        },
    }
}

/// The first request in the queue is met.
pub open spec fn step(state: StateView, context: ContextView) -> Result<
    StateView,
    ResolveErrorView,
> {
    let request = state.queue[0];
    let queue = state.queue.drop_first();
    match request.kind {
        KindView::Path(dir) => path_step(state.resolve, queue, request, dir, context),
        KindView::Registry(req) => registry_step(state.resolve, queue, request, req, context),
    }
}

/// All requests in the queue are met, one after the other.
pub open spec fn run(state: StateView, context: ContextView) -> Result<
    ResolveView,
    ResolveErrorView,
>
    decreases
            fresh(context.sources.answers, state.resolve.activated),
            state.queue.len(),
    when context.sources.answers_fit() && state.resolve.is_sound()
    via run_decreases
{
    if state.queue.len() == 0 {
        Ok(state.resolve)
    } else {
        match step(state, context) {
            Ok(next) => run(next, context),
            Err(error) => Err(error),
        }
    }
}

/// The package that meets the first request in the queue, where one does.
pub open spec fn target_of(state: StateView, context: ContextView) -> PackageIdView {
    let request = state.queue[0];
    match request.kind {
        KindView::Path(dir) => workspace::member_at(
            context.members,
            dir,
            context.canonical,
        )->Some_0.package_id(),
        KindView::Registry(req) => match best_activated(state.resolve.activated, req) {
            Some(id) => id,
            None => {
                let found = find_source(context.sources, req, 0)->At_1;
                let candidates = order_candidates(found, context.try_to_use);
                let activated = state.resolve.activated;
                candidates[first_eligible(
                    candidates,
                    request.realm,
                    activated,
                    req.name,
                    0,
                )].package_id()
            },
        },
    }
}

/// The requests that are met one after the other, and the packages that meet
/// them.
pub open spec fn links(state: StateView, context: ContextView) -> Seq<LinkView>
    decreases
            fresh(context.sources.answers, state.resolve.activated),
            state.queue.len(),
    when context.sources.answers_fit() && state.resolve.is_sound()
    via links_decreases
{
    if state.queue.len() == 0 {
        Seq::empty()
    } else {
        match step(state, context) {
            Ok(next) => {
                let link = LinkView { request: state.queue[0], target: target_of(state, context) };
                seq![link] + links(next, context)
            },
            Err(_) => Seq::empty(),
        }
    }
}

/// What is left when all requests are met, or when one is refused, which then
/// stands first in the queue.
pub open spec fn ending(state: StateView, context: ContextView) -> StateView
    decreases
            fresh(context.sources.answers, state.resolve.activated),
            state.queue.len(),
    when context.sources.answers_fit() && state.resolve.is_sound()
    via ending_decreases
{
    if state.queue.len() == 0 {
        state
    } else {
        match step(state, context) {
            Ok(next) => ending(next, context),
            Err(_) => state,
        }
    }
}

/// What comes out of resolution: all requests are met, and all packages have
/// moved to where they are asked for from. The packages that were chosen from
/// the start are the roots. A dependency stands among those of the realm that it
/// was met from, also where its packages have moved since.
pub open spec fn outcome(state: StateView, context: ContextView) -> Result<
    ResolveView,
    ResolveErrorView,
> {
    match run(state, context) {
        Ok(resolve) => Ok(
            ResolveView {
                metadata: origins::spread(
                    resolve.metadata,
                    state.resolve.activated,
                    links(state, context),
                ),
                ..resolve
            },
        ),
        Err(error) => Err(error),
    }
}

// ---------------------------------------------------------------------------
// Resolution ends
// ---------------------------------------------------------------------------

/// How many of the manifests are of packages that were not chosen.
pub open spec fn fresh_manifests(
    manifests: Seq<ManifestView>,
    activated: Seq<PackageIdView>,
) -> nat
    decreases manifests.len(),
{
    if manifests.len() == 0 {
        0
    } else {
        fresh_manifests(manifests.drop_last(), activated) + if ordered::holds(
            activated,
            manifests.last().package_id(),
        ) {
            0nat
        } else {
            1nat
        }
    }
}

/// How many of the manifests that were found are of packages that were not
/// chosen.
pub open spec fn fresh(answers: Seq<AnswerView>, activated: Seq<PackageIdView>) -> nat
    decreases answers.len(),
{
    if answers.len() == 0 {
        0
    } else {
        fresh(answers.drop_last(), activated) + match answers.last().manifests {
            Some(manifests) => fresh_manifests(manifests, activated),
            None => 0,
        }
    }
}

proof fn lemma_fresh_manifests(
    manifests: Seq<ManifestView>,
    before: Seq<PackageIdView>,
    after: Seq<PackageIdView>,
)
    requires
        forall|id: PackageIdView|
            ordered::holds(before, id) ==> #[trigger] ordered::holds(after, id),
    ensures
        fresh_manifests(manifests, after) <= fresh_manifests(manifests, before),
        (exists|i: int|
            0 <= i < manifests.len() && !ordered::holds(
                before,
                (#[trigger] manifests[i]).package_id(),
            ) && ordered::holds(after, manifests[i].package_id())) ==> fresh_manifests(
            manifests,
            after,
        ) < fresh_manifests(manifests, before),
    decreases manifests.len(),
{
    if manifests.len() > 0 {
        let fewer = manifests.drop_last();
        lemma_fresh_manifests(fewer, before, after);
        if exists|i: int|
            0 <= i < manifests.len() && !ordered::holds(
                before,
                (#[trigger] manifests[i]).package_id(),
            ) && ordered::holds(after, manifests[i].package_id()) {
            let i = choose|i: int|
                0 <= i < manifests.len() && !ordered::holds(
                    before,
                    (#[trigger] manifests[i]).package_id(),
                ) && ordered::holds(after, manifests[i].package_id());
            if i < fewer.len() {
                assert(fewer[i] == manifests[i]);
            }
        }
    }
}

proof fn lemma_fresh(
    answers: Seq<AnswerView>,
    before: Seq<PackageIdView>,
    after: Seq<PackageIdView>,
)
    requires
        forall|id: PackageIdView|
            ordered::holds(before, id) ==> #[trigger] ordered::holds(after, id),
    ensures
        fresh(answers, after) <= fresh(answers, before),
    decreases answers.len(),
{
    if answers.len() > 0 {
        lemma_fresh(answers.drop_last(), before, after);
        if let Some(manifests) = answers.last().manifests {
            lemma_fresh_manifests(manifests, before, after);
        }
    }
}

proof fn lemma_fresh_less(
    answers: Seq<AnswerView>,
    before: Seq<PackageIdView>,
    after: Seq<PackageIdView>,
    at: int,
    i: int,
)
    requires
        forall|id: PackageIdView|
            ordered::holds(before, id) ==> #[trigger] ordered::holds(after, id),
        0 <= at < answers.len(),
        answers[at].manifests is Some,
        0 <= i < answers[at].manifests->Some_0.len(),
        !ordered::holds(before, answers[at].manifests->Some_0[i].package_id()),
        ordered::holds(after, answers[at].manifests->Some_0[i].package_id()),
    ensures
        fresh(answers, after) < fresh(answers, before),
    decreases answers.len(),
{
    let fewer = answers.drop_last();
    if let Some(manifests) = answers.last().manifests {
        lemma_fresh_manifests(manifests, before, after);
    }
    if at < fewer.len() {
        assert(fewer[at] == answers[at]);
        lemma_fresh_less(fewer, before, after, at, i);
    } else {
        lemma_fresh(fewer, before, after);
        let manifests = answers.last().manifests->Some_0;
        assert(!ordered::holds(before, manifests[i].package_id()));
    }
}

proof fn lemma_candidate_place(
    candidates: Seq<ManifestView>,
    candidate: ManifestView,
    try_to_use: Seq<PackageIdView>,
    from: int,
)
    requires
        0 <= from <= candidates.len(),
    ensures
        from <= candidate_place(candidates, candidate, try_to_use, from) <= candidates.len(),
    decreases candidates.len() - from,
{
    if from < candidates.len() && !is_before(candidate, candidates[from], try_to_use) {
        lemma_candidate_place(candidates, candidate, try_to_use, from + 1);
    }
}

/// The candidates in order are those that were found.
pub proof fn lemma_order_candidates(
    candidates: Seq<ManifestView>,
    try_to_use: Seq<PackageIdView>,
)
    ensures
        order_candidates(candidates, try_to_use).len() == candidates.len(),
        forall|i: int|
            0 <= i < candidates.len() ==> candidates.contains(
                #[trigger] order_candidates(candidates, try_to_use)[i],
            ),
    decreases candidates.len(),
{
    if candidates.len() > 0 {
        let fewer = candidates.drop_last();
        let before = order_candidates(fewer, try_to_use);
        let ordered = order_candidates(candidates, try_to_use);
        lemma_order_candidates(fewer, try_to_use);
        lemma_candidate_place(before, candidates.last(), try_to_use, 0);
        let at = candidate_place(before, candidates.last(), try_to_use, 0);
        assert forall|i: int| 0 <= i < candidates.len() implies candidates.contains(
            #[trigger] ordered[i],
        ) by {
            if i == at {
                assert(candidates[candidates.len() - 1] == ordered[i]);
            } else {
                let j = if i < at { i } else { i - 1 };
                assert(ordered[i] == before[j]);
                assert(fewer.contains(before[j]));
                let k = choose|k: int| 0 <= k < fewer.len() && fewer[k] == before[j];
                assert(candidates[k] == ordered[i]);
            }
        }
    }
}

pub proof fn lemma_first_eligible(
    candidates: Seq<ManifestView>,
    realm: Realm,
    activated: Seq<PackageIdView>,
    name: PackageNameView,
    from: int,
)
    requires
        0 <= from <= candidates.len(),
    ensures
        from <= first_eligible(candidates, realm, activated, name, from) <= candidates.len(),
        first_eligible(candidates, realm, activated, name, from) < candidates.len() ==> is_eligible(
            candidates[first_eligible(candidates, realm, activated, name, from)],
            realm,
            activated,
            name,
        ),
        forall|i: int|
            from <= i < first_eligible(candidates, realm, activated, name, from) ==> !is_eligible(
                #[trigger] candidates[i],
                realm,
                activated,
                name,
            ),
    decreases candidates.len() - from,
{
    if from < candidates.len() && !is_eligible(candidates[from], realm, activated, name) {
        lemma_first_eligible(candidates, realm, activated, name, from + 1);
    }
}

/// What a source found is one of the answers.
pub proof fn lemma_find_source(sources: PackageSourceMapView, req: PackageReqView, from: int)
    ensures
        find_source(sources, req, from) matches FoundView::At(source, manifests) ==> exists|at: int|
            0 <= at < sources.answers.len() && (#[trigger] sources.answers[at]).manifests == Some(
                manifests,
            ) && sources.answers[at].req == req && sources.answers[at].source == source,
    decreases sources.order.len() - from,
{
    if from < sources.order.len() {
        lemma_answer_index(sources, sources.order[from], req, 0);
        if sources.answer(sources.order[from], req) == Some(None::<Seq<ManifestView>>) {
            lemma_find_source(sources, req, from + 1);
        }
    }
}

proof fn lemma_answer_index(
    sources: PackageSourceMapView,
    source: PackageSourceIdView,
    req: PackageReqView,
    from: int,
)
    requires
        0 <= from,
    ensures
        from <= sources.answer_index(source, req, from),
        sources.answer_index(source, req, from) < sources.answers.len()
            ==> sources.answers[sources.answer_index(source, req, from)].source == source
            && sources.answers[sources.answer_index(source, req, from)].req == req,
    decreases sources.answers.len() - from,
{
    if from < sources.answers.len() && !(sources.answers[from].source == source
        && sources.answers[from].req == req) {
        lemma_answer_index(sources, source, req, from + 1);
    }
}

/// A package that was chosen before stays, and nothing else is added.
pub proof fn lemma_reuse(resolve: ResolveView, request: RequestView, id: PackageIdView)
    requires
        resolve.is_sound(),
        ordered::holds(resolve.activated, id),
    ensures
        reuse(resolve, request, id).is_sound(),
        reuse(resolve, request, id).activated == resolve.activated,
{
    let metadata = ordered::lookup(resolve.metadata, id)->Some_0;
    let origin_realm = merged_realm(metadata.origin_realm, request.origin_realm);
    ordered::lemma_keys_of_with_entry(
        resolve.metadata,
        id,
        MetadataView { origin_realm, ..metadata },
    );
}

/// A package that is eligible was not chosen before.
pub proof fn lemma_eligible_is_new(
    candidate: ManifestView,
    realm: Realm,
    activated: Seq<PackageIdView>,
)
    requires
        is_eligible(candidate, realm, activated, candidate.package.name),
    ensures
        !ordered::holds(activated, candidate.package_id()),
{
    let id = candidate.package_id();
    if ordered::holds(activated, id) {
        let i = choose|i: int|
            0 <= i < activated.len() && ordered::Ranked::sort_key(#[trigger] activated[i])
                == ordered::Ranked::sort_key(id);
        package_id::lemma_id_key_injective(activated[i], id);
        assert(activated[i].name == candidate.package.name);
        assert(are_compatible(candidate.package.version, activated[i].version));
    }
}

/// A package that was taken in is chosen, and what was chosen before stays.
pub proof fn lemma_take_in(
    resolve: ResolveView,
    request: RequestView,
    candidate: ManifestView,
    source: PackageSourceIdView,
)
    requires
        resolve.is_sound(),
    ensures
        take_in(resolve, request, candidate, source).is_sound(),
        take_in(resolve, request, candidate, source).activated == ordered::with_key(
            resolve.activated,
            candidate.package_id(),
        ),
{
    let id = candidate.package_id();
    let metadata = MetadataView {
        realm: candidate.package.realm,
        origin_realm: request.origin_realm,
        source_registry: source,
        is_workspace_member: false,
    };
    ordered::lemma_keys_of_with_entry(resolve.metadata, id, metadata);
    ordered::lemma_with_key(resolve.activated, id);
}

/// A package that was chosen before is among those that were.
pub proof fn lemma_best_activated(activated: Seq<PackageIdView>, req: PackageReqView)
    ensures
        best_activated(activated, req) matches Some(id) ==> {
            &&& activated.contains(id)
            &&& ordered::holds(activated, id)
            &&& req.matches_id(id)
        },
        best_activated(activated, req) is None ==> forall|i: int|
            0 <= i < activated.len() ==> !req.matches_id(#[trigger] activated[i]),
    decreases activated.len(),
{
    if activated.len() > 0 {
        if req.matches_id(activated.last()) {
            assert(activated[activated.len() - 1] == activated.last());
        } else {
            let fewer = activated.drop_last();
            lemma_best_activated(fewer, req);
            if let Some(id) = best_activated(fewer, req) {
                let i = choose|i: int| 0 <= i < fewer.len() && fewer[i] == id;
                assert(activated[i] == id);
            } else {
                assert forall|i: int| 0 <= i < activated.len() implies !req.matches_id(
                    #[trigger] activated[i],
                ) by {
                    if i < fewer.len() {
                        assert(fewer[i] == activated[i]);
                    }
                }
            }
        }
    }
}

#[via_fn]
proof fn links_decreases(state: StateView, context: ContextView) {
    if state.queue.len() > 0 {
        if let Ok(next) = step(state, context) {
            lemma_step_progress(state, context);
        }
    }
}

#[via_fn]
proof fn ending_decreases(state: StateView, context: ContextView) {
    if state.queue.len() > 0 {
        if let Ok(next) = step(state, context) {
            lemma_step_progress(state, context);
        }
    }
}

#[via_fn]
proof fn run_decreases(state: StateView, context: ContextView) {
    if state.queue.len() > 0 {
        if let Ok(next) = step(state, context) {
            lemma_step_progress(state, context);
        }
    }
}

/// A request that is met takes the queue forward.
pub(crate) proof fn lemma_step_progress(state: StateView, context: ContextView)
    requires
        state.queue.len() > 0,
        context.sources.answers_fit(),
        state.resolve.is_sound(),
    ensures
        step(state, context) matches Ok(next) ==> {
            ||| fresh(context.sources.answers, next.resolve.activated) < fresh(
                context.sources.answers,
                state.resolve.activated,
            )
            ||| {
                &&& fresh(context.sources.answers, next.resolve.activated) <= fresh(
                    context.sources.answers,
                    state.resolve.activated,
                )
                &&& next.queue.len() < state.queue.len()
            }
        },
{
    if let Ok(next) = step(state, context) {
        let request = state.queue[0];
        let activated = state.resolve.activated;
        match request.kind {
            KindView::Path(dir) => {
                let id = workspace::member_at(
                    context.members,
                    dir,
                    context.canonical,
                )->Some_0.package_id();
                ordered::lemma_with_key(activated, id);
                lemma_fresh(context.sources.answers, activated, next.resolve.activated);
            },
            KindView::Registry(req) => {
                match best_activated(activated, req) {
                    Some(id) => {
                        ordered::lemma_with_key(activated, id);
                        lemma_fresh(context.sources.answers, activated, next.resolve.activated);
                    },
                    None => {
                        lemma_choice_is_new(state, context, req);
                    },
                }
            },
        }
    }
}

/// What is chosen anew is an answer's manifest of a package that was not
/// chosen.
proof fn lemma_choice_is_new(state: StateView, context: ContextView, req: PackageReqView)
    requires
        state.queue.len() > 0,
        state.queue[0].kind == KindView::Registry(req),
        best_activated(state.resolve.activated, req) is None,
        context.sources.answers_fit(),
        state.resolve.is_sound(),
        step(state, context) is Ok,
    ensures
        fresh(context.sources.answers, (step(state, context)->Ok_0).resolve.activated) < fresh(
            context.sources.answers,
            state.resolve.activated,
        ),
{
    let activated = state.resolve.activated;
    let request = state.queue[0];
    let next = step(state, context)->Ok_0;
    lemma_find_source(context.sources, req, 0);
    match find_source(context.sources, req, 0) {
        FoundView::At(source, manifests) => {
            let at = choose|at: int|
                0 <= at < context.sources.answers.len() && (
                #[trigger] context.sources.answers[at]).manifests == Some(manifests)
                    && context.sources.answers[at].req == req && context.sources.answers[at].source
                    == source;
            let candidates = order_candidates(manifests, context.try_to_use);
            lemma_order_candidates(manifests, context.try_to_use);
            lemma_first_eligible(candidates, request.realm, activated, req.name, 0);
            let chosen = first_eligible(candidates, request.realm, activated, req.name, 0);
            let candidate = candidates[chosen];
            assert(manifests.contains(candidate));
            let i = choose|i: int| 0 <= i < manifests.len() && manifests[i] == candidate;
            assert(manifests[i].package.name == req.name);
            lemma_eligible_is_new(candidate, request.realm, activated);
            lemma_take_in(state.resolve, request, candidate, source);
            ordered::lemma_with_key(activated, candidate.package_id());
            lemma_fresh_less(
                context.sources.answers,
                activated,
                next.resolve.activated,
                at,
                i,
            );
        },
        _ => {},
    }
}

// ---------------------------------------------------------------------------
// Running it
// ---------------------------------------------------------------------------

fn find_activated(activated: &OrdSet<PackageId>, req: &PackageReq) -> (best: Option<PackageId>)
    ensures
        best.deep_view() == best_activated(activated@, req@),
{
    let mut i: usize = activated.len();
    let ghost all = activated@;
    assert(all.take(all.len() as int) =~= all);
    while i > 0
        invariant
            i <= all.len(),
            all == activated@,
            best_activated(all, req@) == best_activated(all.take(i as int), req@),
        decreases i,
    {
        let id: &PackageId = activated.at(i - 1);
        assert(all.take(i as int).last() == id@);
        assert(all.take(i as int).drop_last() =~= all.take(i - 1));
        if req.matches_id(id) {
            return Some(id.duplicate());
        }
        i -= 1;
    }
    None
}

fn check_conflict(activated: &OrdSet<PackageId>, name: &PackageName, version: &Version) -> (conflict:
    bool)
    ensures
        conflict == has_conflict(activated@, name@, version@),
{
    let mut i: usize = 0;
    while i < activated.len()
        invariant
            i <= activated@.len(),
            forall|j: int|
                0 <= j < i ==> !((#[trigger] activated@[j]).name == name@ && are_compatible(
                    version@,
                    activated@[j].version,
                )),
        decreases activated@.len() - i,
    {
        let id: &PackageId = activated.at(i);
        if id.name().is_same(name) && compatible(version, id.version()) {
            assert(activated@[i as int].name == name@);
            return true;
        }
        i += 1;
    }
    false
}

fn check_before(a: &Manifest, b: &Manifest, try_to_use: &OrdSet<PackageId>) -> (before: bool)
    ensures
        before == is_before(a@, b@, try_to_use@),
{
    let use_a: bool = try_to_use.contains(&a.package_id());
    let use_b: bool = try_to_use.contains(&b.package_id());
    if use_a != use_b {
        use_a
    } else {
        match version::compare_versions(&b.package.version, &a.package.version) {
            Order::Less => true,
            _ => false,
        }
    }
}

/// Sorts candidates by descending version. Those that are in `try_to_use` come
/// first.
fn sort_candidates(found: &Vec<Manifest>, try_to_use: &OrdSet<PackageId>) -> (sorted: Vec<Manifest>)
    ensures
        sorted.deep_view() == order_candidates(found.deep_view(), try_to_use@),
{
    let mut sorted: Vec<Manifest> = Vec::new();
    let ghost all = found.deep_view();
    let mut i: usize = 0;
    assert(all.take(0) =~= Seq::<ManifestView>::empty());
    assert(sorted.deep_view() =~= all.take(0));
    while i < found.len()
        invariant
            i <= found@.len(),
            all == found.deep_view(),
            sorted.deep_view() == order_candidates(all.take(i as int), try_to_use@),
        decreases found@.len() - i,
    {
        let candidate: Manifest = found[i].duplicate();
        let ghost before = sorted.deep_view();
        assert(all[i as int] == candidate@);
        let mut at: usize = 0;
        while at < sorted.len() && !check_before(&candidate, &sorted[at], try_to_use)
            invariant
                at <= sorted@.len(),
                before == sorted.deep_view(),
                candidate_place(before, candidate@, try_to_use@, 0) == candidate_place(
                    before,
                    candidate@,
                    try_to_use@,
                    at as int,
                ),
            decreases sorted@.len() - at,
        {
            assert(before[at as int] == sorted@[at as int]@);
            at += 1;
        }
        proof {
            if at < sorted@.len() {
                assert(before[at as int] == sorted@[at as int]@);
            }
            assert(all.take(i + 1).last() == candidate@);
            assert(all.take(i + 1).drop_last() =~= all.take(i as int));
        }
        sorted.insert(at, candidate);
        assert(sorted.deep_view() =~= before.insert(at as int, candidate@));
        i += 1;
    }
    assert(all.take(all.len() as int) =~= all);
    sorted
}

/// What the sources say to a requirement.
enum Found<'a> {
    Unanswered(&'a PackageSourceId),
    Nowhere,
    At(&'a PackageSourceId, &'a Vec<Manifest>),
}

/// Looks through all sources in order of priority.
fn query<'a>(
    sources: &'a PackageSourceMap,
    order: &'a Vec<PackageSourceId>,
    req: &PackageReq,
) -> (found: Found<'a>)
    requires
        order.deep_view() == sources@.order,
    ensures
        find_source(sources@, req@, 0) == match found {
            Found::Unanswered(source) => FoundView::Unanswered(source@),
            Found::Nowhere => FoundView::Nowhere,
            Found::At(source, manifests) => FoundView::At(source@, manifests.deep_view()),
        },
{
    let mut i: usize = 0;
    while i < order.len()
        invariant
            i <= order@.len(),
            order.deep_view() == sources@.order,
            find_source(sources@, req@, 0) == find_source(sources@, req@, i as int),
        decreases order@.len() - i,
    {
        let source: &PackageSourceId = &order[i];
        assert(sources@.order[i as int] == source@);
        match sources.get(source, req) {
            None => {
                return Found::Unanswered(source);
            },
            Some(None) => {},
            Some(Some(manifests)) => {
                return Found::At(source, manifests);
            },
        }
        i += 1;
    }
    Found::Nowhere
}

/// What is known of a package is put down, with the less restrictive of its
/// origin realm and another.
fn widen(resolve: &mut Resolve, id: &PackageId, origin_realm: Realm) -> (merged: Realm)
    requires
        old(resolve)@.is_sound(),
        ordered::holds(old(resolve)@.activated, id@),
    ensures
        ({
            let metadata = ordered::lookup(old(resolve)@.metadata, id@)->Some_0;
            &&& merged == merged_realm(metadata.origin_realm, origin_realm)
            &&& final(resolve)@ == (ResolveView {
                metadata: ordered::with_entry(
                    old(resolve)@.metadata,
                    id@,
                    MetadataView { origin_realm: merged, ..metadata },
                ),
                ..old(resolve)@
            })
        }),
{
    let mut metadata: ResolvePackageMetadata = match resolve.metadata.get(id) {
        Some(metadata) => metadata.duplicate(),
        None => vstd::pervasive::unreached(),
    };
    let merged: Realm = merge_origin_realm(metadata.origin_realm, origin_realm);
    metadata.origin_realm = merged;
    resolve.metadata.insert(id.duplicate(), metadata);
    merged
}

/// Meets a request with a package that was chosen before.
fn reuse_package(resolve: &mut Resolve, request: &DependencyRequest, id: &PackageId)
    requires
        old(resolve)@.is_sound(),
        ordered::holds(old(resolve)@.activated, id@),
    ensures
        final(resolve)@ == reuse(old(resolve)@, request@, id@),
{
    let merged: Realm = widen(resolve, id, request.origin_realm);
    resolve.activate(&request.request_source, &request.package_alias, merged, id);
}

/// Meets a request with one of the candidates.
fn take_candidate(
    resolve: &mut Resolve,
    queue: &mut VecDeque<DependencyRequest>,
    request: &DependencyRequest,
    req: &PackageReq,
    source: &PackageSourceId,
    candidates: &Vec<Manifest>,
) -> (taken: Result<PackageId, ResolveError>)
    ensures
        choose_candidate(
            old(resolve)@,
            old(queue).deep_view(),
            request@,
            req@,
            source@,
            candidates.deep_view(),
        ) == match taken {
            Ok(_) => Ok(
                StateView { resolve: final(resolve)@, queue: final(queue).deep_view() },
            ),
            Err(error) => Err(error@),
        },
        match taken {
            Ok(id) => id@ == candidates.deep_view()[first_eligible(
                candidates.deep_view(),
                request@.realm,
                old(resolve)@.activated,
                req@.name,
                0,
            )].package_id(),
            Err(_) => final(resolve)@ == old(resolve)@ && final(queue).deep_view() == old(
                queue,
            ).deep_view(),
        },
{
    let ghost all = candidates.deep_view();
    let ghost activated = resolve.activated@;
    let mut conflicting: Vec<PackageId> = Vec::new();
    let mut i: usize = 0;
    assert(all.take(0) =~= Seq::<ManifestView>::empty());
    assert(conflicting.deep_view() =~= of_realm(all.take(0), request.request_realm));
    while i < candidates.len()
        invariant
            i <= candidates@.len(),
            all == candidates.deep_view(),
            all.len() == candidates@.len(),
            activated == resolve.activated@,
            resolve@ == old(resolve)@,
            queue.deep_view() == old(queue).deep_view(),
            first_eligible(all, request.request_realm, activated, req@.name, 0) == first_eligible(
                all,
                request.request_realm,
                activated,
                req@.name,
                i as int,
            ),
            conflicting.deep_view() == of_realm(all.take(i as int), request.request_realm),
        decreases candidates@.len() - i,
    {
        let candidate: &Manifest = &candidates[i];
        assert(all[i as int] == candidate@);
        proof {
            assert(all.take(i + 1).last() == candidate@);
            assert(all.take(i + 1).drop_last() =~= all.take(i as int));
        }
        if Realm::is_dependency_valid(request.request_realm, candidate.package.realm) {
            if check_conflict(&resolve.activated, req.name(), &candidate.package.version) {
                // This is a matching candidate, but it conflicts with one that
                // was selected before. Should there be no other, this is
                // reported.
                let ghost before = conflicting.deep_view();
                conflicting.push(candidate.package_id());
                assert(conflicting.deep_view() =~= before.push(candidate@.package_id()));
            } else {
                let id: PackageId = candidate.package_id();
                if !package_source::check_published(candidate) {
                    return Err(ResolveError::NotPublished(id));
                }
                resolve.activate(
                    &request.request_source,
                    &request.package_alias,
                    request.origin_realm,
                    &id,
                );
                let metadata = ResolvePackageMetadata {
                    realm: candidate.package.realm,
                    origin_realm: request.origin_realm,
                    source_registry: source.duplicate(),
                    is_workspace_member: false,
                };
                resolve.metadata.insert(id.duplicate(), metadata);
                enqueue_transitive_deps(candidate, request.origin_realm, queue);
                return Ok(id);
            }
        }
        i += 1;
    }
    assert(all.take(all.len() as int) =~= all);
    if conflicting.len() == 0 {
        Err(ResolveError::NoMatch { realm: request.request_realm, req: req.duplicate() })
    } else {
        Err(
            ResolveError::Conflict {
                realm: request.request_realm,
                req: req.duplicate(),
                conflicting,
            },
        )
    }
}

/// All members of a workspace were chosen.
pub open spec fn members_activated(members: MembersView, activated: Seq<PackageIdView>) -> bool {
    forall|i: int|
        0 <= i < members.len() ==> ordered::holds(
            activated,
            (#[trigger] members[i]).1.package_id(),
        )
}

/// A member that is found is one of the members.
pub proof fn lemma_member_at(members: MembersView, dir: Seq<char>, canonical: CanonicalPathsView)
    requires
        ordered::ascending(ordered::keys_of(members)),
    ensures
        workspace::member_at(members, dir, canonical) matches Some(manifest) ==> exists|i: int|
            0 <= i < members.len() && (#[trigger] members[i]).1 == manifest,
{
    let direct = path::PathModel { text: dir };
    ordered::lemma_place_exists(ordered::keys_of(members), direct);
    if ordered::lookup(members, direct) is None {
        if let Some(canonical) = ordered::lookup(canonical, direct) {
            ordered::lemma_place_exists(
                ordered::keys_of(members),
                path::PathModel { text: canonical },
            );
        }
    }
}

/// Where a path dependency points to a member that it can be of, the member was
/// chosen.
pub open spec fn path_chosen(
    request: RequestView,
    context: ContextView,
    activated: Seq<PackageIdView>,
) -> bool {
    match request.kind {
        KindView::Path(dir) => match workspace::member_at(
            context.members,
            dir,
            context.canonical,
        ) {
            Some(target) => request.realm.allows(target.package.realm) ==> ordered::holds(
                activated,
                target.package_id(),
            ),
            None => true,
        },
        KindView::Registry(_) => true,
    }
}

/// All members that path dependencies in the queue point to were chosen.
pub open spec fn paths_chosen(state: StateView, context: ContextView) -> bool {
    forall|k: int|
        0 <= k < state.queue.len() ==> path_chosen(
            #[trigger] state.queue[k],
            context,
            state.resolve.activated,
        )
}

/// A package that was published asks for no members.
pub(crate) proof fn lemma_published_requests(manifest: ManifestView, origin_realm: Realm)
    requires
        package_source::is_published(manifest),
    ensures
        forall|k: int|
            0 <= k < transitive_requests(manifest, origin_realm).len() ==> (
            #[trigger] transitive_requests(manifest, origin_realm)[k]).kind is Registry,
{
    let made = transitive_requests(manifest, origin_realm);
    let n = manifest.dependencies.len() as int;
    assert forall|k: int| 0 <= k < made.len() implies (#[trigger] made[k]).kind is Registry by {
        if k < n {
            assert(manifest.dependencies[k].1 is Registry);
        } else {
            assert(manifest.server_dependencies[k - n].1 is Registry);
        }
    }
}

/// Meeting a request keeps what was chosen, and something is known of exactly
/// the packages that were.
pub proof fn lemma_step_sound(state: StateView, context: ContextView)
    requires
        state.queue.len() > 0,
        state.resolve.is_sound(),
        paths_chosen(state, context),
    ensures
        step(state, context) matches Ok(next) ==> {
            &&& next.resolve.is_sound()
            &&& paths_chosen(next, context)
            &&& forall|id: PackageIdView|
                ordered::holds(state.resolve.activated, id) ==> #[trigger] ordered::holds(
                    next.resolve.activated,
                    id,
                )
        },
{
    let request = state.queue[0];
    let queue = state.queue.drop_first();
    if let Ok(next) = step(state, context) {
        assert(path_chosen(state.queue[0], context, state.resolve.activated));
        match request.kind {
            KindView::Path(dir) => {
                let target = workspace::member_at(
                    context.members,
                    dir,
                    context.canonical,
                )->Some_0;
                lemma_reuse(state.resolve, request, target.package_id());
            },
            KindView::Registry(req) => {
                lemma_best_activated(state.resolve.activated, req);
                match best_activated(state.resolve.activated, req) {
                    Some(id) => {
                        lemma_reuse(state.resolve, request, id);
                    },
                    None => {
                        if let FoundView::At(source, manifests) = find_source(
                            context.sources,
                            req,
                            0,
                        ) {
                            let candidates = order_candidates(manifests, context.try_to_use);
                            let at = first_eligible(
                                candidates,
                                request.realm,
                                state.resolve.activated,
                                req.name,
                                0,
                            );
                            lemma_take_in(state.resolve, request, candidates[at], source);
                            ordered::lemma_with_key(
                                state.resolve.activated,
                                candidates[at].package_id(),
                            );
                            lemma_published_requests(candidates[at], request.origin_realm);
                        }
                    },
                }
            },
        }
        assert forall|k: int| 0 <= k < next.queue.len() implies path_chosen(
            #[trigger] next.queue[k],
            context,
            next.resolve.activated,
        ) by {
            if k < queue.len() {
                assert(next.queue[k] == state.queue[k + 1]);
                assert(path_chosen(state.queue[k + 1], context, state.resolve.activated));
            }
        }
    }
}

/// Where all members were chosen, those are that path dependencies point to.
pub(crate) proof fn lemma_members_chosen(state: StateView, context: ContextView)
    requires
        ordered::ascending(ordered::keys_of(context.members)),
        members_activated(context.members, state.resolve.activated),
    ensures
        paths_chosen(state, context),
{
    assert forall|k: int| 0 <= k < state.queue.len() implies path_chosen(
        #[trigger] state.queue[k],
        context,
        state.resolve.activated,
    ) by {
        if let KindView::Path(dir) = state.queue[k].kind {
            lemma_member_at(context.members, dir, context.canonical);
        }
    }
}

/// The members of a workspace, if there is one.
pub open spec fn members_of(workspace: Option<&Workspace>) -> MembersView {
    match workspace {
        Some(workspace) => workspace@.members,
        None => Seq::empty(),
    }
}

/// Meets the first request of a state, or says why it is refused.
fn meet(
    resolve: &mut Resolve,
    queue: &mut VecDeque<DependencyRequest>,
    request: &DependencyRequest,
    try_to_use: &OrdSet<PackageId>,
    package_sources: &PackageSourceMap,
    order: &Vec<PackageSourceId>,
    members: &Members,
    canonical: &CanonicalPaths,
    Ghost(state): Ghost<StateView>,
    Ghost(context): Ghost<ContextView>,
) -> (met: Result<PackageId, ResolveError>)
    requires
        state.queue.len() > 0,
        state.queue[0] == request@,
        old(queue).deep_view() == state.queue.drop_first(),
        old(resolve)@ == state.resolve,
        context == (ContextView {
            try_to_use: try_to_use@,
            sources: package_sources@,
            members: members@,
            canonical: canonical@,
        }),
        order.deep_view() == package_sources@.order,
        context.sources.answers_fit(),
        old(resolve)@.is_sound(),
        paths_chosen(state, context),
    ensures
        step(state, context) == match met {
            Ok(_) => Ok(
                StateView { resolve: final(resolve)@, queue: final(queue).deep_view() },
            ),
            Err(error) => Err(error@),
        },
        match met {
            Ok(id) => id@ == target_of(state, context),
            Err(_) => final(resolve)@ == old(resolve)@ && final(queue).deep_view() == old(
                queue,
            ).deep_view(),
        },
{
    match &request.kind {
        DependencyRequestKind::Path(target_dir) => {
            let target: &Manifest = match find_member(members, target_dir, canonical) {
                Some(target) => target,
                None => {
                    return Err(
                        ResolveError::NotAMember {
                            alias: request.package_alias.clone(),
                            dir: target_dir.duplicate(),
                        },
                    );
                },
            };
            let id: PackageId = target.package_id();
            if !Realm::is_dependency_valid(request.request_realm, target.package.realm) {
                return Err(
                    ResolveError::RealmMismatch {
                        dependent: request.request_source.duplicate(),
                        realm: request.request_realm,
                        alias: request.package_alias.clone(),
                        target: id,
                        target_realm: target.package.realm,
                    },
                );
            }
            assert(path_chosen(state.queue[0], context, state.resolve.activated));
            reuse_package(resolve, request, &id);
            Ok(id)
        },
        DependencyRequestKind::Registry(req) => {
            proof {
                lemma_best_activated(resolve@.activated, req@);
            }
            match find_activated(&resolve.activated, req) {
                Some(id) => {
                    let target_realm: Realm = match resolve.metadata.get(&id) {
                        Some(metadata) => metadata.realm,
                        None => vstd::pervasive::unreached(),
                    };
                    if !Realm::is_dependency_valid(request.request_realm, target_realm) {
                        return Err(
                            ResolveError::RealmMismatch {
                                dependent: request.request_source.duplicate(),
                                realm: request.request_realm,
                                alias: request.package_alias.clone(),
                                target: id,
                                target_realm,
                            },
                        );
                    }
                    reuse_package(resolve, request, &id);
                    Ok(id)
                },
                None => match query(package_sources, order, req) {
                    Found::Unanswered(source) => Err(
                        ResolveError::Unanswered {
                            source: source.duplicate(),
                            req: req.duplicate(),
                        },
                    ),
                    Found::Nowhere => Err(ResolveError::NoSource(req.duplicate())),
                    Found::At(source, manifests) => {
                        let candidates: Vec<Manifest> = sort_candidates(manifests, try_to_use);
                        take_candidate(resolve, queue, request, req, source, &candidates)
                    },
                },
            }
        },
    }
}

/// Core resolution loop shared by [`resolve`] and [`resolve_workspace`]:
/// resolves all dependencies, breadth-first. Where one is refused, the graph
/// stays as it was before that.
pub fn resolve_queued(
    resolve: &mut Resolve,
    packages_to_visit: &mut VecDeque<DependencyRequest>,
    try_to_use: &OrdSet<PackageId>,
    package_sources: &PackageSourceMap,
    workspace: Option<&Workspace>,
    canonical: &CanonicalPaths,
) -> (resolved: Result<(), ResolveError>)
    requires
        old(resolve)@.is_sound(),
        paths_chosen(
            StateView { resolve: old(resolve)@, queue: old(packages_to_visit).deep_view() },
            ContextView {
                try_to_use: try_to_use@,
                sources: package_sources@,
                members: members_of(workspace),
                canonical: canonical@,
            },
        ),
    ensures
        ({
            let start = StateView {
                resolve: old(resolve)@,
                queue: old(packages_to_visit).deep_view(),
            };
            let context = ContextView {
                try_to_use: try_to_use@,
                sources: package_sources@,
                members: members_of(workspace),
                canonical: canonical@,
            };
            &&& outcome(start, context) == match resolved {
                Ok(_) => Ok(final(resolve)@),
                Err(error) => Err(error@),
            }
            &&& resolved is Ok ==> final(packages_to_visit)@.len() == 0
            &&& resolved is Err ==> {
                &&& final(resolve)@ == ending(start, context).resolve
                &&& final(packages_to_visit).deep_view() == ending(
                    start,
                    context,
                ).queue.drop_first()
            }
        }),
        package_sources@.answers_fit(),
        workspace matches Some(workspace) ==> workspace@.is_sound(),
{
    let nobody: Members = OrdMap::new();
    let members: &Members = match workspace {
        Some(workspace) => workspace.members(),
        None => &nobody,
    };
    let roots: OrdSet<PackageId> = resolve.activated.duplicate();
    let mut met: Vec<Link> = Vec::new();
    let ghost context = ContextView {
        try_to_use: try_to_use@,
        sources: package_sources@,
        members: members@,
        canonical: canonical@,
    };
    let ghost start = StateView { resolve: resolve@, queue: packages_to_visit.deep_view() };
    let order: &Vec<PackageSourceId> = package_sources.source_order();
    proof {
        assert(members@ == members_of(workspace));
        assert(met.deep_view() =~= Seq::<LinkView>::empty());
        assert(met.deep_view() + links(start, context) =~= links(start, context));
    }
    while packages_to_visit.len() > 0
        invariant
            context == (ContextView {
                try_to_use: try_to_use@,
                sources: package_sources@,
                members: members@,
                canonical: canonical@,
            }),
            members@ == members_of(workspace),
            workspace matches Some(workspace) ==> workspace@.is_sound(),
            context.sources.answers_fit(),
            order.deep_view() == package_sources@.order,
            resolve@.is_sound(),
            paths_chosen(
                StateView { resolve: resolve@, queue: packages_to_visit.deep_view() },
                context,
            ),
            start == (StateView {
                resolve: old(resolve)@,
                queue: old(packages_to_visit).deep_view(),
            }),
            roots@ == start.resolve.activated,
            run(start, context) == run(
                StateView { resolve: resolve@, queue: packages_to_visit.deep_view() },
                context,
            ),
            ending(start, context) == ending(
                StateView { resolve: resolve@, queue: packages_to_visit.deep_view() },
                context,
            ),
            links(start, context) == met.deep_view() + links(
                StateView { resolve: resolve@, queue: packages_to_visit.deep_view() },
                context,
            ),
        decreases fresh(context.sources.answers, resolve@.activated), packages_to_visit@.len(),
    {
        let ghost state = StateView { resolve: resolve@, queue: packages_to_visit.deep_view() };
        let request: DependencyRequest = match packages_to_visit.pop_front() {
            Some(request) => request,
            None => vstd::pervasive::unreached(),
        };
        proof {
            assert(state.queue[0] == request@);
            assert(packages_to_visit.deep_view() =~= state.queue.drop_first());
            lemma_step_progress(state, context);
            lemma_step_sound(state, context);
        }
        let target: PackageId = match meet(
            resolve,
            packages_to_visit,
            &request,
            try_to_use,
            package_sources,
            order,
            members,
            canonical,
            Ghost(state),
            Ghost(context),
        ) {
            Ok(target) => target,
            Err(error) => {
                return Err(error);
            },
        };
        proof {
            let next = StateView { resolve: resolve@, queue: packages_to_visit.deep_view() };
            let link = LinkView { request: request@, target: target@ };
            assert(step(state, context) == Ok::<StateView, ResolveErrorView>(next));
            assert(links(state, context) == seq![link] + links(next, context));
            assert(met.deep_view() + (seq![link] + links(next, context)) =~= met.deep_view().push(
                link,
            ) + links(next, context));
        }
        let ghost before = met.deep_view();
        let link = Link { request, target };
        met.push(link);
        assert(met.deep_view() =~= before.push(link@));
    }
    assert(links(start, context) =~= met.deep_view());
    origins::spread_origins(resolve, &roots, &met);
    Ok(())
}

fn find_member<'a>(members: &'a Members, path: &PathBuf, canonical: &CanonicalPaths) -> (member:
    Option<&'a Manifest>)
    ensures
        member.deep_view() == workspace::member_at(members@, path@, canonical@),
{
    match members.get(path) {
        Some(manifest) => Some(manifest),
        None => match canonical.get(path) {
            Some(canonical) => members.get(canonical),
            None => None,
        },
    }
}

// ---------------------------------------------------------------------------
// Projects and workspaces
// ---------------------------------------------------------------------------

/// What is known of a package before its dependencies are looked at.
pub open spec fn root_metadata(
    manifest: ManifestView,
    source: PackageSourceIdView,
    is_workspace_member: bool,
) -> MetadataView {
    MetadataView {
        realm: manifest.package.realm,
        origin_realm: manifest.package.realm,
        source_registry: source,
        is_workspace_member,
    }
}

/// A package is chosen because it is a root.
pub open spec fn with_root(
    resolve: ResolveView,
    manifest: ManifestView,
    source: PackageSourceIdView,
    is_workspace_member: bool,
) -> ResolveView {
    let id = manifest.package_id();
    ResolveView {
        activated: ordered::with_key(resolve.activated, id),
        metadata: ordered::with_entry(
            resolve.metadata,
            id,
            root_metadata(manifest, source, is_workspace_member),
        ),
        ..resolve
    }
}

/// The state from which a single package is resolved.
pub open spec fn package_start(manifest: ManifestView) -> StateView {
    StateView {
        resolve: with_root(
            ResolveView::empty(),
            manifest,
            PackageSourceIdView::DefaultRegistry,
            false,
        ),
        queue: root_requests(manifest, Seq::empty()),
    }
}

/// The state from which the members of a workspace are resolved.
pub open spec fn workspace_start(members: MembersView) -> StateView
    decreases members.len(),
{
    if members.len() == 0 {
        StateView { resolve: ResolveView::empty(), queue: Seq::empty() }
    } else {
        let before = workspace_start(members.drop_last());
        let (dir, manifest) = members.last();
        StateView {
            resolve: with_root(
                before.resolve,
                manifest,
                PackageSourceIdView::Path(dir.text),
                true,
            ),
            queue: before.queue + root_requests(manifest, dir.text),
        }
    }
}

/// What resolution goes by for a single package.
pub open spec fn package_context(
    try_to_use: Seq<PackageIdView>,
    sources: PackageSourceMapView,
) -> ContextView {
    ContextView { try_to_use, sources, members: Seq::empty(), canonical: Seq::empty() }
}

/// A root is chosen, and something is known of exactly what was chosen.
pub proof fn lemma_with_root(
    resolve: ResolveView,
    manifest: ManifestView,
    source: PackageSourceIdView,
    is_workspace_member: bool,
)
    requires
        resolve.is_sound(),
    ensures
        with_root(resolve, manifest, source, is_workspace_member).is_sound(),
        ordered::holds(
            with_root(resolve, manifest, source, is_workspace_member).activated,
            manifest.package_id(),
        ),
        forall|id: PackageIdView|
            ordered::holds(resolve.activated, id) ==> #[trigger] ordered::holds(
                with_root(resolve, manifest, source, is_workspace_member).activated,
                id,
            ),
{
    let id = manifest.package_id();
    let metadata = root_metadata(manifest, source, is_workspace_member);
    ordered::lemma_keys_of_with_entry(resolve.metadata, id, metadata);
    ordered::lemma_with_key(resolve.activated, id);
}

/// Before requests are met, all members are chosen.
pub proof fn lemma_workspace_start(members: MembersView)
    ensures
        workspace_start(members).resolve.is_sound(),
        members_activated(members, workspace_start(members).resolve.activated),
    decreases members.len(),
{
    if members.len() == 0 {
        assert(ordered::keys_of(ResolveView::empty().metadata) =~= ResolveView::empty().activated);
    } else {
        let fewer = members.drop_last();
        lemma_workspace_start(fewer);
        let (dir, manifest) = members.last();
        lemma_with_root(
            workspace_start(fewer).resolve,
            manifest,
            PackageSourceIdView::Path(dir.text),
            true,
        );
        let activated = workspace_start(members).resolve.activated;
        assert forall|i: int| 0 <= i < members.len() implies ordered::holds(
            activated,
            (#[trigger] members[i]).1.package_id(),
        ) by {
            if i < fewer.len() {
                assert(fewer[i] == members[i]);
                assert(ordered::holds(
                    workspace_start(fewer).resolve.activated,
                    fewer[i].1.package_id(),
                ));
            }
        }
    }
}

fn add_root(
    resolve: &mut Resolve,
    manifest: &Manifest,
    source_registry: PackageSourceId,
    is_workspace_member: bool,
)
    ensures
        final(resolve)@ == with_root(
            old(resolve)@,
            manifest@,
            source_registry@,
            is_workspace_member,
        ),
{
    resolve.activated.insert(manifest.package_id());
    let metadata = ResolvePackageMetadata {
        realm: manifest.package.realm,
        origin_realm: manifest.package.realm,
        source_registry,
        is_workspace_member,
    };
    resolve.metadata.insert(manifest.package_id(), metadata);
}

/// Resolve dependencies for a single-package project.
pub fn resolve(
    root_manifest: &Manifest,
    try_to_use: &OrdSet<PackageId>,
    package_sources: &PackageSourceMap,
) -> (resolved: Result<Resolve, ResolveError>)
    requires
        package_source::only_registry(root_manifest@.dependencies),
        package_source::only_registry(root_manifest@.server_dependencies),
        package_source::only_registry(root_manifest@.dev_dependencies),
    ensures
        plain::outcome(resolved) == outcome(
            package_start(root_manifest@),
            package_context(try_to_use@, package_sources@),
        ),
        package_sources@.answers_fit(),
{
    let mut resolve: Resolve = Resolve::default();
    // The root project will always be present.
    add_root(&mut resolve, root_manifest, PackageSourceId::DefaultRegistry, false);
    let mut packages_to_visit: VecDeque<DependencyRequest> = VecDeque::new();
    let nowhere: PathBuf = PathBuf::parse("");
    proof {
        reveal_strlit("");
        assert(nowhere@ =~= Seq::<char>::empty());
        assert(packages_to_visit.deep_view() =~= Seq::<RequestView>::empty());
        assert(ordered::keys_of(ResolveView::empty().metadata) =~= ResolveView::empty().activated);
        lemma_with_root(
            ResolveView::empty(),
            root_manifest@,
            PackageSourceIdView::DefaultRegistry,
            false,
        );
    }
    enqueue_manifest_deps(root_manifest, &nowhere, &mut packages_to_visit);
    proof {
        assert(packages_to_visit.deep_view() =~= root_requests(root_manifest@, Seq::empty()));
        assert(ordered::keys_of(Seq::<(path::PathModel, ManifestView)>::empty()).len() == 0);
        lemma_members_chosen(
            package_start(root_manifest@),
            package_context(try_to_use@, package_sources@),
        );
    }
    match resolve_queued(
        &mut resolve,
        &mut packages_to_visit,
        try_to_use,
        package_sources,
        None,
        &OrdMap::new(),
    ) {
        Ok(_) => Ok(resolve),
        Err(error) => Err(error),
    }
}

/// Resolve dependencies for a multi-member workspace.
///
/// All workspace members are activated as roots with
/// [`PackageSourceId::Path`]. Path dependencies between members are resolved
/// eagerly by looking up the target in the workspace member set. Registry
/// dependencies follow the standard resolution path.
pub fn resolve_workspace(
    workspace: &Workspace,
    try_to_use: &OrdSet<PackageId>,
    package_sources: &PackageSourceMap,
    canonical: &CanonicalPaths,
) -> (resolved: Result<Resolve, ResolveError>)
    requires
        workspace@.is_concrete(),
    ensures
        plain::outcome(resolved) == outcome(
            workspace_start(workspace@.members),
            ContextView {
                try_to_use: try_to_use@,
                sources: package_sources@,
                members: workspace@.members,
                canonical: canonical@,
            },
        ),
        package_sources@.answers_fit(),
        workspace@.is_sound(),
{
    let mut resolve: Resolve = Resolve::default();
    let mut packages_to_visit: VecDeque<DependencyRequest> = VecDeque::new();
    let members: &Members = workspace.members();
    let ghost all = members@;
    let mut i: usize = 0;
    assert(all.take(0) =~= Seq::empty());
    assert(packages_to_visit.deep_view() =~= Seq::<RequestView>::empty());
    while i < members.len()
        invariant
            i <= members@.len(),
            all == members@,
            workspace@.members == members@,
            workspace@.is_concrete(),
            workspace_start(all.take(i as int)) == (StateView {
                resolve: resolve@,
                queue: packages_to_visit.deep_view(),
            }),
        decreases members@.len() - i,
    {
        let member_dir: &PathBuf = members.key_at(i);
        let manifest: &Manifest = members.value_at(i);
        proof {
            assert(workspace::is_concrete(workspace@.members[i as int].1));
            assert(all.take(i + 1).drop_last() =~= all.take(i as int));
            assert(all.take(i + 1).last() == all[i as int]);
        }
        add_root(&mut resolve, manifest, PackageSourceId::Path(member_dir.duplicate()), true);
        enqueue_manifest_deps(manifest, member_dir, &mut packages_to_visit);
        i += 1;
    }
    proof {
        assert(all.take(all.len() as int) =~= all);
        lemma_workspace_start(all);
        lemma_members_chosen(
            workspace_start(all),
            ContextView {
                try_to_use: try_to_use@,
                sources: package_sources@,
                members: all,
                canonical: canonical@,
            },
        );
    }
    match resolve_queued(
        &mut resolve,
        &mut packages_to_visit,
        try_to_use,
        package_sources,
        Some(workspace),
        canonical,
    ) {
        Ok(_) => Ok(resolve),
        Err(error) => Err(error),
    }
}

// ---------------------------------------------------------------------------
// Messages
// ---------------------------------------------------------------------------

/// How ids are written.
pub open spec fn ids_text(ids: Seq<PackageIdView>) -> Seq<char> {
    text::joined(ids.map_values(|id: PackageIdView| package_id::id_text(id)), ", "@)
}

fn ids_to_text(ids: &Vec<PackageId>) -> (written: String)
    ensures
        written@ == ids_text(ids.deep_view()),
{
    let ghost texts = ids.deep_view().map_values(|id: PackageIdView| package_id::id_text(id));
    let mut parts: Vec<String> = Vec::new();
    let mut i: usize = 0;
    assert(parts.deep_view() =~= texts.take(0));
    while i < ids.len()
        invariant
            i <= ids@.len(),
            texts == ids.deep_view().map_values(|id: PackageIdView| package_id::id_text(id)),
            parts.deep_view() == texts.take(i as int),
        decreases ids@.len() - i,
    {
        let part: String = ids[i].to_text();
        let ghost before = parts.deep_view();
        parts.push(part);
        proof {
            assert(texts[i as int] == part@);
            assert(parts.deep_view() =~= before.push(part@));
            assert(texts.take(i + 1) =~= texts.take(i as int).push(part@));
        }
        i += 1;
    }
    assert(texts.take(texts.len() as int) =~= texts);
    text::join_text(&parts, ", ")
}

impl ResolveErrorView {
    /// How the error is written.
    pub open spec fn text(self) -> Seq<char> {
        match self {
            ResolveErrorView::Unanswered { source: _, req } => {
                "No answer is known to the query for "@ + package_req::package_req_text(req)
            },
            ResolveErrorView::NotAMember { alias, dir } => {
                "path dependency '"@ + alias + "' at "@ + dir
                    + " does not point to a workspace member"@
            },
            ResolveErrorView::RealmMismatch { dependent, realm, alias, target, target_realm } => {
                "Package "@ + package_id::id_text(dependent) + " has a "@ + realm.text()
                    + " dependency '"@ + alias + "' on "@ + package_id::id_text(target) + ", but "@
                    + package_id::id_text(target) + " has realm "@ + target_realm.text()
                    + " which is not compatible"@
            },
            ResolveErrorView::NoSource(req) => {
                "Failed to find a source for "@ + package_req::package_req_text(req)
            },
            ResolveErrorView::NoMatch { realm, req } => {
                "No packages were found that matched ("@ + realm.text() + ") "@
                    + package_req::package_req_text(req) + ".\nAre you sure this is a "@
                    + realm.text() + " dependency?"@
            },
            ResolveErrorView::Conflict { realm, req, conflicting } => {
                "All possible candidates for package "@ + package_req::package_req_text(req) + " ("@
                    + realm.text()
                    + ") conflicted with other packages that were already installed. These packages were previously selected: "@
                    + ids_text(conflicting)
            },
            ResolveErrorView::NotPublished(id) => {
                "Package "@ + package_id::id_text(id) + " depends on packages outside of registries"@
            },
        }
    }
}

impl ResolveError {
    /// The error as text.
    pub fn message(&self) -> (message: String)
        ensures
            message@ == self@.text(),
    {
        match self {
            ResolveError::Unanswered { source: _, req } => {
                let mut message: String = "No answer is known to the query for ".to_owned();
                message.append(req.to_text().as_str());
                message
            },
            ResolveError::NotAMember { alias, dir } => {
                let mut message: String = "path dependency '".to_owned();
                message.append(alias.as_str());
                message.append("' at ");
                message.append(dir.as_str());
                message.append(" does not point to a workspace member");
                message
            },
            ResolveError::RealmMismatch { dependent, realm, alias, target, target_realm } => {
                let mut message: String = "Package ".to_owned();
                message.append(dependent.to_text().as_str());
                message.append(" has a ");
                message.append(realm.to_text());
                message.append(" dependency '");
                message.append(alias.as_str());
                message.append("' on ");
                message.append(target.to_text().as_str());
                message.append(", but ");
                message.append(target.to_text().as_str());
                message.append(" has realm ");
                message.append(target_realm.to_text());
                message.append(" which is not compatible");
                message
            },
            ResolveError::NoSource(req) => {
                let mut message: String = "Failed to find a source for ".to_owned();
                message.append(req.to_text().as_str());
                message
            },
            ResolveError::NoMatch { realm, req } => {
                let mut message: String = "No packages were found that matched (".to_owned();
                message.append(realm.to_text());
                message.append(") ");
                message.append(req.to_text().as_str());
                message.append(".\nAre you sure this is a ");
                message.append(realm.to_text());
                message.append(" dependency?");
                message
            },
            ResolveError::Conflict { realm, req, conflicting } => {
                let mut message: String = "All possible candidates for package ".to_owned();
                message.append(req.to_text().as_str());
                message.append(" (");
                message.append(realm.to_text());
                message.append(") conflicted with other packages that were already installed. These packages were previously selected: ");
                message.append(ids_to_text(conflicting).as_str());
                message
            },
            ResolveError::NotPublished(id) => {
                let mut message: String = "Package ".to_owned();
                message.append(id.to_text().as_str());
                message.append(" depends on packages outside of registries");
                message
            },
        }
    }
}

} // verus!
