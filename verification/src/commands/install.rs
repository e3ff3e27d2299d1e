//! Installing packages.

use vstd::prelude::*;

use crate::installation;
use crate::installation::{InstallPlan, InstallationContext, InstallationView, PlanView};
use crate::manifest::Manifest;
use crate::ordered;
use crate::ordered::OrdSet;
use crate::package_id;
use crate::package_id::{PackageId, PackageIdView};
use crate::package_source::{PackageSourceMap, PackageSourceMapView};
use crate::path;
use crate::path::PathBuf;
use crate::plain;
use crate::plain::Plain;
use crate::resolution;
use crate::resolution::{
    resolve_workspace, Resolve, ResolveError, ResolveErrorView, ResolveView,
};
use crate::text;
use crate::workspace::{
    CanonicalPaths, CanonicalPathsView, Members, MembersView, Workspace, WorkspaceView,
};

verus! {

/// Install all of the dependencies of this project.
#[derive(Debug, PartialEq, Eq)]
pub struct InstallSubcommand {
    /// Path to the project to install dependencies for.
    pub project_path: PathBuf,
    /// Flag to error if the lockfile does not match with the latest dependencies.
    pub locked: bool,
}

/// Two rows of packages are the same but for build metadata.
pub open spec fn same_ids(a: Seq<PackageIdView>, b: Seq<PackageIdView>) -> bool {
    a.len() == b.len() && forall|i: int|
        0 <= i < a.len() ==> package_id::same_id(#[trigger] a[i], b[i])
}

/// Whether two sets hold the same packages.
fn check_same_ids(a: &OrdSet<PackageId>, b: &OrdSet<PackageId>) -> (same: bool)
    ensures
        same == same_ids(a@, b@),
{
    if a.len() != b.len() {
        return false;
    }
    let mut i: usize = 0;
    while i < a.len()
        invariant
            i <= a@.len(),
            a@.len() == b@.len(),
            forall|j: int| 0 <= j < i ==> package_id::same_id(#[trigger] a@[j], b@[j]),
        decreases a@.len() - i,
    {
        if !a.at(i).is_same(b.at(i)) {
            assert(!package_id::same_id(a@[i as int], b@[i as int]));
            return false;
        }
        i += 1;
    }
    true
}

/// The ids of members.
pub open spec fn member_ids(members: MembersView) -> Seq<PackageIdView>
    decreases members.len(),
{
    if members.len() == 0 {
        Seq::empty()
    } else {
        ordered::with_key(
            member_ids(members.drop_last()),
            members.last().1.package_id(),
        )
    }
}

/// The roots of an installation: all members.
pub fn root_package_ids(members: &Members) -> (ids: OrdSet<PackageId>)
    ensures
        ids@ == member_ids(members@),
{
    let mut ids: OrdSet<PackageId> = OrdSet::new();
    let ghost all = members@;
    let mut i: usize = 0;
    assert(all.take(0) =~= Seq::empty());
    while i < members.len()
        invariant
            i <= members@.len(),
            all == members@,
            ids@ == member_ids(all.take(i as int)),
        decreases members@.len() - i,
    {
        let manifest: &Manifest = members.value_at(i);
        proof {
            assert(all.take(i + 1).last() == all[i as int]);
            assert(all.take(i + 1).drop_last() =~= all.take(i as int));
        }
        ids.insert(manifest.package_id());
        i += 1;
    }
    assert(all.take(all.len() as int) =~= all);
    ids
}

/// How many of the packages are not members.
pub fn external_dependencies(total: usize, members: usize) -> (external: usize)
    ensures
        external == if total > members {
            total - members
        } else {
            0
        },
{
    if total > members {
        total - members
    } else {
        0
    }
}

/// What is said of the dependencies that were resolved.
pub open spec fn resolved_text(external: nat, members: nat) -> Seq<char> {
    text::decimal(external) + " dependencies"@ + if members > 1 {
        " ("@ + text::decimal(members) + " workspace members)"@
    } else {
        Seq::empty()
    }
}

/// Says how many dependencies were resolved.
pub fn describe_resolved(external: u64, members: u64) -> (described: String)
    ensures
        described@ == resolved_text(external as nat, members as nat),
{
    let mut described: String = text::decimal_text(external);
    described.append(" dependencies");
    if members > 1 {
        let mut own: String = " (".to_owned();
        own.append(text::decimal_text(members).as_str());
        own.append(" workspace members)");
        described.append(own.as_str());
    }
    assert(described@ =~= resolved_text(external as nat, members as nat));
    described
}

// ---------------------------------------------------------------------------
// Installations
// ---------------------------------------------------------------------------

/// A workspace that was resolved, and what has to be done to install it.
#[derive(Debug, PartialEq, Eq)]
pub struct Installation {
    /// What was resolved.
    pub resolved: Resolve,
    /// How many of the packages are not members.
    pub external: usize,
    /// The directories that are deleted first, if they exist.
    pub stale_dirs: Vec<PathBuf>,
    /// How many packages have to be downloaded.
    pub downloads: usize,
    /// What has to be done.
    pub plan: InstallPlan,
}

/// What an installation holds.
#[verifier::ext_equal]
pub struct InstallationOutcome {
    pub resolved: ResolveView,
    pub external: int,
    pub stale_dirs: Seq<Seq<char>>,
    pub downloads: nat,
    pub plan: PlanView,
}

impl View for Installation {
    type V = InstallationOutcome;

    open spec fn view(&self) -> InstallationOutcome {
        InstallationOutcome {
            resolved: self.resolved@,
            external: self.external as int,
            stale_dirs: self.stale_dirs.deep_view(),
            downloads: self.downloads as nat,
            plan: self.plan@,
        }
    }
}

impl DeepView for Installation {
    type V = InstallationOutcome;

    open spec fn deep_view(&self) -> InstallationOutcome {
        self.view()
    }
}

/// Where the packages of a workspace get installed.
pub open spec fn workspace_installation(workspace: WorkspaceView) -> InstallationView {
    InstallationView {
        shared_dir: path::join_text(workspace.root, "Packages"@),
        server_dir: path::join_text(workspace.root, "ServerPackages"@),
        dev_dir: path::join_text(workspace.root, "DevPackages"@),
        shared_path: workspace.place.shared_packages,
        server_path: workspace.place.server_packages,
    }
}

/// The installation of a workspace that was resolved.
pub open spec fn installation_of(
    workspace: WorkspaceView,
    resolved: ResolveView,
) -> InstallationOutcome {
    let context = workspace_installation(workspace);
    let roots = member_ids(workspace.members);
    let total = resolved.activated.len() as int;
    let members = workspace.members.len() as int;
    InstallationOutcome {
        resolved,
        external: if total > members {
            total - members
        } else {
            0
        },
        stale_dirs: seq![context.shared_dir, context.server_dir, context.dev_dir],
        downloads: installation::downloads(roots, resolved, resolved.activated),
        plan: installation::plan_of(context, roots, resolved, resolved.activated),
    }
}

/// Prepares the installation of a workspace that was resolved.
pub fn prepare_installation(workspace: &Workspace, resolved: Resolve) -> (prepared: Installation)
    requires
        installation::is_installable(member_ids(workspace@.members), resolved@),
    ensures
        prepared@ == installation_of(workspace@, resolved@),
{
    let members: &Members = workspace.members();
    let roots: OrdSet<PackageId> = root_package_ids(members);
    let external: usize = external_dependencies(resolved.activated.len(), members.len());
    let context: InstallationContext = InstallationContext::new(
        workspace.root(),
        workspace.place().shared_packages.duplicate(),
        workspace.place().server_packages.duplicate(),
    );
    let stale_dirs: Vec<PathBuf> = context.clean();
    let downloads: usize = installation::download_count(&roots, &resolved);
    let plan: InstallPlan = context.install(&roots, &resolved);
    Installation { resolved, external, stale_dirs, downloads, plan }
}

/// Why a workspace is not installed.
#[derive(Debug, PartialEq, Eq)]
pub enum InstallError {
    /// Its dependencies could not be resolved.
    Resolve(ResolveError),
    /// The lockfile has to be up to date, and these packages would be chosen
    /// anew.
    OutOfDate(OrdSet<PackageId>),
}

/// What says why a workspace is not installed.
pub enum InstallErrorView {
    Resolve(ResolveErrorView),
    OutOfDate(Seq<PackageIdView>),
}

impl View for InstallError {
    type V = InstallErrorView;

    open spec fn view(&self) -> InstallErrorView {
        match self {
            InstallError::Resolve(error) => InstallErrorView::Resolve(error@),
            InstallError::OutOfDate(latest) => InstallErrorView::OutOfDate(latest@),
        }
    }
}

impl DeepView for InstallError {
    type V = InstallErrorView;

    open spec fn deep_view(&self) -> InstallErrorView {
        self.view()
    }
}

/// What a workspace resolves to.
pub open spec fn resolved_workspace(
    workspace: WorkspaceView,
    try_to_use: Seq<PackageIdView>,
    sources: PackageSourceMapView,
    canonical: CanonicalPathsView,
) -> Result<ResolveView, ResolveErrorView> {
    resolution::outcome(
        resolution::workspace_start(workspace.members),
        resolution::laws::workspace_context(workspace, try_to_use, sources, canonical),
    )
}

/// Whether a workspace can be installed with a lockfile. Where the lockfile has to
/// be up to date, what would be chosen anew has to be what it holds.
pub open spec fn verify_outcome(
    must_be_locked: bool,
    workspace: WorkspaceView,
    locked: Seq<PackageIdView>,
    sources: PackageSourceMapView,
    canonical: CanonicalPathsView,
) -> Result<(), InstallErrorView> {
    if must_be_locked {
        match resolved_workspace(workspace, Seq::empty(), sources, canonical) {
            Ok(latest) => if same_ids(locked, latest.activated) {
                Ok(())
            } else {
                Err(InstallErrorView::OutOfDate(latest.activated))
            },
            Err(error) => Err(InstallErrorView::Resolve(error)),
        }
    } else {
        Ok(())
    }
}

/// The installation of a workspace with a lockfile, or why it is not installed.
pub open spec fn install_outcome(
    must_be_locked: bool,
    workspace: WorkspaceView,
    locked: Seq<PackageIdView>,
    sources: PackageSourceMapView,
    canonical: CanonicalPathsView,
) -> Result<InstallationOutcome, InstallErrorView> {
    match verify_outcome(must_be_locked, workspace, locked, sources, canonical) {
        Ok(_) => match resolved_workspace(workspace, locked, sources, canonical) {
            Ok(resolved) => Ok(installation_of(workspace, resolved)),
            Err(error) => Err(InstallErrorView::Resolve(error)),
        },
        Err(error) => Err(error),
    }
}

impl InstallSubcommand {
    /// Checks that the lockfile of a workspace is up to date, where it has to be.
    pub fn verify_lockfile(
        &self,
        workspace: &Workspace,
        locked: &OrdSet<PackageId>,
        package_sources: &PackageSourceMap,
        canonical: &CanonicalPaths,
    ) -> (verified: Result<(), InstallError>)
        requires
            workspace@.is_concrete(),
        ensures
            (match verified {
                Ok(_) => Ok::<(), InstallErrorView>(()),
                Err(error) => Err(error@),
            }) == verify_outcome(
                self.locked,
                workspace@,
                locked@,
                package_sources@,
                canonical@,
            ),
    {
        if self.locked {
            match resolve_workspace(workspace, &OrdSet::new(), package_sources, canonical) {
                Ok(latest) => {
                    if !check_same_ids(locked, &latest.activated) {
                        return Err(InstallError::OutOfDate(latest.activated));
                    }
                },
                Err(error) => {
                    return Err(InstallError::Resolve(error));
                },
            }
        }
        Ok(())
    }

    /// Resolves a workspace, with the packages that its lockfile holds, and
    /// prepares its installation.
    pub fn run(
        &self,
        workspace: &Workspace,
        locked: &OrdSet<PackageId>,
        package_sources: &PackageSourceMap,
        canonical: &CanonicalPaths,
    ) -> (installed: Result<Installation, InstallError>)
        requires
            workspace@.is_concrete(),
        ensures
            plain::outcome(installed) == install_outcome(
                self.locked,
                workspace@,
                locked@,
                package_sources@,
                canonical@,
            ),
    {
        if let Err(error) = self.verify_lockfile(workspace, locked, package_sources, canonical) {
            return Err(error);
        }
        match resolve_workspace(workspace, locked, package_sources, canonical) {
            Ok(resolved) => {
                proof {
                    installation::laws::law_resolved_workspace_is_installable(
                        member_ids(workspace@.members),
                        workspace@,
                        locked@,
                        package_sources@,
                        canonical@,
                    );
                }
                Ok(prepare_installation(workspace, resolved))
            },
            Err(error) => Err(InstallError::Resolve(error)),
        }
    }
}

proof fn lemma_member_ids(members: MembersView)
    ensures
        ordered::ascending(member_ids(members)),
        forall|i: int|
            0 <= i < members.len() ==> ordered::holds(
                member_ids(members),
                (#[trigger] members[i]).1.package_id(),
            ),
    decreases members.len(),
{
    if members.len() > 0 {
        let fewer = members.drop_last();
        lemma_member_ids(fewer);
        ordered::lemma_with_key(member_ids(fewer), members.last().1.package_id());
        assert forall|i: int| 0 <= i < members.len() implies ordered::holds(
            member_ids(members),
            (#[trigger] members[i]).1.package_id(),
        ) by {
            if i < fewer.len() {
                assert(fewer[i] == members[i]);
                assert(ordered::holds(member_ids(fewer), fewer[i].1.package_id()));
            }
        }
    }
}

/// All members are roots of an installation.
pub proof fn law_members_are_roots(members: MembersView, i: int)
    requires
        0 <= i < members.len(),
    ensures
        ordered::holds(member_ids(members), members[i].1.package_id()),
{
    lemma_member_ids(members);
}

/// A lockfile that holds what is resolved anew is up to date, and installing
/// with it comes to the same.
pub proof fn law_fresh_lockfiles_are_accepted(
    workspace: WorkspaceView,
    sources: PackageSourceMapView,
    canonical: CanonicalPathsView,
    resolved: ResolveView,
)
    requires
        workspace.is_sound(),
        sources.answers_fit(),
        resolved_workspace(workspace, Seq::empty(), sources, canonical) == Ok::<
            ResolveView,
            ResolveErrorView,
        >(resolved),
    ensures
        install_outcome(true, workspace, resolved.activated, sources, canonical) == Ok::<
            InstallationOutcome,
            InstallErrorView,
        >(installation_of(workspace, resolved)),
{
    resolution::stable::law_locked_workspace_stays(
        workspace,
        Seq::empty(),
        sources,
        sources,
        canonical,
        resolved,
    );
}

/// An installation holds what was resolved, deletes the three package directories
/// of the workspace, and is planned for them with the places that the workspace
/// declares. What is not a member is external.
pub proof fn law_installations_are_those_of_the_workspace(
    workspace: WorkspaceView,
    resolved: ResolveView,
)
    ensures
        ({
            let installed = installation_of(workspace, resolved);
            let context = InstallationView {
                shared_dir: path::join_text(workspace.root, "Packages"@),
                server_dir: path::join_text(workspace.root, "ServerPackages"@),
                dev_dir: path::join_text(workspace.root, "DevPackages"@),
                shared_path: workspace.place.shared_packages,
                server_path: workspace.place.server_packages,
            };
            let roots = member_ids(workspace.members);
            &&& installed.resolved == resolved
            &&& installed.external >= 0
            &&& resolved.activated.len() >= workspace.members.len() ==> installed.external
                + workspace.members.len() == resolved.activated.len()
            &&& resolved.activated.len() < workspace.members.len() ==> installed.external == 0
            &&& installed.stale_dirs.len() == 3
            &&& installed.stale_dirs.contains(context.shared_dir)
            &&& installed.stale_dirs.contains(context.server_dir)
            &&& installed.stale_dirs.contains(context.dev_dir)
            &&& installed.plan == installation::plan_of(
                context,
                roots,
                resolved,
                resolved.activated,
            )
            &&& installed.downloads == installation::downloads(roots, resolved, resolved.activated)
            &&& installation::is_installable(roots, resolved) && installed.plan.error is None
                ==> installed.downloads == installation::laws::downloads_in(
                installed.plan.actions,
            )
        }),
{
    let installed = installation_of(workspace, resolved);
    let context = workspace_installation(workspace);
    let roots = member_ids(workspace.members);
    assert(installed.stale_dirs[0] == context.shared_dir);
    assert(installed.stale_dirs[1] == context.server_dir);
    assert(installed.stale_dirs[2] == context.dev_dir);
    if installation::is_installable(roots, resolved) {
        installation::laws::law_packages_are_downloaded_once(context, roots, resolved);
    }
}

/// The roots of an installation are the members and no others.
pub proof fn law_only_members_are_roots(members: MembersView, id: PackageIdView)
    ensures
        ordered::ascending(member_ids(members)),
        ordered::holds(member_ids(members), id) <==> exists|i: int|
            0 <= i < members.len() && package_id::same_id(
                (#[trigger] members[i]).1.package_id(),
                id,
            ),
    decreases members.len(),
{
    lemma_member_ids(members);
    if members.len() > 0 {
        let fewer = members.drop_last();
        let last = members.last().1.package_id();
        let n = members.len() - 1;
        assert(members[n].1.package_id() == last);
        law_only_members_are_roots(fewer, id);
        ordered::lemma_with_key(member_ids(fewer), last);
        package_id::lemma_id_key_injective(id, last);
        if ordered::holds(member_ids(members), id) {
            if ordered::holds(member_ids(fewer), id) {
                let i = choose|i: int|
                    0 <= i < fewer.len() && package_id::same_id(
                        (#[trigger] fewer[i]).1.package_id(),
                        id,
                    );
                assert(members[i] == fewer[i]);
            } else {
                assert(package_id::same_id(members[n].1.package_id(), id));
            }
        }
        if exists|i: int|
            0 <= i < members.len() && package_id::same_id(
                (#[trigger] members[i]).1.package_id(),
                id,
            ) {
            let i = choose|i: int|
                0 <= i < members.len() && package_id::same_id(
                    (#[trigger] members[i]).1.package_id(),
                    id,
                );
            if i < n {
                assert(fewer[i] == members[i]);
            }
        }
    }
}

/// Installing uses the packages of the lockfile again. Where the lockfile has to be
/// up to date, nothing is installed unless what would be chosen without it is, one
/// by one, what it holds.
pub proof fn law_installing_uses_the_lockfile(
    must_be_locked: bool,
    workspace: WorkspaceView,
    locked: Seq<PackageIdView>,
    sources: PackageSourceMapView,
    canonical: CanonicalPathsView,
)
    ensures
        ({
            let start = resolution::workspace_start(workspace.members);
            let fresh = resolution::outcome(
                start,
                resolution::ContextView {
                    try_to_use: Seq::empty(),
                    sources,
                    members: workspace.members,
                    canonical,
                },
            );
            let used = resolution::outcome(
                start,
                resolution::ContextView {
                    try_to_use: locked,
                    sources,
                    members: workspace.members,
                    canonical,
                },
            );
            let up_to_date = !must_be_locked || fresh is Ok && fresh->Ok_0.activated.len()
                == locked.len() && forall|i: int|
                0 <= i < locked.len() ==> package_id::same_id(
                    #[trigger] locked[i],
                    fresh->Ok_0.activated[i],
                );
            match install_outcome(must_be_locked, workspace, locked, sources, canonical) {
                Ok(installed) => {
                    &&& up_to_date
                    &&& used == Ok::<ResolveView, ResolveErrorView>(installed.resolved)
                    &&& installed == installation_of(workspace, installed.resolved)
                },
                Err(InstallErrorView::OutOfDate(latest)) => must_be_locked && !up_to_date
                    && fresh is Ok && latest == fresh->Ok_0.activated,
                Err(InstallErrorView::Resolve(error)) => (must_be_locked && fresh == Err::<
                    ResolveView,
                    ResolveErrorView,
                >(error)) || (up_to_date && used == Err::<ResolveView, ResolveErrorView>(error)),
            }
        }),
{
}

/// What is said of the dependencies starts with how many there are, and goes on to
/// the members only where there is more than one, with how many there are of them.
pub proof fn law_members_are_told_where_there_are_several(external: nat, members: nat)
    ensures
        resolved_text(external, members).take(
            (text::decimal(external) + " dependencies"@).len() as int,
        ) == text::decimal(external) + " dependencies"@,
        members <= 1 ==> resolved_text(external, members) == text::decimal(external)
            + " dependencies"@,
        members > 1 ==> resolved_text(external, members).skip(
            (text::decimal(external) + " dependencies"@).len() as int,
        ) == " ("@ + text::decimal(members) + " workspace members)"@,
{
    let first = text::decimal(external) + " dependencies"@;
    let whole = resolved_text(external, members);
    assert(whole.take(first.len() as int) =~= first);
    if members <= 1 {
        assert(whole =~= first);
    } else {
        let second = " ("@ + text::decimal(members) + " workspace members)"@;
        assert(whole.skip(first.len() as int) =~= second);
    }
}

} // verus!
