//! What holds of the members that are published.

use vstd::prelude::*;

use crate::commands::publish;
use crate::commands::publish::{
    PublicationView, PublishErrorView, PublishPlanView, PublishRequestView, RewriteErrorView,
};
use crate::dependency_spec::DependencySpecView;
use crate::loading;
use crate::manifest::{DependencyMapView, ManifestView};
use crate::ordered;
use crate::package_name::PackageNameView;
use crate::package_req::PackageReqView;
use crate::path;
use crate::path::PathModel;
use crate::version_req::VersionReqView;
use crate::workspace;
use crate::workspace::{CanonicalPathsView, MembersView, Section, WorkspaceView};

verus! {

// ---------------------------------------------------------------------------
// Dependencies on members
// ---------------------------------------------------------------------------

/// The file system leads a path to the directory of a member.
pub open spec fn leads_to(
    from: Seq<char>,
    members: MembersView,
    canonical: CanonicalPathsView,
    target: ManifestView,
) -> bool {
    exists|c: int|
        {
            &&& 0 <= c < canonical.len()
            &&& loading::same_path((#[trigger] canonical[c]).0.text, from)
            &&& loading::is_found(members, canonical[c].1, canonical, target)
        }
}

/// No dependency is on a path that leads to a private member.
pub open spec fn avoids_private(
    deps: DependencyMapView,
    dir: Seq<char>,
    members: MembersView,
    canonical: CanonicalPathsView,
) -> bool {
    forall|j: int, target: ManifestView|
        #![trigger deps[j], leads_to(path::join_text(dir, deps[j].1->Path_0), members, canonical, target)]
        0 <= j < deps.len() && deps[j].1 is Path && leads_to(
            path::join_text(dir, deps[j].1->Path_0),
            members,
            canonical,
            target,
        ) ==> !target.package.private
}

/// Dependencies are published under their aliases: one on a path that leads to a
/// member as the exact version of the member, any other as it is.
pub open spec fn is_rewritten(
    deps: DependencyMapView,
    dir: Seq<char>,
    members: MembersView,
    canonical: CanonicalPathsView,
    published: DependencyMapView,
) -> bool {
    &&& published.len() == deps.len()
    &&& forall|j: int| 0 <= j < deps.len() ==> (#[trigger] published[j]).0 == deps[j].0
    &&& forall|j: int|
        0 <= j < deps.len() && !(deps[j].1 is Path) ==> (#[trigger] published[j]).1 == deps[j].1
    &&& forall|j: int|
        0 <= j < deps.len() && deps[j].1 is Path ==> is_pinned(
            (#[trigger] published[j]).1,
            path::join_text(dir, deps[j].1->Path_0),
            members,
            canonical,
        )
}

/// A dependency is on the exact version of the member that a path leads to.
pub open spec fn is_pinned(
    spec: DependencySpecView,
    from: Seq<char>,
    members: MembersView,
    canonical: CanonicalPathsView,
) -> bool {
    exists|target: ManifestView| #[trigger]
        leads_to(from, members, canonical, target) && spec == DependencySpecView::Registry(
            PackageReqView {
                name: target.package.name,
                version_req: VersionReqView::Exact(target.package.version),
            },
        )
}

/// What is published of a member: all that its manifest says, but that path
/// dependencies are rewritten. Neither the member nor one that it depends on is
/// private.
pub open spec fn is_release(
    dir: Seq<char>,
    manifest: ManifestView,
    members: MembersView,
    canonical: CanonicalPathsView,
    published: ManifestView,
) -> bool {
    &&& !manifest.package.private
    &&& published.package == manifest.package
    &&& published.place == manifest.place
    &&& avoids_private(manifest.dependencies, dir, members, canonical)
    &&& avoids_private(manifest.server_dependencies, dir, members, canonical)
    &&& avoids_private(manifest.dev_dependencies, dir, members, canonical)
    &&& is_rewritten(manifest.dependencies, dir, members, canonical, published.dependencies)
    &&& is_rewritten(
        manifest.server_dependencies,
        dir,
        members,
        canonical,
        published.server_dependencies,
    )
    &&& is_rewritten(
        manifest.dev_dependencies,
        dir,
        members,
        canonical,
        published.dev_dependencies,
    )
}

proof fn lemma_leads_to(
    from: Seq<char>,
    members: MembersView,
    canonical: CanonicalPathsView,
    target: ManifestView,
)
    requires
        ordered::ascending(ordered::keys_of(members)),
        ordered::ascending(ordered::keys_of(canonical)),
    ensures
        leads_to(from, members, canonical, target) <==> (ordered::lookup(
            canonical,
            PathModel { text: from },
        ) matches Some(dir) && workspace::member_at(members, dir, canonical) == Some(target)),
{
    let keys = ordered::keys_of(canonical);
    let key = PathModel { text: from };
    ordered::lemma_place_exists(keys, key);
    let at = ordered::place(keys, key);
    if ordered::holds(keys, key) {
        path::lemma_path_key_injective(path::path_of(canonical[at].0.text), path::path_of(from));
        assert(keys[at] == canonical[at].0);
        assert(loading::same_path(canonical[at].0.text, from));
        loading::law_members_are_found_by_directory(members, canonical[at].1, canonical, target);
    }
    if leads_to(from, members, canonical, target) {
        let c = choose|c: int|
            {
                &&& 0 <= c < canonical.len()
                &&& loading::same_path((#[trigger] canonical[c]).0.text, from)
                &&& loading::is_found(members, canonical[c].1, canonical, target)
            };
        path::lemma_path_key_injective(path::path_of(canonical[c].0.text), path::path_of(from));
        assert(keys[c] == canonical[c].0);
        assert(ordered::holds(keys, key));
        ordered::lemma_index_unique(keys, c, at);
    }
}

proof fn lemma_first_private(
    deps: DependencyMapView,
    dir: Seq<char>,
    members: MembersView,
    canonical: CanonicalPathsView,
    from: int,
)
    requires
        0 <= from <= deps.len(),
    ensures
        ({
            let at = publish::first_private(deps, dir, members, canonical, from);
            &&& from <= at <= deps.len()
            &&& at < deps.len() ==> publish::private_target(
                deps[at].1,
                dir,
                members,
                canonical,
            ) is Some
            &&& forall|j: int|
                from <= j < at ==> publish::private_target(
                    (#[trigger] deps[j]).1,
                    dir,
                    members,
                    canonical,
                ) is None
        }),
    decreases deps.len() - from,
{
    if from < deps.len() && publish::private_target(
        deps[from].1,
        dir,
        members,
        canonical,
    ) is None {
        lemma_first_private(deps, dir, members, canonical, from + 1);
    }
}

proof fn lemma_first_unpublished(
    deps: DependencyMapView,
    dir: Seq<char>,
    members: MembersView,
    canonical: CanonicalPathsView,
    from: int,
)
    requires
        0 <= from <= deps.len(),
    ensures
        ({
            let at = publish::first_unpublished(deps, dir, members, canonical, from);
            &&& from <= at <= deps.len()
            &&& at < deps.len() ==> publish::published_spec(
                deps[at].0,
                deps[at].1,
                dir,
                members,
                canonical,
            ) is Err
            &&& forall|j: int|
                from <= j < at ==> publish::published_spec(
                    (#[trigger] deps[j]).0,
                    deps[j].1,
                    dir,
                    members,
                    canonical,
                ) is Ok
        }),
    decreases deps.len() - from,
{
    if from < deps.len() && publish::published_spec(
        deps[from].0,
        deps[from].1,
        dir,
        members,
        canonical,
    ) is Ok {
        lemma_first_unpublished(deps, dir, members, canonical, from + 1);
    }
}

proof fn lemma_private_target(
    spec: DependencySpecView,
    dir: Seq<char>,
    members: MembersView,
    canonical: CanonicalPathsView,
)
    requires
        ordered::ascending(ordered::keys_of(members)),
        ordered::ascending(ordered::keys_of(canonical)),
    ensures
        forall|target: ManifestView|
            spec is Path && #[trigger] leads_to(
                path::join_text(dir, spec->Path_0),
                members,
                canonical,
                target,
            ) ==> publish::private_target(spec, dir, members, canonical)
                == if target.package.private {
                Some(target.package.name)
            } else {
                None
            },
        publish::private_target(spec, dir, members, canonical) matches Some(name) ==> spec is Path
            && exists|target: ManifestView| #[trigger]
            leads_to(path::join_text(dir, spec->Path_0), members, canonical, target)
                && target.package.private && target.package.name == name,
{
    if let DependencySpecView::Path(path) = spec {
        let from = path::join_text(dir, path);
        assert forall|target: ManifestView| #[trigger]
            leads_to(from, members, canonical, target) implies publish::private_target(
            spec,
            dir,
            members,
            canonical,
        ) == if target.package.private {
            Some(target.package.name)
        } else {
            None
        } by {
            lemma_leads_to(from, members, canonical, target);
        }
        if publish::private_target(spec, dir, members, canonical) is Some {
            let found = ordered::lookup(canonical, PathModel { text: from })->Some_0;
            let target = workspace::member_at(members, found, canonical)->Some_0;
            lemma_leads_to(from, members, canonical, target);
        }
    }
}

proof fn lemma_avoids_private(
    name: PackageNameView,
    deps: DependencyMapView,
    dir: Seq<char>,
    members: MembersView,
    canonical: CanonicalPathsView,
)
    requires
        ordered::ascending(ordered::keys_of(members)),
        ordered::ascending(ordered::keys_of(canonical)),
    ensures
        publish::private_fault(name, deps, dir, members, canonical) is None <==> avoids_private(
            deps,
            dir,
            members,
            canonical,
        ),
{
    lemma_first_private(deps, dir, members, canonical, 0);
    let at = publish::first_private(deps, dir, members, canonical, 0);
    if at < deps.len() {
        lemma_private_target(deps[at].1, dir, members, canonical);
        let from = path::join_text(dir, deps[at].1->Path_0);
        let target = choose|target: ManifestView| #[trigger]
            leads_to(from, members, canonical, target) && target.package.private;
        assert(leads_to(
            path::join_text(dir, deps[at].1->Path_0),
            members,
            canonical,
            target,
        ));
        assert(!avoids_private(deps, dir, members, canonical));
    } else {
        assert forall|j: int, target: ManifestView|
            #![trigger deps[j], leads_to(path::join_text(dir, deps[j].1->Path_0), members, canonical, target)]
            0 <= j < deps.len() && deps[j].1 is Path && leads_to(
                path::join_text(dir, deps[j].1->Path_0),
                members,
                canonical,
                target,
            ) implies !target.package.private by {
            lemma_private_target(deps[j].1, dir, members, canonical);
        }
    }
}

proof fn lemma_rewritten(
    deps: DependencyMapView,
    dir: Seq<char>,
    members: MembersView,
    canonical: CanonicalPathsView,
    published: DependencyMapView,
)
    requires
        ordered::ascending(ordered::keys_of(members)),
        ordered::ascending(ordered::keys_of(canonical)),
    ensures
        publish::published_deps(deps, dir, members, canonical) == Ok::<
            DependencyMapView,
            RewriteErrorView,
        >(published) <==> is_rewritten(deps, dir, members, canonical, published),
{
    lemma_first_unpublished(deps, dir, members, canonical, 0);
    let at = publish::first_unpublished(deps, dir, members, canonical, 0);
    if is_rewritten(deps, dir, members, canonical, published) {
        assert forall|j: int| 0 <= j < deps.len() implies publish::published_spec(
            (#[trigger] deps[j]).0,
            deps[j].1,
            dir,
            members,
            canonical,
        ) == Ok::<DependencySpecView, RewriteErrorView>(published[j].1) by {
            assert(published[j].0 == deps[j].0);
            if deps[j].1 is Path {
                let from = path::join_text(dir, deps[j].1->Path_0);
                assert(is_pinned(published[j].1, from, members, canonical));
                let target = choose|target: ManifestView| #[trigger]
                    leads_to(from, members, canonical, target) && published[j].1
                        == DependencySpecView::Registry(
                        PackageReqView {
                            name: target.package.name,
                            version_req: VersionReqView::Exact(target.package.version),
                        },
                    );
                lemma_leads_to(from, members, canonical, target);
            }
        }
        if at < deps.len() {
            assert(publish::published_spec(
                deps[at].0,
                deps[at].1,
                dir,
                members,
                canonical,
            ) is Ok);
        }
        assert(publish::published_deps(deps, dir, members, canonical)->Ok_0 =~= published);
    } else if publish::published_deps(deps, dir, members, canonical) == Ok::<
        DependencyMapView,
        RewriteErrorView,
    >(published) {
        assert forall|j: int| 0 <= j < deps.len() && deps[j].1 is Path implies is_pinned(
            (#[trigger] published[j]).1,
            path::join_text(dir, deps[j].1->Path_0),
            members,
            canonical,
        ) by {
            assert(publish::published_spec(
                deps[j].0,
                deps[j].1,
                dir,
                members,
                canonical,
            ) is Ok);
            let from = path::join_text(dir, deps[j].1->Path_0);
            let found = ordered::lookup(canonical, PathModel { text: from })->Some_0;
            let target = workspace::member_at(members, found, canonical)->Some_0;
            lemma_leads_to(from, members, canonical, target);
        }
        assert(is_rewritten(deps, dir, members, canonical, published));
    }
}

/// A member is published exactly as its manifest with path dependencies pinned to
/// the members that they lead to, from its own directory, and only where neither
/// it nor any member that it depends on by a path, in any section, is private.
pub proof fn law_releases_depend_on_no_private_member(
    workspace: WorkspaceView,
    canonical: CanonicalPathsView,
    m: int,
    published: ManifestView,
)
    requires
        workspace.is_sound(),
        !workspace.single_package,
        ordered::ascending(ordered::keys_of(canonical)),
        0 <= m < workspace.members.len(),
    ensures
        ({
            let (dir, manifest) = workspace.members[m];
            let plan = publish::publish_plan(
                Some(manifest.package.name),
                workspace,
                canonical,
            );
            &&& plan is Ok ==> plan->Ok_0 is Member && plan->Ok_0->Member_dir == dir.text
            &&& plan == Ok::<PublishPlanView, PublishErrorView>(
                PublishPlanView::Member { dir: dir.text, manifest: published },
            ) <==> is_release(dir.text, manifest, workspace.members, canonical, published)
        }),
{
    let (dir, manifest) = workspace.members[m];
    let members = workspace.members;
    let name = manifest.package.name;
    workspace::lemma_name_index_is(workspace, name, dir.text, manifest);
    lemma_avoids_private(name, manifest.dependencies, dir.text, members, canonical);
    lemma_avoids_private(name, manifest.server_dependencies, dir.text, members, canonical);
    lemma_avoids_private(name, manifest.dev_dependencies, dir.text, members, canonical);
    lemma_rewritten(
        manifest.dependencies,
        dir.text,
        members,
        canonical,
        published.dependencies,
    );
    lemma_rewritten(
        manifest.server_dependencies,
        dir.text,
        members,
        canonical,
        published.server_dependencies,
    );
    lemma_rewritten(
        manifest.dev_dependencies,
        dir.text,
        members,
        canonical,
        published.dev_dependencies,
    );
    if is_release(dir.text, manifest, members, canonical, published) {
        assert(publish::published_manifest(manifest, dir.text, members, canonical)->Ok_0
            =~= published);
    }
}

/// The dependencies of a section.
pub open spec fn section_of(manifest: ManifestView, section: Section) -> DependencyMapView {
    match section {
        Section::Dependencies => manifest.dependencies,
        Section::ServerDependencies => manifest.server_dependencies,
        Section::DevDependencies => manifest.dev_dependencies,
    }
}

/// A dependency is on a path that leads to a private member.
pub open spec fn depends_on_private(
    deps: DependencyMapView,
    dir: Seq<char>,
    members: MembersView,
    canonical: CanonicalPathsView,
    alias: Seq<char>,
    target: PackageNameView,
) -> bool {
    exists|j: int, on: ManifestView|
        #![trigger deps[j], leads_to(path::join_text(dir, deps[j].1->Path_0), members, canonical, on)]
        {
            &&& 0 <= j < deps.len()
            &&& deps[j].0 == alias
            &&& deps[j].1 is Path
            &&& leads_to(path::join_text(dir, deps[j].1->Path_0), members, canonical, on)
            &&& on.package.private
            &&& on.package.name == target
        }
}

/// A dependency is on a path that leads to no member, or nowhere at all.
pub open spec fn leads_nowhere(
    deps: DependencyMapView,
    dir: Seq<char>,
    members: MembersView,
    canonical: CanonicalPathsView,
    error: RewriteErrorView,
) -> bool {
    exists|j: int|
        {
            &&& 0 <= j < deps.len()
            &&& (#[trigger] deps[j]).1 is Path
            &&& forall|on: ManifestView|
                !(#[trigger] leads_to(
                    path::join_text(dir, deps[j].1->Path_0),
                    members,
                    canonical,
                    on,
                ))
            &&& match error {
                RewriteErrorView::Unresolved { alias, dir: missing } => {
                    &&& alias == deps[j].0
                    &&& missing == path::join_text(dir, deps[j].1->Path_0)
                    &&& forall|c: int|
                        0 <= c < canonical.len() ==> !loading::same_path(
                            (#[trigger] canonical[c]).0.text,
                            missing,
                        )
                },
                RewriteErrorView::NotAMember { alias, dir: found } => alias == deps[j].0
                    && exists|c: int|
                    0 <= c < canonical.len() && loading::same_path(
                        (#[trigger] canonical[c]).0.text,
                        path::join_text(dir, deps[j].1->Path_0),
                    ) && canonical[c].1 == found,
            }
        }
}

/// Nothing is published only for a reason: that no package is named where there
/// is a choice or one is where there is none, that no member has the name, that
/// the package is private or depends on a member that is, or that a path leads to
/// no member.
pub proof fn law_publishing_is_refused_for_a_reason(
    package: Option<PackageNameView>,
    workspace: WorkspaceView,
    canonical: CanonicalPathsView,
)
    requires
        workspace.is_sound(),
        ordered::ascending(ordered::keys_of(canonical)),
    ensures
        match publish::publish_plan(package, workspace, canonical) {
            Ok(PublishPlanView::SinglePackage { manifest }) => {
                &&& workspace.single_package
                &&& package is None
                &&& manifest == workspace.members[0].1
                &&& !manifest.package.private
            },
            Ok(PublishPlanView::Member { dir, manifest }) => {
                &&& !workspace.single_package
                &&& package == Some(manifest.package.name)
                &&& exists|m: int|
                    0 <= m < workspace.members.len() && (#[trigger] workspace.members[m]).0.text
                        == dir && workspace.members[m].1.package == manifest.package
            },
            Err(PublishErrorView::NotAWorkspace) => workspace.single_package && package is Some,
            Err(PublishErrorView::NoPackageNamed) => !workspace.single_package && package is None,
            Err(PublishErrorView::PrivatePackage) => workspace.single_package && package is None
                && workspace.members[0].1.package.private,
            Err(PublishErrorView::NoSuchMember(name)) => {
                &&& !workspace.single_package
                &&& package == Some(name)
                &&& forall|m: int|
                    0 <= m < workspace.members.len() ==> (
                    #[trigger] workspace.members[m]).1.package.name != name
            },
            Err(PublishErrorView::PrivateMember(name)) => {
                &&& !workspace.single_package
                &&& package == Some(name)
                &&& exists|m: int|
                    {
                        &&& 0 <= m < workspace.members.len()
                        &&& (#[trigger] workspace.members[m]).1.package.name == name
                        &&& workspace.members[m].1.package.private
                    }
            },
            Err(PublishErrorView::PrivateDependency { name, target, alias }) => {
                &&& !workspace.single_package
                &&& package == Some(name)
                &&& exists|m: int, section: Section|
                    {
                        &&& 0 <= m < workspace.members.len()
                        &&& workspace.members[m].1.package.name == name
                        &&& #[trigger] depends_on_private(
                            section_of(workspace.members[m].1, section),
                            workspace.members[m].0.text,
                            workspace.members,
                            canonical,
                            alias,
                            target,
                        )
                    }
            },
            Err(PublishErrorView::Rewrite { section, error }) => {
                &&& !workspace.single_package
                &&& exists|m: int|
                    {
                        &&& 0 <= m < workspace.members.len()
                        &&& package == Some(workspace.members[m].1.package.name)
                        &&& #[trigger] leads_nowhere(
                            section_of(workspace.members[m].1, section),
                            workspace.members[m].0.text,
                            workspace.members,
                            canonical,
                            error,
                        )
                    }
            },
            Err(PublishErrorView::TooLarge) => false,
            Err(PublishErrorView::NoToken) => false,
        },
{
    if !workspace.single_package && package is Some {
        let name = package->Some_0;
        let members = workspace.members;
        workspace::lemma_name_index(members, name, 0);
        let m = workspace::name_index(members, name, 0);
        if m < members.len() {
            let (dir, manifest) = members[m];
            assert(members[m].1.package.name == name);
            lemma_refused_section(m, Section::Dependencies, workspace, canonical);
            lemma_refused_section(m, Section::ServerDependencies, workspace, canonical);
            lemma_refused_section(m, Section::DevDependencies, workspace, canonical);
            if let Ok(PublishPlanView::Member { dir: at, manifest: published }) =
                publish::publish_plan(package, workspace, canonical) {
                law_releases_depend_on_no_private_member(workspace, canonical, m, published);
                assert(members[m].0.text == at);
            }
        }
    }
}

proof fn lemma_refused_section(
    m: int,
    section: Section,
    workspace: WorkspaceView,
    canonical: CanonicalPathsView,
)
    requires
        workspace.is_sound(),
        ordered::ascending(ordered::keys_of(canonical)),
        0 <= m < workspace.members.len(),
    ensures
        ({
            let (dir, manifest) = workspace.members[m];
            let deps = section_of(manifest, section);
            let members = workspace.members;
            let name = manifest.package.name;
            &&& publish::private_fault(name, deps, dir.text, members, canonical) matches Some(
                error,
            ) ==> {
                &&& error is PrivateDependency
                &&& error->PrivateDependency_name == name
                &&& depends_on_private(
                    deps,
                    dir.text,
                    members,
                    canonical,
                    error->PrivateDependency_alias,
                    error->PrivateDependency_target,
                )
            }
            &&& publish::published_deps(deps, dir.text, members, canonical) matches Err(error)
                ==> leads_nowhere(deps, dir.text, members, canonical, error)
        }),
{
    let (dir, manifest) = workspace.members[m];
    let deps = section_of(manifest, section);
    let members = workspace.members;
    lemma_first_private(deps, dir.text, members, canonical, 0);
    let at = publish::first_private(deps, dir.text, members, canonical, 0);
    if at < deps.len() {
        lemma_private_target(deps[at].1, dir.text, members, canonical);
        assert(deps[at].0 == deps[at].0);
    }
    lemma_first_unpublished(deps, dir.text, members, canonical, 0);
    let at = publish::first_unpublished(deps, dir.text, members, canonical, 0);
    if at < deps.len() {
        let from = path::join_text(dir.text, deps[at].1->Path_0);
        assert forall|on: ManifestView| !(#[trigger] leads_to(from, members, canonical, on)) by {
            lemma_leads_to(from, members, canonical, on);
        }
        let keys = ordered::keys_of(canonical);
        let key = PathModel { text: from };
        ordered::lemma_place_exists(keys, key);
        let c = ordered::place(keys, key);
        if ordered::holds(keys, key) {
            path::lemma_path_key_injective(path::path_of(canonical[c].0.text), path::path_of(from));
            assert(keys[c] == canonical[c].0);
            assert(loading::same_path(canonical[c].0.text, from));
        } else {
            assert forall|c: int| 0 <= c < canonical.len() implies !loading::same_path(
                (#[trigger] canonical[c]).0.text,
                from,
            ) by {
                assert(keys[c] == canonical[c].0);
                path::lemma_path_key_injective(
                    path::path_of(canonical[c].0.text),
                    path::path_of(from),
                );
            }
        }
        assert(deps[at].1 is Path);
    }
}

// ---------------------------------------------------------------------------
// Sending
// ---------------------------------------------------------------------------

/// A package is sent only if it has at most two mebibytes and there is a token.
/// The token that is given goes before the one that is stored. With a token to
/// check against, nothing is sent.
pub proof fn law_packages_are_sent_with_a_token(
    token: Option<Seq<char>>,
    manifest: ManifestView,
    index: Seq<char>,
    bytes: nat,
    stored: Option<Seq<char>>,
    check_token: Option<Seq<char>>,
)
    ensures
        match publish::publication(token, manifest, index, bytes, stored, check_token) {
            Ok(PublicationView::Send(request)) => {
                &&& check_token is None
                &&& bytes <= 0x20_0000
                &&& token is Some ==> token == Some(request.token)
                &&& token is None ==> stored == Some(request.token)
                &&& request.announcement == publish::announcement_text(manifest, index)
            },
            Ok(PublicationView::Checked) => {
                &&& check_token is Some
                &&& bytes <= 0x20_0000
                &&& token is Some || stored is Some
            },
            Err(PublishErrorView::TooLarge) => bytes > 0x20_0000,
            Err(PublishErrorView::NoToken) => bytes <= 0x20_0000 && token is None && stored is None,
            Err(_) => false,
        },
{
}

} // verus!
