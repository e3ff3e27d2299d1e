//! What holds of the members of workspaces that are loaded.

use vstd::prelude::*;

use crate::dependency_spec::DependencySpecView;
use crate::manifest::{
    DependencyMapView, ManifestView, PackageView, PlaceInfoView, ProjectManifestView,
    WorkspaceInheritable, WorkspaceMetadataView,
};
use crate::order;
use crate::ordered;
use crate::ordered::Ranked;
use crate::package_name::PackageNameView;
use crate::path;
use crate::path::PathModel;
use crate::workspace;
use crate::workspace::{
    DependencyFault, Field, FieldFault, InheritableMapView, LoadedMemberView, MemberErrorView,
    MembersView, RawMemberManifestView, RawMemberPackageView, Section, WorkspaceErrorView,
    WorkspaceView,
};

verus! {

// ---------------------------------------------------------------------------
// Members
// ---------------------------------------------------------------------------

/// What a package says of itself and cannot inherit is what its own manifest
/// says, field by field.
pub open spec fn keeps_own_fields(raw: RawMemberPackageView, package: PackageView) -> bool {
    &&& package.name == raw.name
    &&& package.version == raw.version
    &&& package.description == raw.description
    &&& package.license == raw.license
    &&& package.authors == raw.authors
    &&& package.includes == raw.includes
    &&& package.exclude == raw.exclude
    &&& package.private == raw.private
    &&& package.homepage == raw.homepage
    &&& package.repository == raw.repository
}

/// A field has the value that the member gives it. Where it says that it is
/// inherited, or says nothing, it has the value that the workspace gives it.
pub open spec fn takes_over<T>(
    own: Option<WorkspaceInheritable<T>>,
    workspace_value: Option<T>,
    value: T,
) -> bool {
    &&& own matches Some(WorkspaceInheritable::Defined(defined)) ==> value == defined
    &&& own matches Some(WorkspaceInheritable::Workspace { workspace }) ==> workspace
        && workspace_value == Some(value)
    &&& own is None ==> workspace_value == Some(value)
}

/// A place is the one that the member gives, or else the one of the workspace.
pub open spec fn fills_gap(
    own: Option<Seq<char>>,
    workspace_value: Option<Seq<char>>,
    value: Option<Seq<char>>,
) -> bool {
    &&& own is Some ==> value == own
    &&& own is None ==> value == workspace_value
}

/// Whether a dependency is left to the workspace, and what it says of it.
pub open spec fn directive(spec: WorkspaceInheritable<DependencySpecView>) -> Option<bool> {
    match spec {
        WorkspaceInheritable::Workspace { workspace } => Some(workspace),
        WorkspaceInheritable::Defined(DependencySpecView::Workspace(workspace)) => Some(workspace),
        WorkspaceInheritable::Defined(_) => None,
    }
}

/// A dependency is what the member says it is or, where the member leaves it to
/// the workspace, what the workspace says under the same alias.
pub open spec fn is_concrete_form(
    alias: Seq<char>,
    own: WorkspaceInheritable<DependencySpecView>,
    ws_deps: DependencyMapView,
    spec: DependencySpecView,
) -> bool {
    &&& !(spec is Workspace)
    &&& directive(own) is None ==> own == WorkspaceInheritable::Defined(spec)
    &&& directive(own) is Some ==> directive(own) == Some(true) && ws_deps.contains((alias, spec))
}

/// All dependencies of a section are such, under their own aliases.
pub open spec fn is_concrete_section(
    own: InheritableMapView,
    ws_deps: DependencyMapView,
    deps: DependencyMapView,
) -> bool {
    &&& deps.len() == own.len()
    &&& forall|j: int| 0 <= j < own.len() ==> (#[trigger] deps[j]).0 == own[j].0
    &&& forall|j: int|
        0 <= j < own.len() ==> is_concrete_form(
            own[j].0,
            own[j].1,
            ws_deps,
            (#[trigger] deps[j]).1,
        )
}

/// A manifest is that of a member with all that it inherits.
pub open spec fn is_taken_over(
    raw: RawMemberManifestView,
    ws_meta: WorkspaceMetadataView,
    manifest: ManifestView,
) -> bool {
    &&& keeps_own_fields(raw.package, manifest.package)
    &&& takes_over(raw.package.registry, ws_meta.registry, manifest.package.registry)
    &&& takes_over(raw.package.realm, ws_meta.realm, manifest.package.realm)
    &&& fills_gap(
        raw.place.shared_packages,
        ws_meta.place.shared_packages,
        manifest.place.shared_packages,
    )
    &&& fills_gap(
        raw.place.server_packages,
        ws_meta.place.server_packages,
        manifest.place.server_packages,
    )
    &&& is_concrete_section(raw.dependencies, ws_meta.dependencies, manifest.dependencies)
    &&& is_concrete_section(
        raw.server_dependencies,
        ws_meta.dependencies,
        manifest.server_dependencies,
    )
    &&& is_concrete_section(raw.dev_dependencies, ws_meta.dependencies, manifest.dev_dependencies)
}

proof fn lemma_spec(
    alias: Seq<char>,
    own: WorkspaceInheritable<DependencySpecView>,
    ws_deps: DependencyMapView,
    spec: DependencySpecView,
)
    requires
        ordered::ascending(ordered::keys_of(ws_deps)),
    ensures
        is_concrete_form(alias, own, ws_deps, spec) <==> workspace::concrete_spec(
            alias,
            own,
            ws_deps,
        ) == Ok::<DependencySpecView, DependencyFault>(spec),
{
    let keys = ordered::keys_of(ws_deps);
    ordered::lemma_place_exists(keys, alias);
    let at = ordered::place(keys, alias);
    if ordered::holds(keys, alias) {
        order::lemma_plain_key_injective(keys[at], alias);
        assert(ws_deps[at].0 == alias);
        if workspace::concrete_spec(alias, own, ws_deps) == Ok::<
            DependencySpecView,
            DependencyFault,
        >(spec) && directive(own) is Some {
            assert(ws_deps[at] == (alias, spec));
        }
    }
    if ws_deps.contains((alias, spec)) {
        let n = choose|n: int| 0 <= n < ws_deps.len() && ws_deps[n] == (alias, spec);
        assert(keys[n] == alias);
        assert(ordered::holds(keys, alias));
        ordered::lemma_index_unique(keys, n, at);
    }
}

proof fn lemma_first_fault(own: InheritableMapView, ws_deps: DependencyMapView, from: int)
    requires
        0 <= from <= own.len(),
    ensures
        ({
            let at = workspace::first_fault(own, ws_deps, from);
            &&& from <= at <= own.len()
            &&& at < own.len() ==> workspace::concrete_spec(
                own[at].0,
                own[at].1,
                ws_deps,
            ) is Err
            &&& forall|j: int|
                from <= j < at ==> workspace::concrete_spec(
                    (#[trigger] own[j]).0,
                    own[j].1,
                    ws_deps,
                ) is Ok
        }),
    decreases own.len() - from,
{
    if from < own.len() && workspace::concrete_spec(own[from].0, own[from].1, ws_deps) is Ok {
        lemma_first_fault(own, ws_deps, from + 1);
    }
}

proof fn lemma_section(
    own: InheritableMapView,
    ws_deps: DependencyMapView,
    deps: DependencyMapView,
)
    requires
        ordered::ascending(ordered::keys_of(ws_deps)),
    ensures
        is_concrete_section(own, ws_deps, deps) <==> workspace::concrete_deps(own, ws_deps)
            == Ok::<DependencyMapView, (Seq<char>, DependencyFault)>(deps),
{
    lemma_first_fault(own, ws_deps, 0);
    let at = workspace::first_fault(own, ws_deps, 0);
    if is_concrete_section(own, ws_deps, deps) {
        if at < own.len() {
            assert(deps[at].0 == own[at].0);
            lemma_spec(own[at].0, own[at].1, ws_deps, deps[at].1);
        }
        assert forall|j: int| 0 <= j < own.len() implies deps[j] == (
            own[j].0,
            #[trigger] workspace::concrete_spec(own[j].0, own[j].1, ws_deps)->Ok_0,
        ) by {
            assert(deps[j].0 == own[j].0);
            lemma_spec(own[j].0, own[j].1, ws_deps, deps[j].1);
        }
        assert(workspace::concrete_deps(own, ws_deps)->Ok_0 =~= deps);
    } else if workspace::concrete_deps(own, ws_deps) == Ok::<
        DependencyMapView,
        (Seq<char>, DependencyFault),
    >(deps) {
        assert forall|j: int| 0 <= j < own.len() implies is_concrete_form(
            own[j].0,
            own[j].1,
            ws_deps,
            (#[trigger] deps[j]).1,
        ) by {
            lemma_spec(own[j].0, own[j].1, ws_deps, deps[j].1);
        }
    }
}

/// The manifest of a member keeps, field by field, what the member says of
/// itself, and takes over from the workspace what the member leaves to it. There
/// is one exactly where all that is left to the workspace is given there.
pub proof fn law_members_keep_and_take_over(
    raw: RawMemberManifestView,
    ws_meta: WorkspaceMetadataView,
    manifest: ManifestView,
)
    requires
        ordered::ascending(ordered::keys_of(ws_meta.dependencies)),
    ensures
        workspace::member_manifest(raw, ws_meta) == Ok::<ManifestView, MemberErrorView>(manifest)
            <==> is_taken_over(raw, ws_meta, manifest),
{
    lemma_section(raw.dependencies, ws_meta.dependencies, manifest.dependencies);
    lemma_section(raw.server_dependencies, ws_meta.dependencies, manifest.server_dependencies);
    lemma_section(raw.dev_dependencies, ws_meta.dependencies, manifest.dev_dependencies);
    if is_taken_over(raw, ws_meta, manifest) {
        let found = workspace::member_manifest(raw, ws_meta)->Ok_0;
        assert(found.package =~= manifest.package);
        assert(found =~= manifest);
    }
}

/// A member has no manifest only for a reason: a field has no value, because the
/// workspace gives none or is expressly not asked for it, or this holds of a
/// dependency.
pub proof fn law_member_errors_have_a_reason(
    raw: RawMemberManifestView,
    ws_meta: WorkspaceMetadataView,
)
    requires
        ordered::ascending(ordered::keys_of(ws_meta.dependencies)),
    ensures
        match workspace::member_manifest(raw, ws_meta) {
            Ok(_) => true,
            Err(MemberErrorView::Field { field: Field::Registry, fault }) => is_field_fault(
                raw.package.registry,
                ws_meta.registry,
                fault,
            ),
            Err(MemberErrorView::Field { field: Field::Realm, fault }) => is_field_fault(
                raw.package.realm,
                ws_meta.realm,
                fault,
            ),
            Err(MemberErrorView::Dependency { section, alias, fault }) => exists|j: int|
                {
                    let own = section_of(raw, section);
                    &&& 0 <= j < own.len()
                    &&& (#[trigger] section_of(raw, section)[j]).0 == alias
                    &&& fault == DependencyFault::InvalidDirective ==> directive(own[j].1)
                        == Some(false)
                    &&& fault == DependencyFault::NotDefined ==> directive(own[j].1) == Some(true)
                        && forall|spec: DependencySpecView|
                        ws_meta.dependencies.contains((alias, spec)) ==> spec is Workspace
                },
            Err(MemberErrorView::Unreadable(_)) => false,
        },
{
    let ws_deps = ws_meta.dependencies;
    lemma_first_fault(raw.dependencies, ws_deps, 0);
    lemma_first_fault(raw.server_dependencies, ws_deps, 0);
    lemma_first_fault(raw.dev_dependencies, ws_deps, 0);
    if let Err(MemberErrorView::Dependency { section, alias, fault }) =
        workspace::member_manifest(raw, ws_meta) {
        let own = section_of(raw, section);
        let at = workspace::first_fault(own, ws_deps, 0);
        assert(own[at].0 == alias);
        if fault == DependencyFault::NotDefined {
            assert forall|spec: DependencySpecView|
                ws_deps.contains((alias, spec)) implies spec is Workspace by {
                lemma_spec(alias, own[at].1, ws_deps, spec);
            }
        }
        assert(section_of(raw, section)[at].0 == alias);
    }
}

/// The dependencies of a section.
pub open spec fn section_of(raw: RawMemberManifestView, section: Section) -> InheritableMapView {
    match section {
        Section::Dependencies => raw.dependencies,
        Section::ServerDependencies => raw.server_dependencies,
        Section::DevDependencies => raw.dev_dependencies,
    }
}

/// Why a field has no value.
pub open spec fn is_field_fault<T>(
    own: Option<WorkspaceInheritable<T>>,
    workspace_value: Option<T>,
    fault: FieldFault,
) -> bool {
    match own {
        None => workspace_value is None && fault == FieldFault::NotSet,
        Some(WorkspaceInheritable::Workspace { workspace: true }) => workspace_value is None
            && fault == FieldFault::NotDefined,
        Some(WorkspaceInheritable::Workspace { workspace: false }) => fault
            == FieldFault::InvalidDirective,
        Some(WorkspaceInheritable::Defined(_)) => false,
    }
}

// ---------------------------------------------------------------------------
// Workspaces
// ---------------------------------------------------------------------------

/// Two texts are of the same path.
pub open spec fn same_path(a: Seq<char>, b: Seq<char>) -> bool {
    path::path_of(a) == path::path_of(b)
}

/// A member comes from what was read in its directory.
pub open spec fn was_read(
    member: (PathModel, ManifestView),
    loaded: LoadedMemberView,
    ws_meta: WorkspaceMetadataView,
) -> bool {
    &&& same_path(member.0.text, loaded.dir)
    &&& loaded.manifest matches Ok(raw) && is_taken_over(raw, ws_meta, member.1)
}

/// The member is the root itself, as the project's own manifest describes it.
pub open spec fn is_root_member(
    member: (PathModel, ManifestView),
    root: Seq<char>,
    project: ProjectManifestView,
    ws_meta: WorkspaceMetadataView,
) -> bool {
    &&& same_path(member.0.text, root)
    &&& project.package == Some(member.1.package)
    &&& fills_gap(
        project.place.shared_packages,
        ws_meta.place.shared_packages,
        member.1.place.shared_packages,
    )
    &&& fills_gap(
        project.place.server_packages,
        ws_meta.place.server_packages,
        member.1.place.server_packages,
    )
    &&& is_root_section(project.dependencies, ws_meta.dependencies, member.1.dependencies)
    &&& is_root_section(
        project.server_dependencies,
        ws_meta.dependencies,
        member.1.server_dependencies,
    )
    &&& is_root_section(
        project.dev_dependencies,
        ws_meta.dependencies,
        member.1.dev_dependencies,
    )
}

/// The dependencies of the root are what it says they are or, where it leaves
/// them to the workspace, what the workspace says.
pub open spec fn is_root_section(
    own: DependencyMapView,
    ws_deps: DependencyMapView,
    deps: DependencyMapView,
) -> bool {
    &&& deps.len() == own.len()
    &&& forall|j: int| 0 <= j < own.len() ==> (#[trigger] deps[j]).0 == own[j].0
    &&& forall|j: int|
        0 <= j < own.len() ==> is_concrete_form(
            own[j].0,
            WorkspaceInheritable::Defined(own[j].1),
            ws_deps,
            (#[trigger] deps[j]).1,
        )
}

proof fn lemma_root_section(
    own: DependencyMapView,
    ws_deps: DependencyMapView,
    deps: DependencyMapView,
)
    requires
        ordered::ascending(ordered::keys_of(ws_deps)),
    ensures
        is_root_section(own, ws_deps, deps) <==> workspace::concrete_deps(
            workspace::as_inheritable(own),
            ws_deps,
        ) == Ok::<DependencyMapView, (Seq<char>, DependencyFault)>(deps),
{
    let all = workspace::as_inheritable(own);
    lemma_section(all, ws_deps, deps);
    if is_root_section(own, ws_deps, deps) {
        assert forall|j: int| 0 <= j < all.len() implies is_concrete_form(
            all[j].0,
            all[j].1,
            ws_deps,
            (#[trigger] deps[j]).1,
        ) by {
            assert(deps[j].0 == own[j].0);
        }
    } else if is_concrete_section(all, ws_deps, deps) {
        assert forall|j: int| 0 <= j < own.len() implies is_concrete_form(
            own[j].0,
            WorkspaceInheritable::Defined(own[j].1),
            ws_deps,
            (#[trigger] deps[j]).1,
        ) by {
            assert(is_concrete_form(all[j].0, all[j].1, ws_deps, deps[j].1));
        }
    }
}

proof fn lemma_root_member(
    member: (PathModel, ManifestView),
    root: Seq<char>,
    package: PackageView,
    project: ProjectManifestView,
    ws_meta: WorkspaceMetadataView,
)
    requires
        ordered::ascending(ordered::keys_of(ws_meta.dependencies)),
        project.package == Some(package),
        same_path(member.0.text, root),
    ensures
        workspace::root_manifest(package, project, ws_meta) == Ok::<ManifestView, MemberErrorView>(
            member.1,
        ) <==> is_root_member(member, root, project, ws_meta),
{
    let ws_deps = ws_meta.dependencies;
    lemma_root_section(project.dependencies, ws_deps, member.1.dependencies);
    lemma_root_section(project.server_dependencies, ws_deps, member.1.server_dependencies);
    lemma_root_section(project.dev_dependencies, ws_deps, member.1.dev_dependencies);
    if is_root_member(member, root, project, ws_meta) {
        assert(workspace::root_manifest(package, project, ws_meta)->Ok_0 =~= member.1);
    }
}

/// A map with an entry put in holds what it held and the entry, and nothing else.
proof fn lemma_entries(
    members: MembersView,
    key: PathModel,
    manifest: ManifestView,
)
    requires
        ordered::ascending(ordered::keys_of(members)),
    ensures
        ({
            let put = ordered::with_entry(members, key, manifest);
            &&& ordered::ascending(ordered::keys_of(put))
            &&& forall|k: int|
                0 <= k < put.len() ==> members.contains(#[trigger] put[k]) || same_path(
                    put[k].0.text,
                    key.text,
                ) && put[k].1 == manifest
            &&& exists|k: int|
                0 <= k < put.len() && same_path((#[trigger] put[k]).0.text, key.text) && put[k].1
                    == manifest
            &&& forall|n: int|
                0 <= n < members.len() && !same_path((#[trigger] members[n]).0.text, key.text)
                    ==> put.contains(members[n])
            &&& put.len() > 0
        }),
{
    let keys = ordered::keys_of(members);
    let put = ordered::with_entry(members, key, manifest);
    ordered::lemma_place_exists(keys, key);
    ordered::lemma_keys_of_with_entry(members, key, manifest);
    ordered::lemma_with_key(keys, key);
    let at = ordered::place(keys, key);
    let held = ordered::holds(keys, key);
    if held {
        path::lemma_path_key_injective(
            path::path_of(members[at].0.text),
            path::path_of(key.text),
        );
        assert(keys[at] == members[at].0);
    }
    assert(same_path(put[at].0.text, key.text) && put[at].1 == manifest);
    assert forall|k: int| 0 <= k < put.len() implies members.contains(#[trigger] put[k])
        || same_path(put[k].0.text, key.text) && put[k].1 == manifest by {
        if k != at {
            let n = if held || k < at { k } else { k - 1 };
            assert(put[k] == members[n]);
        }
    }
    assert forall|n: int|
        0 <= n < members.len() && !same_path(
            (#[trigger] members[n]).0.text,
            key.text,
        ) implies put.contains(members[n]) by {
        let k = if held || n < at { n } else { n + 1 };
        assert(put[k] == members[n]);
    }
}

/// A member was loaded from what was read in its directory.
spec fn was_loaded(
    member: (PathModel, ManifestView),
    loaded: LoadedMemberView,
    ws_meta: WorkspaceMetadataView,
) -> bool {
    same_path(member.0.text, loaded.dir) && workspace::loaded_manifest(loaded, ws_meta) == Ok::<
        ManifestView,
        MemberErrorView,
    >(member.1)
}

/// A member was loaded from one of those that were read.
spec fn was_loaded_from(
    member: (PathModel, ManifestView),
    members: Seq<LoadedMemberView>,
    ws_meta: WorkspaceMetadataView,
) -> bool {
    exists|i: int| 0 <= i < members.len() && #[trigger] was_loaded(member, members[i], ws_meta)
}

proof fn lemma_was_loaded(
    member: (PathModel, ManifestView),
    loaded: LoadedMemberView,
    ws_meta: WorkspaceMetadataView,
)
    requires
        ordered::ascending(ordered::keys_of(ws_meta.dependencies)),
    ensures
        was_loaded(member, loaded, ws_meta) <==> was_read(member, loaded, ws_meta),
{
    if let Ok(raw) = loaded.manifest {
        law_members_keep_and_take_over(raw, ws_meta, member.1);
    }
}

proof fn lemma_loaded_members(members: Seq<LoadedMemberView>, ws_meta: WorkspaceMetadataView)
    ensures
        workspace::loaded_members(members, ws_meta) matches Ok(loaded) ==> {
            &&& ordered::ascending(ordered::keys_of(loaded))
            &&& members.len() > 0 ==> loaded.len() > 0
            &&& members.len() == 0 ==> loaded.len() == 0
            &&& forall|k: int|
                0 <= k < loaded.len() ==> was_loaded_from(
                    #[trigger] loaded[k],
                    members,
                    ws_meta,
                )
        },
    decreases members.len(),
{
    if members.len() == 0 {
        assert(ordered::keys_of(Seq::<(PathModel, ManifestView)>::empty()).len() == 0);
    } else if workspace::loaded_members(members, ws_meta) is Ok {
        let fewer = members.drop_last();
        let last = members.last();
        let n = members.len() - 1;
        lemma_loaded_members(fewer, ws_meta);
        let before = workspace::loaded_members(fewer, ws_meta)->Ok_0;
        let manifest = workspace::loaded_manifest(last, ws_meta)->Ok_0;
        let loaded = workspace::loaded_members(members, ws_meta)->Ok_0;
        lemma_entries(before, PathModel { text: last.dir }, manifest);
        assert forall|k: int| 0 <= k < loaded.len() implies was_loaded_from(
            #[trigger] loaded[k],
            members,
            ws_meta,
        ) by {
            if before.contains(loaded[k]) {
                let m = choose|m: int| 0 <= m < before.len() && before[m] == loaded[k];
                assert(was_loaded_from(before[m], fewer, ws_meta));
                let i = choose|i: int|
                    0 <= i < fewer.len() && #[trigger] was_loaded(before[m], fewer[i], ws_meta);
                assert(was_loaded(loaded[k], members[i], ws_meta));
            } else {
                assert(was_loaded(loaded[k], members[n], ws_meta));
            }
        }
    }
}

proof fn lemma_loaded_member(
    members: Seq<LoadedMemberView>,
    ws_meta: WorkspaceMetadataView,
    i: int,
)
    requires
        0 <= i < members.len(),
        forall|j: int|
            i < j < members.len() ==> !same_path(members[i].dir, (#[trigger] members[j]).dir),
    ensures
        workspace::loaded_members(members, ws_meta) matches Ok(loaded) ==> exists|k: int|
            0 <= k < loaded.len() && #[trigger] was_loaded(loaded[k], members[i], ws_meta),
    decreases members.len(),
{
    if workspace::loaded_members(members, ws_meta) is Ok {
        let fewer = members.drop_last();
        let last = members.last();
        lemma_loaded_members(fewer, ws_meta);
        let before = workspace::loaded_members(fewer, ws_meta)->Ok_0;
        let manifest = workspace::loaded_manifest(last, ws_meta)->Ok_0;
        let loaded = workspace::loaded_members(members, ws_meta)->Ok_0;
        let key = PathModel { text: last.dir };
        lemma_entries(before, key, manifest);
        if i < fewer.len() {
            assert(fewer[i] == members[i]);
            assert(!same_path(members[i].dir, members[members.len() - 1].dir));
            assert forall|j: int| i < j < fewer.len() implies !same_path(
                fewer[i].dir,
                (#[trigger] fewer[j]).dir,
            ) by {
                assert(fewer[j] == members[j]);
            }
            lemma_loaded_member(fewer, ws_meta, i);
            let n = choose|n: int|
                0 <= n < before.len() && #[trigger] was_loaded(before[n], fewer[i], ws_meta);
            assert(loaded.contains(before[n]));
            let k = choose|k: int| 0 <= k < loaded.len() && loaded[k] == before[n];
            assert(was_loaded(loaded[k], members[i], ws_meta));
        } else {
            let k = choose|k: int|
                0 <= k < loaded.len() && same_path((#[trigger] loaded[k]).0.text, key.text)
                    && loaded[k].1 == manifest;
            assert(was_loaded(loaded[k], members[i], ws_meta));
        }
    }
}

proof fn lemma_not_loaded(members: Seq<LoadedMemberView>, ws_meta: WorkspaceMetadataView)
    ensures
        workspace::loaded_members(members, ws_meta) matches Err(found) ==> {
            &&& found is Member
            &&& exists|i: int|
                {
                    &&& 0 <= i < members.len()
                    &&& (#[trigger] members[i]).dir == found->Member_dir
                    &&& workspace::loaded_manifest(members[i], ws_meta) == Err::<
                        ManifestView,
                        MemberErrorView,
                    >(found->Member_error)
                }
        },
        forall|i: int|
            0 <= i < members.len() && workspace::loaded_manifest(
                #[trigger] members[i],
                ws_meta,
            ) is Err ==> workspace::loaded_members(members, ws_meta) is Err,
    decreases members.len(),
{
    if members.len() > 0 {
        let fewer = members.drop_last();
        lemma_not_loaded(fewer, ws_meta);
        assert(members[members.len() - 1] == members.last());
        if let Err(found) = workspace::loaded_members(fewer, ws_meta) {
            let i = choose|i: int|
                {
                    &&& 0 <= i < fewer.len()
                    &&& (#[trigger] fewer[i]).dir == found->Member_dir
                    &&& workspace::loaded_manifest(fewer[i], ws_meta) == Err::<
                        ManifestView,
                        MemberErrorView,
                    >(found->Member_error)
                };
            assert(members[i] == fewer[i]);
        }
        assert forall|i: int|
            0 <= i < members.len() && workspace::loaded_manifest(
                #[trigger] members[i],
                ws_meta,
            ) is Err implies workspace::loaded_members(members, ws_meta) is Err by {
            if i < fewer.len() {
                assert(fewer[i] == members[i]);
            }
        }
    }
}

/// A workspace that is loaded has the members that were read, each with the
/// fields of its own manifest and with what it takes over, and the root where that
/// is a package. It has no others.
pub proof fn law_workspaces_hold_what_was_read(
    root: Seq<char>,
    project: ProjectManifestView,
    ws_meta: WorkspaceMetadataView,
    members: Seq<LoadedMemberView>,
)
    requires
        ordered::ascending(ordered::keys_of(ws_meta.dependencies)),
    ensures
        workspace::workspace_of(root, project, ws_meta, members) matches Ok(loaded) ==> {
            &&& loaded.root == root
            &&& loaded.place == ws_meta.place
            &&& loaded.default_member == ws_meta.default_member
            &&& !loaded.single_package
            &&& ws_meta.registry is Some ==> ws_meta.registry == Some(loaded.registry)
            &&& ws_meta.registry is None ==> project.package is Some
                && project.package->Some_0.registry == loaded.registry
            &&& forall|k: int|
                0 <= k < loaded.members.len() ==> is_root_member(
                    #[trigger] loaded.members[k],
                    root,
                    project,
                    ws_meta,
                ) || exists|i: int|
                    0 <= i < members.len() && was_read(
                        loaded.members[k],
                        #[trigger] members[i],
                        ws_meta,
                    )
            &&& forall|i: int|
                #![trigger members[i]]
                0 <= i < members.len() && (forall|j: int|
                    i < j < members.len() ==> !same_path(
                        members[i].dir,
                        (#[trigger] members[j]).dir,
                    )) && !(project.package is Some && same_path(members[i].dir, root))
                    ==> exists|k: int|
                    0 <= k < loaded.members.len() && was_read(
                        #[trigger] loaded.members[k],
                        members[i],
                        ws_meta,
                    )
            &&& project.package is Some ==> exists|k: int|
                0 <= k < loaded.members.len() && is_root_member(
                    #[trigger] loaded.members[k],
                    root,
                    project,
                    ws_meta,
                )
        },
{
    if let Ok(loaded) = workspace::workspace_of(root, project, ws_meta, members) {
        lemma_loaded_members(members, ws_meta);
        let before = workspace::loaded_members(members, ws_meta)->Ok_0;
        let all = loaded.members;
        assert forall|k: int| 0 <= k < before.len() implies exists|i: int|
            0 <= i < members.len() && was_read(
                #[trigger] before[k],
                #[trigger] members[i],
                ws_meta,
            ) by {
            assert(was_loaded_from(before[k], members, ws_meta));
            let i = choose|i: int|
                0 <= i < members.len() && #[trigger] was_loaded(before[k], members[i], ws_meta);
            lemma_was_loaded(before[k], members[i], ws_meta);
        }
        assert forall|i: int|
            #![trigger members[i]]
            0 <= i < members.len() && (forall|j: int|
                i < j < members.len() ==> !same_path(
                    members[i].dir,
                    (#[trigger] members[j]).dir,
                )) implies exists|k: int|
            0 <= k < before.len() && was_read(#[trigger] before[k], members[i], ws_meta) by {
            lemma_loaded_member(members, ws_meta, i);
            let k = choose|k: int|
                0 <= k < before.len() && #[trigger] was_loaded(before[k], members[i], ws_meta);
            lemma_was_loaded(before[k], members[i], ws_meta);
        }
        if let Some(package) = project.package {
            let manifest = workspace::root_manifest(package, project, ws_meta)->Ok_0;
            let key = PathModel { text: root };
            lemma_entries(before, key, manifest);
            assert forall|k: int| 0 <= k < all.len() implies is_root_member(
                #[trigger] all[k],
                root,
                project,
                ws_meta,
            ) || exists|i: int|
                0 <= i < members.len() && was_read(all[k], #[trigger] members[i], ws_meta) by {
                if before.contains(all[k]) {
                    let n = choose|n: int| 0 <= n < before.len() && before[n] == all[k];
                    let i = choose|i: int|
                        0 <= i < members.len() && was_read(
                            before[n],
                            #[trigger] members[i],
                            ws_meta,
                        );
                    assert(was_read(all[k], members[i], ws_meta));
                } else {
                    lemma_root_member(all[k], root, package, project, ws_meta);
                }
            }
            assert forall|i: int|
                #![trigger members[i]]
                0 <= i < members.len() && (forall|j: int|
                    i < j < members.len() ==> !same_path(
                        members[i].dir,
                        (#[trigger] members[j]).dir,
                    )) && !same_path(members[i].dir, root) implies exists|k: int|
                0 <= k < all.len() && was_read(#[trigger] all[k], members[i], ws_meta) by {
                let n = choose|n: int|
                    0 <= n < before.len() && was_read(#[trigger] before[n], members[i], ws_meta);
                assert(all.contains(before[n]));
                let k = choose|k: int| 0 <= k < all.len() && all[k] == before[n];
                assert(was_read(all[k], members[i], ws_meta));
            }
            let k = choose|k: int|
                0 <= k < all.len() && same_path((#[trigger] all[k]).0.text, root) && all[k].1
                    == manifest;
            lemma_root_member(all[k], root, package, project, ws_meta);
        }
    }
}

/// A workspace is not loaded only for a reason: a member could not be loaded,
/// there are none, no registry is given, two members have the same name, or the
/// default member is none.
pub proof fn law_workspace_errors_have_a_reason(
    root: Seq<char>,
    project: ProjectManifestView,
    ws_meta: WorkspaceMetadataView,
    members: Seq<LoadedMemberView>,
)
    requires
        ordered::ascending(ordered::keys_of(ws_meta.dependencies)),
    ensures
        match workspace::workspace_of(root, project, ws_meta, members) {
            Ok(_) => true,
            Err(WorkspaceErrorView::Member { dir, error }) => {
                ||| dir == root && project.package is Some && forall|manifest: ManifestView|
                    !is_root_member(
                        (PathModel { text: root }, manifest),
                        root,
                        project,
                        ws_meta,
                    )
                ||| exists|i: int|
                    {
                        &&& 0 <= i < members.len()
                        &&& (#[trigger] members[i]).dir == dir
                        &&& members[i].manifest matches Ok(raw) ==> forall|manifest: ManifestView|
                            !is_taken_over(raw, ws_meta, manifest)
                        &&& members[i].manifest matches Err(reason) ==> error
                            == MemberErrorView::Unreadable(reason)
                    }
            },
            Err(WorkspaceErrorView::NoMembers) => members.len() == 0 && project.package is None,
            Err(WorkspaceErrorView::NoRegistry) => ws_meta.registry is None && project.package
                is None && members.len() > 0,
            Err(WorkspaceErrorView::DuplicateName { name, first, second }) => exists|
                all: MembersView,
                i: int,
                j: int,
            |
                {
                    &&& workspace::all_members(root, project, ws_meta, members) == Ok::<
                        MembersView,
                        WorkspaceErrorView,
                    >(all)
                    &&& 0 <= i < j < all.len()
                    &&& (#[trigger] all[i]).1.package.name == name
                    &&& (#[trigger] all[j]).1.package.name == name
                    &&& all[i].0.text == first
                    &&& all[j].0.text == second
                },
            Err(WorkspaceErrorView::NoDefaultMember(name)) => {
                &&& ws_meta.default_member == Some(name)
                &&& workspace::all_members(root, project, ws_meta, members) matches Ok(all)
                    && forall|k: int|
                    0 <= k < all.len() ==> (#[trigger] all[k]).1.package.name != name
            },
            Err(WorkspaceErrorView::NoSection) => false,
        },
        ws_meta.registry is None && project.package is None
            ==> workspace::workspace_of(root, project, ws_meta, members) is Err,
{
    lemma_loaded_members(members, ws_meta);
    lemma_not_loaded(members, ws_meta);
    if let Err(found) = workspace::loaded_members(members, ws_meta) {
        let i = choose|i: int|
            {
                &&& 0 <= i < members.len()
                &&& (#[trigger] members[i]).dir == found->Member_dir
                &&& workspace::loaded_manifest(members[i], ws_meta) == Err::<
                    ManifestView,
                    MemberErrorView,
                >(found->Member_error)
            };
        if let Ok(raw) = members[i].manifest {
            assert forall|manifest: ManifestView| !is_taken_over(raw, ws_meta, manifest) by {
                law_members_keep_and_take_over(raw, ws_meta, manifest);
            }
        }
        assert(members[i].dir == found->Member_dir);
    } else if let Some(package) = project.package {
        if workspace::root_manifest(package, project, ws_meta) is Err {
            assert forall|manifest: ManifestView| !is_root_member(
                (PathModel { text: root }, manifest),
                root,
                project,
                ws_meta,
            ) by {
                lemma_root_member(
                    (PathModel { text: root }, manifest),
                    root,
                    package,
                    project,
                    ws_meta,
                );
            }
        }
    }
    if let Ok(all) = workspace::all_members(root, project, ws_meta, members) {
        if let Some(package) = project.package {
            let before = workspace::loaded_members(members, ws_meta)->Ok_0;
            lemma_entries(
                before,
                PathModel { text: root },
                workspace::root_manifest(package, project, ws_meta)->Ok_0,
            );
        }
        lemma_first_duplicate(all, 0);
        let at = workspace::first_duplicate(all, 0);
        if at < all.len() {
            workspace::lemma_name_index(all, all[at].1.package.name, 0);
            let first = workspace::name_index(all, all[at].1.package.name, 0);
            assert(all[first].1.package.name == all[at].1.package.name);
        }
        if let Some(name) = ws_meta.default_member {
            workspace::lemma_name_index(all, name, 0);
        }
    }
}

proof fn lemma_first_duplicate(members: MembersView, from: int)
    requires
        0 <= from <= members.len(),
    ensures
        ({
            let at = workspace::first_duplicate(members, from);
            &&& from <= at <= members.len()
            &&& at < members.len() ==> workspace::name_index(
                members,
                members[at].1.package.name,
                0,
            ) < at
        }),
    decreases members.len() - from,
{
    if from < members.len() && workspace::name_index(
        members,
        members[from].1.package.name,
        0,
    ) >= from {
        lemma_first_duplicate(members, from + 1);
    }
}

/// Of a project without a workspace, the only member is the project itself, with
/// everything that its manifest says.
pub proof fn law_single_packages_hold_what_was_read(
    root: Seq<char>,
    package: PackageView,
    project: ProjectManifestView,
)
    ensures
        ({
            let loaded = workspace::single_package_workspace(root, package, project);
            &&& loaded.root == root
            &&& loaded.single_package
            &&& loaded.default_member is None
            &&& loaded.registry == package.registry
            &&& loaded.place == project.place
            &&& loaded.members.len() == 1
            &&& loaded.members[0].0.text == root
            &&& loaded.members[0].1.package == package
            &&& loaded.members[0].1.place == project.place
            &&& loaded.members[0].1.dependencies == project.dependencies
            &&& loaded.members[0].1.server_dependencies == project.server_dependencies
            &&& loaded.members[0].1.dev_dependencies == project.dev_dependencies
        }),
{
}

/// The member in a directory is the one whose own directory it is or, where it is
/// none's, the one whose directory the file system leads it to.
pub proof fn law_members_are_found_by_directory(
    members: MembersView,
    dir: Seq<char>,
    canonical: workspace::CanonicalPathsView,
    manifest: ManifestView,
)
    requires
        ordered::ascending(ordered::keys_of(members)),
        ordered::ascending(ordered::keys_of(canonical)),
    ensures
        workspace::member_at(members, dir, canonical) == Some(manifest) <==> is_found(
            members,
            dir,
            canonical,
            manifest,
        ),
{
    lemma_stands_at(members, dir);
    let keys = ordered::keys_of(canonical);
    let key = PathModel { text: dir };
    ordered::lemma_place_exists(keys, key);
    let at = ordered::place(keys, key);
    assert forall|c: int| 0 <= c < canonical.len() implies (same_path(
        (#[trigger] canonical[c]).0.text,
        dir,
    ) <==> ordered::holds(keys, key) && c == at) by {
        path::lemma_path_key_injective(path::path_of(canonical[c].0.text), path::path_of(dir));
        assert(keys[c] == canonical[c].0);
        if same_path(canonical[c].0.text, dir) {
            assert(ordered::holds(keys, key));
            ordered::lemma_index_unique(keys, c, at);
        } else if ordered::holds(keys, key) && c == at {
            assert(keys[c].sort_key() == key.sort_key());
        }
    }
    if ordered::holds(keys, key) {
        lemma_stands_at(members, canonical[at].1);
        assert(same_path(canonical[at].0.text, dir));
        if stands_at(members, canonical[at].1, manifest) {
        }
    }
    if stands_at(members, dir, manifest) {
        let k = choose|k: int|
            0 <= k < members.len() && same_path((#[trigger] members[k]).0.text, dir)
                && members[k].1 == manifest;
    }
}

/// A member stands in a directory or, where none does, where the file system
/// leads the directory to.
pub open spec fn is_found(
    members: MembersView,
    dir: Seq<char>,
    canonical: workspace::CanonicalPathsView,
    manifest: ManifestView,
) -> bool {
    stands_at(members, dir, manifest) || ((forall|k: int|
        0 <= k < members.len() ==> !same_path((#[trigger] members[k]).0.text, dir))
        && exists|c: int|
        0 <= c < canonical.len() && same_path((#[trigger] canonical[c]).0.text, dir) && stands_at(
            members,
            canonical[c].1,
            manifest,
        ))
}

/// A member stands in a directory.
pub open spec fn stands_at(members: MembersView, dir: Seq<char>, manifest: ManifestView) -> bool {
    exists|k: int|
        0 <= k < members.len() && same_path((#[trigger] members[k]).0.text, dir) && members[k].1
            == manifest
}

pub(crate) proof fn lemma_stands_at(members: MembersView, dir: Seq<char>)
    requires
        ordered::ascending(ordered::keys_of(members)),
    ensures
        ({
            let found = ordered::lookup(members, PathModel { text: dir });
            &&& found is None <==> forall|k: int|
                0 <= k < members.len() ==> !same_path((#[trigger] members[k]).0.text, dir)
            &&& forall|manifest: ManifestView| #[trigger]
                stands_at(members, dir, manifest) <==> found == Some(manifest)
        }),
{
    let keys = ordered::keys_of(members);
    let key = PathModel { text: dir };
    ordered::lemma_place_exists(keys, key);
    let at = ordered::place(keys, key);
    let found = ordered::lookup(members, key);
    assert forall|k: int| 0 <= k < members.len() implies (same_path(
        (#[trigger] members[k]).0.text,
        dir,
    ) <==> ordered::holds(keys, key) && k == at) by {
        path::lemma_path_key_injective(path::path_of(members[k].0.text), path::path_of(dir));
        assert(keys[k] == members[k].0);
        if same_path(members[k].0.text, dir) {
            assert(ordered::holds(keys, key));
            ordered::lemma_index_unique(keys, k, at);
        } else if ordered::holds(keys, key) && k == at {
            assert(keys[k].sort_key() == key.sort_key());
        }
    }
    assert forall|manifest: ManifestView| #[trigger]
        stands_at(members, dir, manifest) <==> found == Some(manifest) by {
        if found == Some(manifest) {
            assert(same_path(members[at].0.text, dir));
        }
    }
    if found is Some {
        assert(same_path(members[at].0.text, dir));
    }
}

} // verus!
