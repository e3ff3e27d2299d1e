//! What holds of every installation.

use vstd::prelude::*;

use crate::installation;
use crate::installation::{
    ActionView, InstallationView, LinkError, LinkFrom, PackageContainer, PlanView,
};
use crate::manifest::{ManifestView, Realm};
use crate::ordered;
use crate::package_id::PackageIdView;
use crate::package_name;
use crate::package_source::{PackageSourceIdView, PackageSourceMapView};
use crate::path;
use crate::resolution;
use crate::resolution::laws as resolution_laws;
use crate::resolution::met;
use crate::resolution::{ContextView, EdgesView, MetadataView, ResolveView, StateView};
use crate::text;
use crate::version;
use crate::workspace::{CanonicalPathsView, MembersView, WorkspaceView};

verus! {

// ---------------------------------------------------------------------------
// What was resolved can be installed
// ---------------------------------------------------------------------------

/// Members have a directory.
pub open spec fn members_have_dirs(metadata: Seq<(PackageIdView, MetadataView)>) -> bool {
    forall|i: int|
        0 <= i < metadata.len() && (#[trigger] metadata[i]).1.is_workspace_member
            ==> metadata[i].1.source_registry is Path
}

proof fn lemma_with_entry_dirs(
    metadata: Seq<(PackageIdView, MetadataView)>,
    id: PackageIdView,
    known: MetadataView,
)
    requires
        ordered::ascending(ordered::keys_of(metadata)),
        members_have_dirs(metadata),
        known.is_workspace_member ==> known.source_registry is Path,
    ensures
        members_have_dirs(ordered::with_entry(metadata, id, known)),
{
    ordered::lemma_with_entry_values(
        metadata,
        id,
        known,
        |known: MetadataView| known.is_workspace_member ==> known.source_registry is Path,
    );
}

proof fn lemma_run_dirs(state: StateView, context: ContextView)
    requires
        resolution_laws::is_state(state, context),
        members_have_dirs(state.resolve.metadata),
    ensures
        resolution::run(state, context) matches Ok(resolve) ==> members_have_dirs(
            resolve.metadata,
        ),
    decreases
            resolution::fresh(context.sources.answers, state.resolve.activated),
            state.queue.len(),
{
    if state.queue.len() > 0 {
        resolution::lemma_step_progress(state, context);
        resolution::lemma_step_sound(state, context);
        resolution_laws::lemma_step_shape(state, context);
        if let Ok(next) = resolution::step(state, context) {
            let request = state.queue[0];
            if exists|id: PackageIdView| #[trigger]
                resolution_laws::met_by_reuse(state, context, next, id) {
                let id = choose|id: PackageIdView| #[trigger]
                    resolution_laws::met_by_reuse(state, context, next, id);
                let known = resolution_laws::known(state.resolve, id);
                ordered::lemma_place_exists(ordered::keys_of(state.resolve.metadata), id);
                let at = ordered::place(ordered::keys_of(state.resolve.metadata), id);
                assert(state.resolve.metadata[at].1 == known);
                let origin_realm = resolution::merged_realm(
                    known.origin_realm,
                    request.origin_realm,
                );
                lemma_with_entry_dirs(
                    state.resolve.metadata,
                    id,
                    MetadataView { origin_realm, ..known },
                );
            } else {
                let candidate = choose|candidate: ManifestView| #[trigger]
                    resolution_laws::met_by_candidate(state, context, next, candidate);
                let found = resolution::find_source(
                    context.sources,
                    request.kind->Registry_0,
                    0,
                );
                lemma_with_entry_dirs(
                    state.resolve.metadata,
                    candidate.package_id(),
                    MetadataView {
                        realm: candidate.package.realm,
                        origin_realm: request.origin_realm,
                        source_registry: found->At_0,
                        is_workspace_member: false,
                    },
                );
            }
            lemma_run_dirs(next, context);
        }
    }
}

proof fn lemma_closed_targets(resolve: ResolveView, realm: Realm, id: PackageIdView)
    requires
        resolve.is_sound(),
        resolution_laws::is_closed(resolve),
    ensures
        installation::targets_known(resolve, resolve.graph(realm), id),
{
    let graph = resolve.graph(realm);
    let edges = resolution::edges_of(graph, id);
    assert(resolution_laws::graph_fits(resolve, realm, graph));
    resolution_laws::lemma_edges_of_fit(resolve, realm, graph, id);
    assert forall|j: int| 0 <= j < edges.len() implies ordered::holds(
        ordered::keys_of(resolve.metadata),
        (#[trigger] edges[j]).1,
    ) by {
        assert(resolution_laws::edge_fits(resolve, realm, edges[j].1));
    }
}

proof fn lemma_installable(roots: Seq<PackageIdView>, resolve: ResolveView)
    requires
        resolve.is_sound(),
        resolution_laws::is_closed(resolve),
        members_have_dirs(resolve.metadata),
    ensures
        installation::is_installable(roots, resolve),
{
    let keys = ordered::keys_of(resolve.metadata);
    assert forall|i: int| 0 <= i < resolve.activated.len() implies installation::is_ready(
        roots,
        resolve,
        #[trigger] resolve.activated[i],
    ) by {
        let id = resolve.activated[i];
        lemma_closed_targets(resolve, Realm::Shared, id);
        lemma_closed_targets(resolve, Realm::Server, id);
        lemma_closed_targets(resolve, Realm::Dev, id);
        assert(keys[i] == id);
        ordered::lemma_place_exists(keys, id);
        assert(resolve.metadata[ordered::place(keys, id)].1 == ordered::lookup(
            resolve.metadata,
            id,
        )->Some_0);
    }
}

/// What comes out of resolution keeps the directories of members.
proof fn lemma_outcome_dirs(state: StateView, context: ContextView)
    requires
        resolution_laws::is_state(state, context),
        members_have_dirs(state.resolve.metadata),
    ensures
        resolution::outcome(state, context) matches Ok(resolve) ==> members_have_dirs(
            resolve.metadata,
        ),
{
    lemma_run_dirs(state, context);
    resolution_laws::lemma_outcome(state, context);
    if let Ok(before) = resolution::run(state, context) {
        let after = resolution::outcome(state, context)->Ok_0;
        assert(ordered::keys_of(after.metadata).len() == ordered::keys_of(before.metadata).len());
        assert forall|i: int|
            0 <= i < after.metadata.len() && (
            #[trigger] after.metadata[i]).1.is_workspace_member implies
            after.metadata[i].1.source_registry is Path by {
            assert(resolution_laws::is_kept(before.metadata[i].1, after.metadata[i].1));
        }
    }
}

/// What was resolved for a workspace can be installed, whichever the roots are.
pub proof fn law_resolved_workspace_is_installable(
    roots: Seq<PackageIdView>,
    workspace: WorkspaceView,
    try_to_use: Seq<PackageIdView>,
    sources: PackageSourceMapView,
    canonical: CanonicalPathsView,
)
    requires
        sources.answers_fit(),
        workspace.is_sound(),
    ensures
        resolution::outcome(
            resolution::workspace_start(workspace.members),
            resolution_laws::workspace_context(workspace, try_to_use, sources, canonical),
        ) matches Ok(resolve) ==> installation::is_installable(roots, resolve),
{
    let start = resolution::workspace_start(workspace.members);
    let context = resolution_laws::workspace_context(workspace, try_to_use, sources, canonical);
    resolution_laws::law_workspace_graph_is_sound(workspace, try_to_use, sources, canonical);
    resolution_laws::law_workspace_dependencies_are_chosen(
        workspace,
        try_to_use,
        sources,
        canonical,
    );
    resolution_laws::lemma_workspace_is_state(workspace, try_to_use, sources, canonical);
    lemma_workspace_start_dirs(workspace.members);
    lemma_outcome_dirs(start, context);
    if let Ok(resolve) = resolution::outcome(start, context) {
        lemma_installable(roots, resolve);
    }
}

proof fn lemma_workspace_start_dirs(members: MembersView)
    ensures
        members_have_dirs(resolution::workspace_start(members).resolve.metadata),
    decreases members.len(),
{
    if members.len() > 0 {
        let fewer = members.drop_last();
        let (dir, manifest) = members.last();
        lemma_workspace_start_dirs(fewer);
        resolution::lemma_workspace_start(fewer);
        lemma_with_entry_dirs(
            resolution::workspace_start(fewer).resolve.metadata,
            manifest.package_id(),
            resolution::root_metadata(manifest, PackageSourceIdView::Path(dir.text), true),
        );
    }
}

/// What was resolved for a single package can be installed, whichever the roots
/// are.
pub proof fn law_resolved_package_is_installable(
    roots: Seq<PackageIdView>,
    manifest: ManifestView,
    try_to_use: Seq<PackageIdView>,
    sources: PackageSourceMapView,
)
    requires
        sources.answers_fit(),
    ensures
        resolution::outcome(
            resolution::package_start(manifest),
            resolution::package_context(try_to_use, sources),
        ) matches Ok(resolve) ==> installation::is_installable(roots, resolve),
{
    let start = resolution::package_start(manifest);
    let context = resolution::package_context(try_to_use, sources);
    resolution_laws::law_package_graph_is_sound(manifest, try_to_use, sources);
    resolution_laws::law_package_dependencies_are_chosen(manifest, try_to_use, sources);
    resolution_laws::lemma_package_start(manifest, try_to_use, sources);
    lemma_outcome_dirs(start, context);
    if let Ok(resolve) = resolution::outcome(start, context) {
        lemma_installable(roots, resolve);
    }
}

// ---------------------------------------------------------------------------
// Links of roots
// ---------------------------------------------------------------------------

/// A package that originates from the dev realm is linked from there.
spec fn is_linked_within_dev(resolve: ResolveView, realm: Realm, target: PackageIdView) -> bool {
    resolution_laws::known(resolve, target).origin_realm == Realm::Dev ==> realm == Realm::Dev
}

proof fn lemma_links_no_dev(
    context: InstallationView,
    from: LinkFrom,
    realm: Realm,
    base: Seq<char>,
    edges: EdgesView,
    resolve: ResolveView,
)
    requires
        forall|j: int|
            0 <= j < edges.len() ==> is_linked_within_dev(
                resolve,
                realm,
                (#[trigger] edges[j]).1,
            ),
    ensures
        installation::links(context, from, realm, base, edges, resolve).error != Some(
            LinkError::DevDependency,
        ),
    decreases edges.len(),
{
    if edges.len() > 0 {
        let fewer = edges.drop_last();
        assert forall|j: int| 0 <= j < fewer.len() implies is_linked_within_dev(
            resolve,
            realm,
            (#[trigger] fewer[j]).1,
        ) by {
            assert(fewer[j] == edges[j]);
        }
        lemma_links_no_dev(context, from, realm, base, fewer, resolve);
        assert(is_linked_within_dev(resolve, realm, edges[edges.len() - 1].1));
    }
}

proof fn lemma_links_of_no_dev(
    context: InstallationView,
    realm: Realm,
    base: Seq<char>,
    id: PackageIdView,
    resolve: ResolveView,
)
    requires
        resolution_laws::is_closed(resolve),
    ensures
        installation::links_of(
            context,
            LinkFrom::Root,
            realm,
            base,
            resolve.graph(realm),
            id,
            resolve,
        ).error != Some(LinkError::DevDependency),
{
    let graph = resolve.graph(realm);
    assert(resolution_laws::graph_fits(resolve, realm, graph));
    if let Some(edges) = ordered::lookup(graph, id) {
        resolution_laws::lemma_edges_of_fit(resolve, realm, graph, id);
        assert forall|j: int| 0 <= j < edges.len() implies is_linked_within_dev(
            resolve,
            realm,
            (#[trigger] edges[j]).1,
        ) by {
            assert(resolution_laws::edge_fits(resolve, realm, edges[j].1));
        }
        lemma_links_no_dev(context, LinkFrom::Root, realm, base, edges, resolve);
    }
}

/// In what was resolved, no top-level link of a root is refused because a
/// package outside the dev realm depends on one inside.
pub proof fn law_roots_never_link_across_dev(
    context: InstallationView,
    resolve: ResolveView,
    id: PackageIdView,
)
    requires
        resolution_laws::is_closed(resolve),
    ensures
        installation::root_links(context, resolve, id).error != Some(LinkError::DevDependency),
{
    lemma_links_of_no_dev(context, Realm::Shared, context.shared_dir, id, resolve);
    lemma_links_of_no_dev(context, Realm::Server, context.server_dir, id, resolve);
    lemma_links_of_no_dev(context, Realm::Dev, context.dev_dir, id, resolve);
}

proof fn lemma_package_links_no_dev(
    context: InstallationView,
    resolve: ResolveView,
    id: PackageIdView,
    found: ManifestView,
    asked: ContextView,
    graph_realm: Realm,
    from: LinkFrom,
    base: Seq<char>,
)
    requires
        resolution_laws::is_closed(resolve),
        met::own_edges_fit(
            resolve,
            id,
            resolution::transitive_requests(found, Realm::Shared),
            asked,
        ),
    ensures
        installation::links_of(
            context,
            from,
            resolution_laws::known(resolve, id).origin_realm,
            base,
            resolve.graph(graph_realm),
            id,
            resolve,
        ).error != Some(LinkError::DevDependency),
{
    let graph = resolve.graph(graph_realm);
    let realm = resolution_laws::known(resolve, id).origin_realm;
    let requests = resolution::transitive_requests(found, Realm::Shared);
    assert(resolution_laws::graph_fits(resolve, graph_realm, graph));
    if let Some(edges) = ordered::lookup(graph, id) {
        let keys = ordered::keys_of(edges);
        resolution_laws::lemma_edges_of_fit(resolve, graph_realm, graph, id);
        assert forall|j: int| 0 <= j < edges.len() implies is_linked_within_dev(
            resolve,
            realm,
            (#[trigger] edges[j]).1,
        ) by {
            let (alias, target) = edges[j];
            assert(keys[j] == alias);
            assert(ordered::holds(keys, alias));
            ordered::lemma_place_exists(keys, alias);
            ordered::lemma_index_unique(keys, j, ordered::place(keys, alias));
            assert(met::edge(resolve, graph_realm, id, alias) == Some(target));
            let i = choose|i: int|
                {
                    &&& 0 <= i < requests.len()
                    &&& (#[trigger] requests[i]).alias == alias
                    &&& met::meets(target, requests[i].kind, asked)
                    &&& resolution::merged_realm(
                        resolution_laws::known(resolve, target).origin_realm,
                        resolution::passed_on(realm, requests[i].realm),
                    ) == resolution_laws::known(resolve, target).origin_realm
                };
            assert(requests[i].realm != Realm::Dev);
        }
        lemma_links_no_dev(context, from, realm, base, edges, resolve);
    }
}

/// In what was resolved, no link of a package that was found is refused because a
/// package outside the dev realm depends on one inside.
pub proof fn law_packages_never_link_across_dev(
    context: InstallationView,
    resolve: ResolveView,
    id: PackageIdView,
    found: ManifestView,
    asked: ContextView,
)
    requires
        resolution_laws::is_closed(resolve),
        met::is_supported(resolve, asked, id, found),
    ensures
        installation::package_links(context, resolve, id).error != Some(LinkError::DevDependency),
{
    let realm = resolution_laws::known(resolve, id).origin_realm;
    let container = installation::container_of(resolve, id);
    let from = LinkFrom::Package(container);
    let base = context.package_dir(realm, container, id);
    lemma_package_links_no_dev(context, resolve, id, found, asked, Realm::Shared, from, base);
    lemma_package_links_no_dev(context, resolve, id, found, asked, Realm::Server, from, base);
    lemma_package_links_no_dev(context, resolve, id, found, asked, Realm::Dev, from, base);
}

// ---------------------------------------------------------------------------
// Downloads
// ---------------------------------------------------------------------------

/// How many of the actions are downloads.
pub open spec fn downloads_in(actions: Seq<ActionView>) -> nat
    decreases actions.len(),
{
    if actions.len() == 0 {
        0
    } else {
        downloads_in(actions.drop_last()) + if actions.last() is Download {
            1nat
        } else {
            0nat
        }
    }
}

/// An action that puts a package into its container is due: the package is one
/// of `ids` and not the only root; it is downloaded if it comes from a registry
/// and linked if it is a workspace member.
pub open spec fn is_due(
    action: ActionView,
    roots: Seq<PackageIdView>,
    resolve: ResolveView,
    ids: Seq<PackageIdView>,
) -> bool {
    match action {
        ActionView::Download { id, .. } => ids.contains(id) && installation::is_downloaded(
            roots,
            resolve,
            id,
        ),
        ActionView::LinkMember { id, .. } => ids.contains(id) && !installation::is_sole_root(
            roots,
            id,
        ) && installation::container_of(resolve, id) == PackageContainer::Workspace,
        _ => true,
    }
}

/// All actions only create directories and write files.
spec fn only_files(actions: Seq<ActionView>) -> bool {
    forall|i: int|
        0 <= i < actions.len() ==> (#[trigger] actions[i]) is CreateDir || actions[i] is WriteFile
}

proof fn lemma_downloads_concat(a: Seq<ActionView>, b: Seq<ActionView>)
    ensures
        downloads_in(a + b) == downloads_in(a) + downloads_in(b),
    decreases b.len(),
{
    if b.len() == 0 {
        assert(a + b =~= a);
    } else {
        assert((a + b).drop_last() =~= a + b.drop_last());
        lemma_downloads_concat(a, b.drop_last());
    }
}

proof fn lemma_files_no_downloads(actions: Seq<ActionView>)
    requires
        only_files(actions),
    ensures
        downloads_in(actions) == 0,
    decreases actions.len(),
{
    if actions.len() > 0 {
        let fewer = actions.drop_last();
        assert forall|i: int| 0 <= i < fewer.len() implies (
        #[trigger] fewer[i]) is CreateDir || fewer[i] is WriteFile by {
            assert(fewer[i] == actions[i]);
        }
        lemma_files_no_downloads(fewer);
        assert(actions[actions.len() - 1] is CreateDir || actions[actions.len() - 1] is WriteFile);
    }
}

proof fn lemma_links_files(
    context: InstallationView,
    from: LinkFrom,
    realm: Realm,
    base: Seq<char>,
    edges: EdgesView,
    resolve: ResolveView,
)
    ensures
        only_files(installation::links(context, from, realm, base, edges, resolve).actions),
    decreases edges.len(),
{
    if edges.len() > 0 {
        lemma_links_files(context, from, realm, base, edges.drop_last(), resolve);
    }
}

proof fn lemma_all_links_files(
    context: InstallationView,
    from: LinkFrom,
    shared: (Realm, Seq<char>),
    server: (Realm, Seq<char>),
    dev: (Realm, Seq<char>),
    resolve: ResolveView,
    id: PackageIdView,
)
    ensures
        only_files(
            installation::all_links(context, from, shared, server, dev, resolve, id).actions,
        ),
{
    if let Some(edges) = ordered::lookup(resolve.shared_dependencies, id) {
        lemma_links_files(context, from, shared.0, shared.1, edges, resolve);
    }
    if let Some(edges) = ordered::lookup(resolve.server_dependencies, id) {
        lemma_links_files(context, from, server.0, server.1, edges, resolve);
    }
    if let Some(edges) = ordered::lookup(resolve.dev_dependencies, id) {
        lemma_links_files(context, from, dev.0, dev.1, edges, resolve);
    }
}

proof fn lemma_package_plan(
    context: InstallationView,
    roots: Seq<PackageIdView>,
    resolve: ResolveView,
    id: PackageIdView,
)
    requires
        ordered::lookup(resolve.metadata, id) is Some,
    ensures
        ({
            let plan = installation::package_plan(context, roots, resolve, id);
            &&& plan.error is None ==> downloads_in(plan.actions)
                == if installation::is_downloaded(roots, resolve, id) {
                1nat
            } else {
                0nat
            }
            &&& forall|k: int|
                0 <= k < plan.actions.len() ==> is_due(
                    #[trigger] plan.actions[k],
                    roots,
                    resolve,
                    seq![id],
                )
        }),
{
    let plan = installation::package_plan(context, roots, resolve, id);
    let realm = ordered::lookup(resolve.metadata, id)->Some_0.origin_realm;
    let container = installation::container_of(resolve, id);
    let base = context.package_dir(realm, container, id);
    lemma_all_links_files(
        context,
        LinkFrom::Root,
        (Realm::Shared, context.shared_dir),
        (Realm::Server, context.server_dir),
        (Realm::Dev, context.dev_dir),
        resolve,
        id,
    );
    lemma_all_links_files(
        context,
        LinkFrom::Package(container),
        (realm, base),
        (realm, base),
        (realm, base),
        resolve,
        id,
    );
    let top = if ordered::holds(roots, id) {
        installation::root_links(context, resolve, id)
    } else {
        PlanView::nothing()
    };
    assert(only_files(top.actions));
    let inside = installation::package_links(context, resolve, id);
    let files = top.followed_by(inside);
    assert(only_files(files.actions));
    let entry = installation::entry(context, resolve, id);
    assert(seq![id].contains(id)) by {
        assert(seq![id][0] == id);
    }
    if installation::is_sole_root(roots, id) {
        lemma_files_no_downloads(top.actions);
    } else {
        lemma_files_no_downloads(files.actions);
        lemma_downloads_concat(files.actions, seq![entry]);
        assert(seq![entry].drop_last() =~= Seq::<ActionView>::empty());
        assert(downloads_in(seq![entry].drop_last()) == 0);
        assert(is_due(entry, roots, resolve, seq![id]));
        assert forall|k: int| 0 <= k < plan.actions.len() implies is_due(
            #[trigger] plan.actions[k],
            roots,
            resolve,
            seq![id],
        ) by {
            if k < files.actions.len() {
                assert(plan.actions[k] == files.actions[k]);
            } else {
                assert(plan.actions[k] == entry);
            }
        }
    }
}

proof fn lemma_plan(
    context: InstallationView,
    roots: Seq<PackageIdView>,
    resolve: ResolveView,
    ids: Seq<PackageIdView>,
)
    requires
        forall|i: int|
            0 <= i < ids.len() ==> ordered::lookup(resolve.metadata, #[trigger] ids[i]) is Some,
    ensures
        ({
            let plan = installation::plan_of(context, roots, resolve, ids);
            &&& plan.error is None ==> downloads_in(plan.actions) == installation::downloads(
                roots,
                resolve,
                ids,
            )
            &&& forall|k: int|
                0 <= k < plan.actions.len() ==> is_due(
                    #[trigger] plan.actions[k],
                    roots,
                    resolve,
                    ids,
                )
        }),
    decreases ids.len(),
{
    if ids.len() > 0 {
        let fewer = ids.drop_last();
        let last = ids.last();
        assert forall|i: int| 0 <= i < fewer.len() implies ordered::lookup(
            resolve.metadata,
            #[trigger] fewer[i],
        ) is Some by {
            assert(fewer[i] == ids[i]);
        }
        lemma_plan(context, roots, resolve, fewer);
        assert(ids[ids.len() - 1] == last);
        lemma_package_plan(context, roots, resolve, last);
        let before = installation::plan_of(context, roots, resolve, fewer);
        let own = installation::package_plan(context, roots, resolve, last);
        let plan = installation::plan_of(context, roots, resolve, ids);
        lemma_downloads_concat(before.actions, own.actions);
        assert forall|k: int| 0 <= k < plan.actions.len() implies is_due(
            #[trigger] plan.actions[k],
            roots,
            resolve,
            ids,
        ) by {
            if k < before.actions.len() {
                assert(plan.actions[k] == before.actions[k]);
                assert(is_due(before.actions[k], roots, resolve, fewer));
                lemma_more_ids(plan.actions[k], roots, resolve, fewer, ids);
            } else {
                assert(plan.actions[k] == own.actions[k - before.actions.len()]);
                assert(is_due(
                    own.actions[k - before.actions.len()],
                    roots,
                    resolve,
                    seq![last],
                ));
                lemma_more_ids(plan.actions[k], roots, resolve, seq![last], ids);
            }
        }
    }
}

proof fn lemma_more_ids(
    action: ActionView,
    roots: Seq<PackageIdView>,
    resolve: ResolveView,
    ids: Seq<PackageIdView>,
    more: Seq<PackageIdView>,
)
    requires
        is_due(action, roots, resolve, ids),
        forall|i: int| 0 <= i < ids.len() ==> more.contains(#[trigger] ids[i]),
    ensures
        is_due(action, roots, resolve, more),
{
}

/// Only chosen packages are put into containers, never the only root; workspace
/// members are linked and never downloaded, all others are downloaded. Where no
/// link is refused, as many packages are downloaded as were counted.
pub proof fn law_packages_are_downloaded_once(
    context: InstallationView,
    roots: Seq<PackageIdView>,
    resolve: ResolveView,
)
    requires
        installation::is_installable(roots, resolve),
    ensures
        ({
            let plan = installation::plan_of(context, roots, resolve, resolve.activated);
            &&& plan.error is None ==> downloads_in(plan.actions) == installation::downloads(
                roots,
                resolve,
                resolve.activated,
            )
            &&& forall|k: int|
                0 <= k < plan.actions.len() ==> is_due(
                    #[trigger] plan.actions[k],
                    roots,
                    resolve,
                    resolve.activated,
                )
        }),
{
    lemma_plan(context, roots, resolve, resolve.activated);
}

// ---------------------------------------------------------------------------
// Every link is written
// ---------------------------------------------------------------------------

/// The action that writes the link to a dependency.
pub open spec fn link_action(
    context: InstallationView,
    from: LinkFrom,
    realm: Realm,
    base: Seq<char>,
    alias: Seq<char>,
    target: PackageIdView,
    resolve: ResolveView,
) -> ActionView {
    ActionView::WriteFile {
        path: path::join_text(base, alias + ".lua"@),
        contents: installation::link_contents(context, from, realm, resolve, target)->Ok_0,
    }
}

pub(crate) proof fn lemma_contains_concat(a: Seq<ActionView>, b: Seq<ActionView>, action: ActionView)
    ensures
        a.contains(action) ==> (a + b).contains(action),
        b.contains(action) ==> (a + b).contains(action),
{
    if a.contains(action) {
        let i = choose|i: int| 0 <= i < a.len() && a[i] == action;
        assert((a + b)[i] == action);
    }
    if b.contains(action) {
        let i = choose|i: int| 0 <= i < b.len() && b[i] == action;
        assert((a + b)[a.len() + i] == action);
    }
}

proof fn lemma_links_contain(
    context: InstallationView,
    from: LinkFrom,
    realm: Realm,
    base: Seq<char>,
    edges: EdgesView,
    resolve: ResolveView,
    j: int,
)
    requires
        installation::links(context, from, realm, base, edges, resolve).error is None,
        0 <= j < edges.len(),
    ensures
        installation::links(context, from, realm, base, edges, resolve).actions.contains(
            link_action(context, from, realm, base, edges[j].0, edges[j].1, resolve),
        ),
    decreases edges.len(),
{
    let fewer = edges.drop_last();
    let before = installation::links(context, from, realm, base, fewer, resolve);
    let plan = installation::links(context, from, realm, base, edges, resolve);
    let action = link_action(context, from, realm, base, edges[j].0, edges[j].1, resolve);
    if j < fewer.len() {
        assert(fewer[j] == edges[j]);
        lemma_links_contain(context, from, realm, base, fewer, resolve, j);
        let i = choose|i: int| 0 <= i < before.actions.len() && before.actions[i] == action;
        assert(plan.actions[i] == action);
    } else {
        assert(plan.actions[before.actions.len() as int] == action);
    }
}

proof fn lemma_all_links_contain(
    context: InstallationView,
    from: LinkFrom,
    shared: (Realm, Seq<char>),
    server: (Realm, Seq<char>),
    dev: (Realm, Seq<char>),
    resolve: ResolveView,
    id: PackageIdView,
    realm: Realm,
    j: int,
)
    requires
        installation::all_links(context, from, shared, server, dev, resolve, id).error is None,
        0 <= j < resolution::edges_of(resolve.graph(realm), id).len(),
    ensures
        ({
            let (alias, target) = resolution::edges_of(resolve.graph(realm), id)[j];
            let place = match realm {
                Realm::Shared => shared,
                Realm::Server => server,
                Realm::Dev => dev,
            };
            installation::all_links(
                context,
                from,
                shared,
                server,
                dev,
                resolve,
                id,
            ).actions.contains(
                link_action(context, from, place.0, place.1, alias, target, resolve),
            )
        }),
{
    let edges = resolution::edges_of(resolve.graph(realm), id);
    let (alias, target) = edges[j];
    let place = match realm {
        Realm::Shared => shared,
        Realm::Server => server,
        Realm::Dev => dev,
    };
    let action = link_action(context, from, place.0, place.1, alias, target, resolve);
    let a = installation::links_of(
        context,
        from,
        shared.0,
        shared.1,
        resolve.shared_dependencies,
        id,
        resolve,
    );
    let b = installation::links_of(
        context,
        from,
        server.0,
        server.1,
        resolve.server_dependencies,
        id,
        resolve,
    );
    let c = installation::links_of(
        context,
        from,
        dev.0,
        dev.1,
        resolve.dev_dependencies,
        id,
        resolve,
    );
    lemma_links_contain(context, from, place.0, place.1, edges, resolve, j);
    lemma_contains_concat(a.actions, b.actions, action);
    lemma_contains_concat(a.actions + b.actions, c.actions, action);
}

pub(crate) proof fn lemma_plan_contains(
    context: InstallationView,
    roots: Seq<PackageIdView>,
    resolve: ResolveView,
    ids: Seq<PackageIdView>,
    i: int,
    action: ActionView,
)
    requires
        installation::plan_of(context, roots, resolve, ids).error is None,
        0 <= i < ids.len(),
    ensures
        installation::package_plan(context, roots, resolve, ids[i]).error is None,
        installation::package_plan(context, roots, resolve, ids[i]).actions.contains(action)
            ==> installation::plan_of(context, roots, resolve, ids).actions.contains(action),
    decreases ids.len(),
{
    let fewer = ids.drop_last();
    let before = installation::plan_of(context, roots, resolve, fewer);
    let own = installation::package_plan(context, roots, resolve, ids.last());
    lemma_contains_concat(before.actions, own.actions, action);
    if i < fewer.len() {
        assert(fewer[i] == ids[i]);
        lemma_plan_contains(context, roots, resolve, fewer, i, action);
    }
}

/// Where no link is refused, every root gets a top-level link to everything that
/// it depends on, in the directory of the realm that it depends on it from.
pub proof fn law_roots_get_top_level_links(
    context: InstallationView,
    roots: Seq<PackageIdView>,
    resolve: ResolveView,
    i: int,
    realm: Realm,
    j: int,
)
    requires
        installation::plan_of(context, roots, resolve, resolve.activated).error is None,
        0 <= i < resolve.activated.len(),
        ordered::holds(roots, resolve.activated[i]),
        0 <= j < resolution::edges_of(resolve.graph(realm), resolve.activated[i]).len(),
    ensures
        ({
            let (alias, target) = resolution::edges_of(
                resolve.graph(realm),
                resolve.activated[i],
            )[j];
            installation::plan_of(
                context,
                roots,
                resolve,
                resolve.activated,
            ).actions.contains(
                link_action(
                    context,
                    LinkFrom::Root,
                    realm,
                    context.realm_dir(realm),
                    alias,
                    target,
                    resolve,
                ),
            )
        }),
{
    let id = resolve.activated[i];
    let (alias, target) = resolution::edges_of(resolve.graph(realm), id)[j];
    let base = context.realm_dir(realm);
    let action = link_action(context, LinkFrom::Root, realm, base, alias, target, resolve);
    lemma_plan_contains(context, roots, resolve, resolve.activated, i, action);
    let top = installation::root_links(context, resolve, id);
    lemma_all_links_contain(
        context,
        LinkFrom::Root,
        (Realm::Shared, context.shared_dir),
        (Realm::Server, context.server_dir),
        (Realm::Dev, context.dev_dir),
        resolve,
        id,
        realm,
        j,
    );
    let inside = installation::package_links(context, resolve, id);
    lemma_contains_concat(top.actions, inside.actions, action);
    lemma_contains_concat(
        top.actions + inside.actions,
        seq![installation::entry(context, resolve, id)],
        action,
    );
}

/// Where no link is refused, every package but the only root gets an entry in
/// its container, and beside it a link to everything that it depends on.
pub proof fn law_packages_get_entries_and_links(
    context: InstallationView,
    roots: Seq<PackageIdView>,
    resolve: ResolveView,
    i: int,
    realm: Realm,
    j: int,
)
    requires
        installation::plan_of(context, roots, resolve, resolve.activated).error is None,
        0 <= i < resolve.activated.len(),
        !installation::is_sole_root(roots, resolve.activated[i]),
    ensures
        ({
            let id = resolve.activated[i];
            let own_realm = ordered::lookup(resolve.metadata, id)->Some_0.origin_realm;
            let container = installation::container_of(resolve, id);
            let actions = installation::plan_of(
                context,
                roots,
                resolve,
                resolve.activated,
            ).actions;
            let edges = resolution::edges_of(resolve.graph(realm), id);
            &&& actions.contains(installation::entry(context, resolve, id))
            &&& 0 <= j < edges.len() ==> actions.contains(
                link_action(
                    context,
                    LinkFrom::Package(container),
                    own_realm,
                    context.package_dir(own_realm, container, id),
                    edges[j].0,
                    edges[j].1,
                    resolve,
                ),
            )
        }),
{
    let id = resolve.activated[i];
    let own_realm = ordered::lookup(resolve.metadata, id)->Some_0.origin_realm;
    let container = installation::container_of(resolve, id);
    let base = context.package_dir(own_realm, container, id);
    let from = LinkFrom::Package(container);
    let edges = resolution::edges_of(resolve.graph(realm), id);
    let entry = installation::entry(context, resolve, id);
    let top = if ordered::holds(roots, id) {
        installation::root_links(context, resolve, id)
    } else {
        PlanView::nothing()
    };
    let inside = installation::package_links(context, resolve, id);
    lemma_plan_contains(context, roots, resolve, resolve.activated, i, entry);
    assert(seq![entry][0] == entry);
    lemma_contains_concat(top.actions + inside.actions, seq![entry], entry);
    if 0 <= j < edges.len() {
        let action = link_action(
            context,
            from,
            own_realm,
            base,
            edges[j].0,
            edges[j].1,
            resolve,
        );
        lemma_plan_contains(context, roots, resolve, resolve.activated, i, action);
        lemma_all_links_contain(
            context,
            from,
            (own_realm, base),
            (own_realm, base),
            (own_realm, base),
            resolve,
            id,
            realm,
            j,
        );
        lemma_contains_concat(top.actions, inside.actions, action);
        lemma_contains_concat(top.actions + inside.actions, seq![entry], action);
    }
}

// ---------------------------------------------------------------------------
// File names and project files
// ---------------------------------------------------------------------------

/// Packages with the same file name have the same name and write their versions
/// alike. Where their versions are such as are read from texts, they are the
/// same.
pub proof fn law_file_names_tell_packages_apart(a: PackageIdView, b: PackageIdView)
    requires
        a.name.is_valid(),
        b.name.is_valid(),
        installation::file_name(a) == installation::file_name(b),
    ensures
        a.name == b.name,
        version::version_text(a.version) == version::version_text(b.version),
        version::is_readable(a.version) && version::is_readable(b.version) ==> a == b,
{
    reveal_strlit("_");
    reveal_strlit("@");
    assert("_"@ =~= seq!['_']);
    assert("@"@ =~= seq!['@']);
    let x = a.name.name + seq!['@'] + version::version_text(a.version);
    let y = b.name.name + seq!['@'] + version::version_text(b.version);
    assert(installation::file_name(a) =~= a.name.scope + seq!['_'] + x);
    assert(installation::file_name(b) =~= b.name.scope + seq!['_'] + y);
    assert forall|i: int| 0 <= i < a.name.scope.len() implies a.name.scope[i] != '_' by {
        assert(package_name::is_name_char(a.name.scope[i]));
    }
    assert forall|i: int| 0 <= i < b.name.scope.len() implies b.name.scope[i] != '_' by {
        assert(package_name::is_name_char(b.name.scope[i]));
    }
    text::lemma_parts_at_mark(a.name.scope, b.name.scope, '_', x, y);
    assert forall|i: int| 0 <= i < a.name.name.len() implies a.name.name[i] != '@' by {
        assert(package_name::is_name_char(a.name.name[i]));
    }
    assert forall|i: int| 0 <= i < b.name.name.len() implies b.name.name[i] != '@' by {
        assert(package_name::is_name_char(b.name.name[i]));
    }
    text::lemma_parts_at_mark(
        a.name.name,
        b.name.name,
        '@',
        version::version_text(a.version),
        version::version_text(b.version),
    );
    assert(a.name =~= b.name);
    if version::is_readable(a.version) && version::is_readable(b.version) {
        version::law_versions_are_written_apart(a.version, b.version);
    }
}

/// The way from a project file's directory to a member, as a project file writes
/// it where all systems read their paths alike, leads back to the member's
/// directory.
pub proof fn law_project_path_leads_back(member_dir: Seq<char>, project_dir: Seq<char>)
    requires
        path::is_canonical(path::path_of(member_dir)),
        path::is_canonical(path::path_of(project_dir)),
    ensures
        path::lead_to(
            path::path_of(
                path::join_text(project_dir, installation::way_back(member_dir, project_dir)),
            ),
        ) == path::path_of(member_dir),
{
    path::law_relative_text_leads_back(member_dir, project_dir);
}

} // verus!
