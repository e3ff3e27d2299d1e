//! What holds of every resolution.

use vstd::prelude::*;

use crate::manifest::{ManifestView, Realm};
use crate::order;
use crate::ordered;
use crate::package_id;
use crate::package_id::PackageIdView;
use crate::package_req::PackageReqView;
use crate::package_source;
use crate::package_source::{PackageSourceIdView, PackageSourceMapView};
use crate::resolution;
use crate::resolution::origins;
use crate::resolution::{
    ContextView, GraphView, KindView, MetadataView, RequestView, ResolveView, StateView,
};
use crate::version;
use crate::workspace;
use crate::workspace::{CanonicalPathsView, MembersView, WorkspaceView};

verus! {

// ---------------------------------------------------------------------------
// Realms
// ---------------------------------------------------------------------------

/// The realm that origins merge to does not depend on their order.
pub proof fn law_merged_realm_any_order(a: Realm, b: Realm, c: Realm)
    ensures
        resolution::merged_realm(a, b) == resolution::merged_realm(b, a),
        resolution::merged_realm(resolution::merged_realm(a, b), c) == resolution::merged_realm(
            a,
            resolution::merged_realm(b, c),
        ),
        resolution::merged_realm(a, a) == a,
{
}

/// Shared is the least restrictive realm, and dev the most restrictive.
pub proof fn law_merged_realm_bounds(a: Realm)
    ensures
        resolution::merged_realm(a, Realm::Shared) == Realm::Shared,
        resolution::merged_realm(a, Realm::Dev) == a,
{
}

// ---------------------------------------------------------------------------
// States
// ---------------------------------------------------------------------------

/// What holds of every state that resolution comes to.
pub open spec fn is_state(state: StateView, context: ContextView) -> bool {
    &&& context.sources.answers_fit()
    &&& state.resolve.is_sound()
    &&& resolution::paths_chosen(state, context)
}

/// What resolution goes by for a workspace.
pub open spec fn workspace_context(
    workspace: WorkspaceView,
    try_to_use: Seq<PackageIdView>,
    sources: PackageSourceMapView,
    canonical: CanonicalPathsView,
) -> ContextView {
    ContextView { try_to_use, sources, members: workspace.members, canonical }
}

pub(crate) proof fn lemma_package_start(
    manifest: ManifestView,
    try_to_use: Seq<PackageIdView>,
    sources: PackageSourceMapView,
)
    requires
        sources.answers_fit(),
    ensures
        is_state(
            resolution::package_start(manifest),
            resolution::package_context(try_to_use, sources),
        ),
        resolution::package_start(manifest).resolve.activated == seq![manifest.package_id()],
        resolution::package_start(manifest).resolve.metadata == seq![
            (
                manifest.package_id(),
                resolution::root_metadata(manifest, PackageSourceIdView::DefaultRegistry, false),
            ),
        ],
{
    let empty = ResolveView::empty();
    assert(ordered::keys_of(empty.metadata) =~= empty.activated);
    let id = manifest.package_id();
    let metadata = resolution::root_metadata(
        manifest,
        PackageSourceIdView::DefaultRegistry,
        false,
    );
    resolution::lemma_with_root(empty, manifest, PackageSourceIdView::DefaultRegistry, false);
    ordered::lemma_with_entry_last(empty.metadata, id, metadata);
    assert(empty.metadata.push((id, metadata)) =~= seq![(id, metadata)]);
    let start = resolution::package_start(manifest);
    assert(start.resolve.metadata =~= seq![(id, metadata)]);
    assert(ordered::keys_of(start.resolve.metadata) =~= seq![id]);
}

pub(crate) proof fn lemma_workspace_is_state(
    workspace: WorkspaceView,
    try_to_use: Seq<PackageIdView>,
    sources: PackageSourceMapView,
    canonical: CanonicalPathsView,
)
    requires
        sources.answers_fit(),
        workspace.is_sound(),
    ensures
        is_state(
            resolution::workspace_start(workspace.members),
            workspace_context(workspace, try_to_use, sources, canonical),
        ),
{
    resolution::lemma_workspace_start(workspace.members);
    resolution::lemma_members_chosen(
        resolution::workspace_start(workspace.members),
        workspace_context(workspace, try_to_use, sources, canonical),
    );
}

// ---------------------------------------------------------------------------
// Chosen packages
// ---------------------------------------------------------------------------

/// What is known of each package, and which are known, ends up sound, also where
/// a request is refused.
pub(crate) proof fn lemma_run_sound(state: StateView, context: ContextView)
    requires
        is_state(state, context),
    ensures
        resolution::ending(state, context).resolve.is_sound(),
        forall|id: PackageIdView|
            ordered::holds(state.resolve.activated, id) ==> #[trigger] ordered::holds(
                resolution::ending(state, context).resolve.activated,
                id,
            ),
        resolution::run(state, context) matches Ok(resolve) ==> {
            &&& resolve.is_sound()
            &&& forall|id: PackageIdView|
                ordered::holds(state.resolve.activated, id) ==> #[trigger] ordered::holds(
                    resolve.activated,
                    id,
                )
        },
    decreases
            resolution::fresh(context.sources.answers, state.resolve.activated),
            state.queue.len(),
{
    if state.queue.len() > 0 {
        resolution::lemma_step_progress(state, context);
        resolution::lemma_step_sound(state, context);
        if let Ok(next) = resolution::step(state, context) {
            lemma_run_sound(next, context);
        }
    }
}

/// Of a single package, something is known of exactly the packages that were
/// chosen, and the package itself is one of them.
pub proof fn law_package_graph_is_sound(
    manifest: ManifestView,
    try_to_use: Seq<PackageIdView>,
    sources: PackageSourceMapView,
)
    requires
        sources.answers_fit(),
    ensures
        resolution::outcome(
            resolution::package_start(manifest),
            resolution::package_context(try_to_use, sources),
        ) matches Ok(resolve) ==> {
            &&& resolve.is_sound()
            &&& ordered::holds(resolve.activated, manifest.package_id())
        },
{
    let start = resolution::package_start(manifest);
    let context = resolution::package_context(try_to_use, sources);
    lemma_package_start(manifest, try_to_use, sources);
    lemma_run_sound(start, context);
    lemma_outcome(start, context);
    assert(start.resolve.activated[0] == manifest.package_id());
    assert(ordered::holds(start.resolve.activated, manifest.package_id()));
}

/// Of a workspace, something is known of exactly the packages that were chosen,
/// and all members are among them.
pub proof fn law_workspace_graph_is_sound(
    workspace: WorkspaceView,
    try_to_use: Seq<PackageIdView>,
    sources: PackageSourceMapView,
    canonical: CanonicalPathsView,
)
    requires
        sources.answers_fit(),
        workspace.is_sound(),
    ensures
        resolution::outcome(
            resolution::workspace_start(workspace.members),
            workspace_context(workspace, try_to_use, sources, canonical),
        ) matches Ok(resolve) ==> {
            &&& resolve.is_sound()
            &&& resolution::members_activated(workspace.members, resolve.activated)
        },
{
    let start = resolution::workspace_start(workspace.members);
    let context = workspace_context(workspace, try_to_use, sources, canonical);
    lemma_workspace_is_state(workspace, try_to_use, sources, canonical);
    resolution::lemma_workspace_start(workspace.members);
    lemma_run_sound(start, context);
    lemma_outcome(start, context);
    if let Ok(resolve) = resolution::outcome(start, context) {
        assert forall|i: int| 0 <= i < workspace.members.len() implies ordered::holds(
            resolve.activated,
            (#[trigger] workspace.members[i]).1.package_id(),
        ) by {
            assert(ordered::holds(
                start.resolve.activated,
                workspace.members[i].1.package_id(),
            ));
        }
    }
}

/// No two versions of a package are chosen of which only one can be.
pub open spec fn no_compatible_versions(activated: Seq<PackageIdView>) -> bool {
    forall|i: int, j: int|
        #![trigger activated[i], activated[j]]
        0 <= i < activated.len() && 0 <= j < activated.len() && i != j && activated[i].name
            == activated[j].name ==> !resolution::are_compatible(
            activated[i].version,
            activated[j].version,
        )
}

proof fn lemma_no_compatible_with(activated: Seq<PackageIdView>, id: PackageIdView)
    requires
        ordered::ascending(activated),
        no_compatible_versions(activated),
        !resolution::has_conflict(activated, id.name, id.version),
    ensures
        no_compatible_versions(ordered::with_key(activated, id)),
{
    let added = ordered::with_key(activated, id);
    ordered::lemma_place_exists(activated, id);
    let at = ordered::place(activated, id);
    if !ordered::holds(activated, id) {
        assert forall|i: int, j: int|
            #![trigger added[i], added[j]]
            0 <= i < added.len() && 0 <= j < added.len() && i != j && added[i].name
                == added[j].name implies !resolution::are_compatible(
            added[i].version,
            added[j].version,
        ) by {
            let a = if i < at { i } else { i - 1 };
            let b = if j < at { j } else { j - 1 };
            if i == at {
                assert(added[j] == activated[b]);
            } else if j == at {
                assert(added[i] == activated[a]);
            } else {
                assert(added[i] == activated[a]);
                assert(added[j] == activated[b]);
            }
        }
    }
}

/// What a step chooses anew: nothing, or an eligible package of the name that
/// was asked for.
pub(crate) proof fn lemma_step_activated(state: StateView, context: ContextView)
    requires
        state.queue.len() > 0,
        is_state(state, context),
    ensures
        resolution::step(state, context) matches Ok(next) ==> {
            ||| next.resolve.activated == state.resolve.activated
            ||| exists|id: PackageIdView|
                {
                    &&& next.resolve.activated == #[trigger] ordered::with_key(
                        state.resolve.activated,
                        id,
                    )
                    &&& !resolution::has_conflict(state.resolve.activated, id.name, id.version)
                }
        },
{
    let request = state.queue[0];
    let activated = state.resolve.activated;
    if let Ok(next) = resolution::step(state, context) {
        match request.kind {
            KindView::Path(dir) => {
                assert(resolution::path_chosen(request, context, activated));
                let target = workspace::member_at(
                    context.members,
                    dir,
                    context.canonical,
                )->Some_0;
                resolution::lemma_reuse(state.resolve, request, target.package_id());
            },
            KindView::Registry(req) => {
                resolution::lemma_best_activated(activated, req);
                match resolution::best_activated(activated, req) {
                    Some(id) => {
                        resolution::lemma_reuse(state.resolve, request, id);
                    },
                    None => {
                        let candidate = lemma_taken(state, context, req);
                        let id = candidate.package_id();
                        assert(next.resolve.activated == ordered::with_key(activated, id));
                    },
                }
            },
        }
    }
}

/// The candidate that meets a request which no chosen package meets.
pub(crate) proof fn lemma_taken(state: StateView, context: ContextView, req: PackageReqView) -> (candidate:
    ManifestView)
    requires
        state.queue.len() > 0,
        is_state(state, context),
        state.queue[0].kind == KindView::Registry(req),
        resolution::best_activated(state.resolve.activated, req) is None,
        resolution::step(state, context) is Ok,
    ensures
        resolution::find_source(context.sources, req, 0) is At,
        resolution::find_source(context.sources, req, 0)->At_1.contains(candidate),
        ({
            let candidates = resolution::order_candidates(
                resolution::find_source(context.sources, req, 0)->At_1,
                context.try_to_use,
            );
            let at = resolution::first_eligible(
                candidates,
                state.queue[0].realm,
                state.resolve.activated,
                req.name,
                0,
            );
            0 <= at < candidates.len() && candidates[at] == candidate
        }),
        candidate.package.name == req.name,
        package_source::is_published(candidate),
        resolution::is_eligible(
            candidate,
            state.queue[0].realm,
            state.resolve.activated,
            req.name,
        ),
        !ordered::holds(state.resolve.activated, candidate.package_id()),
        resolution::step(state, context)->Ok_0 == (StateView {
            resolve: resolution::take_in(
                state.resolve,
                state.queue[0],
                candidate,
                resolution::find_source(context.sources, req, 0)->At_0,
            ),
            queue: state.queue.drop_first() + resolution::transitive_requests(
                candidate,
                state.queue[0].origin_realm,
            ),
        }),
        (resolution::step(state, context)->Ok_0).resolve.activated == ordered::with_key(
            state.resolve.activated,
            candidate.package_id(),
        ),
        (resolution::step(state, context)->Ok_0).resolve.is_sound(),
{
    let activated = state.resolve.activated;
    let request = state.queue[0];
    resolution::lemma_find_source(context.sources, req, 0);
    let source = resolution::find_source(context.sources, req, 0)->At_0;
    let manifests = resolution::find_source(context.sources, req, 0)->At_1;
    let candidates = resolution::order_candidates(manifests, context.try_to_use);
    resolution::lemma_order_candidates(manifests, context.try_to_use);
    resolution::lemma_first_eligible(candidates, request.realm, activated, req.name, 0);
    let at = resolution::first_eligible(candidates, request.realm, activated, req.name, 0);
    let candidate = candidates[at];
    assert(manifests.contains(candidate));
    let i = choose|i: int| 0 <= i < manifests.len() && manifests[i] == candidate;
    let answer = choose|answer: int|
        0 <= answer < context.sources.answers.len() && (
        #[trigger] context.sources.answers[answer]).manifests == Some(manifests)
            && context.sources.answers[answer].req == req && context.sources.answers[answer].source
            == source;
    assert(package_source::all_named(manifests, req.name));
    assert(manifests[i].package.name == req.name);
    resolution::lemma_eligible_is_new(candidate, request.realm, activated);
    resolution::lemma_take_in(state.resolve, request, candidate, source);
    candidate
}

proof fn lemma_run_no_compatible(state: StateView, context: ContextView)
    requires
        is_state(state, context),
        no_compatible_versions(state.resolve.activated),
    ensures
        no_compatible_versions(resolution::ending(state, context).resolve.activated),
        resolution::run(state, context) matches Ok(resolve) ==> no_compatible_versions(
            resolve.activated,
        ),
    decreases
            resolution::fresh(context.sources.answers, state.resolve.activated),
            state.queue.len(),
{
    if state.queue.len() > 0 {
        resolution::lemma_step_progress(state, context);
        resolution::lemma_step_sound(state, context);
        lemma_step_activated(state, context);
        if let Ok(next) = resolution::step(state, context) {
            if next.resolve.activated != state.resolve.activated {
                let id = choose|id: PackageIdView|
                    {
                        &&& next.resolve.activated == #[trigger] ordered::with_key(
                            state.resolve.activated,
                            id,
                        )
                        &&& !resolution::has_conflict(
                            state.resolve.activated,
                            id.name,
                            id.version,
                        )
                    };
                lemma_no_compatible_with(state.resolve.activated, id);
            }
            lemma_run_no_compatible(next, context);
        }
    }
}

/// Where only one of any compatible versions was chosen from the start, only one
/// is once all requests are met, and also where a request is refused.
pub proof fn law_no_second_compatible_version(state: StateView, context: ContextView)
    requires
        is_state(state, context),
        no_compatible_versions(state.resolve.activated),
    ensures
        no_compatible_versions(resolution::ending(state, context).resolve.activated),
        resolution::outcome(state, context) matches Ok(resolve) ==> no_compatible_versions(
            resolve.activated,
        ),
{
    lemma_outcome(state, context);
    lemma_run_no_compatible(state, context);
}

/// Of a single package, only one of any compatible versions is chosen.
pub proof fn law_package_has_no_compatible_versions(
    manifest: ManifestView,
    try_to_use: Seq<PackageIdView>,
    sources: PackageSourceMapView,
)
    requires
        sources.answers_fit(),
    ensures
        resolution::outcome(
            resolution::package_start(manifest),
            resolution::package_context(try_to_use, sources),
        ) matches Ok(resolve) ==> no_compatible_versions(resolve.activated),
{
    lemma_package_start(manifest, try_to_use, sources);
    law_no_second_compatible_version(
        resolution::package_start(manifest),
        resolution::package_context(try_to_use, sources),
    );
}

pub(crate) proof fn lemma_workspace_start_names(members: MembersView)
    requires
        forall|i: int, j: int|
            #![trigger members[i], members[j]]
            0 <= i < j < members.len() ==> members[i].1.package.name != members[j].1.package.name,
    ensures
        no_compatible_versions(resolution::workspace_start(members).resolve.activated),
        forall|k: int|
            0 <= k < resolution::workspace_start(members).resolve.activated.len() ==> exists|i: int|
                0 <= i < members.len() && (#[trigger] members[i]).1.package_id() == (
                #[trigger] resolution::workspace_start(members).resolve.activated[k]),
    decreases members.len(),
{
    if members.len() > 0 {
        let fewer = members.drop_last();
        let before = resolution::workspace_start(fewer).resolve.activated;
        let after = resolution::workspace_start(members).resolve.activated;
        assert forall|i: int, j: int|
            #![trigger fewer[i], fewer[j]]
            0 <= i < j < fewer.len() implies fewer[i].1.package.name
            != fewer[j].1.package.name by {
            assert(fewer[i] == members[i] && fewer[j] == members[j]);
        }
        lemma_workspace_start_names(fewer);
        resolution::lemma_workspace_start(fewer);
        let id = members.last().1.package_id();
        if resolution::has_conflict(before, id.name, id.version) {
            let k = choose|k: int|
                0 <= k < before.len() && (#[trigger] before[k]).name == id.name
                    && resolution::are_compatible(id.version, before[k].version);
            let i = choose|i: int|
                0 <= i < fewer.len() && (#[trigger] fewer[i]).1.package_id() == before[k];
            assert(fewer[i] == members[i]);
            assert(members[members.len() - 1].1.package.name == id.name);
        }
        lemma_no_compatible_with(before, id);
        ordered::lemma_with_key(before, id);
        assert forall|k: int| 0 <= k < after.len() implies exists|i: int|
            0 <= i < members.len() && (#[trigger] members[i]).1.package_id() == (
            #[trigger] after[k]) by {
            if after[k] == id {
                assert(members[members.len() - 1].1.package_id() == after[k]);
            } else {
                assert(before.contains(after[k]));
                let n = choose|n: int| 0 <= n < before.len() && before[n] == after[k];
                let i = choose|i: int|
                    0 <= i < fewer.len() && (#[trigger] fewer[i]).1.package_id() == before[n];
                assert(members[i] == fewer[i]);
            }
        }
    }
}

/// Of a workspace, only one of any compatible versions is chosen.
pub proof fn law_workspace_has_no_compatible_versions(
    workspace: WorkspaceView,
    try_to_use: Seq<PackageIdView>,
    sources: PackageSourceMapView,
    canonical: CanonicalPathsView,
)
    requires
        sources.answers_fit(),
        workspace.is_sound(),
    ensures
        resolution::outcome(
            resolution::workspace_start(workspace.members),
            workspace_context(workspace, try_to_use, sources, canonical),
        ) matches Ok(resolve) ==> no_compatible_versions(resolve.activated),
{
    lemma_workspace_is_state(workspace, try_to_use, sources, canonical);
    lemma_workspace_start_names(workspace.members);
    law_no_second_compatible_version(
        resolution::workspace_start(workspace.members),
        workspace_context(workspace, try_to_use, sources, canonical),
    );
}

// ---------------------------------------------------------------------------
// How requests are met
// ---------------------------------------------------------------------------

/// The first request was met by `id`, which was chosen before.
pub open spec fn met_by_reuse(
    state: StateView,
    context: ContextView,
    next: StateView,
    id: PackageIdView,
) -> bool {
    let request = state.queue[0];
    &&& ordered::holds(state.resolve.activated, id)
    &&& next == (StateView {
        resolve: resolution::reuse(state.resolve, request, id),
        queue: state.queue.drop_first(),
    })
    &&& match request.kind {
        KindView::Registry(req) => req.matches_id(id) && request.realm.allows(
            known(state.resolve, id).realm,
        ),
        KindView::Path(dir) => {
            &&& workspace::member_at(context.members, dir, context.canonical) is Some
            &&& workspace::member_at(context.members, dir, context.canonical)->Some_0.package_id()
                == id
            &&& request.realm.allows(
                workspace::member_at(
                    context.members,
                    dir,
                    context.canonical,
                )->Some_0.package.realm,
            )
        },
    }
}

/// The first request was met by `candidate`, which was not chosen before.
pub open spec fn met_by_candidate(
    state: StateView,
    context: ContextView,
    next: StateView,
    candidate: ManifestView,
) -> bool {
    let request = state.queue[0];
    &&& request.kind is Registry
    &&& ({
        let req = request.kind->Registry_0;
        let found = resolution::find_source(context.sources, req, 0);
        &&& found is At
        &&& found->At_1.contains(candidate)
        &&& candidate.package.name == req.name
        &&& package_source::is_published(candidate)
        &&& resolution::is_eligible(
            candidate,
            request.realm,
            state.resolve.activated,
            req.name,
        )
        &&& !ordered::holds(state.resolve.activated, candidate.package_id())
        &&& next == (StateView {
            resolve: resolution::take_in(state.resolve, request, candidate, found->At_0),
            queue: state.queue.drop_first() + resolution::transitive_requests(
                candidate,
                request.origin_realm,
            ),
        })
    })
}

/// A request is met in one of two ways: by a package that was chosen before or
/// by one that was not.
pub(crate) proof fn lemma_step_shape(state: StateView, context: ContextView)
    requires
        state.queue.len() > 0,
        is_state(state, context),
    ensures
        resolution::step(state, context) matches Ok(next) ==> {
            ||| met_by_reuse(state, context, next, resolution::target_of(state, context))
            ||| exists|candidate: ManifestView| #[trigger]
                met_by_candidate(state, context, next, candidate) && candidate.package_id()
                    == resolution::target_of(state, context)
        },
{
    let request = state.queue[0];
    if let Ok(next) = resolution::step(state, context) {
        match request.kind {
            KindView::Path(dir) => {
                assert(resolution::path_chosen(request, context, state.resolve.activated));
                let target = workspace::member_at(
                    context.members,
                    dir,
                    context.canonical,
                )->Some_0;
                assert(met_by_reuse(state, context, next, target.package_id()));
            },
            KindView::Registry(req) => {
                resolution::lemma_best_activated(state.resolve.activated, req);
                match resolution::best_activated(state.resolve.activated, req) {
                    Some(id) => {
                        assert(met_by_reuse(state, context, next, id));
                    },
                    None => {
                        let candidate = lemma_taken(state, context, req);
                        assert(met_by_candidate(state, context, next, candidate));
                    },
                }
            },
        }
    }
}

// ---------------------------------------------------------------------------
// What is known of packages
// ---------------------------------------------------------------------------

/// What was known of a package still holds. It may have moved to a less
/// restrictive realm.
pub open spec fn is_kept(before: MetadataView, after: MetadataView) -> bool {
    &&& after.realm == before.realm
    &&& after.source_registry == before.source_registry
    &&& after.is_workspace_member == before.is_workspace_member
    &&& resolution::merged_realm(before.origin_realm, after.origin_realm) == after.origin_realm
}

/// What is known of a package.
pub open spec fn known(resolve: ResolveView, id: PackageIdView) -> MetadataView {
    ordered::lookup(resolve.metadata, id)->Some_0
}

/// All that was known of packages still holds.
pub open spec fn all_kept(before: ResolveView, after: ResolveView) -> bool {
    forall|id: PackageIdView|
        #![trigger ordered::holds(after.activated, id)]
        #![trigger known(after, id)]
        ordered::holds(before.activated, id) ==> {
            &&& ordered::holds(after.activated, id)
            &&& is_kept(known(before, id), known(after, id))
        }
}

pub(crate) proof fn lemma_reuse_keeps(resolve: ResolveView, request: RequestView, id: PackageIdView)
    requires
        resolve.is_sound(),
        ordered::holds(resolve.activated, id),
    ensures
        all_kept(resolve, resolution::reuse(resolve, request, id)),
        known(resolution::reuse(resolve, request, id), id).origin_realm
            == resolution::merged_realm(known(resolve, id).origin_realm, request.origin_realm),
{
    let after = resolution::reuse(resolve, request, id);
    resolution::lemma_reuse(resolve, request, id);
    let metadata = known(resolve, id);
    let origin_realm = resolution::merged_realm(metadata.origin_realm, request.origin_realm);
    let put = MetadataView { origin_realm, ..metadata };
    assert forall|other: PackageIdView| ordered::holds(resolve.activated, other) implies is_kept(
        known(resolve, other),
        #[trigger] known(after, other),
    ) by {
        ordered::lemma_lookup_with_entry(resolve.metadata, id, put, other);
        if package_id::id_key(other) == package_id::id_key(id) {
            ordered::lemma_lookup_same(resolve.metadata, other, id);
        }
    }
    ordered::lemma_lookup_with_entry(resolve.metadata, id, put, id);
}

pub(crate) proof fn lemma_take_in_keeps(
    resolve: ResolveView,
    request: RequestView,
    candidate: ManifestView,
    source: PackageSourceIdView,
)
    requires
        resolve.is_sound(),
        !ordered::holds(resolve.activated, candidate.package_id()),
    ensures
        all_kept(resolve, resolution::take_in(resolve, request, candidate, source)),
        known(
            resolution::take_in(resolve, request, candidate, source),
            candidate.package_id(),
        ) == (MetadataView {
            realm: candidate.package.realm,
            origin_realm: request.origin_realm,
            source_registry: source,
            is_workspace_member: false,
        }),
{
    let after = resolution::take_in(resolve, request, candidate, source);
    let id = candidate.package_id();
    resolution::lemma_take_in(resolve, request, candidate, source);
    ordered::lemma_with_key(resolve.activated, id);
    let put = MetadataView {
        realm: candidate.package.realm,
        origin_realm: request.origin_realm,
        source_registry: source,
        is_workspace_member: false,
    };
    assert forall|other: PackageIdView| ordered::holds(resolve.activated, other) implies is_kept(
        known(resolve, other),
        #[trigger] known(after, other),
    ) by {
        ordered::lemma_lookup_with_entry(resolve.metadata, id, put, other);
        if package_id::id_key(other) == package_id::id_key(id) {
            ordered::lemma_lookup_same(resolve.metadata, other, id);
        }
    }
    ordered::lemma_lookup_with_entry(resolve.metadata, id, put, id);
}

pub(crate) proof fn lemma_step_keeps(state: StateView, context: ContextView)
    requires
        state.queue.len() > 0,
        is_state(state, context),
    ensures
        resolution::step(state, context) matches Ok(next) ==> all_kept(
            state.resolve,
            next.resolve,
        ),
{
    lemma_step_shape(state, context);
    if let Ok(next) = resolution::step(state, context) {
        let request = state.queue[0];
        if exists|id: PackageIdView| #[trigger] met_by_reuse(state, context, next, id) {
            let id = choose|id: PackageIdView| #[trigger] met_by_reuse(state, context, next, id);
            lemma_reuse_keeps(state.resolve, request, id);
        } else {
            let candidate = choose|candidate: ManifestView| #[trigger]
                met_by_candidate(state, context, next, candidate);
            let found = resolution::find_source(context.sources, request.kind->Registry_0, 0);
            lemma_take_in_keeps(state.resolve, request, candidate, found->At_0);
        }
    }
}

proof fn lemma_kept_transitive(a: ResolveView, b: ResolveView, c: ResolveView)
    requires
        all_kept(a, b),
        all_kept(b, c),
    ensures
        all_kept(a, c),
{
    assert forall|id: PackageIdView| ordered::holds(a.activated, id) implies ordered::holds(
        c.activated,
        id,
    ) && is_kept(known(a, id), #[trigger] known(c, id)) by {
        assert(ordered::holds(b.activated, id));
        assert(is_kept(known(a, id), known(b, id)));
        assert(is_kept(known(b, id), known(c, id)));
    }
    assert forall|id: PackageIdView| ordered::holds(a.activated, id) implies #[trigger]
        ordered::holds(c.activated, id) && is_kept(known(a, id), known(c, id)) by {
        assert(is_kept(known(a, id), known(c, id)));
    }
}

pub(crate) proof fn lemma_run_keeps(state: StateView, context: ContextView)
    requires
        is_state(state, context),
    ensures
        all_kept(state.resolve, resolution::ending(state, context).resolve),
        resolution::run(state, context) matches Ok(resolve) ==> all_kept(state.resolve, resolve),
    decreases
            resolution::fresh(context.sources.answers, state.resolve.activated),
            state.queue.len(),
{
    if state.queue.len() > 0 {
        resolution::lemma_step_progress(state, context);
        resolution::lemma_step_sound(state, context);
        lemma_step_keeps(state, context);
        if let Ok(next) = resolution::step(state, context) {
            lemma_run_keeps(next, context);
            lemma_kept_transitive(
                state.resolve,
                next.resolve,
                resolution::ending(state, context).resolve,
            );
            if let Ok(resolve) = resolution::run(state, context) {
                lemma_kept_transitive(state.resolve, next.resolve, resolve);
            }
        }
    }
}

/// What comes out of resolution is what was chosen for the requests, but that
/// packages may have moved to less restrictive realms.
pub(crate) proof fn lemma_outcome(state: StateView, context: ContextView)
    requires
        is_state(state, context),
    ensures
        match (resolution::run(state, context), resolution::outcome(state, context)) {
            (Ok(before), Ok(after)) => {
                &&& after == (ResolveView { metadata: after.metadata, ..before })
                &&& after.is_sound()
                &&& origins::all_known(before.metadata, after.metadata)
                &&& all_kept(before, after)
            },
            (Err(before), Err(after)) => before == after,
            _ => false,
        },
{
    lemma_run_sound(state, context);
    if let Ok(before) = resolution::run(state, context) {
        let after = resolution::outcome(state, context)->Ok_0;
        origins::lemma_spread(
            before.metadata,
            state.resolve.activated,
            resolution::links(state, context),
        );
        assert forall|id: PackageIdView|
            #![trigger ordered::holds(after.activated, id)]
            #![trigger known(after, id)]
            ordered::holds(before.activated, id) implies ordered::holds(after.activated, id)
            && is_kept(known(before, id), known(after, id)) by {
            let at = ordered::place(ordered::keys_of(before.metadata), id);
            ordered::lemma_place_exists(ordered::keys_of(before.metadata), id);
            assert(is_kept(before.metadata[at].1, after.metadata[at].1));
        }
    }
}

/// Whatever was known of packages from the start still holds once all requests
/// are met, and also where a request is refused: no package is replaced or
/// removed, and it only ever moves to a less restrictive realm.
pub proof fn law_known_packages_are_kept(state: StateView, context: ContextView)
    requires
        is_state(state, context),
    ensures
        all_kept(state.resolve, resolution::ending(state, context).resolve),
        resolution::outcome(state, context) matches Ok(resolve) ==> all_kept(
            state.resolve,
            resolve,
        ),
{
    lemma_outcome(state, context);
    lemma_run_keeps(state, context);
    if let Ok(before) = resolution::run(state, context) {
        lemma_kept_transitive(
            state.resolve,
            before,
            resolution::outcome(state, context)->Ok_0,
        );
    }
}

pub(crate) proof fn lemma_workspace_start_known(members: MembersView, i: int)
    requires
        forall|i: int, j: int|
            #![trigger members[i], members[j]]
            0 <= i < j < members.len() ==> members[i].1.package.name != members[j].1.package.name,
        0 <= i < members.len(),
    ensures
        known(
            resolution::workspace_start(members).resolve,
            members[i].1.package_id(),
        ) == resolution::root_metadata(
            members[i].1,
            PackageSourceIdView::Path(members[i].0.text),
            true,
        ),
    decreases members.len(),
{
    let fewer = members.drop_last();
    let before = resolution::workspace_start(fewer).resolve;
    let (dir, manifest) = members.last();
    let id = manifest.package_id();
    let metadata = resolution::root_metadata(manifest, PackageSourceIdView::Path(dir.text), true);
    resolution::lemma_workspace_start(fewer);
    ordered::lemma_lookup_with_entry(before.metadata, id, metadata, members[i].1.package_id());
    if i < fewer.len() {
        assert forall|i: int, j: int|
            #![trigger fewer[i], fewer[j]]
            0 <= i < j < fewer.len() implies fewer[i].1.package.name
            != fewer[j].1.package.name by {
            assert(fewer[i] == members[i] && fewer[j] == members[j]);
        }
        lemma_workspace_start_known(fewer, i);
        assert(fewer[i] == members[i]);
        assert(members[i].1.package.name != members[members.len() - 1].1.package.name);
        package_id::lemma_id_key_injective(members[i].1.package_id(), id);
    }
}

/// Every member of a workspace stays a member that comes from its own
/// directory. Its origin realm is its own or a less restrictive one.
pub proof fn law_members_stay_members(
    workspace: WorkspaceView,
    try_to_use: Seq<PackageIdView>,
    sources: PackageSourceMapView,
    canonical: CanonicalPathsView,
    i: int,
)
    requires
        sources.answers_fit(),
        workspace.is_sound(),
        0 <= i < workspace.members.len(),
    ensures
        resolution::outcome(
            resolution::workspace_start(workspace.members),
            workspace_context(workspace, try_to_use, sources, canonical),
        ) matches Ok(resolve) ==> {
            let (dir, manifest) = workspace.members[i];
            let metadata = ordered::lookup(resolve.metadata, manifest.package_id());
            &&& metadata is Some
            &&& metadata->Some_0.is_workspace_member
            &&& metadata->Some_0.source_registry == PackageSourceIdView::Path(dir.text)
            &&& metadata->Some_0.realm == manifest.package.realm
            &&& resolution::merged_realm(
                manifest.package.realm,
                metadata->Some_0.origin_realm,
            ) == metadata->Some_0.origin_realm
        },
{
    let start = resolution::workspace_start(workspace.members);
    let context = workspace_context(workspace, try_to_use, sources, canonical);
    lemma_workspace_is_state(workspace, try_to_use, sources, canonical);
    law_known_packages_are_kept(start, context);
    lemma_outcome(start, context);
    lemma_run_sound(start, context);
    lemma_workspace_start_known(workspace.members, i);
    resolution::lemma_workspace_start(workspace.members);
    let id = workspace.members[i].1.package_id();
    assert(ordered::holds(start.resolve.activated, id));
}

// ---------------------------------------------------------------------------
// Dependencies point to what was chosen
// ---------------------------------------------------------------------------

/// `target` was chosen, and it can be depended upon from `realm`.
pub open spec fn edge_fits(resolve: ResolveView, realm: Realm, target: PackageIdView) -> bool {
    &&& ordered::holds(resolve.activated, target)
    &&& resolution::merged_realm(known(resolve, target).origin_realm, realm) == known(
        resolve,
        target,
    ).origin_realm
}

/// All that a package depends on fits.
pub open spec fn edges_fit(
    resolve: ResolveView,
    realm: Realm,
    edges: resolution::EdgesView,
) -> bool {
    &&& ordered::ascending(ordered::keys_of(edges))
    &&& forall|j: int| 0 <= j < edges.len() ==> edge_fits(resolve, realm, (#[trigger] edges[j]).1)
}

/// All dependencies of a realm are dependencies of chosen packages, and fit.
pub open spec fn graph_fits(resolve: ResolveView, realm: Realm, graph: GraphView) -> bool {
    &&& ordered::ascending(ordered::keys_of(graph))
    &&& forall|i: int|
        0 <= i < graph.len() ==> ordered::holds(resolve.activated, (#[trigger] graph[i]).0)
    &&& forall|i: int| 0 <= i < graph.len() ==> edges_fit(resolve, realm, (#[trigger] graph[i]).1)
}

/// All dependencies are dependencies of chosen packages, and fit.
pub open spec fn is_closed(resolve: ResolveView) -> bool {
    forall|realm: Realm| graph_fits(resolve, realm, #[trigger] resolve.graph(realm))
}

/// All requests are those of chosen packages.
pub open spec fn requests_fit(state: StateView) -> bool {
    forall|i: int|
        0 <= i < state.queue.len() ==> ordered::holds(
            state.resolve.activated,
            (#[trigger] state.queue[i]).source,
        )
}

proof fn lemma_edges_kept(
    before: ResolveView,
    after: ResolveView,
    realm: Realm,
    edges: resolution::EdgesView,
)
    requires
        all_kept(before, after),
        edges_fit(before, realm, edges),
    ensures
        edges_fit(after, realm, edges),
{
    assert forall|j: int| 0 <= j < edges.len() implies edge_fits(
        after,
        realm,
        (#[trigger] edges[j]).1,
    ) by {
        assert(edge_fits(before, realm, edges[j].1));
        assert(is_kept(known(before, edges[j].1), known(after, edges[j].1)));
    }
}

proof fn lemma_graph_kept(before: ResolveView, after: ResolveView, realm: Realm, graph: GraphView)
    requires
        all_kept(before, after),
        graph_fits(before, realm, graph),
    ensures
        graph_fits(after, realm, graph),
{
    assert forall|i: int| 0 <= i < graph.len() implies edges_fit(
        after,
        realm,
        (#[trigger] graph[i]).1,
    ) by {
        lemma_edges_kept(before, after, realm, graph[i].1);
    }
}

pub(crate) proof fn lemma_edges_of_fit(
    resolve: ResolveView,
    realm: Realm,
    graph: GraphView,
    source: PackageIdView,
)
    requires
        graph_fits(resolve, realm, graph),
    ensures
        edges_fit(resolve, realm, resolution::edges_of(graph, source)),
{
    let edges = resolution::edges_of(graph, source);
    if ordered::lookup(graph, source) is Some {
        ordered::lemma_place_exists(ordered::keys_of(graph), source);
        let at = ordered::place(ordered::keys_of(graph), source);
        assert(edges_fit(resolve, realm, graph[at].1));
    } else {
        assert(ordered::keys_of(edges) =~= Seq::<Seq<char>>::empty());
    }
}

proof fn lemma_with_edge_fits(
    resolve: ResolveView,
    realm: Realm,
    graph: GraphView,
    source: PackageIdView,
    alias: Seq<char>,
    dep: PackageIdView,
)
    requires
        graph_fits(resolve, realm, graph),
        ordered::holds(resolve.activated, source),
        edge_fits(resolve, realm, dep),
    ensures
        graph_fits(resolve, realm, resolution::with_edge(graph, source, alias, dep)),
{
    let edges = resolution::edges_of(graph, source);
    let put = ordered::with_entry(edges, alias, dep);
    let after = resolution::with_edge(graph, source, alias, dep);
    lemma_edges_of_fit(resolve, realm, graph, source);
    ordered::lemma_with_entry_values(
        edges,
        alias,
        dep,
        |target: PackageIdView| edge_fits(resolve, realm, target),
    );
    ordered::lemma_keys_of_with_entry(edges, alias, dep);
    ordered::lemma_with_key(ordered::keys_of(edges), alias);
    assert(edges_fit(resolve, realm, put));
    ordered::lemma_with_entry_values(
        graph,
        source,
        put,
        |edges: resolution::EdgesView| edges_fit(resolve, realm, edges),
    );
    let keys = ordered::keys_of(graph);
    ordered::lemma_keys_of_with_entry(graph, source, put);
    ordered::lemma_with_key(keys, source);
    assert forall|i: int| 0 <= i < after.len() implies ordered::holds(
        resolve.activated,
        (#[trigger] after[i]).0,
    ) by {
        assert(ordered::keys_of(after)[i] == after[i].0);
        if after[i].0 != source {
            assert(keys.contains(after[i].0));
            let j = choose|j: int| 0 <= j < keys.len() && keys[j] == after[i].0;
            assert(graph[j].0 == after[i].0);
        }
    }
}

/// Adding a dependency keeps the others of all realms.
proof fn lemma_activate_closed(
    before: ResolveView,
    after: ResolveView,
    source: PackageIdView,
    alias: Seq<char>,
    realm: Realm,
    dep: PackageIdView,
)
    requires
        is_closed(before),
        all_kept(before, after),
        ordered::holds(before.activated, source),
        edge_fits(after, realm, dep),
        forall|r: Realm|
            #[trigger] after.graph(r) == if r == realm {
                resolution::with_edge(before.graph(r), source, alias, dep)
            } else {
                before.graph(r)
            },
    ensures
        is_closed(after),
{
    assert forall|r: Realm| graph_fits(after, r, #[trigger] after.graph(r)) by {
        assert(graph_fits(before, r, before.graph(r)));
        lemma_graph_kept(before, after, r, before.graph(r));
        if r == realm {
            lemma_with_edge_fits(after, r, before.graph(r), source, alias, dep);
        }
    }
}

pub(crate) proof fn lemma_step_closed(state: StateView, context: ContextView)
    requires
        state.queue.len() > 0,
        is_state(state, context),
        is_closed(state.resolve),
        requests_fit(state),
    ensures
        resolution::step(state, context) matches Ok(next) ==> is_closed(next.resolve)
            && requests_fit(next),
{
    lemma_step_shape(state, context);
    lemma_step_keeps(state, context);
    resolution::lemma_step_sound(state, context);
    if let Ok(next) = resolution::step(state, context) {
        let request = state.queue[0];
        if exists|id: PackageIdView| #[trigger] met_by_reuse(state, context, next, id) {
            let id = choose|id: PackageIdView| #[trigger] met_by_reuse(state, context, next, id);
            lemma_reuse_keeps(state.resolve, request, id);
            let merged = known(next.resolve, id).origin_realm;
            lemma_activate_closed(
                state.resolve,
                next.resolve,
                request.source,
                request.alias,
                merged,
                id,
            );
            assert forall|i: int| 0 <= i < next.queue.len() implies ordered::holds(
                next.resolve.activated,
                (#[trigger] next.queue[i]).source,
            ) by {
                assert(next.queue[i] == state.queue[i + 1]);
            }
        } else {
            let candidate = choose|candidate: ManifestView| #[trigger]
                met_by_candidate(state, context, next, candidate);
            let found = resolution::find_source(context.sources, request.kind->Registry_0, 0);
            let id = candidate.package_id();
            lemma_take_in_keeps(state.resolve, request, candidate, found->At_0);
            resolution::lemma_take_in(state.resolve, request, candidate, found->At_0);
            ordered::lemma_with_key(state.resolve.activated, id);
            lemma_activate_closed(
                state.resolve,
                next.resolve,
                request.source,
                request.alias,
                request.origin_realm,
                id,
            );
            let rest = state.queue.drop_first();
            assert forall|i: int| 0 <= i < next.queue.len() implies ordered::holds(
                next.resolve.activated,
                (#[trigger] next.queue[i]).source,
            ) by {
                if i < rest.len() {
                    assert(next.queue[i] == state.queue[i + 1]);
                } else {
                    assert(next.queue[i].source == id);
                }
            }
        }
    }
}

/// The requests of a package that was taken in join those of chosen packages.
pub(crate) proof fn lemma_step_requests(state: StateView, context: ContextView)
    requires
        state.queue.len() > 0,
        is_state(state, context),
        requests_fit(state),
    ensures
        resolution::step(state, context) matches Ok(next) ==> requests_fit(next),
{
    lemma_step_shape(state, context);
    resolution::lemma_step_sound(state, context);
    if let Ok(next) = resolution::step(state, context) {
        let request = state.queue[0];
        let rest = state.queue.drop_first();
        assert forall|i: int| 0 <= i < next.queue.len() implies ordered::holds(
            next.resolve.activated,
            (#[trigger] next.queue[i]).source,
        ) by {
            if i < rest.len() {
                assert(next.queue[i] == state.queue[i + 1]);
                assert(ordered::holds(state.resolve.activated, state.queue[i + 1].source));
            } else {
                let candidate = choose|candidate: ManifestView| #[trigger]
                    met_by_candidate(state, context, next, candidate);
                assert(met_by_candidate(state, context, next, candidate));
                let found = resolution::find_source(
                    context.sources,
                    request.kind->Registry_0,
                    0,
                );
                resolution::lemma_take_in(state.resolve, request, candidate, found->At_0);
                ordered::lemma_with_key(state.resolve.activated, candidate.package_id());
                assert(next.queue[i].source == candidate.package_id());
            }
        }
    }
}

proof fn lemma_run_closed(state: StateView, context: ContextView)
    requires
        is_state(state, context),
        is_closed(state.resolve),
        requests_fit(state),
    ensures
        resolution::run(state, context) matches Ok(resolve) ==> is_closed(resolve),
    decreases
            resolution::fresh(context.sources.answers, state.resolve.activated),
            state.queue.len(),
{
    if state.queue.len() > 0 {
        resolution::lemma_step_progress(state, context);
        resolution::lemma_step_sound(state, context);
        lemma_step_closed(state, context);
        if let Ok(next) = resolution::step(state, context) {
            lemma_run_closed(next, context);
        }
    }
}

/// What comes out of resolution is as closed as what was chosen.
pub(crate) proof fn lemma_outcome_closed(state: StateView, context: ContextView)
    requires
        is_state(state, context),
        is_closed(state.resolve),
        requests_fit(state),
    ensures
        resolution::outcome(state, context) matches Ok(resolve) ==> is_closed(resolve),
{
    lemma_outcome(state, context);
    lemma_run_closed(state, context);
    if let Ok(before) = resolution::run(state, context) {
        let after = resolution::outcome(state, context)->Ok_0;
        assert forall|realm: Realm| graph_fits(after, realm, #[trigger] after.graph(realm)) by {
            assert(after.graph(realm) == before.graph(realm));
            lemma_graph_kept(before, after, realm, before.graph(realm));
        }
    }
}

pub(crate) proof fn lemma_no_edges_closed(resolve: ResolveView)
    requires
        forall|realm: Realm| (#[trigger] resolve.graph(realm)) == Seq::<
            (PackageIdView, resolution::EdgesView),
        >::empty(),
    ensures
        is_closed(resolve),
{
    assert forall|realm: Realm| graph_fits(resolve, realm, #[trigger] resolve.graph(realm)) by {
        assert(ordered::keys_of(resolve.graph(realm)) =~= Seq::<PackageIdView>::empty());
    }
}

pub(crate) proof fn lemma_workspace_start_closed(members: MembersView)
    ensures
        is_closed(resolution::workspace_start(members).resolve),
        requests_fit(resolution::workspace_start(members)),
        forall|realm: Realm|
            (#[trigger] resolution::workspace_start(members).resolve.graph(realm)) == Seq::<
                (PackageIdView, resolution::EdgesView),
            >::empty(),
    decreases members.len(),
{
    let start = resolution::workspace_start(members);
    if members.len() > 0 {
        let fewer = members.drop_last();
        let before = resolution::workspace_start(fewer);
        lemma_workspace_start_closed(fewer);
        resolution::lemma_workspace_start(fewer);
        let (dir, manifest) = members.last();
        resolution::lemma_with_root(
            before.resolve,
            manifest,
            PackageSourceIdView::Path(dir.text),
            true,
        );
        assert forall|i: int| 0 <= i < start.queue.len() implies ordered::holds(
            start.resolve.activated,
            (#[trigger] start.queue[i]).source,
        ) by {
            if i < before.queue.len() {
                assert(start.queue[i] == before.queue[i]);
                assert(ordered::holds(before.resolve.activated, before.queue[i].source));
            } else {
                assert(start.queue[i].source == manifest.package_id());
            }
        }
        assert forall|realm: Realm|
            (#[trigger] start.resolve.graph(realm)) == Seq::<
                (PackageIdView, resolution::EdgesView),
            >::empty() by {
            assert(start.resolve.graph(realm) == before.resolve.graph(realm));
        }
    }
    lemma_no_edges_closed(start.resolve);
}

/// Of a single package, every dependency is one of a chosen package on a chosen
/// package, which can be depended upon from the dependency's realm.
pub proof fn law_package_dependencies_are_chosen(
    manifest: ManifestView,
    try_to_use: Seq<PackageIdView>,
    sources: PackageSourceMapView,
)
    requires
        sources.answers_fit(),
    ensures
        resolution::outcome(
            resolution::package_start(manifest),
            resolution::package_context(try_to_use, sources),
        ) matches Ok(resolve) ==> is_closed(resolve),
{
    let start = resolution::package_start(manifest);
    lemma_package_start(manifest, try_to_use, sources);
    lemma_no_edges_closed(start.resolve);
    assert(start.resolve.activated[0] == manifest.package_id());
    lemma_outcome_closed(start, resolution::package_context(try_to_use, sources));
}

/// Of a workspace, every dependency is one of a chosen package on a chosen
/// package, which can be depended upon from the dependency's realm.
pub proof fn law_workspace_dependencies_are_chosen(
    workspace: WorkspaceView,
    try_to_use: Seq<PackageIdView>,
    sources: PackageSourceMapView,
    canonical: CanonicalPathsView,
)
    requires
        sources.answers_fit(),
        workspace.is_sound(),
    ensures
        resolution::outcome(
            resolution::workspace_start(workspace.members),
            workspace_context(workspace, try_to_use, sources, canonical),
        ) matches Ok(resolve) ==> is_closed(resolve),
{
    lemma_workspace_is_state(workspace, try_to_use, sources, canonical);
    lemma_workspace_start_closed(workspace.members);
    lemma_outcome_closed(
        resolution::workspace_start(workspace.members),
        workspace_context(workspace, try_to_use, sources, canonical),
    );
}

// ---------------------------------------------------------------------------
// Graphs that are given
// ---------------------------------------------------------------------------

/// All that a package depends on was chosen.
pub open spec fn edges_joined(
    activated: Seq<PackageIdView>,
    edges: resolution::EdgesView,
) -> bool {
    &&& ordered::ascending(ordered::keys_of(edges))
    &&& forall|j: int| 0 <= j < edges.len() ==> ordered::holds(activated, (#[trigger] edges[j]).1)
}

/// All dependencies are those of chosen packages on chosen packages.
pub open spec fn graph_joined(activated: Seq<PackageIdView>, graph: GraphView) -> bool {
    &&& ordered::ascending(ordered::keys_of(graph))
    &&& forall|i: int| 0 <= i < graph.len() ==> ordered::holds(activated, (#[trigger] graph[i]).0)
    &&& forall|i: int| 0 <= i < graph.len() ==> edges_joined(activated, (#[trigger] graph[i]).1)
}

/// All dependencies of all realms are those of chosen packages on chosen
/// packages.
pub open spec fn is_joined(resolve: ResolveView) -> bool {
    forall|realm: Realm| graph_joined(resolve.activated, #[trigger] resolve.graph(realm))
}

proof fn lemma_joined_more(
    before: Seq<PackageIdView>,
    after: Seq<PackageIdView>,
    graph: GraphView,
)
    requires
        graph_joined(before, graph),
        forall|id: PackageIdView|
            ordered::holds(before, id) ==> #[trigger] ordered::holds(after, id),
    ensures
        graph_joined(after, graph),
{
    assert forall|i: int| 0 <= i < graph.len() implies edges_joined(
        after,
        (#[trigger] graph[i]).1,
    ) by {
        let edges = graph[i].1;
        assert(edges_joined(before, edges));
        assert forall|j: int| 0 <= j < edges.len() implies ordered::holds(
            after,
            (#[trigger] edges[j]).1,
        ) by {
            assert(ordered::holds(before, edges[j].1));
        }
    }
}

proof fn lemma_with_edge_joined(
    activated: Seq<PackageIdView>,
    graph: GraphView,
    source: PackageIdView,
    alias: Seq<char>,
    dep: PackageIdView,
)
    requires
        graph_joined(activated, graph),
        ordered::holds(activated, source),
        ordered::holds(activated, dep),
    ensures
        graph_joined(activated, resolution::with_edge(graph, source, alias, dep)),
{
    let edges = resolution::edges_of(graph, source);
    let put = ordered::with_entry(edges, alias, dep);
    let after = resolution::with_edge(graph, source, alias, dep);
    if ordered::lookup(graph, source) is Some {
        ordered::lemma_place_exists(ordered::keys_of(graph), source);
        let at = ordered::place(ordered::keys_of(graph), source);
        assert(edges_joined(activated, graph[at].1));
    } else {
        assert(ordered::keys_of(edges) =~= Seq::<Seq<char>>::empty());
    }
    ordered::lemma_with_entry_values(
        edges,
        alias,
        dep,
        |target: PackageIdView| ordered::holds(activated, target),
    );
    ordered::lemma_keys_of_with_entry(edges, alias, dep);
    ordered::lemma_with_key(ordered::keys_of(edges), alias);
    assert(edges_joined(activated, put));
    ordered::lemma_with_entry_values(
        graph,
        source,
        put,
        |edges: resolution::EdgesView| edges_joined(activated, edges),
    );
    let keys = ordered::keys_of(graph);
    ordered::lemma_keys_of_with_entry(graph, source, put);
    ordered::lemma_with_key(keys, source);
    assert forall|i: int| 0 <= i < after.len() implies ordered::holds(
        activated,
        (#[trigger] after[i]).0,
    ) by {
        assert(ordered::keys_of(after)[i] == after[i].0);
        if after[i].0 != source {
            assert(keys.contains(after[i].0));
            let j = choose|j: int| 0 <= j < keys.len() && keys[j] == after[i].0;
            assert(graph[j].0 == after[i].0);
        }
    }
}

proof fn lemma_step_joined(state: StateView, context: ContextView)
    requires
        state.queue.len() > 0,
        is_state(state, context),
        is_joined(state.resolve),
        requests_fit(state),
    ensures
        resolution::step(state, context) matches Ok(next) ==> is_joined(next.resolve)
            && requests_fit(next),
{
    lemma_step_shape(state, context);
    resolution::lemma_step_sound(state, context);
    if let Ok(next) = resolution::step(state, context) {
        let request = state.queue[0];
        let rest = state.queue.drop_first();
        let by_reuse = exists|id: PackageIdView| #[trigger]
            met_by_reuse(state, context, next, id);
        let id = if by_reuse {
            choose|id: PackageIdView| #[trigger] met_by_reuse(state, context, next, id)
        } else {
            (choose|candidate: ManifestView| #[trigger]
                met_by_candidate(state, context, next, candidate)).package_id()
        };
        if by_reuse {
            resolution::lemma_reuse(state.resolve, request, id);
        } else {
            let candidate = choose|candidate: ManifestView| #[trigger]
                met_by_candidate(state, context, next, candidate);
            let found = resolution::find_source(context.sources, request.kind->Registry_0, 0);
            resolution::lemma_take_in(state.resolve, request, candidate, found->At_0);
            ordered::lemma_with_key(state.resolve.activated, id);
        }
        assert forall|realm: Realm| graph_joined(
            next.resolve.activated,
            #[trigger] next.resolve.graph(realm),
        ) by {
            let graph = state.resolve.graph(realm);
            assert(graph_joined(state.resolve.activated, graph));
            lemma_joined_more(state.resolve.activated, next.resolve.activated, graph);
            lemma_with_edge_joined(
                next.resolve.activated,
                graph,
                request.source,
                request.alias,
                id,
            );
        }
        assert forall|i: int| 0 <= i < next.queue.len() implies ordered::holds(
            next.resolve.activated,
            (#[trigger] next.queue[i]).source,
        ) by {
            if i < rest.len() {
                assert(next.queue[i] == state.queue[i + 1]);
            } else {
                assert(next.queue[i].source == id);
            }
        }
    }
}

proof fn lemma_run_joined(state: StateView, context: ContextView)
    requires
        is_state(state, context),
        is_joined(state.resolve),
        requests_fit(state),
    ensures
        is_joined(resolution::ending(state, context).resolve),
        requests_fit(resolution::ending(state, context)),
        resolution::run(state, context) matches Ok(resolve) ==> is_joined(resolve),
    decreases
            resolution::fresh(context.sources.answers, state.resolve.activated),
            state.queue.len(),
{
    if state.queue.len() > 0 {
        resolution::lemma_step_progress(state, context);
        resolution::lemma_step_sound(state, context);
        lemma_step_joined(state, context);
        if let Ok(next) = resolution::step(state, context) {
            lemma_run_joined(next, context);
        }
    }
}

/// A graph of chosen packages, of exactly which something is known, stays one
/// while the requests of chosen packages are met, and all packages stay. Where a
/// request is refused, this holds of what was chosen until then.
pub proof fn law_graphs_stay_joined(state: StateView, context: ContextView)
    requires
        is_state(state, context),
        is_joined(state.resolve),
        requests_fit(state),
    ensures
        resolution::ending(state, context).resolve.is_sound(),
        is_joined(resolution::ending(state, context).resolve),
        requests_fit(resolution::ending(state, context)),
        forall|id: PackageIdView|
            ordered::holds(state.resolve.activated, id) ==> #[trigger] ordered::holds(
                resolution::ending(state, context).resolve.activated,
                id,
            ),
        resolution::outcome(state, context) matches Ok(resolve) ==> {
            &&& resolve.is_sound()
            &&& is_joined(resolve)
            &&& forall|id: PackageIdView|
                ordered::holds(state.resolve.activated, id) ==> #[trigger] ordered::holds(
                    resolve.activated,
                    id,
                )
        },
{
    lemma_outcome(state, context);
    lemma_run_sound(state, context);
    lemma_run_joined(state, context);
    if let Ok(before) = resolution::run(state, context) {
        let after = resolution::outcome(state, context)->Ok_0;
        assert forall|realm: Realm| graph_joined(
            after.activated,
            #[trigger] after.graph(realm),
        ) by {
            assert(after.graph(realm) == before.graph(realm));
            assert(graph_joined(before.activated, before.graph(realm)));
        }
    }
}

} // verus!
