//! Packages are chosen because others depend on them, and originate from no less
//! restrictive a realm than that takes.

use vstd::prelude::*;

use crate::manifest::{ManifestView, Realm};
use crate::ordered;
use crate::package_id;
use crate::package_id::PackageIdView;
use crate::package_source::PackageSourceMapView;
use crate::resolution;
use crate::resolution::laws;
use crate::resolution::origins;
use crate::resolution::origins::KnownView;
use crate::resolution::{ContextView, LinkView, MetadataView, StateView};
use crate::workspace::{CanonicalPathsView, WorkspaceView};

verus! {

/// One realm is the other or a more restrictive one.
pub open spec fn is_within(realm: Realm, other: Realm) -> bool {
    resolution::merged_realm(realm, other) == other
}

/// The first packages are still chosen.
pub open spec fn are_chosen(first: Seq<PackageIdView>, activated: Seq<PackageIdView>) -> bool {
    forall|id: PackageIdView|
        ordered::holds(first, id) ==> #[trigger] ordered::holds(activated, id)
}

// ---------------------------------------------------------------------------
// Origins
// ---------------------------------------------------------------------------

/// A package originates from no less restrictive a realm than a request that it
/// met takes it to: that of the section of a root, or the one that another
/// package asks for it from.
pub open spec fn is_due(
    known: KnownView,
    first: Seq<PackageIdView>,
    link: LinkView,
    id: PackageIdView,
) -> bool {
    let origin_realm = ordered::lookup(known, id)->Some_0.origin_realm;
    let source = ordered::lookup(known, link.request.source);
    &&& package_id::same_id(link.target, id)
    &&& source is Some
    &&& if ordered::holds(first, link.request.source) {
        link.request.origin_realm == origin_realm
    } else {
        is_within(
            origin_realm,
            resolution::passed_on(source->Some_0.origin_realm, link.request.realm),
        )
    }
}

/// There is such a request.
pub open spec fn has_due(
    known: KnownView,
    first: Seq<PackageIdView>,
    links: Seq<LinkView>,
    id: PackageIdView,
) -> bool {
    exists|j: int| 0 <= j < links.len() && is_due(known, first, #[trigger] links[j], id)
}

/// There is for all packages but the first ones.
pub open spec fn all_due(
    known: KnownView,
    first: Seq<PackageIdView>,
    links: Seq<LinkView>,
) -> bool {
    forall|id: PackageIdView|
        #![trigger has_due(known, first, links, id)]
        ordered::holds(ordered::keys_of(known), id) && !ordered::holds(first, id) ==> has_due(
            known,
            first,
            links,
            id,
        )
}

/// What packages ask for, but the first ones, they ask for from where they
/// originate.
spec fn asks_due(state: StateView, first: Seq<PackageIdView>) -> bool {
    forall|k: int|
        0 <= k < state.queue.len() && !ordered::holds(
            first,
            (#[trigger] state.queue[k]).source,
        ) ==> is_within(
            state.queue[k].origin_realm,
            resolution::passed_on(
                laws::known(state.resolve, state.queue[k].source).origin_realm,
                state.queue[k].realm,
            ),
        )
}

/// A request takes a package where it did before, once others have moved to less
/// restrictive realms.
proof fn lemma_still_due(
    before: KnownView,
    after: KnownView,
    first: Seq<PackageIdView>,
    links: Seq<LinkView>,
    id: PackageIdView,
)
    requires
        has_due(before, first, links, id),
        ordered::lookup(before, id) is Some,
        ordered::lookup(after, id) is Some,
        ordered::lookup(after, id)->Some_0.origin_realm == ordered::lookup(
            before,
            id,
        )->Some_0.origin_realm,
        forall|other: PackageIdView|
            (#[trigger] ordered::lookup(before, other)) is Some ==> ordered::lookup(
                after,
                other,
            ) is Some && laws::is_kept(
                ordered::lookup(before, other)->Some_0,
                ordered::lookup(after, other)->Some_0,
            ),
    ensures
        has_due(after, first, links, id),
{
    let j = choose|j: int|
        0 <= j < links.len() && is_due(before, first, #[trigger] links[j], id);
    assert(ordered::lookup(before, links[j].request.source) is Some);
    assert(is_due(after, first, links[j], id));
}

proof fn lemma_step_due(
    state: StateView,
    context: ContextView,
    first: Seq<PackageIdView>,
    all: Seq<LinkView>,
)
    requires
        state.queue.len() > 0,
        laws::is_state(state, context),
        laws::requests_fit(state),
        are_chosen(first, state.resolve.activated),
        asks_due(state, first),
        all_due(state.resolve.metadata, first, all),
        all.contains(
            LinkView { request: state.queue[0], target: resolution::target_of(state, context) },
        ),
    ensures
        resolution::step(state, context) matches Ok(next) ==> {
            &&& laws::requests_fit(next)
            &&& asks_due(next, first)
            &&& all_due(next.resolve.metadata, first, all)
        },
{
    laws::lemma_step_shape(state, context);
    laws::lemma_step_keeps(state, context);
    resolution::lemma_step_sound(state, context);
    if let Ok(next) = resolution::step(state, context) {
        let request = state.queue[0];
        let rest = state.queue.drop_first();
        let target = resolution::target_of(state, context);
        let link = LinkView { request, target };
        let metadata = state.resolve.metadata;
        let known = next.resolve.metadata;
        let n = choose|n: int| 0 <= n < all.len() && all[n] == link;
        let by_reuse = laws::met_by_reuse(state, context, next, target);
        let candidate = choose|candidate: ManifestView| #[trigger]
            laws::met_by_candidate(state, context, next, candidate) && candidate.package_id()
                == target;
        let made = resolution::transitive_requests(candidate, request.origin_realm);
        assert forall|other: PackageIdView|
            (#[trigger] ordered::lookup(metadata, other)) is Some implies ordered::lookup(
            known,
            other,
        ) is Some && laws::is_kept(
            ordered::lookup(metadata, other)->Some_0,
            ordered::lookup(known, other)->Some_0,
        ) by {
            assert(ordered::holds(state.resolve.activated, other));
            assert(ordered::holds(next.resolve.activated, other));
            assert(laws::is_kept(
                laws::known(state.resolve, other),
                laws::known(next.resolve, other),
            ));
        }
        assert(ordered::holds(state.resolve.activated, request.source));
        assert(ordered::lookup(metadata, request.source) is Some);
        if by_reuse {
            resolution::lemma_reuse(state.resolve, request, target);
            laws::lemma_reuse_keeps(state.resolve, request, target);
        } else {
            let found = resolution::find_source(context.sources, request.kind->Registry_0, 0);
            resolution::lemma_take_in(state.resolve, request, candidate, found->At_0);
            laws::lemma_take_in_keeps(state.resolve, request, candidate, found->At_0);
            ordered::lemma_with_key(state.resolve.activated, target);
        }
        assert forall|k: int| 0 <= k < next.queue.len() implies ordered::holds(
            next.resolve.activated,
            (#[trigger] next.queue[k]).source,
        ) && (!ordered::holds(first, next.queue[k].source) ==> is_within(
            next.queue[k].origin_realm,
            resolution::passed_on(
                laws::known(next.resolve, next.queue[k].source).origin_realm,
                next.queue[k].realm,
            ),
        )) by {
            if k < rest.len() {
                assert(next.queue[k] == state.queue[k + 1]);
                let source = state.queue[k + 1].source;
                assert(ordered::holds(state.resolve.activated, source));
                assert(ordered::lookup(metadata, source) is Some);
            } else {
                assert(next.queue[k] == made[k - rest.len()]);
                assert(next.queue[k].source == target);
            }
        }
        assert forall|id: PackageIdView|
            #![trigger has_due(known, first, all, id)]
            ordered::holds(ordered::keys_of(known), id) && !ordered::holds(
                first,
                id,
            ) implies has_due(known, first, all, id) by {
            package_id::lemma_id_key_injective(target, id);
            if package_id::same_id(target, id) {
                ordered::lemma_lookup_same(known, target, id);
            }
            if package_id::same_id(target, id) && ordered::lookup(
                known,
                id,
            )->Some_0.origin_realm == request.origin_realm {
                assert(state.queue[0] == request);
                assert(is_due(known, first, all[n], id));
            } else {
                if !by_reuse {
                    assert(ordered::holds(state.resolve.activated, id));
                }
                assert(ordered::holds(ordered::keys_of(metadata), id));
                assert(has_due(metadata, first, all, id));
                lemma_origin_same(state, context, target, id);
                lemma_still_due(metadata, known, first, all, id);
            }
        }
    }
}

/// A step moves no package but the one that it meets a request with.
proof fn lemma_origin_same(
    state: StateView,
    context: ContextView,
    target: PackageIdView,
    id: PackageIdView,
)
    requires
        state.queue.len() > 0,
        laws::is_state(state, context),
        resolution::step(state, context) is Ok,
        target == resolution::target_of(state, context),
        ordered::holds(state.resolve.activated, id),
        package_id::same_id(target, id) ==> laws::known(
            (resolution::step(state, context)->Ok_0).resolve,
            id,
        ).origin_realm != state.queue[0].origin_realm,
    ensures
        laws::known((resolution::step(state, context)->Ok_0).resolve, id).origin_realm
            == laws::known(state.resolve, id).origin_realm,
{
    laws::lemma_step_shape(state, context);
    let next = resolution::step(state, context)->Ok_0;
    let request = state.queue[0];
    let metadata = state.resolve.metadata;
    package_id::lemma_id_key_injective(target, id);
    if laws::met_by_reuse(state, context, next, target) {
        let known = laws::known(state.resolve, target);
        let origin_realm = resolution::merged_realm(known.origin_realm, request.origin_realm);
        ordered::lemma_lookup_with_entry(
            metadata,
            target,
            MetadataView { origin_realm, ..known },
            id,
        );
        if package_id::same_id(target, id) {
            ordered::lemma_lookup_same(metadata, target, id);
        }
    } else {
        let candidate = choose|candidate: ManifestView| #[trigger]
            laws::met_by_candidate(state, context, next, candidate) && candidate.package_id()
                == target;
        let found = resolution::find_source(context.sources, request.kind->Registry_0, 0);
        let put = MetadataView {
            realm: candidate.package.realm,
            origin_realm: request.origin_realm,
            source_registry: found->At_0,
            is_workspace_member: false,
        };
        ordered::lemma_lookup_with_entry(metadata, target, put, id);
    }
}

proof fn lemma_run_due(
    state: StateView,
    context: ContextView,
    first: Seq<PackageIdView>,
    all: Seq<LinkView>,
)
    requires
        laws::is_state(state, context),
        laws::requests_fit(state),
        are_chosen(first, state.resolve.activated),
        asks_due(state, first),
        all_due(state.resolve.metadata, first, all),
        forall|j: int|
            0 <= j < resolution::links(state, context).len() ==> all.contains(
                #[trigger] resolution::links(state, context)[j],
            ),
    ensures
        resolution::run(state, context) matches Ok(resolve) ==> all_due(
            resolve.metadata,
            first,
            all,
        ),
    decreases
            resolution::fresh(context.sources.answers, state.resolve.activated),
            state.queue.len(),
{
    if state.queue.len() > 0 {
        resolution::lemma_step_progress(state, context);
        resolution::lemma_step_sound(state, context);
        if let Ok(next) = resolution::step(state, context) {
            let link = LinkView {
                request: state.queue[0],
                target: resolution::target_of(state, context),
            };
            let later = resolution::links(next, context);
            let here = resolution::links(state, context);
            assert(here == seq![link] + later);
            assert(here[0] == link);
            assert forall|j: int| 0 <= j < later.len() implies all.contains(
                #[trigger] later[j],
            ) by {
                assert(here[j + 1] == later[j]);
            }
            lemma_step_due(state, context, first, all);
            assert forall|id: PackageIdView| ordered::holds(first, id) implies #[trigger]
                ordered::holds(next.resolve.activated, id) by {
                assert(ordered::holds(state.resolve.activated, id));
            }
            lemma_run_due(next, context, first, all);
        }
    }
}

proof fn lemma_raised_due(
    known: KnownView,
    first: Seq<PackageIdView>,
    all: Seq<LinkView>,
    n: int,
)
    requires
        ordered::ascending(ordered::keys_of(known)),
        all_due(known, first, all),
        0 <= n <= all.len(),
    ensures
        all_due(origins::all_raised(known, first, all.take(n)), first, all),
        ordered::ascending(ordered::keys_of(origins::all_raised(known, first, all.take(n)))),
    decreases n,
{
    if n == 0 {
        assert(all.take(0) =~= Seq::<LinkView>::empty());
    } else {
        let fewer = all.take(n).drop_last();
        assert(fewer =~= all.take(n - 1));
        let link = all[n - 1];
        assert(all.take(n).last() == link);
        lemma_raised_due(known, first, all, n - 1);
        let before = origins::all_raised(known, first, fewer);
        let after = origins::raised(before, first, link);
        let keys = ordered::keys_of(before);
        origins::lemma_raised(before, first, link);
        if after != before {
            let source = ordered::lookup(before, link.request.source)->Some_0;
            let target = ordered::lookup(before, link.target)->Some_0;
            let asked = resolution::passed_on(source.origin_realm, link.request.realm);
            let origin_realm = resolution::merged_realm(target.origin_realm, asked);
            let put = MetadataView { origin_realm, ..target };
            assert forall|other: PackageIdView|
                (#[trigger] ordered::lookup(before, other)) is Some implies ordered::lookup(
                after,
                other,
            ) is Some && laws::is_kept(
                ordered::lookup(before, other)->Some_0,
                ordered::lookup(after, other)->Some_0,
            ) by {
                let at = ordered::place(keys, other);
                ordered::lemma_place_exists(keys, other);
                assert(laws::is_kept(before[at].1, after[at].1));
            }
            assert forall|id: PackageIdView|
                #![trigger has_due(after, first, all, id)]
                ordered::holds(ordered::keys_of(after), id) && !ordered::holds(
                    first,
                    id,
                ) implies has_due(after, first, all, id) by {
                assert(has_due(before, first, all, id));
                ordered::lemma_lookup_with_entry(before, link.target, put, id);
                package_id::lemma_id_key_injective(link.target, id);
                assert(ordered::lookup(before, id) is Some);
                if package_id::same_id(link.target, id) && origin_realm == asked {
                    assert(ordered::lookup(before, link.request.source) is Some);
                    assert(is_due(after, first, all[n - 1], id));
                } else {
                    if package_id::same_id(link.target, id) {
                        ordered::lemma_lookup_same(before, link.target, id);
                    }
                    lemma_still_due(before, after, first, all, id);
                }
            }
        }
    }
}

proof fn lemma_spread_due(known: KnownView, first: Seq<PackageIdView>, all: Seq<LinkView>)
    requires
        ordered::ascending(ordered::keys_of(known)),
        all_due(known, first, all),
    ensures
        all_due(origins::spread(known, first, all), first, all),
    decreases origins::weights(known),
{
    let next = origins::all_raised(known, first, all);
    assert(all.take(all.len() as int) =~= all);
    lemma_raised_due(known, first, all, all.len() as int);
    origins::lemma_all_raised(known, first, all);
    if next != known {
        lemma_spread_due(next, first, all);
    }
}

proof fn lemma_outcome_due(start: StateView, context: ContextView)
    requires
        laws::is_state(start, context),
        laws::requests_fit(start),
    ensures
        resolution::outcome(start, context) matches Ok(resolve) ==> all_due(
            resolve.metadata,
            start.resolve.activated,
            resolution::links(start, context),
        ),
{
    let first = start.resolve.activated;
    let all = resolution::links(start, context);
    assert forall|j: int| 0 <= j < all.len() implies all.contains(#[trigger] all[j]) by {}
    lemma_run_due(start, context, first, all);
    laws::lemma_run_sound(start, context);
    if let Ok(before) = resolution::run(start, context) {
        lemma_spread_due(before.metadata, first, all);
    }
}

/// Of a single package, every chosen package but the root met a request of the
/// root in the section for the realm that it originates from, or one of another
/// chosen package that asked for it from there or from a less restrictive realm.
/// No less restrictive realm would have been needed.
pub proof fn law_package_origins_are_needed(
    manifest: ManifestView,
    try_to_use: Seq<PackageIdView>,
    sources: PackageSourceMapView,
)
    requires
        sources.answers_fit(),
    ensures
        resolution::outcome(
            resolution::package_start(manifest),
            resolution::package_context(try_to_use, sources),
        ) matches Ok(resolve) ==> all_due(
            resolve.metadata,
            seq![manifest.package_id()],
            resolution::links(
                resolution::package_start(manifest),
                resolution::package_context(try_to_use, sources),
            ),
        ),
{
    let start = resolution::package_start(manifest);
    laws::lemma_package_start(manifest, try_to_use, sources);
    assert(start.resolve.activated[0] == manifest.package_id());
    lemma_outcome_due(start, resolution::package_context(try_to_use, sources));
}

/// Of a workspace, every chosen package but the members met a request of a member
/// in the section for the realm that it originates from, or one of another chosen
/// package that asked for it from there or from a less restrictive realm. No less
/// restrictive realm would have been needed.
pub proof fn law_workspace_origins_are_needed(
    workspace: WorkspaceView,
    try_to_use: Seq<PackageIdView>,
    sources: PackageSourceMapView,
    canonical: CanonicalPathsView,
)
    requires
        sources.answers_fit(),
        workspace.is_sound(),
    ensures
        resolution::outcome(
            resolution::workspace_start(workspace.members),
            laws::workspace_context(workspace, try_to_use, sources, canonical),
        ) matches Ok(resolve) ==> all_due(
            resolve.metadata,
            resolution::workspace_start(workspace.members).resolve.activated,
            resolution::links(
                resolution::workspace_start(workspace.members),
                laws::workspace_context(workspace, try_to_use, sources, canonical),
            ),
        ),
{
    laws::lemma_workspace_is_state(workspace, try_to_use, sources, canonical);
    laws::lemma_workspace_start_closed(workspace.members);
    lemma_outcome_due(
        resolution::workspace_start(workspace.members),
        laws::workspace_context(workspace, try_to_use, sources, canonical),
    );
}

// ---------------------------------------------------------------------------
// Ways from the roots
// ---------------------------------------------------------------------------

/// A request of one package was met by another.
pub open spec fn depends_on(links: Seq<LinkView>, a: PackageIdView, b: PackageIdView) -> bool {
    exists|j: int|
        0 <= j < links.len() && package_id::same_id((#[trigger] links[j]).request.source, a)
            && package_id::same_id(links[j].target, b)
}

/// A way from one of the first packages to another, each depending on the next,
/// over packages that were chosen.
pub open spec fn is_way_to(
    way: Seq<PackageIdView>,
    id: PackageIdView,
    activated: Seq<PackageIdView>,
    first: Seq<PackageIdView>,
    links: Seq<LinkView>,
) -> bool {
    &&& way.len() > 0
    &&& ordered::holds(first, way[0])
    &&& package_id::same_id(way.last(), id)
    &&& forall|k: int| 0 <= k < way.len() ==> ordered::holds(activated, #[trigger] way[k])
    &&& forall|k: int| 0 < k < way.len() ==> depends_on(links, way[k - 1], #[trigger] way[k])
}

/// There is a way to a package.
pub open spec fn is_reached(
    id: PackageIdView,
    activated: Seq<PackageIdView>,
    first: Seq<PackageIdView>,
    links: Seq<LinkView>,
) -> bool {
    exists|way: Seq<PackageIdView>| #[trigger] is_way_to(way, id, activated, first, links)
}

/// There is a way to every chosen package.
pub open spec fn all_reached(
    activated: Seq<PackageIdView>,
    first: Seq<PackageIdView>,
    links: Seq<LinkView>,
) -> bool {
    forall|id: PackageIdView|
        #![trigger is_reached(id, activated, first, links)]
        ordered::holds(activated, id) ==> is_reached(id, activated, first, links)
}

proof fn lemma_way_stays(
    way: Seq<PackageIdView>,
    id: PackageIdView,
    before: Seq<PackageIdView>,
    after: Seq<PackageIdView>,
    first: Seq<PackageIdView>,
    links: Seq<LinkView>,
)
    requires
        is_way_to(way, id, before, first, links),
        are_chosen(before, after),
    ensures
        is_way_to(way, id, after, first, links),
{
    assert forall|k: int| 0 <= k < way.len() implies ordered::holds(after, #[trigger] way[k]) by {
        assert(ordered::holds(before, way[k]));
    }
}

proof fn lemma_step_reached(
    state: StateView,
    context: ContextView,
    first: Seq<PackageIdView>,
    all: Seq<LinkView>,
)
    requires
        state.queue.len() > 0,
        laws::is_state(state, context),
        laws::requests_fit(state),
        all_reached(state.resolve.activated, first, all),
        all.contains(
            LinkView { request: state.queue[0], target: resolution::target_of(state, context) },
        ),
    ensures
        resolution::step(state, context) matches Ok(next) ==> all_reached(
            next.resolve.activated,
            first,
            all,
        ),
{
    laws::lemma_step_shape(state, context);
    resolution::lemma_step_sound(state, context);
    if let Ok(next) = resolution::step(state, context) {
        let before = state.resolve.activated;
        let after = next.resolve.activated;
        let request = state.queue[0];
        let target = resolution::target_of(state, context);
        assert forall|id: PackageIdView|
            #![trigger is_reached(id, after, first, all)]
            ordered::holds(after, id) implies is_reached(id, after, first, all) by {
            if ordered::holds(before, id) {
                assert(is_reached(id, before, first, all));
                let way = choose|way: Seq<PackageIdView>| #[trigger]
                    is_way_to(way, id, before, first, all);
                lemma_way_stays(way, id, before, after, first, all);
            } else {
                let source = request.source;
                assert(ordered::holds(before, source));
                assert(is_reached(source, before, first, all));
                let way = choose|way: Seq<PackageIdView>| #[trigger]
                    is_way_to(way, source, before, first, all);
                lemma_way_stays(way, source, before, after, first, all);
                if laws::met_by_reuse(state, context, next, target) {
                    resolution::lemma_reuse(state.resolve, request, target);
                }
                let candidate = choose|candidate: ManifestView| #[trigger]
                    laws::met_by_candidate(state, context, next, candidate)
                        && candidate.package_id() == target;
                let found = resolution::find_source(
                    context.sources,
                    request.kind->Registry_0,
                    0,
                );
                resolution::lemma_take_in(state.resolve, request, candidate, found->At_0);
                ordered::lemma_with_key(before, target);
                package_id::lemma_id_key_injective(target, id);
                let longer = way.push(id);
                let j = choose|j: int|
                    0 <= j < all.len() && all[j] == (LinkView { request, target });
                assert(package_id::same_id(all[j].request.source, way.last()));
                assert(depends_on(all, way.last(), id));
                assert forall|k: int| 0 < k < longer.len() implies depends_on(
                    all,
                    longer[k - 1],
                    #[trigger] longer[k],
                ) by {
                    if k < way.len() {
                        assert(depends_on(all, way[k - 1], way[k]));
                    }
                }
                assert forall|k: int| 0 <= k < longer.len() implies ordered::holds(
                    after,
                    #[trigger] longer[k],
                ) by {
                    if k < way.len() {
                        assert(ordered::holds(after, way[k]));
                    }
                }
                assert(longer[0] == way[0]);
                assert(is_way_to(longer, id, after, first, all));
            }
        }
    }
}

proof fn lemma_run_reached(
    state: StateView,
    context: ContextView,
    first: Seq<PackageIdView>,
    all: Seq<LinkView>,
)
    requires
        laws::is_state(state, context),
        laws::requests_fit(state),
        all_reached(state.resolve.activated, first, all),
        forall|j: int|
            0 <= j < resolution::links(state, context).len() ==> all.contains(
                #[trigger] resolution::links(state, context)[j],
            ),
    ensures
        resolution::run(state, context) matches Ok(resolve) ==> all_reached(
            resolve.activated,
            first,
            all,
        ),
    decreases
            resolution::fresh(context.sources.answers, state.resolve.activated),
            state.queue.len(),
{
    if state.queue.len() > 0 {
        resolution::lemma_step_progress(state, context);
        resolution::lemma_step_sound(state, context);
        if let Ok(next) = resolution::step(state, context) {
            let link = LinkView {
                request: state.queue[0],
                target: resolution::target_of(state, context),
            };
            let later = resolution::links(next, context);
            let here = resolution::links(state, context);
            assert(here == seq![link] + later);
            assert(here[0] == link);
            assert forall|j: int| 0 <= j < later.len() implies all.contains(
                #[trigger] later[j],
            ) by {
                assert(here[j + 1] == later[j]);
            }
            lemma_step_reached(state, context, first, all);
            laws::lemma_step_requests(state, context);
            lemma_run_reached(next, context, first, all);
        }
    }
}

proof fn lemma_outcome_reached(start: StateView, context: ContextView)
    requires
        laws::is_state(start, context),
        laws::requests_fit(start),
    ensures
        resolution::outcome(start, context) matches Ok(resolve) ==> all_reached(
            resolve.activated,
            start.resolve.activated,
            resolution::links(start, context),
        ),
{
    let first = start.resolve.activated;
    let all = resolution::links(start, context);
    assert forall|j: int| 0 <= j < all.len() implies all.contains(#[trigger] all[j]) by {}
    assert forall|id: PackageIdView|
        #![trigger is_reached(id, first, first, all)]
        ordered::holds(first, id) implies is_reached(id, first, first, all) by {
        let way = seq![id];
        assert(is_way_to(way, id, first, first, all));
    }
    laws::lemma_outcome(start, context);
    lemma_run_reached(start, context, first, all);
}

/// Of a single package, requests that were met lead from the root to every chosen
/// package.
pub proof fn law_package_choices_are_reached(
    manifest: ManifestView,
    try_to_use: Seq<PackageIdView>,
    sources: PackageSourceMapView,
)
    requires
        sources.answers_fit(),
    ensures
        resolution::outcome(
            resolution::package_start(manifest),
            resolution::package_context(try_to_use, sources),
        ) matches Ok(resolve) ==> all_reached(
            resolve.activated,
            seq![manifest.package_id()],
            resolution::links(
                resolution::package_start(manifest),
                resolution::package_context(try_to_use, sources),
            ),
        ),
{
    let start = resolution::package_start(manifest);
    laws::lemma_package_start(manifest, try_to_use, sources);
    assert(start.resolve.activated[0] == manifest.package_id());
    lemma_outcome_reached(start, resolution::package_context(try_to_use, sources));
}

/// Of a workspace, requests that were met lead from its members to every chosen
/// package.
pub proof fn law_workspace_choices_are_reached(
    workspace: WorkspaceView,
    try_to_use: Seq<PackageIdView>,
    sources: PackageSourceMapView,
    canonical: CanonicalPathsView,
)
    requires
        sources.answers_fit(),
        workspace.is_sound(),
    ensures
        resolution::outcome(
            resolution::workspace_start(workspace.members),
            laws::workspace_context(workspace, try_to_use, sources, canonical),
        ) matches Ok(resolve) ==> all_reached(
            resolve.activated,
            resolution::workspace_start(workspace.members).resolve.activated,
            resolution::links(
                resolution::workspace_start(workspace.members),
                laws::workspace_context(workspace, try_to_use, sources, canonical),
            ),
        ),
{
    laws::lemma_workspace_is_state(workspace, try_to_use, sources, canonical);
    laws::lemma_workspace_start_closed(workspace.members);
    lemma_outcome_reached(
        resolution::workspace_start(workspace.members),
        laws::workspace_context(workspace, try_to_use, sources, canonical),
    );
}

} // verus!
