//! Every dependency of every chosen package is met.

use vstd::prelude::*;

use crate::manifest::{ManifestView, Realm};
use crate::order;
use crate::ordered;
use crate::ordered::Ranked;
use crate::package_id;
use crate::package_id::PackageIdView;
use crate::package_req::PackageReqView;
use crate::package_source::PackageSourceMapView;
use crate::resolution;
use crate::resolution::laws;
use crate::resolution::origins;
use crate::resolution::{
    ContextView, EdgesView, GraphView, KindView, LinkView, RequestView, ResolveView, StateView,
};
use crate::workspace;
use crate::workspace::{CanonicalPathsView, MembersView, WorkspaceView};

verus! {

/// What a package depends on in a realm under a name.
pub open spec fn edge(
    resolve: ResolveView,
    realm: Realm,
    source: PackageIdView,
    alias: Seq<char>,
) -> Option<PackageIdView> {
    ordered::lookup(resolution::edges_of(resolve.graph(realm), source), alias)
}

/// Whether a package is what was asked for.
pub open spec fn meets(target: PackageIdView, kind: KindView, context: ContextView) -> bool {
    match kind {
        KindView::Registry(req) => req.matches_id(target),
        KindView::Path(dir) => workspace::member_at(
            context.members,
            dir,
            context.canonical,
        ) matches Some(member) && member.package_id() == target,
    }
}

/// A request is met: the package that made it depends, under the name that it
/// gave, on a package that is what it asked for.
pub open spec fn is_met(resolve: ResolveView, request: RequestView, context: ContextView) -> bool {
    exists|realm: Realm|
        (#[trigger] edge(resolve, realm, request.source, request.alias)) is Some && meets(
            edge(resolve, realm, request.source, request.alias)->Some_0,
            request.kind,
            context,
        )
}

/// Two requests are for the same place among the dependencies.
pub open spec fn same_place(a: RequestView, b: RequestView) -> bool {
    package_id::same_id(a.source, b.source) && a.alias == b.alias
}

/// No later request of the row has the same alias. One that has can take the
/// place of the earlier one.
pub open spec fn is_last(requests: Seq<RequestView>, i: int) -> bool {
    forall|j: int|
        i < j < requests.len() ==> (#[trigger] requests[j]).alias != requests[i].alias
}

/// The sources answer with packages that meet the requirement.
pub open spec fn answers_match(sources: PackageSourceMapView) -> bool {
    forall|at: int, i: int|
        #![trigger sources.answers[at].manifests->Some_0[i]]
        0 <= at < sources.answers.len() && sources.answers[at].manifests is Some && 0 <= i
            < sources.answers[at].manifests->Some_0.len() ==> sources.answers[at].req.matches_id(
            sources.answers[at].manifests->Some_0[i].package_id(),
        )
}

/// What holds of every state on the way.
pub open spec fn is_way(state: StateView, context: ContextView) -> bool {
    &&& laws::is_state(state, context)
    &&& laws::is_closed(state.resolve)
    &&& laws::requests_fit(state)
    &&& answers_match(context.sources)
}

pub(crate) proof fn lemma_edge_with(
    graph: GraphView,
    source: PackageIdView,
    alias: Seq<char>,
    dep: PackageIdView,
    other: PackageIdView,
    name: Seq<char>,
)
    requires
        ordered::ascending(ordered::keys_of(graph)),
        forall|s: PackageIdView|
            ordered::ascending(ordered::keys_of(#[trigger] resolution::edges_of(graph, s))),
    ensures
        ordered::lookup(
            resolution::edges_of(resolution::with_edge(graph, source, alias, dep), other),
            name,
        ) == if package_id::same_id(other, source) && name == alias {
            Some(dep)
        } else {
            ordered::lookup(resolution::edges_of(graph, other), name)
        },
{
    let edges = resolution::edges_of(graph, source);
    let put = ordered::with_entry(edges, alias, dep);
    ordered::lemma_lookup_with_entry(graph, source, put, other);
    package_id::lemma_id_key_injective(other, source);
    if package_id::same_id(other, source) {
        ordered::lemma_lookup_same(graph, other, source);
        ordered::lemma_lookup_with_entry(edges, alias, dep, name);
        order::lemma_plain_key_injective(name, alias);
    }
}

/// What a step does to the dependencies: one is added, where the request that
/// it meets wanted it.
proof fn lemma_step_edges(
    state: StateView,
    context: ContextView,
    realm: Realm,
    source: PackageIdView,
    alias: Seq<char>,
)
    requires
        state.queue.len() > 0,
        is_way(state, context),
        resolution::step(state, context) is Ok,
        !(package_id::same_id(source, state.queue[0].source) && alias == state.queue[0].alias),
    ensures
        edge((resolution::step(state, context)->Ok_0).resolve, realm, source, alias) == edge(
            state.resolve,
            realm,
            source,
            alias,
        ),
{
    let next = resolution::step(state, context)->Ok_0;
    let request = state.queue[0];
    laws::lemma_step_shape(state, context);
    let graph = state.resolve.graph(realm);
    assert(laws::graph_fits(state.resolve, realm, graph));
    assert forall|s: PackageIdView|
        ordered::ascending(ordered::keys_of(#[trigger] resolution::edges_of(graph, s))) by {
        laws::lemma_edges_of_fit(state.resolve, realm, graph, s);
    }
    if exists|id: PackageIdView| #[trigger] laws::met_by_reuse(state, context, next, id) {
        let id = choose|id: PackageIdView| #[trigger]
            laws::met_by_reuse(state, context, next, id);
        lemma_edge_with(graph, request.source, request.alias, id, source, alias);
    } else {
        let candidate = choose|candidate: ManifestView| #[trigger]
            laws::met_by_candidate(state, context, next, candidate);
        lemma_edge_with(
            graph,
            request.source,
            request.alias,
            candidate.package_id(),
            source,
            alias,
        );
    }
}

/// A request that a step takes from the queue is met.
proof fn lemma_step_meets(state: StateView, context: ContextView)
    requires
        state.queue.len() > 0,
        is_way(state, context),
        resolution::step(state, context) is Ok,
    ensures
        is_met((resolution::step(state, context)->Ok_0).resolve, state.queue[0], context),
{
    let next = resolution::step(state, context)->Ok_0;
    let request = state.queue[0];
    laws::lemma_step_shape(state, context);
    if exists|id: PackageIdView| #[trigger] laws::met_by_reuse(state, context, next, id) {
        let id = choose|id: PackageIdView| #[trigger]
            laws::met_by_reuse(state, context, next, id);
        let realm = resolution::merged_realm(
            laws::known(state.resolve, id).origin_realm,
            request.origin_realm,
        );
        let graph = state.resolve.graph(realm);
        assert(laws::graph_fits(state.resolve, realm, graph));
        assert forall|s: PackageIdView|
            ordered::ascending(ordered::keys_of(#[trigger] resolution::edges_of(graph, s))) by {
            laws::lemma_edges_of_fit(state.resolve, realm, graph, s);
        }
        lemma_edge_with(graph, request.source, request.alias, id, request.source, request.alias);
        assert(edge(next.resolve, realm, request.source, request.alias) == Some(id));
        assert(meets(id, request.kind, context));
    } else {
        let candidate = choose|candidate: ManifestView| #[trigger]
            laws::met_by_candidate(state, context, next, candidate);
        let id = candidate.package_id();
        let realm = request.origin_realm;
        let graph = state.resolve.graph(realm);
        assert(laws::graph_fits(state.resolve, realm, graph));
        assert forall|s: PackageIdView|
            ordered::ascending(ordered::keys_of(#[trigger] resolution::edges_of(graph, s))) by {
            laws::lemma_edges_of_fit(state.resolve, realm, graph, s);
        }
        lemma_edge_with(graph, request.source, request.alias, id, request.source, request.alias);
        assert(edge(next.resolve, realm, request.source, request.alias) == Some(id));
        lemma_answer_matches(context.sources, request.kind->Registry_0, candidate);
        assert(meets(id, request.kind, context));
    }
}

proof fn lemma_answer_matches(
    sources: PackageSourceMapView,
    req: PackageReqView,
    candidate: ManifestView,
)
    requires
        answers_match(sources),
        resolution::find_source(sources, req, 0) is At,
        resolution::find_source(sources, req, 0)->At_1.contains(candidate),
    ensures
        req.matches_id(candidate.package_id()),
{
    resolution::lemma_find_source(sources, req, 0);
    let source = resolution::find_source(sources, req, 0)->At_0;
    let manifests = resolution::find_source(sources, req, 0)->At_1;
    let at = choose|at: int|
        0 <= at < sources.answers.len() && (#[trigger] sources.answers[at]).manifests == Some(
            manifests,
        ) && sources.answers[at].req == req && sources.answers[at].source == source;
    let i = choose|i: int| 0 <= i < manifests.len() && manifests[i] == candidate;
    assert(sources.answers[at].manifests->Some_0[i] == candidate);
}

/// Chosen ids stay chosen under every id that compares equal.
proof fn lemma_holds_same(activated: Seq<PackageIdView>, a: PackageIdView, b: PackageIdView)
    requires
        package_id::same_id(a, b),
    ensures
        ordered::holds(activated, a) == ordered::holds(activated, b),
{
    package_id::lemma_id_key_injective(a, b);
    assert(a.sort_key() == b.sort_key());
    if ordered::holds(activated, a) {
        let k = choose|k: int|
            0 <= k < activated.len() && (#[trigger] activated[k]).sort_key() == a.sort_key();
        assert(activated[k].sort_key() == b.sort_key());
    }
    if ordered::holds(activated, b) {
        let k = choose|k: int|
            0 <= k < activated.len() && (#[trigger] activated[k]).sort_key() == b.sort_key();
        assert(activated[k].sort_key() == a.sort_key());
    }
}

proof fn lemma_step_way(state: StateView, context: ContextView)
    requires
        state.queue.len() > 0,
        is_way(state, context),
    ensures
        resolution::step(state, context) matches Ok(next) ==> is_way(next, context),
{
    laws::lemma_step_closed(state, context);
    resolution::lemma_step_sound(state, context);
}

/// A place for which nothing is asked stays as it is.
proof fn lemma_run_frame(
    state: StateView,
    context: ContextView,
    realm: Realm,
    source: PackageIdView,
    alias: Seq<char>,
)
    requires
        is_way(state, context),
        ordered::holds(state.resolve.activated, source),
        forall|i: int|
            0 <= i < state.queue.len() ==> !(package_id::same_id(
                source,
                (#[trigger] state.queue[i]).source,
            ) && alias == state.queue[i].alias),
    ensures
        resolution::run(state, context) matches Ok(resolve) ==> edge(
            resolve,
            realm,
            source,
            alias,
        ) == edge(state.resolve, realm, source, alias),
    decreases
            resolution::fresh(context.sources.answers, state.resolve.activated),
            state.queue.len(),
{
    if state.queue.len() > 0 {
        resolution::lemma_step_progress(state, context);
        resolution::lemma_step_sound(state, context);
        lemma_step_way(state, context);
        laws::lemma_step_shape(state, context);
        if let Ok(next) = resolution::step(state, context) {
            lemma_step_edges(state, context, realm, source, alias);
            let rest = state.queue.drop_first();
            assert forall|i: int| 0 <= i < next.queue.len() implies !(package_id::same_id(
                source,
                (#[trigger] next.queue[i]).source,
            ) && alias == next.queue[i].alias) by {
                if i < rest.len() {
                    assert(next.queue[i] == state.queue[i + 1]);
                } else {
                    let candidate = choose|candidate: ManifestView| #[trigger]
                        laws::met_by_candidate(state, context, next, candidate);
                    assert(laws::met_by_candidate(state, context, next, candidate));
                    let id = candidate.package_id();
                    assert(next.queue[i].source == id);
                    if package_id::same_id(source, id) {
                        lemma_holds_same(state.resolve.activated, source, id);
                    }
                }
            }
            lemma_run_frame(next, context, realm, source, alias);
        }
    }
}

/// A request that is met stays met where nothing is asked for its place.
proof fn lemma_stays_met(state: StateView, context: ContextView, request: RequestView)
    requires
        is_way(state, context),
        ordered::holds(state.resolve.activated, request.source),
        is_met(state.resolve, request, context),
        forall|i: int|
            0 <= i < state.queue.len() ==> !same_place(request, #[trigger] state.queue[i]),
    ensures
        resolution::run(state, context) matches Ok(resolve) ==> is_met(resolve, request, context),
{
    if let Ok(resolve) = resolution::run(state, context) {
        let realm = choose|realm: Realm|
            (#[trigger] edge(state.resolve, realm, request.source, request.alias)) is Some
                && meets(
                edge(state.resolve, realm, request.source, request.alias)->Some_0,
                request.kind,
                context,
            );
        lemma_run_frame(state, context, realm, request.source, request.alias);
        assert(edge(resolve, realm, request.source, request.alias) is Some);
    }
}

/// After a step, nothing is asked for a place for which nothing else was.
proof fn lemma_place_left(state: StateView, context: ContextView, request: RequestView)
    requires
        state.queue.len() > 0,
        is_way(state, context),
        resolution::step(state, context) is Ok,
        ordered::holds(state.resolve.activated, request.source),
    ensures
        forall|i: int|
            state.queue.len() - 1 <= i < (resolution::step(state, context)->Ok_0).queue.len()
                ==> !same_place(
                request,
                #[trigger] (resolution::step(state, context)->Ok_0).queue[i],
            ),
{
    let next = resolution::step(state, context)->Ok_0;
    laws::lemma_step_shape(state, context);
    assert forall|i: int| state.queue.len() - 1 <= i < next.queue.len() implies !same_place(
        request,
        #[trigger] next.queue[i],
    ) by {
        let candidate = choose|candidate: ManifestView| #[trigger]
            laws::met_by_candidate(state, context, next, candidate);
        assert(laws::met_by_candidate(state, context, next, candidate));
        let id = candidate.package_id();
        assert(next.queue[i].source == id);
        if package_id::same_id(request.source, id) {
            lemma_holds_same(state.resolve.activated, request.source, id);
        }
    }
}

/// A request is met in the end if no later one is for the same place.
proof fn lemma_run_meets(state: StateView, context: ContextView, n: int)
    requires
        is_way(state, context),
        0 <= n < state.queue.len(),
        forall|k: int|
            n < k < state.queue.len() ==> !same_place(state.queue[n], #[trigger] state.queue[k]),
    ensures
        resolution::run(state, context) matches Ok(resolve) ==> is_met(
            resolve,
            state.queue[n],
            context,
        ),
    decreases
            resolution::fresh(context.sources.answers, state.resolve.activated),
            state.queue.len(),
{
    resolution::lemma_step_progress(state, context);
    resolution::lemma_step_sound(state, context);
    lemma_step_way(state, context);
    laws::lemma_step_shape(state, context);
    if let Ok(next) = resolution::step(state, context) {
        let request = state.queue[n];
        let rest = state.queue.drop_first();
        lemma_place_left(state, context, request);
        assert forall|k: int| n - 1 < k < next.queue.len() implies !same_place(
            request,
            #[trigger] next.queue[k],
        ) by {
            if k < rest.len() {
                assert(next.queue[k] == state.queue[k + 1]);
            }
        }
        if n == 0 {
            lemma_step_meets(state, context);
            lemma_stays_met(next, context, request);
        } else {
            assert(next.queue[n - 1] == request);
            lemma_run_meets(next, context, n - 1);
        }
    }
}

// ---------------------------------------------------------------------------
// Where dependencies come from
// ---------------------------------------------------------------------------

/// A dependency was recorded for one of the requests.
pub open spec fn is_record(
    link: LinkView,
    requests: Seq<RequestView>,
    source: PackageIdView,
    alias: Seq<char>,
    target: PackageIdView,
) -> bool {
    &&& requests.contains(link.request)
    &&& package_id::same_id(source, link.request.source)
    &&& link.request.alias == alias
    &&& link.target == target
}

/// A dependency was recorded for one of the requests.
pub open spec fn has_record(
    links: Seq<LinkView>,
    requests: Seq<RequestView>,
    source: PackageIdView,
    alias: Seq<char>,
    target: PackageIdView,
) -> bool {
    exists|j: int|
        0 <= j < links.len() && is_record(#[trigger] links[j], requests, source, alias, target)
}

/// At the place of a request stands, after it was met, what met it, or what
/// stood there before.
proof fn lemma_step_place(
    state: StateView,
    context: ContextView,
    realm: Realm,
    source: PackageIdView,
    alias: Seq<char>,
)
    requires
        state.queue.len() > 0,
        is_way(state, context),
        resolution::step(state, context) is Ok,
        package_id::same_id(source, state.queue[0].source),
        alias == state.queue[0].alias,
    ensures
        ({
            let after = edge(
                (resolution::step(state, context)->Ok_0).resolve,
                realm,
                source,
                alias,
            );
            after == Some(resolution::target_of(state, context)) || after == edge(
                state.resolve,
                realm,
                source,
                alias,
            )
        }),
{
    let next = resolution::step(state, context)->Ok_0;
    let request = state.queue[0];
    let target = resolution::target_of(state, context);
    laws::lemma_step_shape(state, context);
    let graph = state.resolve.graph(realm);
    assert(laws::graph_fits(state.resolve, realm, graph));
    assert forall|s: PackageIdView|
        ordered::ascending(ordered::keys_of(#[trigger] resolution::edges_of(graph, s))) by {
        laws::lemma_edges_of_fit(state.resolve, realm, graph, s);
    }
    lemma_edge_with(graph, request.source, request.alias, target, source, alias);
}

/// What a chosen package depends on in the end, it depended on before or was
/// recorded for one of the requests in the queue.
proof fn lemma_run_edges(
    state: StateView,
    context: ContextView,
    realm: Realm,
    source: PackageIdView,
    alias: Seq<char>,
)
    requires
        is_way(state, context),
        ordered::holds(state.resolve.activated, source),
    ensures
        resolution::run(state, context) matches Ok(resolve) ==> match edge(
            resolve,
            realm,
            source,
            alias,
        ) {
            Some(target) => {
                ||| edge(state.resolve, realm, source, alias) == Some(target)
                ||| has_record(
                    resolution::links(state, context),
                    state.queue,
                    source,
                    alias,
                    target,
                )
            },
            None => true,
        },
    decreases
            resolution::fresh(context.sources.answers, state.resolve.activated),
            state.queue.len(),
{
    if state.queue.len() > 0 {
        resolution::lemma_step_progress(state, context);
        resolution::lemma_step_sound(state, context);
        lemma_step_way(state, context);
        laws::lemma_step_shape(state, context);
        if let Ok(next) = resolution::step(state, context) {
            lemma_run_edges(next, context, realm, source, alias);
            let request = state.queue[0];
            let rest = state.queue.drop_first();
            let link = LinkView { request, target: resolution::target_of(state, context) };
            let later = resolution::links(next, context);
            let all = resolution::links(state, context);
            assert(all == seq![link] + later);
            if let Ok(resolve) = resolution::run(state, context) {
                if let Some(target) = edge(resolve, realm, source, alias) {
                    if has_record(later, next.queue, source, alias, target) {
                        let j = choose|j: int|
                            0 <= j < later.len() && is_record(
                                #[trigger] later[j],
                                next.queue,
                                source,
                                alias,
                                target,
                            );
                        let asked = later[j].request;
                        let k = choose|k: int| 0 <= k < next.queue.len() && next.queue[k] == asked;
                        if k < rest.len() {
                            assert(state.queue[k + 1] == asked);
                        } else {
                            let candidate = choose|candidate: ManifestView| #[trigger]
                                laws::met_by_candidate(state, context, next, candidate);
                            assert(laws::met_by_candidate(state, context, next, candidate));
                            assert(next.queue[k].source == candidate.package_id());
                            lemma_holds_same(
                                state.resolve.activated,
                                source,
                                candidate.package_id(),
                            );
                        }
                        assert(all[j + 1] == later[j]);
                        assert(is_record(all[j + 1], state.queue, source, alias, target));
                    } else if package_id::same_id(source, request.source) && alias
                        == request.alias {
                        lemma_step_place(state, context, realm, source, alias);
                        if edge(state.resolve, realm, source, alias) != Some(target) {
                            assert(all[0] == link);
                            assert(state.queue[0] == request);
                            assert(is_record(all[0], state.queue, source, alias, target));
                        }
                    } else {
                        lemma_step_edges(state, context, realm, source, alias);
                    }
                }
            }
        }
    }
}

/// A place that no request is met for stays as it is.
proof fn lemma_links_frame(
    state: StateView,
    context: ContextView,
    realm: Realm,
    source: PackageIdView,
    alias: Seq<char>,
)
    requires
        is_way(state, context),
        forall|m: int|
            0 <= m < resolution::links(state, context).len() ==> !(package_id::same_id(
                source,
                (#[trigger] resolution::links(state, context)[m]).request.source,
            ) && alias == resolution::links(state, context)[m].request.alias),
    ensures
        resolution::run(state, context) matches Ok(resolve) ==> edge(
            resolve,
            realm,
            source,
            alias,
        ) == edge(state.resolve, realm, source, alias),
    decreases
            resolution::fresh(context.sources.answers, state.resolve.activated),
            state.queue.len(),
{
    if state.queue.len() > 0 {
        resolution::lemma_step_progress(state, context);
        resolution::lemma_step_sound(state, context);
        lemma_step_way(state, context);
        if let Ok(next) = resolution::step(state, context) {
            let link = LinkView {
                request: state.queue[0],
                target: resolution::target_of(state, context),
            };
            let later = resolution::links(next, context);
            let all = resolution::links(state, context);
            assert(all == seq![link] + later);
            assert(all[0] == link);
            lemma_step_edges(state, context, realm, source, alias);
            assert forall|m: int| 0 <= m < later.len() implies !(package_id::same_id(
                source,
                (#[trigger] later[m]).request.source,
            ) && alias == later[m].request.alias) by {
                assert(all[m + 1] == later[m]);
            }
            lemma_links_frame(next, context, realm, source, alias);
        }
    }
}

/// A package depends, under the alias of a request, on the package that met it.
pub open spec fn is_edge(resolve: ResolveView, link: LinkView) -> bool {
    exists|realm: Realm| #[trigger]
        edge(resolve, realm, link.request.source, link.request.alias) == Some(link.target)
}

proof fn lemma_links_are_edges(state: StateView, context: ContextView, j: int)
    requires
        is_way(state, context),
        0 <= j < resolution::links(state, context).len(),
        forall|m: int|
            j < m < resolution::links(state, context).len() ==> !same_place(
                resolution::links(state, context)[j].request,
                (#[trigger] resolution::links(state, context)[m]).request,
            ),
    ensures
        resolution::run(state, context) matches Ok(resolve) ==> is_edge(
            resolve,
            resolution::links(state, context)[j],
        ),
    decreases
            resolution::fresh(context.sources.answers, state.resolve.activated),
            state.queue.len(),
{
    if state.queue.len() > 0 {
        resolution::lemma_step_progress(state, context);
        resolution::lemma_step_sound(state, context);
        lemma_step_way(state, context);
        laws::lemma_step_shape(state, context);
        if let Ok(next) = resolution::step(state, context) {
            let request = state.queue[0];
            let target = resolution::target_of(state, context);
            let link = LinkView { request, target };
            let later = resolution::links(next, context);
            let all = resolution::links(state, context);
            assert(all == seq![link] + later);
            assert(all[0] == link);
            if j == 0 {
                assert forall|m: int| 0 <= m < later.len() implies !(package_id::same_id(
                    request.source,
                    (#[trigger] later[m]).request.source,
                ) && request.alias == later[m].request.alias) by {
                    assert(all[m + 1] == later[m]);
                    assert(!same_place(all[0].request, all[m + 1].request));
                }
                let realm = if laws::met_by_reuse(state, context, next, target) {
                    resolution::merged_realm(
                        laws::known(state.resolve, target).origin_realm,
                        request.origin_realm,
                    )
                } else {
                    request.origin_realm
                };
                let graph = state.resolve.graph(realm);
                assert(laws::graph_fits(state.resolve, realm, graph));
                assert forall|s: PackageIdView|
                    ordered::ascending(
                        ordered::keys_of(#[trigger] resolution::edges_of(graph, s)),
                    ) by {
                    laws::lemma_edges_of_fit(state.resolve, realm, graph, s);
                }
                lemma_edge_with(
                    graph,
                    request.source,
                    request.alias,
                    target,
                    request.source,
                    request.alias,
                );
                assert(edge(next.resolve, realm, request.source, request.alias) == Some(target));
                lemma_links_frame(next, context, realm, request.source, request.alias);
            } else {
                assert(all[j] == later[j - 1]);
                assert forall|m: int| j - 1 < m < later.len() implies !same_place(
                    later[j - 1].request,
                    (#[trigger] later[m]).request,
                ) by {
                    assert(all[m + 1] == later[m]);
                    assert(!same_place(all[j].request, all[m + 1].request));
                }
                lemma_links_are_edges(next, context, j - 1);
            }
        }
    }
}

/// Requests that were met are dependencies in what comes out, unless a later one
/// was for the same alias of the same package.
pub proof fn law_met_requests_are_dependencies(state: StateView, context: ContextView, j: int)
    requires
        is_way(state, context),
        0 <= j < resolution::links(state, context).len(),
        forall|m: int|
            j < m < resolution::links(state, context).len() ==> !same_place(
                resolution::links(state, context)[j].request,
                (#[trigger] resolution::links(state, context)[m]).request,
            ),
    ensures
        resolution::outcome(state, context) matches Ok(resolve) ==> is_edge(
            resolve,
            resolution::links(state, context)[j],
        ),
{
    let link = resolution::links(state, context)[j];
    laws::lemma_outcome(state, context);
    lemma_links_are_edges(state, context, j);
    if let Ok(before) = resolution::run(state, context) {
        let after = resolution::outcome(state, context)->Ok_0;
        let realm = choose|realm: Realm| #[trigger]
            edge(before, realm, link.request.source, link.request.alias) == Some(link.target);
        assert(after.graph(realm) == before.graph(realm));
        assert(edge(after, realm, link.request.source, link.request.alias) == Some(link.target));
    }
}

/// A request is met by a package that is what it asked for and that originates
/// from where it asked for it, or from a less restrictive realm.
pub open spec fn is_done(resolve: ResolveView, link: LinkView, context: ContextView) -> bool {
    &&& ordered::holds(resolve.activated, link.request.source)
    &&& ordered::holds(resolve.activated, link.target)
    &&& meets(link.target, link.request.kind, context)
    &&& resolution::merged_realm(
        laws::known(resolve, link.target).origin_realm,
        link.request.origin_realm,
    ) == laws::known(resolve, link.target).origin_realm
}

/// All requests are.
pub open spec fn all_done(resolve: ResolveView, links: Seq<LinkView>, context: ContextView) -> bool {
    forall|j: int| 0 <= j < links.len() ==> is_done(resolve, #[trigger] links[j], context)
}

proof fn lemma_done_kept(
    before: ResolveView,
    after: ResolveView,
    links: Seq<LinkView>,
    context: ContextView,
)
    requires
        all_done(before, links, context),
        laws::all_kept(before, after),
    ensures
        all_done(after, links, context),
{
    assert forall|j: int| 0 <= j < links.len() implies is_done(
        after,
        #[trigger] links[j],
        context,
    ) by {
        assert(is_done(before, links[j], context));
        assert(ordered::holds(after.activated, links[j].request.source));
        assert(ordered::holds(after.activated, links[j].target));
        assert(laws::is_kept(
            laws::known(before, links[j].target),
            laws::known(after, links[j].target),
        ));
    }
}

proof fn lemma_step_done(state: StateView, context: ContextView)
    requires
        state.queue.len() > 0,
        is_way(state, context),
        resolution::step(state, context) is Ok,
    ensures
        is_done(
            (resolution::step(state, context)->Ok_0).resolve,
            LinkView { request: state.queue[0], target: resolution::target_of(state, context) },
            context,
        ),
{
    let next = resolution::step(state, context)->Ok_0;
    let request = state.queue[0];
    let target = resolution::target_of(state, context);
    laws::lemma_step_shape(state, context);
    resolution::lemma_step_sound(state, context);
    assert(ordered::holds(state.resolve.activated, request.source));
    assert(ordered::holds(next.resolve.activated, request.source));
    if laws::met_by_reuse(state, context, next, target) {
        laws::lemma_reuse_keeps(state.resolve, request, target);
    } else {
        let candidate = choose|candidate: ManifestView| #[trigger]
            laws::met_by_candidate(state, context, next, candidate) && candidate.package_id()
                == target;
        let found = resolution::find_source(context.sources, request.kind->Registry_0, 0);
        laws::lemma_take_in_keeps(state.resolve, request, candidate, found->At_0);
        resolution::lemma_take_in(state.resolve, request, candidate, found->At_0);
        ordered::lemma_with_key(state.resolve.activated, target);
        lemma_answer_matches(context.sources, request.kind->Registry_0, candidate);
    }
}

proof fn lemma_run_done(state: StateView, context: ContextView)
    requires
        is_way(state, context),
    ensures
        resolution::run(state, context) matches Ok(resolve) ==> all_done(
            resolve,
            resolution::links(state, context),
            context,
        ),
    decreases
            resolution::fresh(context.sources.answers, state.resolve.activated),
            state.queue.len(),
{
    if state.queue.len() > 0 {
        resolution::lemma_step_progress(state, context);
        resolution::lemma_step_sound(state, context);
        lemma_step_way(state, context);
        if let Ok(next) = resolution::step(state, context) {
            lemma_run_done(next, context);
            lemma_step_done(state, context);
            laws::lemma_run_keeps(next, context);
            let link = LinkView {
                request: state.queue[0],
                target: resolution::target_of(state, context),
            };
            let later = resolution::links(next, context);
            let all = resolution::links(state, context);
            assert(all == seq![link] + later);
            if let Ok(resolve) = resolution::run(state, context) {
                assert(all_done(next.resolve, seq![link], context));
                lemma_done_kept(next.resolve, resolve, seq![link], context);
                assert forall|j: int| 0 <= j < all.len() implies is_done(
                    resolve,
                    #[trigger] all[j],
                    context,
                ) by {
                    if j == 0 {
                        assert(seq![link][0] == all[0]);
                    } else {
                        assert(later[j - 1] == all[j]);
                    }
                }
            }
        }
    }
}

/// A dependency of a root is one of its requests, and the package originates from
/// the realm of the section, or from a less restrictive one.
pub open spec fn is_root_edge(
    resolve: ResolveView,
    requests: Seq<RequestView>,
    context: ContextView,
    alias: Seq<char>,
    target: PackageIdView,
) -> bool {
    exists|i: int|
        {
            &&& 0 <= i < requests.len()
            &&& (#[trigger] requests[i]).alias == alias
            &&& meets(target, requests[i].kind, context)
            &&& resolution::merged_realm(
                laws::known(resolve, target).origin_realm,
                requests[i].origin_realm,
            ) == laws::known(resolve, target).origin_realm
        }
}

/// All dependencies of a root are such.
pub open spec fn root_edges_fit(
    resolve: ResolveView,
    id: PackageIdView,
    requests: Seq<RequestView>,
    context: ContextView,
) -> bool {
    forall|realm: Realm, alias: Seq<char>|
        match #[trigger] edge(resolve, realm, id, alias) {
            Some(target) => is_root_edge(resolve, requests, context, alias, target),
            None => true,
        }
}

/// A dependency of another package is one of its requests, and the package that
/// it is on originates from where it is asked for from, or from a less
/// restrictive realm.
pub open spec fn is_own_edge(
    resolve: ResolveView,
    id: PackageIdView,
    requests: Seq<RequestView>,
    context: ContextView,
    alias: Seq<char>,
    target: PackageIdView,
) -> bool {
    exists|i: int|
        {
            &&& 0 <= i < requests.len()
            &&& (#[trigger] requests[i]).alias == alias
            &&& meets(target, requests[i].kind, context)
            &&& resolution::merged_realm(
                laws::known(resolve, target).origin_realm,
                resolution::passed_on(
                    laws::known(resolve, id).origin_realm,
                    requests[i].realm,
                ),
            ) == laws::known(resolve, target).origin_realm
        }
}

/// All dependencies of a package are such.
pub open spec fn own_edges_fit(
    resolve: ResolveView,
    id: PackageIdView,
    requests: Seq<RequestView>,
    context: ContextView,
) -> bool {
    forall|realm: Realm, alias: Seq<char>|
        match #[trigger] edge(resolve, realm, id, alias) {
            Some(target) => is_own_edge(resolve, id, requests, context, alias, target),
            None => true,
        }
}

proof fn lemma_no_edge(resolve: ResolveView, realm: Realm, source: PackageIdView, alias: Seq<char>)
    requires
        resolve.graph(realm) == Seq::<(PackageIdView, EdgesView)>::empty(),
    ensures
        edge(resolve, realm, source, alias) is None,
{
    assert(ordered::keys_of(resolve.graph(realm)).len() == 0);
    let edges = resolution::edges_of(resolve.graph(realm), source);
    assert(edges.len() == 0);
    assert(ordered::keys_of(edges).len() == 0);
}

/// All that a root depends on in the end was recorded for its requests.
proof fn lemma_root_edges(
    state: StateView,
    context: ContextView,
    id: PackageIdView,
    requests: Seq<RequestView>,
)
    requires
        is_way(state, context),
        ordered::holds(state.resolve.activated, id),
        forall|realm: Realm|
            (#[trigger] state.resolve.graph(realm)) == Seq::<(PackageIdView, EdgesView)>::empty(),
        forall|k: int|
            0 <= k < state.queue.len() && package_id::same_id(
                id,
                (#[trigger] state.queue[k]).source,
            ) ==> requests.contains(state.queue[k]),
    ensures
        resolution::outcome(state, context) matches Ok(resolve) ==> root_edges_fit(
            resolve,
            id,
            requests,
            context,
        ),
{
    let links = resolution::links(state, context);
    laws::lemma_outcome(state, context);
    lemma_run_done(state, context);
    if let Ok(before) = resolution::run(state, context) {
        let after = resolution::outcome(state, context)->Ok_0;
        lemma_done_kept(before, after, links, context);
        assert forall|realm: Realm, alias: Seq<char>|
            match #[trigger] edge(after, realm, id, alias) {
                Some(target) => is_root_edge(after, requests, context, alias, target),
                None => true,
            } by {
            assert(after.graph(realm) == before.graph(realm));
            lemma_run_edges(state, context, realm, id, alias);
            lemma_no_edge(state.resolve, realm, id, alias);
            if let Some(target) = edge(after, realm, id, alias) {
                let j = choose|j: int|
                    0 <= j < links.len() && is_record(
                        #[trigger] links[j],
                        state.queue,
                        id,
                        alias,
                        target,
                    );
                let asked = links[j].request;
                let k = choose|k: int| 0 <= k < state.queue.len() && state.queue[k] == asked;
                assert(requests.contains(state.queue[k]));
                let i = choose|i: int| 0 <= i < requests.len() && requests[i] == asked;
                assert(is_done(after, links[j], context));
                assert(requests[i].alias == alias);
            }
        }
    }
}

// ---------------------------------------------------------------------------
// Roots
// ---------------------------------------------------------------------------

/// All requests of a row are met, but for those whose place a later one can take.
pub open spec fn all_met(
    resolve: ResolveView,
    requests: Seq<RequestView>,
    context: ContextView,
) -> bool {
    forall|i: int|
        0 <= i < requests.len() && is_last(requests, i) ==> is_met(
            resolve,
            #[trigger] requests[i],
            context,
        )
}

/// Of a single package, every dependency is met: the package depends, under the
/// alias of the dependency, on a chosen package that meets its requirement. Where
/// an alias stands in several sections, this is said of the last one.
pub proof fn law_package_dependencies_are_met(
    manifest: ManifestView,
    try_to_use: Seq<PackageIdView>,
    sources: PackageSourceMapView,
)
    requires
        sources.answers_fit(),
        answers_match(sources),
    ensures
        resolution::outcome(
            resolution::package_start(manifest),
            resolution::package_context(try_to_use, sources),
        ) matches Ok(resolve) ==> all_met(
            resolve,
            resolution::root_requests(manifest, Seq::empty()),
            resolution::package_context(try_to_use, sources),
        ),
{
    let start = resolution::package_start(manifest);
    let context = resolution::package_context(try_to_use, sources);
    let made = resolution::root_requests(manifest, Seq::empty());
    lemma_package_start_way(manifest, try_to_use, sources);
    assert(start.queue == made);
    laws::lemma_outcome(start, context);
    if let Ok(before) = resolution::run(start, context) {
        let resolve = resolution::outcome(start, context)->Ok_0;
        assert forall|i: int| 0 <= i < made.len() && is_last(made, i) implies is_met(
            resolve,
            #[trigger] made[i],
            context,
        ) by {
            lemma_run_meets(start, context, i);
            lemma_still_met(before, resolve, made[i], context);
        }
    }
}

/// Of a single package, all that it depends on, in any realm, are its
/// dependencies, and the packages originate from the realms of their sections or
/// from less restrictive ones.
pub proof fn law_package_edges_are_its_dependencies(
    manifest: ManifestView,
    try_to_use: Seq<PackageIdView>,
    sources: PackageSourceMapView,
)
    requires
        sources.answers_fit(),
        answers_match(sources),
    ensures
        resolution::outcome(
            resolution::package_start(manifest),
            resolution::package_context(try_to_use, sources),
        ) matches Ok(resolve) ==> root_edges_fit(
            resolve,
            manifest.package_id(),
            resolution::root_requests(manifest, Seq::empty()),
            resolution::package_context(try_to_use, sources),
        ),
{
    let start = resolution::package_start(manifest);
    let made = resolution::root_requests(manifest, Seq::empty());
    lemma_package_start_way(manifest, try_to_use, sources);
    laws::lemma_package_start(manifest, try_to_use, sources);
    assert(start.resolve.activated[0] == manifest.package_id());
    assert forall|k: int|
        0 <= k < start.queue.len() && package_id::same_id(
            manifest.package_id(),
            (#[trigger] start.queue[k]).source,
        ) implies made.contains(start.queue[k]) by {
        assert(start.queue[k] == made[k]);
    }
    lemma_root_edges(
        start,
        resolution::package_context(try_to_use, sources),
        manifest.package_id(),
        made,
    );
}

/// A request that is met stays met where only what is known of packages changes.
proof fn lemma_still_met(
    before: ResolveView,
    after: ResolveView,
    request: RequestView,
    context: ContextView,
)
    requires
        is_met(before, request, context),
        after == (ResolveView { metadata: after.metadata, ..before }),
    ensures
        is_met(after, request, context),
{
    let realm = choose|realm: Realm|
        (#[trigger] edge(before, realm, request.source, request.alias)) is Some && meets(
            edge(before, realm, request.source, request.alias)->Some_0,
            request.kind,
            context,
        );
    assert(after.graph(realm) == before.graph(realm));
    assert(edge(after, realm, request.source, request.alias) is Some);
}

proof fn lemma_package_start_way(
    manifest: ManifestView,
    try_to_use: Seq<PackageIdView>,
    sources: PackageSourceMapView,
)
    requires
        sources.answers_fit(),
        answers_match(sources),
    ensures
        is_way(
            resolution::package_start(manifest),
            resolution::package_context(try_to_use, sources),
        ),
{
    let start = resolution::package_start(manifest);
    laws::lemma_package_start(manifest, try_to_use, sources);
    laws::lemma_no_edges_closed(start.resolve);
    assert(start.resolve.activated[0] == manifest.package_id());
}

proof fn lemma_start_sources(members: MembersView, k: int)
    requires
        0 <= k < resolution::workspace_start(members).queue.len(),
    ensures
        exists|m: int|
            0 <= m < members.len() && (#[trigger] members[m]).1.package_id()
                == resolution::workspace_start(members).queue[k].source,
    decreases members.len(),
{
    let fewer = members.drop_last();
    let before = resolution::workspace_start(fewer).queue;
    let queue = resolution::workspace_start(members).queue;
    if k < before.len() {
        assert(queue[k] == before[k]);
        lemma_start_sources(fewer, k);
        let m = choose|m: int|
            0 <= m < fewer.len() && (#[trigger] fewer[m]).1.package_id() == before[k].source;
        assert(fewer[m] == members[m]);
    } else {
        assert(members[members.len() - 1].1.package_id() == queue[k].source);
    }
}

/// The requests of a member stand together in the queue, and no others are its
/// own.
pub(crate) proof fn lemma_workspace_start_queue(members: MembersView, i: int) -> (at: int)
    requires
        0 <= i < members.len(),
        forall|a: int, b: int|
            #![trigger members[a], members[b]]
            0 <= a < b < members.len() ==> members[a].1.package.name != members[b].1.package.name,
    ensures
        ({
            let made = resolution::root_requests(members[i].1, members[i].0.text);
            let queue = resolution::workspace_start(members).queue;
            &&& 0 <= at
            &&& at + made.len() <= queue.len()
            &&& forall|k: int| 0 <= k < made.len() ==> queue[at + k] == #[trigger] made[k]
            &&& forall|k: int|
                0 <= k < queue.len() && !(at <= k < at + made.len()) ==> (
                #[trigger] queue[k]).source.name != members[i].1.package.name
        }),
    decreases members.len(),
{
    let fewer = members.drop_last();
    let before = resolution::workspace_start(fewer).queue;
    let queue = resolution::workspace_start(members).queue;
    let made = resolution::root_requests(members[i].1, members[i].0.text);
    if i < fewer.len() {
        assert(fewer[i] == members[i]);
        assert forall|a: int, b: int|
            #![trigger fewer[a], fewer[b]]
            0 <= a < b < fewer.len() implies fewer[a].1.package.name
            != fewer[b].1.package.name by {
            assert(fewer[a] == members[a] && fewer[b] == members[b]);
        }
        let at = lemma_workspace_start_queue(fewer, i);
        let last = members[members.len() - 1];
        assert forall|k: int| 0 <= k < made.len() implies queue[at + k] == #[trigger] made[k] by {
            assert(queue[at + k] == before[at + k]);
        }
        assert forall|k: int|
            0 <= k < queue.len() && !(at <= k < at + made.len()) implies (
        #[trigger] queue[k]).source.name != members[i].1.package.name by {
            if k < before.len() {
                assert(queue[k] == before[k]);
            } else {
                assert(queue[k].source == last.1.package_id());
                assert(members[i].1.package.name != last.1.package.name);
            }
        }
        at
    } else {
        assert forall|k: int| 0 <= k < made.len() implies queue[before.len() + k]
            == #[trigger] made[k] by {}
        assert forall|k: int| 0 <= k < before.len() implies (#[trigger] queue[k]).source.name
            != members[i].1.package.name by {
            assert(queue[k] == before[k]);
            lemma_start_sources(fewer, k);
            let m = choose|m: int|
                0 <= m < fewer.len() && (#[trigger] fewer[m]).1.package_id() == before[k].source;
            assert(fewer[m] == members[m]);
            assert(members[m].1.package.name != members[i].1.package.name);
        }
        before.len() as int
    }
}

proof fn lemma_workspace_start_way(
    workspace: WorkspaceView,
    try_to_use: Seq<PackageIdView>,
    sources: PackageSourceMapView,
    canonical: CanonicalPathsView,
)
    requires
        sources.answers_fit(),
        answers_match(sources),
        workspace.is_sound(),
    ensures
        is_way(
            resolution::workspace_start(workspace.members),
            laws::workspace_context(workspace, try_to_use, sources, canonical),
        ),
{
    laws::lemma_workspace_is_state(workspace, try_to_use, sources, canonical);
    laws::lemma_workspace_start_closed(workspace.members);
}

/// Of a workspace, every dependency of every member is met: the member depends,
/// under the alias of the dependency, on a chosen package that meets its
/// requirement or on the member in the directory that it points to. Where an
/// alias stands in several sections, this is said of the last one.
pub proof fn law_member_dependencies_are_met(
    workspace: WorkspaceView,
    try_to_use: Seq<PackageIdView>,
    sources: PackageSourceMapView,
    canonical: CanonicalPathsView,
    i: int,
)
    requires
        sources.answers_fit(),
        answers_match(sources),
        workspace.is_sound(),
        0 <= i < workspace.members.len(),
    ensures
        resolution::outcome(
            resolution::workspace_start(workspace.members),
            laws::workspace_context(workspace, try_to_use, sources, canonical),
        ) matches Ok(resolve) ==> all_met(
            resolve,
            resolution::root_requests(workspace.members[i].1, workspace.members[i].0.text),
            laws::workspace_context(workspace, try_to_use, sources, canonical),
        ),
{
    let start = resolution::workspace_start(workspace.members);
    let context = laws::workspace_context(workspace, try_to_use, sources, canonical);
    let made = resolution::root_requests(workspace.members[i].1, workspace.members[i].0.text);
    lemma_workspace_start_way(workspace, try_to_use, sources, canonical);
    let at = lemma_workspace_start_queue(workspace.members, i);
    laws::lemma_outcome(start, context);
    if let Ok(before) = resolution::run(start, context) {
        let resolve = resolution::outcome(start, context)->Ok_0;
        assert forall|k: int| 0 <= k < made.len() && is_last(made, k) implies is_met(
            resolve,
            #[trigger] made[k],
            context,
        ) by {
            assert(start.queue[at + k] == made[k]);
            assert forall|q: int| at + k < q < start.queue.len() implies !same_place(
                start.queue[at + k],
                #[trigger] start.queue[q],
            ) by {
                if q < at + made.len() {
                    assert(start.queue[at + (q - at)] == made[q - at]);
                }
            }
            lemma_run_meets(start, context, at + k);
            lemma_still_met(before, resolve, made[k], context);
        }
    }
}

/// Of a workspace, all that a member depends on, in any realm, are its
/// dependencies, and the packages originate from the realms of their sections or
/// from less restrictive ones.
pub proof fn law_member_edges_are_its_dependencies(
    workspace: WorkspaceView,
    try_to_use: Seq<PackageIdView>,
    sources: PackageSourceMapView,
    canonical: CanonicalPathsView,
    i: int,
)
    requires
        sources.answers_fit(),
        answers_match(sources),
        workspace.is_sound(),
        0 <= i < workspace.members.len(),
    ensures
        resolution::outcome(
            resolution::workspace_start(workspace.members),
            laws::workspace_context(workspace, try_to_use, sources, canonical),
        ) matches Ok(resolve) ==> root_edges_fit(
            resolve,
            workspace.members[i].1.package_id(),
            resolution::root_requests(workspace.members[i].1, workspace.members[i].0.text),
            laws::workspace_context(workspace, try_to_use, sources, canonical),
        ),
{
    let start = resolution::workspace_start(workspace.members);
    let context = laws::workspace_context(workspace, try_to_use, sources, canonical);
    let made = resolution::root_requests(workspace.members[i].1, workspace.members[i].0.text);
    let id = workspace.members[i].1.package_id();
    lemma_workspace_start_way(workspace, try_to_use, sources, canonical);
    laws::lemma_workspace_start_closed(workspace.members);
    resolution::lemma_workspace_start(workspace.members);
    let at = lemma_workspace_start_queue(workspace.members, i);
    assert forall|k: int|
        0 <= k < start.queue.len() && package_id::same_id(
            id,
            (#[trigger] start.queue[k]).source,
        ) implies made.contains(start.queue[k]) by {
        if at <= k < at + made.len() {
            assert(start.queue[at + (k - at)] == made[k - at]);
        }
    }
    lemma_root_edges(start, context, id, made);
}

// ---------------------------------------------------------------------------
// Packages that were chosen for others
// ---------------------------------------------------------------------------

/// A source answered with this manifest.
pub open spec fn is_answered(sources: PackageSourceMapView, manifest: ManifestView) -> bool {
    exists|at: int|
        0 <= at < sources.answers.len() && (#[trigger] sources.answers[at]).manifests is Some
            && sources.answers[at].manifests->Some_0.contains(manifest)
}

/// A package is one that a source answered with, its dependencies are met, and it
/// has no others.
pub open spec fn is_supported(
    resolve: ResolveView,
    context: ContextView,
    id: PackageIdView,
    manifest: ManifestView,
) -> bool {
    &&& is_answered(context.sources, manifest)
    &&& package_id::same_id(manifest.package_id(), id)
    &&& all_met(resolve, resolution::transitive_requests(manifest, Realm::Shared), context)
    &&& own_edges_fit(
        resolve,
        id,
        resolution::transitive_requests(manifest, Realm::Shared),
        context,
    )
}

/// A dependency was recorded for a request like one of those that are wanted.
spec fn is_backed_edge(
    all: Seq<LinkView>,
    id: PackageIdView,
    wanted: Seq<RequestView>,
    alias: Seq<char>,
    target: PackageIdView,
) -> bool {
    exists|link: LinkView, i: int|
        {
            &&& #[trigger] all.contains(link)
            &&& 0 <= i < wanted.len()
            &&& package_id::same_id(id, link.request.source)
            &&& link.request.alias == alias
            &&& link.target == target
            &&& (#[trigger] wanted[i]).alias == alias
            &&& wanted[i].kind == link.request.kind
            &&& wanted[i].realm == link.request.realm
        }
}

/// What holds of a package that was chosen on the way.
spec fn is_backed(
    resolve: ResolveView,
    context: ContextView,
    all: Seq<LinkView>,
    id: PackageIdView,
    manifest: ManifestView,
) -> bool {
    &&& is_answered(context.sources, manifest)
    &&& package_id::same_id(manifest.package_id(), id)
    &&& all_met(resolve, resolution::transitive_requests(manifest, Realm::Shared), context)
    &&& forall|realm: Realm, alias: Seq<char>|
        match #[trigger] edge(resolve, realm, id, alias) {
            Some(target) => is_backed_edge(
                all,
                id,
                resolution::transitive_requests(manifest, Realm::Shared),
                alias,
                target,
            ),
            None => true,
        }
}

/// A package that was not chosen depends on nothing.
proof fn lemma_no_edges_of_new(
    resolve: ResolveView,
    realm: Realm,
    id: PackageIdView,
    alias: Seq<char>,
)
    requires
        laws::is_closed(resolve),
        !ordered::holds(resolve.activated, id),
    ensures
        edge(resolve, realm, id, alias) is None,
{
    let graph = resolve.graph(realm);
    assert(laws::graph_fits(resolve, realm, graph));
    if ordered::holds(ordered::keys_of(graph), id) {
        ordered::lemma_place_exists(ordered::keys_of(graph), id);
        let at = ordered::place(ordered::keys_of(graph), id);
        assert(ordered::holds(resolve.activated, graph[at].0));
        let k = choose|k: int|
            0 <= k < resolve.activated.len() && (#[trigger] resolve.activated[k]).sort_key()
                == graph[at].0.sort_key();
        assert(resolve.activated[k].sort_key() == id.sort_key());
    }
    let edges = resolution::edges_of(graph, id);
    assert(edges.len() == 0);
    assert(ordered::keys_of(edges).len() == 0);
}

/// What a package depends on that is chosen in a step was recorded for its
/// requests.
proof fn lemma_taken_edges(
    state: StateView,
    context: ContextView,
    all: Seq<LinkView>,
    id: PackageIdView,
    candidate: ManifestView,
)
    requires
        is_way(state, context),
        state.queue.len() > 0,
        resolution::step(state, context) is Ok,
        laws::met_by_candidate(
            state,
            context,
            resolution::step(state, context)->Ok_0,
            candidate,
        ),
        package_id::same_id(candidate.package_id(), id),
        !ordered::holds(state.resolve.activated, id),
        forall|j: int|
            0 <= j < resolution::links(state, context).len() ==> all.contains(
                #[trigger] resolution::links(state, context)[j],
            ),
        resolution::run(state, context) is Ok,
    ensures
        forall|realm: Realm, alias: Seq<char>|
            match #[trigger] edge(resolution::run(state, context)->Ok_0, realm, id, alias) {
                Some(target) => is_backed_edge(
                    all,
                    id,
                    resolution::transitive_requests(candidate, Realm::Shared),
                    alias,
                    target,
                ),
                None => true,
            },
{
    let next = resolution::step(state, context)->Ok_0;
    let resolve = resolution::run(state, context)->Ok_0;
    let request = state.queue[0];
    let rest = state.queue.drop_first();
    let made = resolution::transitive_requests(candidate, request.origin_realm);
    let wanted = resolution::transitive_requests(candidate, Realm::Shared);
    let link = LinkView { request, target: resolution::target_of(state, context) };
    let later = resolution::links(next, context);
    resolution::lemma_step_sound(state, context);
    lemma_step_way(state, context);
    assert(resolution::links(state, context) == seq![link] + later);
    let found = resolution::find_source(context.sources, request.kind->Registry_0, 0);
    resolution::lemma_take_in(state.resolve, request, candidate, found->At_0);
    ordered::lemma_with_key(state.resolve.activated, candidate.package_id());
    lemma_holds_same(next.resolve.activated, candidate.package_id(), id);
    assert forall|realm: Realm, alias: Seq<char>|
        match #[trigger] edge(resolve, realm, id, alias) {
            Some(target) => is_backed_edge(all, id, wanted, alias, target),
            None => true,
        } by {
        lemma_run_edges(next, context, realm, id, alias);
        lemma_no_edges_of_new(state.resolve, realm, id, alias);
        if package_id::same_id(id, request.source) {
            lemma_holds_same(state.resolve.activated, id, request.source);
        }
        lemma_step_edges(state, context, realm, id, alias);
        if let Some(target) = edge(resolve, realm, id, alias) {
            let j = choose|j: int|
                0 <= j < later.len() && is_record(
                    #[trigger] later[j],
                    next.queue,
                    id,
                    alias,
                    target,
                );
            let asked = later[j].request;
            let k = choose|k: int| 0 <= k < next.queue.len() && next.queue[k] == asked;
            if k < rest.len() {
                assert(next.queue[k] == state.queue[k + 1]);
                lemma_holds_same(state.resolve.activated, id, asked.source);
            }
            let i = k - rest.len();
            assert(next.queue[k] == made[i]);
            assert(wanted[i].kind == made[i].kind);
            assert(resolution::links(state, context)[j + 1] == later[j]);
            assert(all.contains(later[j]));
        }
    }
}

proof fn lemma_run_supports(
    state: StateView,
    context: ContextView,
    all: Seq<LinkView>,
    id: PackageIdView,
)
    requires
        is_way(state, context),
        !ordered::holds(state.resolve.activated, id),
        forall|j: int|
            0 <= j < resolution::links(state, context).len() ==> all.contains(
                #[trigger] resolution::links(state, context)[j],
            ),
    ensures
        resolution::run(state, context) matches Ok(resolve) ==> (ordered::holds(
            resolve.activated,
            id,
        ) ==> exists|manifest: ManifestView| #[trigger]
            is_backed(resolve, context, all, id, manifest)),
    decreases
            resolution::fresh(context.sources.answers, state.resolve.activated),
            state.queue.len(),
{
    if state.queue.len() > 0 {
        resolution::lemma_step_progress(state, context);
        resolution::lemma_step_sound(state, context);
        lemma_step_way(state, context);
        laws::lemma_step_shape(state, context);
        if let Ok(next) = resolution::step(state, context) {
            let request = state.queue[0];
            let link = LinkView { request, target: resolution::target_of(state, context) };
            let later = resolution::links(next, context);
            assert(resolution::links(state, context) == seq![link] + later);
            assert forall|j: int| 0 <= j < later.len() implies all.contains(
                #[trigger] later[j],
            ) by {
                assert(resolution::links(state, context)[j + 1] == later[j]);
            }
            if !ordered::holds(next.resolve.activated, id) {
                lemma_run_supports(next, context, all, id);
            } else if let Ok(resolve) = resolution::run(state, context) {
                if laws::met_by_reuse(state, context, next, link.target) {
                    resolution::lemma_reuse(state.resolve, request, link.target);
                }
                let candidate = choose|candidate: ManifestView| #[trigger]
                    laws::met_by_candidate(state, context, next, candidate);
                assert(laws::met_by_candidate(state, context, next, candidate));
                let req = request.kind->Registry_0;
                let found = resolution::find_source(context.sources, req, 0);
                resolution::lemma_find_source(context.sources, req, 0);
                assert(is_answered(context.sources, candidate));
                resolution::lemma_take_in(state.resolve, request, candidate, found->At_0);
                ordered::lemma_with_key(state.resolve.activated, candidate.package_id());
                package_id::lemma_id_key_injective(candidate.package_id(), id);
                assert(package_id::same_id(candidate.package_id(), id));
                lemma_taken_edges(state, context, all, id, candidate);
                lemma_taken_met(state, context, candidate);
                assert(is_backed(resolve, context, all, id, candidate));
            }
        }
    }
}

/// The dependencies of a package that is chosen in a step are met in the end.
proof fn lemma_taken_met(state: StateView, context: ContextView, candidate: ManifestView)
    requires
        is_way(state, context),
        state.queue.len() > 0,
        resolution::step(state, context) is Ok,
        laws::met_by_candidate(
            state,
            context,
            resolution::step(state, context)->Ok_0,
            candidate,
        ),
        resolution::run(state, context) is Ok,
    ensures
        all_met(
            resolution::run(state, context)->Ok_0,
            resolution::transitive_requests(candidate, Realm::Shared),
            context,
        ),
{
    let next = resolution::step(state, context)->Ok_0;
    let resolve = resolution::run(state, context)->Ok_0;
    let request = state.queue[0];
    resolution::lemma_step_sound(state, context);
    lemma_step_way(state, context);
    let made = resolution::transitive_requests(candidate, request.origin_realm);
    let wanted = resolution::transitive_requests(candidate, Realm::Shared);
    let n = state.queue.drop_first().len() as int;
    assert forall|k: int| 0 <= k < wanted.len() && is_last(wanted, k) implies is_met(
        resolve,
        #[trigger] wanted[k],
        context,
    ) by {
        assert(next.queue[n + k] == made[k]);
        assert forall|q: int| n + k < q < next.queue.len() implies !same_place(
            next.queue[n + k],
            #[trigger] next.queue[q],
        ) by {
            assert(next.queue[q] == made[q - n]);
            assert(wanted[q - n].alias == made[q - n].alias);
        }
        lemma_run_meets(next, context, n + k);
        let realm = choose|realm: Realm|
            (#[trigger] edge(resolve, realm, made[k].source, made[k].alias)) is Some && meets(
                edge(resolve, realm, made[k].source, made[k].alias)->Some_0,
                made[k].kind,
                context,
            );
        assert(edge(resolve, realm, wanted[k].source, wanted[k].alias) is Some);
    }
}

/// What was chosen on the way is supported in the end.
proof fn lemma_outcome_supports(state: StateView, context: ContextView, id: PackageIdView)
    requires
        is_way(state, context),
        !ordered::holds(state.resolve.activated, id),
    ensures
        resolution::outcome(state, context) matches Ok(resolve) ==> (ordered::holds(
            resolve.activated,
            id,
        ) ==> exists|manifest: ManifestView| #[trigger]
            is_supported(resolve, context, id, manifest)),
{
    let all = resolution::links(state, context);
    let roots = state.resolve.activated;
    laws::lemma_outcome(state, context);
    assert forall|j: int| 0 <= j < all.len() implies all.contains(#[trigger] all[j]) by {}
    lemma_run_supports(state, context, all, id);
    lemma_run_done(state, context);
    if let Ok(before) = resolution::run(state, context) {
        let after = resolution::outcome(state, context)->Ok_0;
        lemma_done_kept(before, after, all, context);
        laws::lemma_run_sound(state, context);
        origins::lemma_spread(before.metadata, roots, all);
        if ordered::holds(after.activated, id) {
            let manifest = choose|manifest: ManifestView| #[trigger]
                is_backed(before, context, all, id, manifest);
            let wanted = resolution::transitive_requests(manifest, Realm::Shared);
            assert forall|k: int| 0 <= k < wanted.len() && is_last(wanted, k) implies is_met(
                after,
                #[trigger] wanted[k],
                context,
            ) by {
                lemma_still_met(before, after, wanted[k], context);
            }
            assert forall|realm: Realm, alias: Seq<char>|
                match #[trigger] edge(after, realm, id, alias) {
                    Some(target) => is_own_edge(after, id, wanted, context, alias, target),
                    None => true,
                } by {
                assert(after.graph(realm) == before.graph(realm));
                assert(edge(after, realm, id, alias) == edge(before, realm, id, alias));
                if let Some(target) = edge(after, realm, id, alias) {
                    let (link, i) = choose|link: LinkView, i: int|
                        {
                            &&& #[trigger] all.contains(link)
                            &&& 0 <= i < wanted.len()
                            &&& package_id::same_id(id, link.request.source)
                            &&& link.request.alias == alias
                            &&& link.target == target
                            &&& (#[trigger] wanted[i]).alias == alias
                            &&& wanted[i].kind == link.request.kind
                            &&& wanted[i].realm == link.request.realm
                        };
                    let j = choose|j: int| 0 <= j < all.len() && all[j] == link;
                    assert(is_done(after, all[j], context));
                    assert(origins::raised(after.metadata, roots, all[j]) == after.metadata);
                    lemma_holds_same(roots, id, link.request.source);
                    origins::lemma_settled(after.metadata, roots, all[j]);
                    package_id::lemma_id_key_injective(id, link.request.source);
                    ordered::lemma_lookup_same(after.metadata, id, link.request.source);
                    assert(wanted[i].alias == alias);
                }
            }
            assert(is_supported(after, context, id, manifest));
        }
    }
}

/// Of a single package, every chosen package but the root is one that a source
/// answered with, its shared and server dependencies are met, and it has no
/// others. Where an alias stands in both sections, that it is met is said of the
/// server section. What it depends on originates from where it originates itself
/// or from a less restrictive realm, but that its server dependencies may be
/// server-only.
pub proof fn law_package_choices_are_supported(
    manifest: ManifestView,
    try_to_use: Seq<PackageIdView>,
    sources: PackageSourceMapView,
    id: PackageIdView,
)
    requires
        sources.answers_fit(),
        answers_match(sources),
        !package_id::same_id(id, manifest.package_id()),
    ensures
        resolution::outcome(
            resolution::package_start(manifest),
            resolution::package_context(try_to_use, sources),
        ) matches Ok(resolve) ==> (ordered::holds(resolve.activated, id) ==> exists|
            found: ManifestView,
        | #[trigger]
            is_supported(resolve, resolution::package_context(try_to_use, sources), id, found)),
{
    let start = resolution::package_start(manifest);
    let context = resolution::package_context(try_to_use, sources);
    lemma_package_start_way(manifest, try_to_use, sources);
    laws::lemma_package_start(manifest, try_to_use, sources);
    package_id::lemma_id_key_injective(id, manifest.package_id());
    if ordered::holds(start.resolve.activated, id) {
        let k = choose|k: int|
            0 <= k < start.resolve.activated.len() && (
            #[trigger] start.resolve.activated[k]).sort_key() == id.sort_key();
        assert(start.resolve.activated[k] == manifest.package_id());
    }
    lemma_outcome_supports(start, context, id);
}

/// Of a workspace, every chosen package but the members is one that a source
/// answered with, its shared and server dependencies are met, and it has no
/// others. Where an alias stands in both sections, that it is met is said of the
/// server section. What it depends on originates from where it originates itself
/// or from a less restrictive realm, but that its server dependencies may be
/// server-only.
pub proof fn law_workspace_choices_are_supported(
    workspace: WorkspaceView,
    try_to_use: Seq<PackageIdView>,
    sources: PackageSourceMapView,
    canonical: CanonicalPathsView,
    id: PackageIdView,
)
    requires
        sources.answers_fit(),
        answers_match(sources),
        workspace.is_sound(),
        forall|i: int|
            0 <= i < workspace.members.len() ==> !package_id::same_id(
                id,
                (#[trigger] workspace.members[i]).1.package_id(),
            ),
    ensures
        resolution::outcome(
            resolution::workspace_start(workspace.members),
            laws::workspace_context(workspace, try_to_use, sources, canonical),
        ) matches Ok(resolve) ==> (ordered::holds(resolve.activated, id) ==> exists|
            found: ManifestView,
        | #[trigger]
            is_supported(
                resolve,
                laws::workspace_context(workspace, try_to_use, sources, canonical),
                id,
                found,
            )),
{
    let start = resolution::workspace_start(workspace.members);
    let context = laws::workspace_context(workspace, try_to_use, sources, canonical);
    lemma_workspace_start_way(workspace, try_to_use, sources, canonical);
    laws::lemma_workspace_start_names(workspace.members);
    if ordered::holds(start.resolve.activated, id) {
        let k = choose|k: int|
            0 <= k < start.resolve.activated.len() && (
            #[trigger] start.resolve.activated[k]).sort_key() == id.sort_key();
        let i = choose|i: int|
            0 <= i < workspace.members.len() && (#[trigger] workspace.members[i]).1.package_id()
                == start.resolve.activated[k];
        package_id::lemma_id_key_injective(id, start.resolve.activated[k]);
    }
    lemma_outcome_supports(start, context, id);
}

} // verus!
