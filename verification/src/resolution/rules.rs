//! By which rules requests are met, one after the other.

use vstd::prelude::*;

use crate::dependency_spec::DependencySpecView;
use crate::loading;
use crate::manifest::{DependencyMapView, ManifestView, Realm};
use crate::order;
use crate::ordered;
use crate::package_id;
use crate::package_id::PackageIdView;
use crate::package_name::PackageNameView;
use crate::package_req::PackageReqView;
use crate::package_source;
use crate::package_source::{PackageSourceIdView, PackageSourceMapView};
use crate::path;
use crate::resolution;
use crate::resolution::laws;
use crate::resolution::met;
use crate::resolution::origins;
use crate::resolution::stable;
use crate::resolution::{
    ContextView, FoundView, GraphView, KindView, MetadataView, RequestView, ResolveErrorView,
    ResolveView, StateView,
};
use crate::version;
use crate::version::VersionView;
use crate::workspace;
use crate::workspace::{CanonicalPathsView, MembersView};

verus! {

// ---------------------------------------------------------------------------
// Realms and versions
// ---------------------------------------------------------------------------

/// How restrictive a realm is.
pub open spec fn rank(realm: Realm) -> int {
    match realm {
        Realm::Shared => 0,
        Realm::Server => 1,
        Realm::Dev => 2,
    }
}

/// Origins merge to the less restrictive of the two.
pub proof fn law_origins_merge_to_the_less_restrictive(a: Realm, b: Realm)
    ensures
        rank(resolution::merged_realm(a, b)) == if rank(a) <= rank(b) {
            rank(a)
        } else {
            rank(b)
        },
{
}

/// The leftmost number of a version that counts: the major number or, where that
/// is zero, the minor one.
pub open spec fn leading(version: VersionView) -> (nat, nat) {
    if version.major > 0 {
        (version.major, 0)
    } else {
        (0, version.minor)
    }
}

/// Of two versions of a package only one can be chosen exactly if they have the
/// same leftmost number that counts: never if their major numbers differ, always
/// if they are the same and not zero.
pub proof fn law_versions_exclude_each_other_by_their_leading_number(
    a: VersionView,
    b: VersionView,
)
    ensures
        resolution::are_compatible(a, b) <==> leading(a) == leading(b),
        a.major != b.major ==> !resolution::are_compatible(a, b),
        a.major == b.major && a.major > 0 ==> resolution::are_compatible(a, b),
        resolution::are_compatible(a, b) <==> resolution::are_compatible(b, a),
{
}

/// A dependency of the shared realm can only be a shared package.
pub open spec fn realm_fits(asked: Realm, realm: Realm) -> bool {
    asked == Realm::Shared ==> realm == Realm::Shared
}

// ---------------------------------------------------------------------------
// Candidates
// ---------------------------------------------------------------------------

/// A package is of a realm that fits, and no package of the name was chosen with
/// the same leftmost number that counts.
pub open spec fn is_open(
    candidate: ManifestView,
    asked: Realm,
    activated: Seq<PackageIdView>,
    name: PackageNameView,
) -> bool {
    &&& realm_fits(asked, candidate.package.realm)
    &&& forall|k: int|
        0 <= k < activated.len() && (#[trigger] activated[k]).name == name ==> leading(
            activated[k].version,
        ) != leading(candidate.package.version)
}

proof fn lemma_is_open(
    candidate: ManifestView,
    asked: Realm,
    activated: Seq<PackageIdView>,
    name: PackageNameView,
)
    ensures
        is_open(candidate, asked, activated, name) <==> resolution::is_eligible(
            candidate,
            asked,
            activated,
            name,
        ),
{
    let version = candidate.package.version;
    if is_open(candidate, asked, activated, name) {
        if resolution::has_conflict(activated, name, version) {
            let k = choose|k: int|
                0 <= k < activated.len() && (#[trigger] activated[k]).name == name
                    && resolution::are_compatible(version, activated[k].version);
            law_versions_exclude_each_other_by_their_leading_number(version, activated[k].version);
        }
    } else if resolution::is_eligible(candidate, asked, activated, name) {
        assert forall|k: int|
            0 <= k < activated.len() && (#[trigger] activated[k]).name == name implies leading(
            activated[k].version,
        ) != leading(version) by {
            law_versions_exclude_each_other_by_their_leading_number(version, activated[k].version);
        }
    }
}

/// A package is tried before another: it is locked and the other is not or, where
/// both are or neither is, it is newer.
pub open spec fn is_preferred(
    a: ManifestView,
    b: ManifestView,
    locked: Seq<PackageIdView>,
) -> bool {
    let a_locked = ordered::holds(locked, a.package_id());
    let b_locked = ordered::holds(locked, b.package_id());
    ||| a_locked && !b_locked
    ||| a_locked == b_locked && order::precedes(
        version::version_key(b.package.version),
        version::version_key(a.package.version),
    )
}

/// The best of the packages that a source found and that are open.
pub open spec fn is_best(
    found: Seq<ManifestView>,
    c: int,
    locked: Seq<PackageIdView>,
    asked: Realm,
    activated: Seq<PackageIdView>,
    name: PackageNameView,
) -> bool {
    &&& 0 <= c < found.len()
    &&& is_open(found[c], asked, activated, name)
    &&& forall|i: int|
        0 <= i < found.len() && is_open(#[trigger] found[i], asked, activated, name)
            ==> !is_preferred(found[i], found[c], locked)
}

/// All that a package depends on, where it is depended on itself, comes from
/// registries.
pub open spec fn comes_from_registries(manifest: ManifestView) -> bool {
    &&& forall|j: int|
        0 <= j < manifest.dependencies.len() ==> (#[trigger] manifest.dependencies[j]).1 is Registry
    &&& forall|j: int|
        0 <= j < manifest.server_dependencies.len() ==> (
        #[trigger] manifest.server_dependencies[j]).1 is Registry
}

// ---------------------------------------------------------------------------
// Sources
// ---------------------------------------------------------------------------

/// What a source said to a requirement when it was first asked.
pub open spec fn said(
    sources: PackageSourceMapView,
    source: PackageSourceIdView,
    req: PackageReqView,
    manifests: Option<Seq<ManifestView>>,
) -> bool {
    exists|a: int|
        {
            &&& 0 <= a < sources.answers.len()
            &&& (#[trigger] sources.answers[a]).source == source
            &&& sources.answers[a].req == req
            &&& sources.answers[a].manifests == manifests
            &&& forall|b: int|
                0 <= b < a ==> !((#[trigger] sources.answers[b]).source == source
                    && sources.answers[b].req == req)
        }
}

/// A source was not asked for a requirement yet.
pub open spec fn is_unasked(
    sources: PackageSourceMapView,
    source: PackageSourceIdView,
    req: PackageReqView,
) -> bool {
    forall|a: int|
        0 <= a < sources.answers.len() ==> !((#[trigger] sources.answers[a]).source == source
            && sources.answers[a].req == req)
}

proof fn lemma_said(
    sources: PackageSourceMapView,
    source: PackageSourceIdView,
    req: PackageReqView,
    from: int,
)
    requires
        0 <= from <= sources.answers.len(),
    ensures
        ({
            let at = sources.answer_index(source, req, from);
            &&& from <= at <= sources.answers.len()
            &&& at < sources.answers.len() ==> sources.answers[at].source == source
                && sources.answers[at].req == req
            &&& forall|a: int|
                from <= a < at ==> !((#[trigger] sources.answers[a]).source == source
                    && sources.answers[a].req == req)
        }),
    decreases sources.answers.len() - from,
{
    if from < sources.answers.len() && !(sources.answers[from].source == source
        && sources.answers[from].req == req) {
        lemma_said(sources, source, req, from + 1);
    }
}

/// What is known of a source's answer is what it said when it was asked, and
/// nothing is known of one that was not asked.
pub proof fn law_answers_are_what_sources_said(
    sources: PackageSourceMapView,
    source: PackageSourceIdView,
    req: PackageReqView,
    manifests: Option<Seq<ManifestView>>,
)
    ensures
        sources.answer(source, req) == Some(manifests) <==> said(sources, source, req, manifests),
        sources.answer(source, req) is None <==> is_unasked(sources, source, req),
{
    lemma_said(sources, source, req, 0);
    let at = sources.answer_index(source, req, 0);
    if said(sources, source, req, manifests) {
        let a = choose|a: int|
            {
                &&& 0 <= a < sources.answers.len()
                &&& (#[trigger] sources.answers[a]).source == source
                &&& sources.answers[a].req == req
                &&& sources.answers[a].manifests == manifests
                &&& forall|b: int|
                    0 <= b < a ==> !((#[trigger] sources.answers[b]).source == source
                        && sources.answers[b].req == req)
            };
        assert(at <= a);
        if at < a {
            assert(sources.answers[at].source == source);
        }
    }
    if at < sources.answers.len() {
        assert(sources.answers[at].source == source);
    }
}

/// The first source, in order of priority, whose query did not fail.
pub open spec fn answers_first(
    sources: PackageSourceMapView,
    req: PackageReqView,
    s: int,
    manifests: Seq<ManifestView>,
) -> bool {
    &&& 0 <= s < sources.order.len()
    &&& said(sources, sources.order[s], req, Some(manifests))
    &&& all_failed(sources, req, 0, s)
}

/// The queries of the sources of a row all failed.
pub open spec fn all_failed(
    sources: PackageSourceMapView,
    req: PackageReqView,
    from: int,
    to: int,
) -> bool {
    forall|e: int| from <= e < to ==> said(sources, #[trigger] sources.order[e], req, None)
}

proof fn lemma_find_from(sources: PackageSourceMapView, req: PackageReqView, from: int)
    requires
        0 <= from <= sources.order.len(),
    ensures
        match resolution::find_source(sources, req, from) {
            FoundView::At(source, manifests) => exists|s: int|
                {
                    &&& from <= s < sources.order.len()
                    &&& #[trigger] sources.order[s] == source
                    &&& said(sources, source, req, Some(manifests))
                    &&& all_failed(sources, req, from, s)
                },
            FoundView::Unanswered(source) => exists|s: int|
                {
                    &&& from <= s < sources.order.len()
                    &&& #[trigger] sources.order[s] == source
                    &&& is_unasked(sources, source, req)
                    &&& all_failed(sources, req, from, s)
                },
            FoundView::Nowhere => all_failed(sources, req, from, sources.order.len() as int),
        },
    decreases sources.order.len() - from,
{
    if from < sources.order.len() {
        let source = sources.order[from];
        let manifests = match sources.answer(source, req) {
            Some(manifests) => manifests,
            None => None,
        };
        law_answers_are_what_sources_said(sources, source, req, manifests);
        if sources.answer(source, req) == Some(None::<Seq<ManifestView>>) {
            lemma_find_from(sources, req, from + 1);
            match resolution::find_source(sources, req, from + 1) {
                FoundView::At(other, found) => {
                    let s = choose|s: int|
                        {
                            &&& from + 1 <= s < sources.order.len()
                            &&& #[trigger] sources.order[s] == other
                            &&& said(sources, other, req, Some(found))
                            &&& all_failed(sources, req, from + 1, s)
                        };
                    assert(all_failed(sources, req, from, s));
                },
                FoundView::Unanswered(other) => {
                    let s = choose|s: int|
                        {
                            &&& from + 1 <= s < sources.order.len()
                            &&& #[trigger] sources.order[s] == other
                            &&& is_unasked(sources, other, req)
                            &&& all_failed(sources, req, from + 1, s)
                        };
                    assert(all_failed(sources, req, from, s));
                },
                FoundView::Nowhere => {
                    assert(all_failed(sources, req, from, sources.order.len() as int));
                },
            }
        } else {
            assert(sources.order[from] == source);
            assert(all_failed(sources, req, from, from));
        }
    }
}

/// Sources are asked in order of priority: what is found is what the first source
/// found whose query did not fail; a source is asked only once those before it
/// failed; and nothing is found only once all failed.
pub proof fn law_sources_are_asked_in_order(sources: PackageSourceMapView, req: PackageReqView)
    ensures
        match resolution::find_source(sources, req, 0) {
            FoundView::At(source, manifests) => exists|s: int|
                answers_first(sources, req, s, manifests) && #[trigger] sources.order[s] == source,
            FoundView::Unanswered(source) => exists|s: int|
                {
                    &&& 0 <= s < sources.order.len()
                    &&& #[trigger] sources.order[s] == source
                    &&& is_unasked(sources, source, req)
                    &&& all_failed(sources, req, 0, s)
                },
            FoundView::Nowhere => all_failed(sources, req, 0, sources.order.len() as int),
        },
{
    lemma_find_from(sources, req, 0);
    if let FoundView::At(source, manifests) = resolution::find_source(sources, req, 0) {
        let s = choose|s: int|
            {
                &&& 0 <= s < sources.order.len()
                &&& #[trigger] sources.order[s] == source
                &&& said(sources, source, req, Some(manifests))
                &&& all_failed(sources, req, 0, s)
            };
        assert(answers_first(sources, req, s, manifests));
    }
}

proof fn lemma_answers_first(
    sources: PackageSourceMapView,
    req: PackageReqView,
    s: int,
    manifests: Seq<ManifestView>,
    from: int,
)
    requires
        answers_first(sources, req, s, manifests),
        0 <= from <= s,
    ensures
        resolution::find_source(sources, req, from) == FoundView::At(sources.order[s], manifests),
    decreases s - from,
{
    if from < s {
        assert(said(sources, sources.order[from], req, None));
        law_answers_are_what_sources_said(sources, sources.order[from], req, None);
        lemma_answers_first(sources, req, s, manifests, from + 1);
    } else {
        law_answers_are_what_sources_said(sources, sources.order[s], req, Some(manifests));
    }
}

// ---------------------------------------------------------------------------
// What meeting a request changes
// ---------------------------------------------------------------------------

/// What a package depends on in a graph under a name.
pub open spec fn edge_in(graph: GraphView, source: PackageIdView, alias: Seq<char>) -> Option<
    PackageIdView,
> {
    ordered::lookup(resolution::edges_of(graph, source), alias)
}

/// In a graph, one dependency is added or takes another target. All others stay.
pub open spec fn gains(
    before: GraphView,
    after: GraphView,
    source: PackageIdView,
    alias: Seq<char>,
    target: PackageIdView,
) -> bool {
    forall|other: PackageIdView, name: Seq<char>| #[trigger]
        edge_in(after, other, name) == if package_id::same_id(other, source) && name == alias {
            Some(target)
        } else {
            edge_in(before, other, name)
        }
}

/// One dependency is added among those of a realm. Those of other realms stay.
pub open spec fn gains_edge(
    before: ResolveView,
    after: ResolveView,
    realm: Realm,
    source: PackageIdView,
    alias: Seq<char>,
    target: PackageIdView,
) -> bool {
    &&& realm == Realm::Shared ==> {
        &&& gains(
            before.shared_dependencies,
            after.shared_dependencies,
            source,
            alias,
            target,
        )
        &&& after.server_dependencies == before.server_dependencies
        &&& after.dev_dependencies == before.dev_dependencies
    }
    &&& realm == Realm::Server ==> {
        &&& gains(
            before.server_dependencies,
            after.server_dependencies,
            source,
            alias,
            target,
        )
        &&& after.shared_dependencies == before.shared_dependencies
        &&& after.dev_dependencies == before.dev_dependencies
    }
    &&& realm == Realm::Dev ==> {
        &&& gains(before.dev_dependencies, after.dev_dependencies, source, alias, target)
        &&& after.shared_dependencies == before.shared_dependencies
        &&& after.server_dependencies == before.server_dependencies
    }
}

/// What is known of a package.
pub open spec fn knows(
    resolve: ResolveView,
    id: PackageIdView,
    metadata: MetadataView,
) -> bool {
    ordered::lookup(resolve.metadata, id) == Some(metadata)
}

/// What is known of all packages but one stays.
pub open spec fn others_stay(
    before: ResolveView,
    after: ResolveView,
    id: PackageIdView,
) -> bool {
    forall|other: PackageIdView|
        !package_id::same_id(other, id) ==> #[trigger] ordered::lookup(after.metadata, other)
            == ordered::lookup(before.metadata, other)
}

/// A request is met by a package that was chosen already: the package moves to
/// the less restrictive of the realms that it originates from and is asked for
/// from, and the dependency stands among those of that realm.
pub open spec fn is_reused(
    before: ResolveView,
    after: ResolveView,
    request: RequestView,
    id: PackageIdView,
    known: MetadataView,
    realm: Realm,
) -> bool {
    &&& rank(realm) == if rank(known.origin_realm) <= rank(request.origin_realm) {
        rank(known.origin_realm)
    } else {
        rank(request.origin_realm)
    }
    &&& after.activated == before.activated
    &&& knows(after, id, MetadataView { origin_realm: realm, ..known })
    &&& others_stay(before, after, id)
    &&& gains_edge(before, after, realm, request.source, request.alias, id)
}

/// A request is met by a package that was not chosen yet: it originates from
/// where it is asked for from, and the dependency stands among those of that
/// realm.
pub open spec fn is_taken_in(
    before: ResolveView,
    after: ResolveView,
    request: RequestView,
    candidate: ManifestView,
    source: PackageSourceIdView,
) -> bool {
    let id = PackageIdView { name: candidate.package.name, version: candidate.package.version };
    &&& forall|other: PackageIdView| #[trigger]
        ordered::holds(after.activated, other) <==> ordered::holds(before.activated, other)
            || package_id::same_id(other, id)
    &&& !ordered::holds(before.activated, id)
    &&& knows(
        after,
        id,
        MetadataView {
            realm: candidate.package.realm,
            origin_realm: request.origin_realm,
            source_registry: source,
            is_workspace_member: false,
        },
    )
    &&& others_stay(before, after, id)
    &&& gains_edge(before, after, request.origin_realm, request.source, request.alias, id)
}

/// The dependencies of a section are asked for, under their aliases, from a realm
/// that is at least as restrictive as another and as the section.
pub open spec fn asks_for(
    deps: DependencyMapView,
    section: Realm,
    origin_realm: Realm,
    source: PackageIdView,
    requests: Seq<RequestView>,
) -> bool {
    &&& requests.len() == deps.len()
    &&& forall|j: int|
        0 <= j < deps.len() ==> {
            &&& (#[trigger] requests[j]).source == source
            &&& requests[j].alias == deps[j].0
            &&& requests[j].realm == section
            &&& rank(requests[j].origin_realm) == if rank(origin_realm) >= rank(section) {
                rank(origin_realm)
            } else {
                rank(section)
            }
            &&& deps[j].1 matches DependencySpecView::Registry(req) ==> requests[j].kind
                == KindView::Registry(req)
        }
}

/// A package that is taken in asks for its shared and server dependencies, and
/// not for its dev dependencies.
pub open spec fn asks_on(
    candidate: ManifestView,
    origin_realm: Realm,
    requests: Seq<RequestView>,
) -> bool {
    let id = PackageIdView { name: candidate.package.name, version: candidate.package.version };
    let n = candidate.dependencies.len() as int;
    &&& requests.len() == n + candidate.server_dependencies.len()
    &&& asks_for(candidate.dependencies, Realm::Shared, origin_realm, id, requests.take(n))
    &&& asks_for(candidate.server_dependencies, Realm::Server, origin_realm, id, requests.skip(n))
}

proof fn lemma_asks_on(candidate: ManifestView, origin_realm: Realm)
    ensures
        asks_on(
            candidate,
            origin_realm,
            resolution::transitive_requests(candidate, origin_realm),
        ),
{
    let id = candidate.package_id();
    let n = candidate.dependencies.len() as int;
    let made = resolution::transitive_requests(candidate, origin_realm);
    let first = resolution::requests(
        candidate.dependencies,
        id,
        Realm::Shared,
        resolution::passed_on(origin_realm, Realm::Shared),
        Seq::empty(),
    );
    let second = resolution::requests(
        candidate.server_dependencies,
        id,
        Realm::Server,
        resolution::passed_on(origin_realm, Realm::Server),
        Seq::empty(),
    );
    assert(made.take(n) =~= first);
    assert(made.skip(n) =~= second);
}

proof fn lemma_gains(
    graph: GraphView,
    activated: Seq<PackageIdView>,
    source: PackageIdView,
    alias: Seq<char>,
    target: PackageIdView,
)
    requires
        laws::graph_joined(activated, graph),
    ensures
        gains(graph, resolution::with_edge(graph, source, alias, target), source, alias, target),
{
    assert forall|s: PackageIdView|
        ordered::ascending(ordered::keys_of(#[trigger] resolution::edges_of(graph, s))) by {
        let keys = ordered::keys_of(graph);
        ordered::lemma_place_exists(keys, s);
        if ordered::holds(keys, s) {
            let at = ordered::place(keys, s);
            assert(laws::edges_joined(activated, graph[at].1));
        } else {
            assert(ordered::keys_of(resolution::edges_of(graph, s)).len() == 0);
        }
    }
    let after = resolution::with_edge(graph, source, alias, target);
    assert forall|other: PackageIdView, name: Seq<char>| #[trigger]
        edge_in(after, other, name) == if package_id::same_id(other, source) && name == alias {
            Some(target)
        } else {
            edge_in(graph, other, name)
        } by {
        met::lemma_edge_with(graph, source, alias, target, other, name);
    }
}

proof fn lemma_activate_gains(
    resolve: ResolveView,
    source: PackageIdView,
    alias: Seq<char>,
    realm: Realm,
    target: PackageIdView,
)
    requires
        laws::is_joined(resolve),
    ensures
        gains_edge(
            resolve,
            resolve.activate(source, alias, realm, target),
            realm,
            source,
            alias,
            target,
        ),
{
    let graph = resolve.graph(realm);
    assert(laws::graph_joined(resolve.activated, graph));
    lemma_gains(graph, resolve.activated, source, alias, target);
}

proof fn lemma_others_stay(
    before: ResolveView,
    after: ResolveView,
    id: PackageIdView,
    put: MetadataView,
)
    requires
        ordered::ascending(ordered::keys_of(before.metadata)),
        after.metadata == ordered::with_entry(before.metadata, id, put),
    ensures
        knows(after, id, put),
        others_stay(before, after, id),
{
    ordered::lemma_lookup_with_entry(before.metadata, id, put, id);
    assert forall|other: PackageIdView|
        !package_id::same_id(other, id) implies #[trigger] ordered::lookup(after.metadata, other)
        == ordered::lookup(before.metadata, other) by {
        ordered::lemma_lookup_with_entry(before.metadata, id, put, other);
        package_id::lemma_id_key_injective(other, id);
    }
}

proof fn lemma_is_reused(resolve: ResolveView, request: RequestView, id: PackageIdView)
    requires
        resolve.is_sound(),
        laws::is_joined(resolve),
        ordered::holds(resolve.activated, id),
    ensures
        ({
            let known = ordered::lookup(resolve.metadata, id)->Some_0;
            is_reused(
                resolve,
                resolution::reuse(resolve, request, id),
                request,
                id,
                known,
                resolution::merged_realm(known.origin_realm, request.origin_realm),
            )
        }),
{
    let known = ordered::lookup(resolve.metadata, id)->Some_0;
    let realm = resolution::merged_realm(known.origin_realm, request.origin_realm);
    let put = MetadataView { origin_realm: realm, ..known };
    let after = resolution::reuse(resolve, request, id);
    law_origins_merge_to_the_less_restrictive(known.origin_realm, request.origin_realm);
    resolution::lemma_reuse(resolve, request, id);
    lemma_others_stay(resolve, after, id, put);
    let moved = ResolveView {
        metadata: ordered::with_entry(resolve.metadata, id, put),
        ..resolve
    };
    assert forall|realm: Realm| laws::graph_joined(
        moved.activated,
        #[trigger] moved.graph(realm),
    ) by {
        assert(laws::graph_joined(resolve.activated, resolve.graph(realm)));
    }
    lemma_activate_gains(moved, request.source, request.alias, realm, id);
}

proof fn lemma_is_taken_in(
    resolve: ResolveView,
    request: RequestView,
    candidate: ManifestView,
    source: PackageSourceIdView,
)
    requires
        resolve.is_sound(),
        laws::is_joined(resolve),
        !ordered::holds(resolve.activated, candidate.package_id()),
    ensures
        is_taken_in(
            resolve,
            resolution::take_in(resolve, request, candidate, source),
            request,
            candidate,
            source,
        ),
{
    let id = candidate.package_id();
    let after = resolution::take_in(resolve, request, candidate, source);
    let put = MetadataView {
        realm: candidate.package.realm,
        origin_realm: request.origin_realm,
        source_registry: source,
        is_workspace_member: false,
    };
    resolution::lemma_take_in(resolve, request, candidate, source);
    ordered::lemma_with_key(resolve.activated, id);
    assert forall|other: PackageIdView| #[trigger]
        ordered::holds(after.activated, other) <==> ordered::holds(resolve.activated, other)
            || package_id::same_id(other, id) by {
        package_id::lemma_id_key_injective(other, id);
    }
    lemma_others_stay(resolve, after, id, put);
    lemma_activate_gains(
        resolve,
        request.source,
        request.alias,
        request.origin_realm,
        id,
    );
}

// ---------------------------------------------------------------------------
// How requests are met
// ---------------------------------------------------------------------------

/// The first request is met by a chosen package of a realm that fits, or refused
/// because its realm does not.
pub open spec fn is_met_by_chosen(
    state: StateView,
    outcome: Result<StateView, ResolveErrorView>,
    id: PackageIdView,
    known: MetadataView,
    own_realm: Realm,
    realm: Realm,
) -> bool {
    let request = state.queue[0];
    match outcome {
        Ok(next) => {
            &&& realm_fits(request.realm, own_realm)
            &&& is_reused(state.resolve, next.resolve, request, id, known, realm)
            &&& next.queue == state.queue.drop_first()
        },
        Err(error) => {
            &&& !realm_fits(request.realm, own_realm)
            &&& error == ResolveErrorView::RealmMismatch {
                dependent: request.source,
                realm: request.realm,
                alias: request.alias,
                target: id,
                target_realm: own_realm,
            }
        },
    }
}

/// A chosen package that meets a requirement, and than which no other such is
/// newer.
pub open spec fn is_newest_chosen(
    activated: Seq<PackageIdView>,
    req: PackageReqView,
    id: PackageIdView,
) -> bool {
    &&& activated.contains(id)
    &&& req.name == id.name && crate::version_req::req_matches(req.version_req, id.version)
    &&& forall|k: int|
        0 <= k < activated.len() && req.matches_id(#[trigger] activated[k]) ==> !order::precedes(
            version::version_key(id.version),
            version::version_key(activated[k].version),
        )
}

/// A request for a package that a chosen one meets is met by the newest of those,
/// and by no other: where that is of a realm that does not fit, the request is
/// refused.
pub proof fn law_chosen_packages_are_reused(
    state: StateView,
    context: ContextView,
    req: PackageReqView,
    k: int,
)
    requires
        laws::is_state(state, context),
        laws::is_joined(state.resolve),
        state.queue.len() > 0,
        state.queue[0].kind == KindView::Registry(req),
        0 <= k < state.resolve.activated.len(),
        req.matches_id(state.resolve.activated[k]),
    ensures
        exists|id: PackageIdView, known: MetadataView, realm: Realm|
            {
                &&& is_newest_chosen(state.resolve.activated, req, id)
                &&& knows(state.resolve, id, known)
                &&& #[trigger] is_met_by_chosen(
                    state,
                    resolution::step(state, context),
                    id,
                    known,
                    known.realm,
                    realm,
                )
            },
{
    let request = state.queue[0];
    let activated = state.resolve.activated;
    resolution::lemma_best_activated(activated, req);
    assert(!req.matches_id(activated[k]) || resolution::best_activated(activated, req) is Some);
    let id = resolution::best_activated(activated, req)->Some_0;
    let known = ordered::lookup(state.resolve.metadata, id)->Some_0;
    let realm = resolution::merged_realm(known.origin_realm, request.origin_realm);
    assert forall|j: int|
        0 <= j < activated.len() && req.matches_id(
            #[trigger] activated[j],
        ) implies !order::precedes(
        version::version_key(id.version),
        version::version_key(activated[j].version),
    ) by {
        stable::law_highest_chosen_version_is_used(activated, req, j);
    }
    assert(is_newest_chosen(activated, req, id));
    assert(knows(state.resolve, id, known));
    lemma_is_reused(state.resolve, request, id);
    assert(is_met_by_chosen(
        state,
        resolution::step(state, context),
        id,
        known,
        known.realm,
        realm,
    ));
}

/// A request for a package that no chosen one meets is met by the best that the
/// first source found that did: one of a realm that fits, of which no version with
/// the same leftmost number that counts was chosen, rather a locked one and then a
/// newer one. It is refused only where there is none, or where that one depends on
/// packages outside of registries.
pub proof fn law_new_packages_are_taken_in(
    state: StateView,
    context: ContextView,
    req: PackageReqView,
    s: int,
    found: Seq<ManifestView>,
)
    requires
        laws::is_state(state, context),
        laws::is_joined(state.resolve),
        state.queue.len() > 0,
        state.queue[0].kind == KindView::Registry(req),
        forall|k: int|
            0 <= k < state.resolve.activated.len() ==> !req.matches_id(
                #[trigger] state.resolve.activated[k],
            ),
        answers_first(context.sources, req, s, found),
    ensures
        match resolution::step(state, context) {
            Ok(next) => exists|c: int|
                {
                    let n = state.queue.len() - 1;
                    &&& #[trigger] is_best(
                        found,
                        c,
                        context.try_to_use,
                        state.queue[0].realm,
                        state.resolve.activated,
                        req.name,
                    )
                    &&& comes_from_registries(found[c])
                    &&& is_taken_in(
                        state.resolve,
                        next.resolve,
                        state.queue[0],
                        found[c],
                        context.sources.order[s],
                    )
                    &&& next.queue.take(n) == state.queue.drop_first()
                    &&& asks_on(found[c], state.queue[0].origin_realm, next.queue.skip(n))
                },
            Err(ResolveErrorView::NotPublished(id)) => exists|c: int|
                {
                    &&& #[trigger] is_best(
                        found,
                        c,
                        context.try_to_use,
                        state.queue[0].realm,
                        state.resolve.activated,
                        req.name,
                    )
                    &&& !comes_from_registries(found[c])
                    &&& id.name == found[c].package.name
                    &&& id.version == found[c].package.version
                },
            Err(ResolveErrorView::NoMatch { realm, req: asked }) => {
                &&& realm == state.queue[0].realm
                &&& asked == req
                &&& forall|i: int|
                    0 <= i < found.len() ==> !realm_fits(
                        realm,
                        (#[trigger] found[i]).package.realm,
                    )
            },
            Err(ResolveErrorView::Conflict { realm, req: asked, conflicting }) => {
                &&& realm == state.queue[0].realm
                &&& asked == req
                &&& exists|i: int|
                    0 <= i < found.len() && realm_fits(realm, (#[trigger] found[i]).package.realm)
                &&& forall|i: int|
                    0 <= i < found.len() && realm_fits(
                        realm,
                        (#[trigger] found[i]).package.realm,
                    ) ==> conflicting.contains(
                        PackageIdView {
                            name: found[i].package.name,
                            version: found[i].package.version,
                        },
                    )
                &&& forall|k: int|
                    0 <= k < conflicting.len() ==> is_found_of_realm(
                        found,
                        realm,
                        #[trigger] conflicting[k],
                    )
                &&& forall|i: int|
                    0 <= i < found.len() ==> !is_open(
                        #[trigger] found[i],
                        realm,
                        state.resolve.activated,
                        req.name,
                    )
            },
            Err(_) => false,
        },
        (exists|i: int|
            0 <= i < found.len() && is_open(
                #[trigger] found[i],
                state.queue[0].realm,
                state.resolve.activated,
                req.name,
            )) && (forall|i: int|
            0 <= i < found.len() ==> comes_from_registries(#[trigger] found[i]))
            ==> resolution::step(state, context) is Ok,
{
    let request = state.queue[0];
    let activated = state.resolve.activated;
    let locked = context.try_to_use;
    resolution::lemma_best_activated(activated, req);
    if let Some(id) = resolution::best_activated(activated, req) {
        let k = choose|k: int| 0 <= k < activated.len() && activated[k] == id;
        assert(!req.matches_id(activated[k]));
    }
    lemma_answers_first(context.sources, req, s, found, 0);
    let candidates = resolution::order_candidates(found, locked);
    let at = resolution::first_eligible(candidates, request.realm, activated, req.name, 0);
    resolution::lemma_order_candidates(found, locked);
    resolution::lemma_first_eligible(candidates, request.realm, activated, req.name, 0);
    assert forall|i: int| 0 <= i < found.len() implies (is_open(
        #[trigger] found[i],
        request.realm,
        activated,
        req.name,
    ) <==> resolution::is_eligible(found[i], request.realm, activated, req.name)) by {
        lemma_is_open(found[i], request.realm, activated, req.name);
    }
    if at < candidates.len() {
        let candidate = candidates[at];
        assert(found.contains(candidate));
        let c = choose|c: int| 0 <= c < found.len() && found[c] == candidate;
        assert(is_open(found[c], request.realm, activated, req.name));
        assert forall|i: int|
            0 <= i < found.len() && is_open(
                #[trigger] found[i],
                request.realm,
                activated,
                req.name,
            ) implies !is_preferred(found[i], found[c], locked) by {
            stable::law_best_candidate_is_chosen(
                found,
                locked,
                request.realm,
                activated,
                req.name,
                i,
            );
        }
        assert(is_best(found, c, locked, request.realm, activated, req.name));
        assert(comes_from_registries(found[c]) <==> package_source::is_published(found[c]));
        if let Ok(next) = resolution::step(state, context) {
            let n = state.queue.len() - 1;
            let source = context.sources.order[s];
            resolution::lemma_find_source(context.sources, req, 0);
            let answer = choose|answer: int|
                0 <= answer < context.sources.answers.len() && (
                #[trigger] context.sources.answers[answer]).manifests == Some(found)
                    && context.sources.answers[answer].req == req
                    && context.sources.answers[answer].source == source;
            assert(package_source::all_named(found, req.name));
            assert(found[c].package.name == req.name);
            resolution::lemma_eligible_is_new(candidate, request.realm, activated);
            lemma_is_taken_in(state.resolve, request, candidate, source);
            lemma_asks_on(candidate, request.origin_realm);
            let made = resolution::transitive_requests(candidate, request.origin_realm);
            assert(next.queue.take(n) =~= state.queue.drop_first());
            assert(next.queue.skip(n) =~= made);
        }
    } else {
        assert forall|i: int| 0 <= i < found.len() implies !is_open(
            #[trigger] found[i],
            request.realm,
            activated,
            req.name,
        ) by {
            if is_open(found[i], request.realm, activated, req.name) {
                stable::law_best_candidate_is_chosen(
                    found,
                    locked,
                    request.realm,
                    activated,
                    req.name,
                    i,
                );
            }
        }
        stable::lemma_of_realm(candidates, request.realm);
        assert forall|i: int| 0 <= i < found.len() implies candidates.contains(
            #[trigger] found[i],
        ) by {
            stable::lemma_all_ordered(found, locked, i);
        }
        if resolution::of_realm(candidates, request.realm).len() == 0 {
            assert forall|i: int| 0 <= i < found.len() implies !realm_fits(
                request.realm,
                (#[trigger] found[i]).package.realm,
            ) by {
                assert(candidates.contains(found[i]));
                let k = choose|k: int| 0 <= k < candidates.len() && candidates[k] == found[i];
                assert(!request.realm.allows(candidates[k].package.realm));
            }
        } else {
            let k = choose|k: int|
                0 <= k < candidates.len() && request.realm.allows(
                    (#[trigger] candidates[k]).package.realm,
                );
            assert(found.contains(candidates[k]));
            let i = choose|i: int| 0 <= i < found.len() && found[i] == candidates[k];
            assert(realm_fits(request.realm, found[i].package.realm));
            let conflicting = resolution::of_realm(candidates, request.realm);
            lemma_conflicting(candidates, request.realm);
            assert forall|i: int|
                0 <= i < found.len() && realm_fits(
                    request.realm,
                    (#[trigger] found[i]).package.realm,
                ) implies conflicting.contains(
                PackageIdView { name: found[i].package.name, version: found[i].package.version },
            ) by {
                assert(candidates.contains(found[i]));
                let k = choose|k: int| 0 <= k < candidates.len() && candidates[k] == found[i];
                assert(conflicting.contains(candidates[k].package_id()));
            }
            assert forall|k: int| 0 <= k < conflicting.len() implies is_found_of_realm(
                found,
                request.realm,
                #[trigger] conflicting[k],
            ) by {
                assert(is_found_of_realm(candidates, request.realm, conflicting[k]));
                let n = choose|n: int|
                    {
                        &&& 0 <= n < candidates.len()
                        &&& realm_fits(request.realm, (#[trigger] candidates[n]).package.realm)
                        &&& candidates[n].package.name == conflicting[k].name
                        &&& candidates[n].package.version == conflicting[k].version
                    };
                assert(found.contains(candidates[n]));
                let i = choose|i: int| 0 <= i < found.len() && found[i] == candidates[n];
                assert(found[i].package_id() == conflicting[k]);
            }
        }
    }
}

/// A package is one of those that were found, and of a realm that fits.
pub open spec fn is_found_of_realm(
    found: Seq<ManifestView>,
    realm: Realm,
    id: PackageIdView,
) -> bool {
    exists|n: int|
        {
            &&& 0 <= n < found.len()
            &&& realm_fits(realm, (#[trigger] found[n]).package.realm)
            &&& found[n].package.name == id.name
            &&& found[n].package.version == id.version
        }
}

/// Versions with different major numbers never stand in each other's way: where a
/// package of a realm that fits was found, and every chosen version of it has
/// another major number, the request is met.
pub proof fn law_other_major_versions_never_conflict(
    state: StateView,
    context: ContextView,
    req: PackageReqView,
    s: int,
    found: Seq<ManifestView>,
    i: int,
)
    requires
        laws::is_state(state, context),
        laws::is_joined(state.resolve),
        state.queue.len() > 0,
        state.queue[0].kind == KindView::Registry(req),
        forall|k: int|
            0 <= k < state.resolve.activated.len() ==> !req.matches_id(
                #[trigger] state.resolve.activated[k],
            ),
        answers_first(context.sources, req, s, found),
        forall|n: int| 0 <= n < found.len() ==> comes_from_registries(#[trigger] found[n]),
        0 <= i < found.len(),
        realm_fits(state.queue[0].realm, found[i].package.realm),
        forall|k: int|
            0 <= k < state.resolve.activated.len() && (
            #[trigger] state.resolve.activated[k]).name == req.name
                ==> state.resolve.activated[k].version.major != found[i].package.version.major,
    ensures
        resolution::step(state, context) is Ok,
{
    let activated = state.resolve.activated;
    assert(is_open(found[i], state.queue[0].realm, activated, req.name));
    law_new_packages_are_taken_in(state, context, req, s, found);
}

proof fn lemma_conflicting(candidates: Seq<ManifestView>, realm: Realm)
    ensures
        forall|i: int|
            0 <= i < candidates.len() && realm_fits(
                realm,
                (#[trigger] candidates[i]).package.realm,
            ) ==> resolution::of_realm(candidates, realm).contains(candidates[i].package_id()),
        forall|k: int|
            0 <= k < resolution::of_realm(candidates, realm).len() ==> is_found_of_realm(
                candidates,
                realm,
                #[trigger] resolution::of_realm(candidates, realm)[k],
            ),
    decreases candidates.len(),
{
    if candidates.len() > 0 {
        let fewer = candidates.drop_last();
        let last = candidates.last();
        let before = resolution::of_realm(fewer, realm);
        let all = resolution::of_realm(candidates, realm);
        lemma_conflicting(fewer, realm);
        assert(candidates[candidates.len() - 1] == last);
        assert forall|i: int|
            0 <= i < candidates.len() && realm_fits(
                realm,
                (#[trigger] candidates[i]).package.realm,
            ) implies all.contains(candidates[i].package_id()) by {
            if i < fewer.len() {
                assert(fewer[i] == candidates[i]);
                assert(before.contains(fewer[i].package_id()));
                let k = choose|k: int|
                    0 <= k < before.len() && before[k] == fewer[i].package_id();
                assert(all[k] == before[k]);
            } else {
                assert(all[all.len() - 1] == last.package_id());
            }
        }
        assert forall|k: int| 0 <= k < all.len() implies is_found_of_realm(
            candidates,
            realm,
            #[trigger] all[k],
        ) by {
            if k < before.len() {
                assert(all[k] == before[k]);
                assert(is_found_of_realm(fewer, realm, before[k]));
                let n = choose|n: int|
                    {
                        &&& 0 <= n < fewer.len()
                        &&& realm_fits(realm, (#[trigger] fewer[n]).package.realm)
                        &&& fewer[n].package.name == before[k].name
                        &&& fewer[n].package.version == before[k].version
                    };
                assert(candidates[n] == fewer[n]);
            } else {
                assert(candidates[candidates.len() - 1].package_id() == all[k]);
            }
        }
    }
}

/// A request for a package that no chosen one meets, and that no source found, is
/// refused: with the source that has to be asked next or, where all failed, with
/// the requirement.
pub proof fn law_missing_packages_are_refused(
    state: StateView,
    context: ContextView,
    req: PackageReqView,
)
    requires
        state.queue.len() > 0,
        state.queue[0].kind == KindView::Registry(req),
        forall|k: int|
            0 <= k < state.resolve.activated.len() ==> !req.matches_id(
                #[trigger] state.resolve.activated[k],
            ),
        forall|s: int, found: Seq<ManifestView>|
            !(#[trigger] answers_first(context.sources, req, s, found)),
    ensures
        match resolution::step(state, context) {
            Err(ResolveErrorView::Unanswered { source, req: asked }) => {
                &&& asked == req
                &&& exists|s: int|
                    {
                        &&& 0 <= s < context.sources.order.len()
                        &&& #[trigger] context.sources.order[s] == source
                        &&& is_unasked(context.sources, source, req)
                        &&& all_failed(context.sources, req, 0, s)
                    }
            },
            Err(ResolveErrorView::NoSource(asked)) => asked == req && all_failed(
                context.sources,
                req,
                0,
                context.sources.order.len() as int,
            ),
            _ => false,
        },
{
    let activated = state.resolve.activated;
    resolution::lemma_best_activated(activated, req);
    if let Some(id) = resolution::best_activated(activated, req) {
        let k = choose|k: int| 0 <= k < activated.len() && activated[k] == id;
        assert(!req.matches_id(activated[k]));
    }
    law_sources_are_asked_in_order(context.sources, req);
}

/// A request for the package in a directory is met by the member that is found
/// there, if it is of a realm that fits, and refused otherwise.
pub proof fn law_path_requests_are_met_by_members(
    state: StateView,
    context: ContextView,
    dir: Seq<char>,
)
    requires
        laws::is_state(state, context),
        laws::is_joined(state.resolve),
        state.queue.len() > 0,
        state.queue[0].kind == KindView::Path(dir),
        ordered::ascending(ordered::keys_of(context.members)),
        ordered::ascending(ordered::keys_of(context.canonical)),
    ensures
        forall|member: ManifestView| #[trigger]
            loading::is_found(context.members, dir, context.canonical, member) ==> exists|
                known: MetadataView,
                realm: Realm,
            |
                #![trigger is_met_by_chosen(state, resolution::step(state, context), PackageIdView { name: member.package.name, version: member.package.version }, known, member.package.realm, realm)]
                {
                    let id = PackageIdView {
                        name: member.package.name,
                        version: member.package.version,
                    };
                    &&& is_met_by_chosen(
                        state,
                        resolution::step(state, context),
                        id,
                        known,
                        member.package.realm,
                        realm,
                    )
                    &&& resolution::step(state, context) is Ok ==> knows(state.resolve, id, known)
                },
        (forall|member: ManifestView|
            !(#[trigger] loading::is_found(context.members, dir, context.canonical, member)))
            ==> resolution::step(state, context) == Err::<StateView, ResolveErrorView>(
            ResolveErrorView::NotAMember { alias: state.queue[0].alias, dir },
        ),
{
    let request = state.queue[0];
    let found = workspace::member_at(context.members, dir, context.canonical);
    assert forall|member: ManifestView| #[trigger]
        loading::is_found(context.members, dir, context.canonical, member) implies exists|
        known: MetadataView,
        realm: Realm,
    |
        #![trigger is_met_by_chosen(state, resolution::step(state, context), PackageIdView { name: member.package.name, version: member.package.version }, known, member.package.realm, realm)]
        {
            let id = PackageIdView { name: member.package.name, version: member.package.version };
            &&& is_met_by_chosen(
                state,
                resolution::step(state, context),
                id,
                known,
                member.package.realm,
                realm,
            )
            &&& resolution::step(state, context) is Ok ==> knows(state.resolve, id, known)
        } by {
        loading::law_members_are_found_by_directory(
            context.members,
            dir,
            context.canonical,
            member,
        );
        let id = member.package_id();
        let known = ordered::lookup(state.resolve.metadata, id)->Some_0;
        let realm = resolution::merged_realm(known.origin_realm, request.origin_realm);
        assert(resolution::path_chosen(state.queue[0], context, state.resolve.activated));
        if resolution::step(state, context) is Ok {
            lemma_is_reused(state.resolve, request, id);
        }
        assert(is_met_by_chosen(
            state,
            resolution::step(state, context),
            PackageIdView { name: member.package.name, version: member.package.version },
            known,
            member.package.realm,
            realm,
        ));
    }
    if let Some(member) = found {
        loading::law_members_are_found_by_directory(
            context.members,
            dir,
            context.canonical,
            member,
        );
        assert(loading::is_found(context.members, dir, context.canonical, member));
    }
}

/// Requests are met one after the other until none is left or one is refused.
pub proof fn law_requests_are_met_in_turn(state: StateView, context: ContextView)
    requires
        laws::is_state(state, context),
    ensures
        state.queue.len() == 0 ==> resolution::run(state, context) == Ok::<
            ResolveView,
            ResolveErrorView,
        >(state.resolve),
        state.queue.len() > 0 ==> match resolution::step(state, context) {
            Ok(next) => resolution::run(state, context) == resolution::run(next, context),
            Err(error) => resolution::outcome(state, context) == Err::<
                ResolveView,
                ResolveErrorView,
            >(error),
        },
        resolution::outcome(state, context) matches Ok(resolve) ==> {
            &&& resolution::run(state, context) is Ok
            &&& resolve.activated == resolution::run(state, context)->Ok_0.activated
            &&& resolve.shared_dependencies == resolution::run(
                state,
                context,
            )->Ok_0.shared_dependencies
            &&& resolve.server_dependencies == resolution::run(
                state,
                context,
            )->Ok_0.server_dependencies
            &&& resolve.dev_dependencies == resolution::run(state, context)->Ok_0.dev_dependencies
        },
{
    if state.queue.len() > 0 {
        resolution::lemma_step_sound(state, context);
    }
}

// ---------------------------------------------------------------------------
// Where resolution starts
// ---------------------------------------------------------------------------

/// A root asks for the dependencies of a section from the section's own realm. A
/// path is taken from the root's directory.
pub open spec fn asks_from_root(
    deps: DependencyMapView,
    section: Realm,
    source: PackageIdView,
    dir: Seq<char>,
    requests: Seq<RequestView>,
) -> bool {
    &&& requests.len() == deps.len()
    &&& forall|j: int|
        0 <= j < deps.len() ==> {
            &&& (#[trigger] requests[j]).source == source
            &&& requests[j].alias == deps[j].0
            &&& requests[j].realm == section
            &&& requests[j].origin_realm == section
            &&& deps[j].1 matches DependencySpecView::Registry(req) ==> requests[j].kind
                == KindView::Registry(req)
            &&& deps[j].1 matches DependencySpecView::Path(path) ==> requests[j].kind
                == KindView::Path(path::join_text(dir, path))
        }
}

/// A root asks for its shared, its server and its dev dependencies.
pub open spec fn is_asked_by_root(
    manifest: ManifestView,
    dir: Seq<char>,
    requests: Seq<RequestView>,
) -> bool {
    let id = PackageIdView { name: manifest.package.name, version: manifest.package.version };
    let n = manifest.dependencies.len() as int;
    let m = n + manifest.server_dependencies.len();
    &&& requests.len() == m + manifest.dev_dependencies.len()
    &&& asks_from_root(manifest.dependencies, Realm::Shared, id, dir, requests.take(n))
    &&& asks_from_root(
        manifest.server_dependencies,
        Realm::Server,
        id,
        dir,
        requests.subrange(n, m),
    )
    &&& asks_from_root(manifest.dev_dependencies, Realm::Dev, id, dir, requests.skip(m))
}

proof fn lemma_asked_by_root(manifest: ManifestView, dir: Seq<char>)
    ensures
        is_asked_by_root(manifest, dir, resolution::root_requests(manifest, dir)),
{
    let id = manifest.package_id();
    let n = manifest.dependencies.len() as int;
    let m = n + manifest.server_dependencies.len();
    let made = resolution::root_requests(manifest, dir);
    let first = resolution::requests(
        manifest.dependencies,
        id,
        Realm::Shared,
        Realm::Shared,
        dir,
    );
    let second = resolution::requests(
        manifest.server_dependencies,
        id,
        Realm::Server,
        Realm::Server,
        dir,
    );
    let third = resolution::requests(manifest.dev_dependencies, id, Realm::Dev, Realm::Dev, dir);
    assert(made.take(n) =~= first);
    assert(made.subrange(n, m) =~= second);
    assert(made.skip(m) =~= third);
}

/// A single package is resolved from where only the package itself is chosen, from
/// its own realm, and all its dependencies are asked for.
pub proof fn law_packages_start_with_themselves(
    manifest: ManifestView,
    try_to_use: Seq<PackageIdView>,
    sources: PackageSourceMapView,
)
    requires
        sources.answers_fit(),
    ensures
        ({
            let start = resolution::package_start(manifest);
            let context = resolution::package_context(try_to_use, sources);
            let id = PackageIdView {
                name: manifest.package.name,
                version: manifest.package.version,
            };
            &&& start.resolve.activated == seq![id]
            &&& start.resolve.metadata.len() == 1
            &&& knows(
                start.resolve,
                id,
                MetadataView {
                    realm: manifest.package.realm,
                    origin_realm: manifest.package.realm,
                    source_registry: PackageSourceIdView::DefaultRegistry,
                    is_workspace_member: false,
                },
            )
            &&& start.resolve.shared_dependencies.len() == 0
            &&& start.resolve.server_dependencies.len() == 0
            &&& start.resolve.dev_dependencies.len() == 0
            &&& is_asked_by_root(manifest, Seq::empty(), start.queue)
            &&& context.try_to_use == try_to_use
            &&& context.sources == sources
            &&& context.members.len() == 0
        }),
{
    let start = resolution::package_start(manifest);
    let id = manifest.package_id();
    laws::lemma_package_start(manifest, try_to_use, sources);
    lemma_asked_by_root(manifest, Seq::empty());
    let keys = ordered::keys_of(start.resolve.metadata);
    ordered::lemma_place_exists(keys, id);
    assert(keys[0] == id);
    assert(ordered::holds(keys, id));
}

/// A package is one of the members.
pub open spec fn is_member(members: MembersView, id: PackageIdView) -> bool {
    exists|m: int|
        {
            &&& 0 <= m < members.len()
            &&& (#[trigger] members[m]).1.package.name == id.name
            &&& members[m].1.package.version == id.version
        }
}

/// A workspace is resolved from where exactly its members are chosen, each from its
/// own realm and directory.
pub proof fn law_workspaces_start_with_their_members(members: MembersView, i: int)
    requires
        forall|a: int, b: int|
            #![trigger members[a], members[b]]
            0 <= a < b < members.len() ==> members[a].1.package.name != members[b].1.package.name,
        0 <= i < members.len(),
    ensures
        ({
            let start = resolution::workspace_start(members).resolve;
            let (dir, manifest) = members[i];
            let id = PackageIdView {
                name: manifest.package.name,
                version: manifest.package.version,
            };
            &&& knows(
                start,
                id,
                MetadataView {
                    realm: manifest.package.realm,
                    origin_realm: manifest.package.realm,
                    source_registry: PackageSourceIdView::Path(dir.text),
                    is_workspace_member: true,
                },
            )
            &&& ordered::holds(start.activated, id)
            &&& forall|k: int|
                0 <= k < start.activated.len() ==> is_member(members, #[trigger] start.activated[k])
            &&& start.shared_dependencies.len() == 0
            &&& start.server_dependencies.len() == 0
            &&& start.dev_dependencies.len() == 0
        }),
{
    let start = resolution::workspace_start(members).resolve;
    laws::lemma_workspace_start_known(members, i);
    laws::lemma_workspace_start_closed(members);
    laws::lemma_workspace_start_names(members);
    resolution::lemma_workspace_start(members);
    assert(ordered::holds(start.activated, members[i].1.package_id()));
    assert(start.graph(Realm::Shared).len() == 0);
    assert(start.graph(Realm::Server).len() == 0);
    assert(start.graph(Realm::Dev).len() == 0);
    assert forall|k: int| 0 <= k < start.activated.len() implies is_member(
        members,
        #[trigger] start.activated[k],
    ) by {
        let m = choose|m: int|
            0 <= m < members.len() && (#[trigger] members[m]).1.package_id()
                == start.activated[k];
        assert(members[m].1.package.name == start.activated[k].name);
    }
}

/// When a workspace is resolved, the dependencies of each member are asked for, and
/// no others on its account.
pub proof fn law_members_ask_for_their_dependencies(members: MembersView, i: int) -> (at: (
    int,
    int,
))
    requires
        forall|a: int, b: int|
            #![trigger members[a], members[b]]
            0 <= a < b < members.len() ==> members[a].1.package.name != members[b].1.package.name,
        0 <= i < members.len(),
    ensures
        ({
            let queue = resolution::workspace_start(members).queue;
            let (dir, manifest) = members[i];
            &&& 0 <= at.0 <= at.1 <= queue.len()
            &&& is_asked_by_root(manifest, dir.text, queue.subrange(at.0, at.1))
            &&& forall|k: int|
                0 <= k < queue.len() && !(at.0 <= k < at.1) ==> (#[trigger] queue[k]).source.name
                    != manifest.package.name
        }),
{
    let queue = resolution::workspace_start(members).queue;
    let (dir, manifest) = members[i];
    let at = met::lemma_workspace_start_queue(members, i);
    let made = resolution::root_requests(manifest, dir.text);
    lemma_asked_by_root(manifest, dir.text);
    assert(queue.subrange(at, at + made.len()) =~= made);
    (at, at + made.len())
}

/// In the end no package originates from a more restrictive realm than it is asked
/// for from: a shared dependency of a package that is no root originates from where
/// that package does or from a less restrictive realm, a server dependency too, but
/// that it can always be server-only.
pub proof fn law_dependencies_follow_their_dependents(
    state: StateView,
    context: ContextView,
    j: int,
)
    requires
        laws::is_state(state, context),
        0 <= j < resolution::links(state, context).len(),
    ensures
        resolution::outcome(state, context) matches Ok(resolve) ==> {
            let link = resolution::links(state, context)[j];
            match (
                ordered::lookup(resolve.metadata, link.request.source),
                ordered::lookup(resolve.metadata, link.target),
            ) {
                (Some(source), Some(target)) => !ordered::holds(
                    state.resolve.activated,
                    link.request.source,
                ) ==> {
                    ||| link.request.realm == Realm::Dev
                    ||| link.request.realm == Realm::Server && target.origin_realm == Realm::Server
                    ||| rank(target.origin_realm) <= rank(source.origin_realm)
                },
                _ => true,
            }
        },
{
    let links = resolution::links(state, context);
    let link = links[j];
    laws::lemma_run_sound(state, context);
    if let Ok(before) = resolution::run(state, context) {
        let roots = state.resolve.activated;
        let after = origins::spread(before.metadata, roots, links);
        origins::lemma_spread(before.metadata, roots, links);
        assert(origins::raised(after, roots, link) == after);
        if ordered::lookup(after, link.request.source) is Some && ordered::lookup(
            after,
            link.target,
        ) is Some && !ordered::holds(roots, link.request.source) {
            origins::lemma_settled(after, roots, link);
        }
    }
}

/// Of what is known of the packages that were chosen nothing changes once all
/// requests are met but where they originate from, and that only to a less
/// restrictive realm. Whatever else was resolved stays.
pub proof fn law_origins_only_become_less_restrictive(
    state: StateView,
    context: ContextView,
    i: int,
)
    requires
        laws::is_state(state, context),
    ensures
        match (resolution::run(state, context), resolution::outcome(state, context)) {
            (Ok(before), Ok(after)) => {
                &&& after.activated == before.activated
                &&& after.shared_dependencies == before.shared_dependencies
                &&& after.server_dependencies == before.server_dependencies
                &&& after.dev_dependencies == before.dev_dependencies
                &&& after.metadata.len() == before.metadata.len()
                &&& 0 <= i < before.metadata.len() ==> {
                    let (id, was) = before.metadata[i];
                    let (same, is) = after.metadata[i];
                    &&& same == id
                    &&& is.realm == was.realm
                    &&& is.source_registry == was.source_registry
                    &&& is.is_workspace_member == was.is_workspace_member
                    &&& rank(is.origin_realm) <= rank(was.origin_realm)
                }
            },
            (Err(error), Err(same)) => error == same,
            _ => false,
        },
{
    laws::lemma_run_sound(state, context);
    if let Ok(before) = resolution::run(state, context) {
        let roots = state.resolve.activated;
        let links = resolution::links(state, context);
        let after = origins::spread(before.metadata, roots, links);
        origins::lemma_spread(before.metadata, roots, links);
        assert(ordered::keys_of(after).len() == ordered::keys_of(before.metadata).len());
        if 0 <= i < before.metadata.len() {
            assert(laws::is_kept(before.metadata[i].1, after[i].1));
            assert(ordered::keys_of(after)[i] == ordered::keys_of(before.metadata)[i]);
        }
    }
}

} // verus!
