//! Packages are chosen for dependencies of realms that allow their own, and
//! originate from no realm that they are not asked for from.

use vstd::prelude::*;

use crate::manifest::{ManifestView, Realm};
use crate::ordered;
use crate::package_id;
use crate::package_id::PackageIdView;
use crate::package_source::{PackageSourceIdView, PackageSourceMapView};
use crate::resolution;
use crate::resolution::laws;
use crate::resolution::met;
use crate::resolution::origins;
use crate::resolution::origins::KnownView;
use crate::resolution::{
    ContextView, KindView, LinkView, MetadataView, RequestView, ResolveView, StateView,
};
use crate::workspace;
use crate::workspace::{CanonicalPathsView, MembersView, WorkspaceView};

verus! {

// ---------------------------------------------------------------------------
// Path dependencies
// ---------------------------------------------------------------------------

/// A path dependency points to a member of a realm that its own allows.
pub open spec fn path_fits(request: RequestView, context: ContextView) -> bool {
    match request.kind {
        KindView::Path(dir) => match workspace::member_at(
            context.members,
            dir,
            context.canonical,
        ) {
            Some(target) => request.realm.allows(target.package.realm),
            None => false,
        },
        KindView::Registry(_) => true,
    }
}

/// All path dependencies do.
pub open spec fn paths_fit(requests: Seq<RequestView>, context: ContextView) -> bool {
    forall|k: int| 0 <= k < requests.len() ==> path_fits(#[trigger] requests[k], context)
}

proof fn lemma_run_paths(state: StateView, context: ContextView)
    requires
        laws::is_state(state, context),
    ensures
        resolution::run(state, context) is Ok ==> paths_fit(state.queue, context),
    decreases
            resolution::fresh(context.sources.answers, state.resolve.activated),
            state.queue.len(),
{
    if state.queue.len() > 0 {
        resolution::lemma_step_progress(state, context);
        resolution::lemma_step_sound(state, context);
        laws::lemma_step_shape(state, context);
        if let Ok(next) = resolution::step(state, context) {
            lemma_run_paths(next, context);
            if resolution::run(state, context) is Ok {
                assert forall|k: int| 0 <= k < state.queue.len() implies path_fits(
                    #[trigger] state.queue[k],
                    context,
                ) by {
                    if k > 0 {
                        assert(next.queue[k - 1] == state.queue[k]);
                    }
                }
            }
        }
    }
}

/// Of a workspace, every path dependency of every member points to a member of
/// a realm that the section of the dependency allows.
pub proof fn law_path_dependencies_fit(
    workspace: WorkspaceView,
    try_to_use: Seq<PackageIdView>,
    sources: PackageSourceMapView,
    canonical: CanonicalPathsView,
    i: int,
)
    requires
        sources.answers_fit(),
        workspace.is_sound(),
        0 <= i < workspace.members.len(),
    ensures
        resolution::outcome(
            resolution::workspace_start(workspace.members),
            laws::workspace_context(workspace, try_to_use, sources, canonical),
        ) is Ok ==> paths_fit(
            resolution::root_requests(workspace.members[i].1, workspace.members[i].0.text),
            laws::workspace_context(workspace, try_to_use, sources, canonical),
        ),
{
    let start = resolution::workspace_start(workspace.members);
    let context = laws::workspace_context(workspace, try_to_use, sources, canonical);
    let made = resolution::root_requests(workspace.members[i].1, workspace.members[i].0.text);
    laws::lemma_workspace_is_state(workspace, try_to_use, sources, canonical);
    lemma_run_paths(start, context);
    let at = met::lemma_workspace_start_queue(workspace.members, i);
    if resolution::run(start, context) is Ok {
        assert forall|k: int| 0 <= k < made.len() implies path_fits(
            #[trigger] made[k],
            context,
        ) by {
            assert(path_fits(start.queue[at + k], context));
        }
    }
}

// ---------------------------------------------------------------------------
// Packages of other realms than the shared one
// ---------------------------------------------------------------------------

/// A package that originates from the shared realm is one of the shared realm.
pub open spec fn is_placed(known: MetadataView) -> bool {
    known.origin_realm == Realm::Shared ==> known.realm == Realm::Shared
}

/// All packages are such.
pub open spec fn all_placed(known: KnownView) -> bool {
    forall|i: int| 0 <= i < known.len() ==> is_placed((#[trigger] known[i]).1)
}

/// What is asked for from the shared realm has to be of the shared realm.
pub open spec fn asks_fit(requests: Seq<RequestView>) -> bool {
    forall|k: int|
        0 <= k < requests.len() && (#[trigger] requests[k]).origin_realm == Realm::Shared
            ==> requests[k].realm == Realm::Shared
}

/// Where a path dependency points to a member that it can be of, the realm of the
/// member is known.
pub open spec fn path_known(
    request: RequestView,
    context: ContextView,
    resolve: ResolveView,
) -> bool {
    match request.kind {
        KindView::Path(dir) => match workspace::member_at(
            context.members,
            dir,
            context.canonical,
        ) {
            Some(target) => request.realm.allows(target.package.realm) ==> laws::known(
                resolve,
                target.package_id(),
            ).realm == target.package.realm,
            None => true,
        },
        KindView::Registry(_) => true,
    }
}

/// The realms of all members that path dependencies in the queue point to are
/// known.
pub open spec fn paths_known(state: StateView, context: ContextView) -> bool {
    forall|k: int|
        0 <= k < state.queue.len() ==> path_known(
            #[trigger] state.queue[k],
            context,
            state.resolve,
        )
}

/// All requests were met by packages of realms that their own allow.
pub open spec fn links_fit(known: KnownView, links: Seq<LinkView>) -> bool {
    forall|j: int|
        0 <= j < links.len() ==> match ordered::lookup(known, (#[trigger] links[j]).target) {
            Some(target) => links[j].request.realm.allows(target.realm),
            None => false,
        }
}

proof fn lemma_lookup_placed(known: KnownView, id: PackageIdView)
    requires
        ordered::ascending(ordered::keys_of(known)),
        all_placed(known),
    ensures
        ordered::lookup(known, id) matches Some(found) ==> is_placed(found),
{
    ordered::lemma_place_exists(ordered::keys_of(known), id);
}

proof fn lemma_step_placed(state: StateView, context: ContextView)
    requires
        state.queue.len() > 0,
        laws::is_state(state, context),
        all_placed(state.resolve.metadata),
        asks_fit(state.queue),
        paths_known(state, context),
    ensures
        resolution::step(state, context) matches Ok(next) ==> {
            &&& all_placed(next.resolve.metadata)
            &&& asks_fit(next.queue)
            &&& paths_known(next, context)
            &&& ordered::holds(next.resolve.activated, resolution::target_of(state, context))
            &&& state.queue[0].realm.allows(
                laws::known(next.resolve, resolution::target_of(state, context)).realm,
            )
        },
{
    laws::lemma_step_shape(state, context);
    laws::lemma_step_keeps(state, context);
    resolution::lemma_step_sound(state, context);
    if let Ok(next) = resolution::step(state, context) {
        let request = state.queue[0];
        let rest = state.queue.drop_first();
        let target = resolution::target_of(state, context);
        let metadata = state.resolve.metadata;
        assert forall|k: int| 0 <= k < rest.len() implies path_known(
            #[trigger] rest[k],
            context,
            next.resolve,
        ) by {
            assert(rest[k] == state.queue[k + 1]);
            assert(path_known(state.queue[k + 1], context, state.resolve));
            assert(resolution::path_chosen(
                state.queue[k + 1],
                context,
                state.resolve.activated,
            ));
            if let KindView::Path(dir) = rest[k].kind {
                if let Some(member) = workspace::member_at(
                    context.members,
                    dir,
                    context.canonical,
                ) {
                    if rest[k].realm.allows(member.package.realm) {
                        let id = member.package_id();
                        assert(laws::is_kept(
                            laws::known(state.resolve, id),
                            laws::known(next.resolve, id),
                        ));
                    }
                }
            }
        }
        if laws::met_by_reuse(state, context, next, target) {
            let known = laws::known(state.resolve, target);
            let origin_realm = resolution::merged_realm(known.origin_realm, request.origin_realm);
            lemma_lookup_placed(metadata, target);
            resolution::lemma_reuse(state.resolve, request, target);
            assert(path_known(state.queue[0], context, state.resolve));
            assert(request.realm.allows(known.realm));
            ordered::lemma_with_entry_values(
                metadata,
                target,
                MetadataView { origin_realm, ..known },
                |known: MetadataView| is_placed(known),
            );
            assert(laws::is_kept(known, laws::known(next.resolve, target)));
            assert forall|k: int|
                0 <= k < next.queue.len() && (#[trigger] next.queue[k]).origin_realm
                    == Realm::Shared implies next.queue[k].realm == Realm::Shared by {
                assert(next.queue[k] == state.queue[k + 1]);
            }
            assert(next.queue =~= rest);
        } else {
            let candidate = choose|candidate: ManifestView| #[trigger]
                laws::met_by_candidate(state, context, next, candidate) && candidate.package_id()
                    == target;
            let found = resolution::find_source(context.sources, request.kind->Registry_0, 0);
            let put = MetadataView {
                realm: candidate.package.realm,
                origin_realm: request.origin_realm,
                source_registry: found->At_0,
                is_workspace_member: false,
            };
            let made = resolution::transitive_requests(candidate, request.origin_realm);
            resolution::lemma_published_requests(candidate, request.origin_realm);
            assert forall|k: int| 0 <= k < next.queue.len() implies path_known(
                #[trigger] next.queue[k],
                context,
                next.resolve,
            ) by {
                if k < rest.len() {
                    assert(next.queue[k] == rest[k]);
                } else {
                    assert(next.queue[k] == made[k - rest.len()]);
                }
            }
            laws::lemma_take_in_keeps(state.resolve, request, candidate, found->At_0);
            resolution::lemma_take_in(state.resolve, request, candidate, found->At_0);
            ordered::lemma_with_key(state.resolve.activated, target);
            ordered::lemma_with_entry_values(
                metadata,
                target,
                put,
                |known: MetadataView| is_placed(known),
            );
            assert forall|k: int|
                0 <= k < next.queue.len() && (#[trigger] next.queue[k]).origin_realm
                    == Realm::Shared implies next.queue[k].realm == Realm::Shared by {
                if k < rest.len() {
                    assert(next.queue[k] == state.queue[k + 1]);
                } else {
                    assert(next.queue[k] == made[k - rest.len()]);
                }
            }
        }
    }
}

proof fn lemma_run_placed(state: StateView, context: ContextView)
    requires
        laws::is_state(state, context),
        all_placed(state.resolve.metadata),
        asks_fit(state.queue),
        paths_known(state, context),
    ensures
        resolution::run(state, context) matches Ok(resolve) ==> {
            &&& all_placed(resolve.metadata)
            &&& links_fit(resolve.metadata, resolution::links(state, context))
        },
    decreases
            resolution::fresh(context.sources.answers, state.resolve.activated),
            state.queue.len(),
{
    if state.queue.len() > 0 {
        resolution::lemma_step_progress(state, context);
        resolution::lemma_step_sound(state, context);
        lemma_step_placed(state, context);
        if let Ok(next) = resolution::step(state, context) {
            lemma_run_placed(next, context);
            laws::lemma_run_keeps(next, context);
            laws::lemma_run_sound(next, context);
            let target = resolution::target_of(state, context);
            let link = LinkView { request: state.queue[0], target };
            let later = resolution::links(next, context);
            let all = resolution::links(state, context);
            assert(all == seq![link] + later);
            if let Ok(resolve) = resolution::run(state, context) {
                assert forall|j: int| 0 <= j < all.len() implies match ordered::lookup(
                    resolve.metadata,
                    (#[trigger] all[j]).target,
                ) {
                    Some(target) => all[j].request.realm.allows(target.realm),
                    None => false,
                } by {
                    if j == 0 {
                        assert(ordered::holds(resolve.activated, target));
                        assert(laws::is_kept(
                            laws::known(next.resolve, target),
                            laws::known(resolve, target),
                        ));
                    } else {
                        assert(all[j] == later[j - 1]);
                    }
                }
            }
        }
    }
}

proof fn lemma_raised_placed(
    known: KnownView,
    roots: Seq<PackageIdView>,
    links: Seq<LinkView>,
    n: int,
)
    requires
        ordered::ascending(ordered::keys_of(known)),
        all_placed(known),
        links_fit(known, links),
        0 <= n <= links.len(),
    ensures
        all_placed(origins::all_raised(known, roots, links.take(n))),
        links_fit(origins::all_raised(known, roots, links.take(n)), links),
        ordered::ascending(
            ordered::keys_of(origins::all_raised(known, roots, links.take(n))),
        ),
    decreases n,
{
    if n == 0 {
        assert(links.take(0) =~= Seq::<LinkView>::empty());
    } else {
        let fewer = links.take(n).drop_last();
        assert(fewer =~= links.take(n - 1));
        let link = links[n - 1];
        assert(links.take(n).last() == link);
        lemma_raised_placed(known, roots, links, n - 1);
        let before = origins::all_raised(known, roots, fewer);
        let after = origins::raised(before, roots, link);
        origins::lemma_raised(before, roots, link);
        lemma_lookup_placed(before, link.request.source);
        lemma_lookup_placed(before, link.target);
        if after != before {
            let source = ordered::lookup(before, link.request.source)->Some_0;
            let target = ordered::lookup(before, link.target)->Some_0;
            let asked = resolution::passed_on(source.origin_realm, link.request.realm);
            let origin_realm = resolution::merged_realm(target.origin_realm, asked);
            let put = MetadataView { origin_realm, ..target };
            assert(link.request.realm.allows(target.realm));
            ordered::lemma_with_entry_values(
                before,
                link.target,
                put,
                |known: MetadataView| is_placed(known),
            );
            assert forall|j: int| 0 <= j < links.len() implies match ordered::lookup(
                after,
                (#[trigger] links[j]).target,
            ) {
                Some(target) => links[j].request.realm.allows(target.realm),
                None => false,
            } by {
                ordered::lemma_lookup_with_entry(before, link.target, put, links[j].target);
                if package_id::id_key(links[j].target) == package_id::id_key(link.target) {
                    ordered::lemma_lookup_same(before, links[j].target, link.target);
                }
            }
        }
    }
}

proof fn lemma_spread_placed(known: KnownView, roots: Seq<PackageIdView>, links: Seq<LinkView>)
    requires
        ordered::ascending(ordered::keys_of(known)),
        all_placed(known),
        links_fit(known, links),
    ensures
        all_placed(origins::spread(known, roots, links)),
        links_fit(origins::spread(known, roots, links), links),
    decreases origins::weights(known),
{
    let next = origins::all_raised(known, roots, links);
    assert(links.take(links.len() as int) =~= links);
    lemma_raised_placed(known, roots, links, links.len() as int);
    origins::lemma_all_raised(known, roots, links);
    if next != known {
        lemma_spread_placed(next, roots, links);
    }
}

/// Where only packages of the shared realm originate from it, and nothing else is
/// asked for from there, this stays so: a package of the server realm is always
/// server-only. All requests are met by packages of realms that theirs allow.
pub proof fn law_only_shared_packages_are_shared(state: StateView, context: ContextView)
    requires
        laws::is_state(state, context),
        all_placed(state.resolve.metadata),
        asks_fit(state.queue),
        paths_known(state, context),
    ensures
        resolution::outcome(state, context) matches Ok(resolve) ==> {
            &&& all_placed(resolve.metadata)
            &&& links_fit(resolve.metadata, resolution::links(state, context))
        },
{
    lemma_run_placed(state, context);
    laws::lemma_run_sound(state, context);
    if let Ok(before) = resolution::run(state, context) {
        lemma_spread_placed(
            before.metadata,
            state.resolve.activated,
            resolution::links(state, context),
        );
    }
}

proof fn lemma_root_asks_fit(manifest: ManifestView, dir: Seq<char>)
    ensures
        asks_fit(resolution::root_requests(manifest, dir)),
{
}

/// Of a single package, only packages of the shared realm originate from it: a
/// package of the server realm is always server-only, or dev-only.
pub proof fn law_package_places_server_packages(
    manifest: ManifestView,
    try_to_use: Seq<PackageIdView>,
    sources: PackageSourceMapView,
)
    requires
        sources.answers_fit(),
    ensures
        resolution::outcome(
            resolution::package_start(manifest),
            resolution::package_context(try_to_use, sources),
        ) matches Ok(resolve) ==> all_placed(resolve.metadata),
{
    laws::lemma_package_start(manifest, try_to_use, sources);
    lemma_root_asks_fit(manifest, Seq::empty());
    law_only_shared_packages_are_shared(
        resolution::package_start(manifest),
        resolution::package_context(try_to_use, sources),
    );
}

proof fn lemma_workspace_start_placed(members: MembersView)
    ensures
        all_placed(resolution::workspace_start(members).resolve.metadata),
        asks_fit(resolution::workspace_start(members).queue),
    decreases members.len(),
{
    if members.len() > 0 {
        let fewer = members.drop_last();
        let before = resolution::workspace_start(fewer);
        let after = resolution::workspace_start(members);
        let (dir, manifest) = members.last();
        lemma_workspace_start_placed(fewer);
        resolution::lemma_workspace_start(fewer);
        lemma_root_asks_fit(manifest, dir.text);
        ordered::lemma_with_entry_values(
            before.resolve.metadata,
            manifest.package_id(),
            resolution::root_metadata(manifest, PackageSourceIdView::Path(dir.text), true),
            |known: MetadataView| is_placed(known),
        );
        let made = resolution::root_requests(manifest, dir.text);
        assert forall|k: int|
            0 <= k < after.queue.len() && (#[trigger] after.queue[k]).origin_realm
                == Realm::Shared implies after.queue[k].realm == Realm::Shared by {
            if k < before.queue.len() {
                assert(after.queue[k] == before.queue[k]);
            } else {
                assert(after.queue[k] == made[k - before.queue.len()]);
            }
        }
    }
}

/// Of a workspace, only packages of the shared realm originate from it: a package
/// of the server realm, be it a member or not, is always server-only, or
/// dev-only.
pub proof fn law_workspace_places_server_packages(
    workspace: WorkspaceView,
    try_to_use: Seq<PackageIdView>,
    sources: PackageSourceMapView,
    canonical: CanonicalPathsView,
)
    requires
        sources.answers_fit(),
        workspace.is_sound(),
    ensures
        resolution::outcome(
            resolution::workspace_start(workspace.members),
            laws::workspace_context(workspace, try_to_use, sources, canonical),
        ) matches Ok(resolve) ==> all_placed(resolve.metadata),
{
    let start = resolution::workspace_start(workspace.members);
    let context = laws::workspace_context(workspace, try_to_use, sources, canonical);
    laws::lemma_workspace_is_state(workspace, try_to_use, sources, canonical);
    lemma_workspace_start_placed(workspace.members);
    assert forall|k: int| 0 <= k < start.queue.len() implies path_known(
        #[trigger] start.queue[k],
        context,
        start.resolve,
    ) by {
        if let KindView::Path(dir) = start.queue[k].kind {
            resolution::lemma_member_at(workspace.members, dir, canonical);
            if let Some(member) = workspace::member_at(workspace.members, dir, canonical) {
                let i = choose|i: int|
                    0 <= i < workspace.members.len() && (#[trigger] workspace.members[i]).1
                        == member;
                laws::lemma_workspace_start_known(workspace.members, i);
            }
        }
    }
    law_only_shared_packages_are_shared(start, context);
}

} // verus!
