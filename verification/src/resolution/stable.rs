//! What resolution prefers, and when it comes to the same again.

use vstd::prelude::*;

use crate::manifest::{ManifestView, Realm};
use crate::order;
use crate::ordered;
use crate::ordered::Ranked;
use crate::package_id;
use crate::package_id::PackageIdView;
use crate::package_name::PackageNameView;
use crate::package_req::PackageReqView;
use crate::package_source;
use crate::package_source::{AnswerView, PackageSourceIdView, PackageSourceMapView};
use crate::path::PathModel;
use crate::resolution;
use crate::resolution::laws;
use crate::resolution::origins;
use crate::resolution::origins::KnownView;
use crate::resolution::{
    ContextView, FoundView, KindView, LinkView, MetadataView, RequestView, ResolveErrorView,
    ResolveView, StateView,
};
use crate::version;
use crate::workspace::{CanonicalPathsView, MembersView, WorkspaceView};

verus! {

// ---------------------------------------------------------------------------
// Preferences
// ---------------------------------------------------------------------------

/// Of the chosen packages that meet a requirement, the one with the highest
/// version meets it.
pub proof fn law_highest_chosen_version_is_used(
    activated: Seq<PackageIdView>,
    req: PackageReqView,
    i: int,
)
    requires
        ordered::ascending(activated),
        0 <= i < activated.len(),
        req.matches_id(activated[i]),
    ensures
        resolution::best_activated(activated, req) matches Some(id) && !order::precedes(
            version::version_key(id.version),
            version::version_key(activated[i].version),
        ),
    decreases activated.len(),
{
    let last = activated.last();
    if req.matches_id(last) {
        package_id::lemma_id_key_same_name(last, activated[i]);
        if i == activated.len() - 1 {
            order::lemma_irreflexive(package_id::id_key(last));
        } else {
            assert(order::precedes(
                activated[i].sort_key(),
                activated[activated.len() - 1].sort_key(),
            ));
            order::lemma_asymmetric(package_id::id_key(activated[i]), package_id::id_key(last));
        }
    } else {
        let fewer = activated.drop_last();
        assert(fewer[i] == activated[i]);
        assert forall|a: int, b: int|
            #![trigger fewer[a], fewer[b]]
            0 <= a < b < fewer.len() implies order::precedes(
            fewer[a].sort_key(),
            fewer[b].sort_key(),
        ) by {
            assert(fewer[a] == activated[a] && fewer[b] == activated[b]);
        }
        law_highest_chosen_version_is_used(fewer, req, i);
    }
}

/// Trying one candidate before another is an order.
proof fn lemma_before_order(
    a: ManifestView,
    b: ManifestView,
    c: ManifestView,
    try_to_use: Seq<PackageIdView>,
)
    ensures
        !resolution::is_before(a, a, try_to_use),
        resolution::is_before(a, b, try_to_use) ==> !resolution::is_before(b, a, try_to_use),
        resolution::is_before(a, b, try_to_use) && !resolution::is_before(c, b, try_to_use)
            ==> resolution::is_before(a, c, try_to_use),
        resolution::is_before(a, b, try_to_use) && !resolution::is_before(a, c, try_to_use)
            ==> resolution::is_before(c, b, try_to_use),
{
    let x = version::version_key(a.package.version);
    let y = version::version_key(b.package.version);
    let z = version::version_key(c.package.version);
    order::lemma_irreflexive(x);
    if order::precedes(x, y) {
        order::lemma_asymmetric(x, y);
    }
    if order::precedes(y, x) {
        order::lemma_asymmetric(y, x);
    }
    if z != y {
        order::lemma_total(z, y);
    }
    if z != x {
        order::lemma_total(z, x);
    }
    if order::precedes(z, y) && order::precedes(y, x) {
        order::lemma_transitive(z, y, x);
    }
    if order::precedes(y, x) && order::precedes(x, z) {
        order::lemma_transitive(y, x, z);
    }
}

/// None of the candidates is tried before an earlier one.
pub open spec fn is_ordered(candidates: Seq<ManifestView>, try_to_use: Seq<PackageIdView>) -> bool {
    forall|i: int, j: int|
        #![trigger candidates[i], candidates[j]]
        0 <= i < j < candidates.len() ==> !resolution::is_before(
            candidates[j],
            candidates[i],
            try_to_use,
        )
}

proof fn lemma_candidate_place(
    candidates: Seq<ManifestView>,
    candidate: ManifestView,
    try_to_use: Seq<PackageIdView>,
    from: int,
)
    requires
        0 <= from <= candidates.len(),
    ensures
        ({
            let at = resolution::candidate_place(candidates, candidate, try_to_use, from);
            &&& from <= at <= candidates.len()
            &&& at < candidates.len() ==> resolution::is_before(
                candidate,
                candidates[at],
                try_to_use,
            )
            &&& forall|i: int|
                from <= i < at ==> !resolution::is_before(
                    candidate,
                    #[trigger] candidates[i],
                    try_to_use,
                )
        }),
    decreases candidates.len() - from,
{
    if from < candidates.len() && !resolution::is_before(candidate, candidates[from], try_to_use) {
        lemma_candidate_place(candidates, candidate, try_to_use, from + 1);
    }
}

proof fn lemma_is_ordered(candidates: Seq<ManifestView>, try_to_use: Seq<PackageIdView>)
    ensures
        is_ordered(resolution::order_candidates(candidates, try_to_use), try_to_use),
    decreases candidates.len(),
{
    if candidates.len() > 0 {
        let last = candidates.last();
        let before = resolution::order_candidates(candidates.drop_last(), try_to_use);
        let after = resolution::order_candidates(candidates, try_to_use);
        lemma_is_ordered(candidates.drop_last(), try_to_use);
        lemma_candidate_place(before, last, try_to_use, 0);
        let at = resolution::candidate_place(before, last, try_to_use, 0);
        assert forall|i: int, j: int|
            #![trigger after[i], after[j]]
            0 <= i < j < after.len() implies !resolution::is_before(
            after[j],
            after[i],
            try_to_use,
        ) by {
            let a = if i < at { i } else { i - 1 };
            let b = if j < at { j } else { j - 1 };
            if i == at {
                assert(after[j] == before[b]);
                if b == at {
                    lemma_before_order(last, before[at], last, try_to_use);
                } else {
                    assert(!resolution::is_before(before[b], before[at], try_to_use));
                    lemma_before_order(last, before[at], before[b], try_to_use);
                    lemma_before_order(last, before[b], last, try_to_use);
                }
            } else if j == at {
                assert(after[i] == before[a]);
                assert(!resolution::is_before(last, before[a], try_to_use));
            } else {
                assert(after[i] == before[a]);
                assert(after[j] == before[b]);
            }
        }
    }
}

/// All that were found are among the candidates in order.
pub(crate) proof fn lemma_all_ordered(candidates: Seq<ManifestView>, try_to_use: Seq<PackageIdView>, i: int)
    requires
        0 <= i < candidates.len(),
    ensures
        resolution::order_candidates(candidates, try_to_use).contains(candidates[i]),
    decreases candidates.len(),
{
    let last = candidates.last();
    let fewer = candidates.drop_last();
    let before = resolution::order_candidates(fewer, try_to_use);
    let after = resolution::order_candidates(candidates, try_to_use);
    lemma_candidate_place(before, last, try_to_use, 0);
    let at = resolution::candidate_place(before, last, try_to_use, 0);
    if i == candidates.len() - 1 {
        assert(after[at] == candidates[i]);
    } else {
        assert(fewer[i] == candidates[i]);
        lemma_all_ordered(fewer, try_to_use, i);
        let k = choose|k: int| 0 <= k < before.len() && before[k] == candidates[i];
        let n = if k < at { k } else { k + 1 };
        assert(after[n] == candidates[i]);
    }
}

/// The candidate that is chosen is the best of those that are eligible: no
/// other comes before it, be it because it was used before or because its
/// version is higher.
pub proof fn law_best_candidate_is_chosen(
    found: Seq<ManifestView>,
    try_to_use: Seq<PackageIdView>,
    realm: Realm,
    activated: Seq<PackageIdView>,
    name: PackageNameView,
    i: int,
)
    requires
        0 <= i < found.len(),
        resolution::is_eligible(found[i], realm, activated, name),
    ensures
        ({
            let candidates = resolution::order_candidates(found, try_to_use);
            let at = resolution::first_eligible(candidates, realm, activated, name, 0);
            &&& 0 <= at < candidates.len()
            &&& found.contains(candidates[at])
            &&& resolution::is_eligible(candidates[at], realm, activated, name)
            &&& !resolution::is_before(found[i], candidates[at], try_to_use)
        }),
{
    let candidates = resolution::order_candidates(found, try_to_use);
    let at = resolution::first_eligible(candidates, realm, activated, name, 0);
    resolution::lemma_first_eligible(candidates, realm, activated, name, 0);
    resolution::lemma_order_candidates(found, try_to_use);
    lemma_is_ordered(found, try_to_use);
    lemma_all_ordered(found, try_to_use, i);
    let k = choose|k: int| 0 <= k < candidates.len() && candidates[k] == found[i];
    assert(at <= k);
    if at == k {
        lemma_before_order(found[i], found[i], found[i], try_to_use);
    } else {
        assert(!resolution::is_before(candidates[k], candidates[at], try_to_use));
    }
}

// ---------------------------------------------------------------------------
// Answers
// ---------------------------------------------------------------------------

/// All that one map of sources has answered, another has answered alike.
pub open spec fn has_all_answers(
    before: PackageSourceMapView,
    after: PackageSourceMapView,
) -> bool {
    &&& after.order == before.order
    &&& forall|source: PackageSourceIdView, req: PackageReqView|
        (#[trigger] before.answer(source, req)) is Some ==> after.answer(source, req)
            == before.answer(source, req)
}

proof fn lemma_same_source(
    before: PackageSourceMapView,
    after: PackageSourceMapView,
    req: PackageReqView,
    from: int,
)
    requires
        has_all_answers(before, after),
        !(resolution::find_source(before, req, from) is Unanswered),
    ensures
        resolution::find_source(after, req, from) == resolution::find_source(before, req, from),
    decreases before.order.len() - from,
{
    if from < before.order.len() {
        assert(before.answer(before.order[from], req) is Some);
        if before.answer(before.order[from], req) == Some(None::<Seq<ManifestView>>) {
            lemma_same_source(before, after, req, from + 1);
        }
    }
}

proof fn lemma_further_run(
    state: StateView,
    context: ContextView,
    sources: PackageSourceMapView,
)
    requires
        laws::is_state(state, context),
        sources.answers_fit(),
        has_all_answers(context.sources, sources),
        !(resolution::run(state, context) matches Err(error) && error is Unanswered),
    ensures
        resolution::run(state, ContextView { sources, ..context }) == resolution::run(
            state,
            context,
        ),
        resolution::links(state, ContextView { sources, ..context }) == resolution::links(
            state,
            context,
        ),
    decreases
            resolution::fresh(context.sources.answers, state.resolve.activated),
            state.queue.len(),
{
    if state.queue.len() > 0 {
        let more = ContextView { sources, ..context };
        resolution::lemma_step_progress(state, context);
        resolution::lemma_step_sound(state, context);
        if let KindView::Registry(req) = state.queue[0].kind {
            if resolution::best_activated(state.resolve.activated, req) is None {
                lemma_same_source(context.sources, sources, req, 0);
            }
        }
        assert(resolution::step(state, more) == resolution::step(state, context));
        assert(resolution::target_of(state, more) == resolution::target_of(state, context));
        if let Ok(next) = resolution::step(state, context) {
            lemma_further_run(next, context, sources);
        }
    }
}

/// Further answers change nothing once resolution needs none: what comes out
/// is the same as if every source had been asked on the way.
pub proof fn law_further_answers_change_nothing(
    state: StateView,
    context: ContextView,
    sources: PackageSourceMapView,
)
    requires
        laws::is_state(state, context),
        sources.answers_fit(),
        has_all_answers(context.sources, sources),
        !(resolution::outcome(state, context) matches Err(error) && error is Unanswered),
    ensures
        resolution::outcome(state, ContextView { sources, ..context }) == resolution::outcome(
            state,
            context,
        ),
{
    lemma_further_run(state, context, sources);
}

proof fn lemma_asked_run(state: StateView, context: ContextView)
    requires
        laws::is_state(state, context),
    ensures
        resolution::run(state, context) matches Err(
            ResolveErrorView::Unanswered { source, req },
        ) ==> context.sources.answer(source, req) is None && context.sources.order.contains(source),
    decreases
            resolution::fresh(context.sources.answers, state.resolve.activated),
            state.queue.len(),
{
    if state.queue.len() > 0 {
        resolution::lemma_step_progress(state, context);
        resolution::lemma_step_sound(state, context);
        if let KindView::Registry(req) = state.queue[0].kind {
            lemma_unanswered(context.sources, req, 0);
        }
        if let Ok(next) = resolution::step(state, context) {
            lemma_asked_run(next, context);
        }
    }
}

proof fn lemma_unanswered(sources: PackageSourceMapView, req: PackageReqView, from: int)
    requires
        0 <= from,
    ensures
        resolution::find_source(sources, req, from) matches FoundView::Unanswered(source)
            ==> sources.answer(source, req) is None && sources.order.contains(source),
    decreases sources.order.len() - from,
{
    if from < sources.order.len() {
        lemma_unanswered(sources, req, from + 1);
        assert(sources.order.contains(sources.order[from]));
    }
}

/// A query that has to be asked is one that was not answered, of one of the
/// sources.
pub proof fn law_asked_queries_are_unanswered(state: StateView, context: ContextView)
    requires
        laws::is_state(state, context),
    ensures
        resolution::outcome(state, context) matches Err(
            ResolveErrorView::Unanswered { source, req },
        ) ==> context.sources.answer(source, req) is None && context.sources.order.contains(source),
{
    lemma_asked_run(state, context);
}

/// An answer that is recorded is known, and all others stay.
pub proof fn law_recorded_answers_are_known(
    sources: PackageSourceMapView,
    answer: AnswerView,
)
    requires
        sources.answer(answer.source, answer.req) is None,
    ensures
        ({
            let recorded = PackageSourceMapView {
                answers: sources.answers.push(answer),
                ..sources
            };
            &&& recorded.answer(answer.source, answer.req) == Some(answer.manifests)
            &&& has_all_answers(sources, recorded)
        }),
{
    let recorded = PackageSourceMapView { answers: sources.answers.push(answer), ..sources };
    lemma_answer_pushed(sources, answer, answer.source, answer.req, 0);
    assert forall|source: PackageSourceIdView, req: PackageReqView|
        (#[trigger] sources.answer(source, req)) is Some implies recorded.answer(source, req)
        == sources.answer(source, req) by {
        lemma_answer_pushed(sources, answer, source, req, 0);
        let at = sources.answer_index(source, req, 0);
        assert(recorded.answers[at] == sources.answers[at]);
    }
}

proof fn lemma_answer_pushed(
    sources: PackageSourceMapView,
    answer: AnswerView,
    source: PackageSourceIdView,
    req: PackageReqView,
    from: int,
)
    requires
        0 <= from <= sources.answers.len(),
    ensures
        ({
            let recorded = PackageSourceMapView {
                answers: sources.answers.push(answer),
                ..sources
            };
            let at = sources.answer_index(source, req, from);
            &&& from <= at <= sources.answers.len()
            &&& at < sources.answers.len() ==> recorded.answer_index(source, req, from) == at
            &&& at == sources.answers.len() && answer.source == source && answer.req == req
                ==> recorded.answer_index(source, req, from) == at
        }),
    decreases sources.answers.len() - from,
{
    let recorded = PackageSourceMapView { answers: sources.answers.push(answer), ..sources };
    if from < sources.answers.len() {
        assert(recorded.answers[from] == sources.answers[from]);
        if !(sources.answers[from].source == source && sources.answers[from].req == req) {
            lemma_answer_pushed(sources, answer, source, req, from + 1);
        }
    } else {
        assert(recorded.answers[from] == answer);
    }
}

// ---------------------------------------------------------------------------
// Lockfiles
// ---------------------------------------------------------------------------

/// The manifests of packages that are locked.
pub open spec fn locked_only(manifests: Seq<ManifestView>, locked: Seq<PackageIdView>) -> Seq<
    ManifestView,
>
    decreases manifests.len(),
{
    if manifests.len() == 0 {
        manifests
    } else {
        let before = locked_only(manifests.drop_last(), locked);
        if ordered::holds(locked, manifests.last().package_id()) {
            before.push(manifests.last())
        } else {
            before
        }
    }
}

/// The best of the candidates that are eligible, the first found of several.
pub open spec fn best_candidate(
    found: Seq<ManifestView>,
    try_to_use: Seq<PackageIdView>,
    realm: Realm,
    activated: Seq<PackageIdView>,
    name: PackageNameView,
) -> Option<ManifestView>
    decreases found.len(),
{
    if found.len() == 0 {
        None
    } else {
        let before = best_candidate(found.drop_last(), try_to_use, realm, activated, name);
        let last = found.last();
        if !resolution::is_eligible(last, realm, activated, name) {
            before
        } else {
            match before {
                None => Some(last),
                Some(best) => if resolution::is_before(last, best, try_to_use) {
                    Some(last)
                } else {
                    Some(best)
                },
            }
        }
    }
}

proof fn lemma_best_is_first(
    found: Seq<ManifestView>,
    try_to_use: Seq<PackageIdView>,
    realm: Realm,
    activated: Seq<PackageIdView>,
    name: PackageNameView,
)
    ensures
        ({
            let candidates = resolution::order_candidates(found, try_to_use);
            let at = resolution::first_eligible(candidates, realm, activated, name, 0);
            match best_candidate(found, try_to_use, realm, activated, name) {
                Some(best) => at < candidates.len() && candidates[at] == best,
                None => at >= candidates.len(),
            }
        }),
    decreases found.len(),
{
    let candidates = resolution::order_candidates(found, try_to_use);
    if found.len() > 0 {
        let last = found.last();
        let fewer = found.drop_last();
        let before = resolution::order_candidates(fewer, try_to_use);
        let place = resolution::candidate_place(before, last, try_to_use, 0);
        lemma_best_is_first(fewer, try_to_use, realm, activated, name);
        lemma_candidate_place(before, last, try_to_use, 0);
        lemma_is_ordered(fewer, try_to_use);
        resolution::lemma_first_eligible(before, realm, activated, name, 0);
        let old = resolution::first_eligible(before, realm, activated, name, 0);
        let eligible = resolution::is_eligible(last, realm, activated, name);
        let wanted = if eligible && place <= old {
            place
        } else if place <= old {
            old + 1
        } else {
            old
        };
        assert forall|i: int| 0 <= i < wanted && i < candidates.len() implies
            !resolution::is_eligible(#[trigger] candidates[i], realm, activated, name) by {
            if i < place {
                assert(candidates[i] == before[i]);
            } else if i > place {
                assert(candidates[i] == before[i - 1]);
            }
        }
        if wanted < candidates.len() {
            if wanted < place {
                assert(candidates[wanted] == before[wanted]);
            } else if wanted > place {
                assert(candidates[wanted] == before[wanted - 1]);
            }
        }
        lemma_first_is(candidates, realm, activated, name, 0, wanted);
        if eligible && old < before.len() {
            if place <= old {
                if place < old {
                    assert(!resolution::is_before(before[old], before[place], try_to_use));
                    lemma_before_order(last, before[place], before[old], try_to_use);
                }
                assert(resolution::is_before(last, before[old], try_to_use));
            } else {
                assert(!resolution::is_before(last, before[old], try_to_use));
            }
        }
    }
}

proof fn lemma_first_is(
    candidates: Seq<ManifestView>,
    realm: Realm,
    activated: Seq<PackageIdView>,
    name: PackageNameView,
    from: int,
    at: int,
)
    requires
        0 <= from <= at <= candidates.len(),
        forall|i: int|
            from <= i < at ==> !resolution::is_eligible(
                #[trigger] candidates[i],
                realm,
                activated,
                name,
            ),
        at < candidates.len() ==> resolution::is_eligible(candidates[at], realm, activated, name),
    ensures
        resolution::first_eligible(candidates, realm, activated, name, from) == at,
    decreases at - from,
{
    if from < at {
        assert(!resolution::is_eligible(candidates[from], realm, activated, name));
        lemma_first_is(candidates, realm, activated, name, from + 1, at);
    }
}

/// Candidates that are not locked do not change which of the locked ones is
/// best.
proof fn lemma_best_of_locked(
    found: Seq<ManifestView>,
    locked: Seq<PackageIdView>,
    realm: Realm,
    activated: Seq<PackageIdView>,
    name: PackageNameView,
)
    ensures
        ({
            let best = best_candidate(found, locked, realm, activated, name);
            let kept = best_candidate(
                locked_only(found, locked),
                locked,
                realm,
                activated,
                name,
            );
            match kept {
                Some(candidate) => best == kept && ordered::holds(locked, candidate.package_id()),
                None => best matches Some(candidate) ==> !ordered::holds(
                    locked,
                    candidate.package_id(),
                ),
            }
        }),
    decreases found.len(),
{
    if found.len() > 0 {
        let last = found.last();
        let fewer = found.drop_last();
        lemma_best_of_locked(fewer, locked, realm, activated, name);
        let kept = locked_only(fewer, locked);
        if ordered::holds(locked, last.package_id()) {
            assert(kept.push(last).drop_last() =~= kept);
            assert(kept.push(last).last() == last);
        }
    }
}

/// Where the best candidate is locked, it is the best of the locked ones.
proof fn lemma_locked_best(
    found: Seq<ManifestView>,
    locked: Seq<PackageIdView>,
    try_to_use: Seq<PackageIdView>,
    realm: Realm,
    activated: Seq<PackageIdView>,
    name: PackageNameView,
)
    ensures
        ({
            let best = best_candidate(found, try_to_use, realm, activated, name);
            let kept = best_candidate(
                locked_only(found, locked),
                try_to_use,
                realm,
                activated,
                name,
            );
            &&& best matches Some(candidate) ==> (ordered::holds(locked, candidate.package_id())
                ==> kept == best)
            &&& kept matches Some(candidate) ==> best is Some && !resolution::is_before(
                candidate,
                best->Some_0,
                try_to_use,
            )
        }),
    decreases found.len(),
{
    if found.len() > 0 {
        let last = found.last();
        let fewer = found.drop_last();
        lemma_locked_best(fewer, locked, try_to_use, realm, activated, name);
        let kept = locked_only(fewer, locked);
        let best = best_candidate(fewer, try_to_use, realm, activated, name);
        let kept_best = best_candidate(kept, try_to_use, realm, activated, name);
        if ordered::holds(locked, last.package_id()) {
            assert(kept.push(last).drop_last() =~= kept);
            assert(kept.push(last).last() == last);
        }
        lemma_before_order(last, last, last, try_to_use);
        if let Some(best) = best {
            lemma_before_order(last, best, last, try_to_use);
            if let Some(k) = kept_best {
                lemma_before_order(last, best, k, try_to_use);
                lemma_before_order(k, best, last, try_to_use);
                lemma_before_order(k, last, best, try_to_use);
                lemma_before_order(last, k, best, try_to_use);
            }
        }
    }
}

/// Of two locked candidates, the one that is tried first is the newer.
pub open spec fn is_settled(
    found: Seq<ManifestView>,
    locked: Seq<PackageIdView>,
    try_to_use: Seq<PackageIdView>,
) -> bool {
    forall|a: ManifestView, b: ManifestView|
        #![trigger resolution::is_before(a, b, try_to_use)]
        found.contains(a) && found.contains(b) && ordered::holds(locked, a.package_id())
            && ordered::holds(locked, b.package_id()) && resolution::is_before(a, b, try_to_use)
            ==> order::precedes(
            version::version_key(b.package.version),
            version::version_key(a.package.version),
        )
}

/// Among locked candidates it makes no difference which were locked before.
proof fn lemma_all_locked(
    found: Seq<ManifestView>,
    locked: Seq<PackageIdView>,
    try_to_use: Seq<PackageIdView>,
    realm: Realm,
    activated: Seq<PackageIdView>,
    name: PackageNameView,
)
    requires
        is_settled(found, locked, try_to_use),
    ensures
        ({
            let kept = locked_only(found, locked);
            let best = best_candidate(kept, try_to_use, realm, activated, name);
            &&& best_candidate(kept, locked, realm, activated, name) == best
            &&& best matches Some(candidate) ==> ordered::holds(locked, candidate.package_id())
                && found.contains(candidate)
        }),
    decreases found.len(),
{
    if found.len() > 0 {
        let last = found.last();
        let fewer = found.drop_last();
        assert forall|m: ManifestView| fewer.contains(m) implies found.contains(m) by {
            let n = choose|n: int| 0 <= n < fewer.len() && fewer[n] == m;
            assert(found[n] == m);
        }
        lemma_all_locked(fewer, locked, try_to_use, realm, activated, name);
        let kept = locked_only(fewer, locked);
        assert(found.contains(last));
        if ordered::holds(locked, last.package_id()) {
            assert(kept.push(last).drop_last() =~= kept);
            assert(kept.push(last).last() == last);
            if let Some(best) = best_candidate(kept, try_to_use, realm, activated, name) {
                assert(found.contains(best));
                lemma_before_order(last, best, last, locked);
                assert(resolution::is_before(last, best, try_to_use) == resolution::is_before(
                    last,
                    best,
                    locked,
                )) by {
                    assert(resolution::is_before(best, last, try_to_use)
                        ==> resolution::is_before(best, last, locked));
                }
            }
        }
    }
}

/// The requirement that sources are asked for on account of the first request, if
/// no chosen package meets it.
pub open spec fn asks(state: StateView) -> Seq<PackageReqView> {
    match state.queue[0].kind {
        KindView::Registry(req) => if resolution::best_activated(
            state.resolve.activated,
            req,
        ) is None {
            seq![req]
        } else {
            Seq::empty()
        },
        KindView::Path(_) => Seq::empty(),
    }
}

/// The requirements that sources are asked for, in the order in which they are.
pub open spec fn queries(state: StateView, context: ContextView) -> Seq<PackageReqView>
    decreases
            resolution::fresh(context.sources.answers, state.resolve.activated),
            state.queue.len(),
    when context.sources.answers_fit() && state.resolve.is_sound()
    via queries_decreases
{
    if state.queue.len() == 0 {
        Seq::empty()
    } else {
        match resolution::step(state, context) {
            Ok(next) => asks(state) + queries(next, context),
            Err(_) => asks(state),
        }
    }
}

#[via_fn]
proof fn queries_decreases(state: StateView, context: ContextView) {
    if state.queue.len() > 0 {
        if let Ok(next) = resolution::step(state, context) {
            resolution::lemma_step_progress(state, context);
        }
    }
}

/// Of two chosen packages that were found together for one of the requirements,
/// the one that was to be used rather than the other is also the newer.
pub open spec fn all_settled(
    sources: PackageSourceMapView,
    asked: Seq<PackageReqView>,
    chosen: Seq<PackageIdView>,
    try_to_use: Seq<PackageIdView>,
) -> bool {
    forall|k: int|
        0 <= k < asked.len() ==> (resolution::find_source(
            sources,
            #[trigger] asked[k],
            0,
        ) matches FoundView::At(_, manifests) ==> is_settled(manifests, chosen, try_to_use))
}

/// A requirement is still met by the same locked packages of the same source.
pub open spec fn agrees_on_locked(
    before: FoundView,
    after: FoundView,
    locked: Seq<PackageIdView>,
) -> bool {
    before matches FoundView::At(source, manifests) ==> {
        &&& after matches FoundView::At(other, others)
        &&& other == source
        &&& locked_only(others, locked) == locked_only(manifests, locked)
    }
}

/// To all of the requirements, the sources answer alike as far as locked packages
/// go. Other packages may have been published or withdrawn.
pub open spec fn agree_on_locked(
    before: PackageSourceMapView,
    after: PackageSourceMapView,
    asked: Seq<PackageReqView>,
    locked: Seq<PackageIdView>,
) -> bool {
    forall|k: int|
        0 <= k < asked.len() ==> agrees_on_locked(
            resolution::find_source(before, #[trigger] asked[k], 0),
            resolution::find_source(after, asked[k], 0),
            locked,
        )
}

proof fn lemma_locked_run(
    state: StateView,
    context: ContextView,
    sources: PackageSourceMapView,
    resolve: ResolveView,
)
    requires
        laws::is_state(state, context),
        all_settled(
            context.sources,
            queries(state, context),
            resolve.activated,
            context.try_to_use,
        ),
        resolution::run(state, context) == Ok::<ResolveView, ResolveErrorView>(resolve),
        sources.answers_fit(),
        agree_on_locked(
            context.sources,
            sources,
            queries(state, context),
            resolve.activated,
        ),
    ensures
        ({
            let again = ContextView { try_to_use: resolve.activated, sources, ..context };
            &&& resolution::run(state, again) == Ok::<ResolveView, ResolveErrorView>(resolve)
            &&& resolution::links(state, again) == resolution::links(state, context)
        }),
    decreases
            resolution::fresh(context.sources.answers, state.resolve.activated),
            state.queue.len(),
{
    if state.queue.len() > 0 {
        let again = ContextView { try_to_use: resolve.activated, sources, ..context };
        resolution::lemma_step_progress(state, context);
        resolution::lemma_step_sound(state, context);
        let next = resolution::step(state, context)->Ok_0;
        let request = state.queue[0];
        let asked = queries(state, context);
        let later = queries(next, context);
        assert forall|k: int| 0 <= k < later.len() implies asked.contains(#[trigger] later[k]) by {
            assert(asked[asked.len() - later.len() + k] == later[k]);
        }
        if let KindView::Registry(req) = request.kind {
            if resolution::best_activated(state.resolve.activated, req) is None {
                assert(asked[0] == req);
                lemma_locked_choice(state, context, sources, resolve, req);
            }
        }
        assert(resolution::step(state, again) == resolution::step(state, context));
        assert(resolution::target_of(state, again) == resolution::target_of(state, context));
        lemma_locked_run(next, context, sources, resolve);
    }
}

/// What was resolved stays when it is resolved again with all that was chosen as
/// locked, as long as the sources that were asked still have it. Left out is that
/// an older package was to be used where a newer one, which was chosen too, would
/// have met the requirement: once both are locked, the newer one is preferred.
pub proof fn law_locked_packages_stay(
    state: StateView,
    context: ContextView,
    sources: PackageSourceMapView,
    resolve: ResolveView,
)
    requires
        laws::is_state(state, context),
        all_settled(
            context.sources,
            queries(state, context),
            resolve.activated,
            context.try_to_use,
        ),
        resolution::outcome(state, context) == Ok::<ResolveView, ResolveErrorView>(resolve),
        sources.answers_fit(),
        agree_on_locked(
            context.sources,
            sources,
            queries(state, context),
            resolve.activated,
        ),
    ensures
        resolution::outcome(
            state,
            ContextView { try_to_use: resolve.activated, sources, ..context },
        ) == Ok::<ResolveView, ResolveErrorView>(resolve),
{
    lemma_locked_run(state, context, sources, resolution::run(state, context)->Ok_0);
}

proof fn lemma_locked_choice(
    state: StateView,
    context: ContextView,
    sources: PackageSourceMapView,
    resolve: ResolveView,
    req: PackageReqView,
)
    requires
        laws::is_state(state, context),
        state.queue.len() > 0,
        state.queue[0].kind == KindView::Registry(req),
        resolution::best_activated(state.resolve.activated, req) is None,
        resolution::find_source(context.sources, req, 0) matches FoundView::At(_, manifests)
            ==> is_settled(manifests, resolve.activated, context.try_to_use),
        resolution::run(state, context) == Ok::<ResolveView, ResolveErrorView>(resolve),
        agrees_on_locked(
            resolution::find_source(context.sources, req, 0),
            resolution::find_source(sources, req, 0),
            resolve.activated,
        ),
    ensures
        resolution::step(
            state,
            ContextView { try_to_use: resolve.activated, sources, ..context },
        ) == resolution::step(state, context),
        resolution::target_of(
            state,
            ContextView { try_to_use: resolve.activated, sources, ..context },
        ) == resolution::target_of(state, context),
{
    let locked = resolve.activated;
    let try_to_use = context.try_to_use;
    let realm = state.queue[0].realm;
    let activated = state.resolve.activated;
    let next = resolution::step(state, context)->Ok_0;
    let found = resolution::find_source(context.sources, req, 0)->At_1;
    let others = resolution::find_source(sources, req, 0)->At_1;
    lemma_best_is_first(found, try_to_use, realm, activated, req.name);
    lemma_best_is_first(others, locked, realm, activated, req.name);
    lemma_locked_best(found, locked, try_to_use, realm, activated, req.name);
    resolution::lemma_find_source(context.sources, req, 0);
    lemma_all_locked(found, locked, try_to_use, realm, activated, req.name);
    lemma_best_of_locked(others, locked, realm, activated, req.name);
    let candidate = best_candidate(found, try_to_use, realm, activated, req.name)->Some_0;
    resolution::lemma_step_sound(state, context);
    laws::lemma_run_sound(next, context);
    resolution::lemma_take_in(
        state.resolve,
        state.queue[0],
        candidate,
        resolution::find_source(context.sources, req, 0)->At_0,
    );
    ordered::lemma_with_key(activated, candidate.package_id());
    assert(ordered::holds(next.resolve.activated, candidate.package_id()));
    assert(ordered::holds(locked, candidate.package_id()));
    resolution::lemma_first_eligible(
        resolution::order_candidates(others, locked),
        realm,
        activated,
        req.name,
        0,
    );
}

/// A workspace that was resolved and is resolved again, with all that was chosen
/// as locked, comes out the same, as long as the sources that were asked still
/// have it. Left out is that an older package was to be used where a newer one,
/// which was chosen too, would have met the requirement: once both are locked,
/// the newer one is preferred.
pub proof fn law_locked_workspace_stays(
    workspace: WorkspaceView,
    try_to_use: Seq<PackageIdView>,
    before: PackageSourceMapView,
    after: PackageSourceMapView,
    canonical: CanonicalPathsView,
    resolve: ResolveView,
)
    requires
        workspace.is_sound(),
        before.answers_fit(),
        after.answers_fit(),
        resolution::outcome(
            resolution::workspace_start(workspace.members),
            laws::workspace_context(workspace, try_to_use, before, canonical),
        ) == Ok::<ResolveView, ResolveErrorView>(resolve),
        all_settled(
            before,
            queries(
                resolution::workspace_start(workspace.members),
                laws::workspace_context(workspace, try_to_use, before, canonical),
            ),
            resolve.activated,
            try_to_use,
        ),
        agree_on_locked(
            before,
            after,
            queries(
                resolution::workspace_start(workspace.members),
                laws::workspace_context(workspace, try_to_use, before, canonical),
            ),
            resolve.activated,
        ),
    ensures
        resolution::outcome(
            resolution::workspace_start(workspace.members),
            laws::workspace_context(workspace, resolve.activated, after, canonical),
        ) == Ok::<ResolveView, ResolveErrorView>(resolve),
{
    laws::lemma_workspace_is_state(workspace, try_to_use, before, canonical);
    law_locked_packages_stay(
        resolution::workspace_start(workspace.members),
        laws::workspace_context(workspace, try_to_use, before, canonical),
        after,
        resolve,
    );
}

/// Those of the packages that meet a requirement, in their order.
pub open spec fn meeting(manifests: Seq<ManifestView>, req: PackageReqView) -> Seq<ManifestView>
    decreases manifests.len(),
{
    if manifests.len() == 0 {
        manifests
    } else {
        let before = meeting(manifests.drop_last(), req);
        if req.matches_id(manifests.last().package_id()) {
            before.push(manifests.last())
        } else {
            before
        }
    }
}

/// Once `further` packages are published, the source that answers a requirement
/// also finds those of them that meet it.
pub open spec fn finds_further(
    before: FoundView,
    after: FoundView,
    further: Seq<ManifestView>,
    req: PackageReqView,
) -> bool {
    before matches FoundView::At(source, manifests) ==> after == FoundView::At(
        source,
        manifests + meeting(further, req),
    )
}

/// This holds of all requirements.
pub open spec fn find_further(
    before: PackageSourceMapView,
    after: PackageSourceMapView,
    asked: Seq<PackageReqView>,
    further: Seq<ManifestView>,
) -> bool {
    forall|k: int|
        0 <= k < asked.len() ==> finds_further(
            resolution::find_source(before, #[trigger] asked[k], 0),
            resolution::find_source(after, asked[k], 0),
            further,
            asked[k],
        )
}

proof fn lemma_asks_new(state: StateView, id: PackageIdView)
    requires
        state.queue.len() > 0,
        state.resolve.activated.contains(id),
    ensures
        forall|k: int| 0 <= k < asks(state).len() ==> !(#[trigger] asks(state)[k]).matches_id(id),
{
    let activated = state.resolve.activated;
    let at = choose|at: int| 0 <= at < activated.len() && activated[at] == id;
    if let KindView::Registry(req) = state.queue[0].kind {
        resolution::lemma_best_activated(activated, req);
        assert(resolution::best_activated(activated, req) is None ==> !req.matches_id(
            activated[at],
        ));
    }
}

/// Sources are asked for nothing that the packages chosen from the start meet.
proof fn lemma_queries_new(state: StateView, context: ContextView, id: PackageIdView)
    requires
        laws::is_state(state, context),
        state.resolve.activated.contains(id),
    ensures
        forall|k: int|
            0 <= k < queries(state, context).len() ==> !(#[trigger] queries(
                state,
                context,
            )[k]).matches_id(id),
    decreases
            resolution::fresh(context.sources.answers, state.resolve.activated),
            state.queue.len(),
{
    if state.queue.len() > 0 {
        resolution::lemma_step_progress(state, context);
        resolution::lemma_step_sound(state, context);
        lemma_asks_new(state, id);
        laws::lemma_step_activated(state, context);
        if let Ok(next) = resolution::step(state, context) {
            let activated = state.resolve.activated;
            let at = choose|at: int| 0 <= at < activated.len() && activated[at] == id;
            if next.resolve.activated != activated {
                let added = choose|added: PackageIdView| next.resolve.activated == #[trigger]
                    ordered::with_key(activated, added);
                ordered::lemma_with_key(activated, added);
                assert(next.resolve.activated.contains(activated[at]));
            }
            lemma_queries_new(next, context, id);
            let first = asks(state);
            let asked = queries(state, context);
            let later = queries(next, context);
            assert(asked == first + later);
            assert forall|k: int| 0 <= k < asked.len() implies !(
            #[trigger] asked[k]).matches_id(id) by {
                if k < first.len() {
                    assert(asked[k] == first[k]);
                } else {
                    assert(asked[k] == later[k - first.len()]);
                }
            }
        }
    }
}

proof fn lemma_further_locked(
    manifests: Seq<ManifestView>,
    further: Seq<ManifestView>,
    req: PackageReqView,
    locked: Seq<PackageIdView>,
)
    requires
        forall|n: int|
            0 <= n < further.len() && req.matches_id((#[trigger] further[n]).package_id())
                ==> !ordered::holds(locked, further[n].package_id()),
    ensures
        locked_only(manifests + meeting(further, req), locked) == locked_only(manifests, locked),
    decreases further.len(),
{
    if further.len() == 0 {
        assert(manifests + meeting(further, req) =~= manifests);
    } else {
        let fewer = further.drop_last();
        let last = further.last();
        assert forall|n: int|
            0 <= n < fewer.len() && req.matches_id(
                (#[trigger] fewer[n]).package_id(),
            ) implies !ordered::holds(locked, fewer[n].package_id()) by {
            assert(fewer[n] == further[n]);
        }
        lemma_further_locked(manifests, fewer, req, locked);
        assert(last == further[further.len() - 1]);
        if req.matches_id(last.package_id()) {
            let all = manifests + meeting(further, req);
            assert(all.drop_last() =~= manifests + meeting(fewer, req));
            assert(all.last() == last);
        }
    }
}

/// Further packages that are published upgrade nothing: what was resolved stays
/// when it is resolved again with all that was chosen as locked, whatever versions
/// there are besides by then. Nothing was locked the first time, and none of the
/// further packages was chosen, unless it was from the start.
pub proof fn law_further_versions_upgrade_nothing(
    state: StateView,
    context: ContextView,
    sources: PackageSourceMapView,
    further: Seq<ManifestView>,
    resolve: ResolveView,
)
    requires
        laws::is_state(state, context),
        context.try_to_use == Seq::<PackageIdView>::empty(),
        resolution::outcome(state, context) == Ok::<ResolveView, ResolveErrorView>(resolve),
        sources.answers_fit(),
        find_further(context.sources, sources, queries(state, context), further),
        forall|n: int|
            0 <= n < further.len() && ordered::holds(
                resolve.activated,
                (#[trigger] further[n]).package_id(),
            ) ==> state.resolve.activated.contains(further[n].package_id()),
    ensures
        resolution::outcome(
            state,
            ContextView { try_to_use: resolve.activated, sources, ..context },
        ) == Ok::<ResolveView, ResolveErrorView>(resolve),
{
    let asked = queries(state, context);
    assert forall|k: int| 0 <= k < asked.len() implies agrees_on_locked(
        resolution::find_source(context.sources, #[trigger] asked[k], 0),
        resolution::find_source(sources, asked[k], 0),
        resolve.activated,
    ) by {
        if let FoundView::At(_, manifests) = resolution::find_source(
            context.sources,
            asked[k],
            0,
        ) {
            assert forall|n: int|
                0 <= n < further.len() && asked[k].matches_id(
                    (#[trigger] further[n]).package_id(),
                ) implies !ordered::holds(resolve.activated, further[n].package_id()) by {
                if ordered::holds(resolve.activated, further[n].package_id()) {
                    lemma_queries_new(state, context, further[n].package_id());
                }
            }
            lemma_further_locked(manifests, further, asked[k], resolve.activated);
        }
    }
    law_locked_packages_stay(state, context, sources, resolve);
}

/// A single package that was resolved and is resolved again, with all that was
/// chosen as locked, comes out the same, whatever versions were published
/// besides. The package itself may be among them.
pub proof fn law_further_versions_upgrade_no_package(
    manifest: ManifestView,
    before: PackageSourceMapView,
    after: PackageSourceMapView,
    further: Seq<ManifestView>,
    resolve: ResolveView,
)
    requires
        before.answers_fit(),
        after.answers_fit(),
        resolution::outcome(
            resolution::package_start(manifest),
            resolution::package_context(Seq::empty(), before),
        ) == Ok::<ResolveView, ResolveErrorView>(resolve),
        find_further(
            before,
            after,
            queries(
                resolution::package_start(manifest),
                resolution::package_context(Seq::empty(), before),
            ),
            further,
        ),
        forall|n: int|
            0 <= n < further.len() && ordered::holds(
                resolve.activated,
                (#[trigger] further[n]).package_id(),
            ) ==> further[n].package_id() == manifest.package_id(),
    ensures
        resolution::outcome(
            resolution::package_start(manifest),
            resolution::package_context(resolve.activated, after),
        ) == Ok::<ResolveView, ResolveErrorView>(resolve),
{
    laws::lemma_package_start(manifest, Seq::empty(), before);
    let start = resolution::package_start(manifest);
    assert(start.resolve.activated[0] == manifest.package_id());
    assert(start.resolve.activated.contains(manifest.package_id()));
    law_further_versions_upgrade_nothing(
        resolution::package_start(manifest),
        resolution::package_context(Seq::empty(), before),
        after,
        further,
        resolve,
    );
}

/// A workspace that was resolved and is resolved again, with all that was chosen
/// as locked, comes out the same, whatever versions were published besides.
/// Members may be among them.
pub proof fn law_further_versions_upgrade_no_workspace(
    workspace: WorkspaceView,
    before: PackageSourceMapView,
    after: PackageSourceMapView,
    canonical: CanonicalPathsView,
    further: Seq<ManifestView>,
    resolve: ResolveView,
)
    requires
        workspace.is_sound(),
        before.answers_fit(),
        after.answers_fit(),
        resolution::outcome(
            resolution::workspace_start(workspace.members),
            laws::workspace_context(workspace, Seq::empty(), before, canonical),
        ) == Ok::<ResolveView, ResolveErrorView>(resolve),
        find_further(
            before,
            after,
            queries(
                resolution::workspace_start(workspace.members),
                laws::workspace_context(workspace, Seq::empty(), before, canonical),
            ),
            further,
        ),
        forall|n: int|
            0 <= n < further.len() && ordered::holds(
                resolve.activated,
                (#[trigger] further[n]).package_id(),
            ) ==> resolution::workspace_start(
                workspace.members,
            ).resolve.activated.contains(further[n].package_id()),
    ensures
        resolution::outcome(
            resolution::workspace_start(workspace.members),
            laws::workspace_context(workspace, resolve.activated, after, canonical),
        ) == Ok::<ResolveView, ResolveErrorView>(resolve),
{
    laws::lemma_workspace_is_state(workspace, Seq::empty(), before, canonical);
    law_further_versions_upgrade_nothing(
        resolution::workspace_start(workspace.members),
        laws::workspace_context(workspace, Seq::empty(), before, canonical),
        after,
        further,
        resolve,
    );
}

/// Two locks hold the same packages, but for build metadata.
pub open spec fn hold_the_same(a: Seq<PackageIdView>, b: Seq<PackageIdView>) -> bool {
    forall|id: PackageIdView| #[trigger] ordered::holds(a, id) <==> ordered::holds(b, id)
}

proof fn lemma_same_place(
    candidates: Seq<ManifestView>,
    candidate: ManifestView,
    a: Seq<PackageIdView>,
    b: Seq<PackageIdView>,
    from: int,
)
    requires
        hold_the_same(a, b),
    ensures
        resolution::candidate_place(candidates, candidate, a, from)
            == resolution::candidate_place(candidates, candidate, b, from),
    decreases candidates.len() - from,
{
    if from < candidates.len() {
        assert(ordered::holds(a, candidate.package_id()) == ordered::holds(
            b,
            candidate.package_id(),
        ));
        assert(ordered::holds(a, candidates[from].package_id()) == ordered::holds(
            b,
            candidates[from].package_id(),
        ));
        lemma_same_place(candidates, candidate, a, b, from + 1);
    }
}

proof fn lemma_same_order(
    candidates: Seq<ManifestView>,
    a: Seq<PackageIdView>,
    b: Seq<PackageIdView>,
)
    requires
        hold_the_same(a, b),
    ensures
        resolution::order_candidates(candidates, a) == resolution::order_candidates(candidates, b),
    decreases candidates.len(),
{
    if candidates.len() > 0 {
        let fewer = candidates.drop_last();
        lemma_same_order(fewer, a, b);
        lemma_same_place(
            resolution::order_candidates(fewer, a),
            candidates.last(),
            a,
            b,
            0,
        );
    }
}

proof fn lemma_same_lock(state: StateView, context: ContextView, lock: Seq<PackageIdView>)
    requires
        laws::is_state(state, context),
        hold_the_same(context.try_to_use, lock),
    ensures
        resolution::run(state, ContextView { try_to_use: lock, ..context }) == resolution::run(
            state,
            context,
        ),
        resolution::links(state, ContextView { try_to_use: lock, ..context })
            == resolution::links(state, context),
    decreases
            resolution::fresh(context.sources.answers, state.resolve.activated),
            state.queue.len(),
{
    if state.queue.len() > 0 {
        let other = ContextView { try_to_use: lock, ..context };
        resolution::lemma_step_progress(state, context);
        resolution::lemma_step_sound(state, context);
        if let KindView::Registry(req) = state.queue[0].kind {
            if let FoundView::At(_, manifests) = resolution::find_source(context.sources, req, 0) {
                lemma_same_order(manifests, context.try_to_use, lock);
            }
        }
        assert(resolution::step(state, other) == resolution::step(state, context));
        if let Ok(next) = resolution::step(state, context) {
            assert(resolution::target_of(state, other) == resolution::target_of(state, context));
            lemma_same_lock(next, context, lock);
        }
    }
}

/// What comes out depends on a lock only by the packages that it holds.
pub proof fn law_locks_count_by_what_they_hold(
    state: StateView,
    context: ContextView,
    lock: Seq<PackageIdView>,
)
    requires
        laws::is_state(state, context),
        hold_the_same(context.try_to_use, lock),
    ensures
        resolution::outcome(state, ContextView { try_to_use: lock, ..context })
            == resolution::outcome(state, context),
{
    lemma_same_lock(state, context, lock);
}

// ---------------------------------------------------------------------------
// Single packages and workspaces
// ---------------------------------------------------------------------------

/// What is known of a package, if it were a member of a workspace.
pub open spec fn as_member(metadata: MetadataView, dir: Seq<char>) -> MetadataView {
    MetadataView {
        source_registry: PackageSourceIdView::Path(dir),
        is_workspace_member: true,
        ..metadata
    }
}

/// What is known of packages, if one of them were a member of a workspace.
pub open spec fn metadata_with_member(
    metadata: Seq<(PackageIdView, MetadataView)>,
    id: PackageIdView,
    dir: Seq<char>,
) -> Seq<(PackageIdView, MetadataView)> {
    Seq::new(
        metadata.len(),
        |i: int|
            if package_id::same_id(metadata[i].0, id) {
                (metadata[i].0, as_member(metadata[i].1, dir))
            } else {
                metadata[i]
            },
    )
}

/// A resolved graph, if one of the packages were a member of a workspace.
pub open spec fn with_member(
    resolve: ResolveView,
    id: PackageIdView,
    dir: Seq<char>,
) -> ResolveView {
    ResolveView { metadata: metadata_with_member(resolve.metadata, id, dir), ..resolve }
}

/// All requests are for packages of registries.
pub open spec fn asks_registries(queue: Seq<RequestView>) -> bool {
    forall|i: int| 0 <= i < queue.len() ==> (#[trigger] queue[i]).kind is Registry
}

proof fn lemma_member_lookup(
    metadata: Seq<(PackageIdView, MetadataView)>,
    id: PackageIdView,
    dir: Seq<char>,
    key: PackageIdView,
)
    requires
        ordered::ascending(ordered::keys_of(metadata)),
    ensures
        ordered::keys_of(metadata_with_member(metadata, id, dir)) == ordered::keys_of(metadata),
        ordered::lookup(metadata_with_member(metadata, id, dir), key) == match ordered::lookup(
            metadata,
            key,
        ) {
            Some(known) => Some(
                if package_id::same_id(key, id) {
                    as_member(known, dir)
                } else {
                    known
                },
            ),
            None => None,
        },
{
    let with = metadata_with_member(metadata, id, dir);
    let keys = ordered::keys_of(metadata);
    assert(ordered::keys_of(with) =~= keys);
    ordered::lemma_place_exists(keys, key);
    if ordered::holds(keys, key) {
        let at = ordered::place(keys, key);
        package_id::lemma_id_key_injective(metadata[at].0, key);
    }
}

proof fn lemma_member_entry(
    metadata: Seq<(PackageIdView, MetadataView)>,
    id: PackageIdView,
    dir: Seq<char>,
    key: PackageIdView,
    value: MetadataView,
)
    requires
        ordered::ascending(ordered::keys_of(metadata)),
    ensures
        metadata_with_member(ordered::with_entry(metadata, key, value), id, dir)
            == ordered::with_entry(
            metadata_with_member(metadata, id, dir),
            key,
            if package_id::same_id(key, id) {
                as_member(value, dir)
            } else {
                value
            },
        ),
{
    let with = metadata_with_member(metadata, id, dir);
    let keys = ordered::keys_of(metadata);
    assert(ordered::keys_of(with) =~= keys);
    ordered::lemma_place_exists(keys, key);
    let at = ordered::place(keys, key);
    if ordered::holds(keys, key) {
        package_id::lemma_id_key_injective(metadata[at].0, key);
    }
    let put = if package_id::same_id(key, id) {
        as_member(value, dir)
    } else {
        value
    };
    assert(metadata_with_member(ordered::with_entry(metadata, key, value), id, dir)
        =~= ordered::with_entry(with, key, put));
}

proof fn lemma_member_step(
    state: StateView,
    context: ContextView,
    members: MembersView,
    canonical: CanonicalPathsView,
    id: PackageIdView,
    dir: Seq<char>,
)
    requires
        state.queue.len() > 0,
        laws::is_state(state, context),
        asks_registries(state.queue),
        ordered::holds(state.resolve.activated, id),
    ensures
        resolution::step(
            StateView { resolve: with_member(state.resolve, id, dir), ..state },
            ContextView { members, canonical, ..context },
        ) == match resolution::step(state, context) {
            Ok(next) => Ok(StateView { resolve: with_member(next.resolve, id, dir), ..next }),
            Err(error) => Err(error),
        },
        resolution::target_of(
            StateView { resolve: with_member(state.resolve, id, dir), ..state },
            ContextView { members, canonical, ..context },
        ) == resolution::target_of(state, context),
        resolution::step(state, context) matches Ok(next) ==> asks_registries(next.queue),
{
    let request = state.queue[0];
    let queue = state.queue.drop_first();
    assert(request.kind is Registry);
    let req = request.kind->Registry_0;
    laws::lemma_step_shape(state, context);
    resolution::lemma_best_activated(state.resolve.activated, req);
    assert forall|i: int| 0 <= i < queue.len() implies (#[trigger] queue[i]).kind is Registry by {
        assert(queue[i] == state.queue[i + 1]);
    }
    match resolution::best_activated(state.resolve.activated, req) {
        Some(chosen) => {
            let metadata = laws::known(state.resolve, chosen);
            let origin_realm = resolution::merged_realm(
                metadata.origin_realm,
                request.origin_realm,
            );
            lemma_member_lookup(state.resolve.metadata, id, dir, chosen);
            lemma_member_entry(
                state.resolve.metadata,
                id,
                dir,
                chosen,
                MetadataView { origin_realm, ..metadata },
            );
        },
        None => {
            if let Ok(next) = resolution::step(state, context) {
                let candidate = laws::lemma_taken(state, context, req);
                let metadata = MetadataView {
                    realm: candidate.package.realm,
                    origin_realm: request.origin_realm,
                    source_registry: resolution::find_source(context.sources, req, 0)->At_0,
                    is_workspace_member: false,
                };
                if package_id::same_id(candidate.package_id(), id) {
                    package_id::lemma_id_key_injective(candidate.package_id(), id);
                    let k = choose|k: int|
                        0 <= k < state.resolve.activated.len() && (
                        #[trigger] state.resolve.activated[k]).sort_key() == id.sort_key();
                    assert(state.resolve.activated[k].sort_key()
                        == candidate.package_id().sort_key());
                }
                lemma_member_entry(
                    state.resolve.metadata,
                    id,
                    dir,
                    candidate.package_id(),
                    metadata,
                );
                let made = resolution::transitive_requests(candidate, request.origin_realm);
                let n = candidate.dependencies.len() as int;
                assert forall|i: int| 0 <= i < next.queue.len() implies (
                #[trigger] next.queue[i]).kind is Registry by {
                    if i < queue.len() {
                        assert(next.queue[i] == queue[i]);
                    } else {
                        let k = i - queue.len();
                        assert(next.queue[i] == made[k]);
                        if k < n {
                            assert(candidate.dependencies[k].1 is Registry);
                        } else {
                            assert(candidate.server_dependencies[k - n].1 is Registry);
                        }
                    }
                }
            }
        },
    }
}

proof fn lemma_member_run(
    state: StateView,
    context: ContextView,
    members: MembersView,
    canonical: CanonicalPathsView,
    id: PackageIdView,
    dir: Seq<char>,
)
    requires
        laws::is_state(state, context),
        asks_registries(state.queue),
        ordered::holds(state.resolve.activated, id),
    ensures
        resolution::run(
            StateView { resolve: with_member(state.resolve, id, dir), ..state },
            ContextView { members, canonical, ..context },
        ) == match resolution::run(state, context) {
            Ok(resolve) => Ok(with_member(resolve, id, dir)),
            Err(error) => Err(error),
        },
        resolution::links(
            StateView { resolve: with_member(state.resolve, id, dir), ..state },
            ContextView { members, canonical, ..context },
        ) == resolution::links(state, context),
    decreases
            resolution::fresh(context.sources.answers, state.resolve.activated),
            state.queue.len(),
{
    let other = StateView { resolve: with_member(state.resolve, id, dir), ..state };
    let wider = ContextView { members, canonical, ..context };
    assert(ordered::keys_of(other.resolve.metadata) =~= ordered::keys_of(state.resolve.metadata));
    assert(other.resolve.is_sound());
    assert(wider.sources.answers_fit());
    if state.queue.len() > 0 {
        resolution::lemma_step_progress(state, context);
        resolution::lemma_step_sound(state, context);
        lemma_member_step(state, context, members, canonical, id, dir);
        if let Ok(next) = resolution::step(state, context) {
            lemma_member_run(next, context, members, canonical, id, dir);
            let after = StateView { resolve: with_member(next.resolve, id, dir), ..next };
            assert(ordered::keys_of(after.resolve.metadata) =~= ordered::keys_of(
                next.resolve.metadata,
            ));
            assert(after.resolve.is_sound());
            assert(resolution::step(other, wider) == Ok::<StateView, ResolveErrorView>(after));
            assert(other.queue.len() > 0);
            assert(resolution::run(other, wider) == resolution::run(after, wider));
            let link = LinkView {
                request: state.queue[0],
                target: resolution::target_of(state, context),
            };
            assert(resolution::links(other, wider) == seq![link] + resolution::links(
                after,
                wider,
            ));
            assert(resolution::links(state, context) == seq![link] + resolution::links(
                next,
                context,
            ));
        }
    }
}

proof fn lemma_member_raised(
    known: KnownView,
    roots: Seq<PackageIdView>,
    links: Seq<LinkView>,
    id: PackageIdView,
    dir: Seq<char>,
)
    requires
        ordered::ascending(ordered::keys_of(known)),
    ensures
        origins::all_raised(metadata_with_member(known, id, dir), roots, links)
            == metadata_with_member(origins::all_raised(known, roots, links), id, dir),
    decreases links.len(),
{
    if links.len() > 0 {
        let fewer = links.drop_last();
        let link = links.last();
        let before = origins::all_raised(known, roots, fewer);
        lemma_member_raised(known, roots, fewer, id, dir);
        origins::lemma_all_raised(known, roots, fewer);
        lemma_member_lookup(before, id, dir, link.request.source);
        lemma_member_lookup(before, id, dir, link.target);
        if let Some(source) = ordered::lookup(before, link.request.source) {
            if let Some(target) = ordered::lookup(before, link.target) {
                let asked = resolution::passed_on(source.origin_realm, link.request.realm);
                let origin_realm = resolution::merged_realm(target.origin_realm, asked);
                lemma_member_entry(
                    before,
                    id,
                    dir,
                    link.target,
                    MetadataView { origin_realm, ..target },
                );
            }
        }
    }
}

proof fn lemma_member_same(a: KnownView, b: KnownView, id: PackageIdView, dir: Seq<char>)
    requires
        origins::all_known(a, b),
        metadata_with_member(a, id, dir) == metadata_with_member(b, id, dir),
    ensures
        a == b,
{
    let x = metadata_with_member(a, id, dir);
    assert(ordered::keys_of(a).len() == ordered::keys_of(b).len());
    assert forall|i: int| 0 <= i < a.len() implies a[i] == b[i] by {
        assert(laws::is_kept(a[i].1, b[i].1));
        assert(ordered::keys_of(a)[i] == ordered::keys_of(b)[i]);
        assert(x[i] == metadata_with_member(b, id, dir)[i]);
    }
    assert(a =~= b);
}

proof fn lemma_member_spread(
    known: KnownView,
    roots: Seq<PackageIdView>,
    links: Seq<LinkView>,
    id: PackageIdView,
    dir: Seq<char>,
)
    requires
        ordered::ascending(ordered::keys_of(known)),
    ensures
        origins::spread(metadata_with_member(known, id, dir), roots, links)
            == metadata_with_member(origins::spread(known, roots, links), id, dir),
    decreases origins::weights(known),
{
    let next = origins::all_raised(known, roots, links);
    let other = metadata_with_member(known, id, dir);
    assert(ordered::keys_of(other) =~= ordered::keys_of(known));
    lemma_member_raised(known, roots, links, id, dir);
    origins::lemma_all_raised(known, roots, links);
    if next != known {
        lemma_member_spread(next, roots, links, id, dir);
        if metadata_with_member(next, id, dir) == other {
            lemma_member_same(known, next, id, dir);
        }
        assert(ordered::keys_of(metadata_with_member(next, id, dir)) =~= ordered::keys_of(next));
    }
}

/// A single package and a workspace with this package as its only member come
/// to the same, but that the member comes from its directory.
pub proof fn law_single_package_is_a_workspace(
    manifest: ManifestView,
    dir: PathModel,
    try_to_use: Seq<PackageIdView>,
    sources: PackageSourceMapView,
    canonical: CanonicalPathsView,
)
    requires
        sources.answers_fit(),
        package_source::only_registry(manifest.dependencies),
        package_source::only_registry(manifest.server_dependencies),
        package_source::only_registry(manifest.dev_dependencies),
    ensures
        resolution::outcome(
            resolution::workspace_start(seq![(dir, manifest)]),
            ContextView { try_to_use, sources, members: seq![(dir, manifest)], canonical },
        ) == match resolution::outcome(
            resolution::package_start(manifest),
            resolution::package_context(try_to_use, sources),
        ) {
            Ok(resolve) => Ok(with_member(resolve, manifest.package_id(), dir.text)),
            Err(error) => Err(error),
        },
{
    let members = seq![(dir, manifest)];
    let id = manifest.package_id();
    let start = resolution::package_start(manifest);
    let context = resolution::package_context(try_to_use, sources);
    laws::lemma_package_start(manifest, try_to_use, sources);
    assert(start.resolve.activated[0] == id);
    let shared = manifest.dependencies;
    let server = manifest.server_dependencies;
    let dev = manifest.dev_dependencies;
    let n = shared.len() as int;
    let m = n + server.len();
    let requests = resolution::root_requests(manifest, dir.text);
    assert forall|i: int| 0 <= i < start.queue.len() implies (
    #[trigger] start.queue[i]).kind is Registry && requests[i] == start.queue[i] by {
        if i < n {
            assert(shared[i].1 is Registry);
        } else if i < m {
            assert(server[i - n].1 is Registry);
        } else {
            assert(dev[i - m].1 is Registry);
        }
    }
    assert(requests =~= start.queue);
    lemma_member_run(start, context, members, canonical, id, dir.text);
    // The start of the workspace is that of the package, as a member.
    let before = resolution::workspace_start(members.drop_last());
    assert(members.drop_last() =~= Seq::<(PathModel, ManifestView)>::empty());
    assert(before.queue + requests =~= requests);
    let metadata = resolution::root_metadata(
        manifest,
        PackageSourceIdView::Path(dir.text),
        true,
    );
    ordered::lemma_with_entry_last(
        Seq::<(PackageIdView, MetadataView)>::empty(),
        id,
        metadata,
    );
    let first = resolution::workspace_start(members);
    assert(first.resolve.metadata =~= seq![(id, metadata)]);
    assert(with_member(start.resolve, id, dir.text).metadata =~= seq![(id, metadata)]);
    assert(first.resolve == with_member(start.resolve, id, dir.text));
    assert(first == (StateView { resolve: with_member(start.resolve, id, dir.text), ..start }));
    laws::lemma_run_sound(start, context);
    if let Ok(resolve) = resolution::run(start, context) {
        lemma_member_spread(
            resolve.metadata,
            start.resolve.activated,
            resolution::links(start, context),
            id,
            dir.text,
        );
    }
}

// ---------------------------------------------------------------------------
// Endings
// ---------------------------------------------------------------------------

/// Where resolution comes to an end, no request is left, or the first that is
/// left is refused for the reason that is given. What was met before stays met:
/// the graph is that before the request.
pub proof fn law_resolution_ends_where_it_is_refused(state: StateView, context: ContextView)
    requires
        laws::is_state(state, context),
    ensures
        ({
            let end = resolution::ending(state, context);
            match resolution::outcome(state, context) {
                Ok(_) => end.queue.len() == 0 && resolution::run(state, context) == Ok::<
                    ResolveView,
                    ResolveErrorView,
                >(end.resolve),
                Err(error) => end.queue.len() > 0 && resolution::step(end, context) == Err::<
                    StateView,
                    ResolveErrorView,
                >(error),
            }
        }),
        state.queue.len() == 1 && resolution::step(state, context) is Err
            ==> resolution::ending(state, context).resolve == state.resolve,
    decreases
            resolution::fresh(context.sources.answers, state.resolve.activated),
            state.queue.len(),
{
    if state.queue.len() > 0 {
        resolution::lemma_step_progress(state, context);
        resolution::lemma_step_sound(state, context);
        if let Ok(next) = resolution::step(state, context) {
            law_resolution_ends_where_it_is_refused(next, context);
        }
    }
}

// ---------------------------------------------------------------------------
// Refusals
// ---------------------------------------------------------------------------

pub(crate) proof fn lemma_of_realm(candidates: Seq<ManifestView>, realm: Realm)
    ensures
        resolution::of_realm(candidates, realm).len() == 0 <==> forall|i: int|
            0 <= i < candidates.len() ==> !realm.allows((#[trigger] candidates[i]).package.realm),
    decreases candidates.len(),
{
    if candidates.len() > 0 {
        let fewer = candidates.drop_last();
        lemma_of_realm(fewer, realm);
        assert forall|i: int| 0 <= i < fewer.len() implies fewer[i] == #[trigger] candidates[i] by {
        }
        let last = candidates[candidates.len() - 1];
        if resolution::of_realm(candidates, realm).len() == 0 {
            assert forall|i: int| 0 <= i < candidates.len() implies !realm.allows(
                (#[trigger] candidates[i]).package.realm,
            ) by {
                if i < fewer.len() {
                    assert(fewer[i] == candidates[i]);
                } else {
                    assert(candidates[i] == last);
                }
            }
        } else if forall|i: int|
            0 <= i < candidates.len() ==> !realm.allows((#[trigger] candidates[i]).package.realm) {
            assert(!realm.allows(last.package.realm));
            assert forall|i: int| 0 <= i < fewer.len() implies !realm.allows(
                (#[trigger] fewer[i]).package.realm,
            ) by {
                assert(!realm.allows(candidates[i].package.realm));
            }
        }
    }
}

/// A request for a package is refused only for a reason: that no package of a
/// realm that fits was found, that each that was conflicts with a chosen one, or
/// that the one to choose depends on packages outside of registries.
pub proof fn law_refusals_have_a_reason(
    resolve: ResolveView,
    queue: Seq<RequestView>,
    request: RequestView,
    req: PackageReqView,
    source: PackageSourceIdView,
    candidates: Seq<ManifestView>,
)
    ensures
        match resolution::choose_candidate(resolve, queue, request, req, source, candidates) {
            Ok(_) => true,
            Err(ResolveErrorView::NoMatch { .. }) => forall|i: int|
                0 <= i < candidates.len() ==> !request.realm.allows(
                    (#[trigger] candidates[i]).package.realm,
                ),
            Err(ResolveErrorView::Conflict { .. }) => {
                &&& exists|i: int|
                    0 <= i < candidates.len() && request.realm.allows(
                        (#[trigger] candidates[i]).package.realm,
                    )
                &&& forall|i: int|
                    0 <= i < candidates.len() && request.realm.allows(
                        (#[trigger] candidates[i]).package.realm,
                    ) ==> resolution::has_conflict(
                        resolve.activated,
                        req.name,
                        candidates[i].package.version,
                    )
            },
            Err(ResolveErrorView::NotPublished(id)) => exists|i: int|
                {
                    &&& 0 <= i < candidates.len()
                    &&& resolution::is_eligible(
                        #[trigger] candidates[i],
                        request.realm,
                        resolve.activated,
                        req.name,
                    )
                    &&& candidates[i].package_id() == id
                    &&& !package_source::is_published(candidates[i])
                },
            Err(_) => false,
        },
{
    resolution::lemma_first_eligible(candidates, request.realm, resolve.activated, req.name, 0);
    lemma_of_realm(candidates, request.realm);
}

} // verus!
