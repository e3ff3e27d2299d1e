//! Where packages originate from, once all of them are chosen.
//!
//! A package that is asked for from a less restrictive realm than before moves
//! there, and what it depends on moves with it.

use vstd::prelude::*;

use crate::manifest::Realm;
use crate::ordered;
use crate::ordered::OrdSet;
use crate::package_id::{PackageId, PackageIdView};
use crate::plain::Plain;
use crate::resolution;
use crate::resolution::laws;
use crate::resolution::{
    Link, LinkView, MetadataView, Resolve, ResolvePackageMetadata, ResolveView,
};

verus! {

/// What is known of packages.
pub type KnownView = Seq<(PackageIdView, MetadataView)>;

/// What is known of packages once one of them has moved to where another, that
/// depends on it, asks for it from. The roots ask for their dependencies from
/// the realms of their sections, wherever they originate from themselves.
pub open spec fn raised(known: KnownView, roots: Seq<PackageIdView>, link: LinkView) -> KnownView {
    let source = ordered::lookup(known, link.request.source);
    let target = ordered::lookup(known, link.target);
    if source is Some && target is Some && !ordered::holds(roots, link.request.source) {
        let asked = resolution::passed_on(source->Some_0.origin_realm, link.request.realm);
        let origin_realm = resolution::merged_realm(target->Some_0.origin_realm, asked);
        ordered::with_entry(
            known,
            link.target,
            MetadataView { origin_realm, ..target->Some_0 },
        )
    } else {
        known
    }
}

/// All packages have moved to where those that depend on them ask for them from,
/// one after the other.
pub open spec fn all_raised(
    known: KnownView,
    roots: Seq<PackageIdView>,
    links: Seq<LinkView>,
) -> KnownView
    decreases links.len(),
{
    if links.len() == 0 {
        known
    } else {
        raised(all_raised(known, roots, links.drop_last()), roots, links.last())
    }
}

/// How restrictive a realm is.
pub open spec fn weight(realm: Realm) -> nat {
    match realm {
        Realm::Shared => 0,
        Realm::Server => 1,
        Realm::Dev => 2,
    }
}

/// How restrictive the origins of packages are, all in all.
pub open spec fn weights(known: KnownView) -> nat
    decreases known.len(),
{
    if known.len() == 0 {
        0
    } else {
        weights(known.drop_last()) + weight(known.last().1.origin_realm)
    }
}

/// Packages move for as long as one of them is asked for from a less restrictive
/// realm than it originates from.
pub open spec fn spread(
    known: KnownView,
    roots: Seq<PackageIdView>,
    links: Seq<LinkView>,
) -> KnownView
    decreases weights(known),
    when ordered::ascending(ordered::keys_of(known))
    via spread_decreases
{
    let next = all_raised(known, roots, links);
    if next == known {
        known
    } else {
        spread(next, roots, links)
    }
}

#[via_fn]
proof fn spread_decreases(known: KnownView, roots: Seq<PackageIdView>, links: Seq<LinkView>) {
    lemma_all_raised(known, roots, links);
}

/// All that was known still holds, and nothing else is known.
pub open spec fn all_known(before: KnownView, after: KnownView) -> bool {
    &&& ordered::keys_of(after) == ordered::keys_of(before)
    &&& forall|i: int|
        0 <= i < before.len() ==> laws::is_kept(before[i].1, (#[trigger] after[i]).1)
}

proof fn lemma_weights_update(known: KnownView, at: int, put: MetadataView)
    requires
        0 <= at < known.len(),
    ensures
        weights(known.update(at, (known[at].0, put))) == weights(known) - weight(
            known[at].1.origin_realm,
        ) + weight(put.origin_realm),
    decreases known.len(),
{
    let after = known.update(at, (known[at].0, put));
    let fewer = known.drop_last();
    if at < fewer.len() {
        lemma_weights_update(fewer, at, put);
        assert(after.drop_last() =~= fewer.update(at, (fewer[at].0, put)));
        assert(after.last() == known.last());
    } else {
        assert(after.drop_last() =~= fewer);
    }
}

/// A move keeps what is known but for one origin, and makes origins less
/// restrictive unless it changes nothing.
pub(crate) proof fn lemma_raised(known: KnownView, roots: Seq<PackageIdView>, link: LinkView)
    requires
        ordered::ascending(ordered::keys_of(known)),
    ensures
        all_known(known, raised(known, roots, link)),
        weights(raised(known, roots, link)) <= weights(known),
        weights(raised(known, roots, link)) == weights(known) ==> raised(known, roots, link)
            == known,
{
    let after = raised(known, roots, link);
    let keys = ordered::keys_of(known);
    ordered::lemma_place_exists(keys, link.target);
    let at = ordered::place(keys, link.target);
    if after != known {
        let target = known[at].1;
        let put = after[at].1;
        assert(ordered::holds(keys, link.target));
        assert(after =~= known.update(at, (known[at].0, put)));
        lemma_weights_update(known, at, put);
        if put.origin_realm == target.origin_realm {
            assert(after =~= known);
        }
    }
    assert(ordered::keys_of(after) =~= keys);
}

/// What is known that all the more holds.
pub(crate) proof fn lemma_known_transitive(a: KnownView, b: KnownView, c: KnownView)
    requires
        all_known(a, b),
        all_known(b, c),
    ensures
        all_known(a, c),
{
    assert(ordered::keys_of(a).len() == ordered::keys_of(b).len());
    assert forall|i: int| 0 <= i < a.len() implies laws::is_kept(a[i].1, (#[trigger] c[i]).1) by {
        assert(laws::is_kept(a[i].1, b[i].1));
        assert(laws::is_kept(b[i].1, c[i].1));
    }
}

pub(crate) proof fn lemma_all_raised(
    known: KnownView,
    roots: Seq<PackageIdView>,
    links: Seq<LinkView>,
)
    requires
        ordered::ascending(ordered::keys_of(known)),
    ensures
        all_known(known, all_raised(known, roots, links)),
        weights(all_raised(known, roots, links)) <= weights(known),
        weights(all_raised(known, roots, links)) == weights(known) ==> all_raised(
            known,
            roots,
            links,
        ) == known,
        all_raised(known, roots, links) == known ==> forall|i: int|
            0 <= i < links.len() ==> raised(known, roots, #[trigger] links[i]) == known,
    decreases links.len(),
{
    if links.len() > 0 {
        let fewer = links.drop_last();
        let before = all_raised(known, roots, fewer);
        lemma_all_raised(known, roots, fewer);
        lemma_raised(before, roots, links.last());
        lemma_known_transitive(known, before, all_raised(known, roots, links));
        if all_raised(known, roots, links) == known {
            assert(before == known);
            assert forall|i: int| 0 <= i < links.len() implies raised(
                known,
                roots,
                #[trigger] links[i],
            ) == known by {
                if i < fewer.len() {
                    assert(fewer[i] == links[i]);
                }
            }
        }
    }
}

/// In the end what was known still holds, and no package is asked for from a
/// less restrictive realm than it originates from.
pub(crate) proof fn lemma_spread(
    known: KnownView,
    roots: Seq<PackageIdView>,
    links: Seq<LinkView>,
)
    requires
        ordered::ascending(ordered::keys_of(known)),
    ensures
        all_known(known, spread(known, roots, links)),
        forall|i: int|
            0 <= i < links.len() ==> raised(
                spread(known, roots, links),
                roots,
                #[trigger] links[i],
            ) == spread(known, roots, links),
    decreases weights(known),
{
    let next = all_raised(known, roots, links);
    lemma_all_raised(known, roots, links);
    if next != known {
        lemma_spread(next, roots, links);
        lemma_known_transitive(known, next, spread(known, roots, links));
    }
}

/// Where a move changes nothing, the package originates from where it is asked
/// for from, or from a less restrictive realm.
pub(crate) proof fn lemma_settled(known: KnownView, roots: Seq<PackageIdView>, link: LinkView)
    requires
        ordered::ascending(ordered::keys_of(known)),
        raised(known, roots, link) == known,
        ordered::lookup(known, link.request.source) is Some,
        ordered::lookup(known, link.target) is Some,
        !ordered::holds(roots, link.request.source),
    ensures
        ({
            let source = ordered::lookup(known, link.request.source)->Some_0;
            let target = ordered::lookup(known, link.target)->Some_0;
            resolution::merged_realm(
                target.origin_realm,
                resolution::passed_on(source.origin_realm, link.request.realm),
            ) == target.origin_realm
        }),
{
    let source = ordered::lookup(known, link.request.source)->Some_0;
    let target = ordered::lookup(known, link.target)->Some_0;
    let asked = resolution::passed_on(source.origin_realm, link.request.realm);
    let origin_realm = resolution::merged_realm(target.origin_realm, asked);
    ordered::lemma_lookup_with_entry(
        known,
        link.target,
        MetadataView { origin_realm, ..target },
        link.target,
    );
}

/// Moves a package to where another asks for it from, and says whether it was
/// elsewhere.
fn raise(resolve: &mut Resolve, roots: &OrdSet<PackageId>, link: &Link) -> (moved: bool)
    requires
        ordered::ascending(ordered::keys_of(old(resolve)@.metadata)),
    ensures
        final(resolve)@ == (ResolveView {
            metadata: raised(old(resolve)@.metadata, roots@, link@),
            ..old(resolve)@
        }),
        moved == (raised(old(resolve)@.metadata, roots@, link@) != old(resolve)@.metadata),
{
    let ghost known = resolve@.metadata;
    if roots.contains(&link.request.request_source) {
        return false;
    }
    let source_realm: Realm = match resolve.metadata.get(&link.request.request_source) {
        Some(metadata) => metadata.origin_realm,
        None => {
            return false;
        },
    };
    let mut metadata: ResolvePackageMetadata = match resolve.metadata.get(&link.target) {
        Some(metadata) => metadata.duplicate(),
        None => {
            return false;
        },
    };
    let asked: Realm = resolution::pass_on(source_realm, link.request.request_realm);
    let merged: Realm = resolution::merge_origin_realm(metadata.origin_realm, asked);
    let moved: bool = merged != metadata.origin_realm;
    proof {
        let at = ordered::place(ordered::keys_of(known), link.target@);
        ordered::lemma_place_exists(ordered::keys_of(known), link.target@);
        let put = MetadataView { origin_realm: merged, ..known[at].1 };
        assert(known[at].1 == metadata@);
        if !moved {
            assert(known.update(at, (known[at].0, put)) =~= known);
        } else {
            assert(known.update(at, (known[at].0, put))[at].1 != known[at].1);
        }
    }
    metadata.origin_realm = merged;
    resolve.metadata.insert(link.target.duplicate(), metadata);
    moved
}

/// Moves packages for as long as one of them is asked for from a less
/// restrictive realm than it originates from.
pub(crate) fn spread_origins(resolve: &mut Resolve, roots: &OrdSet<PackageId>, links: &Vec<Link>)
    requires
        ordered::ascending(ordered::keys_of(old(resolve)@.metadata)),
    ensures
        final(resolve)@ == (ResolveView {
            metadata: spread(old(resolve)@.metadata, roots@, links.deep_view()),
            ..old(resolve)@
        }),
{
    let ghost all = links.deep_view();
    let ghost first = resolve@.metadata;
    let mut moved: bool = true;
    while moved
        invariant
            all == links.deep_view(),
            ordered::ascending(ordered::keys_of(resolve@.metadata)),
            resolve@ == (ResolveView { metadata: resolve@.metadata, ..old(resolve)@ }),
            spread(first, roots@, all) == spread(resolve@.metadata, roots@, all),
            first == old(resolve)@.metadata,
            !moved ==> spread(resolve@.metadata, roots@, all) == resolve@.metadata,
        decreases
                weights(resolve@.metadata),
                if moved {
                    1int
                } else {
                    0int
                },
    {
        let ghost before = resolve@.metadata;
        moved = false;
        let mut i: usize = 0;
        assert(all.take(0) =~= Seq::<LinkView>::empty());
        while i < links.len()
            invariant
                i <= links@.len(),
                all == links.deep_view(),
                ordered::ascending(ordered::keys_of(before)),
                ordered::ascending(ordered::keys_of(resolve@.metadata)),
                resolve@ == (ResolveView { metadata: resolve@.metadata, ..old(resolve)@ }),
                resolve@.metadata == all_raised(before, roots@, all.take(i as int)),
                moved == (resolve@.metadata != before),
                moved ==> weights(resolve@.metadata) < weights(before),
            decreases links@.len() - i,
        {
            let ghost so_far = resolve@.metadata;
            proof {
                assert(all.take(i + 1).last() == all[i as int]);
                assert(all[i as int] == links@[i as int]@);
                assert(all.take(i + 1).drop_last() =~= all.take(i as int));
                lemma_raised(so_far, roots@, all[i as int]);
            }
            if raise(resolve, roots, &links[i]) {
                moved = true;
            }
            i += 1;
        }
        assert(all.take(all.len() as int) =~= all);
    }
}

} // verus!
