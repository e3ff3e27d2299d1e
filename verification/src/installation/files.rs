//! What the files of an installation say, and where they stand.

use vstd::prelude::*;

use crate::installation;
use crate::installation::laws;
use crate::installation::{
    ActionView, InstallationView, LinkError, LinkFrom, PackageContainer, PlanView,
};
use crate::manifest::Realm;
use crate::ordered;
use crate::package_id::PackageIdView;
use crate::package_source::PackageSourceIdView;
use crate::path;
use crate::resolution;
use crate::resolution::{EdgesView, GraphView, MetadataView, ResolveView};
use crate::version;

verus! {

// ---------------------------------------------------------------------------
// Links
// ---------------------------------------------------------------------------

/// The directory that a package stands in: that of registry packages or that of
/// members.
pub open spec fn box_of(known: MetadataView) -> Seq<char> {
    if known.is_workspace_member {
        "_Workspace"@
    } else {
        "_Index"@
    }
}

/// The directory of a package in a container.
pub open spec fn folder(id: PackageIdView) -> Seq<char> {
    id.name.scope + "_"@ + id.name.name + "@"@ + version::version_text(id.version)
}

/// How a link goes on behind the container: to the directory of the package and
/// from there to the package itself.
pub open spec fn link_end(id: PackageIdView) -> Seq<char> {
    "[\""@ + folder(id) + "\"][\""@ + id.name.name + "\"])\n"@
}

/// What a link says that stands in the directory of `realm`, or in that of a
/// package there. Within the realm it leads up and to the container of the package.
/// To a package that is installed in another realm it names the place that is
/// declared for that realm. No link leads to a dev package from another realm.
pub open spec fn is_link(
    context: InstallationView,
    from: LinkFrom,
    realm: Realm,
    id: PackageIdView,
    known: MetadataView,
    contents: Seq<char>,
) -> bool {
    if known.origin_realm == realm {
        match from {
            LinkFrom::Root => contents == "return require(script.Parent."@ + box_of(known)
                + link_end(id),
            LinkFrom::Package(container) => if known.is_workspace_member == (container
                == PackageContainer::Workspace) {
                contents == "return require(script.Parent.Parent"@ + link_end(id)
            } else {
                contents == "return require(script.Parent.Parent.Parent."@ + box_of(known)
                    + link_end(id)
            },
        }
    } else {
        match known.origin_realm {
            Realm::Shared => context.shared_path matches Some(place) && contents
                == "return require("@ + place + "."@ + box_of(known) + link_end(id),
            Realm::Server => context.server_path matches Some(place) && contents
                == "return require("@ + place + "."@ + box_of(known) + link_end(id),
            Realm::Dev => false,
        }
    }
}

/// Why there is no link: the place of the realm that the package is installed in is
/// not declared, or it is a dev package.
pub open spec fn is_unlinkable(
    context: InstallationView,
    realm: Realm,
    known: MetadataView,
    error: LinkError,
) -> bool {
    known.origin_realm != realm && match error {
        LinkError::NoSharedPath => known.origin_realm == Realm::Shared && context.shared_path
            is None,
        LinkError::NoServerPath => known.origin_realm == Realm::Server && context.server_path
            is None,
        LinkError::DevDependency => known.origin_realm == Realm::Dev,
    }
}

/// A link to a package says where that package is installed, and there is one
/// unless the place of another realm is not declared.
pub proof fn law_links_say_where_packages_are(
    context: InstallationView,
    from: LinkFrom,
    realm: Realm,
    resolve: ResolveView,
    id: PackageIdView,
    known: MetadataView,
    contents: Seq<char>,
    error: LinkError,
)
    requires
        ordered::lookup(resolve.metadata, id) == Some(known),
    ensures
        installation::link_contents(context, from, realm, resolve, id) == Ok::<
            Seq<char>,
            LinkError,
        >(contents) <==> is_link(context, from, realm, id, known, contents),
        installation::link_contents(context, from, realm, resolve, id) == Err::<
            Seq<char>,
            LinkError,
        >(error) <==> is_unlinkable(context, realm, known, error),
{
    reveal_strlit("return require(");
    reveal_strlit("return require(script.Parent.");
    reveal_strlit("return require(script.Parent.Parent");
    reveal_strlit("return require(script.Parent.Parent.Parent.");
    reveal_strlit("script.Parent.");
    reveal_strlit("script.Parent.Parent");
    reveal_strlit("script.Parent.Parent.Parent.");
    let box_name = box_of(known);
    let end = link_end(id);
    let container = installation::container_of(resolve, id);
    assert(container.dir_text() == box_name);
    assert(installation::file_name(id) == folder(id));
    assert(installation::root_link(id, container) =~= "return require(script.Parent."@ + box_name
        + end);
    assert(installation::link_text("script.Parent.Parent"@, id)
        =~= "return require(script.Parent.Parent"@ + end);
    assert(installation::link_text("script.Parent.Parent.Parent."@ + box_name, id)
        =~= "return require(script.Parent.Parent.Parent."@ + box_name + end);
    if let Some(place) = context.shared_path {
        assert(installation::placed_link(place, id, container) =~= "return require("@ + place
            + "."@ + box_name + end);
    }
    if let Some(place) = context.server_path {
        assert(installation::placed_link(place, id, container) =~= "return require("@ + place
            + "."@ + box_name + end);
    }
}

// ---------------------------------------------------------------------------
// Directories
// ---------------------------------------------------------------------------

/// The directory of a realm's packages.
pub open spec fn realm_folder(context: InstallationView, realm: Realm) -> Seq<char> {
    match realm {
        Realm::Shared => context.shared_dir,
        Realm::Server => context.server_dir,
        Realm::Dev => context.dev_dir,
    }
}

/// The directory of a package: in that of the realm that it originates from, in its
/// container, under its own name.
pub open spec fn package_folder(
    context: InstallationView,
    id: PackageIdView,
    known: MetadataView,
) -> Seq<char> {
    path::join_text(
        path::join_text(realm_folder(context, known.origin_realm), box_of(known)),
        folder(id),
    )
}

/// The dependencies that originate from a realm.
pub open spec fn graph_of(resolve: ResolveView, realm: Realm) -> GraphView {
    match realm {
        Realm::Shared => resolve.shared_dependencies,
        Realm::Server => resolve.server_dependencies,
        Realm::Dev => resolve.dev_dependencies,
    }
}

/// The container that a package stands in.
pub open spec fn container(known: MetadataView) -> PackageContainer {
    if known.is_workspace_member {
        PackageContainer::Workspace
    } else {
        PackageContainer::Index
    }
}

/// The action that puts a package into its directory: a member is linked to its own
/// directory, any other package is downloaded from its source.
pub open spec fn is_entry(
    context: InstallationView,
    id: PackageIdView,
    known: MetadataView,
    action: ActionView,
) -> bool {
    let dir = path::join_text(package_folder(context, id, known), id.name.name);
    if known.is_workspace_member {
        known.source_registry matches PackageSourceIdView::Path(member_dir) && action
            == ActionView::LinkMember { id, dir, member_dir }
    } else {
        action == ActionView::Download { id, source: known.source_registry, dir }
    }
}

/// A file in a directory links to a dependency under its alias.
pub open spec fn has_link(
    actions: Seq<ActionView>,
    context: InstallationView,
    from: LinkFrom,
    realm: Realm,
    dir: Seq<char>,
    alias: Seq<char>,
    target: PackageIdView,
    known: MetadataView,
) -> bool {
    exists|contents: Seq<char>|
        {
            &&& #[trigger] is_link(context, from, realm, target, known, contents)
            &&& actions.contains(
                ActionView::WriteFile { path: path::join_text(dir, alias + ".lua"@), contents },
            )
        }
}

/// Where no link is refused, every root has, in the directory of each realm, links
/// to its dependencies there, and every package that is not the only root has
/// links to all its dependencies beside it. Each link says where the package is
/// that it leads to.
pub proof fn law_dependencies_are_linked(
    context: InstallationView,
    roots: Seq<PackageIdView>,
    resolve: ResolveView,
    i: int,
    realm: Realm,
    edges: EdgesView,
    j: int,
    own: MetadataView,
    known: MetadataView,
)
    requires
        installation::is_installable(roots, resolve),
        installation::plan_of(context, roots, resolve, resolve.activated).error is None,
        0 <= i < resolve.activated.len(),
        ordered::lookup(resolve.metadata, resolve.activated[i]) == Some(own),
        ordered::lookup(graph_of(resolve, realm), resolve.activated[i]) == Some(edges),
        0 <= j < edges.len(),
        ordered::lookup(resolve.metadata, edges[j].1) == Some(known),
    ensures
        ({
            let id = resolve.activated[i];
            let actions = installation::plan_of(
                context,
                roots,
                resolve,
                resolve.activated,
            ).actions;
            &&& ordered::holds(roots, id) ==> has_link(
                actions,
                context,
                LinkFrom::Root,
                realm,
                realm_folder(context, realm),
                edges[j].0,
                edges[j].1,
                known,
            )
            &&& !(ordered::holds(roots, id) && roots.len() == 1) ==> has_link(
                actions,
                context,
                LinkFrom::Package(container(own)),
                own.origin_realm,
                package_folder(context, id, own),
                edges[j].0,
                edges[j].1,
                known,
            )
        }),
{
    let id = resolve.activated[i];
    let (alias, target) = edges[j];
    let actions = installation::plan_of(context, roots, resolve, resolve.activated).actions;
    let found = resolution::edges_of(resolve.graph(realm), id);
    assert(found == edges);
    lemma_folder(context, resolve, id, own);
    if ordered::holds(roots, id) {
        laws::law_roots_get_top_level_links(context, roots, resolve, i, realm, j);
        let contents = installation::link_contents(
            context,
            LinkFrom::Root,
            realm,
            resolve,
            target,
        );
        lemma_plan_links(context, roots, resolve, i, realm, j);
        law_links_say_where_packages_are(
            context,
            LinkFrom::Root,
            realm,
            resolve,
            target,
            known,
            contents->Ok_0,
            LinkError::DevDependency,
        );
        assert(is_link(context, LinkFrom::Root, realm, target, known, contents->Ok_0));
    }
    if !(ordered::holds(roots, id) && roots.len() == 1) {
        let from = LinkFrom::Package(container(own));
        laws::law_packages_get_entries_and_links(context, roots, resolve, i, realm, j);
        lemma_plan_links(context, roots, resolve, i, realm, j);
        let contents = installation::link_contents(
            context,
            from,
            own.origin_realm,
            resolve,
            target,
        );
        law_links_say_where_packages_are(
            context,
            from,
            own.origin_realm,
            resolve,
            target,
            known,
            contents->Ok_0,
            LinkError::DevDependency,
        );
        assert(is_link(context, from, own.origin_realm, target, known, contents->Ok_0));
    }
}

proof fn lemma_folder(
    context: InstallationView,
    resolve: ResolveView,
    id: PackageIdView,
    own: MetadataView,
)
    requires
        ordered::lookup(resolve.metadata, id) == Some(own),
    ensures
        installation::container_of(resolve, id) == container(own),
        context.package_dir(own.origin_realm, container(own), id) == package_folder(
            context,
            id,
            own,
        ),
        own.is_workspace_member ==> own.source_registry is Path ==> is_entry(
            context,
            id,
            own,
            installation::entry(context, resolve, id),
        ),
        !own.is_workspace_member ==> is_entry(
            context,
            id,
            own,
            installation::entry(context, resolve, id),
        ),
{
}

/// Where no link of a row is refused, none is.
proof fn lemma_links_ok(
    context: InstallationView,
    from: LinkFrom,
    realm: Realm,
    base: Seq<char>,
    edges: EdgesView,
    resolve: ResolveView,
    j: int,
)
    requires
        installation::links(context, from, realm, base, edges, resolve).error is None,
        0 <= j < edges.len(),
    ensures
        installation::link_contents(context, from, realm, resolve, edges[j].1) is Ok,
    decreases edges.len(),
{
    let fewer = edges.drop_last();
    if j < fewer.len() {
        assert(fewer[j] == edges[j]);
        lemma_links_ok(context, from, realm, base, fewer, resolve, j);
    }
}

proof fn lemma_all_links_ok(
    context: InstallationView,
    from: LinkFrom,
    shared: (Realm, Seq<char>),
    server: (Realm, Seq<char>),
    dev: (Realm, Seq<char>),
    resolve: ResolveView,
    id: PackageIdView,
    realm: Realm,
    j: int,
)
    requires
        installation::all_links(context, from, shared, server, dev, resolve, id).error is None,
        0 <= j < resolution::edges_of(resolve.graph(realm), id).len(),
    ensures
        ({
            let place = match realm {
                Realm::Shared => shared,
                Realm::Server => server,
                Realm::Dev => dev,
            };
            installation::link_contents(
                context,
                from,
                place.0,
                resolve,
                resolution::edges_of(resolve.graph(realm), id)[j].1,
            ) is Ok
        }),
{
    let edges = resolution::edges_of(resolve.graph(realm), id);
    let place = match realm {
        Realm::Shared => shared,
        Realm::Server => server,
        Realm::Dev => dev,
    };
    lemma_links_ok(context, from, place.0, place.1, edges, resolve, j);
}

proof fn lemma_plan_links(
    context: InstallationView,
    roots: Seq<PackageIdView>,
    resolve: ResolveView,
    i: int,
    realm: Realm,
    j: int,
)
    requires
        installation::plan_of(context, roots, resolve, resolve.activated).error is None,
        0 <= i < resolve.activated.len(),
        0 <= j < resolution::edges_of(resolve.graph(realm), resolve.activated[i]).len(),
    ensures
        ({
            let id = resolve.activated[i];
            let target = resolution::edges_of(resolve.graph(realm), id)[j].1;
            let own_realm = ordered::lookup(resolve.metadata, id)->Some_0.origin_realm;
            let container = installation::container_of(resolve, id);
            &&& ordered::holds(roots, id) ==> installation::link_contents(
                context,
                LinkFrom::Root,
                realm,
                resolve,
                target,
            ) is Ok
            &&& !installation::is_sole_root(roots, id) ==> installation::link_contents(
                context,
                LinkFrom::Package(container),
                own_realm,
                resolve,
                target,
            ) is Ok
        }),
{
    let id = resolve.activated[i];
    let own_realm = ordered::lookup(resolve.metadata, id)->Some_0.origin_realm;
    let container = installation::container_of(resolve, id);
    let base = context.package_dir(own_realm, container, id);
    laws::lemma_plan_contains(
        context,
        roots,
        resolve,
        resolve.activated,
        i,
        ActionView::CreateDir(Seq::empty()),
    );
    if ordered::holds(roots, id) {
        lemma_all_links_ok(
            context,
            LinkFrom::Root,
            (Realm::Shared, context.shared_dir),
            (Realm::Server, context.server_dir),
            (Realm::Dev, context.dev_dir),
            resolve,
            id,
            realm,
            j,
        );
    }
    if !installation::is_sole_root(roots, id) {
        lemma_all_links_ok(
            context,
            LinkFrom::Package(container),
            (own_realm, base),
            (own_realm, base),
            (own_realm, base),
            resolve,
            id,
            realm,
            j,
        );
    }
}

/// Where no link is refused, every chosen package but the only root is put into the
/// directory of the realm that it originates from: a member is linked there, any
/// other package is downloaded there from its source.
pub proof fn law_packages_are_put_into_their_realm(
    context: InstallationView,
    roots: Seq<PackageIdView>,
    resolve: ResolveView,
    i: int,
    own: MetadataView,
) -> (k: int)
    requires
        installation::is_installable(roots, resolve),
        installation::plan_of(context, roots, resolve, resolve.activated).error is None,
        0 <= i < resolve.activated.len(),
        !(ordered::holds(roots, resolve.activated[i]) && roots.len() == 1),
        ordered::lookup(resolve.metadata, resolve.activated[i]) == Some(own),
    ensures
        ({
            let actions = installation::plan_of(
                context,
                roots,
                resolve,
                resolve.activated,
            ).actions;
            &&& 0 <= k < actions.len()
            &&& is_entry(context, resolve.activated[i], own, actions[k])
        }),
{
    let id = resolve.activated[i];
    let actions = installation::plan_of(context, roots, resolve, resolve.activated).actions;
    assert(installation::is_ready(roots, resolve, resolve.activated[i]));
    laws::law_packages_get_entries_and_links(context, roots, resolve, i, Realm::Shared, -1);
    lemma_folder(context, resolve, id, own);
    let entry = installation::entry(context, resolve, id);
    choose|k: int| 0 <= k < actions.len() && actions[k] == entry
}

// ---------------------------------------------------------------------------
// Nothing else
// ---------------------------------------------------------------------------

/// An action writes the link to one of the dependencies.
pub open spec fn is_link_file(
    context: InstallationView,
    resolve: ResolveView,
    from: LinkFrom,
    realm: Realm,
    dir: Seq<char>,
    edges: EdgesView,
    action: ActionView,
) -> bool {
    exists|j: int, contents: Seq<char>|
        {
            &&& 0 <= j < edges.len()
            &&& #[trigger] is_link(
                context,
                from,
                realm,
                edges[j].1,
                ordered::lookup(resolve.metadata, edges[j].1)->Some_0,
                contents,
            )
            &&& action == ActionView::WriteFile {
                path: path::join_text(dir, edges[j].0 + ".lua"@),
                contents,
            }
        }
}

/// An action creates a directory for links or writes one of them there.
pub open spec fn is_file_action(
    context: InstallationView,
    resolve: ResolveView,
    from: LinkFrom,
    realm: Realm,
    dir: Seq<char>,
    graph: GraphView,
    id: PackageIdView,
    action: ActionView,
) -> bool {
    ordered::lookup(graph, id) matches Some(edges) && (action == ActionView::CreateDir(dir)
        || is_link_file(context, resolve, from, realm, dir, edges, action))
}

/// An action is one of those for the links to the dependencies of a package, of
/// each section from a realm and in a directory.
pub open spec fn is_file_of(
    context: InstallationView,
    resolve: ResolveView,
    from: LinkFrom,
    shared: (Realm, Seq<char>),
    server: (Realm, Seq<char>),
    dev: (Realm, Seq<char>),
    id: PackageIdView,
    action: ActionView,
) -> bool {
    ||| is_file_action(
        context,
        resolve,
        from,
        shared.0,
        shared.1,
        resolve.shared_dependencies,
        id,
        action,
    )
    ||| is_file_action(
        context,
        resolve,
        from,
        server.0,
        server.1,
        resolve.server_dependencies,
        id,
        action,
    )
    ||| is_file_action(
        context,
        resolve,
        from,
        dev.0,
        dev.1,
        resolve.dev_dependencies,
        id,
        action,
    )
}

/// An action is one of those for a package: the links of a root stand in the
/// directories of the realms, those of a package that is not the only root beside
/// it.
pub open spec fn is_planned(
    context: InstallationView,
    roots: Seq<PackageIdView>,
    resolve: ResolveView,
    id: PackageIdView,
    action: ActionView,
) -> bool {
    let own = ordered::lookup(resolve.metadata, id)->Some_0;
    let beside = (own.origin_realm, package_folder(context, id, own));
    ||| ordered::holds(roots, id) && is_file_of(
        context,
        resolve,
        LinkFrom::Root,
        (Realm::Shared, context.shared_dir),
        (Realm::Server, context.server_dir),
        (Realm::Dev, context.dev_dir),
        id,
        action,
    )
    ||| !(ordered::holds(roots, id) && roots.len() == 1) && is_file_of(
        context,
        resolve,
        LinkFrom::Package(container(own)),
        beside,
        beside,
        beside,
        id,
        action,
    )
    ||| !(ordered::holds(roots, id) && roots.len() == 1) && is_entry(context, id, own, action)
}

/// A dependency cannot be linked from a realm.
pub open spec fn has_unlinkable(
    context: InstallationView,
    resolve: ResolveView,
    realm: Realm,
    graph: GraphView,
    id: PackageIdView,
    error: LinkError,
) -> bool {
    ordered::lookup(graph, id) matches Some(edges) && exists|j: int|
        0 <= j < edges.len() && is_unlinkable(
            context,
            realm,
            ordered::lookup(resolve.metadata, (#[trigger] edges[j]).1)->Some_0,
            error,
        )
}

/// A dependency of a section cannot be linked from a realm.
pub open spec fn is_refused_from(
    context: InstallationView,
    resolve: ResolveView,
    shared: Realm,
    server: Realm,
    dev: Realm,
    id: PackageIdView,
    error: LinkError,
) -> bool {
    ||| has_unlinkable(context, resolve, shared, resolve.shared_dependencies, id, error)
    ||| has_unlinkable(context, resolve, server, resolve.server_dependencies, id, error)
    ||| has_unlinkable(context, resolve, dev, resolve.dev_dependencies, id, error)
}

/// A dependency of a package cannot be linked, from the realm of its section where
/// the package is a root or from the package's own.
pub open spec fn is_refused(
    context: InstallationView,
    roots: Seq<PackageIdView>,
    resolve: ResolveView,
    id: PackageIdView,
    error: LinkError,
) -> bool {
    let realm = ordered::lookup(resolve.metadata, id)->Some_0.origin_realm;
    ||| ordered::holds(roots, id) && is_refused_from(
        context,
        resolve,
        Realm::Shared,
        Realm::Server,
        Realm::Dev,
        id,
        error,
    )
    ||| !(ordered::holds(roots, id) && roots.len() == 1) && is_refused_from(
        context,
        resolve,
        realm,
        realm,
        realm,
        id,
        error,
    )
}

proof fn lemma_links_only(
    context: InstallationView,
    from: LinkFrom,
    realm: Realm,
    base: Seq<char>,
    edges: EdgesView,
    resolve: ResolveView,
)
    requires
        forall|j: int|
            0 <= j < edges.len() ==> ordered::lookup(
                resolve.metadata,
                (#[trigger] edges[j]).1,
            ) is Some,
    ensures
        ({
            let plan = installation::links(context, from, realm, base, edges, resolve);
            &&& forall|k: int|
                0 <= k < plan.actions.len() ==> #[trigger] plan.actions[k]
                    == ActionView::CreateDir(base) || is_link_file(
                    context,
                    resolve,
                    from,
                    realm,
                    base,
                    edges,
                    plan.actions[k],
                )
            &&& plan.error matches Some(error) ==> exists|j: int|
                0 <= j < edges.len() && is_unlinkable(
                    context,
                    realm,
                    ordered::lookup(resolve.metadata, (#[trigger] edges[j]).1)->Some_0,
                    error,
                )
        }),
    decreases edges.len(),
{
    let plan = installation::links(context, from, realm, base, edges, resolve);
    if edges.len() > 0 {
        let fewer = edges.drop_last();
        let before = installation::links(context, from, realm, base, fewer, resolve);
        let (alias, target) = edges.last();
        let n = edges.len() - 1;
        assert(edges[n] == (alias, target));
        assert forall|j: int| 0 <= j < fewer.len() implies ordered::lookup(
            resolve.metadata,
            (#[trigger] fewer[j]).1,
        ) is Some by {
            assert(fewer[j] == edges[j]);
        }
        lemma_links_only(context, from, realm, base, fewer, resolve);
        let known = ordered::lookup(resolve.metadata, target)->Some_0;
        let linked = installation::link_contents(context, from, realm, resolve, target);
        law_links_say_where_packages_are(
            context,
            from,
            realm,
            resolve,
            target,
            known,
            linked->Ok_0,
            linked->Err_0,
        );
        assert forall|k: int| 0 <= k < plan.actions.len() implies #[trigger] plan.actions[k]
            == ActionView::CreateDir(base) || is_link_file(
            context,
            resolve,
            from,
            realm,
            base,
            edges,
            plan.actions[k],
        ) by {
            if k < before.actions.len() {
                assert(plan.actions[k] == before.actions[k]);
                if before.actions[k] != ActionView::CreateDir(base) {
                    let (j, contents) = choose|j: int, contents: Seq<char>|
                        {
                            &&& 0 <= j < fewer.len()
                            &&& #[trigger] is_link(
                                context,
                                from,
                                realm,
                                fewer[j].1,
                                ordered::lookup(resolve.metadata, fewer[j].1)->Some_0,
                                contents,
                            )
                            &&& before.actions[k] == ActionView::WriteFile {
                                path: path::join_text(base, fewer[j].0 + ".lua"@),
                                contents,
                            }
                        };
                    assert(edges[j] == fewer[j]);
                    assert(is_link(
                        context,
                        from,
                        realm,
                        edges[j].1,
                        ordered::lookup(resolve.metadata, edges[j].1)->Some_0,
                        contents,
                    ));
                }
            } else {
                assert(is_link(
                    context,
                    from,
                    realm,
                    edges[n].1,
                    ordered::lookup(resolve.metadata, edges[n].1)->Some_0,
                    linked->Ok_0,
                ));
            }
        }
        if let Some(error) = plan.error {
            if before.error is Some {
                let j = choose|j: int|
                    0 <= j < fewer.len() && is_unlinkable(
                        context,
                        realm,
                        ordered::lookup(resolve.metadata, (#[trigger] fewer[j]).1)->Some_0,
                        error,
                    );
                assert(edges[j] == fewer[j]);
            }
        }
    }
}

proof fn lemma_links_of_only(
    context: InstallationView,
    from: LinkFrom,
    realm: Realm,
    base: Seq<char>,
    graph: GraphView,
    id: PackageIdView,
    resolve: ResolveView,
)
    requires
        installation::targets_known(resolve, graph, id),
    ensures
        ({
            let plan = installation::links_of(context, from, realm, base, graph, id, resolve);
            &&& forall|k: int|
                0 <= k < plan.actions.len() ==> is_file_action(
                    context,
                    resolve,
                    from,
                    realm,
                    base,
                    graph,
                    id,
                    #[trigger] plan.actions[k],
                )
            &&& plan.error matches Some(error) ==> has_unlinkable(
                context,
                resolve,
                realm,
                graph,
                id,
                error,
            )
        }),
{
    if let Some(edges) = ordered::lookup(graph, id) {
        assert(resolution::edges_of(graph, id) == edges);
        assert forall|j: int| 0 <= j < edges.len() implies ordered::lookup(
            resolve.metadata,
            (#[trigger] edges[j]).1,
        ) is Some by {
            assert(ordered::holds(
                ordered::keys_of(resolve.metadata),
                resolution::edges_of(graph, id)[j].1,
            ));
        }
        lemma_links_only(context, from, realm, base, edges, resolve);
    }
}

proof fn lemma_followed(first: PlanView, second: PlanView, k: int)
    requires
        0 <= k < first.followed_by(second).actions.len(),
    ensures
        first.actions.contains(first.followed_by(second).actions[k]) || second.actions.contains(
            first.followed_by(second).actions[k],
        ),
{
    let both = first.followed_by(second);
    if first.error is Some || k < first.actions.len() {
        assert(first.actions[k] == both.actions[k]);
    } else {
        assert(second.actions[k - first.actions.len()] == both.actions[k]);
    }
}

proof fn lemma_all_links_only(
    context: InstallationView,
    from: LinkFrom,
    shared: (Realm, Seq<char>),
    server: (Realm, Seq<char>),
    dev: (Realm, Seq<char>),
    resolve: ResolveView,
    id: PackageIdView,
)
    requires
        installation::is_linkable(resolve, id),
    ensures
        ({
            let plan = installation::all_links(context, from, shared, server, dev, resolve, id);
            &&& forall|k: int|
                0 <= k < plan.actions.len() ==> is_file_of(
                    context,
                    resolve,
                    from,
                    shared,
                    server,
                    dev,
                    id,
                    #[trigger] plan.actions[k],
                )
            &&& plan.error matches Some(error) ==> is_refused_from(
                context,
                resolve,
                shared.0,
                server.0,
                dev.0,
                id,
                error,
            )
        }),
{
    let plan = installation::all_links(context, from, shared, server, dev, resolve, id);
    let a = installation::links_of(
        context,
        from,
        shared.0,
        shared.1,
        resolve.shared_dependencies,
        id,
        resolve,
    );
    let b = installation::links_of(
        context,
        from,
        server.0,
        server.1,
        resolve.server_dependencies,
        id,
        resolve,
    );
    let c = installation::links_of(
        context,
        from,
        dev.0,
        dev.1,
        resolve.dev_dependencies,
        id,
        resolve,
    );
    lemma_links_of_only(
        context,
        from,
        shared.0,
        shared.1,
        resolve.shared_dependencies,
        id,
        resolve,
    );
    lemma_links_of_only(
        context,
        from,
        server.0,
        server.1,
        resolve.server_dependencies,
        id,
        resolve,
    );
    lemma_links_of_only(context, from, dev.0, dev.1, resolve.dev_dependencies, id, resolve);
    let ab = a.followed_by(b);
    assert forall|k: int| 0 <= k < plan.actions.len() implies is_file_of(
        context,
        resolve,
        from,
        shared,
        server,
        dev,
        id,
        #[trigger] plan.actions[k],
    ) by {
        let action = plan.actions[k];
        lemma_followed(ab, c, k);
        if ab.actions.contains(action) {
            let n = choose|n: int| 0 <= n < ab.actions.len() && ab.actions[n] == action;
            lemma_followed(a, b, n);
            if a.actions.contains(action) {
                let m = choose|m: int| 0 <= m < a.actions.len() && a.actions[m] == action;
            } else {
                let m = choose|m: int| 0 <= m < b.actions.len() && b.actions[m] == action;
            }
        } else {
            let n = choose|n: int| 0 <= n < c.actions.len() && c.actions[n] == action;
        }
    }
}

proof fn lemma_package_only(
    context: InstallationView,
    roots: Seq<PackageIdView>,
    resolve: ResolveView,
    id: PackageIdView,
)
    requires
        installation::is_ready(roots, resolve, id),
    ensures
        ({
            let plan = installation::package_plan(context, roots, resolve, id);
            &&& forall|k: int|
                0 <= k < plan.actions.len() ==> is_planned(
                    context,
                    roots,
                    resolve,
                    id,
                    #[trigger] plan.actions[k],
                )
            &&& plan.error matches Some(error) ==> is_refused(context, roots, resolve, id, error)
        }),
{
    let own = ordered::lookup(resolve.metadata, id)->Some_0;
    let beside = (own.origin_realm, package_folder(context, id, own));
    let plan = installation::package_plan(context, roots, resolve, id);
    lemma_folder(context, resolve, id, own);
    lemma_all_links_only(
        context,
        LinkFrom::Root,
        (Realm::Shared, context.shared_dir),
        (Realm::Server, context.server_dir),
        (Realm::Dev, context.dev_dir),
        resolve,
        id,
    );
    lemma_all_links_only(
        context,
        LinkFrom::Package(container(own)),
        beside,
        beside,
        beside,
        resolve,
        id,
    );
    let top = if ordered::holds(roots, id) {
        installation::root_links(context, resolve, id)
    } else {
        PlanView::nothing()
    };
    let inside = installation::package_links(context, resolve, id);
    let entry = PlanView {
        actions: seq![installation::entry(context, resolve, id)],
        error: None,
    };
    let links = top.followed_by(inside);
    assert forall|k: int| 0 <= k < plan.actions.len() implies is_planned(
        context,
        roots,
        resolve,
        id,
        #[trigger] plan.actions[k],
    ) by {
        let action = plan.actions[k];
        if installation::is_sole_root(roots, id) {
            assert(top.actions[k] == action);
        } else {
            lemma_followed(links, entry, k);
            if links.actions.contains(action) {
                let n = choose|n: int|
                    0 <= n < links.actions.len() && links.actions[n] == action;
                lemma_followed(top, inside, n);
                if top.actions.contains(action) {
                    let m = choose|m: int| 0 <= m < top.actions.len() && top.actions[m] == action;
                    assert(top.actions[m] == action);
                } else {
                    let m = choose|m: int|
                        0 <= m < inside.actions.len() && inside.actions[m] == action;
                    assert(inside.actions[m] == action);
                }
            } else {
                let n = choose|n: int|
                    0 <= n < entry.actions.len() && entry.actions[n] == action;
                assert(action == installation::entry(context, resolve, id));
            }
        }
    }
}

proof fn lemma_plan_only(
    context: InstallationView,
    roots: Seq<PackageIdView>,
    resolve: ResolveView,
    ids: Seq<PackageIdView>,
)
    requires
        forall|i: int|
            0 <= i < ids.len() ==> installation::is_ready(roots, resolve, #[trigger] ids[i]),
    ensures
        ({
            let plan = installation::plan_of(context, roots, resolve, ids);
            &&& forall|k: int|
                0 <= k < plan.actions.len() ==> is_planned_for(
                    context,
                    roots,
                    resolve,
                    ids,
                    #[trigger] plan.actions[k],
                )
            &&& plan.error matches Some(error) ==> exists|i: int|
                0 <= i < ids.len() && is_refused(
                    context,
                    roots,
                    resolve,
                    #[trigger] ids[i],
                    error,
                )
        }),
    decreases ids.len(),
{
    let plan = installation::plan_of(context, roots, resolve, ids);
    if ids.len() > 0 {
        let fewer = ids.drop_last();
        let last = ids.last();
        let n = ids.len() - 1;
        assert(ids[n] == last);
        assert forall|i: int| 0 <= i < fewer.len() implies installation::is_ready(
            roots,
            resolve,
            #[trigger] fewer[i],
        ) by {
            assert(fewer[i] == ids[i]);
        }
        lemma_plan_only(context, roots, resolve, fewer);
        lemma_package_only(context, roots, resolve, last);
        let before = installation::plan_of(context, roots, resolve, fewer);
        let own = installation::package_plan(context, roots, resolve, last);
        assert forall|k: int| 0 <= k < plan.actions.len() implies is_planned_for(
            context,
            roots,
            resolve,
            ids,
            #[trigger] plan.actions[k],
        ) by {
            if k < before.actions.len() {
                assert(plan.actions[k] == before.actions[k]);
                assert(is_planned_for(context, roots, resolve, fewer, before.actions[k]));
                let i = choose|i: int|
                    0 <= i < fewer.len() && is_planned(
                        context,
                        roots,
                        resolve,
                        #[trigger] fewer[i],
                        before.actions[k],
                    );
                assert(ids[i] == fewer[i]);
            } else {
                assert(plan.actions[k] == own.actions[k - before.actions.len()]);
                assert(is_planned(context, roots, resolve, ids[n], plan.actions[k]));
            }
        }
        if let Some(error) = plan.error {
            if before.error is Some {
                let i = choose|i: int|
                    0 <= i < fewer.len() && is_refused(
                        context,
                        roots,
                        resolve,
                        #[trigger] fewer[i],
                        error,
                    );
                assert(ids[i] == fewer[i]);
            } else {
                assert(is_refused(context, roots, resolve, ids[n], error));
            }
        }
    }
}

/// An action is one of those for one of the packages.
pub open spec fn is_planned_for(
    context: InstallationView,
    roots: Seq<PackageIdView>,
    resolve: ResolveView,
    ids: Seq<PackageIdView>,
    action: ActionView,
) -> bool {
    exists|i: int|
        0 <= i < ids.len() && is_planned(context, roots, resolve, #[trigger] ids[i], action)
}

/// An installation does nothing but put chosen packages into their directories and
/// write the links to their dependencies, and it ends with an error only because
/// of a dependency that cannot be linked.
pub proof fn law_nothing_else_is_installed(
    context: InstallationView,
    roots: Seq<PackageIdView>,
    resolve: ResolveView,
    k: int,
)
    requires
        installation::is_installable(roots, resolve),
    ensures
        ({
            let plan = installation::plan_of(context, roots, resolve, resolve.activated);
            &&& 0 <= k < plan.actions.len() ==> is_planned_for(
                context,
                roots,
                resolve,
                resolve.activated,
                plan.actions[k],
            )
            &&& plan.error matches Some(error) ==> exists|i: int|
                0 <= i < resolve.activated.len() && is_refused(
                    context,
                    roots,
                    resolve,
                    #[trigger] resolve.activated[i],
                    error,
                )
        }),
{
    lemma_plan_only(context, roots, resolve, resolve.activated);
}

/// A link from one realm to a package that is installed in another names the place
/// that is declared for the realm in whose directory the package is put by the same
/// installation: the server place for one that is put into the server directory,
/// the shared place for one that is put into the shared directory.
pub proof fn law_links_across_realms_name_the_declared_place(
    context: InstallationView,
    roots: Seq<PackageIdView>,
    resolve: ResolveView,
    i: int,
    t: int,
    realm: Realm,
    edges: EdgesView,
    j: int,
    own: MetadataView,
    known: MetadataView,
) -> (found: (int, int))
    requires
        installation::is_installable(roots, resolve),
        installation::plan_of(context, roots, resolve, resolve.activated).error is None,
        0 <= i < resolve.activated.len(),
        0 <= t < resolve.activated.len(),
        !(ordered::holds(roots, resolve.activated[i]) && roots.len() == 1),
        !(ordered::holds(roots, resolve.activated[t]) && roots.len() == 1),
        ordered::lookup(resolve.metadata, resolve.activated[i]) == Some(own),
        ordered::lookup(resolve.metadata, resolve.activated[t]) == Some(known),
        ordered::lookup(graph_of(resolve, realm), resolve.activated[i]) == Some(edges),
        0 <= j < edges.len(),
        edges[j].1 == resolve.activated[t],
        own.origin_realm != known.origin_realm,
    ensures
        ({
            let actions = installation::plan_of(
                context,
                roots,
                resolve,
                resolve.activated,
            ).actions;
            let target = resolve.activated[t];
            let (link, entry) = found;
            let put = match actions[entry] {
                ActionView::Download { dir, .. } => dir,
                ActionView::LinkMember { dir, .. } => dir,
                _ => arbitrary(),
            };
            let place = if known.origin_realm == Realm::Server {
                context.server_path
            } else {
                context.shared_path
            };
            let dir = if known.origin_realm == Realm::Server {
                context.server_dir
            } else {
                context.shared_dir
            };
            &&& 0 <= link < actions.len()
            &&& 0 <= entry < actions.len()
            &&& actions[entry] is Download || actions[entry] is LinkMember
            &&& put == path::join_text(
                path::join_text(path::join_text(dir, box_of(known)), folder(target)),
                target.name.name,
            )
            &&& place is Some
            &&& actions[link] == ActionView::WriteFile {
                path: path::join_text(
                    package_folder(context, resolve.activated[i], own),
                    edges[j].0 + ".lua"@,
                ),
                contents: "return require("@ + place->Some_0 + "."@ + box_of(known) + link_end(
                    target,
                ),
            }
        }),
{
    let actions = installation::plan_of(context, roots, resolve, resolve.activated).actions;
    let target = resolve.activated[t];
    let from = LinkFrom::Package(container(own));
    law_dependencies_are_linked(context, roots, resolve, i, realm, edges, j, own, known);
    let entry = law_packages_are_put_into_their_realm(context, roots, resolve, t, known);
    let contents = choose|contents: Seq<char>|
        {
            &&& #[trigger] is_link(context, from, own.origin_realm, target, known, contents)
            &&& actions.contains(
                ActionView::WriteFile {
                    path: path::join_text(
                        package_folder(context, resolve.activated[i], own),
                        edges[j].0 + ".lua"@,
                    ),
                    contents,
                },
            )
        };
    let action = ActionView::WriteFile {
        path: path::join_text(
            package_folder(context, resolve.activated[i], own),
            edges[j].0 + ".lua"@,
        ),
        contents,
    };
    let link = choose|link: int| 0 <= link < actions.len() && actions[link] == action;
    (link, entry)
}

/// As many packages have to be downloaded as are chosen, no members and not the
/// only root.
pub proof fn law_downloads_are_counted(
    roots: Seq<PackageIdView>,
    resolve: ResolveView,
    ids: Seq<PackageIdView>,
)
    requires
        forall|i: int|
            0 <= i < ids.len() ==> ordered::lookup(resolve.metadata, #[trigger] ids[i]) is Some,
    ensures
        installation::downloads(roots, resolve, ids) == ids.filter(
            |id: PackageIdView|
                !(ordered::holds(roots, id) && roots.len() == 1) && !ordered::lookup(
                    resolve.metadata,
                    id,
                )->Some_0.is_workspace_member,
        ).len(),
    decreases ids.len(),
{
    let counts = |id: PackageIdView|
        !(ordered::holds(roots, id) && roots.len() == 1) && !ordered::lookup(
            resolve.metadata,
            id,
        )->Some_0.is_workspace_member;
    reveal(Seq::filter);
    if ids.len() > 0 {
        let fewer = ids.drop_last();
        assert(ids[ids.len() - 1] == ids.last());
        assert forall|i: int| 0 <= i < fewer.len() implies ordered::lookup(
            resolve.metadata,
            #[trigger] fewer[i],
        ) is Some by {
            assert(fewer[i] == ids[i]);
        }
        law_downloads_are_counted(roots, resolve, fewer);
    }
}

} // verus!
