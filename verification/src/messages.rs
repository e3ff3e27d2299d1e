//! What messages tell.

use vstd::prelude::*;

use crate::commands::publish;
use crate::commands::publish::{PublishErrorView, RewriteErrorView};
use crate::commands::update;
use crate::dependency_spec;
use crate::dependency_spec::DependencySpecView;
use crate::manifest::{ManifestView, Realm};
use crate::package_id;
use crate::package_id::PackageIdView;
use crate::package_name::PackageNameView;
use crate::package_req;
use crate::package_source::path::PathSourceErrorView;
use crate::resolution::ResolveErrorView;
use crate::text;
use crate::workspace::{
    DiscoverErrorView, Field, MemberErrorView, Section, WorkspaceErrorView,
};

verus! {

/// A part of a message stands at some place of it.
pub open spec fn stands_at(message: Seq<char>, part: Seq<char>, at: int) -> bool {
    &&& 0 <= at
    &&& at + part.len() <= message.len()
    &&& message.subrange(at, at + part.len()) == part
}

/// A message tells the parts, one behind the other.
pub open spec fn tells(message: Seq<char>, parts: Seq<Seq<char>>) -> bool
    decreases parts.len(),
{
    parts.len() == 0 || exists|at: int| #[trigger]
        stands_at(message, parts.last(), at) && tells(message.take(at), parts.drop_last())
}

proof fn lemma_rest(message: Seq<char>, parts: Seq<Seq<char>>, rest: Seq<char>)
    requires
        tells(message, parts),
    ensures
        tells(message + rest, parts),
{
    if parts.len() > 0 {
        let at = choose|at: int| #[trigger]
            stands_at(message, parts.last(), at) && tells(message.take(at), parts.drop_last());
        let whole = message + rest;
        assert(whole.take(at) =~= message.take(at));
        assert(whole.subrange(at, at + parts.last().len()) =~= message.subrange(
            at,
            at + parts.last().len(),
        ));
        assert(stands_at(whole, parts.last(), at));
    }
}

proof fn lemma_part(
    message: Seq<char>,
    parts: Seq<Seq<char>>,
    gap: Seq<char>,
    part: Seq<char>,
)
    requires
        tells(message, parts),
    ensures
        tells(message + gap + part, parts.push(part)),
{
    let whole = message + gap + part;
    let at = (message + gap).len() as int;
    let all = parts.push(part);
    lemma_rest(message, parts, gap);
    assert(all.drop_last() =~= parts);
    assert(whole.take(at) =~= message + gap);
    assert(whole.subrange(at, at + part.len()) =~= part);
    assert(stands_at(whole, all.last(), at));
}

proof fn lemma_first(gap: Seq<char>, part: Seq<char>)
    ensures
        tells(gap + part, seq![part]),
{
    let none = Seq::<char>::empty();
    let nothing = Seq::<Seq<char>>::empty();
    lemma_part(none, nothing, gap, part);
    assert(none + gap + part =~= gap + part);
    assert(nothing.push(part) =~= seq![part]);
}

proof fn lemma_second(message: Seq<char>, a: Seq<char>, gap: Seq<char>, b: Seq<char>)
    requires
        tells(message, seq![a]),
    ensures
        tells(message + gap + b, seq![a, b]),
{
    lemma_part(message, seq![a], gap, b);
    assert(seq![a].push(b) =~= seq![a, b]);
}

proof fn lemma_third(
    message: Seq<char>,
    a: Seq<char>,
    b: Seq<char>,
    gap: Seq<char>,
    c: Seq<char>,
)
    requires
        tells(message, seq![a, b]),
    ensures
        tells(message + gap + c, seq![a, b, c]),
{
    lemma_part(message, seq![a, b], gap, c);
    assert(seq![a, b].push(c) =~= seq![a, b, c]);
}

/// The name of a realm.
pub open spec fn realm_word(realm: Realm) -> Seq<char> {
    match realm {
        Realm::Shared => "Shared"@,
        Realm::Server => "Server"@,
        Realm::Dev => "Dev"@,
    }
}

/// The name of a section.
pub open spec fn section_word(section: Section) -> Seq<char> {
    match section {
        Section::DevDependencies => "[dev-dependencies]"@,
        Section::ServerDependencies => "[server-dependencies]"@,
        Section::Dependencies => "[dependencies]"@,
    }
}

/// The name of a field.
pub open spec fn field_word(field: Field) -> Seq<char> {
    match field {
        Field::Realm => "realm"@,
        Field::Registry => "registry"@,
    }
}

/// A package name as it is written.
pub open spec fn full_name(name: PackageNameView) -> Seq<char> {
    name.scope + "/"@ + name.name
}

/// Where the search for members stops, the message tells the pattern or directory.
pub proof fn law_search_errors_tell_where(error: DiscoverErrorView)
    ensures
        tells(
            error.text(),
            seq![
                match error {
                    DiscoverErrorView::InvalidPattern(pattern) => pattern,
                    DiscoverErrorView::Unreadable(pattern) => pattern,
                    DiscoverErrorView::NotCanonical(dir) => dir,
                },
            ],
        ),
{
    match error {
        DiscoverErrorView::InvalidPattern(pattern) => {
            lemma_first("invalid glob pattern: "@, pattern);
        },
        DiscoverErrorView::Unreadable(pattern) => {
            lemma_first("error reading glob match for pattern: "@, pattern);
        },
        DiscoverErrorView::NotCanonical(dir) => {
            lemma_first("failed to canonicalize: "@, dir);
        },
    }
}

/// Where a member cannot be loaded, the message tells the reason, the field, or the
/// section and the alias.
pub proof fn law_member_errors_tell_what(error: MemberErrorView)
    ensures
        tells(
            error.text(),
            match error {
                MemberErrorView::Unreadable(reason) => seq![reason],
                MemberErrorView::Field { field, .. } => seq![field_word(field)],
                MemberErrorView::Dependency { section, alias, .. } => seq![
                    section_word(section),
                    alias,
                ],
            },
        ),
{
    match error {
        MemberErrorView::Unreadable(reason) => {
            let none = Seq::<char>::empty();
            lemma_first(none, reason);
            assert(none + reason =~= reason);
        },
        MemberErrorView::Field { field, .. } => {
            lemma_first("field '"@, field_word(field));
            let told = "field '"@ + field_word(field);
            let parts = seq![field_word(field)];
            lemma_rest(
                told,
                parts,
                "' is set to `workspace = true` but the workspace root does not define it"@,
            );
            lemma_rest(
                told,
                parts,
                "' has `workspace = false` which is not a valid directive"@,
            );
            lemma_rest(
                told,
                parts,
                "' is not set and the workspace root does not provide a default"@,
            );
        },
        MemberErrorView::Dependency { section, alias, .. } => {
            let word = section_word(section);
            lemma_first("failed to resolve "@, word);
            lemma_second("failed to resolve "@ + word, word, ": dependency '"@, alias);
            let told = "failed to resolve "@ + word + ": dependency '"@ + alias;
            let parts = seq![word, alias];
            lemma_rest(
                told,
                parts,
                "' is set to `workspace = true` but is not defined in [workspace.dependencies]"@,
            );
            lemma_rest(
                told,
                parts,
                "' has `workspace = false` which is not a valid directive"@,
            );
        },
    }
}

/// Where a workspace cannot be loaded, the message tells the member, or the name and
/// the directories that it is found in.
pub proof fn law_workspace_errors_tell_what(error: WorkspaceErrorView)
    ensures
        match error {
            WorkspaceErrorView::Member { dir, error: reason } => tells(
                error.text(),
                seq![dir, reason.text()],
            ),
            WorkspaceErrorView::DuplicateName { name, first, second } => tells(
                error.text(),
                seq![full_name(name), first, second],
            ),
            WorkspaceErrorView::NoDefaultMember(name) => tells(
                error.text(),
                seq![full_name(name)],
            ),
            _ => true,
        },
{
    match error {
        WorkspaceErrorView::Member { dir, error: reason } => {
            lemma_first("failed to load member at "@, dir);
            lemma_second("failed to load member at "@ + dir, dir, ": "@, reason.text());
        },
        WorkspaceErrorView::DuplicateName { name, first, second } => {
            let written = full_name(name);
            lemma_first("duplicate package name '"@, written);
            let told = "duplicate package name '"@ + written;
            lemma_second(told, written, "' found at "@, first);
            lemma_third(told + "' found at "@ + first, written, first, " and "@, second);
        },
        WorkspaceErrorView::NoDefaultMember(name) => {
            lemma_first("default-member '"@, full_name(name));
            lemma_rest(
                "default-member '"@ + full_name(name),
                seq![full_name(name)],
                "' does not match any workspace member"@,
            );
        },
        _ => {},
    }
}

/// Where no package is in a directory, the message tells the directory, and the
/// reason if there is one.
pub proof fn law_directory_errors_tell_where(error: PathSourceErrorView)
    ensures
        tells(
            error.text(),
            match error {
                PathSourceErrorView::NoDirectory(dir) => seq![dir],
                PathSourceErrorView::NoManifest(dir) => seq![dir],
                PathSourceErrorView::Unreadable { dir, reason } => seq![dir, reason],
            },
        ),
{
    match error {
        PathSourceErrorView::NoDirectory(dir) => {
            lemma_first("path source directory does not exist: "@, dir);
        },
        PathSourceErrorView::NoManifest(dir) => {
            lemma_first("path source directory has no wally.toml: "@, dir);
        },
        PathSourceErrorView::Unreadable { dir, reason } => {
            lemma_first("failed to load manifest from "@, dir);
            lemma_second("failed to load manifest from "@ + dir, dir, ": "@, reason);
        },
    }
}

/// Where a path dependency cannot be rewritten, the message tells its alias and
/// where it points to.
pub proof fn law_rewrite_errors_tell_which(error: RewriteErrorView)
    ensures
        tells(
            error.text(),
            match error {
                RewriteErrorView::Unresolved { alias, dir } => seq![alias, dir],
                RewriteErrorView::NotAMember { alias, dir } => seq![alias, dir],
            },
        ),
{
    match error {
        RewriteErrorView::Unresolved { alias, dir } => {
            lemma_first("path dependency '"@, alias);
            lemma_second("path dependency '"@ + alias, alias, "' points to "@, dir);
            lemma_rest(
                "path dependency '"@ + alias + "' points to "@ + dir,
                seq![alias, dir],
                " which could not be resolved"@,
            );
        },
        RewriteErrorView::NotAMember { alias, dir } => {
            lemma_first("path dependency '"@, alias);
            lemma_second("path dependency '"@ + alias, alias, "' at "@, dir);
            lemma_rest(
                "path dependency '"@ + alias + "' at "@ + dir,
                seq![alias, dir],
                " is not a workspace member"@,
            );
        },
    }
}

/// Where a package cannot be published, the message tells the package, and what it
/// depends on under which alias, or the section and what is wrong in it.
pub proof fn law_publish_errors_tell_which(error: PublishErrorView)
    ensures
        match error {
            PublishErrorView::NoSuchMember(name) => tells(error.text(), seq![full_name(name)]),
            PublishErrorView::PrivateMember(name) => tells(error.text(), seq![full_name(name)]),
            PublishErrorView::PrivateDependency { name, target, alias } => tells(
                error.text(),
                seq![full_name(name), full_name(target), alias],
            ),
            PublishErrorView::Rewrite { section, error: reason } => tells(
                error.text(),
                seq![section_word(section), reason.text()],
            ),
            _ => true,
        },
{
    match error {
        PublishErrorView::NoSuchMember(name) => {
            lemma_first("no workspace member named '"@, full_name(name));
            lemma_rest(
                "no workspace member named '"@ + full_name(name),
                seq![full_name(name)],
                "' found"@,
            );
        },
        PublishErrorView::PrivateMember(name) => {
            lemma_first("Cannot publish private package '"@, full_name(name));
            lemma_rest(
                "Cannot publish private package '"@ + full_name(name),
                seq![full_name(name)],
                "'."@,
            );
        },
        PublishErrorView::PrivateDependency { name, target, alias } => {
            let (a, b) = (full_name(name), full_name(target));
            lemma_first("cannot publish '"@, a);
            let first = "cannot publish '"@ + a;
            lemma_second(first, a, "': it depends on private member '"@, b);
            let second = first + "': it depends on private member '"@ + b;
            lemma_third(second, a, b, "' (via '"@, alias);
            lemma_rest(second + "' (via '"@ + alias, seq![a, b, alias], "')"@);
        },
        PublishErrorView::Rewrite { section, error: reason } => {
            let word = section_word(section);
            lemma_first("failed to rewrite "@, word);
            lemma_second("failed to rewrite "@ + word, word, ": "@, reason.text());
        },
        _ => {},
    }
}

/// What is said before a package is sent tells its id and where it is sent to.
pub proof fn law_announcements_tell_package_and_index(manifest: ManifestView, index: Seq<char>)
    ensures
        tells(
            publish::announcement_text(manifest, index),
            seq![
                package_id::id_text(
                    PackageIdView {
                        name: manifest.package.name,
                        version: manifest.package.version,
                    },
                ),
                index,
            ],
        ),
{
    let id = package_id::id_text(manifest.package_id());
    lemma_first("Publishing "@, id);
    lemma_second("Publishing "@ + id, id, " to "@, index);
}

/// How ids are written.
pub open spec fn id_words(ids: Seq<PackageIdView>) -> Seq<Seq<char>> {
    ids.map_values(|id: PackageIdView| package_id::id_text(id))
}

proof fn lemma_all_told(message: Seq<char>, parts: Seq<Seq<char>>, more: Seq<Seq<char>>)
    requires
        tells(message, parts),
    ensures
        tells(message + text::joined(more, ", "@), parts + more),
    decreases more.len(),
{
    let none = Seq::<char>::empty();
    if more.len() == 0 {
        assert(message + text::joined(more, ", "@) =~= message);
        assert(parts + more =~= parts);
    } else if more.len() == 1 {
        lemma_part(message, parts, none, more[0]);
        assert(message + none + more[0] =~= message + text::joined(more, ", "@));
        assert(parts.push(more[0]) =~= parts + more);
    } else {
        let fewer = more.drop_last();
        lemma_all_told(message, parts, fewer);
        lemma_part(message + text::joined(fewer, ", "@), parts + fewer, ", "@, more.last());
        assert(message + text::joined(fewer, ", "@) + ", "@ + more.last() =~= message
            + text::joined(more, ", "@));
        assert((parts + fewer).push(more.last()) =~= parts + more);
    }
}

/// Where a request is refused, the message tells what was asked for, by whom or from
/// which realm, and which packages stood in its way, all of them.
pub proof fn law_refusals_tell_what_was_asked_for(error: ResolveErrorView)
    ensures
        tells(
            error.text(),
            match error {
                ResolveErrorView::Unanswered { req, .. } => seq![
                    package_req::package_req_text(req),
                ],
                ResolveErrorView::NotAMember { alias, dir } => seq![alias, dir],
                ResolveErrorView::RealmMismatch {
                    dependent,
                    realm,
                    alias,
                    target,
                    target_realm,
                } => seq![
                    package_id::id_text(dependent),
                    realm_word(realm),
                    alias,
                    package_id::id_text(target),
                    realm_word(target_realm),
                ],
                ResolveErrorView::NoSource(req) => seq![package_req::package_req_text(req)],
                ResolveErrorView::NoMatch { realm, req } => seq![
                    realm_word(realm),
                    package_req::package_req_text(req),
                ],
                ResolveErrorView::Conflict { realm, req, conflicting } => seq![
                    package_req::package_req_text(req),
                    realm_word(realm),
                ] + id_words(conflicting),
                ResolveErrorView::NotPublished(id) => seq![package_id::id_text(id)],
            },
        ),
{
    match error {
        ResolveErrorView::Unanswered { req, .. } => {
            lemma_first(
                "No answer is known to the query for "@,
                package_req::package_req_text(req),
            );
        },
        ResolveErrorView::NotAMember { alias, dir } => {
            lemma_first("path dependency '"@, alias);
            lemma_second("path dependency '"@ + alias, alias, "' at "@, dir);
            lemma_rest(
                "path dependency '"@ + alias + "' at "@ + dir,
                seq![alias, dir],
                " does not point to a workspace member"@,
            );
        },
        ResolveErrorView::RealmMismatch { dependent, realm, alias, target, target_realm } => {
            lemma_mismatch(
                package_id::id_text(dependent),
                realm_word(realm),
                alias,
                package_id::id_text(target),
                realm_word(target_realm),
            );
        },
        ResolveErrorView::NoSource(req) => {
            lemma_first("Failed to find a source for "@, package_req::package_req_text(req));
        },
        ResolveErrorView::NoMatch { realm, req } => {
            let word = realm_word(realm);
            let written = package_req::package_req_text(req);
            lemma_first("No packages were found that matched ("@, word);
            let first = "No packages were found that matched ("@ + word;
            lemma_second(first, word, ") "@, written);
            let second = first + ") "@ + written;
            let parts = seq![word, written];
            lemma_rest(second, parts, ".\nAre you sure this is a "@);
            lemma_rest(second + ".\nAre you sure this is a "@, parts, word);
            lemma_rest(second + ".\nAre you sure this is a "@ + word, parts, " dependency?"@);
        },
        ResolveErrorView::Conflict { realm, req, conflicting } => {
            let word = realm_word(realm);
            let written = package_req::package_req_text(req);
            lemma_first("All possible candidates for package "@, written);
            let first = "All possible candidates for package "@ + written;
            lemma_second(first, written, " ("@, word);
            let second = first + " ("@ + word;
            let parts = seq![written, word];
            lemma_rest(
                second,
                parts,
                ") conflicted with other packages that were already installed. These packages were previously selected: "@,
            );
            lemma_all_told(
                second
                    + ") conflicted with other packages that were already installed. These packages were previously selected: "@,
                parts,
                id_words(conflicting),
            );
        },
        ResolveErrorView::NotPublished(id) => {
            lemma_first("Package "@, package_id::id_text(id));
            lemma_rest(
                "Package "@ + package_id::id_text(id),
                seq![package_id::id_text(id)],
                " depends on packages outside of registries"@,
            );
        },
    }
}

proof fn lemma_mismatch(
    dependent: Seq<char>,
    realm: Seq<char>,
    alias: Seq<char>,
    target: Seq<char>,
    target_realm: Seq<char>,
)
    ensures
        tells(
            "Package "@ + dependent + " has a "@ + realm + " dependency '"@ + alias + "' on "@
                + target + ", but "@ + target + " has realm "@ + target_realm
                + " which is not compatible"@,
            seq![dependent, realm, alias, target, target_realm],
        ),
{
    lemma_first("Package "@, dependent);
    let first = "Package "@ + dependent;
    lemma_second(first, dependent, " has a "@, realm);
    let second = first + " has a "@ + realm;
    lemma_third(second, dependent, realm, " dependency '"@, alias);
    let third = second + " dependency '"@ + alias;
    let three = seq![dependent, realm, alias];
    lemma_rest(third, three, "' on "@);
    lemma_rest(third + "' on "@, three, target);
    lemma_part(third + "' on "@ + target, three, ", but "@, target);
    let fourth = third + "' on "@ + target + ", but "@ + target;
    lemma_part(fourth, three.push(target), " has realm "@, target_realm);
    let five = three.push(target).push(target_realm);
    assert(five =~= seq![dependent, realm, alias, target, target_realm]);
    lemma_rest(fourth + " has realm "@ + target_realm, five, " which is not compatible"@);
}

/// Where a text names no package to update, the message tells the text.
pub proof fn law_unreadable_specs_are_told(spec: Seq<char>)
    ensures
        tells(update::unreadable_text(spec), seq![spec]),
{
    lemma_first("Was unable to parse "@, spec);
    lemma_rest(
        "Was unable to parse "@ + spec,
        seq![spec],
        " into a package requirement or a package name!"@,
    );
}

/// A dependency that is told shows its requirement, its path, or whether it is taken
/// over.
pub proof fn law_dependencies_are_told(spec: DependencySpecView)
    ensures
        tells(
            dependency_spec::spec_text(spec),
            seq![
                match spec {
                    DependencySpecView::Registry(req) => package_req::package_req_text(req),
                    DependencySpecView::Path(path) => path,
                    DependencySpecView::Workspace(true) => "true"@,
                    DependencySpecView::Workspace(false) => "false"@,
                },
            ],
        ),
{
    match spec {
        DependencySpecView::Registry(req) => {
            let none = Seq::<char>::empty();
            let written = package_req::package_req_text(req);
            lemma_first(none, written);
            assert(none + written =~= written);
        },
        DependencySpecView::Path(path) => {
            lemma_first("path: "@, path);
        },
        DependencySpecView::Workspace(_) => {
            lemma_first("workspace: "@, "true"@);
            lemma_first("workspace: "@, "false"@);
        },
    }
}

} // verus!
