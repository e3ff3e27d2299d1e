//! Updating packages.

use vstd::prelude::*;

use crate::commands::install;
use crate::commands::install::{Installation, InstallationOutcome};
use crate::installation;
use crate::order;
use crate::ordered;
use crate::ordered::OrdSet;
use crate::package_id::{PackageId, PackageIdView};
use crate::package_name;
use crate::package_name::{PackageName, PackageNameView};
use crate::package_req;
use crate::package_req::{PackageReq, PackageReqView};
use crate::package_source::{PackageSourceMap, PackageSourceMapView};
use crate::path::PathBuf;
use crate::plain;
use crate::plain::Plain;
use crate::resolution;
use crate::resolution::{resolve_workspace, ResolveError, ResolveErrorView};
use crate::text;
use crate::version_req;
use crate::workspace::{CanonicalPaths, CanonicalPathsView, Workspace, WorkspaceView};

verus! {

/// A package that should be updated: by its name, or by a requirement.
#[derive(Debug, PartialEq, Eq, Hash)]
pub enum PackageSpec {
    Named(PackageName),
    Required(PackageReq),
}

/// What names a package that should be updated.
pub enum PackageSpecView {
    Named(PackageNameView),
    Required(PackageReqView),
}

impl View for PackageSpec {
    type V = PackageSpecView;

    open spec fn view(&self) -> PackageSpecView {
        match self {
            PackageSpec::Named(name) => PackageSpecView::Named(name@),
            PackageSpec::Required(req) => PackageSpecView::Required(req@),
        }
    }
}

impl DeepView for PackageSpec {
    type V = PackageSpecView;

    open spec fn deep_view(&self) -> PackageSpecView {
        self.view()
    }
}

impl PackageSpecView {
    /// Whether a package is one that should be updated.
    pub open spec fn names(self, id: PackageIdView) -> bool {
        match self {
            PackageSpecView::Named(name) => id.name == name,
            PackageSpecView::Required(req) => req.matches(id.name, id.version),
        }
    }
}

/// Whether a text writes a package name.
pub open spec fn is_package_name(text: Seq<char>) -> bool {
    let at = text::index_of(text, '/');
    &&& at < text.len()
    &&& package_name::is_valid_part(text.subrange(0, at))
    &&& package_name::is_valid_part(text.subrange(at + 1, text.len() as int))
}

/// Whether a text writes a package requirement.
pub open spec fn is_package_req(text: Seq<char>) -> bool {
    let at = text::index_of(text, '@');
    &&& at < text.len()
    &&& is_package_name(text.subrange(0, at))
    &&& version_req::requirement_text(text.subrange(at + 1, text.len() as int)) is Ok
}

/// What is said of a text that names no package.
pub open spec fn unreadable_text(text: Seq<char>) -> Seq<char> {
    "Was unable to parse "@ + text + " into a package requirement or a package name!"@
}

impl PackageSpec {
    /// Reads a requirement or, where the text is none, a name.
    pub fn parse(value: &str) -> (parsed: Result<PackageSpec, String>)
        requires
            package_req::requirement_fits(value@),
        ensures
            match parsed {
                Ok(PackageSpec::Required(req)) => {
                    &&& is_package_req(value@)
                    &&& package_req::reads_package_req(value@, Ok(req))
                },
                Ok(PackageSpec::Named(name)) => {
                    &&& !is_package_req(value@)
                    &&& package_name::reads_name(value@, Ok(name@))
                },
                Err(message) => {
                    &&& !is_package_req(value@)
                    &&& !is_package_name(value@)
                    &&& message@ == unreadable_text(value@)
                },
            },
    {
        if let Ok(req) = PackageReq::parse(value) {
            return Ok(PackageSpec::Required(req));
        }
        if let Ok(name) = PackageName::parse(value) {
            return Ok(PackageSpec::Named(name));
        }
        let mut message: String = "Was unable to parse ".to_owned();
        message.append(value);
        message.append(" into a package requirement or a package name!");
        Err(message)
    }

    /// Whether a package is one that should be updated.
    pub fn names(&self, id: &PackageId) -> (named: bool)
        ensures
            named == self@.names(id@),
    {
        match self {
            PackageSpec::Named(name) => id.name().is_same(name),
            PackageSpec::Required(req) => req.matches(id.name(), id.version()),
        }
    }
}

/// Update all of the dependencies of this project.
#[derive(Debug, PartialEq, Eq)]
pub struct UpdateSubcommand {
    /// Path to the project to update.
    pub project_path: PathBuf,
    /// An optional list of dependencies to update.
    /// They must be valid package name with an optional version requirement.
    pub package_specs: Vec<PackageSpec>,
}

/// Whether a package is one of those that should be updated.
pub open spec fn is_target(specs: Seq<PackageSpecView>, id: PackageIdView) -> bool {
    exists|i: int| 0 <= i < specs.len() && (#[trigger] specs[i]).names(id)
}

/// The packages that should be used again: those that should not be updated.
pub open spec fn kept_ids(locked: Seq<PackageIdView>, specs: Seq<PackageSpecView>) -> Seq<
    PackageIdView,
>
    decreases locked.len(),
{
    if locked.len() == 0 {
        Seq::empty()
    } else {
        let before = kept_ids(locked.drop_last(), specs);
        if is_target(specs, locked.last()) {
            before
        } else {
            ordered::with_key(before, locked.last())
        }
    }
}

/// How many of the packages of the lockfile should be updated.
pub open spec fn selected_count(specs: Seq<PackageSpecView>, locked: Seq<PackageIdView>) -> int {
    locked.len() - if specs.len() == 0 {
        0
    } else {
        kept_ids(locked, specs).len() as int
    }
}

impl UpdateSubcommand {
    /// Whether a package is one of those that should be updated.
    pub fn given_package_id_satisifies_targets(&self, package_id: &PackageId) -> (target: bool)
        ensures
            target == is_target(self.package_specs.deep_view(), package_id@),
    {
        let ghost specs = self.package_specs.deep_view();
        let mut i: usize = 0;
        while i < self.package_specs.len()
            invariant
                i <= self.package_specs@.len(),
                specs == self.package_specs.deep_view(),
                forall|j: int| 0 <= j < i ==> !(#[trigger] specs[j]).names(package_id@),
            decreases self.package_specs@.len() - i,
        {
            let spec: &PackageSpec = &self.package_specs[i];
            assert(specs[i as int] == spec@);
            if spec.names(package_id) {
                return true;
            }
            i += 1;
        }
        false
    }

    /// The packages of the lockfile that resolution should use again: none if
    /// all should be updated, else those that should not be.
    pub fn try_to_use(&self, locked: &Vec<PackageId>) -> (kept: OrdSet<PackageId>)
        ensures
            kept@ == if self.package_specs@.len() == 0 {
                Seq::<PackageIdView>::empty()
            } else {
                kept_ids(locked.deep_view(), self.package_specs.deep_view())
            },
    {
        let mut kept: OrdSet<PackageId> = OrdSet::new();
        if self.package_specs.len() == 0 {
            return kept;
        }
        let ghost all = locked.deep_view();
        let mut i: usize = 0;
        assert(all.take(0) =~= Seq::<PackageIdView>::empty());
        while i < locked.len()
            invariant
                i <= locked@.len(),
                all == locked.deep_view(),
                kept@ == kept_ids(all.take(i as int), self.package_specs.deep_view()),
            decreases locked@.len() - i,
        {
            let id: &PackageId = &locked[i];
            proof {
                assert(all[i as int] == id@);
                assert(all.take(i + 1).last() == id@);
                assert(all.take(i + 1).drop_last() =~= all.take(i as int));
            }
            if !self.given_package_id_satisifies_targets(id) {
                kept.insert(id.duplicate());
            }
            i += 1;
        }
        assert(all.take(all.len() as int) =~= all);
        kept
    }

    /// How many of the packages of the lockfile should be updated.
    pub fn selected(&self, locked: &Vec<PackageId>) -> (count: usize)
        ensures
            count == selected_count(self.package_specs.deep_view(), locked.deep_view()),
            count == locked@.len() - if self.package_specs@.len() == 0 {
                0
            } else {
                kept_ids(locked.deep_view(), self.package_specs.deep_view()).len() as int
            },
    {
        proof {
            law_only_targets_are_updated(
                locked.deep_view(),
                self.package_specs.deep_view(),
                0,
            );
        }
        locked.len() - self.try_to_use(locked).len()
    }

    /// Resolves a workspace, with those packages that its lockfile holds and
    /// that should not be updated, and prepares its installation.
    pub fn run(
        &self,
        workspace: &Workspace,
        locked: &Vec<PackageId>,
        package_sources: &PackageSourceMap,
        canonical: &CanonicalPaths,
    ) -> (updated: Result<Installation, ResolveError>)
        requires
            workspace@.is_concrete(),
        ensures
            plain::outcome(updated) == update_outcome(
                self.package_specs.deep_view(),
                workspace@,
                locked.deep_view(),
                package_sources@,
                canonical@,
            ),
    {
        let try_to_use: OrdSet<PackageId> = self.try_to_use(locked);
        match resolve_workspace(workspace, &try_to_use, package_sources, canonical) {
            Ok(resolved) => {
                proof {
                    installation::laws::law_resolved_workspace_is_installable(
                        install::member_ids(workspace@.members),
                        workspace@,
                        try_to_use@,
                        package_sources@,
                        canonical@,
                    );
                }
                Ok(install::prepare_installation(workspace, resolved))
            },
            Err(error) => Err(error),
        }
    }
}

/// The installation of a workspace after an update, or why there is none.
pub open spec fn update_outcome(
    specs: Seq<PackageSpecView>,
    workspace: WorkspaceView,
    locked: Seq<PackageIdView>,
    sources: PackageSourceMapView,
    canonical: CanonicalPathsView,
) -> Result<InstallationOutcome, ResolveErrorView> {
    let try_to_use = if specs.len() == 0 {
        Seq::<PackageIdView>::empty()
    } else {
        kept_ids(locked, specs)
    };
    match install::resolved_workspace(workspace, try_to_use, sources, canonical) {
        Ok(resolved) => Ok(install::installation_of(workspace, resolved)),
        Err(error) => Err(error),
    }
}

/// The packages that are used again are exactly those of the lockfile that
/// should not be updated.
pub proof fn law_only_targets_are_updated(
    locked: Seq<PackageIdView>,
    specs: Seq<PackageSpecView>,
    i: int,
)
    ensures
        ordered::ascending(kept_ids(locked, specs)),
        kept_ids(locked, specs).len() <= locked.len(),
        0 <= i < locked.len() && !is_target(specs, locked[i]) ==> ordered::holds(
            kept_ids(locked, specs),
            locked[i],
        ),
        0 <= i < kept_ids(locked, specs).len() ==> locked.contains(kept_ids(locked, specs)[i])
            && !is_target(specs, kept_ids(locked, specs)[i]),
    decreases locked.len(),
{
    if locked.len() > 0 {
        let fewer = locked.drop_last();
        let last = locked.last();
        let before = kept_ids(fewer, specs);
        let kept = kept_ids(locked, specs);
        law_only_targets_are_updated(fewer, specs, i);
        ordered::lemma_with_key(before, last);
        ordered::lemma_place_exists(before, last);
        if 0 <= i < fewer.len() {
            assert(fewer[i] == locked[i]);
        }
        if 0 <= i < kept.len() {
            if kept[i] == last && !is_target(specs, last) {
                assert(locked[locked.len() - 1] == last);
            } else {
                assert(before.contains(kept[i]));
                let k = choose|k: int| 0 <= k < before.len() && before[k] == kept[i];
                law_only_targets_are_updated(fewer, specs, k);
                let n = choose|n: int| 0 <= n < fewer.len() && fewer[n] == before[k];
                assert(locked[n] == kept[i]);
            }
        }
    } else {
        assert(ordered::ascending(Seq::<PackageIdView>::empty()));
    }
}

/// A package is named by one of the specs: by its name, or by a requirement on a
/// package of its name that its version meets.
pub open spec fn is_named(specs: Seq<PackageSpecView>, id: PackageIdView) -> bool {
    exists|s: int|
        {
            &&& 0 <= s < specs.len()
            &&& #[trigger] specs[s] matches PackageSpecView::Named(name) ==> name == id.name
            &&& specs[s] matches PackageSpecView::Required(req) ==> req.name == id.name
                && version_req::req_matches(req.version_req, id.version)
        }
}

proof fn lemma_named(specs: Seq<PackageSpecView>, id: PackageIdView)
    ensures
        is_named(specs, id) <==> is_target(specs, id),
{
    if is_target(specs, id) {
        let s = choose|s: int| 0 <= s < specs.len() && (#[trigger] specs[s]).names(id);
    }
    if is_named(specs, id) {
        let s = choose|s: int|
            {
                &&& 0 <= s < specs.len()
                &&& #[trigger] specs[s] matches PackageSpecView::Named(name) ==> name == id.name
                &&& specs[s] matches PackageSpecView::Required(req) ==> req.name == id.name
                    && version_req::req_matches(req.version_req, id.version)
            };
        assert(specs[s].names(id));
    }
}

/// An update that names packages leaves the others alone: whatever is named,
/// resolution uses again the packages of the lockfile that are not named, and no
/// others. An update that names none uses none again.
pub proof fn law_updates_leave_the_others_alone(
    specs: Seq<PackageSpecView>,
    workspace: WorkspaceView,
    locked: Seq<PackageIdView>,
    sources: PackageSourceMapView,
    canonical: CanonicalPathsView,
    kept: Seq<PackageIdView>,
)
    requires
        workspace.is_sound(),
        sources.answers_fit(),
        forall|k: int|
            0 <= k < kept.len() ==> specs.len() > 0 && locked.contains(#[trigger] kept[k])
                && !is_named(specs, kept[k]),
        forall|i: int|
            0 <= i < locked.len() && specs.len() > 0 && !is_named(
                specs,
                #[trigger] locked[i],
            ) ==> ordered::holds(kept, locked[i]),
    ensures
        ({
            let outcome = resolution::outcome(
                resolution::workspace_start(workspace.members),
                resolution::ContextView {
                    try_to_use: kept,
                    sources,
                    members: workspace.members,
                    canonical,
                },
            );
            match update_outcome(specs, workspace, locked, sources, canonical) {
                Ok(updated) => {
                    &&& outcome == Ok::<_, ResolveErrorView>(updated.resolved)
                    &&& updated == install::installation_of(workspace, updated.resolved)
                },
                Err(error) => outcome == Err::<resolution::ResolveView, _>(error),
            }
        }),
{
    let used = if specs.len() == 0 {
        Seq::<PackageIdView>::empty()
    } else {
        kept_ids(locked, specs)
    };
    assert forall|id: PackageIdView| is_named(specs, id) <==> #[trigger] is_target(specs, id) by {
        lemma_named(specs, id);
    }
    assert forall|id: PackageIdView| #[trigger]
        ordered::holds(kept, id) <==> ordered::holds(used, id) by {
        if ordered::holds(kept, id) {
            let k = choose|k: int|
                0 <= k < kept.len() && ordered::Ranked::sort_key(#[trigger] kept[k])
                    == ordered::Ranked::sort_key(id);
            let i = choose|i: int| 0 <= i < locked.len() && locked[i] == kept[k];
            assert(!is_target(specs, kept[k]));
            law_only_targets_are_updated(locked, specs, i);
            assert(ordered::holds(used, locked[i]));
        }
        if ordered::holds(used, id) {
            let k = choose|k: int|
                0 <= k < used.len() && ordered::Ranked::sort_key(#[trigger] used[k])
                    == ordered::Ranked::sort_key(id);
            law_only_targets_are_updated(locked, specs, k);
            assert(!is_target(specs, used[k]));
            let i = choose|i: int| 0 <= i < locked.len() && locked[i] == used[k];
            assert(ordered::holds(kept, locked[i]));
        }
    }
    let context = resolution::laws::workspace_context(workspace, kept, sources, canonical);
    resolution::laws::lemma_workspace_is_state(workspace, kept, sources, canonical);
    resolution::stable::law_locks_count_by_what_they_hold(
        resolution::workspace_start(workspace.members),
        context,
        used,
    );
}

/// What is read as a package to update is a package name, or one with an `@` and a
/// requirement that can be read behind it.
pub proof fn law_specs_are_names_and_requirements(text: Seq<char>)
    ensures
        is_package_name(text) <==> exists|scope: Seq<char>, name: Seq<char>|
            {
                &&& text == #[trigger] (scope + seq!['/'] + name)
                &&& package_name::is_part(scope)
                &&& package_name::is_part(name)
            },
        is_package_req(text) <==> exists|name: Seq<char>, requirement: Seq<char>|
            {
                &&& text == #[trigger] (name + seq!['@'] + requirement)
                &&& is_package_name(name)
                &&& version_req::requirement_text(requirement) is Ok
            },
{
    lemma_package_name(text);
    let at = text::index_of(text, '@');
    text::lemma_index_of(text, '@');
    let before = text.subrange(0, at);
    let behind = text.subrange(at + 1, text.len() as int);
    if is_package_req(text) {
        assert(text =~= before + seq!['@'] + behind);
    }
    if exists|name: Seq<char>, requirement: Seq<char>|
        {
            &&& text == #[trigger] (name + seq!['@'] + requirement)
            &&& is_package_name(name)
            &&& version_req::requirement_text(requirement) is Ok
        } {
        let (name, requirement) = choose|name: Seq<char>, requirement: Seq<char>|
            {
                &&& text == #[trigger] (name + seq!['@'] + requirement)
                &&& is_package_name(name)
                &&& version_req::requirement_text(requirement) is Ok
            };
        lemma_package_name(name);
        assert forall|i: int| 0 <= i < name.len() implies text[i] != '@' by {
            assert(text[i] == name[i]);
            assert(name.contains(name[i]));
        }
        assert(text[name.len() as int] == '@');
        text::lemma_index_of_is(text, '@', name.len() as int);
        assert(before =~= name);
        assert(behind =~= requirement);
    }
}

proof fn lemma_package_name(text: Seq<char>)
    ensures
        is_package_name(text) <==> exists|scope: Seq<char>, name: Seq<char>|
            {
                &&& text == #[trigger] (scope + seq!['/'] + name)
                &&& package_name::is_part(scope)
                &&& package_name::is_part(name)
            },
        is_package_name(text) ==> !text.contains('@'),
{
    let at = text::index_of(text, '/');
    text::lemma_index_of(text, '/');
    let before = text.subrange(0, at);
    let behind = text.subrange(at + 1, text.len() as int);
    let view = PackageNameView { scope: before, name: behind };
    if is_package_name(text) {
        package_name::law_names_are_a_scope_and_a_name(text, Ok(view));
        assert(text == before + seq!['/'] + behind);
        assert forall|i: int| 0 <= i < text.len() implies text[i] != '@' by {
            if i < at {
                assert(text[i] == before[i]);
            } else if i > at {
                assert(text[i] == behind[i - at - 1]);
            }
        }
    }
    if exists|scope: Seq<char>, name: Seq<char>|
        {
            &&& text == #[trigger] (scope + seq!['/'] + name)
            &&& package_name::is_part(scope)
            &&& package_name::is_part(name)
        } {
        let (scope, name) = choose|scope: Seq<char>, name: Seq<char>|
            {
                &&& text == #[trigger] (scope + seq!['/'] + name)
                &&& package_name::is_part(scope)
                &&& package_name::is_part(name)
            };
        package_name::law_names_are_a_scope_and_a_name(text, Ok(PackageNameView { scope, name }));
    }
}

/// As many packages of a lockfile, which holds each once and in order, are said to
/// be updated as are named, and all of them where none is named.
pub proof fn law_named_packages_are_counted(
    specs: Seq<PackageSpecView>,
    locked: Seq<PackageIdView>,
)
    requires
        ordered::ascending(locked),
    ensures
        specs.len() == 0 ==> selected_count(specs, locked) == locked.len(),
        specs.len() > 0 ==> selected_count(specs, locked) == locked.filter(
            |id: PackageIdView| is_named(specs, id),
        ).len(),
    decreases locked.len(),
{
    reveal(Seq::filter);
    if locked.len() > 0 && specs.len() > 0 {
        let fewer = locked.drop_last();
        let last = locked.last();
        let before = kept_ids(fewer, specs);
        assert forall|i: int, j: int|
            #![trigger fewer[i], fewer[j]]
            0 <= i < j < fewer.len() implies order::precedes(
            ordered::Ranked::sort_key(fewer[i]),
            ordered::Ranked::sort_key(fewer[j]),
        ) by {
            assert(fewer[i] == locked[i] && fewer[j] == locked[j]);
        }
        law_named_packages_are_counted(specs, fewer);
        lemma_named(specs, last);
        if ordered::holds(before, last) {
            let k = choose|k: int|
                0 <= k < before.len() && ordered::Ranked::sort_key(#[trigger] before[k])
                    == ordered::Ranked::sort_key(last);
            law_only_targets_are_updated(fewer, specs, k);
            let n = choose|n: int| 0 <= n < fewer.len() && fewer[n] == before[k];
            assert(locked[n] == fewer[n]);
            assert(locked[locked.len() - 1] == last);
            order::lemma_irreflexive(ordered::Ranked::sort_key(last));
        }
        law_only_targets_are_updated(fewer, specs, 0);
        ordered::lemma_place_exists(before, last);
    }
}

} // verus!
