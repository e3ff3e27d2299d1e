//! Where packages come from.

use vstd::prelude::*;

use crate::dependency_spec::DependencySpec;
use crate::manifest::{DependencyMap, DependencyMapView, Manifest, ManifestView};
use crate::package_name::PackageNameView;
use crate::package_req::{PackageReq, PackageReqView};
use crate::path::PathBuf;
use crate::plain::Plain;
use crate::text;

pub mod path;

verus! {

/// Names a source of packages.
#[derive(Debug, PartialEq, Eq)]
pub enum PackageSourceId {
    DefaultRegistry,
    /// The registry with this address.
    Git(String),
    /// A local directory.
    Path(PathBuf),
}

/// What names a source of packages.
pub enum PackageSourceIdView {
    DefaultRegistry,
    Git(Seq<char>),
    Path(Seq<char>),
}

impl View for PackageSourceId {
    type V = PackageSourceIdView;

    open spec fn view(&self) -> PackageSourceIdView {
        match self {
            PackageSourceId::DefaultRegistry => PackageSourceIdView::DefaultRegistry,
            PackageSourceId::Git(address) => PackageSourceIdView::Git(address@),
            PackageSourceId::Path(path) => PackageSourceIdView::Path(path@),
        }
    }
}

impl DeepView for PackageSourceId {
    type V = PackageSourceIdView;

    open spec fn deep_view(&self) -> PackageSourceIdView {
        self.view()
    }
}

impl Plain for PackageSourceId {
    fn duplicate(&self) -> (copy: Self) {
        match self {
            PackageSourceId::DefaultRegistry => PackageSourceId::DefaultRegistry,
            PackageSourceId::Git(address) => PackageSourceId::Git(address.clone()),
            PackageSourceId::Path(path) => PackageSourceId::Path(path.duplicate()),
        }
    }
}

impl Clone for PackageSourceId {
    fn clone(&self) -> (copy: Self)
        ensures
            copy@ == self@,
    {
        self.duplicate()
    }
}

impl PackageSourceId {
    /// Whether two names are written the same.
    pub fn is_same(&self, other: &PackageSourceId) -> (same: bool)
        ensures
            same == (self@ == other@),
    {
        match (self, other) {
            (PackageSourceId::DefaultRegistry, PackageSourceId::DefaultRegistry) => true,
            (PackageSourceId::Git(a), PackageSourceId::Git(b)) => text::same_text(
                a.as_str(),
                b.as_str(),
            ),
            (PackageSourceId::Path(a), PackageSourceId::Path(b)) => text::same_text(
                a.as_str(),
                b.as_str(),
            ),
            _ => false,
        }
    }
}

/// What a source said when it was asked for the packages that meet a
/// requirement.
#[derive(Debug, PartialEq, Eq)]
pub struct Answer {
    pub source: PackageSourceId,
    pub req: PackageReq,
    /// The manifests that it found, or nothing if the query failed.
    pub manifests: Option<Vec<Manifest>>,
}

/// What an answer holds.
#[verifier::ext_equal]
pub struct AnswerView {
    pub source: PackageSourceIdView,
    pub req: PackageReqView,
    pub manifests: Option<Seq<ManifestView>>,
}

impl View for Answer {
    type V = AnswerView;

    open spec fn view(&self) -> AnswerView {
        AnswerView {
            source: self.source@,
            req: self.req@,
            manifests: self.manifests.deep_view(),
        }
    }
}

impl DeepView for Answer {
    type V = AnswerView;

    open spec fn deep_view(&self) -> AnswerView {
        self.view()
    }
}

impl Plain for Answer {
    fn duplicate(&self) -> (copy: Self) {
        Answer {
            source: self.source.duplicate(),
            req: self.req.duplicate(),
            manifests: self.manifests.duplicate(),
        }
    }
}

/// The sources of packages, in order of priority, and what they answered.
#[derive(Debug, PartialEq, Eq)]
pub struct PackageSourceMap {
    order: Vec<PackageSourceId>,
    answers: Vec<Answer>,
}

/// What is known of the sources of packages.
#[verifier::ext_equal]
pub struct PackageSourceMapView {
    pub order: Seq<PackageSourceIdView>,
    pub answers: Seq<AnswerView>,
}

impl View for PackageSourceMap {
    type V = PackageSourceMapView;

    closed spec fn view(&self) -> PackageSourceMapView {
        PackageSourceMapView {
            order: self.order.deep_view(),
            answers: self.answers.deep_view(),
        }
    }
}

impl DeepView for PackageSourceMap {
    type V = PackageSourceMapView;

    open spec fn deep_view(&self) -> PackageSourceMapView {
        self.view()
    }
}

/// All dependencies come from registries.
pub open spec fn only_registry(deps: DependencyMapView) -> bool {
    forall|i: int| 0 <= i < deps.len() ==> (#[trigger] deps[i]).1 is Registry
}

/// What a package depends on, where it is depended on itself, comes from
/// registries.
pub open spec fn is_published(manifest: ManifestView) -> bool {
    &&& only_registry(manifest.dependencies)
    &&& only_registry(manifest.server_dependencies)
}

/// All manifests are of packages with this name.
pub open spec fn all_named(manifests: Seq<ManifestView>, name: PackageNameView) -> bool {
    forall|i: int| 0 <= i < manifests.len() ==> (#[trigger] manifests[i]).package.name == name
}

/// All manifests of an answer are of the package that was asked for.
pub open spec fn answer_fits(req: PackageReqView, manifests: Option<Seq<ManifestView>>) -> bool {
    manifests matches Some(manifests) ==> all_named(manifests, req.name)
}

impl PackageSourceMapView {
    /// All answers fit.
    pub open spec fn answers_fit(self) -> bool {
        forall|i: int|
            0 <= i < self.answers.len() ==> answer_fits(
                (#[trigger] self.answers[i]).req,
                self.answers[i].manifests,
            )
    }

    /// Where the answer of `source` to `req` stands among the answers from `from` on.
    pub open spec fn answer_index(
        self,
        source: PackageSourceIdView,
        req: PackageReqView,
        from: int,
    ) -> int
        decreases self.answers.len() - from,
    {
        if from >= self.answers.len() || (self.answers[from].source == source
            && self.answers[from].req == req) {
            from
        } else {
            self.answer_index(source, req, from + 1)
        }
    }

    /// What `source` answered to `req`: nothing yet, that the query failed, or
    /// the manifests that it found.
    pub open spec fn answer(self, source: PackageSourceIdView, req: PackageReqView) -> Option<
        Option<Seq<ManifestView>>,
    > {
        let at = self.answer_index(source, req, 0);
        if at < self.answers.len() {
            Some(self.answers[at].manifests)
        } else {
            None
        }
    }
}

/// Whether what a package depends on, where it is depended on itself, comes from
/// registries.
pub(crate) fn check_published(manifest: &Manifest) -> (published: bool)
    ensures
        published == is_published(manifest@),
{
    check_only_registry(&manifest.dependencies) && check_only_registry(
        &manifest.server_dependencies,
    )
}

fn check_only_registry(deps: &DependencyMap) -> (fits: bool)
    ensures
        fits == only_registry(deps@),
{
    let mut i: usize = 0;
    while i < deps.len()
        invariant
            i <= deps@.len(),
            forall|j: int| 0 <= j < i ==> (#[trigger] deps@[j]).1 is Registry,
        decreases deps@.len() - i,
    {
        match deps.value_at(i) {
            DependencySpec::Registry(_) => {},
            _ => {
                assert(!(deps@[i as int].1 is Registry));
                return false;
            },
        }
        i += 1;
    }
    true
}

/// Whether manifests can be the answer to `req`.
pub fn check_answer(req: &PackageReq, manifests: &Vec<Manifest>) -> (fits: bool)
    ensures
        fits == answer_fits(req@, Some(manifests.deep_view())),
{
    let mut i: usize = 0;
    let ghost all = manifests.deep_view();
    while i < manifests.len()
        invariant
            i <= manifests@.len(),
            all == manifests.deep_view(),
            forall|j: int| 0 <= j < i ==> (#[trigger] all[j]).package.name == req@.name,
        decreases manifests@.len() - i,
    {
        let manifest: &Manifest = &manifests[i];
        assert(all[i as int] == manifest@);
        if !manifest.package.name.is_same(req.name()) {
            assert(!all_named(all, req@.name));
            return false;
        }
        i += 1;
    }
    true
}

impl PackageSourceMap {
    #[verifier::type_invariant]
    spec fn fits(self) -> bool {
        self@.answers_fit()
    }

    /// The default registry alone, which has answered nothing.
    pub fn new() -> (sources: PackageSourceMap)
        ensures
            sources@.order == seq![PackageSourceIdView::DefaultRegistry],
            sources@.answers == Seq::<AnswerView>::empty(),
    {
        let mut order: Vec<PackageSourceId> = Vec::new();
        order.push(PackageSourceId::DefaultRegistry);
        let sources = PackageSourceMap { order, answers: Vec::new() };
        assert(sources@.order =~= seq![PackageSourceIdView::DefaultRegistry]);
        assert(sources@.answers =~= Seq::<AnswerView>::empty());
        sources
    }

    /// Adds a source with the lowest priority.
    pub fn add_source(&mut self, source: PackageSourceId)
        ensures
            final(self)@.order == old(self)@.order.push(source@),
            final(self)@.answers == old(self)@.answers,
    {
        proof {
            use_type_invariant(&*self);
        }
        let mut order: Vec<PackageSourceId> = self.order.duplicate();
        order.push(source);
        assert(order.deep_view() =~= self.order.deep_view().push(source@));
        self.order = order;
    }

    /// The sources in order of priority.
    pub fn source_order(&self) -> (order: &Vec<PackageSourceId>)
        ensures
            order.deep_view() == self@.order,
            self@.answers_fit(),
    {
        proof {
            use_type_invariant(self);
        }
        &self.order
    }

    /// What a source answered: nothing yet, that the query failed, or the
    /// manifests that it found.
    pub fn get(&self, source: &PackageSourceId, req: &PackageReq) -> (answer: Option<
        Option<&Vec<Manifest>>,
    >)
        ensures
            answer.deep_view() == self@.answer(source@, req@),
    {
        let mut i: usize = 0;
        while i < self.answers.len()
            invariant
                i <= self.answers@.len(),
                self@.answer_index(source@, req@, 0) == self@.answer_index(
                    source@,
                    req@,
                    i as int,
                ),
            decreases self.answers@.len() - i,
        {
            let answer: &Answer = &self.answers[i];
            assert(self@.answers[i as int] == answer@);
            if answer.source.is_same(source) && answer.req.is_same(req) {
                return Some(
                    match &answer.manifests {
                        Some(manifests) => Some(manifests),
                        None => None,
                    },
                );
            }
            i += 1;
        }
        None
    }

    /// Notes what a source answered, or that the query failed.
    pub fn record(&mut self, source: PackageSourceId, req: PackageReq, manifests: Option<Vec<Manifest>>)
        requires
            answer_fits(req@, manifests.deep_view()),
        ensures
            final(self)@.order == old(self)@.order,
            final(self)@.answers == old(self)@.answers.push(
                AnswerView { source: source@, req: req@, manifests: manifests.deep_view() },
            ),
    {
        proof {
            use_type_invariant(&*self);
        }
        let answer = Answer { source, req, manifests };
        let mut answers: Vec<Answer> = self.answers.duplicate();
        answers.push(answer);
        assert(answers.deep_view() =~= self.answers.deep_view().push(answer@));
        assert forall|i: int| 0 <= i < answers.deep_view().len() implies answer_fits(
            (#[trigger] answers.deep_view()[i]).req,
            answers.deep_view()[i].manifests,
        ) by {
            if i < self.answers.deep_view().len() {
                assert(answers.deep_view()[i] == self@.answers[i]);
            }
        }
        let sources = PackageSourceMap { order: self.order.duplicate(), answers };
        *self = sources;
    }
}

} // verus!
