//! Requirements on packages.

use vstd::prelude::*;

use crate::package_id::{PackageId, PackageIdView};
use crate::package_name;
use crate::package_name::{PackageName, PackageNameError, PackageNameView};
use crate::plain::Plain;
use crate::text;
use crate::version;
use crate::version::{Version, VersionView};
use crate::version_req;
use crate::version_req::{VersionReq, VersionReqView};

verus! {

/// A package and a requirement on its version, written `scope/name@requirement`.
#[derive(Debug, PartialEq, Eq, Hash)]
pub struct PackageReq {
    name: PackageName,
    version_req: VersionReq,
}

/// What a package requirement holds.
#[verifier::ext_equal]
pub struct PackageReqView {
    pub name: PackageNameView,
    pub version_req: VersionReqView,
}

impl View for PackageReq {
    type V = PackageReqView;

    closed spec fn view(&self) -> PackageReqView {
        PackageReqView { name: self.name@, version_req: self.version_req@ }
    }
}

impl DeepView for PackageReq {
    type V = PackageReqView;

    open spec fn deep_view(&self) -> PackageReqView {
        self.view()
    }
}

impl PackageReqView {
    /// Whether a package at a version meets the requirement.
    pub open spec fn matches(self, name: PackageNameView, version: VersionView) -> bool {
        self.name == name && version_req::req_matches(self.version_req, version)
    }

    /// Whether a package at a version meets the requirement.
    pub open spec fn matches_id(self, id: PackageIdView) -> bool {
        self.matches(id.name, id.version)
    }
}

/// How a package requirement is written.
pub open spec fn package_req_text(req: PackageReqView) -> Seq<char> {
    package_name::name_text(req.name) + "@"@ + version_req::req_text(req.version_req)
}

/// Why a text is not a package requirement.
#[derive(Debug, PartialEq, Eq)]
pub enum PackageReqError {
    /// It has no `@`.
    Format,
    /// What stands before the `@` is not a package name.
    Name(PackageNameError),
    /// What stands after the `@` is not a requirement, for this reason.
    VersionReq(String),
}

impl PackageReqError {
    /// The error as a sentence.
    pub fn message(&self) -> (message: String)
        ensures
            self is Format ==> message@
                == "a package requirement is of the form SCOPE/NAME@VERSION_REQ"@,
            self matches PackageReqError::VersionReq(reason) ==> message@
                == "could not parse version requirement: "@ + reason@,
            self matches PackageReqError::Name(error) ==> message@ == error.text(),
    {
        match self {
            PackageReqError::Format => {
                "a package requirement is of the form SCOPE/NAME@VERSION_REQ".to_owned()
            },
            PackageReqError::Name(error) => error.message(),
            PackageReqError::VersionReq(reason) => {
                let mut message: String = "could not parse version requirement: ".to_owned();
                message.append(reason.as_str());
                message
            },
        }
    }
}

impl Plain for PackageReq {
    fn duplicate(&self) -> (copy: Self) {
        PackageReq { name: self.name.duplicate(), version_req: self.version_req.duplicate() }
    }
}

impl Clone for PackageReq {
    fn clone(&self) -> (copy: Self)
        ensures
            copy@ == self@,
    {
        self.duplicate()
    }
}

impl PackageReq {
    pub fn new(name: PackageName, version_req: VersionReq) -> (req: PackageReq)
        ensures
            req@ == (PackageReqView { name: name@, version_req: version_req@ }),
    {
        PackageReq { name, version_req }
    }

    /// Reads `scope/name@requirement`. What follows the first `@` is the
    /// requirement on the version.
    pub fn parse(text: &str) -> (parsed: Result<PackageReq, PackageReqError>)
        requires
            requirement_fits(text@),
        ensures
            reads_package_req(text@, parsed),
    {
        let chars: Vec<char> = text::characters(text);
        let at: usize = text::find(text, '@');
        if at == chars.len() {
            return Err(PackageReqError::Format);
        }
        let name: String = text::slice(text, 0, at);
        let requirement: String = text::slice(text, at + 1, chars.len());
        let name: PackageName = match PackageName::parse(name.as_str()) {
            Ok(name) => name,
            Err(error) => {
                return Err(PackageReqError::Name(error));
            },
        };
        match VersionReq::parse(requirement.as_str()) {
            Ok(version_req) => Ok(PackageReq { name, version_req }),
            Err(reason) => Err(PackageReqError::VersionReq(reason)),
        }
    }

    pub fn name(&self) -> (name: &PackageName)
        ensures
            name@ == self@.name,
    {
        &self.name
    }

    pub fn version_req(&self) -> (version_req: &VersionReq)
        ensures
            version_req@ == self@.version_req,
    {
        &self.version_req
    }

    /// Whether a package at a version meets the requirement.
    pub fn matches(&self, name: &PackageName, version: &Version) -> (matches: bool)
        ensures
            matches == self@.matches(name@, version@),
    {
        self.name.is_same(name) && self.version_req.matches(version)
    }

    /// Whether a package at a version meets the requirement.
    pub fn matches_id(&self, id: &PackageId) -> (matches: bool)
        ensures
            matches == self@.matches_id(id@),
    {
        self.matches(id.name(), id.version())
    }

    /// The requirement as text.
    pub fn to_text(&self) -> (written: String)
        ensures
            written@ == package_req_text(self@),
    {
        let mut written: String = self.name.to_text();
        written.append("@");
        written.append(self.version_req.to_text().as_str());
        written
    }

    /// Whether two requirements hold the same.
    pub fn is_same(&self, other: &PackageReq) -> (same: bool)
        ensures
            same == (self@ == other@),
    {
        let same: bool = self.name.is_same(&other.name) && self.version_req.is_same(
            &other.version_req,
        );
        assert(same ==> self@ =~= other@);
        same
    }
}

/// The numbers in what follows the first `@`, if there is one, are small enough
/// for it to be read as a requirement on a version.
pub open spec fn requirement_fits(text: Seq<char>) -> bool {
    let at = text::index_of(text, '@');
    at < text.len() ==> version_req::numbers_fit(text.subrange(at + 1, text.len() as int))
}

/// Whether the numbers in `text` are small enough for it to be read as a package
/// requirement.
pub fn check_requirement(text: &str) -> (fits: bool)
    ensures
        fits == requirement_fits(text@),
{
    let chars: Vec<char> = text::characters(text);
    let at: usize = text::find(text, '@');
    if at == chars.len() {
        return true;
    }
    version_req::check_numbers(text::slice(text, at + 1, chars.len()).as_str())
}

/// Whether `parsed` is what the text writes as a package requirement, or why
/// it writes none.
pub open spec fn reads_package_req(
    text: Seq<char>,
    parsed: Result<PackageReq, PackageReqError>,
) -> bool {
    let at = text::index_of(text, '@');
    let name = text.subrange(0, at);
    let requirement = text.subrange(at + 1, text.len() as int);
    match parsed {
        Ok(req) => {
            &&& at < text.len()
            &&& package_name::reads_name(name, Ok(req@.name))
            &&& version_req::requirement_text(requirement) is Ok
            &&& req@.version_req == VersionReqView::Parsed(requirement)
        },
        Err(PackageReqError::Format) => at == text.len(),
        Err(PackageReqError::Name(error)) => at < text.len() && package_name::reads_name(
            name,
            Err(error),
        ),
        Err(PackageReqError::VersionReq(reason)) => {
            &&& at < text.len()
            &&& exists|view: PackageNameView| #[trigger] package_name::reads_name(name, Ok(view))
            &&& version_req::requirement_text(requirement) == Err::<Seq<char>, Seq<char>>(reason@)
        },
    }
}

/// A text is read as a package requirement exactly if it is a scope, a `/`, a name,
/// an `@` and a requirement that can be read, and those are what is read. Where it
/// is not read it has no `@`, or no package name stands before the first one, or
/// what stands behind it cannot be read for the reason that is given.
pub proof fn law_requirements_are_a_name_and_a_requirement(
    text: Seq<char>,
    parsed: Result<PackageReq, PackageReqError>,
)
    ensures
        reads_package_req(text, parsed) <==> match parsed {
            Ok(req) => req@.version_req matches VersionReqView::Parsed(requirement) && {
                &&& text == req@.name.scope + seq!['/'] + req@.name.name + seq!['@'] + requirement
                &&& package_name::is_part(req@.name.scope)
                &&& package_name::is_part(req@.name.name)
                &&& version_req::requirement_text(requirement) is Ok
            },
            Err(PackageReqError::Format) => !text.contains('@'),
            Err(PackageReqError::Name(error)) => exists|name: Seq<char>, requirement: Seq<char>|
                {
                    &&& text == #[trigger] (name + seq!['@'] + requirement)
                    &&& !name.contains('@')
                    &&& package_name::reads_name(name, Err(error))
                },
            Err(PackageReqError::VersionReq(reason)) => exists|
                name: PackageNameView,
                requirement: Seq<char>,
            |
                {
                    &&& text == #[trigger] (name.scope + seq!['/'] + name.name + seq!['@']
                        + requirement)
                    &&& package_name::is_part(name.scope)
                    &&& package_name::is_part(name.name)
                    &&& version_req::requirement_text(requirement) == Err::<Seq<char>, Seq<char>>(
                        reason@,
                    )
                },
        },
{
    let at = text::index_of(text, '@');
    text::lemma_index_of(text, '@');
    let before = text.subrange(0, at);
    let behind = text.subrange(at + 1, text.len() as int);
    if at < text.len() {
        assert(text =~= before + seq!['@'] + behind);
        assert(text[at] == '@');
        assert(text.contains('@'));
        assert(!before.contains('@'));
    }
    match parsed {
        Ok(req) => {
            let name = req@.name;
            package_name::law_names_are_a_scope_and_a_name(before, Ok(name));
            if let VersionReqView::Parsed(requirement) = req@.version_req {
                if text == name.scope + seq!['/'] + name.name + seq!['@'] + requirement
                    && package_name::is_part(name.scope) && package_name::is_part(name.name) {
                    lemma_before_at(text, name.scope + seq!['/'] + name.name, requirement);
                }
            }
        },
        Err(PackageReqError::Format) => {},
        Err(PackageReqError::Name(error)) => {
            if exists|name: Seq<char>, requirement: Seq<char>|
                {
                    &&& text == #[trigger] (name + seq!['@'] + requirement)
                    &&& !name.contains('@')
                    &&& package_name::reads_name(name, Err(error))
                } {
                let (name, requirement) = choose|name: Seq<char>, requirement: Seq<char>|
                    {
                        &&& text == #[trigger] (name + seq!['@'] + requirement)
                        &&& !name.contains('@')
                        &&& package_name::reads_name(name, Err(error))
                    };
                lemma_before_at(text, name, requirement);
            }
        },
        Err(PackageReqError::VersionReq(reason)) => {
            if reads_package_req(text, parsed) {
                let name = choose|view: PackageNameView| #[trigger]
                    package_name::reads_name(before, Ok(view));
                package_name::law_names_are_a_scope_and_a_name(before, Ok(name));
                assert(text == name.scope + seq!['/'] + name.name + seq!['@'] + behind);
            }
            if exists|name: PackageNameView, requirement: Seq<char>|
                {
                    &&& text == #[trigger] (name.scope + seq!['/'] + name.name + seq!['@']
                        + requirement)
                    &&& package_name::is_part(name.scope)
                    &&& package_name::is_part(name.name)
                    &&& version_req::requirement_text(requirement) == Err::<Seq<char>, Seq<char>>(
                        reason@,
                    )
                } {
                let (name, requirement) = choose|name: PackageNameView, requirement: Seq<char>|
                    {
                        &&& text == #[trigger] (name.scope + seq!['/'] + name.name + seq!['@']
                            + requirement)
                        &&& package_name::is_part(name.scope)
                        &&& package_name::is_part(name.name)
                        &&& version_req::requirement_text(requirement) == Err::<
                            Seq<char>,
                            Seq<char>,
                        >(reason@)
                    };
                lemma_before_at(text, name.scope + seq!['/'] + name.name, requirement);
                package_name::law_names_are_a_scope_and_a_name(before, Ok(name));
            }
        },
    }
}

proof fn lemma_before_at(text: Seq<char>, before: Seq<char>, behind: Seq<char>)
    requires
        text == before + seq!['@'] + behind,
        !before.contains('@'),
    ensures
        text::index_of(text, '@') == before.len(),
        text.subrange(0, before.len() as int) == before,
        text.subrange(before.len() as int + 1, text.len() as int) == behind,
        text.contains('@'),
{
    let at = before.len() as int;
    assert forall|i: int| 0 <= i < at implies text[i] != '@' by {
        assert(text[i] == before[i]);
        assert(before.contains(before[i]));
    }
    assert(text[at] == '@');
    text::lemma_index_of_is(text, '@', at);
    assert(text.subrange(0, at) =~= before);
    assert(text.subrange(at + 1, text.len() as int) =~= behind);
}

/// A package meets a requirement if it has the name and its version meets the
/// requirement on versions. One that pins a version is met by that version alone,
/// whatever its build metadata.
pub proof fn law_requirements_are_met_by_name_and_version(req: PackageReqView, id: PackageIdView)
    ensures
        req.matches_id(id) ==> req.name.scope == id.name.scope && req.name.name == id.name.name,
        req.matches_id(id) <==> req.matches(id.name, id.version),
        req.version_req matches VersionReqView::Exact(exact) ==> (req.matches_id(id)
            <==> req.name == id.name && exact.major == id.version.major && exact.minor
            == id.version.minor && exact.patch == id.version.patch && exact.pre
            == id.version.pre),
        req.version_req matches VersionReqView::Parsed(source) ==> (req.matches_id(id)
            <==> req.name == id.name && version_req::requirement_matches(source, id.version)),
        package_req_text(req) == req.name.scope + "/"@ + req.name.name + "@"@
            + version_req::req_text(req.version_req),
        req.version_req matches VersionReqView::Exact(exact) ==> version_req::req_text(
            req.version_req,
        ) == "="@ + version::precedence_text(exact),
{
}

} // verus!
