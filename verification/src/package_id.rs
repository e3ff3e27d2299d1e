//! Packages at a version.

use vstd::prelude::*;

use crate::order;
use crate::order::Order;
use crate::ordered::{Key, Ranked};
use crate::package_name;
use crate::package_name::{PackageName, PackageNameView};
use crate::plain::Plain;
use crate::version;
use crate::version::{Version, VersionView};

verus! {

/// A package at a version, written `scope/name@version`.
#[derive(Debug, PartialEq, Eq)]
pub struct PackageId {
    name: PackageName,
    version: Version,
}

/// What a package id holds.
#[verifier::ext_equal]
pub struct PackageIdView {
    pub name: PackageNameView,
    pub version: VersionView,
}

impl View for PackageId {
    type V = PackageIdView;

    closed spec fn view(&self) -> PackageIdView {
        PackageIdView { name: self.name@, version: self.version@ }
    }
}

impl DeepView for PackageId {
    type V = PackageIdView;

    open spec fn deep_view(&self) -> PackageIdView {
        self.view()
    }
}

/// Ids compare by their names first. Build metadata does not count.
pub open spec fn id_key(id: PackageIdView) -> Seq<int> {
    package_name::name_key(id.name) + version::version_key(id.version)
}

impl Ranked for PackageIdView {
    open spec fn sort_key(self) -> Seq<int> {
        id_key(self)
    }
}

/// Two ids of one package whose versions differ at most in build metadata.
pub open spec fn same_id(a: PackageIdView, b: PackageIdView) -> bool {
    a.name == b.name && version::same_version(a.version, b.version)
}

/// Ids have the same key exactly if they are the same but for build metadata.
pub proof fn lemma_id_key_injective(a: PackageIdView, b: PackageIdView)
    ensures
        id_key(a) == id_key(b) <==> same_id(a, b),
{
    package_name::lemma_name_first(
        a.name,
        version::version_key(a.version),
        b.name,
        version::version_key(b.version),
    );
    version::lemma_version_key_injective(a.version, b.version);
}

/// Ids of one package stand in the order of their versions.
pub proof fn lemma_id_key_same_name(a: PackageIdView, b: PackageIdView)
    requires
        a.name == b.name,
    ensures
        order::precedes(id_key(a), id_key(b)) <==> order::precedes(
            version::version_key(a.version),
            version::version_key(b.version),
        ),
{
    package_name::lemma_name_first(
        a.name,
        version::version_key(a.version),
        b.name,
        version::version_key(b.version),
    );
}

/// How a package id is written.
pub open spec fn id_text(id: PackageIdView) -> Seq<char> {
    package_name::name_text(id.name) + "@"@ + version::version_text(id.version)
}

impl Plain for PackageId {
    fn duplicate(&self) -> (copy: Self) {
        PackageId { name: self.name.duplicate(), version: self.version.duplicate() }
    }
}

impl Clone for PackageId {
    fn clone(&self) -> (copy: Self)
        ensures
            copy@ == self@,
    {
        self.duplicate()
    }
}

impl Key for PackageId {
    type Model = PackageIdView;

    open spec fn model(&self) -> PackageIdView {
        self@
    }

    fn compare(&self, other: &Self) -> (result: Order) {
        assert(self.model().sort_key() == id_key(self@));
        assert(other.model().sort_key() == id_key(other@));
        assert(self.name.model().sort_key() == package_name::name_key(self.name@));
        assert(other.name.model().sort_key() == package_name::name_key(other.name@));
        assert(self.version.model().sort_key() == version::version_key(self.version@));
        assert(other.version.model().sort_key() == version::version_key(other.version@));
        proof {
            package_name::lemma_name_first(
                self.name@,
                version::version_key(self.version@),
                other.name@,
                version::version_key(other.version@),
            );
            order::lemma_irreflexive(package_name::name_key(self.name@));
        }
        match self.name.compare(&other.name) {
            Order::Equal => self.version.compare(&other.version),
            result => result,
        }
    }

    fn same_key(&self) -> (copy: Self) {
        self.duplicate()
    }
}

impl PackageId {
    pub fn new(name: PackageName, version: Version) -> (id: PackageId)
        ensures
            id@ == (PackageIdView { name: name@, version: version@ }),
    {
        PackageId { name, version }
    }

    pub fn name(&self) -> (name: &PackageName)
        ensures
            name@ == self@.name,
    {
        &self.name
    }

    pub fn version(&self) -> (version: &Version)
        ensures
            version@ == self@.version,
    {
        &self.version
    }

    /// The id as text.
    pub fn to_text(&self) -> (written: String)
        ensures
            written@ == id_text(self@),
    {
        let mut written: String = self.name.to_text();
        written.append("@");
        written.append(self.version.to_text().as_str());
        written
    }

    /// Whether two ids are the same but for build metadata.
    pub fn is_same(&self, other: &PackageId) -> (same: bool)
        ensures
            same == same_id(self@, other@),
    {
        self.name.is_same(&other.name) && self.version.is_same(&other.version)
    }
}

/// Ids stand in the order of their scopes, those of one scope by their names, and
/// those of one package by their versions.
pub proof fn law_ids_stand_by_name_and_version(a: PackageIdView, b: PackageIdView)
    ensures
        order::precedes(id_key(a), id_key(b)) <==> if a.name.scope != b.name.scope {
            order::text_before(a.name.scope, b.name.scope)
        } else if a.name.name != b.name.name {
            order::text_before(a.name.name, b.name.name)
        } else {
            version::version_before(a.version, b.version)
        },
        id_key(a) == id_key(b) <==> a.name.scope == b.name.scope && a.name.name == b.name.name
            && a.version.major == b.version.major && a.version.minor == b.version.minor
            && a.version.patch == b.version.patch && a.version.pre == b.version.pre,
        id_text(a) == a.name.scope + "/"@ + a.name.name + "@"@ + version::version_text(a.version),
{
    let none = Seq::<int>::empty();
    let p = order::text_key(a.name.name);
    let q = order::text_key(b.name.name);
    package_name::lemma_name_first(
        a.name,
        version::version_key(a.version),
        b.name,
        version::version_key(b.version),
    );
    lemma_id_key_injective(a, b);
    order::lemma_text_key_first(a.name.scope, p, b.name.scope, q);
    order::lemma_text_key_first(a.name.name, none, b.name.name, none);
    assert(p + none =~= p && q + none =~= q);
    order::lemma_text_before(a.name.scope, b.name.scope);
    order::lemma_text_before(a.name.name, b.name.name);
    version::lemma_version_before(a.version, b.version);
}

} // verus!
