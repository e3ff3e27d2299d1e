//! Packages in local directories.

use vstd::prelude::*;

use crate::manifest::{Manifest, ManifestView};
use crate::package_req::{PackageReq, PackageReqView};
use crate::package_source::PackageSourceId;
use crate::path::PathBuf;
use crate::plain;
use crate::plain::Plain;
use crate::version_req;

verus! {

/// A package source backed by a local filesystem directory containing a
/// `wally.toml`. Used for workspace path dependencies.
#[derive(Debug, PartialEq, Eq)]
pub struct PathSource {
    root: PathBuf,
}

impl View for PathSource {
    type V = Seq<char>;

    closed spec fn view(&self) -> Seq<char> {
        self.root@
    }
}

impl Clone for PathSource {
    fn clone(&self) -> (copy: Self)
        ensures
            copy@ == self@,
    {
        PathSource { root: self.root.duplicate() }
    }
}

/// What is found where a package should be.
#[derive(Debug, PartialEq, Eq)]
pub enum FoundManifest {
    /// No directory.
    NoDirectory,
    /// A directory without a manifest.
    NoManifest,
    /// A manifest that could not be loaded, for this reason.
    Unreadable(String),
    Loaded(Manifest),
}

/// What is found where a package should be.
pub enum FoundManifestView {
    NoDirectory,
    NoManifest,
    Unreadable(Seq<char>),
    Loaded(ManifestView),
}

impl View for FoundManifest {
    type V = FoundManifestView;

    open spec fn view(&self) -> FoundManifestView {
        match self {
            FoundManifest::NoDirectory => FoundManifestView::NoDirectory,
            FoundManifest::NoManifest => FoundManifestView::NoManifest,
            FoundManifest::Unreadable(reason) => FoundManifestView::Unreadable(reason@),
            FoundManifest::Loaded(manifest) => FoundManifestView::Loaded(manifest@),
        }
    }
}

/// Why there is no package in a directory.
#[derive(Debug, PartialEq, Eq)]
pub enum PathSourceError {
    NoDirectory(PathBuf),
    NoManifest(PathBuf),
    Unreadable { dir: PathBuf, reason: String },
}

/// What says why there is no package in a directory.
pub enum PathSourceErrorView {
    NoDirectory(Seq<char>),
    NoManifest(Seq<char>),
    Unreadable { dir: Seq<char>, reason: Seq<char> },
}

impl View for PathSourceError {
    type V = PathSourceErrorView;

    open spec fn view(&self) -> PathSourceErrorView {
        match self {
            PathSourceError::NoDirectory(dir) => PathSourceErrorView::NoDirectory(dir@),
            PathSourceError::NoManifest(dir) => PathSourceErrorView::NoManifest(dir@),
            PathSourceError::Unreadable { dir, reason } => PathSourceErrorView::Unreadable {
                dir: dir@,
                reason: reason@,
            },
        }
    }
}

impl DeepView for PathSourceError {
    type V = PathSourceErrorView;

    open spec fn deep_view(&self) -> PathSourceErrorView {
        self.view()
    }
}

impl PathSourceErrorView {
    /// How the error is written.
    pub open spec fn text(self) -> Seq<char> {
        match self {
            PathSourceErrorView::NoDirectory(dir) => "path source directory does not exist: "@
                + dir,
            PathSourceErrorView::NoManifest(dir) => "path source directory has no wally.toml: "@
                + dir,
            PathSourceErrorView::Unreadable { dir, reason } => "failed to load manifest from "@
                + dir + ": "@ + reason,
        }
    }
}

impl PathSourceError {
    /// The error as text.
    pub fn message(&self) -> (message: String)
        ensures
            message@ == self@.text(),
    {
        match self {
            PathSourceError::NoDirectory(dir) => {
                let mut message: String = "path source directory does not exist: ".to_owned();
                message.append(dir.as_str());
                message
            },
            PathSourceError::NoManifest(dir) => {
                let mut message: String = "path source directory has no wally.toml: ".to_owned();
                message.append(dir.as_str());
                message
            },
            PathSourceError::Unreadable { dir, reason } => {
                let mut message: String = "failed to load manifest from ".to_owned();
                message.append(dir.as_str());
                message.append(": ");
                message.append(reason.as_str());
                message
            },
        }
    }
}

/// The manifest in a directory, or why there is none.
pub open spec fn manifest_in(dir: Seq<char>, found: FoundManifestView) -> Result<
    ManifestView,
    PathSourceErrorView,
> {
    match found {
        FoundManifestView::NoDirectory => Err(PathSourceErrorView::NoDirectory(dir)),
        FoundManifestView::NoManifest => Err(PathSourceErrorView::NoManifest(dir)),
        FoundManifestView::Unreadable(reason) => Err(
            PathSourceErrorView::Unreadable { dir, reason },
        ),
        FoundManifestView::Loaded(manifest) => Ok(manifest),
    }
}

/// The manifests in a directory that meet a requirement: its own, if it does.
pub open spec fn matching_manifests(manifest: ManifestView, req: PackageReqView) -> Seq<
    ManifestView,
> {
    if req.matches(manifest.package.name, manifest.package.version) {
        seq![manifest]
    } else {
        Seq::empty()
    }
}

impl PathSource {
    pub fn new(root: PathBuf) -> (source: PathSource)
        ensures
            source@ == root@,
    {
        PathSource { root }
    }

    pub fn root(&self) -> (root: &PathBuf)
        ensures
            root@ == self@,
    {
        &self.root
    }

    fn load_manifest(&self, found: FoundManifest) -> (loaded: Result<Manifest, PathSourceError>)
        ensures
            plain::outcome(loaded) == manifest_in(self@, found@),
    {
        match found {
            FoundManifest::NoDirectory => Err(
                PathSourceError::NoDirectory(self.root.duplicate()),
            ),
            FoundManifest::NoManifest => Err(PathSourceError::NoManifest(self.root.duplicate())),
            FoundManifest::Unreadable(reason) => Err(
                PathSourceError::Unreadable { dir: self.root.duplicate(), reason },
            ),
            FoundManifest::Loaded(manifest) => Ok(manifest),
        }
    }

    /// The packages in the directory that meet a requirement, by what was found
    /// there.
    pub fn query(&self, package_req: &PackageReq, found: FoundManifest) -> (manifests: Result<
        Vec<Manifest>,
        PathSourceError,
    >)
        ensures
            plain::outcome(manifests) == match manifest_in(self@, found@) {
                Ok(manifest) => Ok(matching_manifests(manifest, package_req@)),
                Err(error) => Err(error),
            },
    {
        let manifest: Manifest = match self.load_manifest(found) {
            Ok(manifest) => manifest,
            Err(error) => {
                return Err(error);
            },
        };
        let mut manifests: Vec<Manifest> = Vec::new();
        if package_req.matches(&manifest.package.name, &manifest.package.version) {
            manifests.push(manifest);
            assert(manifests.deep_view() =~= seq![manifest@]);
        } else {
            assert(manifests.deep_view() =~= Seq::<ManifestView>::empty());
        }
        Ok(manifests)
    }

    /// The sources to look in after this one: none.
    pub fn fallback_sources(&self) -> (sources: Vec<PackageSourceId>)
        ensures
            sources@.len() == 0,
    {
        Vec::new()
    }
}

/// A directory answers with its own package alone, and exactly if that package has
/// the name and meets the requirement on versions. It answers only where a manifest
/// was loaded from it.
pub proof fn law_directories_answer_with_their_package(
    dir: Seq<char>,
    found: FoundManifestView,
    req: PackageReqView,
    manifest: ManifestView,
)
    ensures
        matching_manifests(manifest, req).len() <= 1,
        matching_manifests(manifest, req).len() == 1 <==> req.name == manifest.package.name
            && version_req::req_matches(req.version_req, manifest.package.version),
        matching_manifests(manifest, req).len() == 1 ==> matching_manifests(manifest, req)[0]
            == manifest,
        manifest_in(dir, found) == Ok::<ManifestView, PathSourceErrorView>(manifest) <==> found
            == FoundManifestView::Loaded(manifest),
        manifest_in(dir, found) == Err::<ManifestView, PathSourceErrorView>(
            PathSourceErrorView::NoDirectory(dir),
        ) <==> found == FoundManifestView::NoDirectory,
        manifest_in(dir, found) == Err::<ManifestView, PathSourceErrorView>(
            PathSourceErrorView::NoManifest(dir),
        ) <==> found == FoundManifestView::NoManifest,
        found matches FoundManifestView::Unreadable(reason) ==> manifest_in(dir, found) == Err::<
            ManifestView,
            PathSourceErrorView,
        >(PathSourceErrorView::Unreadable { dir, reason }),
{
}

} // verus!
