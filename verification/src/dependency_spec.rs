//! How a dependency is written in a manifest.

use vstd::prelude::*;

use crate::package_req;
use crate::package_req::{PackageReq, PackageReqView};
use crate::path::PathBuf;
use crate::plain::Plain;

verus! {

/// Specifies how a dependency should be resolved.
#[derive(Debug, PartialEq, Eq)]
pub enum DependencySpec {
    /// A registry dependency: `"scope/name@version"`.
    Registry(PackageReq),
    /// A local path dependency: `{ path = "../sibling" }`.
    Path(PathDependencySpec),
    /// A workspace-inherited dependency: `{ workspace = true }`.
    /// Resolved during workspace loading by replacing with the concrete spec
    /// from `[workspace.dependencies]`. By the time the resolver runs, no
    /// `Workspace` variants remain.
    Workspace { workspace: bool },
}

/// Points to a local directory containing a `wally.toml`.
#[derive(Debug, PartialEq, Eq)]
pub struct PathDependencySpec {
    pub path: PathBuf,
}

/// What a dependency spec holds.
pub enum DependencySpecView {
    Registry(PackageReqView),
    /// The path as it is written.
    Path(Seq<char>),
    Workspace(bool),
}

impl View for PathDependencySpec {
    type V = Seq<char>;

    open spec fn view(&self) -> Seq<char> {
        self.path@
    }
}

impl View for DependencySpec {
    type V = DependencySpecView;

    open spec fn view(&self) -> DependencySpecView {
        match self {
            DependencySpec::Registry(req) => DependencySpecView::Registry(req@),
            DependencySpec::Path(spec) => DependencySpecView::Path(spec@),
            DependencySpec::Workspace { workspace } => DependencySpecView::Workspace(*workspace),
        }
    }
}

impl DeepView for DependencySpec {
    type V = DependencySpecView;

    open spec fn deep_view(&self) -> DependencySpecView {
        self.view()
    }
}

impl Plain for DependencySpec {
    fn duplicate(&self) -> (copy: Self) {
        match self {
            DependencySpec::Registry(req) => DependencySpec::Registry(req.duplicate()),
            DependencySpec::Path(spec) => DependencySpec::Path(
                PathDependencySpec { path: spec.path.duplicate() },
            ),
            DependencySpec::Workspace { workspace } => DependencySpec::Workspace {
                workspace: *workspace,
            },
        }
    }
}

impl Clone for PathDependencySpec {
    fn clone(&self) -> (copy: Self)
        ensures
            copy@ == self@,
    {
        PathDependencySpec { path: self.path.duplicate() }
    }
}

impl Clone for DependencySpec {
    fn clone(&self) -> (copy: Self)
        ensures
            copy@ == self@,
    {
        self.duplicate()
    }
}

/// How a dependency spec is written in messages.
pub open spec fn spec_text(spec: DependencySpecView) -> Seq<char> {
    match spec {
        DependencySpecView::Registry(req) => package_req::package_req_text(req),
        DependencySpecView::Path(path) => "path: "@ + path,
        DependencySpecView::Workspace(workspace) => "workspace: "@ + if workspace {
            "true"@
        } else {
            "false"@
        },
    }
}

impl DependencySpec {
    /// Returns the inner `PackageReq` if this is a registry dependency.
    pub fn as_registry(&self) -> (req: Option<&PackageReq>)
        ensures
            match req {
                Some(req) => *self == DependencySpec::Registry(*req),
                None => !(self is Registry),
            },
    {
        match self {
            DependencySpec::Registry(req) => Some(req),
            _ => None,
        }
    }

    /// The inner `PackageReq` of a registry dependency.
    pub fn expect_registry(&self) -> (req: &PackageReq)
        requires
            self is Registry,
        ensures
            *self == DependencySpec::Registry(*req),
    {
        match self {
            DependencySpec::Registry(req) => req,
            _ => vstd::pervasive::unreached(),
        }
    }

    /// Returns the inner `PathDependencySpec` if this is a path dependency.
    pub fn as_path(&self) -> (spec: Option<&PathDependencySpec>)
        ensures
            match spec {
                Some(spec) => *self == DependencySpec::Path(*spec),
                None => !(self is Path),
            },
    {
        match self {
            DependencySpec::Path(spec) => Some(spec),
            _ => None,
        }
    }

    /// Returns `true` if this is a `{ workspace = true }` directive.
    pub fn is_workspace(&self) -> (directive: bool)
        ensures
            directive == (self@ == DependencySpecView::Workspace(true)),
    {
        match self {
            DependencySpec::Workspace { workspace } => *workspace,
            _ => false,
        }
    }

    /// The spec as it is written in messages.
    pub fn to_text(&self) -> (written: String)
        ensures
            written@ == spec_text(self@),
    {
        match self {
            DependencySpec::Registry(req) => req.to_text(),
            DependencySpec::Path(spec) => {
                let mut written: String = "path: ".to_owned();
                written.append(spec.path.as_str());
                written
            },
            DependencySpec::Workspace { workspace } => {
                let mut written: String = "workspace: ".to_owned();
                if *workspace {
                    written.append("true");
                } else {
                    written.append("false");
                }
                written
            },
        }
    }
}

impl From<PackageReq> for DependencySpec {
    fn from(req: PackageReq) -> (spec: Self) {
        DependencySpec::Registry(req)
    }
}

impl vstd::std_specs::convert::FromSpecImpl<PackageReq> for DependencySpec {
    open spec fn obeys_from_spec() -> bool {
        true
    }

    open spec fn from_spec(req: PackageReq) -> Self {
        DependencySpec::Registry(req)
    }
}

} // verus!
