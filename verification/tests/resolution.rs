use std::collections::VecDeque;

use wally::dependency_spec::{DependencySpec, PathDependencySpec};
use wally::installation::InstallationContext;
use wally::manifest::{
    Manifest, Package, PlaceInfo, ProjectManifest, Realm, WorkspaceInheritable, WorkspaceMetadata,
};
use wally::ordered::{OrdMap, OrdSet};
use wally::package_id::PackageId;
use wally::package_name::PackageName;
use wally::package_req::PackageReq;
use wally::package_source::{check_answer, PackageSourceId, PackageSourceMap};
use wally::path::PathBuf;
use wally::resolution::{
    resolve_queued, DependencyRequest, DependencyRequestKind, ResolvePackageMetadata,
    compatible, merge_origin_realm, resolve, resolve_workspace, DependencyGraph, Resolve,
    ResolveError,
};
use wally::version::{Identifier, Version};
use wally::workspace::{
    discover_members, member_pattern, CanonicalPaths, GlobMatch, LoadedMember, PatternMatches,
    RawMemberManifest, RawMemberPackage, Workspace,
};

const ROOT: &str = "/ws";

fn version(text: &str) -> Version {
    let parsed = semver::Version::parse(text).unwrap();
    let identifier = |i: &semver::Identifier| match i {
        semver::Identifier::Numeric(n) => Identifier::Numeric(*n),
        semver::Identifier::AlphaNumeric(t) => Identifier::AlphaNumeric(t.clone()),
    };
    Version {
        major: parsed.major,
        minor: parsed.minor,
        patch: parsed.patch,
        pre: parsed.pre.iter().map(identifier).collect(),
        build: parsed.build.iter().map(identifier).collect(),
    }
}

#[allow(dead_code)]
fn name(text: &str) -> PackageName {
    PackageName::parse(text).unwrap()
}

#[allow(dead_code)]
fn id(text: &str) -> PackageId {
    let (package, at) = text.split_once('@').unwrap();
    PackageId::new(name(package), version(at))
}

/// Text under a key of a table.
fn text_at(table: &toml::Value, key: &str) -> Option<String> {
    table.get(key).and_then(|value| value.as_str()).map(|text| text.to_owned())
}

fn realm_of(text: &str) -> Realm {
    match text {
        "server" => Realm::Server,
        "shared" => Realm::Shared,
        "dev" => Realm::Dev,
        other => panic!("unknown realm {}", other),
    }
}

fn spec_of(value: &toml::Value) -> DependencySpec {
    if let Some(text) = value.as_str() {
        return DependencySpec::Registry(PackageReq::parse(text).unwrap());
    }
    match text_at(value, "path") {
        Some(path) => DependencySpec::Path(PathDependencySpec { path: PathBuf::parse(&path) }),
        None => DependencySpec::Workspace {
            workspace: value.get("workspace").unwrap().as_bool().unwrap(),
        },
    }
}

fn deps_at(table: &toml::Value, key: &str) -> OrdMap<String, DependencySpec> {
    let mut deps = OrdMap::new();
    if let Some(section) = table.get(key).and_then(|value| value.as_table()) {
        for (alias, value) in section {
            deps.insert(alias.clone(), spec_of(value));
        }
    }
    deps
}

fn inheritable_deps_at(
    table: &toml::Value,
    key: &str,
) -> OrdMap<String, WorkspaceInheritable<DependencySpec>> {
    let mut deps = OrdMap::new();
    if let Some(section) = table.get(key).and_then(|value| value.as_table()) {
        for (alias, value) in section {
            let spec = match spec_of(value) {
                DependencySpec::Workspace { workspace } => {
                    WorkspaceInheritable::Workspace { workspace }
                }
                spec => WorkspaceInheritable::Defined(spec),
            };
            deps.insert(alias.clone(), spec);
        }
    }
    deps
}

fn place_at(table: &toml::Value) -> PlaceInfo {
    match table.get("place") {
        Some(place) => PlaceInfo {
            shared_packages: text_at(place, "shared-packages"),
            server_packages: text_at(place, "server-packages"),
        },
        None => PlaceInfo::default(),
    }
}

fn is_private(package: &toml::Value) -> bool {
    package.get("private").and_then(|value| value.as_bool()).unwrap_or(false)
}

fn package_of(package: &toml::Value) -> Package {
    Package {
        name: name(&text_at(package, "name").unwrap()),
        version: version(&text_at(package, "version").unwrap()),
        registry: text_at(package, "registry").unwrap(),
        realm: realm_of(&text_at(package, "realm").unwrap()),
        description: None,
        license: None,
        authors: Vec::new(),
        includes: Vec::new(),
        exclude: Vec::new(),
        private: is_private(package),
        homepage: None,
        repository: None,
    }
}

fn project_of(content: &str) -> ProjectManifest {
    let value: toml::Value = toml::from_str(content).unwrap();
    ProjectManifest {
        package: value.get("package").map(package_of),
        workspace: value.get("workspace").map(|workspace| WorkspaceMetadata {
            members: workspace
                .get("members")
                .and_then(|members| members.as_array())
                .unwrap()
                .iter()
                .map(|member| member.as_str().unwrap().to_owned())
                .collect(),
            registry: text_at(workspace, "registry"),
            realm: text_at(workspace, "realm").map(|realm| realm_of(&realm)),
            default_member: text_at(workspace, "default-member").map(|member| name(&member)),
            place: place_at(workspace),
            dependencies: deps_at(workspace, "dependencies"),
        }),
        place: place_at(&value),
        dependencies: deps_at(&value, "dependencies"),
        server_dependencies: deps_at(&value, "server-dependencies"),
        dev_dependencies: deps_at(&value, "dev-dependencies"),
    }
}

fn member_of(content: &str) -> RawMemberManifest {
    let value: toml::Value = toml::from_str(content).unwrap();
    let package = value.get("package").unwrap();
    let directive = |value: &toml::Value| {
        value.get("workspace").and_then(|workspace| workspace.as_bool())
    };
    RawMemberManifest {
        package: RawMemberPackage {
            name: name(&text_at(package, "name").unwrap()),
            version: version(&text_at(package, "version").unwrap()),
            registry: package.get("registry").map(|value| match directive(value) {
                Some(workspace) => WorkspaceInheritable::Workspace { workspace },
                None => WorkspaceInheritable::Defined(value.as_str().unwrap().to_owned()),
            }),
            realm: package.get("realm").map(|value| match directive(value) {
                Some(workspace) => WorkspaceInheritable::Workspace { workspace },
                None => WorkspaceInheritable::Defined(realm_of(value.as_str().unwrap())),
            }),
            description: None,
            license: None,
            authors: Vec::new(),
            includes: Vec::new(),
            exclude: Vec::new(),
            private: is_private(package),
            homepage: None,
            repository: None,
        },
        place: place_at(&value),
        dependencies: inheritable_deps_at(&value, "dependencies"),
        server_dependencies: inheritable_deps_at(&value, "server-dependencies"),
        dev_dependencies: inheritable_deps_at(&value, "dev-dependencies"),
    }
}

/// Manifests by their directories, and directories without one.
struct Files {
    manifests: Vec<(String, String)>,
    bare_dirs: Vec<String>,
}

impl Files {
    fn new() -> Files {
        Files { manifests: Vec::new(), bare_dirs: Vec::new() }
    }

    fn write_manifest(&mut self, dir: &str, content: &str) {
        self.manifests.push((dir.to_owned(), content.to_owned()));
    }

    fn read(&self, dir: &str) -> Option<&str> {
        self.manifests
            .iter()
            .find(|(other, _)| other == dir)
            .map(|(_, content)| content.as_str())
    }

    fn is_dir(&self, dir: &str) -> bool {
        let inside = format!("{}/", dir);
        self.manifests
            .iter()
            .map(|(other, _)| other)
            .chain(self.bare_dirs.iter())
            .any(|other| other == dir || other.starts_with(&inside))
    }

    /// Where an absolute path leads to, if there is a directory.
    fn canonicalize(&self, path: &str) -> Option<String> {
        let mut parts: Vec<&str> = Vec::new();
        for part in path.split('/') {
            match part {
                "" | "." => {}
                ".." => {
                    parts.pop();
                }
                part => parts.push(part),
            }
        }
        let canonical = format!("/{}", parts.join("/"));
        if self.is_dir(&canonical) {
            Some(canonical)
        } else {
            None
        }
    }

    /// What a pattern that ends in `/*` matches.
    fn matches(&self, root: &PathBuf, pattern: &str) -> PatternMatches {
        let full = member_pattern(root, pattern);
        let prefix = full.as_str().strip_suffix('*').unwrap().to_owned();
        let mut dirs: Vec<&String> = self
            .manifests
            .iter()
            .map(|(dir, _)| dir)
            .chain(self.bare_dirs.iter())
            .filter(|dir| dir.starts_with(&prefix) && !dir[prefix.len()..].contains('/'))
            .collect();
        dirs.sort();
        PatternMatches {
            pattern: pattern.to_owned(),
            matches: Some(
                dirs.into_iter()
                    .map(|dir| GlobMatch::Found {
                        path: PathBuf::parse(dir),
                        is_dir: true,
                        has_manifest: self.read(dir).is_some(),
                        canonical: Some(PathBuf::parse(dir)),
                    })
                    .collect(),
            ),
        }
    }

    fn load(&self, root: &str) -> Result<Workspace, String> {
        let project = project_of(self.read(root).unwrap());
        let root = PathBuf::parse(root);
        let mut members: Vec<LoadedMember> = Vec::new();
        if let Some(workspace) = &project.workspace {
            let patterns: Vec<PatternMatches> =
                workspace.members.iter().map(|pattern| self.matches(&root, pattern)).collect();
            let dirs = discover_members(&patterns).map_err(|error| error.message())?;
            for i in 0..dirs.len() {
                let dir = dirs.at(i);
                members.push(LoadedMember {
                    dir: dir.clone(),
                    manifest: Ok(member_of(self.read(dir.as_str()).unwrap())),
                });
            }
        }
        Workspace::load(root, &project, &members).map_err(|error| error.message())
    }

    #[allow(dead_code)]
    fn canonical_paths(&self, workspace: &Workspace) -> CanonicalPaths {
        let mut canonical = CanonicalPaths::new();
        for dir in workspace.path_dependency_dirs() {
            if let Some(found) = self.canonicalize(dir.as_str()) {
                canonical.insert(dir, PathBuf::parse(&found));
            }
        }
        canonical
    }
}

/// A package that can be published.
struct PackageBuilder {
    manifest: Manifest,
}

impl PackageBuilder {
    fn new(text: &str) -> PackageBuilder {
        let id = id(text);
        PackageBuilder {
            manifest: Manifest {
                package: Package {
                    name: id.name().clone(),
                    version: id.version().clone(),
                    registry: "test-registry".to_owned(),
                    realm: Realm::Shared,
                    description: None,
                    license: None,
                    authors: Vec::new(),
                    includes: Vec::new(),
                    exclude: Vec::new(),
                    private: false,
                    homepage: None,
                    repository: None,
                },
                place: PlaceInfo::default(),
                dependencies: OrdMap::new(),
                server_dependencies: OrdMap::new(),
                dev_dependencies: OrdMap::new(),
            },
        }
    }

    #[allow(dead_code)]
    fn with_realm(mut self, realm: Realm) -> PackageBuilder {
        self.manifest.package.realm = realm;
        self
    }

    #[allow(dead_code)]
    fn with_dep(mut self, alias: &str, req: &str) -> PackageBuilder {
        let spec = DependencySpec::Registry(PackageReq::parse(req).unwrap());
        self.manifest.dependencies.insert(alias.to_owned(), spec);
        self
    }

    #[allow(dead_code)]
    fn with_server_dep(mut self, alias: &str, req: &str) -> PackageBuilder {
        let spec = DependencySpec::Registry(PackageReq::parse(req).unwrap());
        self.manifest.server_dependencies.insert(alias.to_owned(), spec);
        self
    }

    #[allow(dead_code)]
    fn with_dev_dep(mut self, alias: &str, req: &str) -> PackageBuilder {
        let spec = DependencySpec::Registry(PackageReq::parse(req).unwrap());
        self.manifest.dev_dependencies.insert(alias.to_owned(), spec);
        self
    }
}

/// A registry that holds what was published to it.
struct InMemoryRegistry {
    published: Vec<Manifest>,
}

impl InMemoryRegistry {
    fn new() -> InMemoryRegistry {
        InMemoryRegistry { published: Vec::new() }
    }

    fn publish(&mut self, package: PackageBuilder) {
        self.published.push(package.manifest);
    }

    /// The packages that meet a requirement, or nothing if there is no package
    /// of the name.
    fn query(&self, req: &PackageReq) -> Option<Vec<Manifest>> {
        if !self.published.iter().any(|manifest| manifest.package.name == *req.name()) {
            return None;
        }
        Some(
            self.published
                .iter()
                .filter(|manifest| req.matches(&manifest.package.name, &manifest.package.version))
                .cloned()
                .collect(),
        )
    }

    /// Records the answer to the query that resolution needs.
    fn answer(&self, sources: &mut PackageSourceMap, source: PackageSourceId, req: PackageReq) {
        let found = self.query(&req);
        if let Some(manifests) = &found {
            assert!(check_answer(&req, manifests));
        }
        sources.record(source, req, found);
    }

    #[allow(dead_code)]
    fn resolve(
        &self,
        manifest: &Manifest,
        try_to_use: &OrdSet<PackageId>,
    ) -> Result<Resolve, ResolveError> {
        let mut sources = PackageSourceMap::new();
        loop {
            match resolve(manifest, try_to_use, &sources) {
                Err(ResolveError::Unanswered { source, req }) => {
                    self.answer(&mut sources, source, req);
                }
                resolved => return resolved,
            }
        }
    }

    #[allow(dead_code)]
    fn resolve_workspace(
        &self,
        files: &Files,
        workspace: &Workspace,
        try_to_use: &OrdSet<PackageId>,
    ) -> Result<Resolve, ResolveError> {
        let canonical = files.canonical_paths(workspace);
        let mut sources = PackageSourceMap::new();
        loop {
            match resolve_workspace(workspace, try_to_use, &sources, &canonical) {
                Err(ResolveError::Unanswered { source, req }) => {
                    self.answer(&mut sources, source, req);
                }
                resolved => return resolved,
            }
        }
    }
}

fn resolve_package(
    registry: &InMemoryRegistry,
    package: &PackageBuilder,
) -> Result<Resolve, ResolveError> {
    registry.resolve(&package.manifest, &OrdSet::new())
}

fn texts(ids: &OrdSet<PackageId>) -> Vec<String> {
    (0..ids.len()).map(|i| ids.at(i).to_text()).collect()
}

/// The dependencies of a realm, as `source -> alias -> target`.
fn edges(graph: &DependencyGraph) -> Vec<String> {
    let mut written = Vec::new();
    for i in 0..graph.len() {
        let targets = graph.value_at(i);
        for j in 0..targets.len() {
            written.push(format!(
                "{} -> {} -> {}",
                graph.key_at(i).to_text(),
                targets.key_at(j),
                targets.value_at(j).to_text()
            ));
        }
    }
    written
}

/// The realm of a package and the realm that it originates from.
fn realms(resolve: &Resolve, package: &str) -> (Realm, Realm) {
    let metadata = resolve.metadata.get(&id(package)).unwrap();
    (metadata.realm, metadata.origin_realm)
}

// ---------------------------------------------------------------------------
// Single packages
// ---------------------------------------------------------------------------

#[test]
fn minimal() {
    let registry = InMemoryRegistry::new();
    let root = PackageBuilder::new("biff/minimal@0.1.0");
    let resolved = resolve_package(&registry, &root).unwrap();
    assert_eq!(texts(&resolved.activated), vec!["biff/minimal@0.1.0"]);
    assert_eq!(resolved.metadata.len(), 1);
    let metadata = resolved.metadata.get(&id("biff/minimal@0.1.0")).unwrap();
    assert_eq!(metadata.realm, Realm::Shared);
    assert_eq!(metadata.origin_realm, Realm::Shared);
    assert_eq!(metadata.source_registry, PackageSourceId::DefaultRegistry);
    assert!(!metadata.is_workspace_member);
    assert!(resolved.shared_dependencies.is_empty());
    assert!(resolved.server_dependencies.is_empty());
    assert!(resolved.dev_dependencies.is_empty());
}

#[test]
fn one_dependency() {
    let mut registry = InMemoryRegistry::new();
    registry.publish(PackageBuilder::new("biff/minimal@0.1.0"));
    registry.publish(PackageBuilder::new("biff/minimal@0.2.0"));

    let root = PackageBuilder::new("biff/one-dependency@0.1.0")
        .with_dep("Minimal", "biff/minimal@0.1.0");
    let resolved = resolve_package(&registry, &root).unwrap();
    assert_eq!(
        texts(&resolved.activated),
        vec!["biff/minimal@0.1.0", "biff/one-dependency@0.1.0"]
    );
    assert_eq!(
        edges(&resolved.shared_dependencies),
        vec!["biff/one-dependency@0.1.0 -> Minimal -> biff/minimal@0.1.0"]
    );
}

#[test]
fn transitive_dependency() {
    let mut registry = InMemoryRegistry::new();
    registry.publish(PackageBuilder::new("biff/minimal@0.1.0"));
    registry.publish(
        PackageBuilder::new("biff/one-dependency@0.1.0").with_dep("Minimal", "biff/minimal@0.1.0"),
    );

    let root = PackageBuilder::new("biff/transitive-dependency@0.1.0")
        .with_dep("OneDependency", "biff/one-dependency@0.1.0");
    let resolved = resolve_package(&registry, &root).unwrap();
    assert_eq!(
        edges(&resolved.shared_dependencies),
        vec![
            "biff/one-dependency@0.1.0 -> Minimal -> biff/minimal@0.1.0",
            "biff/transitive-dependency@0.1.0 -> OneDependency -> biff/one-dependency@0.1.0",
        ]
    );
    assert_eq!(resolved.activated.len(), 3);
}

/// When there are shared dependencies, Wally should select the same
/// dependency. Here, A depends on B and C, which both in turn depend on D.
#[test]
fn unified_dependencies() {
    let mut registry = InMemoryRegistry::new();
    registry.publish(PackageBuilder::new("biff/b@1.0.0").with_dep("D", "biff/d@1.0.0"));
    registry.publish(PackageBuilder::new("biff/c@1.0.0").with_dep("D", "biff/d@1.0.0"));
    registry.publish(PackageBuilder::new("biff/d@1.0.0"));

    let root = PackageBuilder::new("biff/a@1.0.0")
        .with_dep("B", "biff/b@1.0.0")
        .with_dep("C", "biff/c@1.0.0");
    let resolved = resolve_package(&registry, &root).unwrap();
    assert_eq!(
        texts(&resolved.activated),
        vec!["biff/a@1.0.0", "biff/b@1.0.0", "biff/c@1.0.0", "biff/d@1.0.0"]
    );
    assert_eq!(
        edges(&resolved.shared_dependencies),
        vec![
            "biff/a@1.0.0 -> B -> biff/b@1.0.0",
            "biff/a@1.0.0 -> C -> biff/c@1.0.0",
            "biff/b@1.0.0 -> D -> biff/d@1.0.0",
            "biff/c@1.0.0 -> D -> biff/d@1.0.0",
        ]
    );
}

/// Server dependencies are allowed to depend on shared dependencies. If a
/// shared dependency is only depended on by server dependencies, it should
/// be marked as server-only.
#[test]
fn server_to_shared() {
    let mut registry = InMemoryRegistry::new();
    registry.publish(PackageBuilder::new("biff/shared@1.0.0"));
    registry.publish(
        PackageBuilder::new("biff/server@1.0.0")
            .with_realm(Realm::Server)
            .with_dep("Shared", "biff/shared@1.0.0"),
    );

    let root =
        PackageBuilder::new("biff/root@1.0.0").with_server_dep("Server", "biff/server@1.0.0");
    let resolved = resolve_package(&registry, &root).unwrap();
    assert_eq!(realms(&resolved, "biff/shared@1.0.0"), (Realm::Shared, Realm::Server));
    assert_eq!(realms(&resolved, "biff/server@1.0.0"), (Realm::Server, Realm::Server));
    assert!(resolved.shared_dependencies.is_empty());
    assert_eq!(
        edges(&resolved.server_dependencies),
        vec![
            "biff/root@1.0.0 -> Server -> biff/server@1.0.0",
            "biff/server@1.0.0 -> Shared -> biff/shared@1.0.0",
        ]
    );
}

/// but... if that shared dependency is required by another shared dependency,
/// (while not being also server-only) it's not server-only anymore.
#[test]
fn server_to_shared_and_shared_to_shared() {
    let mut registry = InMemoryRegistry::new();
    registry.publish(PackageBuilder::new("biff/shared@1.0.0"));
    registry.publish(
        PackageBuilder::new("biff/server@1.0.0")
            .with_realm(Realm::Server)
            .with_dep("Shared", "biff/shared@1.0.0"),
    );

    let root = PackageBuilder::new("biff/root@1.0.0")
        .with_server_dep("Server", "biff/server@1.0.0")
        .with_dep("Shared", "biff/shared@1.0.0");
    let resolved = resolve_package(&registry, &root).unwrap();
    assert_eq!(realms(&resolved, "biff/shared@1.0.0"), (Realm::Shared, Realm::Shared));
    assert_eq!(
        edges(&resolved.shared_dependencies),
        vec![
            "biff/root@1.0.0 -> Shared -> biff/shared@1.0.0",
            "biff/server@1.0.0 -> Shared -> biff/shared@1.0.0",
        ]
    );
    assert_eq!(
        edges(&resolved.server_dependencies),
        vec!["biff/root@1.0.0 -> Server -> biff/server@1.0.0"]
    );
}

/// Shared dependencies are allowed to depend on server dependencies. Server
/// dependencies should always be marked as server-only.
#[test]
fn shared_to_server() {
    let mut registry = InMemoryRegistry::new();
    registry.publish(PackageBuilder::new("biff/server@1.0.0").with_realm(Realm::Server));

    let root =
        PackageBuilder::new("biff/root@1.0.0").with_server_dep("Server", "biff/server@1.0.0");
    let resolved = resolve_package(&registry, &root).unwrap();
    assert_eq!(realms(&resolved, "biff/server@1.0.0"), (Realm::Server, Realm::Server));
    assert_eq!(
        edges(&resolved.server_dependencies),
        vec!["biff/root@1.0.0 -> Server -> biff/server@1.0.0"]
    );
}

#[test]
fn fail_server_in_shared() {
    let mut registry = InMemoryRegistry::new();
    registry.publish(PackageBuilder::new("biff/server@1.0.0").with_realm(Realm::Server));

    let root = PackageBuilder::new("biff/root@1.0.0").with_dep("Server", "biff/server@1.0.0");
    let error = resolve_package(&registry, &root).unwrap_err();
    assert_eq!(
        error.message(),
        "No packages were found that matched (Shared) biff/server@>=1.0.0, <2.0.0.\nAre you sure \
         this is a Shared dependency?"
    );
}

/// Tests the simple one dependency case, except that a new version of the
/// dependency will be published after the initial resolve. By persisting
/// the set of activated packages from the initial install, we signal that
/// the dependency should not be upgraded.
#[test]
fn one_dependency_no_upgrade() {
    let mut registry = InMemoryRegistry::new();
    registry.publish(PackageBuilder::new("biff/minimal@1.0.0"));

    let root = PackageBuilder::new("biff/one-dependency@1.0.0")
        .with_dep("Minimal", "biff/minimal@1.0.0");
    let resolved = resolve_package(&registry, &root).unwrap();

    registry.publish(PackageBuilder::new("biff/minimal@1.1.0"));
    let new_resolved = registry.resolve(&root.manifest, &resolved.activated).unwrap();
    assert_eq!(
        texts(&new_resolved.activated),
        vec!["biff/minimal@1.0.0", "biff/one-dependency@1.0.0"]
    );
    assert_eq!(new_resolved, resolved);
}

#[test]
fn one_dependency_yes_upgrade() {
    let mut registry = InMemoryRegistry::new();
    registry.publish(PackageBuilder::new("biff/minimal@1.0.0"));

    let root = PackageBuilder::new("biff/one-dependency@1.0.0")
        .with_dep("Minimal", "biff/minimal@1.0.0");
    let resolved = resolve_package(&registry, &root).unwrap();

    // We can indicate that we'd like to upgrade a package by just removing
    // it from the try_to_use set!
    let remove_this = name("biff/minimal");
    let mut try_to_use: OrdSet<PackageId> = OrdSet::new();
    for i in 0..resolved.activated.len() {
        if resolved.activated.at(i).name() != &remove_this {
            try_to_use.insert(resolved.activated.at(i).clone());
        }
    }

    registry.publish(PackageBuilder::new("biff/minimal@1.1.0"));
    let new_resolved = registry.resolve(&root.manifest, &try_to_use).unwrap();
    assert_eq!(
        texts(&new_resolved.activated),
        vec!["biff/minimal@1.1.0", "biff/one-dependency@1.0.0"]
    );
}

// ---------------------------------------------------------------------------
// Choices
// ---------------------------------------------------------------------------

#[test]
fn origins_merge_to_the_least_restrictive() {
    let realms = [Realm::Shared, Realm::Server, Realm::Dev];
    for (i, a) in realms.into_iter().enumerate() {
        for (j, b) in realms.into_iter().enumerate() {
            assert_eq!(merge_origin_realm(a, b), realms[i.min(j)]);
        }
    }
}

#[test]
fn compatible_versions_share_their_first_number() {
    let check = |a: &str, b: &str| compatible(&version(a), &version(b));
    assert!(check("1.0.0", "1.9.3"));
    assert!(!check("1.0.0", "2.0.0"));
    assert!(check("0.1.0", "0.1.7"));
    assert!(!check("0.1.0", "0.2.0"));
    assert!(!check("0.1.0", "1.1.0"));
    assert!(check("1.0.0-alpha", "1.0.0"));
    assert!(check("0.0.0+a", "0.0.0+b"));
}

#[test]
fn the_highest_version_is_chosen() {
    let mut registry = InMemoryRegistry::new();
    registry.publish(PackageBuilder::new("x/lib@1.2.0"));
    registry.publish(PackageBuilder::new("x/lib@1.10.0"));
    registry.publish(PackageBuilder::new("x/lib@1.9.0"));
    let root = PackageBuilder::new("x/root@1.0.0").with_dep("Lib", "x/lib@1.0.0");
    let resolved = resolve_package(&registry, &root).unwrap();
    assert_eq!(texts(&resolved.activated), vec!["x/lib@1.10.0", "x/root@1.0.0"]);

    let mut locked: OrdSet<PackageId> = OrdSet::new();
    locked.insert(id("x/lib@1.2.0"));
    locked.insert(id("x/lib@1.9.0"));
    let resolved = registry.resolve(&root.manifest, &locked).unwrap();
    assert_eq!(texts(&resolved.activated), vec!["x/lib@1.9.0", "x/root@1.0.0"]);
}

/// What was resolved stays once it is locked, though newer versions come out.
#[test]
fn locked_packages_stay() {
    let mut registry = InMemoryRegistry::new();
    registry.publish(PackageBuilder::new("x/lib@1.2.0").with_dep("Core", "x/core@1.0.0"));
    registry.publish(PackageBuilder::new("x/lib@1.3.0"));
    registry.publish(PackageBuilder::new("x/core@1.0.0"));
    let root = PackageBuilder::new("x/root@1.0.0").with_dep("Lib", "x/lib@1.0.0");
    let mut locked: OrdSet<PackageId> = OrdSet::new();
    locked.insert(id("x/lib@1.2.0"));
    let resolved = registry.resolve(&root.manifest, &locked).unwrap();
    assert_eq!(
        texts(&resolved.activated),
        vec!["x/core@1.0.0", "x/lib@1.2.0", "x/root@1.0.0"]
    );
    registry.publish(PackageBuilder::new("x/lib@1.4.0"));
    registry.publish(PackageBuilder::new("x/core@1.1.0"));
    assert_eq!(registry.resolve(&root.manifest, &resolved.activated), Ok(resolved));
}

#[test]
fn incompatible_versions_stand_side_by_side() {
    let mut registry = InMemoryRegistry::new();
    registry.publish(PackageBuilder::new("x/lib@1.0.0"));
    registry.publish(PackageBuilder::new("x/lib@2.0.0"));
    let root = PackageBuilder::new("x/root@1.0.0")
        .with_dep("A", "x/lib@1.0.0")
        .with_dep("B", "x/lib@2.0.0")
        .with_dep("C", "x/lib@>=1.0.0");
    let resolved = resolve_package(&registry, &root).unwrap();
    assert_eq!(
        edges(&resolved.shared_dependencies),
        vec![
            "x/root@1.0.0 -> A -> x/lib@1.0.0",
            "x/root@1.0.0 -> B -> x/lib@2.0.0",
            "x/root@1.0.0 -> C -> x/lib@2.0.0",
        ]
    );
}

#[test]
fn compatible_versions_conflict() {
    let mut registry = InMemoryRegistry::new();
    registry.publish(PackageBuilder::new("x/lib@1.0.0"));
    registry.publish(PackageBuilder::new("x/lib@1.1.0"));
    registry.publish(PackageBuilder::new("x/lib@1.2.0"));
    let root = PackageBuilder::new("x/root@1.0.0")
        .with_dep("A", "x/lib@=1.0.0")
        .with_dep("B", "x/lib@>=1.1.0, <2.0.0");
    let error = resolve_package(&registry, &root).unwrap_err();
    assert_eq!(
        error.message(),
        "All possible candidates for package x/lib@>=1.1.0, <2.0.0 (Shared) conflicted with other \
         packages that were already installed. These packages were previously selected: \
         x/lib@1.2.0, x/lib@1.1.0"
    );
}

#[test]
fn queries_that_fail_everywhere_are_reported() {
    let registry = InMemoryRegistry::new();
    let root = PackageBuilder::new("x/root@1.0.0").with_dep("Lib", "x/lib@1.0.0");
    let error = resolve_package(&registry, &root).unwrap_err();
    assert_eq!(error.message(), "Failed to find a source for x/lib@>=1.0.0, <2.0.0");
}

#[test]
fn sources_are_asked_in_order() {
    let req = PackageReq::parse("x/lib@1.0.0").unwrap();
    let root = PackageBuilder::new("x/root@1.0.0").with_dep("Lib", "x/lib@1.0.0");
    let fallback = PackageSourceId::Git("https://example.com/fallback".to_owned());
    let mut sources = PackageSourceMap::new();
    sources.add_source(fallback.clone());
    assert_eq!(sources.source_order().len(), 2);

    let asked = resolve(&root.manifest, &OrdSet::new(), &sources).unwrap_err();
    assert_eq!(
        asked,
        ResolveError::Unanswered { source: PackageSourceId::DefaultRegistry, req: req.clone() }
    );
    assert_eq!(
        asked.message(),
        "No answer is known to the query for x/lib@>=1.0.0, <2.0.0"
    );
    assert_eq!(sources.get(&PackageSourceId::DefaultRegistry, &req), None);

    sources.record(PackageSourceId::DefaultRegistry, req.clone(), None);
    assert_eq!(sources.get(&PackageSourceId::DefaultRegistry, &req), Some(None));
    let asked = resolve(&root.manifest, &OrdSet::new(), &sources).unwrap_err();
    assert_eq!(asked, ResolveError::Unanswered { source: fallback.clone(), req: req.clone() });

    let found = vec![PackageBuilder::new("x/lib@1.3.0").manifest];
    sources.record(fallback.clone(), req, Some(found));
    let resolved = resolve(&root.manifest, &OrdSet::new(), &sources).unwrap();
    let metadata = resolved.metadata.get(&id("x/lib@1.3.0")).unwrap();
    assert_eq!(metadata.source_registry, fallback);

    // Further answers change nothing.
    let other = PackageReq::parse("x/other@1.0.0").unwrap();
    sources.record(PackageSourceId::DefaultRegistry, other, None);
    assert_eq!(resolve(&root.manifest, &OrdSet::new(), &sources), Ok(resolved));
}

#[test]
fn answers_are_checked() {
    let req = PackageReq::parse("x/lib@1.0.0").unwrap();
    let fits = vec![PackageBuilder::new("x/lib@1.0.0").with_dep("A", "x/a@1.0.0").manifest];
    assert!(check_answer(&req, &fits));
    let other_name = vec![PackageBuilder::new("x/other@1.0.0").manifest];
    assert!(!check_answer(&req, &other_name));
}

/// Of what a source has, only the package that is chosen has to depend on
/// registries alone.
#[test]
fn chosen_packages_depend_on_registries() {
    let mut by_path = PackageBuilder::new("x/lib@1.1.0").manifest;
    by_path.dependencies.insert(
        "A".to_owned(),
        DependencySpec::Path(PathDependencySpec { path: PathBuf::parse("../a") }),
    );
    let req = PackageReq::parse("x/lib@1.0.0").unwrap();
    let found = vec![by_path, PackageBuilder::new("x/lib@1.0.0").manifest];
    assert!(check_answer(&req, &found));
    let mut sources = PackageSourceMap::new();
    sources.record(PackageSourceId::DefaultRegistry, req, Some(found));
    let root = PackageBuilder::new("x/root@1.0.0").with_dep("Lib", "x/lib@1.0.0");
    let error = resolve(&root.manifest, &OrdSet::new(), &sources).unwrap_err();
    assert_eq!(error, ResolveError::NotPublished(id("x/lib@1.1.0")));
    assert_eq!(
        error.message(),
        "Package x/lib@1.1.0 depends on packages outside of registries"
    );
    let mut locked: OrdSet<PackageId> = OrdSet::new();
    locked.insert(id("x/lib@1.0.0"));
    let resolved = resolve(&root.manifest, &locked, &sources).unwrap();
    assert_eq!(texts(&resolved.activated), vec!["x/lib@1.0.0", "x/root@1.0.0"]);
}

/// A package that moves to a less restrictive realm moves what it depends on.
#[test]
fn origins_move_on() {
    let mut registry = InMemoryRegistry::new();
    registry.publish(PackageBuilder::new("x/a@1.0.0").with_dep("B", "x/b@1.0.0"));
    registry.publish(PackageBuilder::new("x/b@1.0.0"));
    registry.publish(PackageBuilder::new("x/c@1.0.0").with_dep("A", "x/a@1.0.0"));
    let root = PackageBuilder::new("x/root@1.0.0")
        .with_dep("C", "x/c@1.0.0")
        .with_dev_dep("A", "x/a@1.0.0");
    let resolved = resolve_package(&registry, &root).unwrap();
    assert_eq!(realms(&resolved, "x/a@1.0.0"), (Realm::Shared, Realm::Shared));
    assert_eq!(realms(&resolved, "x/b@1.0.0"), (Realm::Shared, Realm::Shared));

    // So no package outside the dev realm is linked to one inside.
    let mut roots: OrdSet<PackageId> = OrdSet::new();
    roots.insert(id("x/root@1.0.0"));
    let shared = Some("game.Packages".to_owned());
    let context = InstallationContext::new(&PathBuf::parse("/ws"), shared, None);
    assert_eq!(context.install(&roots, &resolved).error, None);
}

/// What a shared package requires that is not server-only is not server-only
/// either, though a server package required it first.
#[test]
fn origins_move_on_from_server() {
    let mut registry = InMemoryRegistry::new();
    registry.publish(PackageBuilder::new("biff/q@1.0.0"));
    registry.publish(PackageBuilder::new("biff/p@1.0.0").with_dep("Q", "biff/q@1.0.0"));
    registry.publish(PackageBuilder::new("biff/b@1.0.0").with_dep("P", "biff/p@1.0.0"));
    registry.publish(PackageBuilder::new("biff/a@1.0.0").with_dep("B", "biff/b@1.0.0"));
    registry.publish(
        PackageBuilder::new("biff/s@1.0.0")
            .with_realm(Realm::Server)
            .with_dep("P", "biff/p@1.0.0"),
    );
    let root = PackageBuilder::new("biff/root@1.0.0")
        .with_dep("A", "biff/a@1.0.0")
        .with_server_dep("S", "biff/s@1.0.0");
    let resolved = resolve_package(&registry, &root).unwrap();
    assert_eq!(realms(&resolved, "biff/p@1.0.0"), (Realm::Shared, Realm::Shared));
    assert_eq!(realms(&resolved, "biff/q@1.0.0"), (Realm::Shared, Realm::Shared));
    assert_eq!(realms(&resolved, "biff/s@1.0.0"), (Realm::Server, Realm::Server));
}

/// Server dependencies of a shared package are server-only.
#[test]
fn server_dependencies_are_server_only() {
    let mut registry = InMemoryRegistry::new();
    registry.publish(PackageBuilder::new("biff/server@1.0.0").with_realm(Realm::Server));
    registry.publish(
        PackageBuilder::new("biff/a@1.0.0").with_server_dep("Server", "biff/server@1.0.0"),
    );
    let root = PackageBuilder::new("biff/root@1.0.0").with_dep("A", "biff/a@1.0.0");
    let resolved = resolve_package(&registry, &root).unwrap();
    assert_eq!(realms(&resolved, "biff/server@1.0.0"), (Realm::Server, Realm::Server));
    let root = PackageBuilder::new("biff/root@1.0.0").with_dev_dep("A", "biff/a@1.0.0");
    let resolved = resolve_package(&registry, &root).unwrap();
    assert_eq!(realms(&resolved, "biff/server@1.0.0"), (Realm::Server, Realm::Dev));
}

/// A server package cannot become a shared one, though it was chosen before.
#[test]
fn server_packages_are_not_reused_as_shared_ones() {
    let mut registry = InMemoryRegistry::new();
    registry.publish(PackageBuilder::new("biff/server@1.0.0").with_realm(Realm::Server));
    registry.publish(
        PackageBuilder::new("biff/a@1.0.0").with_dep("Server", "biff/server@1.0.0"),
    );
    let root = PackageBuilder::new("biff/root@1.0.0")
        .with_dep("A", "biff/a@1.0.0")
        .with_server_dep("Server", "biff/server@1.0.0");
    let error = resolve_package(&registry, &root).unwrap_err();
    assert_eq!(
        error,
        ResolveError::RealmMismatch {
            dependent: id("biff/a@1.0.0"),
            realm: Realm::Shared,
            alias: "Server".to_owned(),
            target: id("biff/server@1.0.0"),
            target_realm: Realm::Server,
        }
    );
}

/// A graph of packages with these realms and origins, and no dependencies.
fn graph_of(packages: &[(&str, Realm, Realm)]) -> Resolve {
    let mut resolve = Resolve::default();
    for (text, realm, origin_realm) in packages {
        resolve.activated.insert(id(text));
        resolve.metadata.insert(
            id(text),
            ResolvePackageMetadata {
                realm: *realm,
                origin_realm: *origin_realm,
                source_registry: PackageSourceId::DefaultRegistry,
                is_workspace_member: false,
            },
        );
    }
    resolve
}

fn request(source: &str, realms: (Realm, Realm), alias: &str, req: &str) -> DependencyRequest {
    DependencyRequest {
        request_source: id(source),
        request_realm: realms.0,
        origin_realm: realms.1,
        package_alias: alias.to_owned(),
        kind: DependencyRequestKind::Registry(PackageReq::parse(req).unwrap()),
    }
}

#[test]
fn queues_are_emptied() {
    let (srv, sh) = ("biff/server@1.0.0", "biff/shared@1.0.0");
    let mut graph = graph_of(&[
        (srv, Realm::Server, Realm::Server),
        (sh, Realm::Shared, Realm::Shared),
    ]);
    let mut queue = VecDeque::new();
    queue.push_back(request(srv, (Realm::Shared, Realm::Server), "Shared", sh));
    let outcome = resolve_queued(
        &mut graph,
        &mut queue,
        &OrdSet::new(),
        &PackageSourceMap::new(),
        None,
        &CanonicalPaths::new(),
    );
    assert_eq!(outcome, Ok(()));
    assert!(queue.is_empty());
    assert_eq!(
        edges(&graph.shared_dependencies),
        vec!["biff/server@1.0.0 -> Shared -> biff/shared@1.0.0"]
    );
    assert!(graph.server_dependencies.is_empty());
    assert!(graph.dev_dependencies.is_empty());
    assert_eq!(realms(&graph, sh), (Realm::Shared, Realm::Shared));
    assert_eq!(texts(&graph.activated), vec![srv, sh]);
}

/// A request that is refused leaves the graph as it was.
#[test]
fn refused_requests_change_nothing() {
    let (root, lib) = ("x/root@1.0.0", "x/lib@1.0.0");
    let mut graph = graph_of(&[
        (root, Realm::Shared, Realm::Shared),
        (lib, Realm::Server, Realm::Server),
    ]);
    let before = graph.clone();
    let mut sources = PackageSourceMap::new();
    let other = PackageReq::parse("x/other@1.0.0").unwrap();
    sources.record(PackageSourceId::DefaultRegistry, other, None);
    let mut refuse = |request: DependencyRequest| {
        let mut queue = VecDeque::new();
        queue.push_back(request);
        let outcome = resolve_queued(
            &mut graph,
            &mut queue,
            &OrdSet::new(),
            &sources,
            None,
            &CanonicalPaths::new(),
        );
        assert_eq!(graph, before);
        assert!(queue.is_empty());
        outcome.unwrap_err()
    };
    let shared = (Realm::Shared, Realm::Shared);
    assert!(matches!(
        refuse(request(root, shared, "Lib", lib)),
        ResolveError::RealmMismatch { .. }
    ));
    assert!(matches!(
        refuse(request(root, shared, "Other", "x/other@1.0.0")),
        ResolveError::NoSource(_)
    ));
    assert!(matches!(
        refuse(request(root, shared, "More", "x/more@1.0.0")),
        ResolveError::Unanswered { .. }
    ));
    let by_path = DependencyRequest {
        kind: DependencyRequestKind::Path(PathBuf::parse("/ws/a")),
        ..request(root, shared, "A", lib)
    };
    assert!(matches!(refuse(by_path), ResolveError::NotAMember { .. }));
}

/// What was chosen before a request is refused stays, and is all that is known.
#[test]
fn refused_requests_leave_what_was_chosen() {
    let (root, lib) = ("x/root@1.0.0", "x/lib@1.0.0");
    let mut graph = graph_of(&[
        (root, Realm::Shared, Realm::Shared),
        (lib, Realm::Shared, Realm::Server),
    ]);
    let core = PackageReq::parse("x/core@1.0.0").unwrap();
    let mut sources = PackageSourceMap::new();
    sources.record(
        PackageSourceId::DefaultRegistry,
        core,
        Some(vec![PackageBuilder::new("x/core@1.2.0").manifest]),
    );
    let shared = (Realm::Shared, Realm::Shared);
    let mut queue = VecDeque::new();
    queue.push_back(request(root, shared, "Lib", lib));
    queue.push_back(request(lib, shared, "Core", "x/core@1.0.0"));
    queue.push_back(request(root, shared, "Core", "x/core@=1.0.0"));
    queue.push_back(request(root, shared, "Other", "x/other@1.0.0"));
    let outcome = resolve_queued(
        &mut graph,
        &mut queue,
        &OrdSet::new(),
        &sources,
        None,
        &CanonicalPaths::new(),
    );
    assert_eq!(
        outcome,
        Err(ResolveError::Unanswered {
            source: PackageSourceId::DefaultRegistry,
            req: PackageReq::parse("x/core@=1.0.0").unwrap(),
        })
    );
    // Nothing was replaced or removed, and `lib` has moved to the shared realm.
    assert_eq!(texts(&graph.activated), vec!["x/core@1.2.0", lib, root]);
    assert_eq!(realms(&graph, root), (Realm::Shared, Realm::Shared));
    assert_eq!(realms(&graph, lib), (Realm::Shared, Realm::Shared));
    assert_eq!(realms(&graph, "x/core@1.2.0"), (Realm::Shared, Realm::Shared));
    assert_eq!(graph.metadata.len(), graph.activated.len());
    assert_eq!(
        edges(&graph.shared_dependencies),
        vec![
            "x/lib@1.0.0 -> Core -> x/core@1.2.0",
            "x/root@1.0.0 -> Lib -> x/lib@1.0.0",
        ]
    );
    assert_eq!(queue.len(), 1);
}

/// A package that is locked stays also where the package that depends on it was
/// published since, and where its other requirements find more.
#[test]
fn further_versions_upgrade_nothing() {
    let mut registry = InMemoryRegistry::new();
    registry.publish(PackageBuilder::new("x/lib@1.2.0").with_dep("Core", "x/core@1.0.0"));
    registry.publish(PackageBuilder::new("x/core@1.0.0"));
    let root = PackageBuilder::new("x/root@1.0.0").with_dep("Lib", "x/lib@1.0.0");
    let resolved = resolve_package(&registry, &root).unwrap();
    registry.publish(PackageBuilder::new("x/root@1.0.0").with_dep("Lib", "x/lib@1.0.0"));
    registry.publish(PackageBuilder::new("x/root@1.1.0"));
    registry.publish(PackageBuilder::new("x/lib@1.3.0"));
    registry.publish(PackageBuilder::new("x/lib@2.0.0"));
    registry.publish(PackageBuilder::new("x/core@1.1.0"));
    assert_eq!(registry.resolve(&root.manifest, &resolved.activated), Ok(resolved));
}

/// A workspace may have members that were not chosen, as long as no path
/// dependency points to one.
#[test]
fn members_need_not_be_chosen() {
    let mut files = Files::new();
    files.write_manifest(
        "/ws",
        r#"
        [workspace]
        members = ["modules/*"]
        registry = "https://example.com/index"
        realm = "shared"
    "#,
    );
    files.write_manifest(
        "/ws/modules/app",
        r#"
        [package]
        name = "team/app"
        version = "1.0.0"
    "#,
    );
    let workspace = files.load("/ws").unwrap();
    let (root, lib) = ("x/root@1.0.0", "x/lib@1.0.0");
    let mut graph = graph_of(&[
        (root, Realm::Shared, Realm::Shared),
        (lib, Realm::Shared, Realm::Shared),
    ]);
    let mut queue = VecDeque::new();
    queue.push_back(request(root, (Realm::Shared, Realm::Shared), "Lib", lib));
    let outcome = resolve_queued(
        &mut graph,
        &mut queue,
        &OrdSet::new(),
        &PackageSourceMap::new(),
        Some(&workspace),
        &CanonicalPaths::new(),
    );
    assert_eq!(outcome, Ok(()));
    assert_eq!(texts(&graph.activated), vec![lib, root]);
}

#[test]
fn what_is_known_of_packages_can_be_copied() {
    let known = ResolvePackageMetadata {
        realm: Realm::Server,
        origin_realm: Realm::Dev,
        source_registry: PackageSourceId::Path(PathBuf::parse("/ws/lib")),
        is_workspace_member: true,
    };
    assert_eq!(known.clone(), known);
}

/// A package is found only for a dependency of a realm that allows its own.
#[test]
fn packages_fit_what_they_are_found_for() {
    let mut registry = InMemoryRegistry::new();
    registry.publish(PackageBuilder::new("x/lib@1.0.0"));
    registry.publish(PackageBuilder::new("x/lib@1.1.0").with_realm(Realm::Server));
    let root = PackageBuilder::new("x/root@1.0.0").with_dep("Lib", "x/lib@1.0.0");
    let resolved = resolve_package(&registry, &root).unwrap();
    assert_eq!(texts(&resolved.activated), vec!["x/lib@1.0.0", "x/root@1.0.0"]);
    let root = PackageBuilder::new("x/root@1.0.0").with_server_dep("Lib", "x/lib@1.0.0");
    let resolved = resolve_package(&registry, &root).unwrap();
    assert_eq!(texts(&resolved.activated), vec!["x/lib@1.1.0", "x/root@1.0.0"]);
    assert_eq!(realms(&resolved, "x/lib@1.1.0"), (Realm::Server, Realm::Server));
}

/// A package has the least restrictive of the realms that ask for it, and no
/// other.
#[test]
fn origins_are_needed() {
    let mut registry = InMemoryRegistry::new();
    for lib in ["x/a@1.0.0", "x/b@1.0.0", "x/c@1.0.0"] {
        registry.publish(PackageBuilder::new(lib));
    }
    let root = PackageBuilder::new("x/root@1.0.0")
        .with_dep("A", "x/a@1.0.0")
        .with_server_dep("ServerA", "x/a@1.0.0")
        .with_server_dep("ServerB", "x/b@1.0.0")
        .with_dev_dep("DevB", "x/b@1.0.0")
        .with_dev_dep("DevC", "x/c@1.0.0");
    let resolved = resolve_package(&registry, &root).unwrap();
    assert_eq!(realms(&resolved, "x/a@1.0.0").1, Realm::Shared);
    assert_eq!(realms(&resolved, "x/b@1.0.0").1, Realm::Server);
    assert_eq!(realms(&resolved, "x/c@1.0.0").1, Realm::Dev);
}

/// Every dependency of every chosen package is met by a chosen package.
#[test]
fn all_dependencies_are_met() {
    let mut registry = InMemoryRegistry::new();
    registry.publish(
        PackageBuilder::new("x/a@1.0.0")
            .with_dep("B", "x/b@1.0.0")
            .with_server_dep("S", "x/s@1.0.0")
            .with_dev_dep("Unused", "x/unused@1.0.0"),
    );
    registry.publish(PackageBuilder::new("x/b@1.4.0"));
    registry.publish(PackageBuilder::new("x/s@1.0.0").with_realm(Realm::Server));
    let root = PackageBuilder::new("x/root@1.0.0").with_dep("A", "x/a@1.0.0");
    let resolved = resolve_package(&registry, &root).unwrap();
    assert_eq!(
        texts(&resolved.activated),
        vec!["x/a@1.0.0", "x/b@1.4.0", "x/root@1.0.0", "x/s@1.0.0"]
    );
    assert_eq!(
        edges(&resolved.shared_dependencies),
        vec![
            "x/a@1.0.0 -> B -> x/b@1.4.0",
            "x/root@1.0.0 -> A -> x/a@1.0.0",
        ]
    );
    assert_eq!(edges(&resolved.server_dependencies), vec!["x/a@1.0.0 -> S -> x/s@1.0.0"]);
    assert_eq!(resolved.metadata.len(), 4);
}

/// Where an alias stands in two sections and both packages are asked for from one
/// realm, the later one counts.
#[test]
fn later_sections_take_an_alias_over() {
    let mut registry = InMemoryRegistry::new();
    registry.publish(
        PackageBuilder::new("x/a@1.0.0")
            .with_dep("X", "x/b@1.0.0")
            .with_server_dep("X", "x/c@1.0.0"),
    );
    registry.publish(PackageBuilder::new("x/b@1.0.0"));
    registry.publish(PackageBuilder::new("x/c@1.0.0"));
    let root = PackageBuilder::new("x/root@1.0.0").with_dev_dep("A", "x/a@1.0.0");
    let resolved = resolve_package(&registry, &root).unwrap();
    assert_eq!(
        texts(&resolved.activated),
        vec!["x/a@1.0.0", "x/b@1.0.0", "x/c@1.0.0", "x/root@1.0.0"]
    );
    assert_eq!(
        edges(&resolved.dev_dependencies),
        vec!["x/a@1.0.0 -> X -> x/c@1.0.0", "x/root@1.0.0 -> A -> x/a@1.0.0"]
    );
    // From two realms, both stand.
    let root = PackageBuilder::new("x/root@1.0.0").with_dep("A", "x/a@1.0.0");
    let resolved = resolve_package(&registry, &root).unwrap();
    assert_eq!(
        edges(&resolved.shared_dependencies),
        vec!["x/a@1.0.0 -> X -> x/b@1.0.0", "x/root@1.0.0 -> A -> x/a@1.0.0"]
    );
    assert_eq!(edges(&resolved.server_dependencies), vec!["x/a@1.0.0 -> X -> x/c@1.0.0"]);
}

// ---------------------------------------------------------------------------
// Workspaces
// ---------------------------------------------------------------------------

fn assert_activated(resolve: &Resolve, package: &str) {
    let pkg_name = name(package);
    assert!(
        (0..resolve.activated.len()).any(|i| resolve.activated.at(i).name() == &pkg_name),
        "expected {} to be activated, activated: {:?}",
        package,
        resolve.activated
    );
}

fn find_package_id(resolve: &Resolve, package: &str) -> PackageId {
    let pkg_name = name(package);
    (0..resolve.activated.len())
        .map(|i| resolve.activated.at(i))
        .find(|id| id.name() == &pkg_name)
        .cloned()
        .unwrap_or_else(|| panic!("package {} not found in activated set", package))
}

/// Two members, no cross-deps -- basic workspace resolution.
#[test]
fn workspace_two_members_no_cross_deps() {
    let mut files = Files::new();
    files.write_manifest(
        ROOT,
        r#"
        [workspace]
        members = ["modules/*"]
        registry = "https://example.com/index"
        realm = "server"
        "#,
    );
    files.write_manifest(
        "/ws/modules/alpha",
        r#"
        [package]
        name = "team/alpha"
        version = "0.1.0"
        registry = "https://example.com/index"
        realm = "server"
        "#,
    );
    files.write_manifest(
        "/ws/modules/beta",
        r#"
        [package]
        name = "team/beta"
        version = "0.2.0"
        registry = "https://example.com/index"
        realm = "server"
        "#,
    );

    let workspace = files.load(ROOT).unwrap();
    let registry = InMemoryRegistry::new();
    let resolved = registry.resolve_workspace(&files, &workspace, &OrdSet::new()).unwrap();

    assert_eq!(resolved.activated.len(), 2);
    assert_activated(&resolved, "team/alpha");
    assert_activated(&resolved, "team/beta");

    let alpha_id = find_package_id(&resolved, "team/alpha");
    let beta_id = find_package_id(&resolved, "team/beta");

    assert!(matches!(
        resolved.metadata.get(&alpha_id).unwrap().source_registry,
        PackageSourceId::Path(_)
    ));
    assert!(matches!(
        resolved.metadata.get(&beta_id).unwrap().source_registry,
        PackageSourceId::Path(_)
    ));

}

/// A depends on B via path -- path dep creates correct edge.
#[test]
fn workspace_path_dep_a_to_b() {
    let mut files = Files::new();
    files.write_manifest(
        ROOT,
        r#"
        [workspace]
        members = ["modules/*"]
        registry = "https://example.com/index"
        realm = "shared"
        "#,
    );
    files.write_manifest(
        "/ws/modules/foo",
        r#"
        [package]
        name = "team/foo"
        version = "1.0.0"
        registry = "https://example.com/index"
        realm = "shared"

        [dependencies]
        Bar = { path = "../bar" }
        "#,
    );
    files.write_manifest(
        "/ws/modules/bar",
        r#"
        [package]
        name = "team/bar"
        version = "1.0.0"
        registry = "https://example.com/index"
        realm = "shared"
        "#,
    );

    let workspace = files.load(ROOT).unwrap();
    let registry = InMemoryRegistry::new();
    let resolved = registry.resolve_workspace(&files, &workspace, &OrdSet::new()).unwrap();

    assert_eq!(resolved.activated.len(), 2);

    let foo_id = find_package_id(&resolved, "team/foo");
    let bar_id = find_package_id(&resolved, "team/bar");

    let foo_shared_deps = resolved.shared_dependencies.get(&foo_id).unwrap();
    assert_eq!(foo_shared_deps.get(&"Bar".to_owned()), Some(&bar_id));

}

/// Diamond: A -> B (path) + A -> C (registry), B -> C (registry).
/// C should be unified (activated once).
#[test]
fn workspace_diamond_path_and_registry() {
    let mut files = Files::new();
    files.write_manifest(
        ROOT,
        r#"
        [workspace]
        members = ["modules/*"]
        registry = "https://example.com/index"
        realm = "shared"
        "#,
    );
    files.write_manifest(
        "/ws/modules/app",
        r#"
        [package]
        name = "team/app"
        version = "1.0.0"
        registry = "https://example.com/index"
        realm = "shared"

        [dependencies]
        Lib = { path = "../lib" }
        Util = "ext/util@1.0.0"
        "#,
    );
    files.write_manifest(
        "/ws/modules/lib",
        r#"
        [package]
        name = "team/lib"
        version = "1.0.0"
        registry = "https://example.com/index"
        realm = "shared"

        [dependencies]
        Util = "ext/util@1.0.0"
        "#,
    );

    let workspace = files.load(ROOT).unwrap();
    let mut registry = InMemoryRegistry::new();
    registry.publish(PackageBuilder::new("ext/util@1.0.0"));
    let resolved = registry.resolve_workspace(&files, &workspace, &OrdSet::new()).unwrap();

    // 2 workspace members + 1 registry package = 3
    assert_eq!(resolved.activated.len(), 3);

    let app_id = find_package_id(&resolved, "team/app");
    let lib_id = find_package_id(&resolved, "team/lib");
    let util_id = find_package_id(&resolved, "ext/util");

    // app -> lib (path), app -> util (registry)
    let app_deps = resolved.shared_dependencies.get(&app_id).unwrap();
    assert_eq!(app_deps.get(&"Lib".to_owned()), Some(&lib_id));
    assert_eq!(app_deps.get(&"Util".to_owned()), Some(&util_id));

    // lib -> util (registry)
    let lib_deps = resolved.shared_dependencies.get(&lib_id).unwrap();
    assert_eq!(lib_deps.get(&"Util".to_owned()), Some(&util_id));

    // util is a registry package
    assert_eq!(
        resolved.metadata.get(&util_id).unwrap().source_registry,
        PackageSourceId::DefaultRegistry
    );

}

/// Path dep to non-member directory should error.
#[test]
fn workspace_path_dep_non_member_errors() {
    let mut files = Files::new();
    files.write_manifest(
        ROOT,
        r#"
        [workspace]
        members = ["modules/*"]
        registry = "https://example.com/index"
        realm = "shared"
        "#,
    );
    files.write_manifest(
        "/ws/modules/foo",
        r#"
        [package]
        name = "team/foo"
        version = "1.0.0"
        registry = "https://example.com/index"
        realm = "shared"

        [dependencies]
        External = { path = "../../nonexistent" }
        "#,
    );

    let workspace = files.load(ROOT).unwrap();
    let registry = InMemoryRegistry::new();
    let result = registry.resolve_workspace(&files, &workspace, &OrdSet::new());
    assert!(result.is_err());
    let err = result.unwrap_err().message();
    assert!(
        err.contains("External") || err.contains("workspace member"),
        "error should mention the dependency name or workspace: {}",
        err
    );
}

/// Shared member cannot depend on server member via [dependencies].
#[test]
fn workspace_realm_validation_shared_cannot_dep_on_server() {
    let mut files = Files::new();
    files.write_manifest(
        ROOT,
        r#"
        [workspace]
        members = ["modules/*"]
        registry = "https://example.com/index"
        "#,
    );
    files.write_manifest(
        "/ws/modules/client",
        r#"
        [package]
        name = "team/client"
        version = "1.0.0"
        registry = "https://example.com/index"
        realm = "shared"

        [dependencies]
        ServerLib = { path = "../server-lib" }
        "#,
    );
    files.write_manifest(
        "/ws/modules/server-lib",
        r#"
        [package]
        name = "team/server-lib"
        version = "1.0.0"
        registry = "https://example.com/index"
        realm = "server"
        "#,
    );

    let workspace = files.load(ROOT).unwrap();
    let registry = InMemoryRegistry::new();
    let result = registry.resolve_workspace(&files, &workspace, &OrdSet::new());
    assert!(result.is_err());
    let err = result.unwrap_err().message();
    assert!(
        err.contains("realm") || err.contains("compatible"),
        "error should mention realm incompatibility: {}",
        err
    );
}

/// Server member CAN depend on shared member (server deps can use shared).
/// Because shared-lib is pre-activated as a root with origin_realm=Shared,
/// the merged origin stays Shared and the edge is recorded in shared_dependencies.
#[test]
fn workspace_server_member_depends_on_shared_via_path() {
    let mut files = Files::new();
    files.write_manifest(
        ROOT,
        r#"
        [workspace]
        members = ["modules/*"]
        registry = "https://example.com/index"
        "#,
    );
    files.write_manifest(
        "/ws/modules/svc",
        r#"
        [package]
        name = "team/svc"
        version = "1.0.0"
        registry = "https://example.com/index"
        realm = "server"

        [server-dependencies]
        SharedLib = { path = "../shared-lib" }
        "#,
    );
    files.write_manifest(
        "/ws/modules/shared-lib",
        r#"
        [package]
        name = "team/shared-lib"
        version = "1.0.0"
        registry = "https://example.com/index"
        realm = "shared"
        "#,
    );

    let workspace = files.load(ROOT).unwrap();
    let registry = InMemoryRegistry::new();
    let resolved = registry.resolve_workspace(&files, &workspace, &OrdSet::new()).unwrap();

    let svc_id = find_package_id(&resolved, "team/svc");
    let shared_lib_id = find_package_id(&resolved, "team/shared-lib");

    // shared-lib is pre-activated with origin_realm=Shared, so the
    // merged origin is Shared and the edge lands in shared_dependencies.
    let svc_shared_deps = resolved.shared_dependencies.get(&svc_id).unwrap();
    assert_eq!(svc_shared_deps.get(&"SharedLib".to_owned()), Some(&shared_lib_id));

    assert_eq!(
        resolved.metadata.get(&shared_lib_id).unwrap().origin_realm,
        Realm::Shared
    );

}

/// Origin realm merging: a shared member initially activated as Shared
/// stays Shared even when also depended upon from a server context.
#[test]
fn workspace_origin_realm_merging() {
    let mut files = Files::new();
    files.write_manifest(
        ROOT,
        r#"
        [workspace]
        members = ["modules/*"]
        registry = "https://example.com/index"
        "#,
    );
    files.write_manifest(
        "/ws/modules/shared-user",
        r#"
        [package]
        name = "team/shared-user"
        version = "1.0.0"
        registry = "https://example.com/index"
        realm = "shared"

        [dependencies]
        Common = { path = "../common" }
        "#,
    );
    files.write_manifest(
        "/ws/modules/server-user",
        r#"
        [package]
        name = "team/server-user"
        version = "1.0.0"
        registry = "https://example.com/index"
        realm = "server"

        [server-dependencies]
        Common = { path = "../common" }
        "#,
    );
    files.write_manifest(
        "/ws/modules/common",
        r#"
        [package]
        name = "team/common"
        version = "1.0.0"
        registry = "https://example.com/index"
        realm = "shared"
        "#,
    );

    let workspace = files.load(ROOT).unwrap();
    let registry = InMemoryRegistry::new();
    let resolved = registry.resolve_workspace(&files, &workspace, &OrdSet::new()).unwrap();

    let common_id = find_package_id(&resolved, "team/common");
    // Common is depended on from both shared and server contexts.
    // The merge should promote to Shared (least restrictive).
    assert_eq!(resolved.metadata.get(&common_id).unwrap().origin_realm, Realm::Shared);

}

/// Dev deps are resolved for member roots.
#[test]
fn workspace_dev_deps_resolved_for_members() {
    let mut files = Files::new();
    files.write_manifest(
        ROOT,
        r#"
        [workspace]
        members = ["modules/*"]
        registry = "https://example.com/index"
        realm = "shared"
        "#,
    );
    files.write_manifest(
        "/ws/modules/lib",
        r#"
        [package]
        name = "team/lib"
        version = "1.0.0"
        registry = "https://example.com/index"
        realm = "shared"

        [dev-dependencies]
        TestEZ = "roblox/testez@0.4.0"
        "#,
    );

    let workspace = files.load(ROOT).unwrap();
    let mut registry = InMemoryRegistry::new();
    registry.publish(PackageBuilder::new("roblox/testez@0.4.0"));
    let resolved = registry.resolve_workspace(&files, &workspace, &OrdSet::new()).unwrap();

    // lib + testez
    assert_eq!(resolved.activated.len(), 2);

    let lib_id = find_package_id(&resolved, "team/lib");
    let testez_id = find_package_id(&resolved, "roblox/testez");

    let lib_dev_deps = resolved.dev_dependencies.get(&lib_id).unwrap();
    assert_eq!(lib_dev_deps.get(&"TestEZ".to_owned()), Some(&testez_id));

    // TestEZ should have origin_realm = Dev (only used via dev deps)
    assert_eq!(resolved.metadata.get(&testez_id).unwrap().origin_realm, Realm::Dev);

}

/// Lockfile try_to_use bias works in workspace context.
#[test]
fn workspace_try_to_use_bias() {
    let mut files = Files::new();
    files.write_manifest(
        ROOT,
        r#"
        [workspace]
        members = ["modules/*"]
        registry = "https://example.com/index"
        realm = "shared"
        "#,
    );
    files.write_manifest(
        "/ws/modules/app",
        r#"
        [package]
        name = "team/app"
        version = "1.0.0"
        registry = "https://example.com/index"
        realm = "shared"

        [dependencies]
        Util = "ext/util@1.0.0"
        "#,
    );

    let workspace = files.load(ROOT).unwrap();
    let mut registry = InMemoryRegistry::new();
    registry.publish(PackageBuilder::new("ext/util@1.0.0"));

    let first = registry.resolve_workspace(&files, &workspace, &OrdSet::new()).unwrap();

    // Publish a newer version, but bias toward old
    registry.publish(PackageBuilder::new("ext/util@1.1.0"));
    let biased = registry.resolve_workspace(&files, &workspace, &first.activated).unwrap();

    let util_id = find_package_id(&biased, "ext/util");
    assert_eq!(
        util_id.version().to_text(),
        "1.0.0",
        "should prefer the try_to_use version"
    );

}

/// Mutual path deps between members.
#[test]
fn workspace_mutual_path_deps() {
    let mut files = Files::new();
    files.write_manifest(
        ROOT,
        r#"
        [workspace]
        members = ["modules/*"]
        registry = "https://example.com/index"
        realm = "shared"
        "#,
    );
    files.write_manifest(
        "/ws/modules/a",
        r#"
        [package]
        name = "team/a"
        version = "1.0.0"
        registry = "https://example.com/index"
        realm = "shared"

        [dependencies]
        B = { path = "../b" }
        "#,
    );
    files.write_manifest(
        "/ws/modules/b",
        r#"
        [package]
        name = "team/b"
        version = "1.0.0"
        registry = "https://example.com/index"
        realm = "shared"

        [dependencies]
        A = { path = "../a" }
        "#,
    );

    let workspace = files.load(ROOT).unwrap();
    let registry = InMemoryRegistry::new();
    let resolved = registry.resolve_workspace(&files, &workspace, &OrdSet::new()).unwrap();

    assert_eq!(resolved.activated.len(), 2);

    let a_id = find_package_id(&resolved, "team/a");
    let b_id = find_package_id(&resolved, "team/b");

    let a_deps = resolved.shared_dependencies.get(&a_id).unwrap();
    assert_eq!(a_deps.get(&"B".to_owned()), Some(&b_id));

    let b_deps = resolved.shared_dependencies.get(&b_id).unwrap();
    assert_eq!(b_deps.get(&"A".to_owned()), Some(&a_id));

}

/// Single-package project through resolve_workspace produces same
/// results as through resolve.
#[test]
fn workspace_single_package_matches_resolve() {
    let mut files = Files::new();
    files.write_manifest(
        ROOT,
        r#"
        [package]
        name = "biff/minimal"
        version = "0.1.0"
        registry = "https://example.com/index"
        realm = "shared"

        [dependencies]
        Dep = "ext/dep@1.0.0"
        "#,
    );

    let workspace = files.load(ROOT).unwrap();
    let mut registry = InMemoryRegistry::new();
    registry.publish(PackageBuilder::new("ext/dep@1.0.0"));

    let ws_resolved = registry.resolve_workspace(&files, &workspace, &OrdSet::new()).unwrap();

    // The same packages should be activated
    assert_eq!(ws_resolved.activated.len(), 2);
    assert_activated(&ws_resolved, "biff/minimal");
    assert_activated(&ws_resolved, "ext/dep");

    let root_id = find_package_id(&ws_resolved, "biff/minimal");
    let dep_id = find_package_id(&ws_resolved, "ext/dep");

    let root_deps = ws_resolved.shared_dependencies.get(&root_id).unwrap();
    assert_eq!(root_deps.get(&"Dep".to_owned()), Some(&dep_id));

    // Root should have PackageSourceId::Path (it's a workspace member)
    assert!(matches!(
        ws_resolved.metadata.get(&root_id).unwrap().source_registry,
        PackageSourceId::Path(_)
    ));
    // Dep should come from the registry
    assert_eq!(
        ws_resolved.metadata.get(&dep_id).unwrap().source_registry,
        PackageSourceId::DefaultRegistry
    );

}

/// A single package and a workspace with one member come to the same, but for
/// where the root comes from.
#[test]
fn single_packages_are_workspaces() {
    let content = r#"
        [package]
        name = "x/root"
        version = "0.1.0"
        registry = "https://example.com/index"
        realm = "shared"

        [dependencies]
        Dep = "ext/dep@1.0.0"

        [dev-dependencies]
        Test = "ext/test@1.0.0"
    "#;
    let mut files = Files::new();
    files.write_manifest(ROOT, content);
    let workspace = files.load(ROOT).unwrap();
    let mut registry = InMemoryRegistry::new();
    registry.publish(PackageBuilder::new("ext/dep@1.2.0").with_dep("Test", "ext/test@1.0.0"));
    registry.publish(PackageBuilder::new("ext/test@1.5.0"));
    let mut as_workspace =
        registry.resolve_workspace(&files, &workspace, &OrdSet::new()).unwrap();
    let manifest = workspace.members().value_at(0);
    let as_package = registry.resolve(manifest, &OrdSet::new()).unwrap();
    assert_ne!(as_workspace, as_package);
    let root = as_package.metadata.get(&id("x/root@0.1.0")).unwrap();
    as_workspace.metadata.insert(
        id("x/root@0.1.0"),
        wally::resolution::ResolvePackageMetadata {
            realm: root.realm,
            origin_realm: root.origin_realm,
            source_registry: root.source_registry.clone(),
            is_workspace_member: root.is_workspace_member,
        },
    );
    assert_eq!(as_workspace, as_package);
}

#[test]
fn realm_mismatches_are_written() {
    let error = ResolveError::RealmMismatch {
        dependent: id("team/client@1.0.0"),
        realm: Realm::Shared,
        alias: "Lib".to_owned(),
        target: id("team/lib@2.0.0"),
        target_realm: Realm::Server,
    };
    assert_eq!(
        error.message(),
        "Package team/client@1.0.0 has a Shared dependency 'Lib' on team/lib@2.0.0, but \
         team/lib@2.0.0 has realm Server which is not compatible"
    );
    let error =
        ResolveError::NotAMember { alias: "Lib".to_owned(), dir: PathBuf::parse("/ws/../lib") };
    assert_eq!(
        error.message(),
        "path dependency 'Lib' at /ws/../lib does not point to a workspace member"
    );
}
