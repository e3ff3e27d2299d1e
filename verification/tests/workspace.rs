use wally::dependency_spec::{DependencySpec, PathDependencySpec};
use wally::manifest::{
    Package, PlaceInfo, ProjectManifest, Realm, WorkspaceInheritable, WorkspaceMetadata,
};
use wally::ordered::OrdMap;
use wally::package_id::PackageId;
use wally::package_name::PackageName;
use wally::package_req::PackageReq;
use wally::path::PathBuf;
use wally::version::{Identifier, Version};
use wally::workspace::{
    discover_members, member_pattern, resolve_dep_map, resolve_inheritable_or_default,
    CanonicalPaths, DependencyFault, DiscoverError, FieldFault, GlobMatch, LoadedMember,
    MemberError, PatternMatches, RawMemberManifest, RawMemberPackage, Section, Workspace,
    WorkspaceError,
};

const ROOT: &str = "/ws";

fn version(text: &str) -> Version {
    let parsed = semver::Version::parse(text).unwrap();
    let identifier = |i: &semver::Identifier| match i {
        semver::Identifier::Numeric(n) => Identifier::Numeric(*n),
        semver::Identifier::AlphaNumeric(t) => Identifier::AlphaNumeric(t.clone()),
    };
    Version {
        major: parsed.major,
        minor: parsed.minor,
        patch: parsed.patch,
        pre: parsed.pre.iter().map(identifier).collect(),
        build: parsed.build.iter().map(identifier).collect(),
    }
}

#[allow(dead_code)]
fn name(text: &str) -> PackageName {
    PackageName::parse(text).unwrap()
}

#[allow(dead_code)]
fn id(text: &str) -> PackageId {
    let (package, at) = text.split_once('@').unwrap();
    PackageId::new(name(package), version(at))
}

/// Text under a key of a table.
fn text_at(table: &toml::Value, key: &str) -> Option<String> {
    table.get(key).and_then(|value| value.as_str()).map(|text| text.to_owned())
}

fn realm_of(text: &str) -> Realm {
    match text {
        "server" => Realm::Server,
        "shared" => Realm::Shared,
        "dev" => Realm::Dev,
        other => panic!("unknown realm {}", other),
    }
}

fn spec_of(value: &toml::Value) -> DependencySpec {
    if let Some(text) = value.as_str() {
        return DependencySpec::Registry(PackageReq::parse(text).unwrap());
    }
    match text_at(value, "path") {
        Some(path) => DependencySpec::Path(PathDependencySpec { path: PathBuf::parse(&path) }),
        None => DependencySpec::Workspace {
            workspace: value.get("workspace").unwrap().as_bool().unwrap(),
        },
    }
}

fn deps_at(table: &toml::Value, key: &str) -> OrdMap<String, DependencySpec> {
    let mut deps = OrdMap::new();
    if let Some(section) = table.get(key).and_then(|value| value.as_table()) {
        for (alias, value) in section {
            deps.insert(alias.clone(), spec_of(value));
        }
    }
    deps
}

fn inheritable_deps_at(
    table: &toml::Value,
    key: &str,
) -> OrdMap<String, WorkspaceInheritable<DependencySpec>> {
    let mut deps = OrdMap::new();
    if let Some(section) = table.get(key).and_then(|value| value.as_table()) {
        for (alias, value) in section {
            let spec = match spec_of(value) {
                DependencySpec::Workspace { workspace } => {
                    WorkspaceInheritable::Workspace { workspace }
                }
                spec => WorkspaceInheritable::Defined(spec),
            };
            deps.insert(alias.clone(), spec);
        }
    }
    deps
}

fn place_at(table: &toml::Value) -> PlaceInfo {
    match table.get("place") {
        Some(place) => PlaceInfo {
            shared_packages: text_at(place, "shared-packages"),
            server_packages: text_at(place, "server-packages"),
        },
        None => PlaceInfo::default(),
    }
}

fn is_private(package: &toml::Value) -> bool {
    package.get("private").and_then(|value| value.as_bool()).unwrap_or(false)
}

fn package_of(package: &toml::Value) -> Package {
    Package {
        name: name(&text_at(package, "name").unwrap()),
        version: version(&text_at(package, "version").unwrap()),
        registry: text_at(package, "registry").unwrap(),
        realm: realm_of(&text_at(package, "realm").unwrap()),
        description: None,
        license: None,
        authors: Vec::new(),
        includes: Vec::new(),
        exclude: Vec::new(),
        private: is_private(package),
        homepage: None,
        repository: None,
    }
}

fn project_of(content: &str) -> ProjectManifest {
    let value: toml::Value = toml::from_str(content).unwrap();
    ProjectManifest {
        package: value.get("package").map(package_of),
        workspace: value.get("workspace").map(|workspace| WorkspaceMetadata {
            members: workspace
                .get("members")
                .and_then(|members| members.as_array())
                .unwrap()
                .iter()
                .map(|member| member.as_str().unwrap().to_owned())
                .collect(),
            registry: text_at(workspace, "registry"),
            realm: text_at(workspace, "realm").map(|realm| realm_of(&realm)),
            default_member: text_at(workspace, "default-member").map(|member| name(&member)),
            place: place_at(workspace),
            dependencies: deps_at(workspace, "dependencies"),
        }),
        place: place_at(&value),
        dependencies: deps_at(&value, "dependencies"),
        server_dependencies: deps_at(&value, "server-dependencies"),
        dev_dependencies: deps_at(&value, "dev-dependencies"),
    }
}

fn member_of(content: &str) -> RawMemberManifest {
    let value: toml::Value = toml::from_str(content).unwrap();
    let package = value.get("package").unwrap();
    let directive = |value: &toml::Value| {
        value.get("workspace").and_then(|workspace| workspace.as_bool())
    };
    RawMemberManifest {
        package: RawMemberPackage {
            name: name(&text_at(package, "name").unwrap()),
            version: version(&text_at(package, "version").unwrap()),
            registry: package.get("registry").map(|value| match directive(value) {
                Some(workspace) => WorkspaceInheritable::Workspace { workspace },
                None => WorkspaceInheritable::Defined(value.as_str().unwrap().to_owned()),
            }),
            realm: package.get("realm").map(|value| match directive(value) {
                Some(workspace) => WorkspaceInheritable::Workspace { workspace },
                None => WorkspaceInheritable::Defined(realm_of(value.as_str().unwrap())),
            }),
            description: None,
            license: None,
            authors: Vec::new(),
            includes: Vec::new(),
            exclude: Vec::new(),
            private: is_private(package),
            homepage: None,
            repository: None,
        },
        place: place_at(&value),
        dependencies: inheritable_deps_at(&value, "dependencies"),
        server_dependencies: inheritable_deps_at(&value, "server-dependencies"),
        dev_dependencies: inheritable_deps_at(&value, "dev-dependencies"),
    }
}

/// Manifests by their directories, and directories without one.
struct Files {
    manifests: Vec<(String, String)>,
    bare_dirs: Vec<String>,
}

impl Files {
    fn new() -> Files {
        Files { manifests: Vec::new(), bare_dirs: Vec::new() }
    }

    fn write_manifest(&mut self, dir: &str, content: &str) {
        self.manifests.push((dir.to_owned(), content.to_owned()));
    }

    fn read(&self, dir: &str) -> Option<&str> {
        self.manifests
            .iter()
            .find(|(other, _)| other == dir)
            .map(|(_, content)| content.as_str())
    }

    fn is_dir(&self, dir: &str) -> bool {
        let inside = format!("{}/", dir);
        self.manifests
            .iter()
            .map(|(other, _)| other)
            .chain(self.bare_dirs.iter())
            .any(|other| other == dir || other.starts_with(&inside))
    }

    /// Where an absolute path leads to, if there is a directory.
    fn canonicalize(&self, path: &str) -> Option<String> {
        let mut parts: Vec<&str> = Vec::new();
        for part in path.split('/') {
            match part {
                "" | "." => {}
                ".." => {
                    parts.pop();
                }
                part => parts.push(part),
            }
        }
        let canonical = format!("/{}", parts.join("/"));
        if self.is_dir(&canonical) {
            Some(canonical)
        } else {
            None
        }
    }

    /// What a pattern that ends in `/*` matches.
    fn matches(&self, root: &PathBuf, pattern: &str) -> PatternMatches {
        let full = member_pattern(root, pattern);
        let prefix = full.as_str().strip_suffix('*').unwrap().to_owned();
        let mut dirs: Vec<&String> = self
            .manifests
            .iter()
            .map(|(dir, _)| dir)
            .chain(self.bare_dirs.iter())
            .filter(|dir| dir.starts_with(&prefix) && !dir[prefix.len()..].contains('/'))
            .collect();
        dirs.sort();
        PatternMatches {
            pattern: pattern.to_owned(),
            matches: Some(
                dirs.into_iter()
                    .map(|dir| GlobMatch::Found {
                        path: PathBuf::parse(dir),
                        is_dir: true,
                        has_manifest: self.read(dir).is_some(),
                        canonical: Some(PathBuf::parse(dir)),
                    })
                    .collect(),
            ),
        }
    }

    fn load(&self, root: &str) -> Result<Workspace, String> {
        let project = project_of(self.read(root).unwrap());
        let root = PathBuf::parse(root);
        let mut members: Vec<LoadedMember> = Vec::new();
        if let Some(workspace) = &project.workspace {
            let patterns: Vec<PatternMatches> =
                workspace.members.iter().map(|pattern| self.matches(&root, pattern)).collect();
            let dirs = discover_members(&patterns).map_err(|error| error.message())?;
            for i in 0..dirs.len() {
                let dir = dirs.at(i);
                members.push(LoadedMember {
                    dir: dir.clone(),
                    manifest: Ok(member_of(self.read(dir.as_str()).unwrap())),
                });
            }
        }
        Workspace::load(root, &project, &members).map_err(|error| error.message())
    }

    #[allow(dead_code)]
    fn canonical_paths(&self, workspace: &Workspace) -> CanonicalPaths {
        let mut canonical = CanonicalPaths::new();
        for dir in workspace.path_dependency_dirs() {
            if let Some(found) = self.canonicalize(dir.as_str()) {
                canonical.insert(dir, PathBuf::parse(&found));
            }
        }
        canonical
    }
}

// -----------------------------------------------------------------------
// Single-package wrapping
// -----------------------------------------------------------------------

#[test]
fn single_package_wraps_correctly() {
    let mut files = Files::new();
    files.write_manifest(
        ROOT,
        r#"
        [package]
        name = "test/my-package"
        version = "1.0.0"
        registry = "https://github.com/UpliftGames/wally-index"
        realm = "shared"
    "#,
    );

    let ws = files.load(ROOT).unwrap();
    assert!(ws.is_single_package());
    assert_eq!(ws.members().len(), 1);
    assert_eq!(ws.registry(), "https://github.com/UpliftGames/wally-index");
    assert!(ws.default_member().is_none());

    let (path, manifest) = (ws.members().key_at(0), ws.members().value_at(0));
    assert_eq!(*path, PathBuf::parse(ROOT));
    assert_eq!(manifest.package.name.to_text(), "test/my-package");
}

// -----------------------------------------------------------------------
// Multi-member workspace with globs
// -----------------------------------------------------------------------

#[test]
fn multi_member_workspace() {
    let mut files = Files::new();
    files.write_manifest(
        ROOT,
        r#"
        [workspace]
        members = ["packages/*"]
        registry = "https://github.com/UpliftGames/wally-index"
        realm = "shared"
    "#,
    );

    files.write_manifest(
        "/ws/packages/foo",
        r#"
        [package]
        name = "team/foo"
        version = "1.0.0"
        registry = "https://github.com/UpliftGames/wally-index"
        realm = "shared"
    "#,
    );

    files.write_manifest(
        "/ws/packages/bar",
        r#"
        [package]
        name = "team/bar"
        version = "2.0.0"
        registry = "https://github.com/UpliftGames/wally-index"
        realm = "server"
    "#,
    );

    let ws = files.load(ROOT).unwrap();
    assert!(!ws.is_single_package());
    assert_eq!(ws.members().len(), 2);
    assert_eq!(ws.registry(), "https://github.com/UpliftGames/wally-index");

    let foo_name = name("team/foo");
    let (_, foo) = ws.find_member_by_name(&foo_name).unwrap();
    assert_eq!(foo.package.version.to_text(), "1.0.0");

    let bar_name = name("team/bar");
    let (_, bar) = ws.find_member_by_name(&bar_name).unwrap();
    assert_eq!(bar.package.version.to_text(), "2.0.0");
    assert_eq!(bar.package.realm, Realm::Server);
}

// -----------------------------------------------------------------------
// Hybrid root ([workspace] + [package])
// -----------------------------------------------------------------------

#[test]
fn hybrid_root() {
    let mut files = Files::new();
    files.write_manifest(
        ROOT,
        r#"
        [package]
        name = "team/mono-root"
        version = "0.0.0"
        registry = "https://github.com/UpliftGames/wally-index"
        realm = "server"
        private = true

        [workspace]
        members = ["packages/*"]
        registry = "https://github.com/UpliftGames/wally-index"
    "#,
    );

    files.write_manifest(
        "/ws/packages/child",
        r#"
        [package]
        name = "team/child"
        version = "1.0.0"
        registry = "https://github.com/UpliftGames/wally-index"
        realm = "shared"
    "#,
    );

    let ws = files.load(ROOT).unwrap();
    assert!(!ws.is_single_package());
    assert_eq!(ws.members().len(), 2);

    let root_name = name("team/mono-root");
    let (root_path, root_manifest) = ws.find_member_by_name(&root_name).unwrap();
    assert_eq!(*root_path, PathBuf::parse(ROOT));
    assert!(root_manifest.package.private);

    let child_name = name("team/child");
    assert!(ws.find_member_by_name(&child_name).is_some());
}

// -----------------------------------------------------------------------
// Virtual workspace (no [package])
// -----------------------------------------------------------------------

#[test]
fn virtual_workspace() {
    let mut files = Files::new();
    files.write_manifest(
        ROOT,
        r#"
        [workspace]
        members = ["packages/*"]
        registry = "https://github.com/UpliftGames/wally-index"
        realm = "shared"
    "#,
    );

    files.write_manifest(
        "/ws/packages/alpha",
        r#"
        [package]
        name = "team/alpha"
        version = "1.0.0"
        registry = "https://github.com/UpliftGames/wally-index"
        realm = "shared"
    "#,
    );

    let ws = files.load(ROOT).unwrap();
    assert!(!ws.is_single_package());
    assert_eq!(ws.members().len(), 1);

    let name = name("team/alpha");
    assert!(ws.find_member_by_name(&name).is_some());
}

// -----------------------------------------------------------------------
// { workspace = true } inheritance for deps and metadata
// -----------------------------------------------------------------------

#[test]
fn workspace_inheritance_deps_and_metadata() {
    let mut files = Files::new();
    files.write_manifest(
        ROOT,
        r#"
        [workspace]
        members = ["packages/*"]
        registry = "https://github.com/UpliftGames/wally-index"
        realm = "shared"

        [workspace.dependencies]
        Roact = "roblox/roact@1.4.0"
        Promise = "evaera/promise@3.0.0"
    "#,
    );

    files.write_manifest(
        "/ws/packages/lib-a",
        r#"
        [package]
        name = "team/lib-a"
        version = "1.0.0"
        realm = { workspace = true }

        [dependencies]
        Roact = { workspace = true }
        Promise = { workspace = true }
    "#,
    );

    let ws = files.load(ROOT).unwrap();
    let name = name("team/lib-a");
    let (_, manifest) = ws.find_member_by_name(&name).unwrap();

    assert_eq!(
        manifest.package.registry,
        "https://github.com/UpliftGames/wally-index"
    );
    assert_eq!(manifest.package.realm, Realm::Shared);

    assert_eq!(manifest.dependencies.len(), 2);
    let roact = manifest.dependencies.get(&"Roact".to_owned()).unwrap();
    assert_eq!(roact.expect_registry().name().scope(), "roblox");
    let promise = manifest.dependencies.get(&"Promise".to_owned()).unwrap();
    assert_eq!(promise.expect_registry().name().scope(), "evaera");
}

#[test]
fn workspace_inheritance_member_overrides_metadata() {
    let mut files = Files::new();
    files.write_manifest(
        ROOT,
        r#"
        [workspace]
        members = ["packages/*"]
        registry = "https://default-registry.example.com"
        realm = "shared"
    "#,
    );

    files.write_manifest(
        "/ws/packages/custom",
        r#"
        [package]
        name = "team/custom"
        version = "1.0.0"
        registry = "https://custom-registry.example.com"
        realm = "server"
    "#,
    );

    let ws = files.load(ROOT).unwrap();
    let name = name("team/custom");
    let (_, manifest) = ws.find_member_by_name(&name).unwrap();

    assert_eq!(
        manifest.package.registry,
        "https://custom-registry.example.com"
    );
    assert_eq!(manifest.package.realm, Realm::Server);
}

#[test]
fn workspace_inheritance_omitted_fields_inherit() {
    let mut files = Files::new();
    files.write_manifest(
        ROOT,
        r#"
        [workspace]
        members = ["packages/*"]
        registry = "https://github.com/UpliftGames/wally-index"
        realm = "server"
    "#,
    );

    // Member omits registry and realm entirely -> inherits from workspace
    files.write_manifest(
        "/ws/packages/implicit",
        r#"
        [package]
        name = "team/implicit"
        version = "1.0.0"
    "#,
    );

    let ws = files.load(ROOT).unwrap();
    let name = name("team/implicit");
    let (_, manifest) = ws.find_member_by_name(&name).unwrap();

    assert_eq!(
        manifest.package.registry,
        "https://github.com/UpliftGames/wally-index"
    );
    assert_eq!(manifest.package.realm, Realm::Server);
}

// -----------------------------------------------------------------------
// Error: inherit from workspace when workspace doesn't define the field
// -----------------------------------------------------------------------

#[test]
fn error_inherit_missing_registry() {
    let mut files = Files::new();
    files.write_manifest(
        ROOT,
        r#"
        [workspace]
        members = ["packages/*"]
        realm = "shared"
    "#,
    );

    files.write_manifest(
        "/ws/packages/needs-registry",
        r#"
        [package]
        name = "team/needs-registry"
        version = "1.0.0"
        realm = "shared"
    "#,
    );

    let result = files.load(ROOT);
    assert!(result.is_err());
    let err = result.unwrap_err();
    assert!(err.contains("registry"), "error should mention registry: {}", err);
}

#[test]
fn error_inherit_missing_realm() {
    let mut files = Files::new();
    files.write_manifest(
        ROOT,
        r#"
        [workspace]
        members = ["packages/*"]
        registry = "https://github.com/UpliftGames/wally-index"
    "#,
    );

    files.write_manifest(
        "/ws/packages/needs-realm",
        r#"
        [package]
        name = "team/needs-realm"
        version = "1.0.0"
    "#,
    );

    let result = files.load(ROOT);
    assert!(result.is_err());
    let err = result.unwrap_err();
    assert!(err.contains("realm"), "error should mention realm: {}", err);
}

#[test]
fn error_inherit_dep_not_in_workspace() {
    let mut files = Files::new();
    files.write_manifest(
        ROOT,
        r#"
        [workspace]
        members = ["packages/*"]
        registry = "https://github.com/UpliftGames/wally-index"
        realm = "shared"
    "#,
    );

    files.write_manifest(
        "/ws/packages/bad",
        r#"
        [package]
        name = "team/bad"
        version = "1.0.0"

        [dependencies]
        Missing = { workspace = true }
    "#,
    );

    let result = files.load(ROOT);
    assert!(result.is_err());
    let err = result.unwrap_err();
    assert!(
        err.contains("Missing"),
        "error should mention the dep name: {}",
        err
    );
}

// -----------------------------------------------------------------------
// Error: no members found, duplicate names, invalid default_member
// -----------------------------------------------------------------------

#[test]
fn error_no_members_virtual_workspace() {
    let mut files = Files::new();
    files.write_manifest(
        ROOT,
        r#"
        [workspace]
        members = ["nonexistent/*"]
        registry = "https://github.com/UpliftGames/wally-index"
    "#,
    );

    let result = files.load(ROOT);
    assert!(result.is_err());
    assert!(result.unwrap_err().contains("no members"));
}

#[test]
fn error_duplicate_names() {
    let mut files = Files::new();
    files.write_manifest(
        ROOT,
        r#"
        [workspace]
        members = ["packages/*"]
        registry = "https://github.com/UpliftGames/wally-index"
        realm = "shared"
    "#,
    );

    files.write_manifest(
        "/ws/packages/first",
        r#"
        [package]
        name = "team/dupe"
        version = "1.0.0"
    "#,
    );

    files.write_manifest(
        "/ws/packages/second",
        r#"
        [package]
        name = "team/dupe"
        version = "2.0.0"
    "#,
    );

    let result = files.load(ROOT);
    assert!(result.is_err());
    let err = result.unwrap_err();
    assert!(
        err.contains("duplicate"),
        "error should mention duplicate: {}",
        err
    );
}

#[test]
fn error_invalid_default_member() {
    let mut files = Files::new();
    files.write_manifest(
        ROOT,
        r#"
        [workspace]
        members = ["packages/*"]
        default-member = "team/nonexistent"
        registry = "https://github.com/UpliftGames/wally-index"
        realm = "shared"
    "#,
    );

    files.write_manifest(
        "/ws/packages/actual",
        r#"
        [package]
        name = "team/actual"
        version = "1.0.0"
    "#,
    );

    let result = files.load(ROOT);
    assert!(result.is_err());
    let err = result.unwrap_err();
    assert!(
        err.contains("default-member"),
        "error should mention default-member: {}",
        err
    );
}

// -----------------------------------------------------------------------
// find_member_by_name, get_member_at_path, is_single_package
// -----------------------------------------------------------------------

#[test]
fn find_member_by_name() {
    let mut files = Files::new();
    files.write_manifest(
        ROOT,
        r#"
        [workspace]
        members = ["packages/*"]
        registry = "https://github.com/UpliftGames/wally-index"
        realm = "shared"
    "#,
    );

    files.write_manifest(
        "/ws/packages/needle",
        r#"
        [package]
        name = "team/needle"
        version = "1.0.0"
    "#,
    );

    files.write_manifest(
        "/ws/packages/other",
        r#"
        [package]
        name = "team/other"
        version = "2.0.0"
    "#,
    );

    let ws = files.load(ROOT).unwrap();

    let name = name("team/needle");
    let result = ws.find_member_by_name(&name);
    assert!(result.is_some());
    let (_, manifest) = result.unwrap();
    assert_eq!(manifest.package.version.to_text(), "1.0.0");

    let missing = PackageName::parse("team/missing").unwrap();
    assert!(ws.find_member_by_name(&missing).is_none());
}

#[test]
fn get_member_at_path() {
    let mut files = Files::new();
    files.write_manifest(
        ROOT,
        r#"
        [workspace]
        members = ["packages/*"]
        registry = "https://github.com/UpliftGames/wally-index"
        realm = "shared"
    "#,
    );

    files.write_manifest(
        "/ws/packages/target",
        r#"
        [package]
        name = "team/target"
        version = "3.0.0"
    "#,
    );

    let ws = files.load(ROOT).unwrap();

    // Lookup by a path that is not canonical should still work
    let member_path = PathBuf::parse("/ws/packages/../packages/target");
    let mut canonical = CanonicalPaths::new();
    canonical.insert(
        member_path.clone(),
        PathBuf::parse(&files.canonicalize(member_path.as_str()).unwrap()),
    );
    let manifest = ws.get_member_at_path(&PathBuf::parse("/ws/packages/target"), &canonical);
    assert!(manifest.is_some());
    let manifest = ws.get_member_at_path(&member_path, &canonical);
    assert!(manifest.is_some());
    assert_eq!(manifest.unwrap().package.name.to_text(), "team/target");

    // Non-existent path
    let bad = PathBuf::parse("/ws/packages/nope");
    assert!(ws.get_member_at_path(&bad, &canonical).is_none());
}

#[test]
fn is_single_package_true_for_plain_manifest() {
    let mut files = Files::new();
    files.write_manifest(
        ROOT,
        r#"
        [package]
        name = "test/single"
        version = "1.0.0"
        registry = "https://github.com/UpliftGames/wally-index"
        realm = "shared"
    "#,
    );

    let ws = files.load(ROOT).unwrap();
    assert!(ws.is_single_package());
}

#[test]
fn is_single_package_false_for_workspace() {
    let mut files = Files::new();
    files.write_manifest(
        ROOT,
        r#"
        [workspace]
        members = ["packages/*"]
        registry = "https://github.com/UpliftGames/wally-index"
        realm = "shared"
    "#,
    );

    files.write_manifest(
        "/ws/packages/only",
        r#"
        [package]
        name = "team/only"
        version = "1.0.0"
    "#,
    );

    let ws = files.load(ROOT).unwrap();
    assert!(!ws.is_single_package());
}

// -----------------------------------------------------------------------
// Registry and place inheritance
// -----------------------------------------------------------------------

#[test]
fn place_inheritance() {
    let mut files = Files::new();
    files.write_manifest(
        ROOT,
        r#"
        [workspace]
        members = ["packages/*"]
        registry = "https://github.com/UpliftGames/wally-index"
        realm = "shared"

        [workspace.place]
        shared-packages = "game.ReplicatedStorage.Packages"
        server-packages = "game.ServerScriptService.Packages"
    "#,
    );

    // Member with no [place] -> inherits workspace place
    files.write_manifest(
        "/ws/packages/inherits",
        r#"
        [package]
        name = "team/inherits"
        version = "1.0.0"
    "#,
    );

    // Member that overrides shared-packages only
    files.write_manifest(
        "/ws/packages/overrides",
        r#"
        [package]
        name = "team/overrides"
        version = "1.0.0"

        [place]
        shared-packages = "game.Workspace.CustomPackages"
    "#,
    );

    let ws = files.load(ROOT).unwrap();

    let name_inherits = name("team/inherits");
    let (_, m_inherits) = ws.find_member_by_name(&name_inherits).unwrap();
    assert_eq!(
        m_inherits.place.shared_packages.as_deref(),
        Some("game.ReplicatedStorage.Packages")
    );
    assert_eq!(
        m_inherits.place.server_packages.as_deref(),
        Some("game.ServerScriptService.Packages")
    );

    let name_overrides = name("team/overrides");
    let (_, m_overrides) = ws.find_member_by_name(&name_overrides).unwrap();
    assert_eq!(
        m_overrides.place.shared_packages.as_deref(),
        Some("game.Workspace.CustomPackages")
    );
    assert_eq!(
        m_overrides.place.server_packages.as_deref(),
        Some("game.ServerScriptService.Packages")
    );
}

#[test]
fn workspace_place_propagates_to_workspace_struct() {
    let mut files = Files::new();
    files.write_manifest(
        ROOT,
        r#"
        [workspace]
        members = ["packages/*"]
        registry = "https://github.com/UpliftGames/wally-index"
        realm = "shared"

        [workspace.place]
        shared-packages = "game.ReplicatedStorage.Packages"
    "#,
    );

    files.write_manifest(
        "/ws/packages/a",
        r#"
        [package]
        name = "team/a"
        version = "1.0.0"
    "#,
    );

    let ws = files.load(ROOT).unwrap();
    assert_eq!(
        ws.place().shared_packages.as_deref(),
        Some("game.ReplicatedStorage.Packages")
    );
}

// -----------------------------------------------------------------------
// Default member
// -----------------------------------------------------------------------

#[test]
fn valid_default_member() {
    let mut files = Files::new();
    files.write_manifest(
        ROOT,
        r#"
        [workspace]
        members = ["packages/*"]
        default-member = "team/primary"
        registry = "https://github.com/UpliftGames/wally-index"
        realm = "shared"
    "#,
    );

    files.write_manifest(
        "/ws/packages/primary",
        r#"
        [package]
        name = "team/primary"
        version = "1.0.0"
    "#,
    );

    files.write_manifest(
        "/ws/packages/secondary",
        r#"
        [package]
        name = "team/secondary"
        version = "1.0.0"
    "#,
    );

    let ws = files.load(ROOT).unwrap();
    assert_eq!(ws.default_member().unwrap().to_text(), "team/primary");
}

// -----------------------------------------------------------------------
// Error: no [package] and no [workspace]
// -----------------------------------------------------------------------

#[test]
fn error_neither_package_nor_workspace() {
    let mut files = Files::new();
    files.write_manifest(
        ROOT,
        r#"
        [place]
        shared-packages = "game.ReplicatedStorage.Packages"
    "#,
    );

    let result = files.load(ROOT);
    assert!(result.is_err());
    assert!(result.unwrap_err().contains("neither"));
}

// -----------------------------------------------------------------------
// Hybrid root inherits registry from [workspace] for workspace struct
// -----------------------------------------------------------------------

#[test]
fn hybrid_root_registry_from_workspace() {
    let mut files = Files::new();
    files.write_manifest(
        ROOT,
        r#"
        [package]
        name = "team/root"
        version = "0.0.0"
        registry = "https://pkg-registry.example.com"
        realm = "server"

        [workspace]
        members = ["packages/*"]
        registry = "https://ws-registry.example.com"
        realm = "shared"
    "#,
    );

    files.write_manifest(
        "/ws/packages/child",
        r#"
        [package]
        name = "team/child"
        version = "1.0.0"
    "#,
    );

    let ws = files.load(ROOT).unwrap();
    assert_eq!(ws.registry(), "https://ws-registry.example.com");
}

#[test]
fn hybrid_root_falls_back_to_package_registry() {
    let mut files = Files::new();
    files.write_manifest(
        ROOT,
        r#"
        [package]
        name = "team/root"
        version = "0.0.0"
        registry = "https://pkg-registry.example.com"
        realm = "server"

        [workspace]
        members = ["packages/*"]
        realm = "shared"
    "#,
    );

    // Child specifies its own registry since the workspace doesn't provide one.
    // This test verifies the *Workspace struct's* registry field falls back
    // to [package].registry when [workspace].registry is absent.
    files.write_manifest(
        "/ws/packages/child",
        r#"
        [package]
        name = "team/child"
        version = "1.0.0"
        registry = "https://child-registry.example.com"
        realm = "shared"
    "#,
    );

    let ws = files.load(ROOT).unwrap();
    assert_eq!(ws.registry(), "https://pkg-registry.example.com");
}

// -----------------------------------------------------------------------
// Directories without wally.toml are skipped by glob discovery
// -----------------------------------------------------------------------

#[test]
fn glob_skips_dirs_without_manifest() {
    let mut files = Files::new();
    files.write_manifest(
        ROOT,
        r#"
        [workspace]
        members = ["packages/*"]
        registry = "https://github.com/UpliftGames/wally-index"
        realm = "shared"
    "#,
    );

    files.write_manifest(
        "/ws/packages/real",
        r#"
        [package]
        name = "team/real"
        version = "1.0.0"
    "#,
    );

    // Directory without wally.toml
    files.bare_dirs.push("/ws/packages/no-manifest".to_owned());

    let ws = files.load(ROOT).unwrap();
    assert_eq!(ws.members().len(), 1);
}

// -----------------------------------------------------------------------
// Server-dependencies and dev-dependencies inheritance
// -----------------------------------------------------------------------

#[test]
fn workspace_inheritance_server_and_dev_deps() {
    let mut files = Files::new();
    files.write_manifest(
        ROOT,
        r#"
        [workspace]
        members = ["packages/*"]
        registry = "https://github.com/UpliftGames/wally-index"
        realm = "server"

        [workspace.dependencies]
        Roact = "roblox/roact@1.4.0"
        TestEZ = "roblox/testez@0.4.0"
    "#,
    );

    files.write_manifest(
        "/ws/packages/svc",
        r#"
        [package]
        name = "team/svc"
        version = "1.0.0"

        [server-dependencies]
        Roact = { workspace = true }

        [dev-dependencies]
        TestEZ = { workspace = true }
    "#,
    );

    let ws = files.load(ROOT).unwrap();
    let name = name("team/svc");
    let (_, manifest) = ws.find_member_by_name(&name).unwrap();

    assert_eq!(manifest.server_dependencies.len(), 1);
    assert_eq!(
        manifest
            .server_dependencies
            .get(&"Roact".to_owned())
            .unwrap()
            .expect_registry()
            .name()
            .scope(),
        "roblox"
    );

    assert_eq!(manifest.dev_dependencies.len(), 1);
    assert_eq!(
        manifest
            .dev_dependencies
            .get(&"TestEZ".to_owned())
            .unwrap()
            .expect_registry()
            .name()
            .scope(),
        "roblox"
    );
}

// ---------------------------------------------------------------------------
// Inheritance, field by field
// ---------------------------------------------------------------------------

#[test]
fn fields_are_inherited_or_defined() {
    let own = Some(WorkspaceInheritable::Defined("own".to_owned()));
    let inherited = Some(WorkspaceInheritable::Workspace { workspace: true });
    let refused = Some(WorkspaceInheritable::Workspace { workspace: false });
    let root = Some("root".to_owned());
    assert_eq!(resolve_inheritable_or_default(&own, &root), Ok("own".to_owned()));
    assert_eq!(resolve_inheritable_or_default(&own, &None), Ok("own".to_owned()));
    assert_eq!(resolve_inheritable_or_default(&inherited, &root), Ok("root".to_owned()));
    assert_eq!(
        resolve_inheritable_or_default::<String>(&inherited, &None),
        Err(FieldFault::NotDefined)
    );
    assert_eq!(
        resolve_inheritable_or_default(&refused, &root),
        Err(FieldFault::InvalidDirective)
    );
    assert_eq!(resolve_inheritable_or_default(&None, &root), Ok("root".to_owned()));
    assert_eq!(
        resolve_inheritable_or_default::<String>(&None, &None),
        Err(FieldFault::NotSet)
    );
}

#[test]
fn dependencies_are_inherited_or_defined() {
    let table: toml::Value = toml::from_str(
        r#"
        [own]
        A = "x/a@1.0.0"
        B = { workspace = true }
        C = { path = "../c" }

        [refused]
        A = { workspace = false }

        [root]
        B = "x/b@2.0.0"
    "#,
    )
    .unwrap();
    let root = deps_at(&table, "root");
    let resolved = resolve_dep_map(&inheritable_deps_at(&table, "own"), &root).unwrap();
    assert_eq!(resolved.len(), 3);
    let text = |alias: &str| resolved.get(&alias.to_owned()).unwrap().to_text();
    assert_eq!(text("A"), "x/a@>=1.0.0, <2.0.0");
    assert_eq!(text("B"), "x/b@>=2.0.0, <3.0.0");
    assert_eq!(text("C"), "path: ../c");
    assert_eq!(
        resolve_dep_map(&inheritable_deps_at(&table, "refused"), &root),
        Err(("A".to_owned(), DependencyFault::InvalidDirective))
    );
    assert_eq!(
        resolve_dep_map(&inheritable_deps_at(&table, "own"), &OrdMap::new()),
        Err(("B".to_owned(), DependencyFault::NotDefined))
    );
}

/// By the time a workspace is loaded, nothing is left to be inherited, neither
/// by a root that is a package nor through an entry that is itself inherited.
#[test]
fn nothing_is_left_to_be_inherited() {
    let mut files = Files::new();
    files.write_manifest(
        ROOT,
        r#"
        [package]
        name = "team/root"
        version = "0.0.0"
        registry = "https://example.com/index"
        realm = "shared"

        [dependencies]
        Roact = { workspace = true }

        [workspace]
        members = ["packages/*"]

        [workspace.dependencies]
        Roact = "roblox/roact@1.4.0"
    "#,
    );
    let ws = files.load(ROOT).unwrap();
    let (_, root) = ws.find_member_by_name(&name("team/root")).unwrap();
    let roact = root.dependencies.get(&"Roact".to_owned()).unwrap();
    assert_eq!(roact.expect_registry().name().scope(), "roblox");

    let mut files = Files::new();
    files.write_manifest(
        ROOT,
        r#"
        [package]
        name = "team/root"
        version = "0.0.0"
        registry = "https://example.com/index"
        realm = "shared"

        [server-dependencies]
        Roact = { workspace = true }

        [workspace]
        members = ["packages/*"]

        [workspace.dependencies]
        Roact = { workspace = true }
    "#,
    );
    assert_eq!(
        files.load(ROOT).unwrap_err(),
        "failed to load member at /ws: failed to resolve [server-dependencies]: dependency \
         'Roact' is set to `workspace = true` but is not defined in [workspace.dependencies]"
    );
}

#[test]
fn single_packages_may_have_something_to_inherit() {
    let mut files = Files::new();
    files.write_manifest(
        ROOT,
        r#"
        [package]
        name = "team/single"
        version = "1.0.0"
        registry = "https://example.com/index"
        realm = "shared"

        [dependencies]
        Roact = "roblox/roact@1.4.0"
    "#,
    );
    assert!(files.load(ROOT).unwrap().is_concrete());

    let mut files = Files::new();
    files.write_manifest(
        ROOT,
        r#"
        [package]
        name = "team/single"
        version = "1.0.0"
        registry = "https://example.com/index"
        realm = "shared"

        [dev-dependencies]
        Roact = { workspace = true }
    "#,
    );
    assert!(!files.load(ROOT).unwrap().is_concrete());
}

/// A member is found in the directory that it was loaded from, as it was loaded.
#[test]
fn members_are_found_in_their_directories() {
    let mut files = Files::new();
    files.write_manifest(
        ROOT,
        r#"
        [package]
        name = "team/root"
        version = "0.0.0"
        registry = "https://example.com/index"
        realm = "shared"

        [workspace]
        members = ["packages/*"]
        registry = "https://example.com/index"
        realm = "server"
    "#,
    );
    files.write_manifest(
        "/ws/packages/b",
        "[package]\nname = \"team/b\"\nversion = \"1.0.0\"\nrealm = \"shared\"",
    );
    files.write_manifest(
        "/ws/packages/a",
        "[package]\nname = \"team/a\"\nversion = \"1.0.0\"",
    );
    let ws = files.load(ROOT).unwrap();
    let at = |dir: &str| {
        let member = ws.get_member_at_path(&PathBuf::parse(dir), &CanonicalPaths::new()).unwrap();
        (member.package.name.to_text(), member.package.realm)
    };
    assert_eq!(at("/ws/packages/a"), ("team/a".to_owned(), Realm::Server));
    assert_eq!(at("/ws/packages/b"), ("team/b".to_owned(), Realm::Shared));
    assert_eq!(at("/ws"), ("team/root".to_owned(), Realm::Shared));
}

#[test]
fn error_no_registry() {
    let mut files = Files::new();
    files.write_manifest(
        ROOT,
        r#"
        [workspace]
        members = ["packages/*"]
        realm = "shared"
    "#,
    );
    files.write_manifest(
        "/ws/packages/a",
        r#"
        [package]
        name = "team/a"
        version = "1.0.0"
        registry = "https://example.com/index"
    "#,
    );
    assert_eq!(
        files.load(ROOT).unwrap_err(),
        "workspace must specify a registry in [workspace] or have a root [package] with a registry"
    );
}

#[test]
fn duplicates_are_named() {
    let mut files = Files::new();
    files.write_manifest(
        ROOT,
        r#"
        [workspace]
        members = ["packages/*"]
        registry = "https://example.com/index"
        realm = "shared"
    "#,
    );
    for dir in ["b", "c", "a"] {
        let package = if dir == "b" { "other" } else { "dupe" };
        files.write_manifest(
            &format!("/ws/packages/{}", dir),
            &format!("[package]\nname = \"team/{}\"\nversion = \"1.0.0\"", package),
        );
    }
    assert_eq!(
        files.load(ROOT).unwrap_err(),
        "duplicate package name 'team/dupe' found at /ws/packages/a and /ws/packages/c"
    );
}

#[test]
fn unreadable_members_are_reported() {
    let project = project_of(
        r#"
        [workspace]
        members = ["packages/*"]
        registry = "https://example.com/index"
        realm = "shared"
    "#,
    );
    let members = vec![LoadedMember {
        dir: PathBuf::parse("/ws/packages/a"),
        manifest: Err("failed to parse /ws/packages/a/wally.toml".to_owned()),
    }];
    let error = Workspace::load(PathBuf::parse(ROOT), &project, &members).unwrap_err();
    assert_eq!(
        error,
        WorkspaceError::Member {
            dir: PathBuf::parse("/ws/packages/a"),
            error: MemberError::Unreadable("failed to parse /ws/packages/a/wally.toml".to_owned()),
        }
    );
    assert_eq!(
        error.message(),
        "failed to load member at /ws/packages/a: failed to parse /ws/packages/a/wally.toml"
    );
}

#[test]
fn member_errors_are_written() {
    let field = |fault| MemberError::Field { field: wally::workspace::Field::Realm, fault };
    assert_eq!(
        field(FieldFault::NotDefined).message(),
        "field 'realm' is set to `workspace = true` but the workspace root does not define it"
    );
    assert_eq!(
        field(FieldFault::InvalidDirective).message(),
        "field 'realm' has `workspace = false` which is not a valid directive"
    );
    assert_eq!(
        field(FieldFault::NotSet).message(),
        "field 'realm' is not set and the workspace root does not provide a default"
    );
    let dependency = MemberError::Dependency {
        section: Section::DevDependencies,
        alias: "X".to_owned(),
        fault: DependencyFault::InvalidDirective,
    };
    assert_eq!(
        dependency.message(),
        "failed to resolve [dev-dependencies]: dependency 'X' has `workspace = false` which is \
         not a valid directive"
    );
}

// ---------------------------------------------------------------------------
// Finding members
// ---------------------------------------------------------------------------

fn found(path: &str, is_dir: bool, has_manifest: bool, canonical: Option<&str>) -> GlobMatch {
    GlobMatch::Found {
        path: PathBuf::parse(path),
        is_dir,
        has_manifest,
        canonical: canonical.map(PathBuf::parse),
    }
}

#[test]
fn members_are_found_once_and_in_order() {
    let patterns = vec![
        PatternMatches {
            pattern: "b/*".to_owned(),
            matches: Some(vec![
                found("/ws/b/z", true, true, Some("/ws/b/z")),
                found("/ws/b/link", true, true, Some("/ws/a/x")),
                found("/ws/b/file", false, false, None),
                found("/ws/b/bare", true, false, None),
            ]),
        },
        PatternMatches {
            pattern: "a/*".to_owned(),
            matches: Some(vec![found("/ws/a/x", true, true, Some("/ws/a/x"))]),
        },
    ];
    let members = discover_members(&patterns).unwrap();
    let dirs: Vec<&str> = (0..members.len()).map(|i| members.at(i).as_str()).collect();
    assert_eq!(dirs, vec!["/ws/a/x", "/ws/b/z"]);
}

#[test]
fn members_that_cannot_be_found_are_reported() {
    let error = |matches: Option<Vec<GlobMatch>>| {
        discover_members(&vec![PatternMatches { pattern: "p/*".to_owned(), matches }]).unwrap_err()
    };
    let invalid = error(None);
    assert_eq!(invalid, DiscoverError::InvalidPattern("p/*".to_owned()));
    assert_eq!(invalid.message(), "invalid glob pattern: p/*");
    let unreadable = error(Some(vec![GlobMatch::Unreadable]));
    assert_eq!(unreadable.message(), "error reading glob match for pattern: p/*");
    let lost = error(Some(vec![found("/ws/p/a", true, true, None)]));
    assert_eq!(lost, DiscoverError::NotCanonical(PathBuf::parse("/ws/p/a")));
    assert_eq!(lost.message(), "failed to canonicalize: /ws/p/a");
}

#[test]
fn path_dependency_dirs_are_listed() {
    let mut files = Files::new();
    files.write_manifest(
        ROOT,
        r#"
        [workspace]
        members = ["packages/*"]
        registry = "https://example.com/index"
        realm = "shared"
    "#,
    );
    files.write_manifest(
        "/ws/packages/a",
        r#"
        [package]
        name = "team/a"
        version = "1.0.0"

        [dependencies]
        B = { path = "../b" }
        X = "x/x@1.0.0"

        [dev-dependencies]
        C = { path = "/elsewhere" }
    "#,
    );
    let ws = files.load(ROOT).unwrap();
    assert_eq!(
        ws.path_dependency_dirs(),
        vec![PathBuf::parse("/ws/packages/a/../b"), PathBuf::parse("/elsewhere")]
    );
}
