use std::collections::HashSet;

use wally::commands::install::{
    describe_resolved, external_dependencies, root_package_ids, InstallError, InstallSubcommand,
    Installation,
};
use wally::commands::publish::{
    announcement, check_size, index_url, publish_url, rewrite_path_deps_to_registry,
    test_index_url, validate_publish_graph, Publication, PublishError, PublishPlan, PublishRequest,
    PublishSubcommand, RewriteError,
};
use wally::commands::update::{PackageSpec, UpdateSubcommand};
use wally::dependency_spec::{DependencySpec, PathDependencySpec};
use wally::manifest::{
    Manifest, Package, PlaceInfo, ProjectManifest, Realm, WorkspaceInheritable, WorkspaceMetadata,
};
use wally::ordered::{OrdMap, OrdSet};
use wally::package_id::PackageId;
use wally::package_name::PackageName;
use wally::package_req::PackageReq;
use wally::package_source::path::{FoundManifest, PathSource, PathSourceError};
use wally::package_source::{check_answer, PackageSourceId, PackageSourceMap};
use wally::path::PathBuf;
use wally::resolution::ResolveError;
use wally::version::{Identifier, Version};
use wally::workspace::{
    discover_members, member_pattern, CanonicalPaths, GlobMatch, LoadedMember, PatternMatches,
    RawMemberManifest, RawMemberPackage, Section, Workspace,
};

const ROOT: &str = "/ws";

fn version(text: &str) -> Version {
    let parsed = semver::Version::parse(text).unwrap();
    let identifier = |i: &semver::Identifier| match i {
        semver::Identifier::Numeric(n) => Identifier::Numeric(*n),
        semver::Identifier::AlphaNumeric(t) => Identifier::AlphaNumeric(t.clone()),
    };
    Version {
        major: parsed.major,
        minor: parsed.minor,
        patch: parsed.patch,
        pre: parsed.pre.iter().map(identifier).collect(),
        build: parsed.build.iter().map(identifier).collect(),
    }
}

#[allow(dead_code)]
fn name(text: &str) -> PackageName {
    PackageName::parse(text).unwrap()
}

#[allow(dead_code)]
fn id(text: &str) -> PackageId {
    let (package, at) = text.split_once('@').unwrap();
    PackageId::new(name(package), version(at))
}

/// Text under a key of a table.
fn text_at(table: &toml::Value, key: &str) -> Option<String> {
    table.get(key).and_then(|value| value.as_str()).map(|text| text.to_owned())
}

fn realm_of(text: &str) -> Realm {
    match text {
        "server" => Realm::Server,
        "shared" => Realm::Shared,
        "dev" => Realm::Dev,
        other => panic!("unknown realm {}", other),
    }
}

fn spec_of(value: &toml::Value) -> DependencySpec {
    if let Some(text) = value.as_str() {
        return DependencySpec::Registry(PackageReq::parse(text).unwrap());
    }
    match text_at(value, "path") {
        Some(path) => DependencySpec::Path(PathDependencySpec { path: PathBuf::parse(&path) }),
        None => DependencySpec::Workspace {
            workspace: value.get("workspace").unwrap().as_bool().unwrap(),
        },
    }
}

fn deps_at(table: &toml::Value, key: &str) -> OrdMap<String, DependencySpec> {
    let mut deps = OrdMap::new();
    if let Some(section) = table.get(key).and_then(|value| value.as_table()) {
        for (alias, value) in section {
            deps.insert(alias.clone(), spec_of(value));
        }
    }
    deps
}

fn inheritable_deps_at(
    table: &toml::Value,
    key: &str,
) -> OrdMap<String, WorkspaceInheritable<DependencySpec>> {
    let mut deps = OrdMap::new();
    if let Some(section) = table.get(key).and_then(|value| value.as_table()) {
        for (alias, value) in section {
            let spec = match spec_of(value) {
                DependencySpec::Workspace { workspace } => {
                    WorkspaceInheritable::Workspace { workspace }
                }
                spec => WorkspaceInheritable::Defined(spec),
            };
            deps.insert(alias.clone(), spec);
        }
    }
    deps
}

fn place_at(table: &toml::Value) -> PlaceInfo {
    match table.get("place") {
        Some(place) => PlaceInfo {
            shared_packages: text_at(place, "shared-packages"),
            server_packages: text_at(place, "server-packages"),
        },
        None => PlaceInfo::default(),
    }
}

fn is_private(package: &toml::Value) -> bool {
    package.get("private").and_then(|value| value.as_bool()).unwrap_or(false)
}

fn package_of(package: &toml::Value) -> Package {
    Package {
        name: name(&text_at(package, "name").unwrap()),
        version: version(&text_at(package, "version").unwrap()),
        registry: text_at(package, "registry").unwrap(),
        realm: realm_of(&text_at(package, "realm").unwrap()),
        description: None,
        license: None,
        authors: Vec::new(),
        includes: Vec::new(),
        exclude: Vec::new(),
        private: is_private(package),
        homepage: None,
        repository: None,
    }
}

fn project_of(content: &str) -> ProjectManifest {
    let value: toml::Value = toml::from_str(content).unwrap();
    ProjectManifest {
        package: value.get("package").map(package_of),
        workspace: value.get("workspace").map(|workspace| WorkspaceMetadata {
            members: workspace
                .get("members")
                .and_then(|members| members.as_array())
                .unwrap()
                .iter()
                .map(|member| member.as_str().unwrap().to_owned())
                .collect(),
            registry: text_at(workspace, "registry"),
            realm: text_at(workspace, "realm").map(|realm| realm_of(&realm)),
            default_member: text_at(workspace, "default-member").map(|member| name(&member)),
            place: place_at(workspace),
            dependencies: deps_at(workspace, "dependencies"),
        }),
        place: place_at(&value),
        dependencies: deps_at(&value, "dependencies"),
        server_dependencies: deps_at(&value, "server-dependencies"),
        dev_dependencies: deps_at(&value, "dev-dependencies"),
    }
}

fn member_of(content: &str) -> RawMemberManifest {
    let value: toml::Value = toml::from_str(content).unwrap();
    let package = value.get("package").unwrap();
    let directive = |value: &toml::Value| {
        value.get("workspace").and_then(|workspace| workspace.as_bool())
    };
    RawMemberManifest {
        package: RawMemberPackage {
            name: name(&text_at(package, "name").unwrap()),
            version: version(&text_at(package, "version").unwrap()),
            registry: package.get("registry").map(|value| match directive(value) {
                Some(workspace) => WorkspaceInheritable::Workspace { workspace },
                None => WorkspaceInheritable::Defined(value.as_str().unwrap().to_owned()),
            }),
            realm: package.get("realm").map(|value| match directive(value) {
                Some(workspace) => WorkspaceInheritable::Workspace { workspace },
                None => WorkspaceInheritable::Defined(realm_of(value.as_str().unwrap())),
            }),
            description: None,
            license: None,
            authors: Vec::new(),
            includes: Vec::new(),
            exclude: Vec::new(),
            private: is_private(package),
            homepage: None,
            repository: None,
        },
        place: place_at(&value),
        dependencies: inheritable_deps_at(&value, "dependencies"),
        server_dependencies: inheritable_deps_at(&value, "server-dependencies"),
        dev_dependencies: inheritable_deps_at(&value, "dev-dependencies"),
    }
}

/// Manifests by their directories, and directories without one.
struct Files {
    manifests: Vec<(String, String)>,
    bare_dirs: Vec<String>,
}

impl Files {
    fn new() -> Files {
        Files { manifests: Vec::new(), bare_dirs: Vec::new() }
    }

    fn write_manifest(&mut self, dir: &str, content: &str) {
        self.manifests.push((dir.to_owned(), content.to_owned()));
    }

    fn read(&self, dir: &str) -> Option<&str> {
        self.manifests
            .iter()
            .find(|(other, _)| other == dir)
            .map(|(_, content)| content.as_str())
    }

    fn is_dir(&self, dir: &str) -> bool {
        let inside = format!("{}/", dir);
        self.manifests
            .iter()
            .map(|(other, _)| other)
            .chain(self.bare_dirs.iter())
            .any(|other| other == dir || other.starts_with(&inside))
    }

    /// Where an absolute path leads to, if there is a directory.
    fn canonicalize(&self, path: &str) -> Option<String> {
        let mut parts: Vec<&str> = Vec::new();
        for part in path.split('/') {
            match part {
                "" | "." => {}
                ".." => {
                    parts.pop();
                }
                part => parts.push(part),
            }
        }
        let canonical = format!("/{}", parts.join("/"));
        if self.is_dir(&canonical) {
            Some(canonical)
        } else {
            None
        }
    }

    /// What a pattern that ends in `/*` matches.
    fn matches(&self, root: &PathBuf, pattern: &str) -> PatternMatches {
        let full = member_pattern(root, pattern);
        let prefix = full.as_str().strip_suffix('*').unwrap().to_owned();
        let mut dirs: Vec<&String> = self
            .manifests
            .iter()
            .map(|(dir, _)| dir)
            .chain(self.bare_dirs.iter())
            .filter(|dir| dir.starts_with(&prefix) && !dir[prefix.len()..].contains('/'))
            .collect();
        dirs.sort();
        PatternMatches {
            pattern: pattern.to_owned(),
            matches: Some(
                dirs.into_iter()
                    .map(|dir| GlobMatch::Found {
                        path: PathBuf::parse(dir),
                        is_dir: true,
                        has_manifest: self.read(dir).is_some(),
                        canonical: Some(PathBuf::parse(dir)),
                    })
                    .collect(),
            ),
        }
    }

    fn load(&self, root: &str) -> Result<Workspace, String> {
        let project = project_of(self.read(root).unwrap());
        let root = PathBuf::parse(root);
        let mut members: Vec<LoadedMember> = Vec::new();
        if let Some(workspace) = &project.workspace {
            let patterns: Vec<PatternMatches> =
                workspace.members.iter().map(|pattern| self.matches(&root, pattern)).collect();
            let dirs = discover_members(&patterns).map_err(|error| error.message())?;
            for i in 0..dirs.len() {
                let dir = dirs.at(i);
                members.push(LoadedMember {
                    dir: dir.clone(),
                    manifest: Ok(member_of(self.read(dir.as_str()).unwrap())),
                });
            }
        }
        Workspace::load(root, &project, &members).map_err(|error| error.message())
    }

    #[allow(dead_code)]
    fn canonical_paths(&self, workspace: &Workspace) -> CanonicalPaths {
        let mut canonical = CanonicalPaths::new();
        for dir in workspace.path_dependency_dirs() {
            if let Some(found) = self.canonicalize(dir.as_str()) {
                canonical.insert(dir, PathBuf::parse(&found));
            }
        }
        canonical
    }
}

/// A package that can be published.
struct PackageBuilder {
    manifest: Manifest,
}

impl PackageBuilder {
    fn new(text: &str) -> PackageBuilder {
        let id = id(text);
        PackageBuilder {
            manifest: Manifest {
                package: Package {
                    name: id.name().clone(),
                    version: id.version().clone(),
                    registry: "test-registry".to_owned(),
                    realm: Realm::Shared,
                    description: None,
                    license: None,
                    authors: Vec::new(),
                    includes: Vec::new(),
                    exclude: Vec::new(),
                    private: false,
                    homepage: None,
                    repository: None,
                },
                place: PlaceInfo::default(),
                dependencies: OrdMap::new(),
                server_dependencies: OrdMap::new(),
                dev_dependencies: OrdMap::new(),
            },
        }
    }

    #[allow(dead_code)]
    fn with_realm(mut self, realm: Realm) -> PackageBuilder {
        self.manifest.package.realm = realm;
        self
    }

    #[allow(dead_code)]
    fn with_dep(mut self, alias: &str, req: &str) -> PackageBuilder {
        let spec = DependencySpec::Registry(PackageReq::parse(req).unwrap());
        self.manifest.dependencies.insert(alias.to_owned(), spec);
        self
    }

    #[allow(dead_code)]
    fn with_server_dep(mut self, alias: &str, req: &str) -> PackageBuilder {
        let spec = DependencySpec::Registry(PackageReq::parse(req).unwrap());
        self.manifest.server_dependencies.insert(alias.to_owned(), spec);
        self
    }

    #[allow(dead_code)]
    fn with_dev_dep(mut self, alias: &str, req: &str) -> PackageBuilder {
        let spec = DependencySpec::Registry(PackageReq::parse(req).unwrap());
        self.manifest.dev_dependencies.insert(alias.to_owned(), spec);
        self
    }
}

/// A registry that holds what was published to it.
struct InMemoryRegistry {
    published: Vec<Manifest>,
}

impl InMemoryRegistry {
    fn new() -> InMemoryRegistry {
        InMemoryRegistry { published: Vec::new() }
    }

    fn publish(&mut self, package: PackageBuilder) {
        self.published.push(package.manifest);
    }

    /// The packages that meet a requirement, or nothing if there is no package
    /// of the name.
    fn query(&self, req: &PackageReq) -> Option<Vec<Manifest>> {
        if !self.published.iter().any(|manifest| manifest.package.name == *req.name()) {
            return None;
        }
        Some(
            self.published
                .iter()
                .filter(|manifest| req.matches(&manifest.package.name, &manifest.package.version))
                .cloned()
                .collect(),
        )
    }

    /// Records the answer to the query that resolution needs.
    fn answer(&self, sources: &mut PackageSourceMap, source: PackageSourceId, req: PackageReq) {
        let found = self.query(&req);
        if let Some(manifests) = &found {
            assert!(check_answer(&req, manifests));
        }
        sources.record(source, req, found);
    }
}

// ---------------------------------------------------------------------------
// Path sources
// ---------------------------------------------------------------------------

fn manifest_of(content: &str) -> Manifest {
    let project = project_of(content);
    Manifest {
        package: project.package.unwrap(),
        place: project.place,
        dependencies: project.dependencies,
        server_dependencies: project.server_dependencies,
        dev_dependencies: project.dev_dependencies,
    }
}

#[test]
fn query_matching_package() {
    let found = manifest_of(
        r#"
        [package]
        name = "team/foo"
        version = "1.2.3"
        registry = "https://example.com/index"
        realm = "shared"
    "#,
    );
    let source = PathSource::new(PathBuf::parse("/pkg"));
    let req = PackageReq::parse("team/foo@1.2.3").unwrap();
    let results = source.query(&req, FoundManifest::Loaded(found)).unwrap();
    assert_eq!(results.len(), 1);
    assert_eq!(results[0].package.name.to_text(), "team/foo");
}

#[test]
fn query_non_matching_version() {
    let found = manifest_of(
        r#"
        [package]
        name = "team/foo"
        version = "1.2.3"
        registry = "https://example.com/index"
        realm = "shared"
    "#,
    );
    let source = PathSource::new(PathBuf::parse("/pkg"));
    let req = PackageReq::parse("team/foo@2.0.0").unwrap();
    let results = source.query(&req, FoundManifest::Loaded(found)).unwrap();
    assert!(results.is_empty());
}

#[test]
fn query_non_matching_name() {
    let found = manifest_of(
        r#"
        [package]
        name = "team/foo"
        version = "1.0.0"
        registry = "https://example.com/index"
        realm = "shared"
    "#,
    );
    let source = PathSource::new(PathBuf::parse("/pkg"));
    let req = PackageReq::parse("team/bar@1.0.0").unwrap();
    let results = source.query(&req, FoundManifest::Loaded(found)).unwrap();
    assert!(results.is_empty());
}

#[test]
fn error_path_does_not_exist() {
    let source = PathSource::new(PathBuf::parse("/nonexistent/path/to/pkg"));
    let req = PackageReq::parse("team/foo@1.0.0").unwrap();
    let found = if std::path::Path::new(source.root().as_str()).is_dir() {
        FoundManifest::NoManifest
    } else {
        FoundManifest::NoDirectory
    };
    let result = source.query(&req, found);
    assert!(result.is_err());
    let err = result.unwrap_err().message();
    assert!(err.contains("does not exist"), "error should mention non-existence: {}", err);
}

#[test]
fn error_path_has_no_manifest() {
    // Directory exists but has no wally.toml
    let source = PathSource::new(PathBuf::parse("/pkg"));
    let req = PackageReq::parse("team/foo@1.0.0").unwrap();
    let result = source.query(&req, FoundManifest::NoManifest);
    assert!(result.is_err());
    let err = result.unwrap_err().message();
    assert!(err.contains("wally.toml"), "error should mention missing manifest: {}", err);
}

#[test]
fn path_sources_report_unreadable_manifests() {
    let source = PathSource::new(PathBuf::parse("/pkg"));
    assert_eq!(source.root().as_str(), "/pkg");
    assert!(source.fallback_sources().is_empty());
    let req = PackageReq::parse("team/foo@1.0.0").unwrap();
    let error =
        source.query(&req, FoundManifest::Unreadable("no name".to_owned())).unwrap_err();
    assert_eq!(
        error,
        PathSourceError::Unreadable { dir: PathBuf::parse("/pkg"), reason: "no name".to_owned() }
    );
    assert_eq!(error.message(), "failed to load manifest from /pkg: no name");
}

// ---------------------------------------------------------------------------
// Publishing
// ---------------------------------------------------------------------------

/// A workspace with a member that can be published, a sibling that it depends
/// on, and a private member.
fn publish_files(publishable_deps: &str) -> Files {
    let mut files = Files::new();
    files.write_manifest(
        ROOT,
        r#"
        [workspace]
        members = ["modules/*"]
        registry = "https://github.com/UpliftGames/wally-index"
        realm = "shared"
    "#,
    );
    files.write_manifest(
        "/ws/modules/publishable",
        &format!(
            "[package]\nname = \"scope/publishable\"\nversion = \"1.0.0\"\n\n[dependencies]\n{}",
            publishable_deps
        ),
    );
    files.write_manifest(
        "/ws/modules/sibling",
        "[package]\nname = \"scope/sibling\"\nversion = \"0.2.0\"",
    );
    files.write_manifest(
        "/ws/modules/private-member",
        "[package]\nname = \"scope/private-member\"\nversion = \"0.1.0\"\nprivate = true",
    );
    files
}

fn single_package(private: bool) -> Workspace {
    let mut files = Files::new();
    files.write_manifest(
        ROOT,
        &format!(
            "[package]\nname = \"biff/minimal\"\nversion = \"0.1.0\"\nregistry = \"test\"\n\
             realm = \"server\"\nprivate = {}",
            private
        ),
    );
    files.load(ROOT).unwrap()
}

const INDEX: &str = "https://example.com/index";

/// The manifest that a plan publishes.
fn plan_manifest(plan: &PublishPlan) -> &Manifest {
    match plan {
        PublishPlan::SinglePackage { manifest } => manifest,
        PublishPlan::Member { manifest, .. } => manifest,
    }
}

fn publish(package: Option<&str>, token: Option<&str>) -> PublishSubcommand {
    PublishSubcommand {
        project_path: PathBuf::parse(ROOT),
        token: token.map(|token| token.to_owned()),
        package: package.map(name),
    }
}

/// If the user tries to publish without providing any auth tokens
/// then we should prompt them to provide a token via 'wally login'
#[test]
fn check_prompts_auth() {
    let command = publish(None, None);
    let plan = command.run(&single_package(false), &CanonicalPaths::new()).unwrap();
    let error = command
        .do_publish(plan_manifest(&plan), INDEX, 1000, &None, &None)
        .expect_err("Expected publish to return an error")
        .message();
    assert!(
        error.contains("wally login"),
        "Expected error message prompting user to login. Instead we got: {}",
        error
    );
    assert_eq!(command.auth_token(&Some("stored".to_owned())), Ok("stored".to_owned()));
}

/// If the private field in wally.toml is set to true, it should not publish
/// the package.
#[test]
fn check_private_field() {
    let error = publish(None, None)
        .run(&single_package(true), &CanonicalPaths::new())
        .expect_err("Expected publish to return an error")
        .message();
    assert!(
        error.contains("Cannot publish"),
        "Expected error message that a private package cannot be published. Instead we got: {}",
        error
    );
}

/// Ensure a token passed as an optional argument is correctly used in the request
#[test]
fn check_token_arg() {
    let command = publish(None, Some("token"));
    let plan = command.run(&single_package(false), &CanonicalPaths::new()).unwrap();
    assert_eq!(
        command.do_publish(
            plan_manifest(&plan),
            INDEX,
            1000,
            &None,
            &Some("token".to_owned())
        ),
        Ok(Publication::Checked)
    );
    assert_eq!(command.auth_token(&None), Ok("token".to_owned()));
    assert_eq!(command.auth_token(&Some("stored".to_owned())), Ok("token".to_owned()));
}

/// Workspace publish: path deps are rewritten to registry deps in the packed manifest.
/// The packed manifest should be a standard Wally manifest with no path deps.
#[test]
fn workspace_publish_rewrites_path_deps() {
    let files = publish_files("Sibling = { path = \"../sibling\" }\nExt = \"x/ext@1.0.0\"");
    let workspace = files.load(ROOT).unwrap();
    let canonical = files.canonical_paths(&workspace);
    let (member_dir, manifest) =
        workspace.find_member_by_name(&name("scope/publishable")).unwrap();

    assert!(
        manifest.dependencies.get(&"Sibling".to_owned()).unwrap().as_path().is_some(),
        "fixture should have a path dep for Sibling"
    );

    let rewritten =
        rewrite_path_deps_to_registry(manifest, member_dir, &workspace, &canonical).unwrap();

    // The rewritten manifest should have no path deps
    for i in 0..rewritten.dependencies.len() {
        let spec = rewritten.dependencies.value_at(i);
        assert!(
            spec.as_registry().is_some(),
            "dependency '{}' should be rewritten to registry, got: {:?}",
            rewritten.dependencies.key_at(i),
            spec
        );
    }

    let sibling_dep = rewritten.dependencies.get(&"Sibling".to_owned()).unwrap();
    let sibling_req = sibling_dep.as_registry().unwrap();
    assert_eq!(sibling_req.name().to_text(), "scope/sibling");
    assert_eq!(sibling_req.to_text(), "scope/sibling@=0.2.0");
    assert!(sibling_req.matches_id(&id("scope/sibling@0.2.0")));
    assert!(!sibling_req.matches_id(&id("scope/sibling@0.2.1")));

    // All else is as it was.
    let ext = "Ext".to_owned();
    assert_eq!(rewritten.dependencies.get(&ext), manifest.dependencies.get(&ext));
    assert_eq!(rewritten.package, manifest.package);
}

/// Workspace publish: --package selects the correct member
#[test]
fn workspace_publish_package_selects_member() {
    let files = publish_files("Sibling = { path = \"../sibling\" }");
    let workspace = files.load(ROOT).unwrap();
    let canonical = files.canonical_paths(&workspace);
    let command = publish(Some("scope/sibling"), Some("test-token"));
    let plan = command
        .run(&workspace, &canonical)
        .expect("workspace publish of scope/sibling should succeed");
    match &plan {
        PublishPlan::Member { dir, manifest } => {
            assert_eq!(dir.as_str(), "/ws/modules/sibling");
            assert_eq!(manifest.package.name.to_text(), "scope/sibling");
        }
        other => panic!("unexpected plan {:?}", other),
    }
    let check_token = Some("test-token".to_owned());
    assert_eq!(
        command.do_publish(plan_manifest(&plan), INDEX, 1000, &None, &check_token),
        Ok(Publication::Checked)
    );
}

/// Workspace publish: error when publishing member that depends on private member
#[test]
fn workspace_publish_errors_on_private_dep() {
    let files = publish_files(
        "Sibling = { path = \"../sibling\" }\nPrivate = { path = \"../private-member\" }",
    );
    let workspace = files.load(ROOT).unwrap();
    let canonical = files.canonical_paths(&workspace);
    let (member_dir, manifest) =
        workspace.find_member_by_name(&name("scope/publishable")).unwrap();

    let result = validate_publish_graph(manifest, member_dir, &workspace, &canonical);
    assert!(result.is_err(), "should error on private dep");
    let err = result.unwrap_err().message();
    assert!(err.contains("private"), "error should mention private: {}", err);
    assert_eq!(
        err,
        "cannot publish 'scope/publishable': it depends on private member \
         'scope/private-member' (via 'Private')"
    );
    let refused = publish(Some("scope/publishable"), None).run(&workspace, &canonical);
    assert_eq!(refused.unwrap_err().message(), err);
}

/// Workspace publish: --package without workspace is an error
#[test]
fn workspace_publish_package_flag_without_workspace_errors() {
    let error = publish(Some("biff/minimal"), None)
        .run(&single_package(false), &CanonicalPaths::new())
        .expect_err("Expected error for --package without workspace")
        .message();
    assert!(
        error.contains("single-package"),
        "Error should mention single-package: {}",
        error
    );
}

/// Workspace publish: publishing without --package in a workspace errors
#[test]
fn workspace_publish_requires_package_flag() {
    let files = publish_files("");
    let workspace = files.load(ROOT).unwrap();
    let error = publish(None, None)
        .run(&workspace, &files.canonical_paths(&workspace))
        .expect_err("Expected error when no --package specified")
        .message();
    assert!(error.contains("--package"), "Error should mention --package: {}", error);
}

#[test]
fn members_that_cannot_be_published_are_reported() {
    let files = publish_files("Gone = { path = \"../gone\" }");
    let workspace = files.load(ROOT).unwrap();
    let canonical = files.canonical_paths(&workspace);
    let run = |package: &str| publish(Some(package), None).run(&workspace, &canonical);
    let error = run("scope/none").unwrap_err();
    assert_eq!(error, PublishError::NoSuchMember(name("scope/none")));
    assert_eq!(error.message(), "no workspace member named 'scope/none' found");
    let error = run("scope/private-member").unwrap_err();
    assert_eq!(error.message(), "Cannot publish private package 'scope/private-member'.");
    let error = run("scope/publishable").unwrap_err();
    assert_eq!(
        error,
        PublishError::Rewrite {
            section: Section::Dependencies,
            error: RewriteError::Unresolved {
                alias: "Gone".to_owned(),
                dir: PathBuf::parse("/ws/modules/publishable/../gone"),
            },
        }
    );
    assert_eq!(
        error.message(),
        "failed to rewrite [dependencies]: path dependency 'Gone' points to \
         /ws/modules/publishable/../gone which could not be resolved"
    );

    let files = publish_files("Root = { path = \"../..\" }");
    let workspace = files.load(ROOT).unwrap();
    let error = publish(Some("scope/publishable"), None)
        .run(&workspace, &files.canonical_paths(&workspace))
        .unwrap_err();
    assert_eq!(
        error.message(),
        "failed to rewrite [dependencies]: path dependency 'Root' at /ws is not a workspace member"
    );
}

#[test]
fn single_packages_are_published_as_they_are() {
    let workspace = single_package(false);
    let plan = publish(None, None).run(&workspace, &CanonicalPaths::new()).unwrap();
    assert_eq!(
        plan,
        PublishPlan::SinglePackage { manifest: workspace.members().value_at(0).clone() }
    );
}

#[test]
fn packages_have_two_mebibytes_at_most() {
    assert_eq!(check_size(0), Ok(()));
    assert_eq!(check_size(2_097_152), Ok(()));
    assert_eq!(check_size(2_097_153), Err(PublishError::TooLarge));
    assert_eq!(
        PublishError::TooLarge.message(),
        "Package size exceeds 2MB. Reduce package size and try again."
    );
}

#[test]
fn requests_have_a_token_and_a_size() {
    let manifest = PackageBuilder::new("x/lib@1.0.0").manifest;
    let stored = Some("stored".to_owned());
    let send = |token: &str| {
        Ok(Publication::Send(PublishRequest {
            token: token.to_owned(),
            announcement: "Publishing x/lib@1.0.0 to https://example.com/index".to_owned(),
        }))
    };
    assert_eq!(
        announcement(&manifest, INDEX),
        "Publishing x/lib@1.0.0 to https://example.com/index"
    );
    let given = publish(None, Some("given"));
    assert_eq!(given.do_publish(&manifest, INDEX, 2_097_152, &stored, &None), send("given"));
    let command = publish(None, None);
    assert_eq!(command.do_publish(&manifest, INDEX, 1, &stored, &None), send("stored"));
    assert_eq!(
        command.do_publish(&manifest, INDEX, 2_097_152, &None, &None),
        Err(PublishError::NoToken)
    );
    assert_eq!(
        command.do_publish(&manifest, INDEX, 2_097_153, &None, &None),
        Err(PublishError::TooLarge)
    );
    // With a token to check against, nothing is sent.
    assert_eq!(
        command.do_publish(&manifest, INDEX, 1, &stored, &stored),
        Ok(Publication::Checked)
    );
    assert_eq!(
        command.do_publish(&manifest, INDEX, 2_097_153, &stored, &stored),
        Err(PublishError::TooLarge)
    );
    assert_eq!(
        command.do_publish(&manifest, INDEX, 1, &None, &stored),
        Err(PublishError::NoToken)
    );
}

#[test]
fn addresses_are_read_and_joined() {
    let mut manifest = PackageBuilder::new("x/lib@1.0.0").manifest;
    manifest.package.registry = "HTTPS://GitHub.com/UpliftGames/wally-index".to_owned();
    assert_eq!(
        index_url(&manifest),
        Ok("https://github.com/UpliftGames/wally-index".to_owned())
    );
    manifest.package.registry = "not an address".to_owned();
    assert_eq!(index_url(&manifest), Err("relative URL without a base".to_owned()));
    assert_eq!(
        publish_url("https://api.wally.run/some/path"),
        Ok("https://api.wally.run/v1/publish".to_owned())
    );
    assert_eq!(publish_url("api"), Err("relative URL without a base".to_owned()));
    assert_eq!(
        test_index_url(&PathBuf::parse("/registry/test index")),
        Some("file:///registry/test%20index/".to_owned())
    );
    assert_eq!(test_index_url(&PathBuf::parse("registry/index")), None);
}

// ---------------------------------------------------------------------------
// Updating
// ---------------------------------------------------------------------------

fn update(specs: &[&str]) -> UpdateSubcommand {
    UpdateSubcommand {
        project_path: PathBuf::parse(ROOT),
        package_specs: specs.iter().map(|spec| PackageSpec::parse(spec).unwrap()).collect(),
    }
}

fn texts(ids: &OrdSet<PackageId>) -> Vec<String> {
    (0..ids.len()).map(|i| ids.at(i).to_text()).collect()
}

#[test]
fn package_specs_are_read() {
    assert_eq!(PackageSpec::parse("a/b"), Ok(PackageSpec::Named(name("a/b"))));
    assert_eq!(
        PackageSpec::parse("a/b@1.0.0"),
        Ok(PackageSpec::Required(PackageReq::parse("a/b@1.0.0").unwrap()))
    );
    assert_eq!(
        PackageSpec::parse("nothing"),
        Err("Was unable to parse nothing into a package requirement or a package name!".to_owned())
    );
    assert!(PackageSpec::parse("a/b@one").is_err());
}

#[test]
fn targets_are_not_used_again() {
    let locked = vec![id("a/lib@1.0.0"), id("a/other@1.2.0"), id("b/lib@0.3.0")];
    let by_name = update(&["a/lib"]);
    assert!(by_name.given_package_id_satisifies_targets(&id("a/lib@9.0.0")));
    assert!(!by_name.given_package_id_satisifies_targets(&id("b/lib@1.0.0")));
    assert_eq!(texts(&by_name.try_to_use(&locked)), vec!["a/other@1.2.0", "b/lib@0.3.0"]);
    assert_eq!(by_name.selected(&locked), 1);

    let by_req = update(&["a/other@1.0.0", "b/lib@1.0.0"]);
    assert_eq!(texts(&by_req.try_to_use(&locked)), vec!["a/lib@1.0.0", "b/lib@0.3.0"]);
    assert_eq!(by_req.selected(&locked), 1);

    let all = update(&[]);
    assert!(all.try_to_use(&locked).is_empty());
    assert_eq!(all.selected(&locked), 3);
}

// ---------------------------------------------------------------------------
// Installing
// ---------------------------------------------------------------------------

fn install_files() -> Files {
    let mut files = Files::new();
    files.write_manifest(
        ROOT,
        r#"
        [workspace]
        members = ["modules/*"]
        registry = "https://example.com/index"
        realm = "shared"

        [workspace.place]
        shared-packages = "game.ReplicatedStorage.Packages"
    "#,
    );
    files.write_manifest(
        "/ws/modules/app",
        r#"
        [package]
        name = "team/app"
        version = "1.0.0"

        [dependencies]
        Lib = { path = "../lib" }
        Util = "ext/util@1.0.0"
    "#,
    );
    files.write_manifest(
        "/ws/modules/lib",
        r#"
        [package]
        name = "team/lib"
        version = "1.0.0"
    "#,
    );
    files
}

fn run_install(
    command: &InstallSubcommand,
    files: &Files,
    locked: &OrdSet<PackageId>,
    registry: &InMemoryRegistry,
) -> Result<Installation, InstallError> {
    let workspace = files.load(ROOT).unwrap();
    let canonical = files.canonical_paths(&workspace);
    let mut sources = PackageSourceMap::new();
    loop {
        match command.run(&workspace, locked, &sources, &canonical) {
            Err(InstallError::Resolve(ResolveError::Unanswered { source, req })) => {
                registry.answer(&mut sources, source, req);
            }
            installed => return installed,
        }
    }
}

#[test]
fn installations_are_prepared() {
    let files = install_files();
    let mut registry = InMemoryRegistry::new();
    registry.publish(PackageBuilder::new("ext/util@1.3.0"));
    let command = InstallSubcommand { project_path: PathBuf::parse(ROOT), locked: false };
    let installed = run_install(&command, &files, &OrdSet::new(), &registry).unwrap();
    assert_eq!(
        texts(&installed.resolved.activated),
        vec!["ext/util@1.3.0", "team/app@1.0.0", "team/lib@1.0.0"]
    );
    assert_eq!(installed.external, 1);
    assert_eq!(installed.downloads, 1);
    let stale: Vec<&str> = installed.stale_dirs.iter().map(|dir| dir.as_str()).collect();
    assert_eq!(stale, vec!["/ws/Packages", "/ws/ServerPackages", "/ws/DevPackages"]);
    assert_eq!(installed.plan.error, None);
    assert_eq!(
        root_package_ids(files.load(ROOT).unwrap().members()).len(),
        2
    );
}

#[test]
fn lockfiles_have_to_be_up_to_date() {
    let files = install_files();
    let mut registry = InMemoryRegistry::new();
    registry.publish(PackageBuilder::new("ext/util@1.3.0"));
    let command = InstallSubcommand { project_path: PathBuf::parse(ROOT), locked: false };
    let locked_command = InstallSubcommand { project_path: PathBuf::parse(ROOT), locked: true };
    let first = run_install(&command, &files, &OrdSet::new(), &registry).unwrap();

    // What was resolved anew is accepted, and comes to the same.
    let again =
        run_install(&locked_command, &files, &first.resolved.activated, &registry).unwrap();
    assert_eq!(again, first);

    // Once there is a newer version, the lockfile is out of date, but still used.
    registry.publish(PackageBuilder::new("ext/util@1.4.0"));
    let refused = run_install(&locked_command, &files, &first.resolved.activated, &registry);
    match refused {
        Err(InstallError::OutOfDate(latest)) => assert_eq!(
            texts(&latest),
            vec!["ext/util@1.4.0", "team/app@1.0.0", "team/lib@1.0.0"]
        ),
        other => panic!("unexpected outcome {:?}", other),
    }
    let kept = run_install(&command, &files, &first.resolved.activated, &registry).unwrap();
    assert_eq!(kept, first);
}

/// A lockfile is checked only where it has to be up to date.
#[test]
fn lockfiles_are_verified() {
    let files = install_files();
    let workspace = files.load(ROOT).unwrap();
    let canonical = files.canonical_paths(&workspace);
    let mut registry = InMemoryRegistry::new();
    registry.publish(PackageBuilder::new("ext/util@1.3.0"));
    let free = InstallSubcommand { project_path: PathBuf::parse(ROOT), locked: false };
    let bound = InstallSubcommand { project_path: PathBuf::parse(ROOT), locked: true };
    let mut sources = PackageSourceMap::new();
    let nothing: OrdSet<PackageId> = OrdSet::new();
    assert_eq!(free.verify_lockfile(&workspace, &nothing, &sources, &canonical), Ok(()));
    match bound.verify_lockfile(&workspace, &nothing, &sources, &canonical) {
        Err(InstallError::Resolve(ResolveError::Unanswered { source, req })) => {
            registry.answer(&mut sources, source, req);
        }
        other => panic!("unexpected outcome {:?}", other),
    }
    let mut latest: OrdSet<PackageId> = OrdSet::new();
    for text in ["ext/util@1.3.0", "team/app@1.0.0", "team/lib@1.0.0"] {
        latest.insert(id(text));
    }
    assert_eq!(bound.verify_lockfile(&workspace, &latest, &sources, &canonical), Ok(()));
    assert_eq!(
        bound.verify_lockfile(&workspace, &nothing, &sources, &canonical),
        Err(InstallError::OutOfDate(latest))
    );
}

#[test]
fn package_specs_are_hashed() {
    let mut seen = HashSet::new();
    assert!(seen.insert(PackageSpec::parse("x/lib@1.0.0").unwrap()));
    assert!(!seen.insert(PackageSpec::parse("x/lib@^1.0.0").unwrap()));
    assert!(seen.insert(PackageSpec::parse("x/lib").unwrap()));
    assert!(!seen.insert(PackageSpec::parse("x/lib").unwrap()));
}

#[test]
fn path_sources_can_be_copied() {
    let source = PathSource::new(PathBuf::parse("/pkg"));
    assert_eq!(source.clone(), source);
}

#[test]
fn updates_choose_anew() {
    let files = install_files();
    let workspace = files.load(ROOT).unwrap();
    let canonical = files.canonical_paths(&workspace);
    let mut registry = InMemoryRegistry::new();
    registry.publish(PackageBuilder::new("ext/util@1.3.0"));
    registry.publish(PackageBuilder::new("ext/util@1.4.0"));
    let locked = vec![id("ext/util@1.3.0"), id("team/app@1.0.0"), id("team/lib@1.0.0")];
    let run = |command: UpdateSubcommand| {
        let mut sources = PackageSourceMap::new();
        loop {
            match command.run(&workspace, &locked, &sources, &canonical) {
                Err(ResolveError::Unanswered { source, req }) => {
                    registry.answer(&mut sources, source, req);
                }
                updated => return texts(&updated.unwrap().resolved.activated)[0].clone(),
            }
        }
    };
    assert_eq!(run(update(&["team/lib"])), "ext/util@1.3.0");
    assert_eq!(run(update(&["ext/util"])), "ext/util@1.4.0");
    assert_eq!(run(update(&[])), "ext/util@1.4.0");
}

#[test]
fn counts_are_described() {
    assert_eq!(external_dependencies(5, 2), 3);
    assert_eq!(external_dependencies(1, 2), 0);
    assert_eq!(describe_resolved(3, 1), "3 dependencies");
    assert_eq!(describe_resolved(3, 2), "3 dependencies (2 workspace members)");
}
