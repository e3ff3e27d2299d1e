use wally::installation::{
    download_count, package_container, package_id_file_name, workspace_project_json, Action,
    InstallPlan, InstallationContext, LinkError, PackageContainer,
};
use wally::manifest::Realm;
use wally::ordered::{OrdMap, OrdSet};
use wally::package_id::PackageId;
use wally::package_name::PackageName;
use wally::package_source::PackageSourceId;
use wally::path::PathBuf;
use wally::resolution::{Resolve, ResolvePackageMetadata};
use wally::version::Version;

fn id(text: &str) -> PackageId {
    let (package, at) = text.split_once('@').unwrap();
    let parsed = semver::Version::parse(at).unwrap();
    PackageId::new(
        PackageName::parse(package).unwrap(),
        Version::new(parsed.major, parsed.minor, parsed.patch),
    )
}

fn context(root: &str, shared: Option<&str>, server: Option<&str>) -> InstallationContext {
    InstallationContext::new(
        &PathBuf::parse(root),
        shared.map(|path| path.to_owned()),
        server.map(|path| path.to_owned()),
    )
}

#[test]
fn installation_contexts_can_be_copied() {
    let ctx = context("/project", Some("game.Packages"), None);
    assert_eq!(ctx.clone(), ctx);
}

#[test]
fn package_container_dir_names() {
    assert_eq!(PackageContainer::Index.dir_name(), "_Index");
    assert_eq!(PackageContainer::Workspace.dir_name(), "_Workspace");
}

#[test]
fn link_root_index() {
    let ctx = context("/project", None, None);
    let id = id("biff/cool@1.0.0");
    let link = ctx.link_root(&id, PackageContainer::Index);
    assert!(link.contains("_Index"));
    assert!(link.contains("biff_cool@1.0.0"));
    assert!(link.contains(r#"["cool"]"#));
    assert_eq!(link, "return require(script.Parent._Index[\"biff_cool@1.0.0\"][\"cool\"])\n");
}

#[test]
fn link_root_workspace() {
    let ctx = context("/project", None, None);
    let id = id("team/foo@1.0.0");
    let link = ctx.link_root(&id, PackageContainer::Workspace);
    assert!(link.contains("_Workspace"));
    assert!(link.contains("team_foo@1.0.0"));
}

#[test]
fn link_sibling_same_container() {
    let ctx = context("/project", None, None);
    let id = id("biff/dep@2.0.0");
    let link = ctx.link_sibling(&id, PackageContainer::Index, PackageContainer::Index);
    assert!(link.contains("script.Parent.Parent"));
    assert!(!link.contains("_Index"));
    assert!(!link.contains("_Workspace"));
    assert_eq!(link, "return require(script.Parent.Parent[\"biff_dep@2.0.0\"][\"dep\"])\n");
}

#[test]
fn link_sibling_cross_container_workspace_to_index() {
    let ctx = context("/project", None, None);
    let id = id("ext/util@1.0.0");
    let link = ctx.link_sibling(&id, PackageContainer::Workspace, PackageContainer::Index);
    assert!(link.contains("script.Parent.Parent.Parent._Index"));
    assert!(link.contains("ext_util@1.0.0"));
}

#[test]
fn link_sibling_cross_container_index_to_workspace() {
    let ctx = context("/project", None, None);
    let id = id("team/foo@1.0.0");
    let link = ctx.link_sibling(&id, PackageContainer::Index, PackageContainer::Workspace);
    assert!(link.contains("script.Parent.Parent.Parent._Workspace"));
    assert!(link.contains("team_foo@1.0.0"));
}

#[test]
fn link_shared_with_container() {
    let ctx = context("/project", Some("game.ReplicatedStorage.Packages"), None);
    let id = id("biff/shared@1.0.0");

    let link_index = ctx.link_shared(&id, PackageContainer::Index).unwrap();
    assert!(link_index.contains("game.ReplicatedStorage.Packages._Index"));

    let link_ws = ctx.link_shared(&id, PackageContainer::Workspace).unwrap();
    assert!(link_ws.contains("game.ReplicatedStorage.Packages._Workspace"));
}

#[test]
fn link_server_with_container() {
    let ctx = context("/project", None, Some("game.ServerScriptService.Packages"));
    let id = id("biff/server@1.0.0");

    let link_index = ctx.link_server(&id, PackageContainer::Index).unwrap();
    assert!(link_index.contains("game.ServerScriptService.Packages._Index"));
    assert_eq!(
        link_index,
        "return require(game.ServerScriptService.Packages._Index[\"biff_server@1.0.0\"]\
         [\"server\"])\n"
    );

    let link_ws = ctx.link_server(&id, PackageContainer::Workspace).unwrap();
    assert!(link_ws.contains("game.ServerScriptService.Packages._Workspace"));
}

#[test]
fn link_shared_missing_path_errors() {
    let ctx = context("/project", None, None);
    let id = id("biff/shared@1.0.0");
    assert!(ctx.link_shared(&id, PackageContainer::Index).is_err());
    let error = ctx.link_shared(&id, PackageContainer::Index).unwrap_err();
    assert_eq!(error, LinkError::NoSharedPath);
    assert_eq!(
        error.message(),
        "A server or dev dependency is depending on a shared dependency.\n\
         To link these packages correctly you must declare where shared\n\
         packages are placed in the roblox datamodel in your wally.toml.\n\n\
         This typically looks like:\n\n[place]\n\
         shared-packages = \"game.ReplicatedStorage.Packages\"\n"
    );
}

#[test]
fn link_server_missing_path_errors() {
    let ctx = context("/project", None, None);
    let id = id("biff/server@1.0.0");
    assert!(ctx.link_server(&id, PackageContainer::Index).is_err());
    let error = ctx.link_server(&id, PackageContainer::Index).unwrap_err();
    assert_eq!(error, LinkError::NoServerPath);
    assert!(error.message().contains("server-packages = \"game.ServerScriptService.Packages\""));
}

#[test]
fn container_dir_returns_correct_paths() {
    let ctx = context("/project", None, None);

    assert_eq!(
        *ctx.container_dir(Realm::Shared, PackageContainer::Index),
        PathBuf::parse("/project/Packages/_Index")
    );
    assert_eq!(
        *ctx.container_dir(Realm::Shared, PackageContainer::Workspace),
        PathBuf::parse("/project/Packages/_Workspace")
    );
    assert_eq!(
        *ctx.container_dir(Realm::Server, PackageContainer::Index),
        PathBuf::parse("/project/ServerPackages/_Index")
    );
    assert_eq!(
        *ctx.container_dir(Realm::Server, PackageContainer::Workspace),
        PathBuf::parse("/project/ServerPackages/_Workspace")
    );
    assert_eq!(
        *ctx.container_dir(Realm::Dev, PackageContainer::Index),
        PathBuf::parse("/project/DevPackages/_Index")
    );
    assert_eq!(
        *ctx.container_dir(Realm::Dev, PackageContainer::Workspace),
        PathBuf::parse("/project/DevPackages/_Workspace")
    );
}

#[test]
fn stale_directories_are_cleaned() {
    let dirs = context("/project", None, None).clean();
    let texts: Vec<&str> = dirs.iter().map(|dir| dir.as_str()).collect();
    assert_eq!(
        texts,
        vec!["/project/Packages", "/project/ServerPackages", "/project/DevPackages"]
    );
}

#[test]
fn package_container_from_resolve_metadata() {
    let id_registry = id("ext/util@1.0.0");
    let id_workspace = id("team/foo@1.0.0");

    let mut resolve = Resolve::default();
    resolve.metadata.insert(
        id_registry.clone(),
        ResolvePackageMetadata {
            realm: Realm::Shared,
            origin_realm: Realm::Shared,
            source_registry: PackageSourceId::DefaultRegistry,
            is_workspace_member: false,
        },
    );
    resolve.metadata.insert(
        id_workspace.clone(),
        ResolvePackageMetadata {
            realm: Realm::Shared,
            origin_realm: Realm::Shared,
            source_registry: PackageSourceId::Path(PathBuf::parse("/ws/modules/foo")),
            is_workspace_member: true,
        },
    );

    assert_eq!(package_container(&resolve, &id_registry), PackageContainer::Index);
    assert_eq!(package_container(&resolve, &id_workspace), PackageContainer::Workspace);
    assert_eq!(package_container(&resolve, &id("no/where@1.0.0")), PackageContainer::Index);
}

// ---------------------------------------------------------------------------
// Workspace members
// ---------------------------------------------------------------------------

/// Build a Resolve that resembles a workspace with the given members
/// and optional registry deps between them.
struct ResolveBuilder {
    resolve: Resolve,
}

impl ResolveBuilder {
    fn new() -> Self {
        Self { resolve: Resolve::default() }
    }

    fn add(mut self, text: &str, realm: Realm, source: PackageSourceId, member: bool) -> Self {
        self.resolve.activated.insert(id(text));
        self.resolve.metadata.insert(
            id(text),
            ResolvePackageMetadata {
                realm,
                origin_realm: realm,
                source_registry: source,
                is_workspace_member: member,
            },
        );
        self
    }

    fn add_workspace_member(self, text: &str, realm: Realm, member_dir: &str) -> Self {
        self.add(text, realm, PackageSourceId::Path(PathBuf::parse(member_dir)), true)
    }

    fn add_registry_package(self, text: &str, realm: Realm) -> Self {
        self.add(text, realm, PackageSourceId::DefaultRegistry, false)
    }

    fn add_dep(mut self, realm: Realm, source: &str, alias: &str, target: &str) -> Self {
        let graph = match realm {
            Realm::Shared => &mut self.resolve.shared_dependencies,
            Realm::Server => &mut self.resolve.server_dependencies,
            Realm::Dev => &mut self.resolve.dev_dependencies,
        };
        let mut edges = graph.get(&id(source)).cloned().unwrap_or_else(OrdMap::new);
        edges.insert(alias.to_owned(), id(target));
        graph.insert(id(source), edges);
        self
    }

    fn add_shared_dep(self, source: &str, alias: &str, target: &str) -> Self {
        self.add_dep(Realm::Shared, source, alias, target)
    }

    fn add_server_dep(self, source: &str, alias: &str, target: &str) -> Self {
        self.add_dep(Realm::Server, source, alias, target)
    }

    fn build(self) -> Resolve {
        self.resolve
    }
}

fn roots(texts: &[&str]) -> OrdSet<PackageId> {
    let mut ids = OrdSet::new();
    for text in texts {
        ids.insert(id(text));
    }
    ids
}

/// The contents of a file that a plan writes.
fn file<'a>(plan: &'a InstallPlan, wanted: &str) -> Option<&'a str> {
    plan.actions.iter().find_map(|action| match action {
        Action::WriteFile { path, contents } if path.as_str() == wanted => {
            Some(contents.as_str())
        }
        _ => None,
    })
}

/// Whether a plan puts anything below a directory.
fn touches(plan: &InstallPlan, dir: &str) -> bool {
    let below = format!("{}/", dir);
    plan.actions.iter().any(|action| {
        let path = match action {
            Action::CreateDir(dir) => dir,
            Action::WriteFile { path, .. } => path,
            Action::LinkMember { dir, .. } => dir,
            Action::Download { dir, .. } => dir,
        };
        path.as_str() == dir || path.as_str().starts_with(&below)
    })
}

/// Whether a plan links a member in a directory.
fn links_in(plan: &InstallPlan, wanted: &str) -> bool {
    plan.actions.iter().any(|action| match action {
        Action::LinkMember { dir, .. } => dir.as_str() == wanted,
        _ => false,
    })
}

/// Where a path leads to when its dots are followed.
fn follow(path: &str) -> String {
    let mut parts: Vec<&str> = Vec::new();
    for part in path.split('/') {
        match part {
            "" | "." => {}
            ".." => {
                parts.pop();
            }
            part => parts.push(part),
        }
    }
    format!("/{}", parts.join("/"))
}

/// The directory of a member's project file, and what the file holds.
fn project_json(root: &str, text: &str, realm: Realm, member_dir: &str) -> (String, serde_json::Value) {
    let ctx = context(root, None, None);
    let resolve = ResolveBuilder::new()
        .add_workspace_member(text, realm, member_dir)
        .add_registry_package("other/other@1.0.0", Realm::Shared)
        .build();
    let plan = ctx.install(&roots(&[text, "other/other@1.0.0"]), &resolve);
    assert_eq!(plan.error, None);
    let (linked, dir, member_dir) = plan
        .actions
        .iter()
        .find_map(|action| match action {
            Action::LinkMember { id, dir, member_dir } => Some((id, dir, member_dir)),
            _ => None,
        })
        .unwrap();
    let json = workspace_project_json(linked, member_dir, dir);
    (dir.as_str().to_owned(), serde_json::from_str(&json).unwrap())
}

#[test]
fn workspace_project_json_created_with_correct_path() {
    let (dir, content) =
        project_json("/ws", "team/foo@1.0.0", Realm::Shared, "/ws/modules/foo");
    assert_eq!(dir, "/ws/Packages/_Workspace/team_foo@1.0.0/foo");
    assert_eq!(content["name"], "foo");

    let path_value = content["tree"]["$path"].as_str().unwrap();
    assert!(!path_value.is_empty(), "path should be non-empty");

    // The $path should resolve back to the member directory.
    assert_eq!(follow(&format!("{}/{}", dir, path_value)), "/ws/modules/foo");
}

#[test]
fn workspace_project_json_in_server_realm() {
    let (dir, content) =
        project_json("/ws", "team/svc@1.0.0", Realm::Server, "/ws/modules/svc");
    assert_eq!(dir, "/ws/ServerPackages/_Workspace/team_svc@1.0.0/svc");
    assert_eq!(content["name"], "svc");
    let path_value = content["tree"]["$path"].as_str().unwrap();
    assert_eq!(follow(&format!("{}/{}", dir, path_value)), "/ws/modules/svc");
}

#[test]
fn workspace_project_json_path_resolves_correctly_with_deep_nesting() {
    let (dir, content) =
        project_json("/ws", "team/member@2.0.0", Realm::Shared, "/ws/deep/nested/path/member");
    assert_eq!(dir, "/ws/Packages/_Workspace/team_member@2.0.0/member");
    let path_str = content["tree"]["$path"].as_str().unwrap();
    assert_eq!(path_str, "../../../../deep/nested/path/member");
    assert_eq!(follow(&format!("{}/{}", dir, path_str)), "/ws/deep/nested/path/member");
}

#[test]
fn project_files_are_written() {
    let write = |member_dir: &str, project_dir: &str| {
        workspace_project_json(
            &id("team/foo@1.0.0"),
            &PathBuf::parse(member_dir),
            &PathBuf::parse(project_dir),
        )
    };
    assert_eq!(
        write("/ws/foo", "/ws/Packages/x"),
        "{\n  \"name\": \"foo\",\n  \"tree\": {\n    \"$path\": \"../../foo\"\n  }\n}"
    );
    // The same directory, and one inside the other.
    assert!(write("/ws", "/ws").contains("\"$path\": \"\""));
    assert!(write("/ws/a/b", "/ws").contains("\"$path\": \"a/b\""));
    // A backslash is written as a slash, and a quote is escaped.
    assert!(write("/ws/a\\b", "/ws").contains("\"$path\": \"a/b\""));
    assert!(write("/ws/a\"b", "/ws").contains("\"$path\": \"a\\\"b\""));
    // Where there is no relative path, the member's own is written.
    assert!(write("/ws/a", "../b").contains("\"$path\": \"/ws/a\""));
}

#[test]
fn workspace_members_get_workspace_dir_not_index() {
    let resolve = ResolveBuilder::new()
        .add_workspace_member("team/foo@1.0.0", Realm::Shared, "/ws/modules/foo")
        .add_workspace_member("team/bar@1.0.0", Realm::Shared, "/ws/modules/bar")
        .add_shared_dep("team/foo@1.0.0", "Bar", "team/bar@1.0.0")
        .build();
    let root_ids = roots(&["team/foo@1.0.0", "team/bar@1.0.0"]);

    let plan = context("/ws", None, None).install(&root_ids, &resolve);
    assert_eq!(plan.error, None);

    // _Workspace directories should exist for both members
    assert!(links_in(&plan, "/ws/Packages/_Workspace/team_foo@1.0.0/foo"));
    assert!(links_in(&plan, "/ws/Packages/_Workspace/team_bar@1.0.0/bar"));

    // _Index should NOT have these workspace packages
    assert!(!touches(&plan, "/ws/Packages/_Index/team_foo@1.0.0"));
    assert!(!touches(&plan, "/ws/Packages/_Index/team_bar@1.0.0"));
    assert_eq!(download_count(&root_ids, &resolve), 0);
}

#[test]
fn workspace_root_links_point_to_workspace_container() {
    let resolve = ResolveBuilder::new()
        .add_workspace_member("team/foo@1.0.0", Realm::Shared, "/ws/modules/foo")
        .add_workspace_member("team/bar@1.0.0", Realm::Shared, "/ws/modules/bar")
        .add_shared_dep("team/foo@1.0.0", "Bar", "team/bar@1.0.0")
        .build();
    let root_ids = roots(&["team/foo@1.0.0", "team/bar@1.0.0"]);

    let plan = context("/ws", None, None).install(&root_ids, &resolve);

    // Foo depends on Bar, so there should be a root link Packages/Bar.lua
    let content = file(&plan, "/ws/Packages/Bar.lua").expect("root link for Bar should exist");
    assert!(
        content.contains("_Workspace"),
        "root link should point into _Workspace, got: {}",
        content
    );
    assert!(content.contains("team_bar@1.0.0"));
}

#[test]
fn workspace_sibling_links_written_for_members() {
    let resolve = ResolveBuilder::new()
        .add_workspace_member("team/foo@1.0.0", Realm::Shared, "/ws/modules/foo")
        .add_workspace_member("team/bar@1.0.0", Realm::Shared, "/ws/modules/bar")
        .add_shared_dep("team/foo@1.0.0", "Bar", "team/bar@1.0.0")
        .build();
    let root_ids = roots(&["team/foo@1.0.0", "team/bar@1.0.0"]);

    let plan = context("/ws", None, None).install(&root_ids, &resolve);

    // Foo's _Workspace entry should have a sibling link to Bar
    let content = file(&plan, "/ws/Packages/_Workspace/team_foo@1.0.0/Bar.lua")
        .expect("sibling link for Bar in foo's workspace entry should exist");
    assert!(
        content.contains("script.Parent.Parent"),
        "sibling link should use script.Parent.Parent navigation"
    );
    assert!(content.contains("team_bar@1.0.0"));
}

#[test]
fn workspace_cross_container_links() {
    let ctx = context("/project", None, None);
    let util_id = id("ext/util@1.0.0");

    let link = ctx.link_sibling(&util_id, PackageContainer::Workspace, PackageContainer::Index);
    assert!(
        link.contains("script.Parent.Parent.Parent._Index"),
        "cross-container link should go up to realm root then into _Index: {}",
        link
    );
}

#[test]
fn single_package_backward_compat_no_workspace_dir() {
    let resolve = ResolveBuilder::new()
        .add_workspace_member("biff/mypackage@1.0.0", Realm::Shared, "/ws")
        .add_registry_package("ext/dep@1.0.0", Realm::Shared)
        .add_shared_dep("biff/mypackage@1.0.0", "Dep", "ext/dep@1.0.0")
        .build();
    let root_ids = roots(&["biff/mypackage@1.0.0"]);

    let plan = context("/ws", None, None).install(&root_ids, &resolve);
    assert_eq!(plan.error, None);

    // Root link should exist for the registry dep
    assert!(file(&plan, "/ws/Packages/Dep.lua").is_some());

    // _Index should have the registry package
    assert!(touches(&plan, "/ws/Packages/_Index/ext_dep@1.0.0"));
    assert_eq!(
        plan.actions.last().unwrap(),
        &Action::Download {
            id: id("ext/dep@1.0.0"),
            source: PackageSourceId::DefaultRegistry,
            dir: PathBuf::parse("/ws/Packages/_Index/ext_dep@1.0.0/dep"),
        }
    );
    assert_eq!(download_count(&root_ids, &resolve), 1);

    // No _Workspace directory should be created for the sole root
    assert!(
        !touches(&plan, "/ws/Packages/_Workspace"),
        "single-package project should not create _Workspace"
    );
}

#[test]
fn workspace_cross_realm_member_links() {
    let resolve = ResolveBuilder::new()
        .add_workspace_member("team/svc@1.0.0", Realm::Server, "/ws/modules/svc")
        .add_workspace_member("team/shared-lib@1.0.0", Realm::Shared, "/ws/modules/shared-lib")
        .add_server_dep("team/svc@1.0.0", "SharedLib", "team/shared-lib@1.0.0")
        .build();
    let root_ids = roots(&["team/svc@1.0.0", "team/shared-lib@1.0.0"]);

    let ctx = context(
        "/ws",
        Some("game.ReplicatedStorage.Packages"),
        Some("game.ServerScriptService.Packages"),
    );
    let plan = ctx.install(&root_ids, &resolve);
    assert_eq!(plan.error, None);

    // svc is server realm, shared-lib is shared realm
    assert!(links_in(&plan, "/ws/ServerPackages/_Workspace/team_svc@1.0.0/svc"));
    assert!(links_in(&plan, "/ws/Packages/_Workspace/team_shared-lib@1.0.0/shared-lib"));

    // svc depends on shared-lib (cross-realm) - the link should use
    // the absolute DataModel path.
    let content = file(&plan, "/ws/ServerPackages/_Workspace/team_svc@1.0.0/SharedLib.lua")
        .expect("cross-realm link should exist");
    assert!(
        content.contains("game.ReplicatedStorage.Packages._Workspace"),
        "cross-realm link should reference shared Packages._Workspace: {}",
        content
    );
}

#[test]
fn refused_links_end_a_plan() {
    let resolve = ResolveBuilder::new()
        .add_registry_package("a/first@1.0.0", Realm::Shared)
        .add_registry_package("b/second@1.0.0", Realm::Server)
        .add_registry_package("c/third@1.0.0", Realm::Shared)
        .add_server_dep("b/second@1.0.0", "First", "a/first@1.0.0")
        .build();
    let plan = context("/ws", None, None).install(&roots(&[]), &resolve);
    assert_eq!(plan.error, Some(LinkError::NoSharedPath));
    // What comes before the link is still done.
    assert_eq!(plan.actions.len(), 2);
    assert!(matches!(plan.actions[0], Action::Download { .. }));
    assert_eq!(
        plan.actions[1],
        Action::CreateDir(PathBuf::parse("/ws/ServerPackages/_Index/b_second@1.0.0"))
    );
}

#[test]
fn dev_packages_cannot_be_depended_upon() {
    let resolve = ResolveBuilder::new()
        .add_registry_package("a/first@1.0.0", Realm::Dev)
        .add_registry_package("b/second@1.0.0", Realm::Shared)
        .add_shared_dep("b/second@1.0.0", "First", "a/first@1.0.0")
        .build();
    let plan = context("/ws", Some("x"), Some("y")).install(&roots(&[]), &resolve);
    assert_eq!(plan.error, Some(LinkError::DevDependency));
    assert_eq!(
        LinkError::DevDependency.message(),
        "A dev dependency cannot be depended upon by a non-dev dependency"
    );
}

#[test]
fn every_package_is_put_in_its_place() {
    let resolve = ResolveBuilder::new()
        .add_workspace_member("team/a@1.0.0", Realm::Shared, "/ws/a")
        .add_workspace_member("team/b@1.0.0", Realm::Server, "/ws/b")
        .add_registry_package("ext/dev@1.0.0", Realm::Dev)
        .add_registry_package("ext/lib@1.0.0", Realm::Shared)
        .add_shared_dep("team/a@1.0.0", "Lib", "ext/lib@1.0.0")
        .add_dep(Realm::Dev, "team/a@1.0.0", "Dev", "ext/dev@1.0.0")
        .build();
    let root_ids = roots(&["team/a@1.0.0", "team/b@1.0.0"]);
    let plan = context("/ws", Some("game.Packages"), None).install(&root_ids, &resolve);
    // The dev package is linked from the dev directory, but cannot be from a
    // member that is shared.
    assert_eq!(plan.error, Some(LinkError::DevDependency));
    assert!(file(&plan, "/ws/DevPackages/Dev.lua").unwrap().contains("script.Parent._Index"));
    assert!(file(&plan, "/ws/Packages/Lib.lua").is_some());
    assert_eq!(
        file(&plan, "/ws/Packages/_Workspace/team_a@1.0.0/Lib.lua").unwrap(),
        "return require(script.Parent.Parent.Parent._Index[\"ext_lib@1.0.0\"][\"lib\"])\n"
    );
    assert_eq!(download_count(&root_ids, &resolve), 2);
    let downloads = plan
        .actions
        .iter()
        .filter(|action| matches!(action, Action::Download { .. }))
        .count();
    assert_eq!(downloads, 2);
}

/// Every dependency of a root has a link at the top, and every dependency of a
/// package has one beside the package.
#[test]
fn every_dependency_is_linked() {
    let resolve = ResolveBuilder::new()
        .add_registry_package("x/root@1.0.0", Realm::Shared)
        .add_registry_package("ext/a@1.0.0", Realm::Shared)
        .add_registry_package("ext/b@2.0.0", Realm::Shared)
        .add_shared_dep("x/root@1.0.0", "A", "ext/a@1.0.0")
        .add_shared_dep("ext/a@1.0.0", "B", "ext/b@2.0.0")
        .build();
    let plan = context("/ws", None, None).install(&roots(&["x/root@1.0.0"]), &resolve);
    assert_eq!(plan.error, None);
    assert_eq!(
        file(&plan, "/ws/Packages/A.lua").unwrap(),
        "return require(script.Parent._Index[\"ext_a@1.0.0\"][\"a\"])\n"
    );
    assert_eq!(
        file(&plan, "/ws/Packages/_Index/ext_a@1.0.0/B.lua").unwrap(),
        "return require(script.Parent.Parent[\"ext_b@2.0.0\"][\"b\"])\n"
    );
    assert_eq!(file(&plan, "/ws/Packages/B.lua"), None);
    // The root is no member, so it has no place of its own.
    assert!(!touches(&plan, "/ws/Packages/_Index/x_root@1.0.0"));
}

#[test]
fn file_names_tell_packages_apart() {
    assert_eq!(package_id_file_name(&id("team/foo@1.0.0")), "team_foo@1.0.0");
    assert_ne!(
        package_id_file_name(&id("a/b-c@1.0.0")),
        package_id_file_name(&id("a-b/c@1.0.0"))
    );
}
