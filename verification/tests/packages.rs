use std::collections::HashSet;

use wally::dependency_spec::{DependencySpec, PathDependencySpec};
use wally::manifest::Realm;
use wally::order::Order;
use wally::ordered::{Key, OrdMap, OrdSet};
use wally::package_id::PackageId;
use wally::package_name::{PackageName, PackageNameError};
use wally::package_req::{check_requirement, PackageReq, PackageReqError};
use wally::path::{Component, PathBuf};
use wally::text;
use wally::version::{Identifier, Version};
use wally::version_req::{check_numbers, VersionReq};

fn version(text: &str) -> Version {
    let parsed = semver::Version::parse(text).unwrap();
    let identifier = |i: &semver::Identifier| match i {
        semver::Identifier::Numeric(n) => Identifier::Numeric(*n),
        semver::Identifier::AlphaNumeric(t) => Identifier::AlphaNumeric(t.clone()),
    };
    Version {
        major: parsed.major,
        minor: parsed.minor,
        patch: parsed.patch,
        pre: parsed.pre.iter().map(identifier).collect(),
        build: parsed.build.iter().map(identifier).collect(),
    }
}

fn name(text: &str) -> PackageName {
    PackageName::parse(text).unwrap()
}

fn req(text: &str) -> PackageReq {
    PackageReq::parse(text).unwrap()
}

fn id(package: &str, at: &str) -> PackageId {
    PackageId::new(name(package), version(at))
}

// ---------------------------------------------------------------------------
// Dependency specs
// ---------------------------------------------------------------------------

#[test]
fn display_registry() {
    let req = req("hello/world@1.0.0");
    let spec = DependencySpec::Registry(req.clone());
    assert_eq!(spec.to_text(), req.to_text());
}

#[test]
fn from_package_req() {
    let req = req("foo/bar@2.0.0");
    let spec: DependencySpec = req.clone().into();
    assert_eq!(spec.expect_registry(), &req);
}

#[test]
fn display_path() {
    let spec = DependencySpec::Path(PathDependencySpec { path: PathBuf::parse("../foo") });
    assert!(spec.to_text().contains("../foo"));
    assert_eq!(spec.to_text(), "path: ../foo");
}

#[test]
fn as_path_returns_none_for_registry() {
    let spec = DependencySpec::Registry(req("hello/world@1.0.0"));
    assert!(spec.as_path().is_none());
}

#[test]
fn display_workspace() {
    let spec = DependencySpec::Workspace { workspace: true };
    assert!(spec.to_text().contains("true"));
    assert_eq!(spec.to_text(), "workspace: true");
    assert_eq!(DependencySpec::Workspace { workspace: false }.to_text(), "workspace: false");
}

#[test]
fn is_workspace_false_for_non_workspace() {
    assert!(!DependencySpec::Registry(req("hello/world@1.0.0")).is_workspace());
    assert!(!DependencySpec::Path(PathDependencySpec { path: PathBuf::parse("../foo") })
        .is_workspace());
}

#[test]
fn workspace_directives() {
    assert!(DependencySpec::Workspace { workspace: true }.is_workspace());
    assert!(!DependencySpec::Workspace { workspace: false }.is_workspace());
    assert!(DependencySpec::Workspace { workspace: true }.as_registry().is_none());
    assert_eq!(
        DependencySpec::Registry(req("a/b@1")).as_registry(),
        Some(&req("a/b@1"))
    );
}

// ---------------------------------------------------------------------------
// Names, versions and requirements
// ---------------------------------------------------------------------------

#[test]
fn package_names_are_checked() {
    let parsed = name("team/lib-2");
    assert_eq!(parsed.scope(), "team");
    assert_eq!(parsed.name(), "lib-2");
    assert_eq!(parsed.to_text(), "team/lib-2");
    assert_eq!(PackageName::parse(&parsed.to_text()), Ok(parsed));
    assert_eq!(PackageName::parse("team"), Err(PackageNameError::Format));
    assert_eq!(
        PackageName::parse("Team/lib"),
        Err(PackageNameError::Scope("Team".to_owned()))
    );
    assert_eq!(
        PackageName::parse("team/"),
        Err(PackageNameError::Name("".to_owned()))
    );
    assert_eq!(
        PackageName::parse("team/lib/more"),
        Err(PackageNameError::Name("lib/more".to_owned()))
    );
    let longest = "a".repeat(64);
    assert!(PackageName::new(&longest, "lib").is_ok());
    let too_long = "a".repeat(65);
    assert_eq!(
        PackageName::new("team", &too_long),
        Err(PackageNameError::Name(too_long.clone()))
    );
    assert_eq!(
        PackageNameError::Scope("T".to_owned()).message(),
        "package scope 'T' is invalid (scopes are 1 to 64 lowercase characters, digits and '-')"
    );
    assert_eq!(
        PackageNameError::Name("T".to_owned()).message(),
        "package name 'T' is invalid (names are 1 to 64 lowercase characters, digits and '-')"
    );
    assert_eq!(
        PackageNameError::Format.message(),
        "a package name is of the form SCOPE/NAME"
    );
}

#[test]
fn versions_compare_by_precedence() {
    let ascending = [
        "0.9.0",
        "1.0.0-alpha",
        "1.0.0-alpha.1",
        "1.0.0-alpha.beta",
        "1.0.0-beta",
        "1.0.0-beta.2",
        "1.0.0-beta.11",
        "1.0.0-rc.1",
        "1.0.0",
        "1.0.1",
        "1.10.0",
        "2.0.0",
    ];
    for i in 0..ascending.len() {
        for j in 0..ascending.len() {
            let expected = if i < j {
                Order::Less
            } else if i == j {
                Order::Equal
            } else {
                Order::Greater
            };
            let found = version(ascending[i]).compare(&version(ascending[j]));
            assert!(found == expected, "{} and {}", ascending[i], ascending[j]);
        }
    }
}

#[test]
fn build_metadata_does_not_count() {
    assert_eq!(version("1.0.0+a"), version("1.0.0+b"));
    assert!(version("1.0.0+a").is_same(&version("1.0.0")));
    assert!(!version("1.0.0+a").is_identical(&version("1.0.0")));
    assert!(id("a/b", "1.0.0+x").is_same(&id("a/b", "1.0.0+y")));
    let mut ids: OrdSet<PackageId> = OrdSet::new();
    ids.insert(id("a/b", "1.0.0+x"));
    ids.insert(id("a/b", "1.0.0+y"));
    assert_eq!(ids.len(), 1);
    assert_eq!(ids.at(0).to_text(), "a/b@1.0.0+x");
}

#[test]
fn versions_are_written() {
    assert_eq!(version("1.2.3").to_text(), "1.2.3");
    assert_eq!(version("10.20.30-alpha.7+build.5").to_text(), "10.20.30-alpha.7+build.5");
    assert_eq!(Version::new(0, 0, 18446744073709551615).to_text(), "0.0.18446744073709551615");
    assert_eq!(version("1.2.3-rc.1+b").precedence_to_text(), "1.2.3-rc.1");
}

#[test]
fn version_texts_tell_versions_apart() {
    let texts = ["1.0.0", "1.0.0-1", "1.0.0-1a", "1.0.0-1.a", "1.0.0+1", "1.0.0-1+1", "10.0.0"];
    for (i, a) in texts.iter().enumerate() {
        assert_eq!(version(a).to_text(), *a);
        for b in &texts[i + 1..] {
            assert!(!version(a).is_identical(&version(b)));
        }
    }
}

#[test]
fn requirements_match_versions() {
    let compatible = VersionReq::parse("1.2.0").unwrap();
    assert_eq!(compatible.to_text(), ">=1.2.0, <2.0.0");
    assert!(compatible.matches(&version("1.2.0")));
    assert!(compatible.matches(&version("1.9.4")));
    assert!(!compatible.matches(&version("1.1.9")));
    assert!(!compatible.matches(&version("2.0.0")));
    assert!(!compatible.matches(&version("1.3.0-alpha")));
    let unstable = VersionReq::parse("0.4.0").unwrap();
    assert!(unstable.matches(&version("0.4.7")));
    assert!(!unstable.matches(&version("0.5.0")));
    assert!(VersionReq::parse("not a version").is_err());
}

#[test]
fn exact_requirements_match_one_version() {
    let exact = VersionReq::exact(&version("1.2.3-rc.1+build"));
    assert_eq!(exact.to_text(), "=1.2.3-rc.1");
    assert!(exact.matches(&version("1.2.3-rc.1")));
    assert!(exact.matches(&version("1.2.3-rc.1+other")));
    assert!(!exact.matches(&version("1.2.3")));
    assert!(!exact.matches(&version("1.2.4")));
    assert!(exact.is_same(&VersionReq::exact(&version("1.2.3-rc.1+build"))));
    assert!(!exact.is_same(&VersionReq::exact(&version("1.2.3-rc.1"))));
}

/// Requirements are the same where they ask for the same, however they are
/// written.
#[test]
fn requirements_are_the_same_in_plain_form() {
    let parsed = |text: &str| VersionReq::parse(text).unwrap();
    let exact = |text: &str| VersionReq::exact(&version(text));
    assert_eq!(parsed("1.0.0"), parsed("^1.0.0"));
    assert_eq!(parsed("1.0.0"), parsed(">=1.0.0, <2.0.0"));
    assert_ne!(parsed("1.0.0"), parsed("1.0.1"));
    assert_eq!(exact("1.0.0"), parsed("=1.0.0"));
    assert_eq!(parsed("=1.0.0"), exact("1.0.0"));
    assert_eq!(exact("1.0.0-rc.1"), parsed("=1.0.0-rc.1"));
    assert_ne!(exact("1.0.0"), parsed("1.0.0"));
    assert_ne!(exact("1.0.0"), exact("1.0.1"));
    // Build metadata does not count.
    assert_eq!(exact("1.0.0+a"), exact("1.0.0+b"));
    assert_eq!(req("x/lib@1.0.0"), req("x/lib@^1.0.0"));
    assert_ne!(req("x/lib@1.0.0"), req("x/other@1.0.0"));
    assert_eq!(
        DependencySpec::Registry(req("x/lib@1.0.0")),
        DependencySpec::Registry(req("x/lib@^1.0.0"))
    );
}

/// The same answers come from the requirements of `semver`.
#[test]
fn requirements_compare_as_ranges_do() {
    let written = [
        "1.0.0", "^1.0.0", "=1.0.0", ">=1.0.0, <2.0.0", ">=1.0.0 <2.0.0", "~1.0", "1.0.*", "*",
        ">=0.0.0", "=1.0.0-1", "=1.0.0-rc.1", "1.0.0 || 2.0.0",
    ];
    for a in written {
        for b in written {
            assert_eq!(
                VersionReq::parse(a).unwrap() == VersionReq::parse(b).unwrap(),
                semver::VersionReq::parse(a).unwrap() == semver::VersionReq::parse(b).unwrap(),
                "{} and {}",
                a,
                b
            );
        }
    }
}

/// A version that no text gives is pinned by no requirement that was read.
#[test]
fn versions_that_no_text_gives_are_pinned_by_no_text() {
    let with = |identifier: Identifier| Version {
        major: 1,
        minor: 0,
        patch: 0,
        pre: vec![identifier],
        build: vec![],
    };
    let number = VersionReq::exact(&with(Identifier::Numeric(1)));
    let name = VersionReq::exact(&with(Identifier::AlphaNumeric("1".to_owned())));
    let dotted = VersionReq::exact(&with(Identifier::AlphaNumeric("a.b".to_owned())));
    let large = VersionReq::exact(&with(Identifier::AlphaNumeric(
        "18446744073709551616".to_owned(),
    )));
    let parsed = |text: &str| VersionReq::parse(text).unwrap();
    assert_eq!(number, parsed("=1.0.0-1"));
    assert_ne!(name, parsed("=1.0.0-1"));
    assert_ne!(name, number);
    assert_ne!(dotted, parsed("=1.0.0-a.b"));
    assert_ne!(parsed("=1.0.0-a.b"), dotted);
    assert_eq!(large, parsed("=1.0.0-18446744073709551616"));
    assert_eq!(name.to_text(), number.to_text());
}

#[test]
fn numbers_are_read() {
    assert_eq!(text::decimal_number("0"), Some(0));
    assert_eq!(text::decimal_number("42"), Some(42));
    assert_eq!(text::decimal_number("18446744073709551615"), Some(u64::MAX));
    assert_eq!(text::decimal_number("18446744073709551616"), None);
    assert_eq!(text::decimal_number("042"), None);
    assert_eq!(text::decimal_number("4a"), None);
    assert_eq!(text::decimal_number(""), None);
}

#[test]
fn requirements_that_are_the_same_are_hashed_alike() {
    let mut seen = HashSet::new();
    assert!(seen.insert(req("x/lib@1.0.0")));
    assert!(!seen.insert(req("x/lib@^1.0.0")));
    assert!(seen.insert(req("x/lib@=1.0.0")));
    assert!(seen.insert(req("x/other@1.0.0")));
    assert_eq!(seen.len(), 3);
}

#[test]
fn numbers_in_requirements_are_checked() {
    assert!(check_numbers("1.2.3"));
    assert!(check_numbers("18446744073709551614.0.0"));
    assert!(!check_numbers("18446744073709551615.0.0"));
    assert!(!check_numbers("1.99999999999999999999.0"));
    assert!(check_numbers("1.0.0-99999999999999999999"));
    assert!(!check_numbers("1.0.0-9 99999999999999999999"));
    // Names may hold any numbers.
    assert!(check_requirement("a/99999999999999999999@1.0.0"));
    assert!(check_requirement("a/99999999999999999999"));
    assert!(!check_requirement("a/b@99999999999999999999"));
    let req = PackageReq::parse("a/99999999999999999999@1.0.0").unwrap();
    assert_eq!(req.name().name(), "99999999999999999999");
    assert!(VersionReq::parse("1.0.0-99999999999999999999").is_ok());
}

#[test]
fn package_reqs_are_read() {
    let parsed = req("roblox/roact@1.4.2");
    assert_eq!(parsed.name().scope(), "roblox");
    assert_eq!(parsed.name().name(), "roact");
    assert_eq!(parsed.to_text(), "roblox/roact@>=1.4.2, <2.0.0");
    assert!(parsed.matches(&name("roblox/roact"), &version("1.4.2")));
    assert!(!parsed.matches(&name("roblox/rodux"), &version("1.4.2")));
    assert!(parsed.matches_id(&id("roblox/roact", "1.9.0")));
    assert!(!parsed.matches_id(&id("roblox/roact", "2.0.0")));
    assert_eq!(PackageReq::parse("roblox/roact"), Err(PackageReqError::Format));
    assert_eq!(
        PackageReq::parse("roact@1.0.0"),
        Err(PackageReqError::Name(PackageNameError::Format))
    );
    let unreadable = PackageReq::parse("roblox/roact@one").unwrap_err();
    assert!(matches!(unreadable, PackageReqError::VersionReq(_)));
    assert!(unreadable.message().starts_with("could not parse version requirement: "));
    assert_eq!(
        PackageReqError::Format.message(),
        "a package requirement is of the form SCOPE/NAME@VERSION_REQ"
    );
    assert_eq!(
        PackageReqError::Name(PackageNameError::Format).message(),
        "a package name is of the form SCOPE/NAME"
    );
}

#[test]
fn ids_stand_in_order() {
    let mut ids: OrdSet<PackageId> = OrdSet::new();
    ids.insert(id("b/a", "1.0.0"));
    ids.insert(id("a/b", "1.10.0"));
    ids.insert(id("a/b", "1.9.0"));
    ids.insert(id("a/a", "9.0.0"));
    let written: Vec<String> = (0..ids.len()).map(|i| ids.at(i).to_text()).collect();
    assert_eq!(written, vec!["a/a@9.0.0", "a/b@1.9.0", "a/b@1.10.0", "b/a@1.0.0"]);
}

#[test]
fn realms_allow_dependencies() {
    let realms = [Realm::Server, Realm::Shared, Realm::Dev];
    for dep_realm in realms {
        assert!(Realm::is_dependency_valid(Realm::Server, dep_realm));
        assert!(Realm::is_dependency_valid(Realm::Dev, dep_realm));
    }
    assert!(Realm::is_dependency_valid(Realm::Shared, Realm::Shared));
    assert!(!Realm::is_dependency_valid(Realm::Shared, Realm::Server));
    assert!(!Realm::is_dependency_valid(Realm::Shared, Realm::Dev));
    assert_eq!(Realm::Dev.to_text(), "Dev");
}

// ---------------------------------------------------------------------------
// Maps, texts and paths
// ---------------------------------------------------------------------------

#[test]
fn maps_keep_their_keys_in_order() {
    let mut map: OrdMap<String, PackageId> = OrdMap::new();
    map.insert("b".to_owned(), id("x/b", "1.0.0"));
    map.insert("a".to_owned(), id("x/a", "1.0.0"));
    map.insert("B".to_owned(), id("x/c", "1.0.0"));
    map.insert("b".to_owned(), id("x/d", "1.0.0"));
    let keys: Vec<&str> = (0..map.len()).map(|i| map.key_at(i).as_str()).collect();
    assert_eq!(keys, vec!["B", "a", "b"]);
    assert_eq!(map.get(&"b".to_owned()), Some(&id("x/d", "1.0.0")));
    assert_eq!(map.get(&"c".to_owned()), None);
    assert!(map.contains_key(&"a".to_owned()));
    assert!(!map.is_empty());
}

#[test]
fn texts_are_split_and_joined() {
    assert_eq!(text::split_text("a//b/", '/'), vec!["a", "", "b", ""]);
    assert_eq!(text::split_text("", '/'), vec![""]);
    let parts: Vec<String> = vec!["a".to_owned(), "b".to_owned(), "c".to_owned()];
    assert_eq!(text::join_text(&parts, ", "), "a, b, c");
    assert_eq!(text::join_text(&Vec::new(), ", "), "");
    assert_eq!(text::decimal_text(0), "0");
    assert_eq!(text::decimal_text(1024), "1024");
    assert_eq!(text::to_slashes("a\\b\\c/d"), "a/b/c/d");
    assert_eq!(text::find("a@b@c", '@'), 1);
    assert!(text::same_text("grün", "grün"));
    assert!(!text::same_text("grün", "grun"));
}

#[test]
fn paths_are_read_as_components() {
    let normal = |part: &str| Component::Normal(part.to_owned());
    assert_eq!(
        PathBuf::parse("/a//b/./c/").components(),
        vec![Component::RootDir, normal("a"), normal("b"), normal("c")]
    );
    assert_eq!(
        PathBuf::parse("./a/..").components(),
        vec![Component::CurDir, normal("a"), Component::ParentDir]
    );
    assert_eq!(PathBuf::parse("").components(), Vec::new());
    assert_eq!(PathBuf::parse("/a/b/"), PathBuf::parse("/a//b"));
    assert_ne!(PathBuf::parse("/a/b"), PathBuf::parse("a/b"));
    for text in ["/a//b/./c/", "./a/..", "", "/", "..", "a/.", ".//x", "/.", "//a"] {
        let expected: Vec<Component> = std::path::Path::new(text)
            .components()
            .map(|component| match component {
                std::path::Component::RootDir => Component::RootDir,
                std::path::Component::CurDir => Component::CurDir,
                std::path::Component::ParentDir => Component::ParentDir,
                other => Component::Normal(other.as_os_str().to_string_lossy().into_owned()),
            })
            .collect();
        assert_eq!(PathBuf::parse(text).components(), expected, "{}", text);
    }
}

#[test]
fn paths_are_joined() {
    for base in ["/a", "/a/", "/", "a", ""] {
        for rest in ["b", "../b", "/b", "", "./b/c"] {
            let expected = std::path::Path::new(base).join(rest);
            let joined = PathBuf::parse(base).join(rest);
            assert_eq!(joined.as_str(), expected.to_string_lossy(), "{} and {}", base, rest);
        }
    }
}

#[test]
fn paths_compare_by_components() {
    let texts = ["/", "/a", "/a/b", "/a-b", "/a/b/c", ".", "..", "a", "a/b", "/b", "/a//b"];
    for a in texts {
        for b in texts {
            let expected = match std::path::Path::new(a).cmp(std::path::Path::new(b)) {
                std::cmp::Ordering::Less => Order::Less,
                std::cmp::Ordering::Equal => Order::Equal,
                std::cmp::Ordering::Greater => Order::Greater,
            };
            assert!(PathBuf::parse(a).compare(&PathBuf::parse(b)) == expected, "{} and {}", a, b);
        }
    }
}
