use depg::parser::cargo::{CargoLock, LockPackage as CargoPackage};
use depg::parser::npm::{PackageEntry, PackageLock};
use depg::parser::poetry::{LockPackage as PoetryPackage, PoetryLock, ProjectMeta, PyProject, ToolGroup};
use depg::parser::{bfs, cargo, go, npm, poetry};
use depg::string_map::StringMap;

fn s(x: &str) -> String {
    x.to_string()
}

fn names(xs: &[&str]) -> Vec<String> {
    xs.iter().map(|x| x.to_string()).collect()
}

fn poetry_project() -> PyProject {
    // [tool.poetry] name = "depg-py", version = "0.1.0"
    // [tool.poetry.dependencies] python = "^3.9", requests = "^2.31.0"
    PyProject {
        tool: Some(ToolGroup {
            poetry: Some(ProjectMeta {
                name: Some(s("depg-py")),
                version: Some(s("0.1.0")),
                dependencies: Some(names(&["python", "requests"])),
            }),
        }),
    }
}

fn poetry_lock() -> PoetryLock {
    PoetryLock {
        package: Some(vec![
            PoetryPackage {
                name: s("requests"),
                version: s("2.31.0"),
                dependencies: Some(names(&["certifi", "urllib3"])),
            },
            PoetryPackage { name: s("certifi"), version: s("2023.7.22"), dependencies: None },
            PoetryPackage { name: s("urllib3"), version: s("2.0.4"), dependencies: None },
        ]),
    }
}

#[test]
fn mod_test_bfs_full() {
    let mut adj = StringMap::new();
    adj.insert("A 1".to_string(), vec!["B 1".to_string(), "C 1".to_string()]);
    adj.insert("B 1".to_string(), vec!["D 1".to_string()]);

    let graph = bfs("A 1", &adj, None, "TestParser");

    assert_eq!(graph.root, "A 1");
    assert_eq!(graph.nodes.len(), 4);
    assert_eq!(graph.edges.len(), 3);
}

#[test]
fn mod_test_bfs_depth_limited() {
    let mut adj = StringMap::new();
    adj.insert("root 1".to_string(), vec!["dep1 1".to_string()]);
    adj.insert("dep1 1".to_string(), vec!["transitive 1".to_string()]);

    let graph = bfs("root 1", &adj, Some(1), "TestParser");

    assert_eq!(graph.nodes.len(), 2);
    assert_eq!(graph.edges.len(), 1);
    let dep1_node = graph.nodes.iter().find(|n| n.id == "dep1 1").unwrap();
    assert_eq!(dep1_node.depth, 1);
}

#[test]
fn poetry_test_parse_poetry() {
    let graph = poetry::parse_content(&poetry_project(), &poetry_lock(), None).unwrap();
    assert_eq!(graph.root, "depg-py 0.1.0");
    assert_eq!(graph.nodes.len(), 4); // root + requests + certifi + urllib3
    assert_eq!(graph.edges.len(), 3); // root->requests, requests->certifi, requests->urllib3
}

#[test]
fn parser_tests_test_bfs_full() {
    let mut adj = StringMap::new();
    adj.insert("A 1".to_string(), vec!["B 1".to_string(), "C 1".to_string()]);
    adj.insert("B 1".to_string(), vec!["D 1".to_string()]);

    let graph = bfs("A 1", &adj, None, "TestParser");

    assert_eq!(graph.root, "A 1");
    assert_eq!(graph.nodes.len(), 4);
    assert_eq!(graph.edges.len(), 3);
}

#[test]
fn parser_tests_test_bfs_depth_limited() {
    let mut adj = StringMap::new();
    adj.insert("root 1".to_string(), vec!["dep1 1".to_string()]);
    adj.insert("dep1 1".to_string(), vec!["transitive 1".to_string()]);

    let graph = bfs("root 1", &adj, Some(1), "TestParser");

    assert_eq!(graph.nodes.len(), 2);
    assert_eq!(graph.edges.len(), 1);
    let dep1_node = graph.nodes.iter().find(|n| n.id == "dep1 1").unwrap();
    assert_eq!(dep1_node.depth, 1);
}

#[test]
fn test_parse_cargo_lock() {
    // version = 3
    // [[package]] name = "depg", version = "0.1.0", dependencies = ["anyhow"]
    // [[package]] name = "anyhow", version = "1.0.102", source = "registry+https://github.com/rust-lang/crates.io-index"
    let content = CargoLock {
        package: Some(vec![
            CargoPackage {
                name: s("depg"),
                version: s("0.1.0"),
                source: None,
                dependencies: Some(names(&["anyhow"])),
            },
            CargoPackage {
                name: s("anyhow"),
                version: s("1.0.102"),
                source: Some(s("registry+https://github.com/rust-lang/crates.io-index")),
                dependencies: None,
            },
        ]),
    };
    let graph = cargo::parse_content(&content, None).unwrap();
    assert_eq!(graph.root, "depg 0.1.0");
    assert_eq!(graph.nodes.len(), 2);
    assert_eq!(graph.edges.len(), 1);
    assert_eq!(graph.edges[0].source, "depg 0.1.0");
    assert_eq!(graph.edges[0].target, "anyhow 1.0.102");
}

#[test]
fn test_parse_cargo_empty() {
    // version = 3
    let content = CargoLock { package: None };
    let result = cargo::parse_content(&content, None);
    assert!(result.is_err());
    assert_eq!(result.unwrap_err().message(), "No packages found in Cargo.lock");
}

#[test]
fn test_parse_npm_v3() {
    let mut packages = StringMap::new();
    packages.insert(
        s(""),
        PackageEntry {
            name: Some(s("test-project")),
            version: Some(s("1.0.0")),
            dependencies: Some(names(&["express"])),
        },
    );
    packages.insert(
        s("node_modules/express"),
        PackageEntry {
            name: None,
            version: Some(s("4.18.2")),
            dependencies: Some(names(&["cookie"])),
        },
    );
    packages.insert(
        s("node_modules/cookie"),
        PackageEntry { name: None, version: Some(s("0.5.0")), dependencies: None },
    );
    let content = PackageLock {
        name: Some(s("test-project")),
        version: Some(s("1.0.0")),
        lockfile_version: Some(3),
        packages: Some(packages),
    };
    let graph = npm::parse_content(&content, None).unwrap();
    assert_eq!(graph.root, "test-project 1.0.0");
    assert_eq!(graph.nodes.len(), 3);
    assert_eq!(graph.edges.len(), 2);
}

#[test]
fn test_parse_npm_unsupported_v1() {
    // {"name": "test", "version": "1.0.0", "lockfileVersion": 1, "dependencies": {}}
    let content = PackageLock {
        name: Some(s("test")),
        version: Some(s("1.0.0")),
        lockfile_version: Some(1),
        packages: None,
    };
    let result = npm::parse_content(&content, None);
    assert!(result.is_err());
    assert!(result.unwrap_err().message().contains("is not supported"));
}

#[test]
fn parser_tests_test_parse_poetry() {
    let graph = poetry::parse_content(&poetry_project(), &poetry_lock(), None).unwrap();
    assert_eq!(graph.root, "depg-py 0.1.0");
    assert_eq!(graph.nodes.len(), 4);
    assert_eq!(graph.edges.len(), 3);
}

#[test]
fn test_parse_go_mod() {
    let content = "example.com/mymod example.com/dep@v1.0.0\nexample.com/dep@v1.0.0 example.com/transitive@v2.0.0";
    let graph = go::parse_content(content, "example.com/mymod", None).unwrap();

    assert_eq!(graph.root, "example.com/mymod 0.0.0");
    assert_eq!(graph.nodes.len(), 3);
    assert_eq!(graph.edges.len(), 2);
}
