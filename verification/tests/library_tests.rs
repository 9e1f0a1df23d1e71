use depg::error::{decimal_string, ParseError};
use depg::graph::DependencyGraph;
use depg::order::{insert_sorted, str_less};
use depg::parser::cargo::{self, build_name_index, resolve_dep, CargoLock, LockPackage as CargoPackage};
use depg::parser::go::{self, format_id};
use depg::parser::npm::{
    self, dir_role, extract_package_name, package_path, resolve_npm_dep, resolve_npm_dep_owned,
    root_dep_names, scoped_name, DirRole, InstalledPackage, PackageEntry, PackageJson, PackageLock,
};
use depg::parser::poetry::{self, LockPackage as PoetryPackage, PoetryLock, ProjectMeta, PyProject, ToolGroup};
use depg::parser::{bfs, parsers, select_parser, ParserKind, ProjectFiles, StackParser};
use depg::string_map::StringMap;
use depg::text::{split_once_char, split_pieces, split_words, trim_white};

fn s(x: &str) -> String {
    x.to_string()
}

fn names(xs: &[&str]) -> Vec<String> {
    xs.iter().map(|x| x.to_string()).collect()
}

fn ids(g: &DependencyGraph) -> Vec<String> {
    g.nodes.iter().map(|n| n.id.clone()).collect()
}

fn pairs(g: &DependencyGraph) -> Vec<(String, String)> {
    g.edges.iter().map(|e| (e.source.clone(), e.target.clone())).collect()
}

fn adjacency(entries: &[(&str, &[&str])]) -> StringMap<Vec<String>> {
    let mut adj = StringMap::new();
    for (k, v) in entries {
        adj.insert(s(k), names(v));
    }
    adj
}

fn no_files() -> ProjectFiles {
    ProjectFiles {
        cargo_lock: false,
        package_lock_json: false,
        bun_lock: false,
        bun_lockb: false,
        package_json: false,
        node_modules_dir: false,
        poetry_lock: false,
        pyproject_toml: false,
        go_mod: false,
    }
}

#[test]
fn bfs_orders_by_level_and_keeps_shortest_depth() {
    // A -> B, C; B -> D; C -> D, A (a cycle back to the root); D -> E
    let adj = adjacency(&[("A 1", &["B 1", "C 1"]), ("B 1", &["D 1"]), ("C 1", &["D 1", "A 1"]), ("D 1", &["E 1"])]);
    let g = bfs("A 1", &adj, None, "Test");
    assert_eq!(ids(&g), names(&["A 1", "B 1", "C 1", "D 1", "E 1"]));
    let depths: Vec<usize> = g.nodes.iter().map(|n| n.depth).collect();
    assert_eq!(depths, vec![0, 1, 1, 2, 3]);
    assert_eq!(
        pairs(&g),
        vec![
            (s("A 1"), s("B 1")),
            (s("A 1"), s("C 1")),
            (s("B 1"), s("D 1")),
            (s("C 1"), s("D 1")),
            (s("C 1"), s("A 1")),
            (s("D 1"), s("E 1")),
        ]
    );
    assert_eq!(g.ecosystem, "Test");
}

#[test]
fn bfs_marks_only_the_root_and_splits_names() {
    let adj = adjacency(&[("root 1.0", &["plain", "two words here"])]);
    let g = bfs("root 1.0", &adj, None, "Test");
    assert!(g.nodes[0].is_root);
    assert!(g.nodes.iter().skip(1).all(|n| !n.is_root));
    assert_eq!(g.nodes[0].label, "root");
    assert_eq!(g.nodes[0].version, "1.0");
    assert_eq!(g.nodes[1].label, "plain");
    assert_eq!(g.nodes[1].version, "");
    assert_eq!(g.nodes[2].label, "two");
    assert_eq!(g.nodes[2].version, "words here");
}

#[test]
fn bfs_depth_zero_is_root_alone() {
    let adj = adjacency(&[("r 1", &["a 1", "b 1"])]);
    let g = bfs("r 1", &adj, Some(0), "Test");
    assert_eq!(ids(&g), names(&["r 1"]));
    assert!(g.edges.is_empty());
}

#[test]
fn bfs_depth_one_is_direct_dependencies() {
    let adj = adjacency(&[("r 1", &["a 1", "b 1"]), ("a 1", &["c 1"])]);
    let g = bfs("r 1", &adj, Some(1), "Test");
    assert_eq!(ids(&g), names(&["r 1", "a 1", "b 1"]));
    assert_eq!(g.edges.len(), 2);
}

#[test]
fn bfs_raising_the_limit_keeps_nodes_and_depths() {
    let adj = adjacency(&[("r 1", &["a 1"]), ("a 1", &["b 1"]), ("b 1", &["c 1"])]);
    let small = bfs("r 1", &adj, Some(2), "Test");
    let full = bfs("r 1", &adj, None, "Test");
    for n in &small.nodes {
        let m = full.nodes.iter().find(|m| m.id == n.id).unwrap();
        assert_eq!(m.depth, n.depth);
    }
    assert_eq!(full.nodes.len(), 4);
}

#[test]
fn bfs_limited_traversal_is_a_prefix() {
    // r -> a, b; a -> c; b -> c, d; c -> e
    let adj = adjacency(&[("r 1", &["a 1", "b 1"]), ("a 1", &["c 1"]), ("b 1", &["c 1", "d 1"]), ("c 1", &["e 1"])]);
    let full = bfs("r 1", &adj, None, "Test");
    assert_eq!(ids(&full), names(&["r 1", "a 1", "b 1", "c 1", "d 1", "e 1"]));
    for m in 0..4usize {
        let lim = bfs("r 1", &adj, Some(m), "Test");
        let k = lim.nodes.len();
        assert_eq!(ids(&lim), ids(&full)[..k].to_vec());
        for (i, n) in full.nodes.iter().enumerate() {
            assert_eq!(i < k, n.depth <= m);
        }
        assert_eq!(pairs(&lim), pairs(&full)[..lim.edges.len()].to_vec());
    }
    let one = bfs("r 1", &adj, Some(1), "Test");
    assert_eq!(ids(&one), names(&["r 1", "a 1", "b 1"]));
    assert_eq!(pairs(&one), vec![(s("r 1"), s("a 1")), (s("r 1"), s("b 1"))]);
    let two = bfs("r 1", &adj, Some(2), "Test");
    assert_eq!(ids(&two), names(&["r 1", "a 1", "b 1", "c 1", "d 1"]));
    assert_eq!(pairs(&two), pairs(&full)[..5].to_vec());
    assert_eq!(pairs(&full).len(), 6);
}

#[test]
fn bfs_keeps_repeated_links() {
    let adj = adjacency(&[("r 1", &["a 1", "a 1"])]);
    let g = bfs("r 1", &adj, None, "Test");
    assert_eq!(g.nodes.len(), 2);
    assert_eq!(g.edges.len(), 2);
}

#[test]
fn bfs_of_unknown_root() {
    let adj = adjacency(&[("a 1", &["b 1"])]);
    let g = bfs("x 1", &adj, None, "Test");
    assert_eq!(ids(&g), names(&["x 1"]));
    assert!(g.edges.is_empty());
}

#[test]
fn string_map_replaces_values_in_place() {
    let mut m = StringMap::new();
    m.insert(s("a"), 1u32);
    m.insert(s("b"), 2u32);
    m.insert(s("a"), 3u32);
    assert_eq!(m.len(), 2);
    assert_eq!(m.key_at(0), "a");
    assert_eq!(*m.get(&s("a")).unwrap(), 3);
    assert!(m.get(&s("c")).is_none());
    let mut l: StringMap<Vec<u32>> = StringMap::new();
    l.push_to(s("k"), 1);
    l.push_to(s("k"), 2);
    l.ensure_key(s("k"));
    l.ensure_key(s("z"));
    assert_eq!(l.get(&s("k")).unwrap(), &vec![1, 2]);
    assert!(l.get(&s("z")).unwrap().is_empty());
}

fn cargo_pkg(name: &str, version: &str, source: Option<&str>, deps: Option<&[&str]>) -> CargoPackage {
    CargoPackage {
        name: s(name),
        version: s(version),
        source: source.map(s),
        dependencies: deps.map(names),
    }
}

#[test]
fn cargo_resolves_versions_and_drops_unknown_entries() {
    let pkgs = vec![
        cargo_pkg("app", "0.1.0", None, Some(&["dual 1.0.0", "dual", "dual 2.0.0 (registry+x)", "missing", "dual 9.9.9"])),
        cargo_pkg("dual", "2.0.0", Some("registry+x"), None),
        cargo_pkg("dual", "1.0.0", Some("registry+x"), None),
    ];
    let index = build_name_index(&pkgs);
    assert_eq!(resolve_dep(&s("dual 1.0.0"), &index), Some(s("dual 1.0.0")));
    assert_eq!(resolve_dep(&s("dual"), &index), Some(s("dual 2.0.0")));
    assert_eq!(resolve_dep(&s("dual 2.0.0 (registry+x)"), &index), Some(s("dual 2.0.0")));
    assert_eq!(resolve_dep(&s("missing"), &index), None);
    assert_eq!(resolve_dep(&s("dual 9.9.9"), &index), None);
    let g = cargo::parse_content(&CargoLock { package: Some(pkgs) }, None).unwrap();
    assert_eq!(g.root, "app 0.1.0");
    assert_eq!(g.ecosystem, "Rust (Cargo)");
    assert_eq!(ids(&g), names(&["app 0.1.0", "dual 1.0.0", "dual 2.0.0"]));
    assert_eq!(g.edges.len(), 3);
}

#[test]
fn cargo_without_root_package() {
    let lock = CargoLock { package: Some(vec![cargo_pkg("a", "1", Some("registry"), None)]) };
    let err = cargo::parse_content(&lock, None).unwrap_err();
    assert_eq!(err, ParseError::NoRootPackage);
    assert_eq!(err.message(), "No root package found in Cargo.lock");
    let empty = CargoLock { package: Some(vec![]) };
    assert_eq!(cargo::parse_content(&empty, None).unwrap_err(), ParseError::NoPackages);
    assert_eq!(cargo::pkg_id("serde", "1.0.0"), "serde 1.0.0");
}

#[test]
fn npm_package_names_and_paths() {
    assert_eq!(extract_package_name("node_modules/a/node_modules/@s/b"), "@s/b");
    assert_eq!(extract_package_name("node_modules/express"), "express");
    assert_eq!(extract_package_name("plain"), "plain");
    assert_eq!(package_path("", "x"), "node_modules/x");
    assert_eq!(package_path("node_modules/a", "x"), "node_modules/a/node_modules/x");
    assert_eq!(scoped_name("@types", "node"), "@types/node");
    assert_eq!(dir_role(".bin"), DirRole::Skip);
    assert_eq!(dir_role("@types"), DirRole::Scope);
    assert_eq!(dir_role("lodash"), DirRole::Package);
}

fn resolved(entries: &[(&str, &str)]) -> StringMap<String> {
    let mut m = StringMap::new();
    for (k, v) in entries {
        m.insert(s(k), s(v));
    }
    m
}

#[test]
fn npm_resolution_prefers_the_nearest_install() {
    let r = resolved(&[
        ("node_modules/x", "x 1"),
        ("node_modules/a/node_modules/x", "x 2"),
        ("node_modules/a/node_modules/b/node_modules/x", "x 3"),
    ]);
    let deep = "node_modules/a/node_modules/b/node_modules/c";
    assert_eq!(resolve_npm_dep("node_modules/a/node_modules/b", "x", &r), Some(s("x 3")));
    assert_eq!(resolve_npm_dep(deep, "x", &r), Some(s("x 3")));
    assert_eq!(resolve_npm_dep("node_modules/a/node_modules/q", "x", &r), Some(s("x 2")));
    assert_eq!(resolve_npm_dep("node_modules/z", "x", &r), Some(s("x 1")));
    assert_eq!(resolve_npm_dep("node_modules/z", "nothing", &r), None);
    assert_eq!(resolve_npm_dep_owned("", "x", &r), Some(s("x 1")));
    assert_eq!(resolve_npm_dep_owned("node_modules/a", "x", &r), Some(s("x 2")));
}

fn entry(version: Option<&str>, deps: &[&str]) -> PackageEntry {
    PackageEntry { name: None, version: version.map(s), dependencies: Some(names(deps)) }
}

#[test]
fn npm_lock_errors_and_defaults() {
    let no_version = PackageLock { name: None, version: None, lockfile_version: None, packages: None };
    let err = npm::parse_content(&no_version, None).unwrap_err();
    assert_eq!(err, ParseError::UnsupportedLockfileVersion(1));
    assert_eq!(
        err.message(),
        "package-lock.json v1 is not supported. Run `npm i --package-lock-only` to upgrade to v2+."
    );
    let no_packages = PackageLock { name: None, version: None, lockfile_version: Some(2), packages: None };
    assert_eq!(npm::parse_content(&no_packages, None).unwrap_err(), ParseError::NoPackagesField);
    let mut only_deps = StringMap::new();
    only_deps.insert(s("node_modules/a"), entry(Some("1.0.0"), &[]));
    let no_root = PackageLock { name: None, version: None, lockfile_version: Some(3), packages: Some(only_deps) };
    assert_eq!(npm::parse_content(&no_root, None).unwrap_err(), ParseError::NoRootEntry);

    let mut packages = StringMap::new();
    packages.insert(s(""), PackageEntry { name: Some(s("fromentry")), version: None, dependencies: Some(names(&["a"])) });
    packages.insert(s("node_modules/a"), entry(None, &["b"]));
    packages.insert(s("node_modules/a/node_modules/b"), entry(Some("2.0.0"), &[]));
    packages.insert(s("node_modules/b"), entry(Some("1.0.0"), &[]));
    let lock = PackageLock { name: None, version: None, lockfile_version: Some(2), packages: Some(packages) };
    let g = npm::parse_content(&lock, None).unwrap();
    assert_eq!(g.root, "fromentry 0.0.0");
    assert_eq!(g.ecosystem, "Node.js (npm)");
    assert_eq!(ids(&g), names(&["fromentry 0.0.0", "a 0.0.0", "b 2.0.0"]));
}

#[test]
fn npm_root_dep_names_sorted_once() {
    let pkg = PackageJson {
        name: None,
        version: None,
        dependencies: Some(names(&["zeta", "alpha"])),
        optional_dependencies: Some(names(&["beta", "alpha"])),
        peer_dependencies: Some(names(&["Zed", "zeta"])),
    };
    assert_eq!(root_dep_names(&pkg), names(&["Zed", "alpha", "beta", "zeta"]));
}

#[test]
fn npm_from_installed_tree() {
    let pkg = PackageJson {
        name: Some(s("site")),
        version: None,
        dependencies: Some(names(&["a"])),
        optional_dependencies: None,
        peer_dependencies: Some(names(&["b"])),
    };
    let empty: StringMap<InstalledPackage> = StringMap::new();
    let err = npm::parse_from_installed(&pkg, &empty, None).unwrap_err();
    assert_eq!(err, ParseError::NoInstalledPackages);
    assert_eq!(err.message(), "No installed packages found in node_modules");

    let mut installed = StringMap::new();
    installed.insert(s("node_modules/a"), InstalledPackage { version: s("1.0.0"), dependencies: names(&["b"]) });
    installed.insert(s("node_modules/b"), InstalledPackage { version: s("2.0.0"), dependencies: vec![] });
    let g = npm::parse_from_installed(&pkg, &installed, None).unwrap();
    assert_eq!(g.root, "site 0.0.0");
    assert_eq!(g.ecosystem, "Node.js (npm/bun)");
    assert_eq!(ids(&g), names(&["site 0.0.0", "a 1.0.0", "b 2.0.0"]));
    assert_eq!(g.edges.len(), 3);
}

#[test]
fn poetry_matches_names_ignoring_case_and_python() {
    let proj = PyProject {
        tool: Some(ToolGroup {
            poetry: Some(ProjectMeta { name: None, version: None, dependencies: Some(names(&["PYTHON", "Requests"])) }),
        }),
    };
    let lock = PoetryLock {
        package: Some(vec![
            PoetryPackage { name: s("requests"), version: s("2.0"), dependencies: Some(names(&["Python", "Idna"])) },
            PoetryPackage { name: s("IDNA"), version: s("3.4"), dependencies: None },
        ]),
    };
    let g = poetry::parse_content(&proj, &lock, None).unwrap();
    assert_eq!(g.root, "project 0.0.0");
    assert_eq!(g.ecosystem, "Python (Poetry)");
    assert_eq!(ids(&g), names(&["project 0.0.0", "requests 2.0", "IDNA 3.4"]));
    assert_eq!(g.edges.len(), 2);
    let bare = poetry::parse_content(&PyProject { tool: None }, &PoetryLock { package: None }, None).unwrap();
    assert_eq!(ids(&bare), names(&["project 0.0.0"]));
}

#[test]
fn poetry_resolves_lowercased_names() {
    let by_name = resolved(&[("requests", "requests 2.0"), ("idna", "IDNA 3.4")]);
    let r = poetry::resolve_lowered(&names(&["python", "requests", "missing", "idna", "requests"]), &by_name);
    assert_eq!(r, names(&["requests 2.0", "IDNA 3.4", "requests 2.0"]));
    // The names are taken as already lowercased: no case folding happens here.
    let r = poetry::resolve_lowered(&names(&["Requests", "PYTHON"]), &by_name);
    assert!(r.is_empty());
    let none = poetry::resolve_lowered(&names(&["requests"]), &StringMap::new());
    assert!(none.is_empty());
}

#[test]
fn poetry_indexes_packages_by_lowercased_name() {
    let pkgs = vec![
        PoetryPackage { name: s("Requests"), version: s("2.0"), dependencies: None },
        PoetryPackage { name: s("IDNA"), version: s("3.4"), dependencies: None },
        PoetryPackage { name: s("requests"), version: s("2.1"), dependencies: None },
    ];
    let m = poetry::index_lowered_names(&pkgs, &names(&["requests", "idna", "requests"]));
    assert_eq!(m.len(), 2);
    assert_eq!(m.get(&s("requests")), Some(&s("requests 2.1")));
    assert_eq!(m.get(&s("idna")), Some(&s("IDNA 3.4")));
    assert_eq!(m.get(&s("Requests")), None);
}

#[test]
fn go_ids_and_lines() {
    assert_eq!(format_id("example.com/m@v1.2.3"), "example.com/m v1.2.3");
    assert_eq!(format_id("example.com/m"), "example.com/m 0.0.0");
    let content = "root a@v1\r\na@v1 b@v2\n\nthree words here\nroot c@v1\n";
    let g = go::parse_content(content, "root", Some(1)).unwrap();
    assert_eq!(g.root, "root 0.0.0");
    assert_eq!(g.ecosystem, "Go (go mod)");
    assert_eq!(ids(&g), names(&["root 0.0.0", "a v1", "c v1"]));
    assert_eq!(g.edges.len(), 2);
    let lonely = go::parse_content("", "m@v3", None).unwrap();
    assert_eq!(ids(&lonely), names(&["m v3"]));
}

#[test]
fn text_helpers() {
    assert_eq!(split_once_char("a b c", ' '), Some((s("a"), s("b c"))));
    assert_eq!(split_once_char("abc", ' '), None);
    assert_eq!(split_pieces("a\nb\n", '\n'), names(&["a", "b", ""]));
    assert_eq!(split_words("  a\t b\u{3000}c  "), names(&["a", "b", "c"]));
    assert_eq!(trim_white(" \t example.com/mod \n"), "example.com/mod");
    assert_eq!(trim_white("   "), "");
    assert_eq!(go::root_module(Some("example.com/x\n")), "example.com/x");
    assert_eq!(go::root_module(None), "root");
    assert_eq!(decimal_string(0), "0");
    assert_eq!(decimal_string(4096), "4096");
    assert!(str_less(&s("Zed"), &s("alpha")));
    assert!(str_less(&s("ab"), &s("abc")));
    assert!(!str_less(&s("abc"), &s("abc")));
    let mut v = names(&["b", "d"]);
    insert_sorted(&mut v, s("c"));
    insert_sorted(&mut v, s("b"));
    assert_eq!(v, names(&["b", "c", "d"]));
}

#[test]
fn error_messages() {
    assert_eq!(ParseError::NoPackages.message(), "No packages found in Cargo.lock");
    assert_eq!(ParseError::NoPackagesField.message(), "No 'packages' field in package-lock.json");
    assert_eq!(ParseError::NoRootEntry.message(), "No root entry in package-lock.json");
    assert!(ParseError::UnsupportedLockfileVersion(0).message().starts_with("package-lock.json v0 "));
}

#[test]
fn detection_follows_parser_order() {
    assert_eq!(parsers(), vec![ParserKind::Cargo, ParserKind::Npm, ParserKind::Poetry, ParserKind::Go]);
    let mut files = no_files();
    assert_eq!(select_parser(&files), None);
    files.package_json = true;
    assert_eq!(select_parser(&files), None);
    files.node_modules_dir = true;
    assert_eq!(select_parser(&files), Some(ParserKind::Npm));
    files.cargo_lock = true;
    assert_eq!(select_parser(&files), Some(ParserKind::Cargo));
    let mut py = no_files();
    py.poetry_lock = true;
    assert_eq!(select_parser(&py), None);
    py.pyproject_toml = true;
    py.go_mod = true;
    assert_eq!(select_parser(&py), Some(ParserKind::Poetry));
    assert_eq!(ParserKind::Go.name(), "Go (go mod)");
    assert!(ParserKind::Go.detect(&py));
}
