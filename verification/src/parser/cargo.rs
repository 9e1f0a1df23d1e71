use vstd::prelude::*;

use crate::error::ParseError;
use crate::graph::{adjacency_model, bfs, is_bfs_of, DependencyGraph};
use crate::string_map::{opt_view, str_views, StringMap};
use crate::text::{after_first, before_first, join_space, lemma_no_split, lemma_split_parts, split_once_char};

verus! {

/// Rust projects, from their Cargo.lock.
pub struct CargoParser;

/// One `[[package]]` table of a Cargo.lock.
#[derive(Debug)]
pub struct LockPackage {
    pub name: String,
    pub version: String,
    pub source: Option<String>,
    pub dependencies: Option<Vec<String>>,
}

/// The parts of a Cargo.lock that the graph is built from.
#[derive(Debug)]
pub struct CargoLock {
    pub package: Option<Vec<LockPackage>>,
}

/// The name under which Rust projects are reported.
pub open spec fn cargo_ecosystem() -> Seq<char> {
    "Rust (Cargo)"@
}

/// `"{name} {version}"`.
pub open spec fn id_of(name: Seq<char>, version: Seq<char>) -> Seq<char> {
    name + seq![' '] + version
}

pub open spec fn pkg_key(p: LockPackage) -> Seq<char> {
    id_of(p.name@, p.version@)
}

pub open spec fn pair_views(s: Seq<(String, String)>) -> Seq<(Seq<char>, Seq<char>)> {
    s.map_values(|p: (String, String)| (p.0@, p.1@))
}

/// The (version, id) pairs of the packages called `name`, in file order.
pub open spec fn versions_named(pkgs: Seq<LockPackage>, name: Seq<char>) -> Seq<(Seq<char>, Seq<char>)>
    decreases pkgs.len(),
{
    if pkgs.len() == 0 {
        seq![]
    } else {
        let prev = versions_named(pkgs.drop_last(), name);
        if pkgs.last().name@ == name {
            prev.push((pkgs.last().version@, pkg_key(pkgs.last())))
        } else {
            prev
        }
    }
}

/// Package name to its (version, id) pairs, for the names that occur.
pub open spec fn name_index(pkgs: Seq<LockPackage>) -> Map<Seq<char>, Seq<(Seq<char>, Seq<char>)>> {
    Map::new(|n: Seq<char>| versions_named(pkgs, n).len() > 0, |n: Seq<char>| versions_named(pkgs, n))
}

pub open spec fn index_model(idx: &StringMap<Vec<(String, String)>>) -> Map<
    Seq<char>,
    Seq<(Seq<char>, Seq<char>)>,
> {
    idx.map().map_values(|v: Vec<(String, String)>| pair_views(v@))
}

/// The id of the first pair whose version is `v`.
pub open spec fn first_with_version(vs: Seq<(Seq<char>, Seq<char>)>, v: Seq<char>) -> Option<Seq<char>>
    decreases vs.len(),
{
    if vs.len() == 0 {
        None
    } else if vs[0].0 == v {
        Some(vs[0].1)
    } else {
        first_with_version(vs.drop_first(), v)
    }
}

/// What a dependency entry `"name"`, `"name version"` or `"name version (source)"` points to:
/// the package of that name and version, or, without a version, the first package of that name.
pub open spec fn resolve_with(
    idx: Map<Seq<char>, Seq<(Seq<char>, Seq<char>)>>,
    dep: Seq<char>,
) -> Option<Seq<char>> {
    let name = before_first(dep, ' ');
    if !idx.contains_key(name) {
        None
    } else if dep.contains(' ') {
        first_with_version(idx[name], before_first(after_first(dep, ' '), ' '))
    } else {
        Some(idx[name][0].1)
    }
}

/// The dependency entries of a package.
pub open spec fn deps_of(p: LockPackage) -> Seq<Seq<char>> {
    match p.dependencies {
        Some(d) => str_views(d@),
        None => seq![],
    }
}

/// The ids that the entries resolve to, dropping those that resolve to nothing.
pub open spec fn resolve_all(
    idx: Map<Seq<char>, Seq<(Seq<char>, Seq<char>)>>,
    deps: Seq<Seq<char>>,
) -> Seq<Seq<char>>
    decreases deps.len(),
{
    if deps.len() == 0 {
        seq![]
    } else {
        let prev = resolve_all(idx, deps.drop_last());
        match resolve_with(idx, deps.last()) {
            Some(t) => prev.push(t),
            None => prev,
        }
    }
}

/// Package id to the ids it depends on; a later package with the same id replaces an earlier one.
pub open spec fn cargo_adjacency(
    pkgs: Seq<LockPackage>,
    idx: Map<Seq<char>, Seq<(Seq<char>, Seq<char>)>>,
) -> Map<Seq<char>, Seq<Seq<char>>>
    decreases pkgs.len(),
{
    if pkgs.len() == 0 {
        Map::empty()
    } else {
        cargo_adjacency(pkgs.drop_last(), idx).insert(
            pkg_key(pkgs.last()),
            resolve_all(idx, deps_of(pkgs.last())),
        )
    }
}

/// The id of the first package without a `source`: the project itself.
pub open spec fn cargo_root(pkgs: Seq<LockPackage>) -> Option<Seq<char>>
    decreases pkgs.len(),
{
    if pkgs.len() == 0 {
        None
    } else if pkgs[0].source is None {
        Some(pkg_key(pkgs[0]))
    } else {
        cargo_root(pkgs.drop_first())
    }
}

pub open spec fn lock_packages(lock: &CargoLock) -> Seq<LockPackage> {
    match lock.package {
        Some(p) => p@,
        None => seq![],
    }
}

/// The identifier `"{name} {version}"` of a package.
pub fn pkg_id(name: &str, version: &str) -> (r: String)
    ensures
        r@ == id_of(name@, version@),
{
    join_space(name, version)
}

/// Package name to the (version, id) pairs of the packages of that name, in file order.
pub fn build_name_index(packages: &Vec<LockPackage>) -> (index: StringMap<Vec<(String, String)>>)
    ensures
        index_model(&index) == name_index(packages@),
{
    let mut index: StringMap<Vec<(String, String)>> = StringMap::new();
    let n = packages.len();
    for i in 0..n
        invariant
            n == packages@.len(),
            forall|k: Seq<char>| #[trigger]
                index.map().contains_key(k) <==> versions_named(packages@.take(i as int), k).len()
                    > 0,
            forall|k: Seq<char>|
                index.map().contains_key(k) ==> pair_views(index.map()[k]@) == versions_named(
                    packages@.take(i as int),
                    k,
                ),
    {
        let pkg = &packages[i];
        let id = pkg_id(pkg.name.as_str(), pkg.version.as_str());
        let ghost old_map = index.map();
        let ghost item = (pkg.version@, id@);
        let entry = (pkg.version.clone(), id);
        let ghost ev = entry;
        index.push_to(pkg.name.clone(), entry);
        proof {
            let pre = packages@.take(i as int);
            let post = packages@.take(i + 1);
            assert(post.drop_last() =~= pre);
            assert(post.last() == packages@[i as int]);
            assert forall|k: Seq<char>| #[trigger]
                index.map().contains_key(k) <==> versions_named(post, k).len() > 0 by {
                if k != pkg.name@ {
                    assert(index.map().remove(pkg.name@).contains_key(k) == old_map.remove(
                        pkg.name@,
                    ).contains_key(k));
                }
            }
            assert forall|k: Seq<char>|
                index.map().contains_key(k) implies pair_views(index.map()[k]@) == versions_named(
                post,
                k,
            ) by {
                if k != pkg.name@ {
                    assert(index.map().remove(pkg.name@).contains_key(k));
                    assert(old_map.remove(pkg.name@).contains_key(k));
                    assert(index.map().remove(pkg.name@)[k] == old_map.remove(pkg.name@)[k]);
                    assert(index.map()[k] == old_map[k]);
                    assert(versions_named(post, k) == versions_named(pre, k));
                } else {
                    let before_list: Seq<(String, String)> = if old_map.contains_key(k) {
                        old_map[k]@
                    } else {
                        Seq::empty()
                    };
                    assert(index.map()[k]@ == before_list.push(ev));
                    assert(versions_named(post, k) == versions_named(pre, k).push(item));
                    if !old_map.contains_key(k) {
                        assert(versions_named(pre, k) =~= Seq::<(Seq<char>, Seq<char>)>::empty());
                    }
                    assert(pair_views(before_list) == versions_named(pre, k));
                    assert(pair_views(index.map()[k]@) =~= pair_views(before_list).push(item));
                }
            }
        }
    }
    proof {
        assert(packages@.take(n as int) =~= packages@);
        assert(index_model(&index) =~= name_index(packages@));
    }
    index
}

fn first_version_match(versions: &Vec<(String, String)>, target: &String) -> (r: Option<String>)
    ensures
        opt_view(r) == first_with_version(pair_views(versions@), target@),
{
    let n = versions.len();
    let ghost vs = pair_views(versions@);
    assert(vs.skip(0) =~= vs);
    for i in 0..n
        invariant
            n == versions@.len(),
            vs == pair_views(versions@),
            first_with_version(vs, target@) == first_with_version(vs.skip(i as int), target@),
    {
        assert(vs.skip(i as int)[0] == vs[i as int]);
        assert(vs.skip(i as int).drop_first() =~= vs.skip(i + 1));
        if versions[i].0 == *target {
            return Some(versions[i].1.clone());
        }
    }
    assert(vs.skip(n as int).len() == 0);
    None
}

/// What the dependency entry `dep_str` points to, if anything.
pub fn resolve_dep(dep_str: &String, by_name: &StringMap<Vec<(String, String)>>) -> (r: Option<String>)
    requires
        forall|k: Seq<char>| #[trigger]
            by_name.map().contains_key(k) ==> by_name.map()[k]@.len() > 0,
    ensures
        opt_view(r) == resolve_with(index_model(by_name), dep_str@),
{
    let ghost idx = index_model(by_name);
    let (name, rest) = match split_once_char(dep_str.as_str(), ' ') {
        Some((a, b)) => {
            proof {
                lemma_split_parts(dep_str@, ' ', a@, b@);
            }
            (a, Some(b))
        },
        None => {
            proof {
                lemma_no_split(dep_str@, ' ');
            }
            (dep_str.clone(), None)
        },
    };
    match by_name.get(&name) {
        None => None,
        Some(versions) => {
            match rest {
                Some(rest) => {
                    let target = match split_once_char(rest.as_str(), ' ') {
                        Some((v, w)) => {
                            proof {
                                lemma_split_parts(rest@, ' ', v@, w@);
                            }
                            v
                        },
                        None => {
                            proof {
                                lemma_no_split(rest@, ' ');
                            }
                            rest
                        },
                    };
                    first_version_match(versions, &target)
                },
                None => {
                    assert(versions@.len() > 0);
                    assert(pair_views(versions@)[0].1 == versions@[0].1@);
                    Some(versions[0].1.clone())
                },
            }
        },
    }
}


/// Package id to the ids of its resolved dependencies.
pub fn build_adjacency(
    packages: &Vec<LockPackage>,
    by_name: &StringMap<Vec<(String, String)>>,
) -> (adj: StringMap<Vec<String>>)
    requires
        forall|k: Seq<char>| #[trigger]
            by_name.map().contains_key(k) ==> by_name.map()[k]@.len() > 0,
    ensures
        adjacency_model(&adj) == cargo_adjacency(packages@, index_model(by_name)),
{
    let ghost idx = index_model(by_name);
    let mut adj: StringMap<Vec<String>> = StringMap::new();
    let n = packages.len();
    proof {
        assert(adjacency_model(&adj) =~= cargo_adjacency(packages@.take(0), idx));
    }
    for i in 0..n
        invariant
            n == packages@.len(),
            idx == index_model(by_name),
            forall|k: Seq<char>| #[trigger]
                by_name.map().contains_key(k) ==> by_name.map()[k]@.len() > 0,
            adjacency_model(&adj) == cargo_adjacency(packages@.take(i as int), idx),
    {
        let pkg = &packages[i];
        let id = pkg_id(pkg.name.as_str(), pkg.version.as_str());
        let mut targets: Vec<String> = Vec::new();
        match &pkg.dependencies {
            Some(deps) => {
                let m = deps.len();
                for j in 0..m
                    invariant
                        m == deps@.len(),
                        idx == index_model(by_name),
                        forall|k: Seq<char>| #[trigger]
                            by_name.map().contains_key(k) ==> by_name.map()[k]@.len() > 0,
                        str_views(targets@) == resolve_all(idx, str_views(deps@).take(j as int)),
                {
                    let ghost pre = str_views(deps@).take(j as int);
                    let ghost post = str_views(deps@).take(j + 1);
                    assert(post.drop_last() =~= pre);
                    if let Some(t) = resolve_dep(&deps[j], by_name) {
                        let ghost old_t = targets@;
                        targets.push(t);
                        assert(str_views(targets@) =~= str_views(old_t).push(t@));
                    }
                }
                assert(str_views(deps@).take(m as int) =~= str_views(deps@));
            },
            None => {
                assert(str_views(targets@) =~= Seq::<Seq<char>>::empty());
            },
        }
        let ghost old_model = adjacency_model(&adj);
        let ghost tv = targets@;
        adj.insert(id, targets);
        proof {
            let post = packages@.take(i + 1);
            assert(post.drop_last() =~= packages@.take(i as int));
            assert(post.last() == packages@[i as int]);
            assert(adjacency_model(&adj) =~= old_model.insert(id@, str_views(tv)));
        }
    }
    proof {
        assert(packages@.take(n as int) =~= packages@);
    }
    adj
}

/// The dependency graph of a Cargo.lock, traversed from the first package without a
/// `source` (the project itself).
pub fn parse_content(lock: &CargoLock, max_depth: Option<usize>) -> (r: Result<
    DependencyGraph,
    ParseError,
>)
    ensures
        lock_packages(lock).len() == 0 ==> r matches Err(ParseError::NoPackages),
        lock_packages(lock).len() > 0 && cargo_root(lock_packages(lock)) is None ==> r matches Err(
            ParseError::NoRootPackage,
        ),
        lock_packages(lock).len() > 0 && cargo_root(lock_packages(lock)) is Some ==> (r matches Ok(
            g,
        ) && is_bfs_of(
            g,
            cargo_adjacency(lock_packages(lock), name_index(lock_packages(lock))),
            cargo_root(lock_packages(lock))->0,
            max_depth,
            cargo_ecosystem(),
        )),
{
    let empty: Vec<LockPackage> = Vec::new();
    let packages: &Vec<LockPackage> = match &lock.package {
        Some(p) => p,
        None => &empty,
    };
    assert(packages@ == lock_packages(lock));
    if packages.len() == 0 {
        return Err(ParseError::NoPackages);
    }
    let by_name = build_name_index(packages);
    proof {
        assert forall|k: Seq<char>| #[trigger]
            by_name.map().contains_key(k) implies by_name.map()[k]@.len() > 0 by {
            assert(index_model(&by_name).contains_key(k));
            assert(name_index(packages@).contains_key(k));
            assert(index_model(&by_name)[k] == pair_views(by_name.map()[k]@));
            assert(pair_views(by_name.map()[k]@) == versions_named(packages@, k));
        }
    }
    let adjacency = build_adjacency(packages, &by_name);
    let ghost pkgs = packages@;
    let n = packages.len();
    let mut i: usize = 0;
    assert(pkgs.skip(0) =~= pkgs);
    while i < n
        invariant
            n == pkgs.len(),
            n > 0,
            pkgs == packages@,
            pkgs == lock_packages(lock),
            adjacency_model(&adjacency) == cargo_adjacency(pkgs, name_index(pkgs)),
            i <= n,
            cargo_root(pkgs) == cargo_root(pkgs.skip(i as int)),
        decreases n - i,
    {
        assert(pkgs.skip(i as int)[0] == pkgs[i as int]);
        assert(pkgs.skip(i as int).drop_first() =~= pkgs.skip(i + 1));
        if packages[i].source.is_none() {
            let root_id = pkg_id(packages[i].name.as_str(), packages[i].version.as_str());
            let g = bfs(root_id.as_str(), &adjacency, max_depth, "Rust (Cargo)");
            return Ok(g);
        }
        i = i + 1;
    }
    assert(pkgs.skip(n as int).len() == 0);
    Err(ParseError::NoRootPackage)
}

} // verus!
