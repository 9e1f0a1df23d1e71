use vstd::prelude::*;

use crate::error::ParseError;
use crate::graph::{adjacency_model, bfs, is_bfs_of, DependencyGraph};
use crate::string_map::{opt_view, str_views, StringMap};
use crate::order::{insert_sorted, lemma_sorted_unique, sorted_distinct, sorted_strict};
use crate::text::{chars_of, concat3, join_space, lemma_rfind_range, rfind, rfind_in, string_from};

verus! {

/// Node.js projects, from package-lock.json or an installed node_modules tree.
pub struct NpmParser;

/// One entry of the `packages` object of a package-lock.json.
#[derive(Debug)]
pub struct PackageEntry {
    pub name: Option<String>,
    pub version: Option<String>,
    /// The names of the `dependencies` object.
    pub dependencies: Option<Vec<String>>,
}

/// The parts of a package-lock.json that the graph is built from.
#[derive(Debug)]
pub struct PackageLock {
    pub name: Option<String>,
    pub version: Option<String>,
    pub lockfile_version: Option<u32>,
    /// Install path (`""` for the project, `node_modules/...` for packages) to entry.
    pub packages: Option<StringMap<PackageEntry>>,
}

/// The parts of a package.json that the graph is built from.
#[derive(Debug)]
pub struct PackageJson {
    pub name: Option<String>,
    pub version: Option<String>,
    /// The names of the `dependencies` object.
    pub dependencies: Option<Vec<String>>,
    /// The names of the `optionalDependencies` object.
    pub optional_dependencies: Option<Vec<String>>,
    /// The names of the `peerDependencies` object.
    pub peer_dependencies: Option<Vec<String>>,
}

/// A package found under node_modules: its version and the names it depends on.
#[derive(Debug)]
pub struct InstalledPackage {
    pub version: String,
    pub dependencies: Vec<String>,
}

/// The name under which a package-lock.json project is reported.
pub open spec fn lock_ecosystem() -> Seq<char> {
    "Node.js (npm)"@
}

/// The name under which a project read from node_modules is reported.
pub open spec fn installed_ecosystem() -> Seq<char> {
    "Node.js (npm/bun)"@
}

/// The package name of an install path: what follows its last `node_modules/`.
pub open spec fn package_name_of(path: Seq<char>) -> Seq<char> {
    let i = rfind(path, "node_modules/"@);
    if i < 0 {
        path
    } else {
        path.skip(i + "node_modules/"@.len())
    }
}

/// The install path of `dep` directly under the project.
pub open spec fn top_path(dep: Seq<char>) -> Seq<char> {
    "node_modules/"@ + dep
}

/// The install path of `dep` nested under the package installed at `parent`.
pub open spec fn nested_path(parent: Seq<char>, dep: Seq<char>) -> Seq<char> {
    parent + "/node_modules/"@ + dep
}

/// The node_modules directories enclosing `search`, nearest first, as install paths of `dep`.
pub open spec fn ancestor_paths(search: Seq<char>, dep: Seq<char>) -> Seq<Seq<char>>
    decreases search.len(),
{
    let i = rfind(search, "/node_modules/"@);
    if i < 0 {
        seq![]
    } else {
        let up = search.take(i);
        let p = if up.len() == 0 {
            top_path(dep)
        } else {
            nested_path(up, dep)
        };
        if i < search.len() {
            seq![p] + ancestor_paths(up, dep)
        } else {
            seq![p]
        }
    }
}

/// Where Node looks for `dep` required from the package at `parent`: its own
/// node_modules, then each enclosing one, then the project's.
pub open spec fn lookup_paths(parent: Seq<char>, dep: Seq<char>) -> Seq<Seq<char>> {
    seq![nested_path(parent, dep)] + ancestor_paths(parent, dep) + seq![top_path(dep)]
}

/// The id stored under the first of `paths` that `resolved` holds.
pub open spec fn first_found(paths: Seq<Seq<char>>, resolved: Map<Seq<char>, Seq<char>>) -> Option<
    Seq<char>,
>
    decreases paths.len(),
{
    if paths.len() == 0 {
        None
    } else if resolved.contains_key(paths[0]) {
        Some(resolved[paths[0]])
    } else {
        first_found(paths.drop_first(), resolved)
    }
}

proof fn lemma_first_found_cons(a: Seq<char>, rest: Seq<Seq<char>>, m: Map<Seq<char>, Seq<char>>)
    ensures
        first_found(seq![a] + rest, m) == if m.contains_key(a) {
            Some(m[a])
        } else {
            first_found(rest, m)
        },
        first_found(Seq::<Seq<char>>::empty(), m) == None::<Seq<char>>,
{
    assert((seq![a] + rest).drop_first() =~= rest);
    assert((seq![a] + rest)[0] == a);
}

pub open spec fn resolved_model(m: &StringMap<String>) -> Map<Seq<char>, Seq<char>> {
    m.map().map_values(|s: String| s@)
}

/// The package id `"{name} {version}"` of an entry, with version `0.0.0` when it has none.
pub open spec fn entry_id(path: Seq<char>, e: PackageEntry) -> Seq<char> {
    package_name_of(path) + seq![' '] + match e.version {
        Some(v) => v@,
        None => "0.0.0"@,
    }
}

/// Install path to package id, for every entry but the project's own.
pub open spec fn resolved_index(packages: Map<Seq<char>, PackageEntry>) -> Map<Seq<char>, Seq<char>> {
    Map::new(
        |p: Seq<char>| packages.contains_key(p) && p.len() > 0,
        |p: Seq<char>| entry_id(p, packages[p]),
    )
}

/// The lockfile format version, 1 when it is not given.
pub open spec fn lockfile_version_of(lock: &PackageLock) -> u32 {
    match lock.lockfile_version {
        Some(v) => v,
        None => 1,
    }
}

/// The first of two optional strings that is present, else `default`.
pub open spec fn first_present(a: Option<String>, b: Option<String>, default: Seq<char>) -> Seq<char> {
    match a {
        Some(x) => x@,
        None => match b {
            Some(y) => y@,
            None => default,
        },
    }
}

/// The project's id: name and version from the top of the lockfile, else from its own entry.
pub open spec fn lock_root_id(lock: &PackageLock, root: PackageEntry) -> Seq<char> {
    first_present(lock.name, root.name, "root"@) + seq![' '] + first_present(
        lock.version,
        root.version,
        "0.0.0"@,
    )
}

pub open spec fn names_of_opt(d: Option<Vec<String>>) -> Seq<Seq<char>> {
    match d {
        Some(v) => str_views(v@),
        None => seq![],
    }
}

/// The package name after the last `node_modules/` of `path` (all of `path` without one).
pub fn extract_package_name(path: &str) -> (r: String)
    ensures
        r@ == package_name_of(path@),
{
    let cs = chars_of(path);
    let pat = chars_of("node_modules/");
    let n = cs.len();
    proof {
        assert(cs@.take(n as int) =~= cs@);
        lemma_rfind_range(cs@, pat@);
    }
    match rfind_in(&cs, n, &pat) {
        Some(i) => {
            let r = string_from(&cs, i + pat.len(), n);
            assert(r@ =~= path@.skip(i + "node_modules/"@.len()));
            r
        },
        None => path.to_owned(),
    }
}

/// The dependency names of an entry.
pub fn dep_names(entry: &PackageEntry) -> (r: Vec<String>)
    ensures
        str_views(r@) == names_of_opt(entry.dependencies),
{
    match &entry.dependencies {
        Some(d) => {
            let mut r: Vec<String> = Vec::new();
            let n = d.len();
            for i in 0..n
                invariant
                    n == d@.len(),
                    str_views(r@) == str_views(d@).take(i as int),
            {
                let ghost old_r = r@;
                r.push(d[i].clone());
                assert(str_views(r@) =~= str_views(old_r).push(d@[i as int]@));
                assert(str_views(d@).take(i + 1) =~= str_views(d@).take(i as int).push(d@[i as int]@));
            }
            assert(str_views(d@).take(n as int) =~= str_views(d@));
            r
        },
        None => {
            let r: Vec<String> = Vec::new();
            assert(str_views(r@) =~= Seq::<Seq<char>>::empty());
            r
        },
    }
}

/// Install path to package id for every package of the lockfile.
pub fn build_resolved_index(packages: &StringMap<PackageEntry>) -> (r: StringMap<String>)
    ensures
        resolved_model(&r) == resolved_index(packages.map()),
{
    let mut r: StringMap<String> = StringMap::new();
    let n = packages.len();
    let ghost keys = packages.key_seq();
    proof {
        use_type_invariant(packages);
        packages.lemma_map();
    }
    for i in 0..n
        invariant
            n == keys.len(),
            keys == packages.key_seq(),
            keys.no_duplicates(),
            packages.value_seq().len() == keys.len(),
            forall|j: int| 0 <= j < keys.len() ==> packages.map()[#[trigger] keys[j]] == packages.value_seq()[j],
            forall|k: Seq<char>| #[trigger] packages.map().contains_key(k) <==> keys.contains(k),
            forall|k: Seq<char>| #[trigger]
                resolved_model(&r).contains_key(k) <==> (keys.take(i as int).contains(k) && k.len() > 0),
            forall|k: Seq<char>|
                resolved_model(&r).contains_key(k) ==> #[trigger] resolved_model(&r)[k] == entry_id(
                    k,
                    packages.map()[k],
                ),
    {
        let path = packages.key_at(i);
        let entry = packages.value_at(i);
        let ghost old_model = resolved_model(&r);
        if !path.as_str().is_empty() {
            let name = extract_package_name(path.as_str());
            let id = match &entry.version {
                Some(v) => join_space(name.as_str(), v.as_str()),
                None => join_space(name.as_str(), "0.0.0"),
            };
            let ghost idv = id@;
            r.insert(path.clone(), id);
            proof {
                assert(resolved_model(&r) =~= old_model.insert(path@, idv));
                assert forall|k: Seq<char>| #[trigger]
                    resolved_model(&r).contains_key(k) <==> (keys.take(i + 1).contains(k) && k.len()
                        > 0) by {
                    if keys.take(i + 1).contains(k) && k != path@ {
                        let t1 = keys.take(i + 1);
                        let j = choose|j: int| 0 <= j < t1.len() && t1[j] == k;
                        assert(keys.take(i as int)[j] == k);
                    }
                    if keys.take(i as int).contains(k) {
                        let t0 = keys.take(i as int);
                        let j = choose|j: int| 0 <= j < t0.len() && t0[j] == k;
                        assert(keys.take(i + 1)[j] == k);
                    }
                    if k == path@ {
                        assert(keys.take(i + 1)[i as int] == k);
                    }
                }
            }
        } else {
            proof {
                assert forall|k: Seq<char>| #[trigger]
                    resolved_model(&r).contains_key(k) <==> (keys.take(i + 1).contains(k) && k.len()
                        > 0) by {
                    if keys.take(i + 1).contains(k) && k.len() > 0 {
                        let t1 = keys.take(i + 1);
                        let j = choose|j: int| 0 <= j < t1.len() && t1[j] == k;
                        assert(t1[i as int] == path@);
                        assert(j != i);
                        assert(keys.take(i as int)[j] == k);
                    }
                    if keys.take(i as int).contains(k) {
                        let t0 = keys.take(i as int);
                        let j = choose|j: int| 0 <= j < t0.len() && t0[j] == k;
                        assert(keys.take(i + 1)[j] == k);
                    }
                }
            }
        }
    }
    proof {
        assert(keys.take(n as int) =~= keys);
        assert(resolved_model(&r) =~= resolved_index(packages.map()));
    }
    r
}


/// What `dep` resolves to from the project itself: only the top-level install counts.
pub open spec fn resolve_from_project(dep: Seq<char>, resolved: Map<Seq<char>, Seq<char>>) -> Option<
    Seq<char>,
> {
    first_found(seq![top_path(dep)], resolved)
}

/// What `dep` resolves to from the package at `parent` in an installed tree; the project
/// itself (`parent` empty) only sees top-level installs.
pub open spec fn resolve_installed(
    parent: Seq<char>,
    dep: Seq<char>,
    resolved: Map<Seq<char>, Seq<char>>,
) -> Option<Seq<char>> {
    if parent.len() == 0 {
        resolve_from_project(dep, resolved)
    } else {
        first_found(lookup_paths(parent, dep), resolved)
    }
}

fn lookup(resolved: &StringMap<String>, path: &String) -> (r: Option<String>)
    ensures
        r is Some <==> resolved_model(resolved).contains_key(path@),
        r matches Some(id) ==> id@ == resolved_model(resolved)[path@],
{
    match resolved.get(path) {
        Some(id) => Some(id.clone()),
        None => None,
    }
}

fn top_path_string(dep: &str) -> (r: String)
    ensures
        r@ == top_path(dep@),
{
    let mut r = "node_modules/".to_owned();
    r.append(dep);
    r
}

/// Resolves `dep_name` required by the package installed at `parent_path` the way Node
/// does: its own node_modules, then each enclosing node_modules, then the project's.
pub fn resolve_npm_dep(parent_path: &str, dep_name: &str, resolved: &StringMap<String>) -> (r: Option<
    String,
>)
    ensures
        opt_view(r) == first_found(lookup_paths(parent_path@, dep_name@), resolved_model(resolved)),
{
    let ghost rm = resolved_model(resolved);
    let ghost dep = dep_name@;
    let ghost tail = seq![top_path(dep)];
    let ghost all = lookup_paths(parent_path@, dep);
    let nested = concat3(parent_path, "/node_modules/", dep_name);
    proof {
        assert(all =~= seq![nested@] + (ancestor_paths(parent_path@, dep) + tail));
        lemma_first_found_cons(nested@, ancestor_paths(parent_path@, dep) + tail, rm);
    }
    if let Some(id) = lookup(resolved, &nested) {
        return Some(id);
    }
    let pcs = chars_of(parent_path);
    let pat = chars_of("/node_modules/");
    let mut end = pcs.len();
    assert(pcs@.take(end as int) =~= parent_path@);
    loop
        invariant
            end <= pcs@.len(),
            pat@ == "/node_modules/"@,
            rm == resolved_model(resolved),
            tail == seq![top_path(dep)],
            dep == dep_name@,
            all == lookup_paths(parent_path@, dep_name@),
            first_found(all, rm) == first_found(ancestor_paths(pcs@.take(end as int), dep) + tail, rm),
        ensures
            first_found(all, rm) == first_found(tail, rm),
        decreases end,
    {
        let ghost search = pcs@.take(end as int);
        proof {
            lemma_rfind_range(search, pat@);
        }
        match rfind_in(&pcs, end, &pat) {
            None => {
                assert(ancestor_paths(search, dep) =~= Seq::<Seq<char>>::empty());
                assert(ancestor_paths(search, dep) + tail =~= tail);
                break;
            },
            Some(idx) => {
                let ghost up_seq = search.take(idx as int);
                assert(up_seq =~= pcs@.take(idx as int));
                assert(up_seq =~= pcs@.subrange(0, idx as int));
                assert(idx < search.len());
                let ghost p = if up_seq.len() == 0 {
                    top_path(dep)
                } else {
                    nested_path(up_seq, dep)
                };
                assert(ancestor_paths(search, dep) == seq![p] + ancestor_paths(up_seq, dep));
                let try_path = if idx == 0 {
                    top_path_string(dep_name)
                } else {
                    let up = string_from(&pcs, 0, idx);
                    concat3(up.as_str(), "/node_modules/", dep_name)
                };
                assert(try_path@ == p);
                proof {
                    assert(ancestor_paths(search, dep) + tail =~= seq![p] + (ancestor_paths(up_seq, dep) + tail));
                    lemma_first_found_cons(p, ancestor_paths(up_seq, dep) + tail, rm);
                }
                if let Some(id) = lookup(resolved, &try_path) {
                    return Some(id);
                }
                end = idx;
            },
        }
    }
    let top = top_path_string(dep_name);
    proof {
        lemma_first_found_cons(top@, Seq::<Seq<char>>::empty(), rm);
        assert(tail =~= seq![top@] + Seq::<Seq<char>>::empty());
    }
    lookup(resolved, &top)
}

/// Resolves `dep_name` required by the package installed at `parent_path` (the project
/// itself when it is empty) in a tree read from node_modules.
pub fn resolve_npm_dep_owned(parent_path: &str, dep_name: &str, resolved: &StringMap<String>) -> (r: Option<
    String,
>)
    ensures
        opt_view(r) == resolve_installed(parent_path@, dep_name@, resolved_model(resolved)),
{
    if parent_path.is_empty() {
        let top = top_path_string(dep_name);
        proof {
            lemma_first_found_cons(top@, Seq::<Seq<char>>::empty(), resolved_model(resolved));
            assert(seq![top@] =~= seq![top@] + Seq::<Seq<char>>::empty());
        }
        return lookup(resolved, &top);
    }
    resolve_npm_dep(parent_path, dep_name, resolved)
}


/// The ids that each of `deps`, required from `parent`, resolves to, dropping the unresolved.
pub open spec fn resolve_all_deps(
    parent: Seq<char>,
    deps: Seq<Seq<char>>,
    resolved: Map<Seq<char>, Seq<char>>,
) -> Seq<Seq<char>>
    decreases deps.len(),
{
    if deps.len() == 0 {
        seq![]
    } else {
        let prev = resolve_all_deps(parent, deps.drop_last(), resolved);
        match resolve_installed(parent, deps.last(), resolved) {
            Some(t) => prev.push(t),
            None => prev,
        }
    }
}

/// The adjacency of a lockfile: the project's top-level dependencies, then, in the order of
/// `keys`, each package's resolved dependencies (a later package with the same id replaces
/// an earlier one).
pub open spec fn lock_adjacency(
    root_id: Seq<char>,
    root_deps: Seq<Seq<char>>,
    keys: Seq<Seq<char>>,
    entries: Map<Seq<char>, PackageEntry>,
    resolved: Map<Seq<char>, Seq<char>>,
    n: nat,
) -> Map<Seq<char>, Seq<Seq<char>>>
    decreases n,
{
    if n == 0 {
        Map::empty().insert(root_id, resolve_all_deps(Seq::empty(), root_deps, resolved))
    } else {
        let prev = lock_adjacency(root_id, root_deps, keys, entries, resolved, (n - 1) as nat);
        let k = keys[n - 1];
        if k.len() == 0 {
            prev
        } else {
            prev.insert(
                resolved[k],
                resolve_all_deps(k, names_of_opt(entries[k].dependencies), resolved),
            )
        }
    }
}

/// The ids that `names`, required from `parent`, resolve to.
fn resolve_targets(parent: &str, names: &Vec<String>, resolved: &StringMap<String>) -> (r: Vec<
    String,
>)
    ensures
        str_views(r@) == resolve_all_deps(parent@, str_views(names@), resolved_model(resolved)),
{
    let mut r: Vec<String> = Vec::new();
    let n = names.len();
    let ghost ds = str_views(names@);
    for i in 0..n
        invariant
            n == names@.len(),
            ds == str_views(names@),
            str_views(r@) == resolve_all_deps(parent@, ds.take(i as int), resolved_model(resolved)),
    {
        assert(ds.take(i + 1).drop_last() =~= ds.take(i as int));
        assert(ds.take(i + 1).last() == names@[i as int]@);
        if let Some(t) = resolve_npm_dep_owned(parent, names[i].as_str(), resolved) {
            let ghost old_r = r@;
            r.push(t);
            assert(str_views(r@) =~= str_views(old_r).push(t@));
        }
    }
    assert(ds.take(n as int) =~= ds);
    r
}

proof fn lemma_model_insert(
    old_adj: &StringMap<Vec<String>>,
    new_adj: &StringMap<Vec<String>>,
    key: Seq<char>,
    value: Vec<String>,
)
    requires
        new_adj.map() == old_adj.map().insert(key, value),
    ensures
        adjacency_model(new_adj) == adjacency_model(old_adj).insert(key, str_views(value@)),
{
    assert(adjacency_model(new_adj) =~= adjacency_model(old_adj).insert(key, str_views(value@)));
}

/// The adjacency of a package-lock.json: the project's entry, then every package's entry.
pub fn build_adjacency(
    root_id: &str,
    root_entry: &PackageEntry,
    packages: &StringMap<PackageEntry>,
    resolved: &StringMap<String>,
) -> (adj: StringMap<Vec<String>>)
    requires
        forall|k: Seq<char>|
            #[trigger] packages.map().contains_key(k) && k.len() > 0 ==> resolved_model(
                resolved,
            ).contains_key(k),
    ensures
        adjacency_model(&adj) == lock_adjacency(
            root_id@,
            names_of_opt(root_entry.dependencies),
            packages.key_seq(),
            packages.map(),
            resolved_model(resolved),
            packages.key_seq().len(),
        ),
{
    let ghost rm = resolved_model(resolved);
    let ghost keys = packages.key_seq();
    let root_names = dep_names(root_entry);
    let root_targets = resolve_targets("", &root_names, resolved);
    let mut adj: StringMap<Vec<String>> = StringMap::new();
    let ghost adj0 = adj;
    let ghost tv = root_targets;
    adj.insert(root_id.to_owned(), root_targets);
    proof {
        lemma_model_insert(&adj0, &adj, root_id@, tv);
        assert(adjacency_model(&adj0) =~= Map::<Seq<char>, Seq<Seq<char>>>::empty());
        assert(adjacency_model(&adj) =~= Map::empty().insert(root_id@, str_views(tv@)));
        reveal_strlit("");
        assert(Seq::<char>::empty() =~= ""@);
        use_type_invariant(packages);
        packages.lemma_map();
    }
    let n = packages.len();
    for i in 0..n
        invariant
            n == keys.len(),
            keys == packages.key_seq(),
            rm == resolved_model(resolved),
            packages.value_seq().len() == keys.len(),
            forall|j: int| 0 <= j < keys.len() ==> packages.map()[#[trigger] keys[j]] == packages.value_seq()[j],
            forall|k: Seq<char>| #[trigger] packages.map().contains_key(k) <==> keys.contains(k),
            forall|k: Seq<char>|
                #[trigger] packages.map().contains_key(k) && k.len() > 0 ==> rm.contains_key(k),
            adjacency_model(&adj) == lock_adjacency(
                root_id@,
                names_of_opt(root_entry.dependencies),
                keys,
                packages.map(),
                rm,
                i as nat,
            ),
    {
        let path = packages.key_at(i);
        let entry = packages.value_at(i);
        assert(keys.contains(keys[i as int]));
        if !path.as_str().is_empty() {
            assert(packages.map().contains_key(path@));
            assert(rm.contains_key(path@));
            let id = resolved.get(path).unwrap().clone();
            let names = dep_names(entry);
            let targets = resolve_targets(path.as_str(), &names, resolved);
            let ghost old_adj = adj;
            let ghost tv = targets;
            adj.insert(id, targets);
            proof {
                lemma_model_insert(&old_adj, &adj, rm[path@], tv);
            }
        }
    }
    adj
}

/// What reading a package-lock.json gives: an error for versions before 2, for a missing
/// `packages` object and for a missing project entry; otherwise the traversal of its
/// adjacency from the project's id.
pub open spec fn lock_outcome(
    lock: &PackageLock,
    max_depth: Option<usize>,
    r: Result<DependencyGraph, ParseError>,
) -> bool {
    if lockfile_version_of(lock) < 2 {
        r == Err::<DependencyGraph, ParseError>(
            ParseError::UnsupportedLockfileVersion(lockfile_version_of(lock)),
        )
    } else {
        match lock.packages {
            None => r == Err::<DependencyGraph, ParseError>(ParseError::NoPackagesField),
            Some(p) => if !p.map().contains_key(Seq::empty()) {
                r == Err::<DependencyGraph, ParseError>(ParseError::NoRootEntry)
            } else {
                let root = p.map()[Seq::empty()];
                match r {
                    Ok(g) => is_bfs_of(
                        g,
                        lock_adjacency(
                            lock_root_id(lock, root),
                            names_of_opt(root.dependencies),
                            p.key_seq(),
                            p.map(),
                            resolved_index(p.map()),
                            p.key_seq().len(),
                        ),
                        lock_root_id(lock, root),
                        max_depth,
                        lock_ecosystem(),
                    ),
                    Err(_) => false,
                }
            },
        }
    }
}

/// The dependency graph of a package-lock.json (version 2 or later), traversed from the
/// project's own entry.
pub fn parse_content(lock: &PackageLock, max_depth: Option<usize>) -> (r: Result<
    DependencyGraph,
    ParseError,
>)
    ensures
        lock_outcome(lock, max_depth, r),
{
    let version = match lock.lockfile_version {
        Some(v) => v,
        None => 1,
    };
    if version < 2 {
        return Err(ParseError::UnsupportedLockfileVersion(version));
    }
    let packages = match &lock.packages {
        Some(p) => p,
        None => {
            return Err(ParseError::NoPackagesField);
        },
    };
    let empty_key = String::new();
    let root_entry = match packages.get(&empty_key) {
        Some(e) => e,
        None => {
            return Err(ParseError::NoRootEntry);
        },
    };
    let root_name = match &lock.name {
        Some(n) => n.clone(),
        None => match &root_entry.name {
            Some(n) => n.clone(),
            None => "root".to_owned(),
        },
    };
    let root_version = match &lock.version {
        Some(v) => v.clone(),
        None => match &root_entry.version {
            Some(v) => v.clone(),
            None => "0.0.0".to_owned(),
        },
    };
    let root_id = join_space(root_name.as_str(), root_version.as_str());
    let resolved = build_resolved_index(packages);
    let adjacency = build_adjacency(root_id.as_str(), root_entry, packages, &resolved);
    Ok(bfs(root_id.as_str(), &adjacency, max_depth, "Node.js (npm)"))
}


/// The names of the three dependency objects of a package.json, in that order.
pub open spec fn all_dep_names(pkg: &PackageJson) -> Seq<Seq<char>> {
    names_of_opt(pkg.dependencies) + names_of_opt(pkg.optional_dependencies) + names_of_opt(
        pkg.peer_dependencies,
    )
}

fn insert_all(v: &mut Vec<String>, names: &Option<Vec<String>>)
    requires
        sorted_strict(str_views(old(v)@)),
    ensures
        sorted_strict(str_views(final(v)@)),
        str_views(final(v)@).to_set() == str_views(old(v)@).to_set() + names_of_opt(*names).to_set(),
{
    match names {
        Some(list) => {
            let n = list.len();
            let ghost ls = str_views(list@);
            for i in 0..n
                invariant
                    n == list@.len(),
                    ls == str_views(list@),
                    sorted_strict(str_views(v@)),
                    str_views(v@).to_set() == str_views(old(v)@).to_set() + ls.take(i as int).to_set(),
            {
                insert_sorted(v, list[i].clone());
                assert(ls.take(i + 1).to_set() =~= ls.take(i as int).to_set().insert(ls[i as int])) by {
                    assert(ls.take(i + 1) =~= ls.take(i as int).push(ls[i as int]));
                    ls.take(i as int).lemma_push_to_set_commute(ls[i as int]);
                }
                assert(str_views(v@).to_set() =~= str_views(old(v)@).to_set() + ls.take(i + 1).to_set());
            }
            assert(ls.take(n as int) =~= ls);
        },
        None => {
            assert(names_of_opt(*names).to_set() =~= Set::<Seq<char>>::empty());
            assert(str_views(v@).to_set() =~= str_views(old(v)@).to_set() + Set::<Seq<char>>::empty());
        },
    }
}

/// Every dependency name of a package.json (regular, optional, peer), once each, ascending.
pub fn root_dep_names(pkg: &PackageJson) -> (r: Vec<String>)
    ensures
        sorted_strict(str_views(r@)),
        str_views(r@).to_set() == all_dep_names(pkg).to_set(),
        str_views(r@) == sorted_distinct(all_dep_names(pkg)),
{
    let mut r: Vec<String> = Vec::new();
    assert(str_views(r@) =~= Seq::<Seq<char>>::empty());
    insert_all(&mut r, &pkg.dependencies);
    insert_all(&mut r, &pkg.optional_dependencies);
    insert_all(&mut r, &pkg.peer_dependencies);
    proof {
        let a = names_of_opt(pkg.dependencies);
        let b = names_of_opt(pkg.optional_dependencies);
        let c = names_of_opt(pkg.peer_dependencies);
        vstd::seq_lib::seq_to_set_distributes_over_add(a, b);
        vstd::seq_lib::seq_to_set_distributes_over_add(a + b, c);
        assert(str_views(r@).to_set() =~= all_dep_names(pkg).to_set());
        let s = sorted_distinct(all_dep_names(pkg));
        lemma_sorted_unique(s, str_views(r@));
    }
    r
}

/// The project's id from its package.json, `root` and `0.0.0` standing in for what is missing.
pub open spec fn package_json_id(pkg: &PackageJson) -> Seq<char> {
    first_present(pkg.name, None, "root"@) + seq![' '] + first_present(pkg.version, None, "0.0.0"@)
}

/// Install path to package id for every installed package.
pub open spec fn installed_index(m: Map<Seq<char>, InstalledPackage>) -> Map<Seq<char>, Seq<char>> {
    Map::new(
        |p: Seq<char>| m.contains_key(p),
        |p: Seq<char>| package_name_of(p) + seq![' '] + m[p].version@,
    )
}

/// The adjacency of an installed tree: the project's dependencies, then, in the order of
/// `keys`, each installed package's resolved dependencies.
pub open spec fn installed_adjacency(
    root_id: Seq<char>,
    root_names: Seq<Seq<char>>,
    keys: Seq<Seq<char>>,
    m: Map<Seq<char>, InstalledPackage>,
    resolved: Map<Seq<char>, Seq<char>>,
    n: nat,
) -> Map<Seq<char>, Seq<Seq<char>>>
    decreases n,
{
    if n == 0 {
        Map::empty().insert(root_id, resolve_all_deps(Seq::empty(), root_names, resolved))
    } else {
        let prev = installed_adjacency(root_id, root_names, keys, m, resolved, (n - 1) as nat);
        let k = keys[n - 1];
        if resolved.contains_key(k) {
            prev.insert(resolved[k], resolve_all_deps(k, str_views(m[k].dependencies@), resolved))
        } else {
            prev
        }
    }
}

fn build_installed_index(installed: &StringMap<InstalledPackage>) -> (r: StringMap<String>)
    ensures
        resolved_model(&r) == installed_index(installed.map()),
{
    let mut r: StringMap<String> = StringMap::new();
    let n = installed.len();
    let ghost keys = installed.key_seq();
    proof {
        use_type_invariant(installed);
        installed.lemma_map();
    }
    for i in 0..n
        invariant
            n == keys.len(),
            keys == installed.key_seq(),
            installed.value_seq().len() == keys.len(),
            forall|j: int| 0 <= j < keys.len() ==> installed.map()[#[trigger] keys[j]] == installed.value_seq()[j],
            forall|k: Seq<char>| #[trigger] installed.map().contains_key(k) <==> keys.contains(k),
            forall|k: Seq<char>| #[trigger]
                resolved_model(&r).contains_key(k) <==> keys.take(i as int).contains(k),
            forall|k: Seq<char>|
                resolved_model(&r).contains_key(k) ==> #[trigger] resolved_model(&r)[k] == package_name_of(k)
                    + seq![' '] + installed.map()[k].version@,
    {
        let path = installed.key_at(i);
        let pkg = installed.value_at(i);
        let ghost old_model = resolved_model(&r);
        let name = extract_package_name(path.as_str());
        let id = join_space(name.as_str(), pkg.version.as_str());
        let ghost idv = id@;
        r.insert(path.clone(), id);
        proof {
            assert(resolved_model(&r) =~= old_model.insert(path@, idv));
            assert forall|k: Seq<char>| #[trigger]
                resolved_model(&r).contains_key(k) <==> keys.take(i + 1).contains(k) by {
                let t1 = keys.take(i + 1);
                let t0 = keys.take(i as int);
                if t1.contains(k) && k != path@ {
                    let j = choose|j: int| 0 <= j < t1.len() && t1[j] == k;
                    assert(t0[j] == k);
                }
                if t0.contains(k) {
                    let j = choose|j: int| 0 <= j < t0.len() && t0[j] == k;
                    assert(t1[j] == k);
                }
                if k == path@ {
                    assert(t1[i as int] == k);
                }
            }
        }
    }
    proof {
        assert(keys.take(n as int) =~= keys);
        assert(resolved_model(&r) =~= installed_index(installed.map()));
    }
    r
}

/// The dependency graph of a project read from its package.json and installed node_modules
/// tree (`installed` maps install paths to packages).
pub fn parse_from_installed(
    root_pkg: &PackageJson,
    installed: &StringMap<InstalledPackage>,
    max_depth: Option<usize>,
) -> (r: Result<DependencyGraph, ParseError>)
    ensures
        installed.key_seq().len() == 0 ==> r == Err::<DependencyGraph, ParseError>(
            ParseError::NoInstalledPackages,
        ),
        installed.key_seq().len() > 0 ==> (r matches Ok(g) && is_bfs_of(
            g,
            installed_adjacency(
                package_json_id(root_pkg),
                sorted_distinct(all_dep_names(root_pkg)),
                installed.key_seq(),
                installed.map(),
                installed_index(installed.map()),
                installed.key_seq().len(),
            ),
            package_json_id(root_pkg),
            max_depth,
            installed_ecosystem(),
        )),
{
    let root_name = match &root_pkg.name {
        Some(n) => n.clone(),
        None => "root".to_owned(),
    };
    let root_version = match &root_pkg.version {
        Some(v) => v.clone(),
        None => "0.0.0".to_owned(),
    };
    let root_id = join_space(root_name.as_str(), root_version.as_str());
    if installed.len() == 0 {
        return Err(ParseError::NoInstalledPackages);
    }
    let resolved = build_installed_index(installed);
    let ghost rm = resolved_model(&resolved);
    let ghost keys = installed.key_seq();
    let root_names = root_dep_names(root_pkg);
    let root_targets = resolve_targets("", &root_names, &resolved);
    let mut adjacency: StringMap<Vec<String>> = StringMap::new();
    let ghost adj0 = adjacency;
    let ghost tv = root_targets;
    adjacency.insert(root_id.clone(), root_targets);
    proof {
        lemma_model_insert(&adj0, &adjacency, root_id@, tv);
        assert(adjacency_model(&adj0) =~= Map::<Seq<char>, Seq<Seq<char>>>::empty());
        reveal_strlit("");
        assert(Seq::<char>::empty() =~= ""@);
        use_type_invariant(installed);
        installed.lemma_map();
    }
    let n = installed.len();
    for i in 0..n
        invariant
            n == keys.len(),
            keys == installed.key_seq(),
            rm == resolved_model(&resolved),
            installed.value_seq().len() == keys.len(),
            forall|j: int| 0 <= j < keys.len() ==> installed.map()[#[trigger] keys[j]] == installed.value_seq()[j],
            adjacency_model(&adjacency) == installed_adjacency(
                root_id@,
                sorted_distinct(all_dep_names(root_pkg)),
                keys,
                installed.map(),
                rm,
                i as nat,
            ),
    {
        let path = installed.key_at(i);
        let pkg = installed.value_at(i);
        match resolved.get(path) {
            Some(id) => {
                let id = id.clone();
                let targets = resolve_targets(path.as_str(), &pkg.dependencies, &resolved);
                let ghost old_adj = adjacency;
                let ghost tv = targets;
                adjacency.insert(id, targets);
                proof {
                    lemma_model_insert(&old_adj, &adjacency, rm[path@], tv);
                }
            },
            None => {},
        }
    }
    Ok(bfs(root_id.as_str(), &adjacency, max_depth, "Node.js (npm/bun)"))
}


/// What an entry of a node_modules directory is.
#[derive(Debug, PartialEq, Eq)]
pub enum DirRole {
    /// `.bin`, which holds no package.
    Skip,
    /// `@scope`, whose subdirectories are packages.
    Scope,
    /// A package directory.
    Package,
}

pub open spec fn dir_role_of(dir_name: Seq<char>) -> DirRole {
    if dir_name == ".bin"@ {
        DirRole::Skip
    } else if dir_name.len() > 0 && dir_name[0] == '@' {
        DirRole::Scope
    } else {
        DirRole::Package
    }
}

/// What the directory `dir_name` found in a node_modules directory holds.
pub fn dir_role(dir_name: &str) -> (r: DirRole)
    ensures
        r == dir_role_of(dir_name@),
{
    if dir_name.to_owned() == ".bin".to_owned() {
        return DirRole::Skip;
    }
    let cs = chars_of(dir_name);
    if cs.len() > 0 && cs[0] == '@' {
        DirRole::Scope
    } else {
        DirRole::Package
    }
}

/// The name of the package in directory `name` of the scope directory `scope`.
pub fn scoped_name(scope: &str, name: &str) -> (r: String)
    ensures
        r@ == scope@ + "/"@ + name@,
{
    concat3(scope, "/", name)
}

/// The install path of a package found under the node_modules directory of the package at
/// `parent_path` (of the project itself when it is empty).
pub fn package_path(parent_path: &str, package_name: &str) -> (r: String)
    ensures
        r@ == if parent_path@.len() == 0 {
            top_path(package_name@)
        } else {
            nested_path(parent_path@, package_name@)
        },
{
    if parent_path.is_empty() {
        top_path_string(package_name)
    } else {
        concat3(parent_path, "/node_modules/", package_name)
    }
}


/// What the traversal needs of an installed package's package.json: its version (`0.0.0`
/// when missing) and its dependency names, as `root_dep_names` lists them.
pub fn installed_package(pkg: &PackageJson) -> (r: InstalledPackage)
    ensures
        r.version@ == first_present(pkg.version, None, "0.0.0"@),
        str_views(r.dependencies@) == sorted_distinct(all_dep_names(pkg)),
{
    let version = match &pkg.version {
        Some(v) => v.clone(),
        None => "0.0.0".to_owned(),
    };
    InstalledPackage { version, dependencies: root_dep_names(pkg) }
}

} // verus!
