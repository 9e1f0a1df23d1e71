use vstd::prelude::*;

use crate::error::ParseError;
use crate::graph::{adjacency_model, bfs, is_bfs_of, DependencyGraph};
use crate::string_map::{str_views, StringMap};
use crate::text::{chars_of, join_space};

verus! {

/// Python projects managed by Poetry.
pub struct PoetryParser;

/// The `[tool.poetry]` table of a pyproject.toml.
#[derive(Debug)]
pub struct ProjectMeta {
    pub name: Option<String>,
    pub version: Option<String>,
    /// The names of the `[tool.poetry.dependencies]` table.
    pub dependencies: Option<Vec<String>>,
}

/// The `[tool]` table of a pyproject.toml.
#[derive(Debug)]
pub struct ToolGroup {
    pub poetry: Option<ProjectMeta>,
}

/// The parts of a pyproject.toml that the graph is built from.
#[derive(Debug)]
pub struct PyProject {
    pub tool: Option<ToolGroup>,
}

/// One `[[package]]` of a poetry.lock.
#[derive(Debug)]
pub struct LockPackage {
    pub name: String,
    pub version: String,
    /// The names of its `[package.dependencies]` table.
    pub dependencies: Option<Vec<String>>,
}

/// The parts of a poetry.lock that the graph is built from.
#[derive(Debug)]
pub struct PoetryLock {
    pub package: Option<Vec<LockPackage>>,
}

/// Whether every character of `s` is ASCII.
pub open spec fn is_ascii_text(s: Seq<char>) -> bool {
    forall|i: int| 0 <= i < s.len() ==> #[trigger] s[i] <= '\u{7f}'
}

/// The lowercase of an ASCII character: `A`-`Z` become `a`-`z`, the others stay.
pub open spec fn ascii_lower_char(c: char) -> char {
    if 'A' <= c && c <= 'Z' {
        ((c as int) + 32) as char
    } else {
        c
    }
}

/// `s` with each ASCII letter lowercased.
pub open spec fn ascii_lowered(s: Seq<char>) -> Seq<char> {
    s.map_values(|c: char| ascii_lower_char(c))
}

/// What `str::to_lowercase` makes of a string (the Unicode lowercase mapping).
pub uninterp spec fn unicode_lowercase(s: Seq<char>) -> Seq<char>;

/// The lowercase form of a name, as `str::to_lowercase` gives it: on ASCII text the Unicode
/// lowercase mapping turns `A`-`Z` into `a`-`z` and keeps every other character; on other
/// text it is the Unicode mapping, which is not written out here.
pub open spec fn lowercase(s: Seq<char>) -> Seq<char> {
    if is_ascii_text(s) {
        ascii_lowered(s)
    } else {
        unicode_lowercase(s)
    }
}

/// `str::to_lowercase`. Claimed: the result depends on the argument alone, and on ASCII text
/// it lowercases the letters `A`-`Z` and keeps everything else; what the Unicode lowercase
/// mapping gives on other text is left unsaid.
#[verifier::external_body]
fn to_lowercase(s: &str) -> (r: String)
    ensures
        r@ == unicode_lowercase(s@),
        r@ == lowercase(s@),
{
    s.to_lowercase()
}

/// The lowercase form of `s`: ASCII text is lowercased here, letter by letter; other text by
/// `str::to_lowercase`.
pub fn lower_name(s: &str) -> (r: String)
    ensures
        r@ == lowercase(s@),
{
    let cs = chars_of(s);
    let n = cs.len();
    let mut out = String::new();
    let mut i: usize = 0;
    while i < n
        invariant
            n == cs@.len(),
            cs@ == s@,
            i <= n,
            forall|j: int| 0 <= j < i ==> #[trigger] cs@[j] <= '\u{7f}',
            out@ == ascii_lowered(cs@.take(i as int)),
        decreases n - i,
    {
        let c = cs[i];
        if c > '\u{7f}' {
            assert(!is_ascii_text(s@)) by {
                assert(s@[i as int] == c);
            }
            return to_lowercase(s);
        }
        let l: char = if 'A' <= c && c <= 'Z' {
            ((c as u8) + 32) as char
        } else {
            c
        };
        out.push(l);
        assert(ascii_lowered(cs@.take(i + 1)) =~= ascii_lowered(cs@.take(i as int)).push(
            ascii_lower_char(c),
        ));
        i = i + 1;
    }
    assert(cs@.take(n as int) =~= cs@);
    assert(is_ascii_text(s@));
    out
}

/// The name under which Poetry projects are reported.
pub open spec fn poetry_ecosystem() -> Seq<char> {
    "Python (Poetry)"@
}

/// Python itself, which is listed among the dependencies but is no package.
pub open spec fn is_python(name: Seq<char>) -> bool {
    lowercase(name) == "python"@
}

pub open spec fn meta_of(proj: &PyProject) -> Option<ProjectMeta> {
    match proj.tool {
        Some(t) => t.poetry,
        None => None,
    }
}

/// The project's id, `project` and `0.0.0` standing in for a missing name and version.
pub open spec fn poetry_root_id(proj: &PyProject) -> Seq<char> {
    let (name, version) = match meta_of(proj) {
        Some(m) => (m.name, m.version),
        None => (None, None),
    };
    (match name {
        Some(n) => n@,
        None => "project"@,
    }) + seq![' '] + (match version {
        Some(v) => v@,
        None => "0.0.0"@,
    })
}

pub open spec fn poetry_pkg_id(p: LockPackage) -> Seq<char> {
    p.name@ + seq![' '] + p.version@
}

/// Lowercased name to package id, given the lowercased names `lows` of `pkgs` (aligned);
/// a later package replaces an earlier one.
pub open spec fn index_lowered(pkgs: Seq<LockPackage>, lows: Seq<Seq<char>>) -> Map<
    Seq<char>,
    Seq<char>,
>
    decreases pkgs.len(),
{
    if pkgs.len() == 0 {
        Map::empty()
    } else {
        index_lowered(pkgs.drop_last(), lows.drop_last()).insert(
            lows.last(),
            poetry_pkg_id(pkgs.last()),
        )
    }
}

/// The lowercased names of the locked packages.
pub open spec fn package_lowered(pkgs: Seq<LockPackage>) -> Seq<Seq<char>> {
    pkgs.map_values(|p: LockPackage| lowercase(p.name@))
}

/// Lowercased package name to package id; a later package replaces an earlier one.
pub open spec fn by_lower_name(pkgs: Seq<LockPackage>) -> Map<Seq<char>, Seq<char>> {
    index_lowered(pkgs, package_lowered(pkgs))
}

/// The lowercased forms of `names`.
pub open spec fn lowered(names: Seq<Seq<char>>) -> Seq<Seq<char>> {
    names.map_values(|n: Seq<char>| lowercase(n))
}

pub open spec fn dep_names_of(d: Option<Vec<String>>) -> Seq<Seq<char>> {
    match d {
        Some(v) => str_views(v@),
        None => seq![],
    }
}

/// The ids that the lowercased dependency names `lows` point to, `python` left out and
/// names without a locked package dropped.
pub open spec fn targets_of_lowered(lows: Seq<Seq<char>>, by_name: Map<Seq<char>, Seq<char>>) -> Seq<
    Seq<char>,
>
    decreases lows.len(),
{
    if lows.len() == 0 {
        seq![]
    } else {
        let prev = targets_of_lowered(lows.drop_last(), by_name);
        let l = lows.last();
        if l != "python"@ && by_name.contains_key(l) {
            prev.push(by_name[l])
        } else {
            prev
        }
    }
}

/// The ids of the locked packages that `deps` name (case-insensitively), Python left out.
pub open spec fn poetry_targets(deps: Seq<Seq<char>>, by_name: Map<Seq<char>, Seq<char>>) -> Seq<
    Seq<char>,
> {
    targets_of_lowered(lowered(deps), by_name)
}

pub open spec fn name_map(m: &StringMap<String>) -> Map<Seq<char>, Seq<char>> {
    m.map().map_values(|s: String| s@)
}

/// The project's direct dependencies, then each locked package's dependencies, in file order.
pub open spec fn poetry_adjacency(
    root_id: Seq<char>,
    root_deps: Seq<Seq<char>>,
    pkgs: Seq<LockPackage>,
    by_name: Map<Seq<char>, Seq<char>>,
) -> Map<Seq<char>, Seq<Seq<char>>>
    decreases pkgs.len(),
{
    if pkgs.len() == 0 {
        Map::empty().insert(root_id, poetry_targets(root_deps, by_name))
    } else {
        poetry_adjacency(root_id, root_deps, pkgs.drop_last(), by_name).insert(
            poetry_pkg_id(pkgs.last()),
            poetry_targets(dep_names_of(pkgs.last().dependencies), by_name),
        )
    }
}

pub open spec fn root_deps_of(proj: &PyProject) -> Seq<Seq<char>> {
    match meta_of(proj) {
        Some(m) => dep_names_of(m.dependencies),
        None => seq![],
    }
}

pub open spec fn poetry_packages(lock: &PoetryLock) -> Seq<LockPackage> {
    match lock.package {
        Some(p) => p@,
        None => seq![],
    }
}

/// The ids that the lowercased dependency names point to in `by_name`, a map from
/// lowercased package name to id: `python` is left out, and names without a package dropped.
pub fn resolve_lowered(lowered_names: &Vec<String>, by_name: &StringMap<String>) -> (r: Vec<String>)
    ensures
        str_views(r@) == targets_of_lowered(str_views(lowered_names@), name_map(by_name)),
{
    let ghost bm = name_map(by_name);
    let ghost ls = str_views(lowered_names@);
    let mut r: Vec<String> = Vec::new();
    let n = lowered_names.len();
    assert(str_views(r@) =~= targets_of_lowered(ls.take(0), bm));
    for i in 0..n
        invariant
            n == lowered_names@.len(),
            ls == str_views(lowered_names@),
            bm == name_map(by_name),
            str_views(r@) == targets_of_lowered(ls.take(i as int), bm),
    {
        assert(ls.take(i + 1).drop_last() =~= ls.take(i as int));
        assert(ls.take(i + 1).last() == lowered_names@[i as int]@);
        let lower = &lowered_names[i];
        if *lower != "python".to_owned() {
            match by_name.get(lower) {
                Some(id) => {
                    let ghost old_r = r@;
                    r.push(id.clone());
                    assert(str_views(r@) =~= str_views(old_r).push(bm[lower@]));
                },
                None => {},
            }
        }
    }
    assert(ls.take(n as int) =~= ls);
    r
}

/// Lowercased package name to package id, given the lowercased names of the packages in the
/// same order; a later package replaces an earlier one.
pub fn index_lowered_names(packages: &Vec<LockPackage>, lowered_names: &Vec<String>) -> (r:
    StringMap<String>)
    requires
        lowered_names@.len() == packages@.len(),
    ensures
        name_map(&r) == index_lowered(packages@, str_views(lowered_names@)),
{
    let ghost pkgs = packages@;
    let ghost ls = str_views(lowered_names@);
    let mut by_name: StringMap<String> = StringMap::new();
    let n = packages.len();
    assert(name_map(&by_name) =~= index_lowered(pkgs.take(0), ls.take(0)));
    for i in 0..n
        invariant
            n == pkgs.len(),
            n == lowered_names@.len(),
            pkgs == packages@,
            ls == str_views(lowered_names@),
            name_map(&by_name) == index_lowered(pkgs.take(i as int), ls.take(i as int)),
    {
        let pkg = &packages[i];
        let id = join_space(pkg.name.as_str(), pkg.version.as_str());
        let key = lowered_names[i].clone();
        let ghost before = by_name.map();
        let ghost kv = key@;
        let ghost iv = id@;
        by_name.insert(key, id);
        assert(pkgs.take(i + 1).drop_last() =~= pkgs.take(i as int));
        assert(ls.take(i + 1).drop_last() =~= ls.take(i as int));
        assert(pkgs.take(i + 1).last() == pkgs[i as int]);
        assert(ls.take(i + 1).last() == kv);
        assert(name_map(&by_name) =~= before.map_values(|s: String| s@).insert(kv, iv));
    }
    assert(pkgs.take(n as int) =~= pkgs);
    assert(ls.take(n as int) =~= ls);
    by_name
}

/// The lowercased forms of `names`, in order.
fn lower_all(names: &Vec<String>) -> (r: Vec<String>)
    ensures
        str_views(r@) == lowered(str_views(names@)),
{
    let mut r: Vec<String> = Vec::new();
    let n = names.len();
    for i in 0..n
        invariant
            n == names@.len(),
            str_views(r@) == lowered(str_views(names@)).take(i as int),
    {
        let ghost old_r = r@;
        let l = lower_name(names[i].as_str());
        r.push(l);
        assert(str_views(r@) =~= str_views(old_r).push(l@));
        assert(lowered(str_views(names@)).take(i + 1) =~= lowered(str_views(names@)).take(
            i as int,
        ).push(lowercase(names@[i as int]@)));
    }
    assert(lowered(str_views(names@)).take(n as int) =~= lowered(str_views(names@)));
    r
}

/// The ids of the locked packages that the dependency names `deps` point to.
fn targets_of(deps: &Option<Vec<String>>, by_name: &StringMap<String>) -> (r: Vec<String>)
    ensures
        str_views(r@) == poetry_targets(dep_names_of(*deps), name_map(by_name)),
{
    match deps {
        Some(names) => {
            let lows = lower_all(names);
            resolve_lowered(&lows, by_name)
        },
        None => Vec::new(),
    }
}

/// The dependency graph of a Poetry project, from its pyproject.toml and poetry.lock: the
/// project's direct dependencies and each locked package's dependencies, matched to the locked
/// packages by lowercased name, Python left out.
pub fn parse_content(proj: &PyProject, lock: &PoetryLock, max_depth: Option<usize>) -> (r: Result<
    DependencyGraph,
    ParseError,
>)
    ensures
        r matches Ok(g) && is_bfs_of(
            g,
            poetry_adjacency(
                poetry_root_id(proj),
                root_deps_of(proj),
                poetry_packages(lock),
                by_lower_name(poetry_packages(lock)),
            ),
            poetry_root_id(proj),
            max_depth,
            poetry_ecosystem(),
        ),
{
    let empty: Vec<LockPackage> = Vec::new();
    let packages: &Vec<LockPackage> = match &lock.package {
        Some(p) => p,
        None => &empty,
    };
    let ghost pkgs = packages@;
    assert(pkgs == poetry_packages(lock));
    let no_deps: Option<Vec<String>> = None;
    let (name, version, direct): (Option<&String>, Option<&String>, &Option<Vec<String>>) =
        match &proj.tool {
        Some(t) => match &t.poetry {
            Some(m) => (m.name.as_ref(), m.version.as_ref(), &m.dependencies),
            None => (None, None, &no_deps),
        },
        None => (None, None, &no_deps),
    };
    let root_name: String = match name {
        Some(n) => n.clone(),
        None => "project".to_owned(),
    };
    let root_version: String = match version {
        Some(v) => v.clone(),
        None => "0.0.0".to_owned(),
    };
    let root_id = join_space(root_name.as_str(), root_version.as_str());
    assert(root_id@ == poetry_root_id(proj));
    assert(dep_names_of(*direct) == root_deps_of(proj));

    let mut package_lows: Vec<String> = Vec::new();
    let n = packages.len();
    for i in 0..n
        invariant
            n == pkgs.len(),
            pkgs == packages@,
            str_views(package_lows@) == package_lowered(pkgs).take(i as int),
    {
        let ghost old_l = package_lows@;
        let l = lower_name(packages[i].name.as_str());
        package_lows.push(l);
        assert(str_views(package_lows@) =~= str_views(old_l).push(l@));
        assert(package_lowered(pkgs).take(i + 1) =~= package_lowered(pkgs).take(i as int).push(
            lowercase(pkgs[i as int].name@),
        ));
    }
    assert(package_lowered(pkgs).take(n as int) =~= package_lowered(pkgs));
    let by_name = index_lowered_names(packages, &package_lows);
    let ghost bm = by_lower_name(pkgs);

    let mut adjacency: StringMap<Vec<String>> = StringMap::new();
    let root_targets = targets_of(direct, &by_name);
    let ghost tv = str_views(root_targets@);
    adjacency.insert(root_id.clone(), root_targets);
    assert(adjacency_model(&adjacency) =~= Map::empty().insert(root_id@, tv));
    for i in 0..n
        invariant
            n == pkgs.len(),
            pkgs == packages@,
            name_map(&by_name) == bm,
            adjacency_model(&adjacency) == poetry_adjacency(
                root_id@,
                root_deps_of(proj),
                pkgs.take(i as int),
                bm,
            ),
    {
        let pkg = &packages[i];
        let id = join_space(pkg.name.as_str(), pkg.version.as_str());
        let targets = targets_of(&pkg.dependencies, &by_name);
        let ghost before = adjacency_model(&adjacency);
        let ghost idv = id@;
        let ghost tv = str_views(targets@);
        adjacency.insert(id, targets);
        assert(pkgs.take(i + 1).drop_last() =~= pkgs.take(i as int));
        assert(pkgs.take(i + 1).last() == pkgs[i as int]);
        assert(adjacency_model(&adjacency) =~= before.insert(idv, tv));
    }
    assert(pkgs.take(n as int) =~= pkgs);
    Ok(bfs(root_id.as_str(), &adjacency, max_depth, "Python (Poetry)"))
}

} // verus!
