use vstd::prelude::*;

use crate::parser::cargo::{cargo_adjacency, deps_of, pkg_key, resolve_all, resolve_with, LockPackage};
use crate::parser::go::go_id;
use crate::parser::npm::{
    installed_adjacency, lock_adjacency, names_of_opt, resolve_all_deps, resolve_installed,
    InstalledPackage, PackageEntry,
};
use crate::parser::poetry::{
    ascii_lower_char, by_lower_name, index_lowered, is_ascii_text, lowercase, package_lowered,
    lowered, poetry_pkg_id, poetry_targets, targets_of_lowered, LockPackage as PoetryPackage,
};
use crate::parser::{detects, parser_order, ParserKind, ProjectFiles};
use crate::string_map::str_views;
use crate::text::lemma_split_parts;

verus! {

// ---- ecosystem detection ----

/// The lockfile of an ecosystem is enough to recognise it: Cargo.lock for Rust,
/// package-lock.json (or a bun lockfile, or package.json with node_modules) for Node.js,
/// poetry.lock with pyproject.toml for Poetry, go.mod for Go; and Rust is tried first,
/// Node.js second.
pub proof fn law_lockfile_recognises_ecosystem(f: ProjectFiles)
    ensures
        parser_order()[0] == ParserKind::Cargo,
        parser_order()[1] == ParserKind::Npm,
        parser_order()[2] == ParserKind::Poetry,
        parser_order()[3] == ParserKind::Go,
        f.cargo_lock ==> detects(ParserKind::Cargo, f),
        !f.cargo_lock ==> !detects(ParserKind::Cargo, f),
        f.package_lock_json ==> detects(ParserKind::Npm, f),
        f.bun_lock || f.bun_lockb ==> detects(ParserKind::Npm, f),
        f.package_json && f.node_modules_dir ==> detects(ParserKind::Npm, f),
        f.poetry_lock && f.pyproject_toml ==> detects(ParserKind::Poetry, f),
        f.go_mod ==> detects(ParserKind::Go, f),
        !f.cargo_lock && !f.package_lock_json && !f.bun_lock && !f.bun_lockb && !f.package_json
            && !f.poetry_lock && !f.go_mod ==> forall|i: int|
            0 <= i < parser_order().len() ==> !detects(#[trigger] parser_order()[i], f),
{
}

// ---- Go module ids ----

/// `module@version` becomes `"module version"` with the whole version kept, and a bare
/// module gets version `0.0.0`.
pub proof fn law_go_id_keeps_whole_version(m: Seq<char>, v: Seq<char>)
    requires
        !m.contains('@'),
    ensures
        go_id(m + seq!['@'] + v) == m + seq![' '] + v,
        go_id(m) == m + seq![' '] + "0.0.0"@,
{
    lemma_split_parts(m + seq!['@'] + v, '@', m, v);
}

/// Distinct `module@version` strings get distinct ids (for module paths without spaces).
pub proof fn law_go_ids_distinct(m1: Seq<char>, v1: Seq<char>, m2: Seq<char>, v2: Seq<char>)
    requires
        !m1.contains('@'),
        !m2.contains('@'),
        !m1.contains(' '),
        !m2.contains(' '),
        go_id(m1 + seq!['@'] + v1) == go_id(m2 + seq!['@'] + v2),
    ensures
        m1 == m2,
        v1 == v2,
{
    law_go_id_keeps_whole_version(m1, v1);
    law_go_id_keeps_whole_version(m2, v2);
    let id = m1 + seq![' '] + v1;
    lemma_split_parts(id, ' ', m1, v1);
    lemma_split_parts(id, ' ', m2, v2);
}

// ---- Cargo.lock ----

/// Resolving a list of dependency entries resolves each entry on its own: the entries of
/// `a + b` give the ids of `a`'s entries followed by those of `b`'s.
pub proof fn law_cargo_resolution_is_entrywise(
    idx: Map<Seq<char>, Seq<(Seq<char>, Seq<char>)>>,
    a: Seq<Seq<char>>,
    b: Seq<Seq<char>>,
)
    ensures
        resolve_all(idx, a + b) == resolve_all(idx, a) + resolve_all(idx, b),
    decreases b.len(),
{
    if b.len() == 0 {
        assert(a + b =~= a);
        assert(resolve_all(idx, a) + resolve_all(idx, b) =~= resolve_all(idx, a));
    } else {
        law_cargo_resolution_is_entrywise(idx, a, b.drop_last());
        assert((a + b).drop_last() =~= a + b.drop_last());
        assert((a + b).last() == b.last());
        match resolve_with(idx, b.last()) {
            Some(t) => {
                assert(resolve_all(idx, a) + resolve_all(idx, b) =~= (resolve_all(idx, a)
                    + resolve_all(idx, b.drop_last())).push(t));
            },
            None => {},
        }
    }
}

/// Every entry that resolves contributes its id.
proof fn lemma_resolve_all_contains(
    idx: Map<Seq<char>, Seq<(Seq<char>, Seq<char>)>>,
    deps: Seq<Seq<char>>,
    k: int,
)
    requires
        0 <= k < deps.len(),
        resolve_with(idx, deps[k]) is Some,
    ensures
        resolve_all(idx, deps).contains(resolve_with(idx, deps[k])->0),
    decreases deps.len(),
{
    let t = resolve_with(idx, deps[k])->0;
    let prev = resolve_all(idx, deps.drop_last());
    if k == deps.len() - 1 {
        assert(resolve_all(idx, deps) == prev.push(t));
        assert(resolve_all(idx, deps)[prev.len() as int] == t);
    } else {
        assert(deps.drop_last()[k] == deps[k]);
        lemma_resolve_all_contains(idx, deps.drop_last(), k);
        let q = choose|q: int| 0 <= q < prev.len() && prev[q] == t;
        match resolve_with(idx, deps.last()) {
            Some(u) => assert(prev.push(u)[q] == t),
            None => {},
        }
    }
}

/// Every locked package, wherever it comes from, has its dependencies followed: its id is
/// in the adjacency, and when it is the last package with that id, every dependency entry
/// of it that names a locked package links to that package.
pub proof fn law_cargo_every_package_links_its_dependencies(
    pkgs: Seq<LockPackage>,
    idx: Map<Seq<char>, Seq<(Seq<char>, Seq<char>)>>,
    i: int,
    k: int,
)
    requires
        0 <= i < pkgs.len(),
    ensures
        cargo_adjacency(pkgs, idx).contains_key(pkg_key(pkgs[i])),
        (forall|j: int| i < j < pkgs.len() ==> pkg_key(#[trigger] pkgs[j]) != pkg_key(pkgs[i]))
            ==> cargo_adjacency(pkgs, idx)[pkg_key(pkgs[i])] == resolve_all(
            idx,
            deps_of(pkgs[i]),
        ),
        (forall|j: int| i < j < pkgs.len() ==> pkg_key(#[trigger] pkgs[j]) != pkg_key(pkgs[i]))
            && 0 <= k < deps_of(pkgs[i]).len() && resolve_with(idx, deps_of(pkgs[i])[k]) is Some
            ==> cargo_adjacency(pkgs, idx)[pkg_key(pkgs[i])].contains(
            resolve_with(idx, deps_of(pkgs[i])[k])->0,
        ),
    decreases pkgs.len(),
{
    let last = pkgs.len() - 1;
    if i < last {
        let prev = pkgs.drop_last();
        assert(prev[i] == pkgs[i]);
        law_cargo_every_package_links_its_dependencies(prev, idx, i, k);
        if forall|j: int| i < j < pkgs.len() ==> pkg_key(#[trigger] pkgs[j]) != pkg_key(pkgs[i]) {
            assert(pkg_key(pkgs[last]) != pkg_key(pkgs[i]));
            assert forall|j: int| i < j < prev.len() implies pkg_key(#[trigger] prev[j]) != pkg_key(
                prev[i],
            ) by {
                assert(prev[j] == pkgs[j]);
                assert(pkg_key(pkgs[j]) != pkg_key(pkgs[i]));
            }
        }
    }
    if 0 <= k < deps_of(pkgs[i]).len() && resolve_with(idx, deps_of(pkgs[i])[k]) is Some {
        lemma_resolve_all_contains(idx, deps_of(pkgs[i]), k);
    }
}

// ---- npm ----

/// Resolving the dependency names of a package resolves each name on its own: names that
/// are not installed are skipped without affecting the names after them.
pub proof fn law_npm_resolution_is_namewise(
    parent: Seq<char>,
    a: Seq<Seq<char>>,
    b: Seq<Seq<char>>,
    resolved: Map<Seq<char>, Seq<char>>,
)
    ensures
        resolve_all_deps(parent, a + b, resolved) == resolve_all_deps(parent, a, resolved)
            + resolve_all_deps(parent, b, resolved),
    decreases b.len(),
{
    if b.len() == 0 {
        assert(a + b =~= a);
        assert(resolve_all_deps(parent, a, resolved) + resolve_all_deps(parent, b, resolved)
            =~= resolve_all_deps(parent, a, resolved));
    } else {
        law_npm_resolution_is_namewise(parent, a, b.drop_last(), resolved);
        assert((a + b).drop_last() =~= a + b.drop_last());
        assert((a + b).last() == b.last());
        match resolve_installed(parent, b.last(), resolved) {
            Some(t) => {
                assert(resolve_all_deps(parent, a, resolved) + resolve_all_deps(parent, b, resolved)
                    =~= (resolve_all_deps(parent, a, resolved) + resolve_all_deps(
                    parent,
                    b.drop_last(),
                    resolved,
                )).push(t));
            },
            None => {},
        }
    }
}

/// Every dependency name that resolves contributes its id, wherever it stands among the
/// names and whatever the other names resolve to.
pub proof fn law_npm_every_installed_dependency_linked(
    parent: Seq<char>,
    deps: Seq<Seq<char>>,
    resolved: Map<Seq<char>, Seq<char>>,
    k: int,
)
    requires
        0 <= k < deps.len(),
        resolve_installed(parent, deps[k], resolved) is Some,
    ensures
        resolve_all_deps(parent, deps, resolved).contains(
            resolve_installed(parent, deps[k], resolved)->0,
        ),
    decreases deps.len(),
{
    let t = resolve_installed(parent, deps[k], resolved)->0;
    let prev = resolve_all_deps(parent, deps.drop_last(), resolved);
    if k == deps.len() - 1 {
        assert(resolve_all_deps(parent, deps, resolved) == prev.push(t));
        assert(resolve_all_deps(parent, deps, resolved)[prev.len() as int] == t);
    } else {
        assert(deps.drop_last()[k] == deps[k]);
        law_npm_every_installed_dependency_linked(parent, deps.drop_last(), resolved, k);
        let q = choose|q: int| 0 <= q < prev.len() && prev[q] == t;
        match resolve_installed(parent, deps.last(), resolved) {
            Some(u) => assert(prev.push(u)[q] == t),
            None => {},
        }
    }
}

// ---- Poetry names ----

/// `a` and `b` are the same name up to the case of ASCII letters.
pub open spec fn same_ignoring_ascii_case(a: Seq<char>, b: Seq<char>) -> bool {
    &&& a.len() == b.len()
    &&& forall|i: int|
        0 <= i < a.len() ==> {
            ||| a[i] == b[i]
            ||| 'A' <= a[i] <= 'Z' && b[i] as int == a[i] as int + 32
            ||| 'A' <= b[i] <= 'Z' && a[i] as int == b[i] as int + 32
        }
}

/// Lowercasing an ASCII name keeps its length and every character that is not an upper-case
/// letter, and two ASCII names get the same lowercase form exactly when they are the same name
/// up to case: `requests` and `requests-toolbelt` stay apart, `Requests` and `requests` meet.
pub proof fn law_lowercase_ascii_names(a: Seq<char>, b: Seq<char>)
    requires
        is_ascii_text(a),
        is_ascii_text(b),
    ensures
        lowercase(a).len() == a.len(),
        forall|i: int|
            0 <= i < a.len() && !('A' <= a[i] <= 'Z') ==> #[trigger] lowercase(a)[i] == a[i],
        forall|i: int|
            0 <= i < a.len() && 'A' <= a[i] <= 'Z' ==> #[trigger] lowercase(a)[i] as int == a[i] as int
                + 32,
        lowercase(a) == lowercase(b) <==> same_ignoring_ascii_case(a, b),
{
    let la = lowercase(a);
    let lb = lowercase(b);
    if la == lb {
        assert(a.len() == b.len()) by {
            assert(la.len() == a.len());
        }
        assert forall|i: int| 0 <= i < a.len() implies {
            ||| a[i] == b[i]
            ||| 'A' <= a[i] <= 'Z' && b[i] as int == a[i] as int + 32
            ||| 'A' <= b[i] <= 'Z' && a[i] as int == b[i] as int + 32
        } by {
            assert(la[i] == ascii_lower_char(a[i]));
            assert(lb[i] == ascii_lower_char(b[i]));
            assert(a[i] <= '\u{7f}');
            assert(b[i] <= '\u{7f}');
        }
    }
    if same_ignoring_ascii_case(a, b) {
        assert forall|i: int| 0 <= i < a.len() implies la[i] == lb[i] by {
            assert(la[i] == ascii_lower_char(a[i]));
            assert(lb[i] == ascii_lower_char(b[i]));
        }
        assert(la =~= lb);
    }
}

/// The index of locked packages by lowercased name holds the lowercased name of every
/// package, pointing at the last package that has it.
proof fn lemma_index_lowered_last(pkgs: Seq<PoetryPackage>, lows: Seq<Seq<char>>, i: int)
    requires
        lows.len() == pkgs.len(),
        0 <= i < pkgs.len(),
        forall|j: int| i < j < pkgs.len() ==> #[trigger] lows[j] != lows[i],
    ensures
        index_lowered(pkgs, lows).contains_key(lows[i]),
        index_lowered(pkgs, lows)[lows[i]] == poetry_pkg_id(pkgs[i]),
    decreases pkgs.len(),
{
    if i < pkgs.len() - 1 {
        let pp = pkgs.drop_last();
        let pl = lows.drop_last();
        assert(pl[i] == lows[i]);
        assert(pp[i] == pkgs[i]);
        assert(lows[lows.len() - 1] != lows[i]);
        assert forall|j: int| i < j < pp.len() implies #[trigger] pl[j] != pl[i] by {
            assert(pl[j] == lows[j]);
        }
        lemma_index_lowered_last(pp, pl, i);
    }
}

/// A dependency whose name is a locked package's name up to ASCII case (and not Python)
/// links to that package, provided no later package has such a name: names are matched
/// whole, only their case folded.
pub proof fn law_poetry_dependency_finds_its_package(
    pkgs: Seq<PoetryPackage>,
    dep: Seq<char>,
    i: int,
)
    requires
        0 <= i < pkgs.len(),
        is_ascii_text(dep),
        is_ascii_text(pkgs[i].name@),
        same_ignoring_ascii_case(dep, pkgs[i].name@),
        !same_ignoring_ascii_case(dep, "python"@),
        forall|j: int|
            i < j < pkgs.len() ==> is_ascii_text(#[trigger] pkgs[j].name@)
                && !same_ignoring_ascii_case(dep, pkgs[j].name@),
    ensures
        by_lower_name(pkgs).contains_key(lowercase(dep)),
        by_lower_name(pkgs)[lowercase(dep)] == poetry_pkg_id(pkgs[i]),
        poetry_targets(seq![dep], by_lower_name(pkgs)) == seq![poetry_pkg_id(pkgs[i])],
{
    let lows = package_lowered(pkgs);
    law_lowercase_ascii_names(dep, pkgs[i].name@);
    assert(lows[i] == lowercase(dep));
    assert forall|j: int| i < j < pkgs.len() implies #[trigger] lows[j] != lows[i] by {
        law_lowercase_ascii_names(dep, pkgs[j].name@);
    }
    lemma_index_lowered_last(pkgs, lows, i);
    reveal_strlit("python");
    assert(is_ascii_text("python"@));
    law_lowercase_ascii_names(dep, "python"@);
    law_lowercase_ascii_names("python"@, "python"@);
    assert(lowercase("python"@) == "python"@) by {
        assert(lowercase("python"@) =~= "python"@);
    }
    assert(lowercase(dep) != "python"@);
    let ls = lowered(seq![dep]);
    assert(ls.len() == 1);
    assert(ls.drop_last() =~= Seq::<Seq<char>>::empty());
    assert(ls.last() == lowercase(dep));
    let bm = by_lower_name(pkgs);
    assert(targets_of_lowered(ls.drop_last(), bm) =~= Seq::<Seq<char>>::empty());
    assert(targets_of_lowered(ls, bm) =~= seq![poetry_pkg_id(pkgs[i])]);
}

/// Matching a list of lowercased dependency names matches each name on its own: names that
/// are Python or that no package has are skipped without affecting the names after them.
pub proof fn law_poetry_matching_is_namewise(
    a: Seq<Seq<char>>,
    b: Seq<Seq<char>>,
    by_name: Map<Seq<char>, Seq<char>>,
)
    ensures
        targets_of_lowered(a + b, by_name) == targets_of_lowered(a, by_name) + targets_of_lowered(
            b,
            by_name,
        ),
    decreases b.len(),
{
    if b.len() == 0 {
        assert(a + b =~= a);
        assert(targets_of_lowered(a, by_name) + targets_of_lowered(b, by_name) =~= targets_of_lowered(
            a,
            by_name,
        ));
    } else {
        law_poetry_matching_is_namewise(a, b.drop_last(), by_name);
        assert((a + b).drop_last() =~= a + b.drop_last());
        assert((a + b).last() == b.last());
        let l = b.last();
        if l != "python"@ && by_name.contains_key(l) {
            assert(targets_of_lowered(a, by_name) + targets_of_lowered(b, by_name) =~= (
            targets_of_lowered(a, by_name) + targets_of_lowered(b.drop_last(), by_name)).push(
                by_name[l],
            ));
        }
    }
}

/// In an installed tree, every installed package among the first `n` keys has its
/// dependencies followed from its own install path: its id maps to what its dependency names
/// resolve to, unless a later package carries the same id; and the project's id maps to what
/// its own dependency names resolve to, unless a package carries that id.
pub proof fn law_npm_installed_packages_expanded(
    root_id: Seq<char>,
    root_names: Seq<Seq<char>>,
    keys: Seq<Seq<char>>,
    m: Map<Seq<char>, InstalledPackage>,
    resolved: Map<Seq<char>, Seq<char>>,
    n: nat,
    i: int,
)
    requires
        n <= keys.len(),
    ensures
        (forall|j: int|
            0 <= j < n && resolved.contains_key(#[trigger] keys[j]) ==> resolved[keys[j]] != root_id)
            ==> installed_adjacency(root_id, root_names, keys, m, resolved, n)[root_id]
            == resolve_all_deps(Seq::empty(), root_names, resolved),
        installed_adjacency(root_id, root_names, keys, m, resolved, n).contains_key(root_id),
        0 <= i < n && resolved.contains_key(keys[i]) ==> installed_adjacency(
            root_id,
            root_names,
            keys,
            m,
            resolved,
            n,
        ).contains_key(resolved[keys[i]]),
        0 <= i < n && resolved.contains_key(keys[i]) && (forall|j: int|
            i < j < n && resolved.contains_key(#[trigger] keys[j]) ==> resolved[keys[j]]
                != resolved[keys[i]]) ==> installed_adjacency(
            root_id,
            root_names,
            keys,
            m,
            resolved,
            n,
        )[resolved[keys[i]]] == resolve_all_deps(keys[i], str_views(m[keys[i]].dependencies@), resolved),
    decreases n,
{
    if n > 0 {
        law_npm_installed_packages_expanded(root_id, root_names, keys, m, resolved, (n - 1) as nat, i);
        let k = keys[n - 1];
        if (forall|j: int|
            0 <= j < n && resolved.contains_key(#[trigger] keys[j]) ==> resolved[keys[j]] != root_id) {
            assert forall|j: int|
                0 <= j < n - 1 && resolved.contains_key(#[trigger] keys[j]) implies resolved[keys[j]]
                != root_id by {}
            if resolved.contains_key(k) {
                assert(resolved[keys[n - 1]] != root_id);
            }
        }
        if 0 <= i < n - 1 && resolved.contains_key(keys[i]) && (forall|j: int|
            i < j < n && resolved.contains_key(#[trigger] keys[j]) ==> resolved[keys[j]]
                != resolved[keys[i]]) {
            if resolved.contains_key(k) {
                assert(resolved[keys[n - 1]] != resolved[keys[i]]);
            }
        }
    }
}

/// In a package-lock.json, every package entry among the first `n` keys (all but the
/// project's own, whose key is empty) has its dependencies followed from its own path: its
/// id maps to what its dependency names resolve to, unless a later entry carries the same id.
pub proof fn law_npm_lock_packages_expanded(
    root_id: Seq<char>,
    root_deps: Seq<Seq<char>>,
    keys: Seq<Seq<char>>,
    entries: Map<Seq<char>, PackageEntry>,
    resolved: Map<Seq<char>, Seq<char>>,
    n: nat,
    i: int,
)
    requires
        n <= keys.len(),
    ensures
        lock_adjacency(root_id, root_deps, keys, entries, resolved, n).contains_key(root_id),
        0 <= i < n && keys[i].len() > 0 ==> lock_adjacency(
            root_id,
            root_deps,
            keys,
            entries,
            resolved,
            n,
        ).contains_key(resolved[keys[i]]),
        0 <= i < n && keys[i].len() > 0 && (forall|j: int|
            i < j < n && (#[trigger] keys[j]).len() > 0 ==> resolved[keys[j]] != resolved[keys[i]])
            ==> lock_adjacency(root_id, root_deps, keys, entries, resolved, n)[resolved[keys[i]]]
            == resolve_all_deps(keys[i], names_of_opt(entries[keys[i]].dependencies), resolved),
    decreases n,
{
    if n > 0 {
        law_npm_lock_packages_expanded(root_id, root_deps, keys, entries, resolved, (n - 1) as nat, i);
        if 0 <= i < n - 1 && keys[i].len() > 0 && (forall|j: int|
            i < j < n && (#[trigger] keys[j]).len() > 0 ==> resolved[keys[j]] != resolved[keys[i]]) {
            if keys[n - 1].len() > 0 {
                assert(resolved[keys[n - 1]] != resolved[keys[i]]);
            }
        }
    }
}

} // verus!
