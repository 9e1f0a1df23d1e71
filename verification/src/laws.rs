use vstd::prelude::*;

use crate::parser::cargo::{
    first_with_version, name_index, pkg_key, resolve_with, versions_named, LockPackage,
};
use crate::parser::go::{add_links, go_adjacency, go_id, go_links};
use crate::parser::npm::{first_found, lookup_paths, nested_path};
use crate::parser::poetry::{is_python, lowercase, lowered, poetry_targets};
use crate::text::{before_first, lemma_split_parts, pieces, words};
use crate::graph::{
    discover, edge_pairs, edge_targets, edges_of, is_bfs_of, may_expand, names_of, node_ids, node_levels,
    out_edges, reaches, within_depth, DependencyGraph,
};

verus! {

/// One more allowed link never loses a reachable package.
pub proof fn lemma_reaches_monotone(
    adj: Map<Seq<char>, Seq<Seq<char>>>,
    root: Seq<char>,
    v: Seq<char>,
    k: nat,
    l: nat,
)
    requires
        reaches(adj, root, v, k),
        k <= l,
    ensures
        reaches(adj, root, v, l),
    decreases k,
{
    if v != root {
        let u = choose|u: Seq<char>|
            #![trigger adj.contains_key(u), adj[u].contains(v)]
            adj.contains_key(u) && adj[u].contains(v) && reaches(adj, root, u, (k - 1) as nat);
        lemma_reaches_monotone(adj, root, u, (k - 1) as nat, (l - 1) as nat);
        assert(adj.contains_key(u) && adj[u].contains(v));
    }
}

proof fn lemma_discover_contains(seen: Seq<Seq<char>>, targets: Seq<Seq<char>>)
    ensures
        forall|i: int| 0 <= i < seen.len() ==> discover(seen, targets).contains(#[trigger] seen[i]),
        forall|i: int|
            0 <= i < targets.len() ==> discover(seen, targets).contains(#[trigger] targets[i]),
    decreases targets.len(),
{
    if targets.len() > 0 {
        let prev = discover(seen, targets.drop_last());
        lemma_discover_contains(seen, targets.drop_last());
        assert forall|i: int| 0 <= i < seen.len() implies discover(seen, targets).contains(
            #[trigger] seen[i],
        ) by {
            let j = choose|j: int| 0 <= j < prev.len() && prev[j] == seen[i];
            if !prev.contains(targets.last()) {
                assert(prev.push(targets.last())[j] == seen[i]);
            }
        }
        assert forall|i: int| 0 <= i < targets.len() implies discover(seen, targets).contains(
            #[trigger] targets[i],
        ) by {
            if i < targets.len() - 1 {
                assert(targets.drop_last()[i] == targets[i]);
                let j = choose|j: int| 0 <= j < prev.len() && prev[j] == targets[i];
                if !prev.contains(targets.last()) {
                    assert(prev.push(targets.last())[j] == targets[i]);
                }
            } else if !prev.contains(targets.last()) {
                assert(prev.push(targets.last())[prev.len() as int] == targets[i]);
            }
        }
    }
}

/// `pair` is a link out of one of the `levels` whose dependencies are followed.
spec fn from_expandable(
    adj: Map<Seq<char>, Seq<Seq<char>>>,
    levels: Seq<(Seq<char>, int)>,
    max_depth: Option<usize>,
    pair: (Seq<char>, Seq<char>),
) -> bool {
    exists|i: int|
        0 <= i < levels.len() && #[trigger] levels[i].0 == pair.0 && may_expand(levels[i].1, max_depth)
            && adj.contains_key(levels[i].0) && adj[levels[i].0].contains(pair.1)
}

proof fn lemma_edges_of_sources(
    adj: Map<Seq<char>, Seq<Seq<char>>>,
    levels: Seq<(Seq<char>, int)>,
    max_depth: Option<usize>,
)
    ensures
        forall|e: int|
            0 <= e < edges_of(adj, levels, max_depth).len() ==> from_expandable(
                adj,
                levels,
                max_depth,
                #[trigger] edges_of(adj, levels, max_depth)[e],
            ),
    decreases levels.len(),
{
    if levels.len() > 0 {
        let prev = levels.drop_last();
        lemma_edges_of_sources(adj, prev, max_depth);
        let es = edges_of(adj, levels, max_depth);
        let pe = edges_of(adj, prev, max_depth);
        let last = levels.last();
        let oe = out_edges(adj, last.0, last.1, max_depth);
        assert(es == pe + oe);
        assert forall|e: int| 0 <= e < es.len() implies from_expandable(
            adj,
            levels,
            max_depth,
            #[trigger] es[e],
        ) by {
            if e < pe.len() {
                assert(es[e] == pe[e]);
                assert(from_expandable(adj, prev, max_depth, pe[e]));
                let i = choose|i: int|
                    0 <= i < prev.len() && #[trigger] prev[i].0 == pe[e].0 && may_expand(
                        prev[i].1,
                        max_depth,
                    ) && adj.contains_key(prev[i].0) && adj[prev[i].0].contains(pe[e].1);
                assert(levels[i] == prev[i]);
            } else {
                let q = e - pe.len();
                assert(es[e] == oe[q]);
                assert(adj[last.0][q] == oe[q].1);
                assert(levels[levels.len() - 1].0 == es[e].0);
            }
        }
    }
}

/// The `e`-th edge leaves a node whose dependencies are followed, along a link of `adj`, and
/// ends at a node.
pub open spec fn edge_joins_nodes(
    g: DependencyGraph,
    adj: Map<Seq<char>, Seq<Seq<char>>>,
    max_depth: Option<usize>,
    e: int,
) -> bool {
    &&& node_ids(g.nodes@).contains(g.edges@[e].target@)
    &&& adj.contains_key(g.edges@[e].source@)
    &&& adj[g.edges@[e].source@].contains(g.edges@[e].target@)
    &&& exists|i: int|
        0 <= i < g.nodes@.len() && #[trigger] g.nodes@[i].id@ == g.edges@[e].source@ && may_expand(
            g.nodes@[i].depth as int,
            max_depth,
        )
}

/// Every edge of a traversal leaves a node whose dependencies are followed, along a link of
/// the adjacency, and ends at a node of the graph.
pub proof fn law_edges_join_nodes(
    g: DependencyGraph,
    adj: Map<Seq<char>, Seq<Seq<char>>>,
    root: Seq<char>,
    max_depth: Option<usize>,
    ecosystem: Seq<char>,
)
    requires
        is_bfs_of(g, adj, root, max_depth, ecosystem),
    ensures
        forall|e: int| 0 <= e < g.edges@.len() ==> #[trigger] edge_joins_nodes(g, adj, max_depth, e),
{
    let levels = node_levels(g.nodes@);
    lemma_edges_of_sources(adj, levels, max_depth);
    lemma_discover_contains(seq![root], edge_targets(g.edges@));
    assert forall|e: int| 0 <= e < g.edges@.len() implies #[trigger] edge_joins_nodes(
        g,
        adj,
        max_depth,
        e,
    ) by {
        assert(edge_targets(g.edges@)[e] == g.edges@[e].target@);
        assert(edge_pairs(g.edges@)[e] == (g.edges@[e].source@, g.edges@[e].target@));
        let pair = edges_of(adj, levels, max_depth)[e];
        assert(from_expandable(adj, levels, max_depth, pair));
        let i = choose|i: int|
            0 <= i < levels.len() && #[trigger] levels[i].0 == pair.0 && may_expand(
                levels[i].1,
                max_depth,
            ) && adj.contains_key(levels[i].0) && adj[levels[i].0].contains(pair.1);
        assert(g.nodes@[i].id@ == levels[i].0);
        assert(discover(seq![root], edge_targets(g.edges@)).contains(edge_targets(g.edges@)[e]));
    }
}

/// The root is the first node and the only one marked as root.
pub proof fn law_single_root(
    g: DependencyGraph,
    adj: Map<Seq<char>, Seq<Seq<char>>>,
    root: Seq<char>,
    max_depth: Option<usize>,
    ecosystem: Seq<char>,
)
    requires
        is_bfs_of(g, adj, root, max_depth, ecosystem),
    ensures
        g.nodes@[0].is_root,
        forall|i: int| 0 < i < g.nodes@.len() ==> !(#[trigger] g.nodes@[i]).is_root,
{
    assert(g.nodes@[0].is_root);
    assert forall|i: int| 0 < i < g.nodes@.len() implies !(#[trigger] g.nodes@[i]).is_root by {
        assert(node_ids(g.nodes@)[i] != node_ids(g.nodes@)[0]);
    }
}

/// Without a depth limit the graph holds exactly the packages reachable from the root.
pub proof fn law_unlimited_is_complete(
    g: DependencyGraph,
    adj: Map<Seq<char>, Seq<Seq<char>>>,
    root: Seq<char>,
    ecosystem: Seq<char>,
    v: Seq<char>,
)
    requires
        is_bfs_of(g, adj, root, None, ecosystem),
    ensures
        node_ids(g.nodes@).contains(v) <==> exists|k: nat| reaches(adj, root, v, k),
{
    if node_ids(g.nodes@).contains(v) {
        let i = choose|i: int| 0 <= i < g.nodes@.len() && node_ids(g.nodes@)[i] == v;
        assert(g.nodes@[i].id@ == v);
        assert(reaches(adj, root, v, g.nodes@[i].depth as nat));
    }
    if exists|k: nat| reaches(adj, root, v, k) {
        let k = choose|k: nat| reaches(adj, root, v, k);
        assert(within_depth(k as int, None));
    }
}

/// A node keeps its depth, and stays in the graph, when the depth limit is raised or lifted.
pub proof fn law_deeper_limit_keeps_nodes(
    g1: DependencyGraph,
    g2: DependencyGraph,
    adj: Map<Seq<char>, Seq<Seq<char>>>,
    root: Seq<char>,
    limit: usize,
    max2: Option<usize>,
    ecosystem: Seq<char>,
)
    requires
        is_bfs_of(g1, adj, root, Some(limit), ecosystem),
        is_bfs_of(g2, adj, root, max2, ecosystem),
        within_depth(limit as int, max2),
    ensures
        forall|i: int|
            0 <= i < g1.nodes@.len() ==> exists|j: int|
                0 <= j < g2.nodes@.len() && #[trigger] g2.nodes@[j].id@ == (
                #[trigger] g1.nodes@[i]).id@ && g2.nodes@[j].depth == g1.nodes@[i].depth,
{
    assert forall|i: int| 0 <= i < g1.nodes@.len() implies exists|j: int|
        0 <= j < g2.nodes@.len() && #[trigger] g2.nodes@[j].id@ == (
        #[trigger] g1.nodes@[i]).id@ && g2.nodes@[j].depth == g1.nodes@[i].depth by {
        let n1 = g1.nodes@[i];
        let v = n1.id@;
        let d = n1.depth as nat;
        assert(reaches(adj, root, v, d));
        assert(within_depth(d as int, max2));
        assert(node_ids(g2.nodes@).contains(v));
        let j = choose|j: int| 0 <= j < g2.nodes@.len() && node_ids(g2.nodes@)[j] == v;
        let n2 = g2.nodes@[j];
        assert(n2.id@ == v);
        let d2 = n2.depth as nat;
        if d < d2 {
            lemma_reaches_monotone(adj, root, v, d, (d2 - 1) as nat);
        }
        if d2 < d {
            lemma_reaches_monotone(adj, root, v, d2, (d - 1) as nat);
        }
        assert(n2.depth == n1.depth);
    }
}

proof fn lemma_no_expansion_no_edges(
    adj: Map<Seq<char>, Seq<Seq<char>>>,
    levels: Seq<(Seq<char>, int)>,
    max_depth: Option<usize>,
)
    requires
        forall|i: int| 0 <= i < levels.len() ==> !may_expand(#[trigger] levels[i].1, max_depth),
    ensures
        edges_of(adj, levels, max_depth).len() == 0,
    decreases levels.len(),
{
    if levels.len() > 0 {
        assert forall|i: int| 0 <= i < levels.drop_last().len() implies !may_expand(
            #[trigger] levels.drop_last()[i].1,
            max_depth,
        ) by {
            assert(levels.drop_last()[i] == levels[i]);
        }
        lemma_no_expansion_no_edges(adj, levels.drop_last(), max_depth);
        assert(!may_expand(levels[levels.len() - 1].1, max_depth));
    }
}

/// With depth limit 0 the graph is the root alone, without edges.
pub proof fn law_depth_zero_is_root_alone(
    g: DependencyGraph,
    adj: Map<Seq<char>, Seq<Seq<char>>>,
    root: Seq<char>,
    ecosystem: Seq<char>,
)
    requires
        is_bfs_of(g, adj, root, Some(0), ecosystem),
    ensures
        g.nodes@.len() == 1,
        g.edges@.len() == 0,
{
    let ns = g.nodes@;
    if ns.len() > 1 {
        assert(ns[1].depth == 0);
        assert(reaches(adj, root, ns[1].id@, 0));
        assert(node_ids(ns)[1] == node_ids(ns)[0]);
    }
    let levels = node_levels(ns);
    assert forall|i: int| 0 <= i < levels.len() implies !may_expand(#[trigger] levels[i].1, Some(0usize)) by {
        assert(levels[i].1 == ns[i].depth);
    }
    lemma_no_expansion_no_edges(adj, levels, Some(0usize));
    assert(edge_pairs(g.edges@).len() == 0);
}

/// With depth limit 1 the graph holds the root and exactly its direct dependencies.
pub proof fn law_depth_one_is_direct_dependencies(
    g: DependencyGraph,
    adj: Map<Seq<char>, Seq<Seq<char>>>,
    root: Seq<char>,
    ecosystem: Seq<char>,
)
    requires
        is_bfs_of(g, adj, root, Some(1), ecosystem),
    ensures
        forall|i: int|
            0 < i < g.nodes@.len() ==> adj.contains_key(root) && adj[root].contains(
                (#[trigger] g.nodes@[i]).id@,
            ) && g.nodes@[i].depth == 1,
        adj.contains_key(root) ==> forall|t: Seq<char>|
            #[trigger] adj[root].contains(t) ==> node_ids(g.nodes@).contains(t),
{
    let ns = g.nodes@;
    assert forall|i: int| 0 < i < ns.len() implies adj.contains_key(root) && adj[root].contains(
        (#[trigger] ns[i]).id@,
    ) && ns[i].depth == 1 by {
        assert(node_ids(ns)[i] != node_ids(ns)[0]);
        assert(ns[i].id@ != root);
        assert(reaches(adj, root, ns[i].id@, ns[i].depth as nat));
        assert(ns[i].depth == 1);
        let u = choose|u: Seq<char>|
            #![trigger adj.contains_key(u), adj[u].contains(ns[i].id@)]
            adj.contains_key(u) && adj[u].contains(ns[i].id@) && reaches(adj, root, u, 0);
        assert(u == root);
    }
    if adj.contains_key(root) {
        assert forall|t: Seq<char>| #[trigger] adj[root].contains(t) implies node_ids(ns).contains(t) by {
            assert(reaches(adj, root, root, 0));
            assert(adj.contains_key(root) && adj[root].contains(t));
            assert(reaches(adj, root, t, 1));
        }
    }
}


/// A package installed in the requiring package's own node_modules is used, whatever is
/// hoisted above it.
pub proof fn law_own_node_modules_first(
    parent: Seq<char>,
    dep: Seq<char>,
    resolved: Map<Seq<char>, Seq<char>>,
)
    requires
        resolved.contains_key(nested_path(parent, dep)),
    ensures
        first_found(lookup_paths(parent, dep), resolved) == Some(resolved[nested_path(parent, dep)]),
{
    assert(lookup_paths(parent, dep)[0] == nested_path(parent, dep));
}

/// A dependency resolves to the id installed at the first of its lookup paths that holds a
/// package, and to nothing when none does.
pub proof fn law_nearest_install_wins(paths: Seq<Seq<char>>, resolved: Map<Seq<char>, Seq<char>>)
    ensures
        first_found(paths, resolved) is None <==> forall|i: int|
            0 <= i < paths.len() ==> !resolved.contains_key(#[trigger] paths[i]),
        first_found(paths, resolved) matches Some(t) ==> exists|i: int|
            0 <= i < paths.len() && resolved.contains_key(#[trigger] paths[i]) && t == resolved[paths[i]]
                && forall|j: int| 0 <= j < i ==> !resolved.contains_key(#[trigger] paths[j]),
    decreases paths.len(),
{
    if paths.len() > 0 {
        let rest = paths.drop_first();
        law_nearest_install_wins(rest, resolved);
        if !resolved.contains_key(paths[0]) {
            if first_found(rest, resolved) is None {
                assert forall|i: int| 0 <= i < paths.len() implies !resolved.contains_key(
                    #[trigger] paths[i],
                ) by {
                    if i > 0 {
                        assert(paths[i] == rest[i - 1]);
                    }
                }
            } else {
                let t = first_found(rest, resolved)->0;
                let i = choose|i: int|
                    0 <= i < rest.len() && resolved.contains_key(#[trigger] rest[i]) && t
                        == resolved[rest[i]] && forall|j: int|
                        0 <= j < i ==> !resolved.contains_key(#[trigger] rest[j]);
                assert(paths[i + 1] == rest[i]);
                assert forall|j: int| 0 <= j < i + 1 implies !resolved.contains_key(
                    #[trigger] paths[j],
                ) by {
                    if j > 0 {
                        assert(paths[j] == rest[j - 1]);
                    }
                }
                assert(resolved.contains_key(paths[i + 1]));
            }
        } else {
            assert(resolved.contains_key(paths[0]));
        }
    }
}

/// Every id in a Poetry package's list comes from a dependency that is not Python, looked up
/// by its lowercased name.
pub proof fn law_python_never_linked(deps: Seq<Seq<char>>, by_name: Map<Seq<char>, Seq<char>>)
    ensures
        forall|t: int|
            0 <= t < poetry_targets(deps, by_name).len() ==> exists|d: int|
                0 <= d < deps.len() && !is_python(#[trigger] deps[d]) && by_name.contains_key(
                    lowercase(deps[d]),
                ) && by_name[lowercase(deps[d])] == #[trigger] poetry_targets(deps, by_name)[t],
    decreases deps.len(),
{
    if deps.len() > 0 {
        let prev = deps.drop_last();
        lemma_lowered_last(deps);
        law_python_never_linked(prev, by_name);
        let ts = poetry_targets(deps, by_name);
        let pts = poetry_targets(prev, by_name);
        assert forall|t: int| 0 <= t < ts.len() implies exists|d: int|
            0 <= d < deps.len() && !is_python(#[trigger] deps[d]) && by_name.contains_key(
                lowercase(deps[d]),
            ) && by_name[lowercase(deps[d])] == #[trigger] ts[t] by {
            if t < pts.len() {
                assert(ts[t] == pts[t]);
                let d = choose|d: int|
                    0 <= d < prev.len() && !is_python(#[trigger] prev[d]) && by_name.contains_key(
                        lowercase(prev[d]),
                    ) && by_name[lowercase(prev[d])] == pts[t];
                assert(deps[d] == prev[d]);
            } else {
                assert(deps[deps.len() - 1] == deps.last());
            }
        }
    }
}

/// A dependency named Python, in any case, adds nothing to a Poetry package's list.
pub proof fn law_python_adds_nothing(
    deps: Seq<Seq<char>>,
    python: Seq<char>,
    by_name: Map<Seq<char>, Seq<char>>,
)
    requires
        is_python(python),
    ensures
        poetry_targets(deps.push(python), by_name) == poetry_targets(deps, by_name),
{
    assert(deps.push(python).drop_last() =~= deps);
    lemma_lowered_last(deps.push(python));
}

/// Lowercasing a list of names lowercases its last name and the names before it.
proof fn lemma_lowered_last(deps: Seq<Seq<char>>)
    requires
        deps.len() > 0,
    ensures
        lowered(deps).len() == deps.len(),
        lowered(deps).drop_last() == lowered(deps.drop_last()),
        lowered(deps).last() == lowercase(deps.last()),
{
    assert(lowered(deps).drop_last() =~= lowered(deps.drop_last()));
}

/// `entry` is the (version, id) pair of some package called `name`.
spec fn named_entry(pkgs: Seq<LockPackage>, name: Seq<char>, entry: (Seq<char>, Seq<char>)) -> bool {
    exists|p: int|
        0 <= p < pkgs.len() && (#[trigger] pkgs[p]).name@ == name && (pkgs[p].version@, pkg_key(
            pkgs[p],
        )) == entry
}

proof fn lemma_versions_named_facts(pkgs: Seq<LockPackage>, name: Seq<char>)
    ensures
        forall|j: int|
            0 <= j < versions_named(pkgs, name).len() ==> named_entry(
                pkgs,
                name,
                #[trigger] versions_named(pkgs, name)[j],
            ),
    decreases pkgs.len(),
{
    if pkgs.len() > 0 {
        let prev = pkgs.drop_last();
        lemma_versions_named_facts(prev, name);
        let vs = versions_named(pkgs, name);
        let pvs = versions_named(prev, name);
        assert forall|j: int| 0 <= j < vs.len() implies named_entry(pkgs, name, #[trigger] vs[j]) by {
            if j < pvs.len() {
                assert(vs[j] == pvs[j]);
                assert(named_entry(prev, name, pvs[j]));
                let p = choose|p: int|
                    0 <= p < prev.len() && (#[trigger] prev[p]).name@ == name && (prev[p].version@,
                    pkg_key(prev[p])) == pvs[j];
                assert(pkgs[p] == prev[p]);
            } else {
                let p = pkgs.len() - 1;
                assert(pkgs[p] == pkgs.last());
                assert(pkgs.last().name@ == name);
                assert(vs == pvs.push((pkgs.last().version@, pkg_key(pkgs.last()))));
                assert(vs[j] == (pkgs[p].version@, pkg_key(pkgs[p])));
            }
        }
    }
}

proof fn lemma_first_with_version(vs: Seq<(Seq<char>, Seq<char>)>, v: Seq<char>)
    ensures
        first_with_version(vs, v) matches Some(id) ==> exists|j: int|
            0 <= j < vs.len() && #[trigger] vs[j] == (v, id),
    decreases vs.len(),
{
    if vs.len() > 0 && vs[0].0 != v {
        lemma_first_with_version(vs.drop_first(), v);
        if first_with_version(vs, v) is Some {
            let id = first_with_version(vs, v)->0;
            let j = choose|j: int| 0 <= j < vs.drop_first().len() && #[trigger] vs.drop_first()[j] == (v, id);
            assert(vs[j + 1] == (v, id));
        }
    } else if vs.len() > 0 {
        assert(vs[0] == (v, vs[0].1));
    }
}

/// A Cargo.lock dependency entry resolves only to a package of the name it gives, and, when
/// it gives a version, of that version.
pub proof fn law_cargo_dep_names_its_package(pkgs: Seq<LockPackage>, dep: Seq<char>)
    ensures
        resolve_with(name_index(pkgs), dep) matches Some(id) ==> exists|p: int|
            0 <= p < pkgs.len() && pkg_key(#[trigger] pkgs[p]) == id && pkgs[p].name@ == before_first(
                dep,
                ' ',
            ),
{
    let name = before_first(dep, ' ');
    lemma_versions_named_facts(pkgs, name);
    let vs = versions_named(pkgs, name);
    if resolve_with(name_index(pkgs), dep) is Some {
        let id = resolve_with(name_index(pkgs), dep)->0;
        assert(name_index(pkgs).contains_key(name));
        assert(name_index(pkgs)[name] == vs);
        if dep.contains(' ') {
            let v = before_first(crate::text::after_first(dep, ' '), ' ');
            lemma_first_with_version(vs, v);
            let j = choose|j: int| 0 <= j < vs.len() && #[trigger] vs[j] == (v, id);
            assert(named_entry(pkgs, name, vs[j]));
            let p = choose|p: int|
                0 <= p < pkgs.len() && (#[trigger] pkgs[p]).name@ == name && (pkgs[p].version@,
                pkg_key(pkgs[p])) == vs[j];
            assert(pkg_key(pkgs[p]) == id);
        } else {
            assert(vs.len() > 0);
            assert(named_entry(pkgs, name, vs[0]));
            let p = choose|p: int|
                0 <= p < pkgs.len() && (#[trigger] pkgs[p]).name@ == name && (pkgs[p].version@,
                pkg_key(pkgs[p])) == vs[0];
            assert(pkg_key(pkgs[p]) == id);
        }
    }
}


proof fn lemma_go_links_contains(lines: Seq<Seq<char>>, i: int)
    requires
        0 <= i < lines.len(),
        words(lines[i]).len() == 2,
    ensures
        go_links(lines).contains((go_id(words(lines[i])[0]), go_id(words(lines[i])[1]))),
    decreases lines.len(),
{
    let link = (go_id(words(lines[i])[0]), go_id(words(lines[i])[1]));
    let prev = go_links(lines.drop_last());
    if i == lines.len() - 1 {
        assert(lines.last() == lines[i]);
        assert(go_links(lines) == prev.push(link));
        assert(go_links(lines)[prev.len() as int] == link);
    } else {
        assert(lines.drop_last()[i] == lines[i]);
        lemma_go_links_contains(lines.drop_last(), i);
        let j = choose|j: int| 0 <= j < prev.len() && prev[j] == link;
        let w = words(lines.last());
        if w.len() == 2 {
            assert(go_links(lines) == prev.push((go_id(w[0]), go_id(w[1]))));
            assert(go_links(lines)[j] == link);
        }
    }
}

proof fn lemma_add_links_contains(
    m: Map<Seq<char>, Seq<Seq<char>>>,
    links: Seq<(Seq<char>, Seq<char>)>,
    j: int,
)
    requires
        0 <= j < links.len(),
    ensures
        add_links(m, links).contains_key(links[j].0),
        add_links(m, links)[links[j].0].contains(links[j].1),
    decreases links.len(),
{
    let prev = add_links(m, links.drop_last());
    let (s, t) = links.last();
    let list = (if prev.contains_key(s) {
        prev[s]
    } else {
        seq![]
    }).push(t);
    assert(add_links(m, links) == prev.insert(s, list));
    if j == links.len() - 1 {
        assert(list[list.len() - 1] == t);
    } else {
        assert(links.drop_last()[j] == links[j]);
        lemma_add_links_contains(m, links.drop_last(), j);
        if links[j].0 == s {
            let q = choose|q: int| 0 <= q < prev[s].len() && prev[s][q] == links[j].1;
            assert(list[q] == links[j].1);
        }
    }
}

/// Every line of `go mod graph` output that holds exactly two words, `source target`,
/// becomes a link from the source module's id to the target's.
pub proof fn law_go_line_is_link(content: Seq<char>, root_mod: Seq<char>, i: int)
    requires
        0 <= i < pieces(content, '\n').len(),
        words(pieces(content, '\n')[i]).len() == 2,
    ensures
        ({
            let w = words(pieces(content, '\n')[i]);
            let adj = go_adjacency(content, root_mod);
            adj.contains_key(go_id(w[0])) && adj[go_id(w[0])].contains(go_id(w[1]))
        }),
{
    let lines = pieces(content, '\n');
    let w = words(lines[i]);
    let links = go_links(lines);
    lemma_go_links_contains(lines, i);
    let j = choose|j: int| 0 <= j < links.len() && links[j] == (go_id(w[0]), go_id(w[1]));
    lemma_add_links_contains(Map::empty(), links, j);
}


/// `discover` keeps `seen` as its prefix.
proof fn lemma_discover_prefix(seen: Seq<Seq<char>>, targets: Seq<Seq<char>>)
    ensures
        discover(seen, targets).len() >= seen.len(),
        discover(seen, targets).take(seen.len() as int) == seen,
    decreases targets.len(),
{
    if targets.len() > 0 {
        lemma_discover_prefix(seen, targets.drop_last());
        let prev = discover(seen, targets.drop_last());
        if !prev.contains(targets.last()) {
            assert(prev.push(targets.last()).take(seen.len() as int) =~= prev.take(seen.len() as int));
        }
    }
}

/// Discovering along `a + b` is discovering along `a`, then along `b`.
proof fn lemma_discover_append(seen: Seq<Seq<char>>, a: Seq<Seq<char>>, b: Seq<Seq<char>>)
    ensures
        discover(seen, a + b) == discover(discover(seen, a), b),
    decreases b.len(),
{
    if b.len() == 0 {
        assert(a + b =~= a);
    } else {
        lemma_discover_append(seen, a, b.drop_last());
        assert((a + b).drop_last() =~= a + b.drop_last());
        assert((a + b).last() == b.last());
    }
}

/// The links of the first `j` levels come first among the links of all levels.
proof fn lemma_edges_of_prefix(
    adj: Map<Seq<char>, Seq<Seq<char>>>,
    levels: Seq<(Seq<char>, int)>,
    max_depth: Option<usize>,
    j: int,
)
    requires
        0 <= j <= levels.len(),
    ensures
        exists|rest: Seq<(Seq<char>, Seq<char>)>|
            edges_of(adj, levels, max_depth) == edges_of(adj, levels.take(j), max_depth) + rest,
    decreases levels.len(),
{
    if j == levels.len() {
        assert(levels.take(j) =~= levels);
        assert(edges_of(adj, levels, max_depth) =~= edges_of(adj, levels.take(j), max_depth)
            + Seq::<(Seq<char>, Seq<char>)>::empty());
    } else {
        let prev = levels.drop_last();
        assert(prev.take(j) =~= levels.take(j));
        lemma_edges_of_prefix(adj, prev, max_depth, j);
        let rest = choose|rest: Seq<(Seq<char>, Seq<char>)>|
            edges_of(adj, prev, max_depth) == edges_of(adj, prev.take(j), max_depth) + rest;
        let last = levels.last();
        let oe = out_edges(adj, last.0, last.1, max_depth);
        assert(edges_of(adj, levels, max_depth) =~= edges_of(adj, levels.take(j), max_depth) + (
        rest + oe));
    }
}

/// The links out of level `p` are among the links of any longer prefix of levels.
proof fn lemma_edges_of_contains_out(
    adj: Map<Seq<char>, Seq<Seq<char>>>,
    levels: Seq<(Seq<char>, int)>,
    max_depth: Option<usize>,
    p: int,
    t: Seq<char>,
)
    requires
        0 <= p < levels.len(),
        may_expand(levels[p].1, max_depth),
        adj.contains_key(levels[p].0),
        adj[levels[p].0].contains(t),
    ensures
        edges_of(adj, levels, max_depth).map_values(|e: (Seq<char>, Seq<char>)| e.1).contains(t),
    decreases levels.len(),
{
    let es = edges_of(adj, levels, max_depth);
    let prev = levels.drop_last();
    let pe = edges_of(adj, prev, max_depth);
    let last = levels.last();
    let oe = out_edges(adj, last.0, last.1, max_depth);
    assert(es == pe + oe);
    if p == levels.len() - 1 {
        let q = choose|q: int| 0 <= q < adj[last.0].len() && adj[last.0][q] == t;
        assert(oe[q] == (last.0, t));
        assert(es[pe.len() + q] == (last.0, t));
        assert(es.map_values(|e: (Seq<char>, Seq<char>)| e.1)[pe.len() + q] == t);
    } else {
        assert(prev[p] == levels[p]);
        lemma_edges_of_contains_out(adj, prev, max_depth, p, t);
        let pt = pe.map_values(|e: (Seq<char>, Seq<char>)| e.1);
        let q = choose|q: int| 0 <= q < pt.len() && pt[q] == t;
        assert(es[q] == pe[q]);
        assert(es.map_values(|e: (Seq<char>, Seq<char>)| e.1)[q] == t);
    }
}

/// Two nodes of traversals from the same root over the same links, for the same id, have
/// the same depth: the shortest distance.
proof fn lemma_same_depth(
    adj: Map<Seq<char>, Seq<Seq<char>>>,
    root: Seq<char>,
    v: Seq<char>,
    d1: nat,
    d2: nat,
)
    requires
        reaches(adj, root, v, d1),
        d1 > 0 ==> !reaches(adj, root, v, (d1 - 1) as nat),
        reaches(adj, root, v, d2),
        d2 > 0 ==> !reaches(adj, root, v, (d2 - 1) as nat),
    ensures
        d1 == d2,
{
    if d1 < d2 {
        lemma_reaches_monotone(adj, root, v, d1, (d2 - 1) as nat);
    }
    if d2 < d1 {
        lemma_reaches_monotone(adj, root, v, d2, (d1 - 1) as nat);
    }
}

/// In a traversal, every node but the root is reached by a link out of an earlier node.
proof fn lemma_discovered_by_earlier(
    g: DependencyGraph,
    adj: Map<Seq<char>, Seq<Seq<char>>>,
    root: Seq<char>,
    max_depth: Option<usize>,
    ecosystem: Seq<char>,
    j: int,
)
    requires
        is_bfs_of(g, adj, root, max_depth, ecosystem),
        1 <= j < g.nodes@.len(),
    ensures
        discover(
            seq![root],
            edges_of(adj, node_levels(g.nodes@).take(j), max_depth).map_values(
                |e: (Seq<char>, Seq<char>)| e.1,
            ),
        ).contains(g.nodes@[j].id@),
{
    let ns = g.nodes@;
    let levels = node_levels(ns);
    let v = ns[j].id@;
    let d = ns[j].depth as nat;
    assert(node_ids(ns)[j] != node_ids(ns)[0]);
    assert(v != root);
    assert(reaches(adj, root, v, d));
    assert(d > 0);
    let u = choose|u: Seq<char>|
        #![trigger adj.contains_key(u), adj[u].contains(v)]
        adj.contains_key(u) && adj[u].contains(v) && reaches(adj, root, u, (d - 1) as nat);
    assert(within_depth(d - 1, max_depth));
    assert(node_ids(ns).contains(u));
    let p = choose|p: int| 0 <= p < ns.len() && node_ids(ns)[p] == u;
    assert(ns[p].id@ == u);
    let dp = ns[p].depth as nat;
    if dp > d - 1 {
        lemma_reaches_monotone(adj, root, u, (d - 1) as nat, (dp - 1) as nat);
    }
    assert(dp <= d - 1);
    if p >= j {
        assert(ns[j].depth <= ns[p].depth);
    }
    assert(p < j);
    let pre = levels.take(j);
    assert(pre[p] == (u, dp as int));
    lemma_edges_of_contains_out(adj, pre, max_depth, p, v);
    let ts = edges_of(adj, pre, max_depth).map_values(|e: (Seq<char>, Seq<char>)| e.1);
    lemma_discover_contains(seq![root], ts);
    let q = choose|q: int| 0 <= q < ts.len() && ts[q] == v;
    assert(discover(seq![root], ts).contains(ts[q]));
}


/// Nodes of two traversals that carry the same id carry the same depth.
proof fn lemma_levels_agree(
    g1: DependencyGraph,
    g2: DependencyGraph,
    adj: Map<Seq<char>, Seq<Seq<char>>>,
    root: Seq<char>,
    max_depth: Option<usize>,
    ecosystem: Seq<char>,
    i: int,
    j: int,
)
    requires
        is_bfs_of(g1, adj, root, max_depth, ecosystem),
        is_bfs_of(g2, adj, root, max_depth, ecosystem),
        0 <= i < g1.nodes@.len(),
        0 <= j < g2.nodes@.len(),
        g1.nodes@[i].id@ == g2.nodes@[j].id@,
    ensures
        g1.nodes@[i].depth == g2.nodes@[j].depth,
{
    lemma_same_depth(
        adj,
        root,
        g1.nodes@[i].id@,
        g1.nodes@[i].depth as nat,
        g2.nodes@[j].depth as nat,
    );
}

proof fn lemma_prefix_agree(
    g1: DependencyGraph,
    g2: DependencyGraph,
    adj: Map<Seq<char>, Seq<Seq<char>>>,
    root: Seq<char>,
    max_depth: Option<usize>,
    ecosystem: Seq<char>,
    k: int,
)
    requires
        is_bfs_of(g1, adj, root, max_depth, ecosystem),
        is_bfs_of(g2, adj, root, max_depth, ecosystem),
        g1.nodes@.len() == g2.nodes@.len(),
        0 <= k <= g1.nodes@.len(),
    ensures
        node_ids(g1.nodes@).take(k) == node_ids(g2.nodes@).take(k),
    decreases k,
{
    let ids1 = node_ids(g1.nodes@);
    let ids2 = node_ids(g2.nodes@);
    if k == 0 {
        assert(ids1.take(0) =~= ids2.take(0));
    } else {
        lemma_prefix_agree(g1, g2, adj, root, max_depth, ecosystem, k - 1);
        let j = k - 1;
        if j == 0 {
            assert(ids1.take(1) =~= ids2.take(1));
        } else {
            let l1 = node_levels(g1.nodes@);
            let l2 = node_levels(g2.nodes@);
            assert forall|i: int| 0 <= i < j implies l1.take(j)[i] == l2.take(j)[i] by {
                assert(ids1.take(j)[i] == ids2.take(j)[i]);
                lemma_levels_agree(g1, g2, adj, root, max_depth, ecosystem, i, i);
            }
            assert(l1.take(j) =~= l2.take(j));
            let ej = edges_of(adj, l1.take(j), max_depth);
            let tj = ej.map_values(|e: (Seq<char>, Seq<char>)| e.1);
            let d = discover(seq![root], tj);
            lemma_discover_prefix(seq![root], tj);
            // The same prefix of discoveries starts both node lists.
            lemma_edges_of_prefix(adj, l1, max_depth, j);
            let r1 = choose|rest: Seq<(Seq<char>, Seq<char>)>|
                edges_of(adj, l1, max_depth) == edges_of(adj, l1.take(j), max_depth) + rest;
            lemma_edges_of_prefix(adj, l2, max_depth, j);
            let r2 = choose|rest: Seq<(Seq<char>, Seq<char>)>|
                edges_of(adj, l2, max_depth) == edges_of(adj, l2.take(j), max_depth) + rest;
            let rt1 = r1.map_values(|e: (Seq<char>, Seq<char>)| e.1);
            let rt2 = r2.map_values(|e: (Seq<char>, Seq<char>)| e.1);
            assert(edge_targets(g1.edges@) =~= tj + rt1) by {
                assert(edge_targets(g1.edges@) =~= edge_pairs(g1.edges@).map_values(
                    |e: (Seq<char>, Seq<char>)| e.1,
                ));
            }
            assert(edge_targets(g2.edges@) =~= tj + rt2) by {
                assert(edge_targets(g2.edges@) =~= edge_pairs(g2.edges@).map_values(
                    |e: (Seq<char>, Seq<char>)| e.1,
                ));
            }
            lemma_discover_append(seq![root], tj, rt1);
            lemma_discover_append(seq![root], tj, rt2);
            lemma_discover_prefix(d, rt1);
            lemma_discover_prefix(d, rt2);
            assert(ids1.take(d.len() as int) == d);
            assert(ids2.take(d.len() as int) == d);
            // The `j`-th node is found by an earlier one, so it lies in that common prefix.
            lemma_discovered_by_earlier(g1, adj, root, max_depth, ecosystem, j);
            let q = choose|q: int| 0 <= q < d.len() && d[q] == g1.nodes@[j].id@;
            assert(ids1.take(d.len() as int)[q] == ids1[q]);
            assert(ids1[q] == ids1[j]);
            assert(q == j);
            assert(ids2.take(d.len() as int)[j] == ids2[j]);
            assert(ids1[j] == ids2[j]);
            assert(ids1.take(k) =~= ids2.take(k)) by {
                assert forall|i: int| 0 <= i < k implies ids1.take(k)[i] == ids2.take(k)[i] by {
                    if i < j {
                        assert(ids1.take(j)[i] == ids2.take(j)[i]);
                    }
                }
            }
        }
    }
}

proof fn lemma_names_unique(id: Seq<char>, a1: Seq<char>, b1: Seq<char>, a2: Seq<char>, b2: Seq<char>)
    requires
        names_of(id, a1, b1),
        names_of(id, a2, b2),
    ensures
        a1 == a2,
        b1 == b2,
{
    if id.contains(' ') {
        lemma_split_parts(id, ' ', a1, b1);
        lemma_split_parts(id, ' ', a2, b2);
    }
}

/// The traversal is determined by the links, the root and the limit: two graphs that both
/// meet its description have the same nodes, in the same order, and the same edges.
pub proof fn law_traversal_is_determined(
    g1: DependencyGraph,
    g2: DependencyGraph,
    adj: Map<Seq<char>, Seq<Seq<char>>>,
    root: Seq<char>,
    max_depth: Option<usize>,
    ecosystem: Seq<char>,
)
    requires
        is_bfs_of(g1, adj, root, max_depth, ecosystem),
        is_bfs_of(g2, adj, root, max_depth, ecosystem),
    ensures
        node_levels(g1.nodes@) == node_levels(g2.nodes@),
        forall|i: int|
            0 <= i < g1.nodes@.len() ==> {
                &&& (#[trigger] g1.nodes@[i]).label@ == g2.nodes@[i].label@
                &&& g1.nodes@[i].version@ == g2.nodes@[i].version@
                &&& g1.nodes@[i].is_root == g2.nodes@[i].is_root
            },
        edge_pairs(g1.edges@) == edge_pairs(g2.edges@),
{
    let ids1 = node_ids(g1.nodes@);
    let ids2 = node_ids(g2.nodes@);
    assert forall|v: Seq<char>| ids1.to_set().contains(v) implies ids2.to_set().contains(v) by {
        let i = choose|i: int| 0 <= i < ids1.len() && ids1[i] == v;
        assert(g1.nodes@[i].id@ == v);
        assert(reaches(adj, root, v, g1.nodes@[i].depth as nat));
        assert(ids2.contains(v));
    }
    assert forall|v: Seq<char>| ids2.to_set().contains(v) implies ids1.to_set().contains(v) by {
        let i = choose|i: int| 0 <= i < ids2.len() && ids2[i] == v;
        assert(g2.nodes@[i].id@ == v);
        assert(reaches(adj, root, v, g2.nodes@[i].depth as nat));
        assert(ids1.contains(v));
    }
    assert(ids1.to_set() =~= ids2.to_set());
    ids1.unique_seq_to_set();
    ids2.unique_seq_to_set();
    let n = ids1.len();
    lemma_prefix_agree(g1, g2, adj, root, max_depth, ecosystem, n as int);
    assert(ids1.take(n as int) =~= ids1);
    assert(ids2.take(n as int) =~= ids2);
    assert forall|i: int| 0 <= i < n implies node_levels(g1.nodes@)[i] == node_levels(g2.nodes@)[i]
        && (#[trigger] g1.nodes@[i]).label@ == g2.nodes@[i].label@ && g1.nodes@[i].version@
        == g2.nodes@[i].version@ && g1.nodes@[i].is_root == g2.nodes@[i].is_root by {
        assert(ids1[i] == ids2[i]);
        lemma_levels_agree(g1, g2, adj, root, max_depth, ecosystem, i, i);
        lemma_names_unique(
            g1.nodes@[i].id@,
            g1.nodes@[i].label@,
            g1.nodes@[i].version@,
            g2.nodes@[i].label@,
            g2.nodes@[i].version@,
        );
    }
    assert(node_levels(g1.nodes@) =~= node_levels(g2.nodes@));
}


/// Below the limit `m`, a limit of `m` follows the same links as any limit at least `m`.
proof fn lemma_edges_below_limit(
    adj: Map<Seq<char>, Seq<Seq<char>>>,
    levels: Seq<(Seq<char>, int)>,
    m: usize,
    max2: Option<usize>,
)
    requires
        within_depth(m as int, max2),
        forall|i: int| 0 <= i < levels.len() ==> #[trigger] levels[i].1 < m,
    ensures
        edges_of(adj, levels, Some(m)) == edges_of(adj, levels, max2),
    decreases levels.len(),
{
    if levels.len() > 0 {
        let prev = levels.drop_last();
        assert forall|i: int| 0 <= i < prev.len() implies #[trigger] prev[i].1 < m by {
            assert(prev[i] == levels[i]);
        }
        lemma_edges_below_limit(adj, prev, m, max2);
        assert(levels[levels.len() - 1].1 < m);
        assert(may_expand(levels.last().1, Some(m)));
        assert(may_expand(levels.last().1, max2));
    }
}

/// `pair` leaves one of the `levels` at depth `m` or deeper.
spec fn deep_source(levels: Seq<(Seq<char>, int)>, m: int, pair: (Seq<char>, Seq<char>)) -> bool {
    exists|i: int| 0 <= i < levels.len() && #[trigger] levels[i].0 == pair.0 && levels[i].1 >= m
}

/// Over levels of nondecreasing depth, the links followed under limit `m` come first among
/// those followed under any limit at least `m`; the others leave levels at depth `m` or deeper.
proof fn lemma_edges_limit_prefix(
    adj: Map<Seq<char>, Seq<Seq<char>>>,
    levels: Seq<(Seq<char>, int)>,
    m: usize,
    max2: Option<usize>,
) -> (rest: Seq<(Seq<char>, Seq<char>)>)
    requires
        within_depth(m as int, max2),
        forall|i: int, j: int| 0 <= i <= j < levels.len() ==> levels[i].1 <= levels[j].1,
    ensures
        edges_of(adj, levels, max2) == edges_of(adj, levels, Some(m)) + rest,
        forall|e: int| 0 <= e < rest.len() ==> deep_source(levels, m as int, #[trigger] rest[e]),
    decreases levels.len(),
{
    if levels.len() == 0 {
        let rest = Seq::<(Seq<char>, Seq<char>)>::empty();
        assert(edges_of(adj, levels, max2) =~= edges_of(adj, levels, Some(m)) + rest);
        rest
    } else {
        let prev = levels.drop_last();
        let last = levels.last();
        assert forall|i: int, j: int| 0 <= i <= j < prev.len() implies prev[i].1 <= prev[j].1 by {
            assert(prev[i] == levels[i]);
            assert(prev[j] == levels[j]);
        }
        if last.1 < m {
            assert forall|i: int| 0 <= i < levels.len() implies #[trigger] levels[i].1 < m by {
                assert(levels[i].1 <= levels[levels.len() - 1].1);
            }
            lemma_edges_below_limit(adj, levels, m, max2);
            let rest = Seq::<(Seq<char>, Seq<char>)>::empty();
            assert(edges_of(adj, levels, max2) =~= edges_of(adj, levels, Some(m)) + rest);
            rest
        } else {
            let r0 = lemma_edges_limit_prefix(adj, prev, m, max2);
            let oe = out_edges(adj, last.0, last.1, max2);
            let rest = r0 + oe;
            assert(!may_expand(last.1, Some(m)));
            assert(edges_of(adj, levels, Some(m)) =~= edges_of(adj, prev, Some(m)));
            assert(edges_of(adj, levels, max2) =~= edges_of(adj, levels, Some(m)) + rest);
            assert forall|e: int| 0 <= e < rest.len() implies deep_source(
                levels,
                m as int,
                #[trigger] rest[e],
            ) by {
                if e < r0.len() {
                    assert(rest[e] == r0[e]);
                    assert(deep_source(prev, m as int, r0[e]));
                    let i = choose|i: int|
                        0 <= i < prev.len() && #[trigger] prev[i].0 == r0[e].0 && prev[i].1 >= m;
                    assert(levels[i] == prev[i]);
                } else {
                    let q = e - r0.len();
                    assert(rest[e] == oe[q]);
                    assert(oe[q].0 == last.0);
                    assert(levels[levels.len() - 1].0 == rest[e].0);
                }
            }
            rest
        }
    }
}

/// Levels past `k` whose dependencies are not followed add no links.
proof fn lemma_edges_of_shallow_prefix(
    adj: Map<Seq<char>, Seq<Seq<char>>>,
    levels: Seq<(Seq<char>, int)>,
    max_depth: Option<usize>,
    k: int,
)
    requires
        0 <= k <= levels.len(),
        forall|i: int| k <= i < levels.len() ==> !may_expand(#[trigger] levels[i].1, max_depth),
    ensures
        edges_of(adj, levels, max_depth) == edges_of(adj, levels.take(k), max_depth),
    decreases levels.len(),
{
    if levels.len() == k {
        assert(levels.take(k) =~= levels);
    } else {
        let prev = levels.drop_last();
        assert forall|i: int| k <= i < prev.len() implies !may_expand(
            #[trigger] prev[i].1,
            max_depth,
        ) by {
            assert(prev[i] == levels[i]);
        }
        lemma_edges_of_shallow_prefix(adj, prev, max_depth, k);
        assert(prev.take(k) =~= levels.take(k));
        assert(!may_expand(levels[levels.len() - 1].1, max_depth));
        assert(edges_of(adj, levels, max_depth) =~= edges_of(adj, prev, max_depth));
    }
}

/// The first `k` nodes of a traversal under limit `m` are the first `k` nodes of a traversal
/// under any limit at least `m`.
proof fn lemma_limited_prefix(
    gm: DependencyGraph,
    gn: DependencyGraph,
    adj: Map<Seq<char>, Seq<Seq<char>>>,
    root: Seq<char>,
    m: usize,
    max2: Option<usize>,
    ecosystem: Seq<char>,
    k: int,
)
    requires
        is_bfs_of(gm, adj, root, Some(m), ecosystem),
        is_bfs_of(gn, adj, root, max2, ecosystem),
        within_depth(m as int, max2),
        gm.nodes@.len() <= gn.nodes@.len(),
        0 <= k <= gm.nodes@.len(),
    ensures
        node_ids(gm.nodes@).take(k) == node_ids(gn.nodes@).take(k),
    decreases k,
{
    let ids1 = node_ids(gm.nodes@);
    let ids2 = node_ids(gn.nodes@);
    if k == 0 {
        assert(ids1.take(0) =~= ids2.take(0));
    } else {
        lemma_limited_prefix(gm, gn, adj, root, m, max2, ecosystem, k - 1);
        let j = k - 1;
        if j == 0 {
            assert(ids1.take(1) =~= ids2.take(1));
        } else {
            let l1 = node_levels(gm.nodes@);
            let l2 = node_levels(gn.nodes@);
            assert forall|i: int| 0 <= i < j implies l1.take(j)[i] == l2.take(j)[i] by {
                assert(ids1.take(j)[i] == ids2.take(j)[i]);
                lemma_same_depth(
                    adj,
                    root,
                    gm.nodes@[i].id@,
                    gm.nodes@[i].depth as nat,
                    gn.nodes@[i].depth as nat,
                );
            }
            let p = l1.take(j);
            assert(p =~= l2.take(j));
            assert forall|a: int, b: int| 0 <= a <= b < p.len() implies p[a].1 <= p[b].1 by {
                assert(p[a] == l2[a]);
                assert(p[b] == l2[b]);
                assert(gn.nodes@[a].depth <= gn.nodes@[b].depth);
            }
            let em = edges_of(adj, p, Some(m));
            let more = lemma_edges_limit_prefix(adj, p, m, max2);
            let tj = em.map_values(|e: (Seq<char>, Seq<char>)| e.1);
            let d = discover(seq![root], tj);
            lemma_discover_prefix(seq![root], tj);
            lemma_edges_of_prefix(adj, l1, Some(m), j);
            let r1 = choose|rest: Seq<(Seq<char>, Seq<char>)>|
                edges_of(adj, l1, Some(m)) == edges_of(adj, l1.take(j), Some(m)) + rest;
            lemma_edges_of_prefix(adj, l2, max2, j);
            let r2 = choose|rest: Seq<(Seq<char>, Seq<char>)>|
                edges_of(adj, l2, max2) == edges_of(adj, l2.take(j), max2) + rest;
            let rt1 = r1.map_values(|e: (Seq<char>, Seq<char>)| e.1);
            let rt2 = (more + r2).map_values(|e: (Seq<char>, Seq<char>)| e.1);
            assert(edge_targets(gm.edges@) =~= tj + rt1) by {
                assert(edge_targets(gm.edges@) =~= edge_pairs(gm.edges@).map_values(
                    |e: (Seq<char>, Seq<char>)| e.1,
                ));
            }
            assert(edge_pairs(gn.edges@) =~= em + (more + r2));
            assert(edge_targets(gn.edges@) =~= tj + rt2) by {
                assert(edge_targets(gn.edges@) =~= edge_pairs(gn.edges@).map_values(
                    |e: (Seq<char>, Seq<char>)| e.1,
                ));
            }
            lemma_discover_append(seq![root], tj, rt1);
            lemma_discover_append(seq![root], tj, rt2);
            lemma_discover_prefix(d, rt1);
            lemma_discover_prefix(d, rt2);
            assert(ids1.take(d.len() as int) == d);
            assert(ids2.take(d.len() as int) == d);
            // The `j`-th node is found by an earlier one, so it lies in that common prefix.
            lemma_discovered_by_earlier(gm, adj, root, Some(m), ecosystem, j);
            let q = choose|q: int| 0 <= q < d.len() && d[q] == gm.nodes@[j].id@;
            assert(ids1.take(d.len() as int)[q] == ids1[q]);
            assert(ids1[q] == ids1[j]);
            assert(q == j);
            assert(ids2.take(d.len() as int)[j] == ids2[j]);
            assert(ids1[j] == ids2[j]);
            assert(ids1.take(k) =~= ids2.take(k)) by {
                assert forall|i: int| 0 <= i < k implies ids1.take(k)[i] == ids2.take(k)[i] by {
                    if i < j {
                        assert(ids1.take(j)[i] == ids2.take(j)[i]);
                    }
                }
            }
        }
    }
}

/// A traversal with depth limit `m` is the start of the traversal with a higher limit, or
/// with none: its nodes are the first nodes of the other, in the same order and at the same
/// depths, and exactly those at depth `m` or less; its edges are the first edges of the other,
/// and exactly those that leave a node above depth `m`.
pub proof fn law_limited_traversal_is_prefix(
    gm: DependencyGraph,
    gn: DependencyGraph,
    adj: Map<Seq<char>, Seq<Seq<char>>>,
    root: Seq<char>,
    m: usize,
    max2: Option<usize>,
    ecosystem: Seq<char>,
)
    requires
        is_bfs_of(gm, adj, root, Some(m), ecosystem),
        is_bfs_of(gn, adj, root, max2, ecosystem),
        within_depth(m as int, max2),
    ensures
        gm.nodes@.len() <= gn.nodes@.len(),
        node_levels(gm.nodes@) == node_levels(gn.nodes@).take(gm.nodes@.len() as int),
        forall|i: int|
            0 <= i < gm.nodes@.len() ==> {
                &&& (#[trigger] gm.nodes@[i]).label@ == gn.nodes@[i].label@
                &&& gm.nodes@[i].version@ == gn.nodes@[i].version@
                &&& gm.nodes@[i].is_root == gn.nodes@[i].is_root
            },
        forall|i: int|
            0 <= i < gn.nodes@.len() ==> (i < gm.nodes@.len() <==> (#[trigger] gn.nodes@[i]).depth
                <= m),
        gm.edges@.len() <= gn.edges@.len(),
        edge_pairs(gm.edges@) == edge_pairs(gn.edges@).take(gm.edges@.len() as int),
        forall|e: int|
            #![trigger gn.edges@[e]]
            0 <= e < gn.edges@.len() ==> (e < gm.edges@.len() <==> exists|i: int|
                0 <= i < gn.nodes@.len() && #[trigger] gn.nodes@[i].id@ == gn.edges@[e].source@
                    && gn.nodes@[i].depth < m),
{
    let ids1 = node_ids(gm.nodes@);
    let ids2 = node_ids(gn.nodes@);
    let n1 = gm.nodes@.len();
    // Every node under limit `m` is a node under the higher limit.
    assert forall|v: Seq<char>| ids1.to_set().contains(v) implies ids2.to_set().contains(v) by {
        let i = choose|i: int| 0 <= i < ids1.len() && ids1[i] == v;
        assert(gm.nodes@[i].id@ == v);
        assert(reaches(adj, root, v, gm.nodes@[i].depth as nat));
        assert(within_depth(gm.nodes@[i].depth as int, max2));
        assert(ids2.contains(v));
    }
    ids1.unique_seq_to_set();
    ids2.unique_seq_to_set();
    vstd::seq_lib::seq_to_set_is_finite(ids2);
    vstd::set_lib::lemma_len_subset(ids1.to_set(), ids2.to_set());
    lemma_limited_prefix(gm, gn, adj, root, m, max2, ecosystem, n1 as int);
    assert(ids1.take(n1 as int) =~= ids1);
    let l1 = node_levels(gm.nodes@);
    let l2 = node_levels(gn.nodes@);
    assert forall|i: int| 0 <= i < n1 implies l1[i] == l2.take(n1 as int)[i] && (
    #[trigger] gm.nodes@[i]).label@ == gn.nodes@[i].label@ && gm.nodes@[i].version@
        == gn.nodes@[i].version@ && gm.nodes@[i].is_root == gn.nodes@[i].is_root by {
        assert(ids1[i] == ids2.take(n1 as int)[i]);
        lemma_same_depth(
            adj,
            root,
            gm.nodes@[i].id@,
            gm.nodes@[i].depth as nat,
            gn.nodes@[i].depth as nat,
        );
        lemma_names_unique(
            gm.nodes@[i].id@,
            gm.nodes@[i].label@,
            gm.nodes@[i].version@,
            gn.nodes@[i].label@,
            gn.nodes@[i].version@,
        );
    }
    assert(l1 =~= l2.take(n1 as int));
    // The nodes under limit `m` are exactly those at depth `m` or less.
    assert forall|i: int| 0 <= i < gn.nodes@.len() implies (i < n1 <==> (
    #[trigger] gn.nodes@[i]).depth <= m) by {
        if i < n1 {
            assert(l1[i] == l2[i]);
            assert(within_depth(gm.nodes@[i].depth as int, Some(m)));
        }
        if gn.nodes@[i].depth <= m {
            let v = gn.nodes@[i].id@;
            assert(reaches(adj, root, v, gn.nodes@[i].depth as nat));
            assert(within_depth(gn.nodes@[i].depth as int, Some(m)));
            assert(ids1.contains(v));
            let p = choose|p: int| 0 <= p < ids1.len() && ids1[p] == v;
            assert(ids2.take(n1 as int)[p] == ids2[p]);
            assert(ids2[p] == ids2[i]);
        }
    }
    // The links under limit `m` come first.
    assert forall|i: int| n1 <= i < l2.len() implies !may_expand(#[trigger] l2[i].1, Some(m)) by {
        assert(!(gn.nodes@[i].depth <= m));
    }
    lemma_edges_of_shallow_prefix(adj, l2, Some(m), n1 as int);
    assert forall|a: int, b: int| 0 <= a <= b < l2.len() implies l2[a].1 <= l2[b].1 by {
        assert(gn.nodes@[a].depth <= gn.nodes@[b].depth);
    }
    let more = lemma_edges_limit_prefix(adj, l2, m, max2);
    let em = edge_pairs(gm.edges@);
    let en = edge_pairs(gn.edges@);
    assert(en == em + more);
    assert(en.take(em.len() as int) =~= em);
    // Which links leave a node above depth `m`.
    lemma_edges_of_sources(adj, l1, Some(m));
    assert forall|e: int|
        #![trigger gn.edges@[e]]
        0 <= e < gn.edges@.len() implies (e < gm.edges@.len() <==> exists|i: int|
        0 <= i < gn.nodes@.len() && #[trigger] gn.nodes@[i].id@ == gn.edges@[e].source@
            && gn.nodes@[i].depth < m) by {
        let src = gn.edges@[e].source@;
        assert(en[e].0 == src);
        if e < gm.edges@.len() {
            assert(en[e] == em[e]);
            assert(from_expandable(adj, l1, Some(m), em[e]));
            let i = choose|i: int|
                0 <= i < l1.len() && #[trigger] l1[i].0 == em[e].0 && may_expand(l1[i].1, Some(m))
                    && adj.contains_key(l1[i].0) && adj[l1[i].0].contains(em[e].1);
            assert(l1[i] == l2[i]);
            assert(gn.nodes@[i].id@ == src);
        } else {
            let q = e - em.len();
            assert(en[e] == more[q]);
            assert(deep_source(l2, m as int, more[q]));
            let i = choose|i: int| 0 <= i < l2.len() && #[trigger] l2[i].0 == more[q].0 && l2[i].1 >= m;
            assert(gn.nodes@[i].id@ == src);
            if exists|i2: int|
                0 <= i2 < gn.nodes@.len() && #[trigger] gn.nodes@[i2].id@ == src && gn.nodes@[i2].depth < m {
                let i2 = choose|i2: int|
                    0 <= i2 < gn.nodes@.len() && #[trigger] gn.nodes@[i2].id@ == src && gn.nodes@[i2].depth < m;
                assert(ids2[i2] == ids2[i]);
            }
        }
    }
}

} // verus!
