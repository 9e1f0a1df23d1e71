use vstd::prelude::*;

use crate::string_map::{str_views, StringMap};
use crate::text::{split_once_char, splits_at_first};

verus! {

/// One package in the graph.
#[derive(Debug)]
pub struct Node {
    pub id: String,
    pub label: String,
    pub version: String,
    pub is_root: bool,
    pub depth: usize,
}

/// A dependency link from `source` to `target`.
#[derive(Debug)]
pub struct Edge {
    pub source: String,
    pub target: String,
}

/// The packages reachable from the root, with the links between them.
#[derive(Debug)]
pub struct DependencyGraph {
    pub root: String,
    pub ecosystem: String,
    pub nodes: Vec<Node>,
    pub edges: Vec<Edge>,
}

/// The adjacency lists as a map from package id to the ids it depends on.
pub open spec fn adjacency_model(adj: &StringMap<Vec<String>>) -> Map<Seq<char>, Seq<Seq<char>>> {
    adj.map().map_values(|v: Vec<String>| str_views(v@))
}

/// A node at `depth` has its dependencies followed.
pub open spec fn may_expand(depth: int, max_depth: Option<usize>) -> bool {
    match max_depth {
        Some(m) => depth < m,
        None => true,
    }
}

/// `depth` does not exceed the limit.
pub open spec fn within_depth(depth: int, max_depth: Option<usize>) -> bool {
    match max_depth {
        Some(m) => depth <= m,
        None => true,
    }
}

/// `v` can be reached from `root` along at most `k` links.
pub open spec fn reaches(
    adj: Map<Seq<char>, Seq<Seq<char>>>,
    root: Seq<char>,
    v: Seq<char>,
    k: nat,
) -> bool
    decreases k,
{
    v == root || (k > 0 && exists|u: Seq<char>|
        #![trigger adj.contains_key(u), adj[u].contains(v)]
        adj.contains_key(u) && adj[u].contains(v) && reaches(adj, root, u, (k - 1) as nat))
}

/// The links that leave a node at `depth`.
pub open spec fn out_edges(
    adj: Map<Seq<char>, Seq<Seq<char>>>,
    id: Seq<char>,
    depth: int,
    max_depth: Option<usize>,
) -> Seq<(Seq<char>, Seq<char>)> {
    if may_expand(depth, max_depth) && adj.contains_key(id) {
        adj[id].map_values(|t: Seq<char>| (id, t))
    } else {
        seq![]
    }
}

/// The links that leave the given (id, depth) nodes, node by node.
pub open spec fn edges_of(
    adj: Map<Seq<char>, Seq<Seq<char>>>,
    nodes: Seq<(Seq<char>, int)>,
    max_depth: Option<usize>,
) -> Seq<(Seq<char>, Seq<char>)>
    decreases nodes.len(),
{
    if nodes.len() == 0 {
        seq![]
    } else {
        edges_of(adj, nodes.drop_last(), max_depth) + out_edges(
            adj,
            nodes.last().0,
            nodes.last().1,
            max_depth,
        )
    }
}

/// `seen` followed by every target the first time it appears and is not yet seen.
pub open spec fn discover(seen: Seq<Seq<char>>, targets: Seq<Seq<char>>) -> Seq<Seq<char>>
    decreases targets.len(),
{
    if targets.len() == 0 {
        seen
    } else {
        let prev = discover(seen, targets.drop_last());
        if prev.contains(targets.last()) {
            prev
        } else {
            prev.push(targets.last())
        }
    }
}

pub open spec fn node_ids(nodes: Seq<Node>) -> Seq<Seq<char>> {
    nodes.map_values(|n: Node| n.id@)
}

pub open spec fn node_levels(nodes: Seq<Node>) -> Seq<(Seq<char>, int)> {
    nodes.map_values(|n: Node| (n.id@, n.depth as int))
}

pub open spec fn edge_pairs(edges: Seq<Edge>) -> Seq<(Seq<char>, Seq<char>)> {
    edges.map_values(|e: Edge| (e.source@, e.target@))
}

pub open spec fn edge_targets(edges: Seq<Edge>) -> Seq<Seq<char>> {
    edges.map_values(|e: Edge| e.target@)
}

/// `label` and `version` are the parts of `id` before and after its first space
/// (the whole id and an empty version when it has none).
pub open spec fn names_of(id: Seq<char>, label: Seq<char>, version: Seq<char>) -> bool {
    if id.contains(' ') {
        splits_at_first(id, ' ', label, version)
    } else {
        label == id && version == Seq::<char>::empty()
    }
}

/// `g` is the breadth-first traversal of `adj` from `root`, following links
/// out of nodes whose depth is below the limit.
pub open spec fn is_bfs_of(
    g: DependencyGraph,
    adj: Map<Seq<char>, Seq<Seq<char>>>,
    root: Seq<char>,
    max_depth: Option<usize>,
    ecosystem: Seq<char>,
) -> bool {
    let nodes = g.nodes@;
    &&& g.root@ == root
    &&& g.ecosystem@ == ecosystem
    &&& nodes.len() >= 1
    &&& nodes[0].id@ == root
    &&& nodes[0].depth == 0
    &&& forall|i: int|
        0 <= i < nodes.len() ==> {
            &&& (#[trigger] nodes[i]).is_root == (nodes[i].id@ == root)
            &&& names_of(nodes[i].id@, nodes[i].label@, nodes[i].version@)
            &&& within_depth(nodes[i].depth as int, max_depth)
            &&& reaches(adj, root, nodes[i].id@, nodes[i].depth as nat)
            &&& nodes[i].depth > 0 ==> !reaches(
                adj,
                root,
                nodes[i].id@,
                (nodes[i].depth - 1) as nat,
            )
        }
    &&& node_ids(nodes).no_duplicates()
    &&& forall|i: int, j: int| 0 <= i <= j < nodes.len() ==> nodes[i].depth <= nodes[j].depth
    &&& forall|v: Seq<char>, k: nat|
        #[trigger] reaches(adj, root, v, k) && within_depth(k as int, max_depth) ==> node_ids(
            nodes,
        ).contains(v)
    &&& edge_pairs(g.edges@) == edges_of(adj, node_levels(nodes), max_depth)
    &&& node_ids(nodes) == discover(seq![root], edge_targets(g.edges@))
}


/// The ids among the discovered (id, depth) pairs.
spec fn fids(f: Seq<(String, usize)>) -> Seq<Seq<char>> {
    f.map_values(|p: (String, usize)| p.0@)
}

spec fn flevels(f: Seq<(String, usize)>) -> Seq<(Seq<char>, int)> {
    f.map_values(|p: (String, usize)| (p.0@, p.1 as int))
}

/// `t` has been discovered at depth at most `d`.
spec fn has_within(f: Seq<(String, usize)>, t: Seq<char>, d: int) -> bool {
    exists|j: int| 0 <= j < f.len() && #[trigger] f[j].0@ == t && f[j].1 <= d
}

/// Every dependency of the `i`-th discovered id has been discovered one level deeper at most.
spec fn closed_at(
    adj: Map<Seq<char>, Seq<Seq<char>>>,
    f: Seq<(String, usize)>,
    i: int,
    max_depth: Option<usize>,
) -> bool {
    may_expand(f[i].1 as int, max_depth) && adj.contains_key(f[i].0@) ==> forall|t: Seq<char>|
        #[trigger] adj[f[i].0@].contains(t) ==> has_within(f, t, f[i].1 + 1)
}

/// All ids that occur in some value list.
spec fn value_targets(vals: Seq<Vec<String>>) -> Set<Seq<char>>
    decreases vals.len(),
{
    if vals.len() == 0 {
        Set::empty()
    } else {
        value_targets(vals.drop_last()).union(str_views(vals.last()@).to_set())
    }
}

proof fn lemma_value_targets(vals: Seq<Vec<String>>)
    ensures
        value_targets(vals).finite(),
        forall|i: int, t: Seq<char>|
            0 <= i < vals.len() && #[trigger] str_views(vals[i]@).contains(t) ==> value_targets(
                vals,
            ).contains(t),
    decreases vals.len(),
{
    if vals.len() > 0 {
        lemma_value_targets(vals.drop_last());
        assert forall|i: int, t: Seq<char>|
            0 <= i < vals.len() && #[trigger] str_views(vals[i]@).contains(t) implies value_targets(
            vals,
        ).contains(t) by {
            if i < vals.len() - 1 {
                assert(vals.drop_last()[i] == vals[i]);
            } else {
                assert(str_views(vals.last()@).to_set().contains(t));
            }
        }
    }
}

proof fn lemma_has_within_push(f: Seq<(String, usize)>, x: (String, usize), t: Seq<char>, d: int)
    requires
        has_within(f, t, d),
    ensures
        has_within(f.push(x), t, d),
{
    let j = choose|j: int| 0 <= j < f.len() && #[trigger] f[j].0@ == t && f[j].1 <= d;
    assert(f.push(x)[j] == f[j]);
}

proof fn lemma_has_within_prefix(
    f: Seq<(String, usize)>,
    g: Seq<(String, usize)>,
    t: Seq<char>,
    d: int,
)
    requires
        f.len() <= g.len(),
        g.take(f.len() as int) == f,
        has_within(f, t, d),
    ensures
        has_within(g, t, d),
{
    let j = choose|j: int| 0 <= j < f.len() && #[trigger] f[j].0@ == t && f[j].1 <= d;
    assert(g.take(f.len() as int)[j] == g[j]);
}

proof fn lemma_complete(
    adj: Map<Seq<char>, Seq<Seq<char>>>,
    r: Seq<char>,
    f: Seq<(String, usize)>,
    max_depth: Option<usize>,
    v: Seq<char>,
    k: nat,
)
    requires
        f.len() >= 1,
        f[0].0@ == r,
        f[0].1 == 0,
        forall|i: int| 0 <= i < f.len() ==> closed_at(adj, f, i, max_depth),
        reaches(adj, r, v, k),
        within_depth(k as int, max_depth),
    ensures
        has_within(f, v, k as int),
    decreases k,
{
    if v == r {
        assert(f[0].0@ == v);
    } else {
        let u = choose|u: Seq<char>|
            #![trigger adj.contains_key(u), adj[u].contains(v)]
            adj.contains_key(u) && adj[u].contains(v) && reaches(adj, r, u, (k - 1) as nat);
        lemma_complete(adj, r, f, max_depth, u, (k - 1) as nat);
        let j = choose|j: int| 0 <= j < f.len() && #[trigger] f[j].0@ == u && f[j].1 <= k - 1;
        assert(closed_at(adj, f, j, max_depth));
        assert(adj[f[j].0@].contains(v));
        let j2 = choose|j2: int|
            0 <= j2 < f.len() && #[trigger] f[j2].0@ == v && f[j2].1 <= f[j].1 + 1;
        assert(f[j2].0@ == v);
    }
}

fn contains_id(found: &Vec<(String, usize)>, id: &String) -> (b: bool)
    ensures
        b == fids(found@).contains(id@),
{
    let n = found.len();
    for i in 0..n
        invariant
            n == found@.len(),
            forall|j: int| 0 <= j < i ==> found@[j].0@ != id@,
    {
        if found[i].0 == *id {
            assert(fids(found@)[i as int] == id@);
            return true;
        }
    }
    assert forall|j: int| 0 <= j < fids(found@).len() implies fids(found@)[j] != id@ by {
        assert(found@[j].0@ != id@);
    }
    false
}

/// Breadth-first traversal from `root`: every package reachable through
/// `adjacency` becomes a node, at its shortest distance from the root, and
/// the links of each node above the depth limit become edges.
pub fn bfs(
    root: &str,
    adjacency: &StringMap<Vec<String>>,
    max_depth: Option<usize>,
    ecosystem: &str,
) -> (g: DependencyGraph)
    ensures
        is_bfs_of(g, adjacency_model(adjacency), root@, max_depth, ecosystem@),
{
    let ghost adj = adjacency_model(adjacency);
    let ghost r = root@;
    let ghost univ = value_targets(adjacency.value_seq()).insert(r);
    proof {
        lemma_value_targets(adjacency.value_seq());
        use_type_invariant(adjacency);
        adjacency.lemma_map();
    }
    let root_id = root.to_owned();
    // `found` lists every discovered (id, depth) in discovery order; the first `h` have been
    // turned into nodes and the rest are the queue. `univ`, the root and every listed
    // dependency, bounds how long `found` can grow.
    let mut found: Vec<(String, usize)> = Vec::new();
    found.push((root.to_owned(), 0));
    let mut nodes: Vec<Node> = Vec::new();
    let mut edges: Vec<Edge> = Vec::new();
    let mut h: usize = 0;
    proof {
        assert(edge_targets(edges@) =~= Seq::<Seq<char>>::empty());
        assert(fids(found@) =~= seq![r]);
        assert(flevels(found@).take(0) =~= Seq::<(Seq<char>, int)>::empty());
    }
    while h < found.len()
        invariant
            adj == adjacency_model(adjacency),
            r == root@,
            root_id@ == r,
            univ == value_targets(adjacency.value_seq()).insert(r),
            univ.finite(),
            forall|i: int, t: Seq<char>|
                0 <= i < adjacency.value_seq().len() && #[trigger] str_views(
                    adjacency.value_seq()[i]@,
                ).contains(t) ==> value_targets(adjacency.value_seq()).contains(t),
            1 <= found@.len(),
            h <= found@.len(),
            found@[0].0@ == r,
            found@[0].1 == 0,
            nodes@.len() == h,
            forall|i: int|
                0 <= i < h ==> {
                    &&& (#[trigger] nodes@[i]).id@ == found@[i].0@
                    &&& nodes@[i].depth == found@[i].1
                    &&& nodes@[i].is_root == (nodes@[i].id@ == r)
                    &&& names_of(nodes@[i].id@, nodes@[i].label@, nodes@[i].version@)
                },
            edge_pairs(edges@) == edges_of(adj, flevels(found@).take(h as int), max_depth),
            fids(found@) == discover(seq![r], edge_targets(edges@)),
            fids(found@).no_duplicates(),
            forall|j: int| 0 <= j < found@.len() ==> (#[trigger] found@[j]).1 <= j,
            forall|i: int, j: int|
                0 <= i <= j < found@.len() ==> (#[trigger] found@[i]).1 <= (#[trigger] found@[j]).1,
            h < found@.len() ==> forall|j: int|
                0 <= j < found@.len() ==> (#[trigger] found@[j]).1 <= found@[h as int].1 + 1,
            forall|j: int|
                0 <= j < found@.len() ==> reaches(
                    adj,
                    r,
                    (#[trigger] found@[j]).0@,
                    found@[j].1 as nat,
                ),
            forall|j: int|
                0 <= j < found@.len() ==> within_depth((#[trigger] found@[j]).1 as int, max_depth),
            forall|j: int| 0 <= j < found@.len() ==> univ.contains((#[trigger] found@[j]).0@),
            forall|i: int| 0 <= i < h ==> #[trigger] closed_at(adj, found@, i, max_depth),
        decreases univ.len() - h,
    {
        proof {
            let s = fids(found@);
            assert forall|x: Seq<char>| s.to_set().contains(x) implies univ.contains(x) by {
                let j = choose|j: int| 0 <= j < s.len() && s[j] == x;
                assert(univ.contains(found@[j].0@));
            }
            s.unique_seq_to_set();
            vstd::set_lib::lemma_len_subset(s.to_set(), univ);
        }
        let id = found[h].0.clone();
        let depth = found[h].1;
        let ghost before = found@;
        let ghost edges_before = edges@;
        let (label, version) = match split_once_char(id.as_str(), ' ') {
            Some((a, b)) => (a, b),
            None => (id.clone(), String::new()),
        };
        let is_root = id == root_id;
        nodes.push(Node { id: id.clone(), label, version, is_root, depth });
        let expand = match max_depth {
            Some(m) => depth < m,
            None => true,
        };
        let deps_opt = if expand {
            adjacency.get(&id)
        } else {
            None
        };
        match deps_opt {
            Some(deps) => {
                let n = deps.len();
                let ghost targets = str_views(deps@);
                assert(adj[id@] == targets);
                for k in 0..n
                    invariant
                        adj == adjacency_model(adjacency),
                        r == root@,
                        n == deps@.len(),
                        targets == str_views(deps@),
                        adj.contains_key(id@),
                        adj[id@] == targets,
                        id@ == before[h as int].0@,
                        depth == before[h as int].1,
                        depth <= h,
                        may_expand(depth as int, max_depth),
                        h < before.len(),
                        before.len() <= found@.len(),
                        found@.take(before.len() as int) == before,
                        found@[0].0@ == r,
                        found@[0].1 == 0,
                        univ == value_targets(adjacency.value_seq()).insert(r),
                        forall|i: int, t: Seq<char>|
                            0 <= i < adjacency.value_seq().len() && #[trigger] str_views(
                                adjacency.value_seq()[i]@,
                            ).contains(t) ==> value_targets(adjacency.value_seq()).contains(t),
                        edge_pairs(edges@) == edge_pairs(edges_before) + targets.take(k as int).map_values(
                            |t: Seq<char>| (id@, t),
                        ),
                        fids(found@) == discover(seq![r], edge_targets(edges@)),
                        fids(found@).no_duplicates(),
                        forall|j: int| 0 <= j < found@.len() ==> (#[trigger] found@[j]).1 <= j,
                        forall|i: int, j: int|
                            0 <= i <= j < found@.len() ==> (#[trigger] found@[i]).1 <= (
                            #[trigger] found@[j]).1,
                        forall|j: int|
                            0 <= j < found@.len() ==> (#[trigger] found@[j]).1 <= depth + 1,
                        forall|j: int|
                            0 <= j < found@.len() ==> reaches(
                                adj,
                                r,
                                (#[trigger] found@[j]).0@,
                                found@[j].1 as nat,
                            ),
                        forall|j: int|
                            0 <= j < found@.len() ==> within_depth(
                                (#[trigger] found@[j]).1 as int,
                                max_depth,
                            ),
                        forall|j: int|
                            0 <= j < found@.len() ==> univ.contains((#[trigger] found@[j]).0@),
                        forall|q: int|
                            0 <= q < k ==> has_within(found@, #[trigger] targets[q], depth + 1),
                {
                    let dep = deps[k].clone();
                    let ghost found_prev = found@;
                    let ghost edges_prev = edges@;
                    edges.push(Edge { source: id.clone(), target: dep.clone() });
                    proof {
                        assert(edge_pairs(edges@) =~= edge_pairs(edges_prev).push((id@, dep@)));
                        assert(targets.take(k + 1) =~= targets.take(k as int).push(dep@));
                        assert(edge_targets(edges@) =~= edge_targets(edges_prev).push(dep@));
                        assert(edge_targets(edges@).drop_last() =~= edge_targets(edges_prev));
                    }
                    let _found_len = found.len();
                    if !contains_id(&found, &dep) {
                        found.push((dep, depth + 1));
                        proof {
                            assert(fids(found@) =~= fids(found_prev).push(dep@));
                            use_type_invariant(adjacency);
                            adjacency.lemma_map();
                            let ki = choose|ki: int|
                                0 <= ki < adjacency.key_seq().len() && adjacency.key_seq()[ki]
                                    == id@;
                            assert(adjacency.map()[adjacency.key_seq()[ki]] == adjacency.value_seq()[ki]);
                            assert(str_views(adjacency.value_seq()[ki]@).contains(dep@)) by {
                                assert(targets[k as int] == dep@);
                            }
                            let last = found@.len() - 1;
                            assert(found@[last].0@ == dep@);
                            assert(reaches(adj, r, before[h as int].0@, depth as nat));
                            assert(adj[id@].contains(dep@)) by {
                                assert(targets[k as int] == dep@);
                            }
                            assert(reaches(adj, r, dep@, (depth + 1) as nat));
                            assert forall|q: int| 0 <= q < k + 1 implies has_within(
                                found@,
                                #[trigger] targets[q],
                                depth + 1,
                            ) by {
                                if q < k {
                                    lemma_has_within_push(found_prev, (dep, (depth + 1) as usize), targets[q], depth + 1);
                                } else {
                                    assert(found@[last].0@ == targets[q]);
                                }
                            }
                            assert(found@.take(before.len() as int) =~= before);
                        }
                    } else {
                        proof {
                            let j = choose|j: int| 0 <= j < fids(found@).len() && fids(found@)[j] == dep@;
                            assert(found@[j].0@ == dep@);
                            assert(has_within(found@, targets[k as int], depth + 1));
                        }
                    }
                }
                proof {
                    assert(targets.take(n as int) =~= targets);
                }
            },
            None => {},
        }
        proof {
            assert(found@.take(before.len() as int) =~= before);
            let fl = flevels(found@);
            assert(fl.take(h + 1).drop_last() =~= fl.take(h as int));
            assert(fl.take(h as int) =~= flevels(before).take(h as int));
            assert(fl[h as int] == (id@, depth as int));
            assert(closed_at(adj, found@, h as int, max_depth));
            assert forall|i: int| 0 <= i < h + 1 implies #[trigger] closed_at(
                adj,
                found@,
                i,
                max_depth,
            ) by {
                if i < h {
                    assert(closed_at(adj, before, i, max_depth));
                    assert(found@.take(before.len() as int)[i] == found@[i]);
                    assert(found@[i] == before[i]);
                    if may_expand(found@[i].1 as int, max_depth) && adj.contains_key(found@[i].0@) {
                        assert forall|t: Seq<char>| #[trigger] adj[found@[i].0@].contains(t) implies has_within(
                            found@,
                            t,
                            found@[i].1 + 1,
                        ) by {
                            lemma_has_within_prefix(before, found@, t, found@[i].1 + 1);
                        }
                    }
                }
            }

        }
        h = h + 1;
    }
    let g = DependencyGraph { root: root_id, ecosystem: ecosystem.to_owned(), nodes, edges };
    proof {
        let f = found@;
        let ns = g.nodes@;
        assert(node_ids(ns) =~= fids(f));
        assert(node_levels(ns) =~= flevels(f).take(h as int));
        assert forall|i: int| 0 <= i < ns.len() implies {
            &&& (#[trigger] ns[i]).is_root == (ns[i].id@ == r)
            &&& names_of(ns[i].id@, ns[i].label@, ns[i].version@)
            &&& within_depth(ns[i].depth as int, max_depth)
            &&& reaches(adj, r, ns[i].id@, ns[i].depth as nat)
            &&& ns[i].depth > 0 ==> !reaches(adj, r, ns[i].id@, (ns[i].depth - 1) as nat)
        } by {
            assert(f[i].0@ == ns[i].id@);
            if ns[i].depth > 0 && reaches(adj, r, ns[i].id@, (ns[i].depth - 1) as nat) {
                lemma_complete(adj, r, f, max_depth, ns[i].id@, (ns[i].depth - 1) as nat);
                let j = choose|j: int|
                    0 <= j < f.len() && #[trigger] f[j].0@ == ns[i].id@ && f[j].1 <= ns[i].depth
                        - 1;
                assert(fids(f)[j] == fids(f)[i]);
            }
        }
        assert forall|v: Seq<char>, k: nat|
            #[trigger] reaches(adj, r, v, k) && within_depth(k as int, max_depth) implies node_ids(
            ns,
        ).contains(v) by {
            lemma_complete(adj, r, f, max_depth, v, k);
            let j = choose|j: int| 0 <= j < f.len() && #[trigger] f[j].0@ == v && f[j].1 <= k;
            assert(node_ids(ns)[j] == v);
        }
        assert forall|i: int, j: int| 0 <= i <= j < ns.len() implies ns[i].depth <= ns[j].depth by {
            assert(f[i].1 <= f[j].1);
        }
    }
    g
}

} // verus!
