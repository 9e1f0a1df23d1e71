use vstd::prelude::*;

use crate::error::ParseError;
use crate::graph::{adjacency_model, bfs, is_bfs_of, DependencyGraph};
use crate::string_map::{str_views, StringMap};
use crate::text::{
    after_first, before_first, join_space, lemma_split_parts, pieces, split_once_char,
    split_pieces, split_words, trim, trim_white, words,
};

verus! {

/// Go modules, whose graph comes from `go mod graph`.
pub struct GoParser;

/// The name under which Go projects are reported.
pub open spec fn go_ecosystem() -> Seq<char> {
    "Go (go mod)"@
}

/// `module@version` becomes `"module version"`; a bare module gets version `0.0.0`.
pub open spec fn go_id(raw: Seq<char>) -> Seq<char> {
    if raw.contains('@') {
        before_first(raw, '@') + seq![' '] + after_first(raw, '@')
    } else {
        raw + seq![' '] + "0.0.0"@
    }
}

/// The (source, target) links of the lines that hold exactly two words.
pub open spec fn go_links(lines: Seq<Seq<char>>) -> Seq<(Seq<char>, Seq<char>)>
    decreases lines.len(),
{
    if lines.len() == 0 {
        seq![]
    } else {
        let prev = go_links(lines.drop_last());
        let w = words(lines.last());
        if w.len() == 2 {
            prev.push((go_id(w[0]), go_id(w[1])))
        } else {
            prev
        }
    }
}

/// Appends each link's target to the list of its source.
pub open spec fn add_links(
    m: Map<Seq<char>, Seq<Seq<char>>>,
    links: Seq<(Seq<char>, Seq<char>)>,
) -> Map<Seq<char>, Seq<Seq<char>>>
    decreases links.len(),
{
    if links.len() == 0 {
        m
    } else {
        let prev = add_links(m, links.drop_last());
        let (s, t) = links.last();
        prev.insert(
            s,
            (if prev.contains_key(s) {
                prev[s]
            } else {
                seq![]
            }).push(t),
        )
    }
}

/// The adjacency that `go mod graph` output describes, with the root module present. The
/// output is cut into lines at each `\n`; a `\r` before it is whitespace and so belongs to
/// no word, and a final empty line holds no words, so these are the lines that
/// `str::lines` gives.
pub open spec fn go_adjacency(content: Seq<char>, root_mod: Seq<char>) -> Map<
    Seq<char>,
    Seq<Seq<char>>,
> {
    let m = add_links(Map::empty(), go_links(pieces(content, '\n')));
    let r = go_id(root_mod);
    if m.contains_key(r) {
        m
    } else {
        m.insert(r, seq![])
    }
}

/// `"module version"` from `module@version`, or `"module 0.0.0"` without a version.
pub fn format_id(raw: &str) -> (r: String)
    ensures
        r@ == go_id(raw@),
{
    match split_once_char(raw, '@') {
        Some((name, version)) => {
            proof {
                lemma_split_parts(raw@, '@', name@, version@);
            }
            join_space(name.as_str(), version.as_str())
        },
        None => join_space(raw, "0.0.0"),
    }
}

/// The dependency graph described by `go mod graph` output, traversed from `root_mod`.
pub fn parse_content(content: &str, root_mod: &str, max_depth: Option<usize>) -> (r: Result<
    DependencyGraph,
    ParseError,
>)
    ensures
        r matches Ok(g) && is_bfs_of(
            g,
            go_adjacency(content@, root_mod@),
            go_id(root_mod@),
            max_depth,
            go_ecosystem(),
        ),
{
    let lines = split_pieces(content, '\n');
    let ghost ls = str_views(lines@);
    let mut adjacency: StringMap<Vec<String>> = StringMap::new();
    let n = lines.len();
    proof {
        assert(adjacency_model(&adjacency) =~= Map::<Seq<char>, Seq<Seq<char>>>::empty());
        assert(ls.take(0) =~= Seq::<Seq<char>>::empty());
    }
    for i in 0..n
        invariant
            n == lines@.len(),
            ls == str_views(lines@),
            adjacency_model(&adjacency) == add_links(Map::empty(), go_links(ls.take(i as int))),
    {
        let parts = split_words(lines[i].as_str());
        assert(ls.take(i + 1).drop_last() =~= ls.take(i as int));
        assert(ls.take(i + 1).last() == lines@[i as int]@);
        if parts.len() == 2 {
            let source = format_id(parts[0].as_str());
            let target = format_id(parts[1].as_str());
            let ghost old_model = adjacency_model(&adjacency);
            let ghost old_map = adjacency.map();
            let ghost sv = source@;
            let ghost tv = target@;
            adjacency.push_to(source, target);
            proof {
                let links = go_links(ls.take(i + 1));
                assert(links.drop_last() == go_links(ls.take(i as int)));
                assert(links.last() == (sv, tv));
                let expected = old_model.insert(
                    sv,
                    (if old_model.contains_key(sv) {
                        old_model[sv]
                    } else {
                        seq![]
                    }).push(tv),
                );
                assert forall|k: Seq<char>| #[trigger]
                    adjacency_model(&adjacency).contains_key(k) == expected.contains_key(k) by {
                    if k != sv {
                        assert(adjacency.map().remove(sv).contains_key(k) == old_map.remove(
                            sv,
                        ).contains_key(k));
                    }
                }
                assert forall|k: Seq<char>|
                    adjacency_model(&adjacency).contains_key(k) implies #[trigger] adjacency_model(
                    &adjacency,
                )[k] == expected[k] by {
                    if k != sv {
                        assert(adjacency.map().remove(sv)[k] == old_map.remove(sv)[k]);
                        assert(adjacency.map()[k] == old_map[k]);
                    } else {
                        let prev_list: Seq<String> = if old_map.contains_key(k) {
                            old_map[k]@
                        } else {
                            Seq::empty()
                        };
                        assert(adjacency.map()[k]@ == prev_list.push(target));
                        assert(str_views(adjacency.map()[k]@) =~= str_views(prev_list).push(tv));
                    }
                }
                assert(adjacency_model(&adjacency) =~= expected);
            }
        }
    }
    assert(ls.take(n as int) =~= ls);
    let root_id = format_id(root_mod);
    let ghost before = adjacency_model(&adjacency);
    let ghost before_map = adjacency.map();
    adjacency.ensure_key(root_id.clone());
    proof {
        let rv = root_id@;
        if before.contains_key(rv) {
            assert(adjacency_model(&adjacency) =~= before);
        } else {
            let expected = before.insert(rv, seq![]);
            assert forall|k: Seq<char>| #[trigger]
                adjacency_model(&adjacency).contains_key(k) == expected.contains_key(k) by {
                if k != rv {
                    assert(adjacency.map().remove(rv).contains_key(k) == before_map.remove(
                        rv,
                    ).contains_key(k));
                }
            }
            assert forall|k: Seq<char>|
                adjacency_model(&adjacency).contains_key(k) implies #[trigger] adjacency_model(
                &adjacency,
            )[k] == expected[k] by {
                if k != rv {
                    assert(adjacency.map().remove(rv)[k] == before_map.remove(rv)[k]);
                    assert(adjacency.map()[k] == before_map[k]);
                } else {
                    assert(str_views(adjacency.map()[k]@) =~= Seq::<Seq<char>>::empty());
                }
            }
            assert(adjacency_model(&adjacency) =~= expected);
        }
    }
    Ok(bfs(root_id.as_str(), &adjacency, max_depth, "Go (go mod)"))
}


/// The root module: the trimmed output of `go list -m`, or `root` when it failed.
pub fn root_module(listed: Option<&str>) -> (r: String)
    ensures
        r@ == match listed {
            Some(out) => trim(out@),
            None => "root"@,
        },
{
    match listed {
        Some(out) => trim_white(out),
        None => "root".to_owned(),
    }
}

} // verus!
