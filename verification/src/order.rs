use vstd::prelude::*;

use crate::string_map::str_views;
use crate::text::chars_of;

verus! {

/// The order of `String`s: lexicographic by code point, a proper prefix coming first.
pub open spec fn str_lt(a: Seq<char>, b: Seq<char>) -> bool
    decreases a.len(),
{
    if a.len() == 0 {
        b.len() > 0
    } else if b.len() == 0 {
        false
    } else if a[0] != b[0] {
        a[0] < b[0]
    } else {
        str_lt(a.drop_first(), b.drop_first())
    }
}

/// Strictly ascending, hence without repeats.
pub open spec fn sorted_strict(s: Seq<Seq<char>>) -> bool {
    forall|i: int, j: int| 0 <= i < j < s.len() ==> str_lt(#[trigger] s[i], #[trigger] s[j])
}

pub proof fn lemma_lt_irreflexive(a: Seq<char>)
    ensures
        !str_lt(a, a),
    decreases a.len(),
{
    if a.len() > 0 {
        lemma_lt_irreflexive(a.drop_first());
    }
}

pub proof fn lemma_lt_asymmetric(a: Seq<char>, b: Seq<char>)
    ensures
        !(str_lt(a, b) && str_lt(b, a)),
    decreases a.len(),
{
    if a.len() > 0 && b.len() > 0 && a[0] == b[0] {
        lemma_lt_asymmetric(a.drop_first(), b.drop_first());
    }
}

pub proof fn lemma_lt_total(a: Seq<char>, b: Seq<char>)
    ensures
        a == b || str_lt(a, b) || str_lt(b, a),
    decreases a.len(),
{
    if a.len() > 0 && b.len() > 0 {
        if a[0] == b[0] {
            lemma_lt_total(a.drop_first(), b.drop_first());
            if a.drop_first() == b.drop_first() {
                assert(a =~= seq![a[0]] + a.drop_first());
                assert(b =~= seq![b[0]] + b.drop_first());
            }
        }
    } else if a.len() == 0 && b.len() == 0 {
        assert(a =~= b);
    }
}

pub proof fn lemma_lt_transitive(a: Seq<char>, b: Seq<char>, c: Seq<char>)
    requires
        str_lt(a, b),
        str_lt(b, c),
    ensures
        str_lt(a, c),
    decreases a.len(),
{
    if a.len() > 0 && b.len() > 0 && c.len() > 0 && a[0] == b[0] && b[0] == c[0] {
        lemma_lt_transitive(a.drop_first(), b.drop_first(), c.drop_first());
    }
}

/// Whether `a` comes before `b`.
pub fn str_less(a: &String, b: &String) -> (r: bool)
    ensures
        r == str_lt(a@, b@),
{
    let x = chars_of(a.as_str());
    let y = chars_of(b.as_str());
    let n = x.len();
    let m = y.len();
    let mut i: usize = 0;
    assert(x@.skip(0) =~= x@);
    assert(y@.skip(0) =~= y@);
    while i < n && i < m
        invariant
            n == x@.len(),
            m == y@.len(),
            i <= n,
            i <= m,
            str_lt(a@, b@) == str_lt(x@.skip(i as int), y@.skip(i as int)),
        decreases n - i,
    {
        let ghost xs = x@.skip(i as int);
        let ghost ys = y@.skip(i as int);
        assert(xs[0] == x@[i as int]);
        assert(ys[0] == y@[i as int]);
        if x[i] != y[i] {
            return x[i] < y[i];
        }
        assert(xs.drop_first() =~= x@.skip(i + 1));
        assert(ys.drop_first() =~= y@.skip(i + 1));
        i = i + 1;
    }
    i < m
}

/// The set of elements of `s` without its first, when `s` has no repeats.
proof fn lemma_drop_first_set(s: Seq<Seq<char>>)
    requires
        s.len() > 0,
        s.no_duplicates(),
    ensures
        s.drop_first().to_set() == s.to_set().remove(s[0]),
{
    assert forall|x: Seq<char>| s.drop_first().to_set().contains(x) == s.to_set().remove(s[0]).contains(x) by {
        if s.drop_first().to_set().contains(x) {
            let j = choose|j: int| 0 <= j < s.drop_first().len() && s.drop_first()[j] == x;
            assert(s[j + 1] == x);
        }
        if s.to_set().remove(s[0]).contains(x) {
            let j = choose|j: int| 0 <= j < s.len() && s[j] == x;
            assert(j != 0);
            assert(s.drop_first()[j - 1] == x);
        }
    }
    assert(s.drop_first().to_set() =~= s.to_set().remove(s[0]));
}

proof fn lemma_sorted_no_duplicates(s: Seq<Seq<char>>)
    requires
        sorted_strict(s),
    ensures
        s.no_duplicates(),
{
    assert forall|i: int, j: int| 0 <= i < s.len() && 0 <= j < s.len() && i != j implies s[i] != s[j] by {
        if i < j {
            assert(str_lt(s[i], s[j]));
        } else {
            assert(str_lt(s[j], s[i]));
        }
        lemma_lt_irreflexive(s[i]);
    }
}

/// Two ascending sequences with the same elements are the same sequence.
pub proof fn lemma_sorted_unique(a: Seq<Seq<char>>, b: Seq<Seq<char>>)
    requires
        sorted_strict(a),
        sorted_strict(b),
        a.to_set() == b.to_set(),
    ensures
        a == b,
    decreases a.len(),
{
    if a.len() == 0 {
        if b.len() > 0 {
            assert(b.to_set().contains(b[0]));
        }
        assert(a =~= b);
    } else {
        assert(a.to_set().contains(a[0]));
        assert(b.len() > 0);
        let j = choose|j: int| 0 <= j < b.len() && b[j] == a[0];
        assert(b.to_set().contains(b[0]));
        let i = choose|i: int| 0 <= i < a.len() && a[i] == b[0];
        if j > 0 {
            assert(str_lt(b[0], b[j]));
            if i > 0 {
                assert(str_lt(a[0], a[i]));
                lemma_lt_asymmetric(a[0], a[i]);
            } else {
                lemma_lt_irreflexive(a[0]);
            }
        }
        assert(a[0] == b[0]);
        lemma_sorted_no_duplicates(a);
        lemma_sorted_no_duplicates(b);
        lemma_drop_first_set(a);
        lemma_drop_first_set(b);
        assert(sorted_strict(a.drop_first())) by {
            assert forall|p: int, q: int| 0 <= p < q < a.drop_first().len() implies str_lt(
                #[trigger] a.drop_first()[p],
                #[trigger] a.drop_first()[q],
            ) by {
                assert(str_lt(a[p + 1], a[q + 1]));
            }
        }
        assert(sorted_strict(b.drop_first())) by {
            assert forall|p: int, q: int| 0 <= p < q < b.drop_first().len() implies str_lt(
                #[trigger] b.drop_first()[p],
                #[trigger] b.drop_first()[q],
            ) by {
                assert(str_lt(b[p + 1], b[q + 1]));
            }
        }
        lemma_sorted_unique(a.drop_first(), b.drop_first());
        assert(a =~= seq![a[0]] + a.drop_first());
        assert(b =~= seq![b[0]] + b.drop_first());
    }
}

/// The ascending sequence of the distinct elements of `names`.
pub open spec fn sorted_distinct(names: Seq<Seq<char>>) -> Seq<Seq<char>> {
    choose|s: Seq<Seq<char>>| sorted_strict(s) && s.to_set() == names.to_set()
}

/// Adds `x` to an ascending vector, unless it is already there.
pub fn insert_sorted(v: &mut Vec<String>, x: String)
    requires
        sorted_strict(str_views(old(v)@)),
    ensures
        sorted_strict(str_views(final(v)@)),
        str_views(final(v)@).to_set() == str_views(old(v)@).to_set().insert(x@),
{
    let ghost s = str_views(v@);
    let n = v.len();
    let mut p: usize = 0;
    while p < n
        invariant
            n == v@.len(),
            s == str_views(v@),
            p <= n,
            forall|i: int| 0 <= i < p ==> str_lt(#[trigger] s[i], x@),
        ensures
            p <= n,
            forall|i: int| 0 <= i < p ==> str_lt(#[trigger] s[i], x@),
            p < n ==> !str_lt(s[p as int], x@),
        decreases n - p,
    {
        if !str_less(&v[p], &x) {
            break;
        }
        p = p + 1;
    }
    if p < n && v[p] == x {
        assert(s[p as int] == x@);
        assert(s.to_set().contains(x@));
        assert(s.to_set().insert(x@) =~= s.to_set());
        return;
    }
    proof {
        if p < n {
            assert(s[p as int] != x@);
            lemma_lt_total(s[p as int], x@);
            assert(str_lt(x@, s[p as int]));
        }
    }
    let ghost xv = x@;
    v.insert(p, x);
    proof {
        let t = str_views(v@);
        assert(t =~= s.insert(p as int, xv));
        assert forall|i: int, j: int| 0 <= i < j < t.len() implies str_lt(
            #[trigger] t[i],
            #[trigger] t[j],
        ) by {
            if j < p {
                assert(t[i] == s[i] && t[j] == s[j]);
            } else if j == p {
                assert(t[j] == xv && t[i] == s[i]);
            } else if i < p {
                assert(t[i] == s[i] && t[j] == s[j - 1]);
                assert(str_lt(s[i], xv));
                if j - 1 > p {
                    assert(str_lt(s[p as int], s[j - 1]));
                    lemma_lt_transitive(xv, s[p as int], s[j - 1]);
                }
                lemma_lt_transitive(s[i], xv, s[j - 1]);
            } else if i == p {
                assert(t[i] == xv && t[j] == s[j - 1]);
                if j - 1 > p {
                    assert(str_lt(s[p as int], s[j - 1]));
                    lemma_lt_transitive(xv, s[p as int], s[j - 1]);
                }
            } else {
                assert(t[i] == s[i - 1] && t[j] == s[j - 1]);
            }
        }
        assert forall|y: Seq<char>| t.to_set().contains(y) == s.to_set().insert(xv).contains(y) by {
            if t.to_set().contains(y) {
                let k = choose|k: int| 0 <= k < t.len() && t[k] == y;
                if k < p {
                    assert(s[k] == y);
                } else if k > p {
                    assert(s[k - 1] == y);
                }
            }
            if s.to_set().contains(y) {
                let k = choose|k: int| 0 <= k < s.len() && s[k] == y;
                if k < p {
                    assert(t[k] == y);
                } else {
                    assert(t[k + 1] == y);
                }
            }
            if y == xv {
                assert(t[p as int] == y);
            }
        }
        assert(t.to_set() =~= s.to_set().insert(xv));
    }
}

} // verus!
