use vstd::prelude::*;

use crate::string_map::str_views;

verus! {

broadcast use vstd::string::group_string_axioms;

/// `String::push` from std, which appends one character: claimed, as its documentation
/// says, to add `ch` at the end of the string and change nothing else.
pub assume_specification[ String::push ](s: &mut String, ch: char)
    ensures
        final(s)@ == old(s)@.push(ch),
;

/// The characters of `s`, in order.
pub fn chars_of(s: &str) -> (r: Vec<char>)
    ensures
        r@ == s@,
{
    let mut r: Vec<char> = Vec::new();
    for c in it: s.chars()
        invariant
            r@ == it.seq().take(it.index() as int),
            it.seq() == s@,
    {
        r.push(c);
    }
    r
}

/// The string made of `cs[lo..hi]`.
pub fn string_from(cs: &Vec<char>, lo: usize, hi: usize) -> (r: String)
    requires
        lo <= hi <= cs@.len(),
    ensures
        r@ == cs@.subrange(lo as int, hi as int),
{
    let mut r = String::new();
    let mut i = lo;
    while i < hi
        invariant
            lo <= i <= hi <= cs@.len(),
            r@ == cs@.subrange(lo as int, i as int),
        decreases hi - i,
    {
        r.push(cs[i]);
        assert(cs@.subrange(lo as int, i + 1) =~= cs@.subrange(lo as int, i as int).push(cs@[i as int]));
        i = i + 1;
    }
    r
}

/// `s` splits into `a`, then `c`, then `b`, where `a` holds no `c`:
/// the split at the first occurrence of `c`.
pub open spec fn splits_at_first(s: Seq<char>, c: char, a: Seq<char>, b: Seq<char>) -> bool {
    s == a + seq![c] + b && !a.contains(c)
}

/// Splits `s` at the first occurrence of `c`, dropping that character.
pub fn split_once_char(s: &str, c: char) -> (r: Option<(String, String)>)
    ensures
        r is None <==> !s@.contains(c),
        r matches Some((a, b)) ==> splits_at_first(s@, c, a@, b@),
{
    let cs = chars_of(s);
    let n = cs.len();
    let mut i: usize = 0;
    while i < n
        invariant
            n == cs@.len(),
            cs@ == s@,
            i <= n,
            forall|j: int| 0 <= j < i ==> cs@[j] != c,
        decreases n - i,
    {
        if cs[i] == c {
            let a = string_from(&cs, 0, i);
            let b = string_from(&cs, i + 1, n);
            proof {
                assert(s@ =~= a@ + seq![c] + b@);
                assert forall|j: int| 0 <= j < a@.len() implies a@[j] != c by {}
            }
            return Some((a, b));
        }
        i = i + 1;
    }
    assert forall|j: int| 0 <= j < s@.len() implies s@[j] != c by {}
    None
}

/// The concatenation `a`, a space, `b`.
pub fn join_space(a: &str, b: &str) -> (r: String)
    ensures
        r@ == a@ + seq![' '] + b@,
{
    let mut r = a.to_owned();
    r.push(' ');
    r.append(b);
    r
}


/// The position of the first `c` in `s`, or `s.len()` when there is none.
pub open spec fn first_pos(s: Seq<char>, c: char) -> int
    decreases s.len(),
{
    if s.len() == 0 {
        0
    } else if s[0] == c {
        0
    } else {
        1 + first_pos(s.drop_first(), c)
    }
}

/// The part of `s` before its first `c` (all of `s` when there is none).
pub open spec fn before_first(s: Seq<char>, c: char) -> Seq<char> {
    s.take(first_pos(s, c))
}

/// The part of `s` after its first `c` (empty when there is none).
pub open spec fn after_first(s: Seq<char>, c: char) -> Seq<char> {
    if s.contains(c) {
        s.skip(first_pos(s, c) + 1)
    } else {
        Seq::empty()
    }
}

pub proof fn lemma_first_pos(s: Seq<char>, c: char, i: int)
    requires
        0 <= i <= s.len(),
        forall|j: int| 0 <= j < i ==> s[j] != c,
        i < s.len() ==> s[i] == c,
    ensures
        first_pos(s, c) == i,
    decreases i,
{
    if i > 0 {
        lemma_first_pos(s.drop_first(), c, i - 1);
    }
}

/// A split at the first `c` is the one that `before_first` and `after_first` describe.
pub proof fn lemma_split_parts(s: Seq<char>, c: char, a: Seq<char>, b: Seq<char>)
    requires
        splits_at_first(s, c, a, b),
    ensures
        before_first(s, c) == a,
        after_first(s, c) == b,
        s.contains(c),
{
    assert(s[a.len() as int] == c);
    assert forall|j: int| 0 <= j < a.len() implies s[j] != c by {
        assert(s[j] == a[j]);
    }
    lemma_first_pos(s, c, a.len() as int);
    assert(s.take(a.len() as int) =~= a);
    assert(s.skip(a.len() as int + 1) =~= b);
}

/// Without any `c`, the whole of `s` comes before it.
pub proof fn lemma_no_split(s: Seq<char>, c: char)
    requires
        !s.contains(c),
    ensures
        before_first(s, c) == s,
        after_first(s, c) == Seq::<char>::empty(),
{
    assert forall|j: int| 0 <= j < s.len() implies s[j] != c by {
        if s[j] == c {
            assert(s.contains(c));
        }
    }
    lemma_first_pos(s, c, s.len() as int);
    assert(s.take(s.len() as int) =~= s);
}


/// Scans `s` left to right, cutting at each `c`: the finished pieces and the piece in progress.
pub open spec fn scan_pieces(s: Seq<char>, c: char) -> (Seq<Seq<char>>, Seq<char>)
    decreases s.len(),
{
    if s.len() == 0 {
        (seq![], seq![])
    } else {
        let (done, cur) = scan_pieces(s.drop_last(), c);
        if s.last() == c {
            (done.push(cur), seq![])
        } else {
            (done, cur.push(s.last()))
        }
    }
}

/// The pieces of `s` between occurrences of `c` (one more piece than there are `c`s).
pub open spec fn pieces(s: Seq<char>, c: char) -> Seq<Seq<char>> {
    scan_pieces(s, c).0.push(scan_pieces(s, c).1)
}

/// Unicode `White_Space`, the characters that `char::is_whitespace` accepts.
pub open spec fn is_white(c: char) -> bool {
    let u = c as int;
    ||| 0x9 <= u <= 0xD
    ||| u == 0x20
    ||| u == 0x85
    ||| u == 0xA0
    ||| u == 0x1680
    ||| 0x2000 <= u <= 0x200A
    ||| u == 0x2028
    ||| u == 0x2029
    ||| u == 0x202F
    ||| u == 0x205F
    ||| u == 0x3000
}

pub fn is_whitespace(c: char) -> (b: bool)
    ensures
        b == is_white(c),
{
    let u = c as u32;
    (0x9 <= u && u <= 0xD) || u == 0x20 || u == 0x85 || u == 0xA0 || u == 0x1680 || (0x2000 <= u
        && u <= 0x200A) || u == 0x2028 || u == 0x2029 || u == 0x202F || u == 0x205F || u == 0x3000
}

/// Scans `s` left to right: the finished words and the word in progress.
pub open spec fn scan_words(s: Seq<char>) -> (Seq<Seq<char>>, Seq<char>)
    decreases s.len(),
{
    if s.len() == 0 {
        (seq![], seq![])
    } else {
        let (done, cur) = scan_words(s.drop_last());
        if is_white(s.last()) {
            (
                if cur.len() > 0 {
                    done.push(cur)
                } else {
                    done
                },
                seq![],
            )
        } else {
            (done, cur.push(s.last()))
        }
    }
}

/// The maximal runs of non-whitespace characters of `s`, in order.
pub open spec fn words(s: Seq<char>) -> Seq<Seq<char>> {
    if scan_words(s).1.len() > 0 {
        scan_words(s).0.push(scan_words(s).1)
    } else {
        scan_words(s).0
    }
}

/// Cuts `s` at every `c`.
pub fn split_pieces(s: &str, c: char) -> (r: Vec<String>)
    ensures
        str_views(r@) == pieces(s@, c),
{
    let cs = chars_of(s);
    let n = cs.len();
    let mut done: Vec<String> = Vec::new();
    let mut start: usize = 0;
    for i in 0..n
        invariant
            n == cs@.len(),
            cs@ == s@,
            start <= i,
            scan_pieces(cs@.take(i as int), c) == (str_views(done@), cs@.subrange(start as int, i as int)),
    {
        let ghost pre = cs@.take(i as int);
        assert(cs@.take(i + 1).drop_last() =~= pre);
        assert(cs@.take(i + 1).last() == cs@[i as int]);
        if cs[i] == c {
            let piece = string_from(&cs, start, i);
            let ghost old_done = done@;
            done.push(piece);
            start = i + 1;
            assert(str_views(done@) =~= str_views(old_done).push(piece@));
            assert(cs@.subrange(start as int, i + 1) =~= Seq::<char>::empty());
        } else {
            assert(cs@.subrange(start as int, i + 1) =~= cs@.subrange(start as int, i as int).push(cs@[i as int]));
        }
    }
    let last = string_from(&cs, start, n);
    let ghost old_done = done@;
    done.push(last);
    assert(cs@.take(n as int) =~= s@);
    assert(str_views(done@) =~= str_views(old_done).push(last@));
    done
}

/// The whitespace-separated words of `s`.
pub fn split_words(s: &str) -> (r: Vec<String>)
    ensures
        str_views(r@) == words(s@),
{
    let cs = chars_of(s);
    let n = cs.len();
    let mut done: Vec<String> = Vec::new();
    let mut start: usize = 0;
    for i in 0..n
        invariant
            n == cs@.len(),
            cs@ == s@,
            start <= i,
            scan_words(cs@.take(i as int)) == (str_views(done@), cs@.subrange(start as int, i as int)),
    {
        let ghost pre = cs@.take(i as int);
        assert(cs@.take(i + 1).drop_last() =~= pre);
        assert(cs@.take(i + 1).last() == cs@[i as int]);
        if is_whitespace(cs[i]) {
            if start < i {
                let word = string_from(&cs, start, i);
                let ghost old_done = done@;
                done.push(word);
                assert(str_views(done@) =~= str_views(old_done).push(word@));
            }
            start = i + 1;
            assert(cs@.subrange(start as int, i + 1) =~= Seq::<char>::empty());
        } else {
            assert(cs@.subrange(start as int, i + 1) =~= cs@.subrange(start as int, i as int).push(cs@[i as int]));
        }
    }
    assert(cs@.take(n as int) =~= s@);
    if start < n {
        let word = string_from(&cs, start, n);
        let ghost old_done = done@;
        done.push(word);
        assert(str_views(done@) =~= str_views(old_done).push(word@));
    }
    done
}


/// The start of the last occurrence of a non-empty `pat` in `s`, or -1 when there is none.
pub open spec fn rfind(s: Seq<char>, pat: Seq<char>) -> int
    decreases s.len(),
{
    if pat.len() == 0 || s.len() < pat.len() {
        -1
    } else if s.subrange(s.len() - pat.len(), s.len() as int) == pat {
        s.len() - pat.len()
    } else {
        rfind(s.drop_last(), pat)
    }
}

pub proof fn lemma_rfind_range(s: Seq<char>, pat: Seq<char>)
    ensures
        -1 <= rfind(s, pat),
        rfind(s, pat) >= 0 ==> rfind(s, pat) <= s.len() - pat.len(),
        rfind(s, pat) >= 0 ==> pat.len() > 0 && s.subrange(
            rfind(s, pat),
            rfind(s, pat) + pat.len(),
        ) == pat,
    decreases s.len(),
{
    if pat.len() == 0 || s.len() < pat.len() {
    } else if s.subrange(s.len() - pat.len(), s.len() as int) == pat {
    } else {
        lemma_rfind_range(s.drop_last(), pat);
        let r = rfind(s.drop_last(), pat);
        if r >= 0 {
            assert(s.drop_last().subrange(r, r + pat.len()) =~= s.subrange(r, r + pat.len()));
        }
    }
}

/// `cs[lo..lo + pat.len()]` equals `pat`.
fn matches_at(cs: &Vec<char>, lo: usize, pat: &Vec<char>) -> (b: bool)
    requires
        lo + pat@.len() <= cs@.len(),
    ensures
        b == (cs@.subrange(lo as int, lo + pat@.len()) == pat@),
{
    let m = pat.len();
    let n = cs.len();
    for j in 0..m
        invariant
            m == pat@.len(),
            n == cs@.len(),
            lo + m <= cs@.len(),
            forall|q: int| 0 <= q < j ==> cs@[lo + q] == pat@[q],
    {
        if cs[lo + j] != pat[j] {
            assert(cs@.subrange(lo as int, lo + pat@.len())[j as int] != pat@[j as int]);
            return false;
        }
    }
    assert(cs@.subrange(lo as int, lo + pat@.len()) =~= pat@);
    true
}

/// The start of the last occurrence of `pat` in `cs[..end]`.
pub fn rfind_in(cs: &Vec<char>, end: usize, pat: &Vec<char>) -> (r: Option<usize>)
    requires
        end <= cs@.len(),
    ensures
        r is None <==> rfind(cs@.take(end as int), pat@) < 0,
        r matches Some(i) ==> i == rfind(cs@.take(end as int), pat@),
{
    let m = pat.len();
    if m == 0 {
        return None;
    }
    let mut i = end;
    while i >= m
        invariant
            m == pat@.len(),
            m > 0,
            i <= end <= cs@.len(),
            rfind(cs@.take(end as int), pat@) == rfind(cs@.take(i as int), pat@),
        decreases i,
    {
        let ghost t = cs@.take(i as int);
        assert(t.subrange(i - m, i as int) =~= cs@.subrange(i - m, i as int));
        if matches_at(cs, i - m, pat) {
            return Some(i - m);
        }
        assert(t.drop_last() =~= cs@.take(i - 1));
        i = i - 1;
    }
    None
}


/// The concatenation of `a`, `b` and `c`.
pub fn concat3(a: &str, b: &str, c: &str) -> (r: String)
    ensures
        r@ == a@ + b@ + c@,
{
    let mut r = a.to_owned();
    r.append(b);
    r.append(c);
    r
}


/// `s` without its leading and trailing whitespace.
pub open spec fn trim(s: Seq<char>) -> Seq<char>
    decreases s.len(),
{
    if s.len() > 0 && is_white(s[0]) {
        trim(s.drop_first())
    } else if s.len() > 0 && is_white(s.last()) {
        trim(s.drop_last())
    } else {
        s
    }
}

proof fn lemma_trim(s: Seq<char>, a: int, b: int)
    requires
        0 <= a <= b <= s.len(),
        forall|i: int| 0 <= i < a ==> is_white(s[i]),
        forall|i: int| b <= i < s.len() ==> is_white(s[i]),
        a < b ==> !is_white(s[a]) && !is_white(s[b - 1]),
    ensures
        trim(s) == s.subrange(a, b),
    decreases s.len(),
{
    if s.len() > 0 && is_white(s[0]) {
        let t = s.drop_first();
        let a2 = if a > 0 { a - 1 } else { 0 };
        let b2 = if b > 0 { b - 1 } else { 0 };
        assert forall|i: int| 0 <= i < a2 implies is_white(t[i]) by {
            assert(t[i] == s[i + 1]);
        }
        assert forall|i: int| b2 <= i < t.len() implies is_white(t[i]) by {
            assert(t[i] == s[i + 1]);
        }
        if a2 < b2 {
            assert(t[a2] == s[a2 + 1]);
            assert(t[b2 - 1] == s[b2]);
        }
        lemma_trim(t, a2, b2);
        assert(t.subrange(a2, b2) =~= s.subrange(a, b));
    } else if s.len() > 0 && is_white(s.last()) {
        let t = s.drop_last();
        let b2 = if b < s.len() { b } else { b - 1 };
        let a2 = if a <= b2 { a } else { b2 };
        assert forall|i: int| 0 <= i < a2 implies is_white(t[i]) by {
            assert(t[i] == s[i]);
        }
        assert forall|i: int| b2 <= i < t.len() implies is_white(t[i]) by {
            assert(t[i] == s[i]);
        }
        lemma_trim(t, a2, b2);
        assert(t.subrange(a2, b2) =~= s.subrange(a, b));
    } else {
        if s.len() > 0 {
            assert(a == 0);
            assert(b == s.len());
        } else {
            assert(s.subrange(a, b) =~= s);
        }
        assert(s.subrange(a, b) =~= s);
    }
}

/// `s` without its leading and trailing whitespace (as `str::trim` does).
pub fn trim_white(s: &str) -> (r: String)
    ensures
        r@ == trim(s@),
{
    let cs = chars_of(s);
    let n = cs.len();
    let mut a: usize = 0;
    while a < n && is_whitespace(cs[a])
        invariant
            n == cs@.len(),
            a <= n,
            forall|i: int| 0 <= i < a ==> is_white(cs@[i]),
        decreases n - a,
    {
        a = a + 1;
    }
    let mut b: usize = n;
    while b > a && is_whitespace(cs[b - 1])
        invariant
            n == cs@.len(),
            a <= b <= n,
            forall|i: int| b <= i < n ==> is_white(cs@[i]),
        decreases b,
    {
        b = b - 1;
    }
    proof {
        lemma_trim(cs@, a as int, b as int);
    }
    string_from(&cs, a, b)
}

} // verus!
