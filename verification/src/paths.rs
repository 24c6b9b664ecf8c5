//! `/`-separated path arithmetic: parent directory, file name, extension, ancestors
//! and joining, following `std::path::Path` on Unix: repeated separators count as
//! one, and a `.` component counts only at the start of a relative path.

use vstd::prelude::*;

use crate::text::sub_chars;

verus! {

/// `s` ends in a `.` component: a `.` with a `/` just before it.
pub open spec fn ends_in_dot(s: Seq<char>) -> bool {
    s.len() >= 2 && s.last() == '.' && s[s.len() - 2] == '/'
}

/// Length of `s` once its trailing separators and trailing `.` components are
/// removed (a leading `.` is kept).
pub open spec fn trimmed_len(s: Seq<char>) -> nat
    decreases s.len(),
{
    if s.len() > 0 && s.last() == '/' {
        trimmed_len(s.drop_last())
    } else if ends_in_dot(s) {
        trimmed_len(s.drop_last())
    } else {
        s.len()
    }
}

/// `s` without trailing separators and trailing `.` components.
pub open spec fn trimmed(s: Seq<char>) -> Seq<char> {
    s.take(trimmed_len(s) as int)
}

/// Index of the last occurrence of `c` in `s`, or -1.
pub open spec fn last_index(s: Seq<char>, c: char) -> int
    decreases s.len(),
{
    if s.len() == 0 {
        -1
    } else if s.last() == c {
        s.len() - 1
    } else {
        last_index(s.drop_last(), c)
    }
}

/// `Path::parent`: `None` for the empty path and the root; otherwise the path
/// without its last component, and without the separators and `.` components
/// next to that component (so `a/./b` has parent `a`, and `a/.` has parent ``).
pub open spec fn path_parent(p: Seq<char>) -> Option<Seq<char>> {
    let q = trimmed(p);
    if q.len() == 0 {
        None
    } else {
        let i = last_index(q, '/');
        if i < 0 {
            Some(Seq::empty())
        } else {
            let r = trimmed(q.take(i));
            if r.len() == 0 {
                Some(seq!['/'])
            } else {
                Some(r)
            }
        }
    }
}

/// `Path::file_name`: the last component, trailing `.` components aside (so
/// `a/.` has file name `a`), unless there is none or it is `..` or a leading `.`.
pub open spec fn path_file_name(p: Seq<char>) -> Option<Seq<char>> {
    let q = trimmed(p);
    let name = q.skip(last_index(q, '/') + 1);
    if q.len() == 0 || name == seq!['.'] || name == seq!['.', '.'] {
        None
    } else {
        Some(name)
    }
}

/// `Path::extension`: what follows the last `.` of the file name, when that `.`
/// is not the name's first character.
pub open spec fn path_extension(p: Seq<char>) -> Option<Seq<char>> {
    match path_file_name(p) {
        None => None,
        Some(name) => {
            let d = last_index(name, '.');
            if d <= 0 {
                None
            } else {
                Some(name.skip(d + 1))
            }
        },
    }
}

/// The proper ancestor directories of `p`, nearest first, as visited by repeatedly
/// popping the last component until the path is empty or has no parent.
pub open spec fn ancestors(p: Seq<char>) -> Seq<Seq<char>>
    decreases p.len(),
{
    match path_parent(p) {
        Some(d) => if d.len() == 0 || d.len() >= p.len() {
            Seq::empty()
        } else {
            seq![d] + ancestors(d)
        },
        None => Seq::empty(),
    }
}

/// `Path::join` with a relative name: `name` alone below the empty path, otherwise
/// `dir` and `name` with one `/` between them.
pub open spec fn path_join(dir: Seq<char>, name: Seq<char>) -> Seq<char> {
    if dir.len() == 0 {
        name
    } else if dir.last() == '/' {
        dir + name
    } else {
        dir + seq!['/'] + name
    }
}

/// Option of character vector, viewed as option of sequence.
pub open spec fn opt_chars(o: Option<Vec<char>>) -> Option<Seq<char>> {
    match o {
        Some(v) => Some(v@),
        None => None,
    }
}

pub proof fn lemma_trimmed_len_le(s: Seq<char>)
    ensures
        trimmed_len(s) <= s.len(),
        trimmed_len(s) > 0 ==> s[trimmed_len(s) - 1] != '/',
        !ends_in_dot(s.take(trimmed_len(s) as int)),
    decreases s.len(),
{
    if (s.len() > 0 && s.last() == '/') || ends_in_dot(s) {
        lemma_trimmed_len_le(s.drop_last());
        let t = trimmed_len(s) as int;
        assert(s.drop_last().take(t) == s.take(t));
    } else {
        assert(s.take(s.len() as int) == s);
    }
}

pub proof fn lemma_last_index_bounds(s: Seq<char>, c: char)
    ensures
        -1 <= last_index(s, c) < s.len(),
        last_index(s, c) >= 0 ==> s[last_index(s, c)] == c,
        forall|j: int| last_index(s, c) < j < s.len() ==> s[j] != c,
    decreases s.len(),
{
    if s.len() > 0 && s.last() != c {
        lemma_last_index_bounds(s.drop_last(), c);
        assert forall|j: int| last_index(s, c) < j < s.len() implies s[j] != c by {
            if j < s.len() - 1 {
                assert(s[j] == s.drop_last()[j]);
            }
        }
    }
}

/// The parent of a path is strictly shorter than the path.
pub proof fn lemma_parent_shorter(p: Seq<char>)
    ensures
        path_parent(p) matches Some(d) ==> d.len() < p.len(),
{
    lemma_trimmed_len_le(p);
    let q = trimmed(p);
    if q.len() > 0 {
        lemma_last_index_bounds(q, '/');
        let i = last_index(q, '/');
        if i >= 0 {
            lemma_trimmed_len_le(q.take(i));
        }
    }
}

/// Every ancestor is shorter than the path, so no ancestor is repeated.
pub proof fn lemma_ancestors_shorter(p: Seq<char>)
    ensures
        forall|k: int| 0 <= k < ancestors(p).len() ==> #[trigger] ancestors(p)[k].len() < p.len(),
        forall|k: int| 0 <= k < ancestors(p).len() ==> #[trigger] ancestors(p)[k].len() > 0,
        ancestors(p).no_duplicates(),
    decreases p.len(),
{
    lemma_parent_shorter(p);
    match path_parent(p) {
        Some(d) => {
            if d.len() > 0 && d.len() < p.len() {
                lemma_ancestors_shorter(d);
                let a = ancestors(p);
                assert(a == seq![d] + ancestors(d));
                assert forall|k: int| 0 <= k < a.len() implies #[trigger] a[k].len() < p.len()
                    && a[k].len() > 0 by {
                    if k > 0 {
                        assert(a[k] == ancestors(d)[k - 1]);
                    }
                }
                assert forall|x: int, y: int| 0 <= x < a.len() && 0 <= y < a.len() && x != y
                    implies a[x] != a[y] by {
                    if x == 0 {
                        assert(a[y] == ancestors(d)[y - 1]);
                    } else if y == 0 {
                        assert(a[x] == ancestors(d)[x - 1]);
                    } else {
                        assert(a[x] == ancestors(d)[x - 1]);
                        assert(a[y] == ancestors(d)[y - 1]);
                    }
                }
            }
        },
        None => {},
    }
}

/// Length of `s[..upto]` without its trailing separators and `.` components.
fn trimmed_count(s: &Vec<char>, upto: usize) -> (n: usize)
    requires
        upto <= s.len(),
    ensures
        n == trimmed_len(s@.take(upto as int)),
{
    let mut k = upto;
    while k > 0 && (s[k - 1] == '/' || (k >= 2 && s[k - 1] == '.' && s[k - 2] == '/'))
        invariant
            k <= upto <= s.len(),
            trimmed_len(s@.take(upto as int)) == trimmed_len(s@.take(k as int)),
        decreases k,
    {
        assert(s@.take(k as int).drop_last() == s@.take(k - 1));
        k -= 1;
    }
    assert(!(k > 0 && s@.take(k as int).last() == '/') && !ends_in_dot(s@.take(k as int)));
    k
}

/// Index of the last `c` among `s[..upto]`, or `None`.
pub fn last_index_in(s: &Vec<char>, upto: usize, c: char) -> (r: Option<usize>)
    requires
        upto <= s.len(),
    ensures
        match r {
            Some(i) => i < upto && i as int == last_index(s@.take(upto as int), c),
            None => last_index(s@.take(upto as int), c) == -1,
        },
{
    let mut k = upto;
    proof {
        lemma_last_index_bounds(s@.take(upto as int), c);
    }
    while k > 0
        invariant
            k <= upto <= s.len(),
            last_index(s@.take(upto as int), c) == last_index(s@.take(k as int), c),
        decreases k,
    {
        assert(s@.take(k as int).drop_last() == s@.take(k - 1));
        if s[k - 1] == c {
            return Some(k - 1);
        }
        k -= 1;
    }
    None
}

/// `Path::parent` on a character vector.
pub fn parent_of(p: &Vec<char>) -> (r: Option<Vec<char>>)
    ensures
        opt_chars(r) == path_parent(p@),
{
    let n = trimmed_count(p, p.len());
    assert(p@.take(p.len() as int) == p@);
    if n == 0 {
        return None;
    }
    proof {
        lemma_trimmed_len_le(p@);
    }
    let q = sub_chars(p, 0, n);
    assert(q@ == trimmed(p@));
    match last_index_in(&q, n, '/') {
        None => {
            assert(q@.take(n as int) == q@);
            Some(Vec::new())
        },
        Some(i) => {
            assert(q@.take(n as int) == q@);
            proof {
                lemma_last_index_bounds(q@, '/');
            }
            let m = trimmed_count(&q, i);
            proof {
                lemma_trimmed_len_le(q@.take(i as int));
            }
            if m == 0 {
                let mut root: Vec<char> = Vec::new();
                root.push('/');
                assert(root@ == seq!['/']);
                Some(root)
            } else {
                let r = sub_chars(&q, 0, m);
                assert(r@ == trimmed(q@.take(i as int)));
                Some(r)
            }
        },
    }
}

/// `Path::file_name` on a character vector.
pub fn file_name_of(p: &Vec<char>) -> (r: Option<Vec<char>>)
    ensures
        opt_chars(r) == path_file_name(p@),
{
    let n = trimmed_count(p, p.len());
    assert(p@.take(p.len() as int) == p@);
    proof {
        lemma_trimmed_len_le(p@);
    }
    let q = sub_chars(p, 0, n);
    assert(q@ == trimmed(p@));
    let start = match last_index_in(&q, n, '/') {
        Some(i) => i + 1,
        None => 0,
    };
    assert(q@.take(n as int) == q@);
    proof {
        lemma_last_index_bounds(q@, '/');
    }
    let name = sub_chars(&q, start, n);
    assert(name@ == q@.skip(last_index(q@, '/') + 1));
    if n == 0 {
        return None;
    }
    let is_dot = name.len() == 1 && name[0] == '.';
    let is_dotdot = name.len() == 2 && name[0] == '.' && name[1] == '.';
    proof {
        if name@ == seq!['.'] {
            assert(name@[0] == '.');
        }
        if name@ == seq!['.', '.'] {
            assert(name@[0] == '.' && name@[1] == '.');
        }
        if is_dot {
            assert(name@ =~= seq!['.']);
        }
        if is_dotdot {
            assert(name@ =~= seq!['.', '.']);
        }
    }
    if is_dot || is_dotdot {
        None
    } else {
        Some(name)
    }
}

/// `Path::extension` on a character vector.
pub fn extension_of(p: &Vec<char>) -> (r: Option<Vec<char>>)
    ensures
        opt_chars(r) == path_extension(p@),
{
    match file_name_of(p) {
        None => None,
        Some(name) => {
            let d = last_index_in(&name, name.len(), '.');
            assert(name@.take(name.len() as int) == name@);
            proof {
                lemma_last_index_bounds(name@, '.');
            }
            match d {
                Some(d) => {
                    if d == 0 {
                        None
                    } else {
                        Some(sub_chars(&name, d + 1, name.len()))
                    }
                },
                None => None,
            }
        },
    }
}

/// The ancestors of `p`, nearest first.
pub fn ancestors_of(p: &Vec<char>) -> (out: Vec<Vec<char>>)
    ensures
        out@.len() == ancestors(p@).len(),
        forall|k: int| 0 <= k < out@.len() ==> #[trigger] out@[k]@ == ancestors(p@)[k],
{
    let mut out: Vec<Vec<char>> = Vec::new();
    let mut cur: Vec<char> = p.clone();
    assert(cur@ == p@);
    loop
        invariant
            ancestors(p@) == out@.map_values(|v: Vec<char>| v@) + ancestors(cur@),
        ensures
            ancestors(p@) == out@.map_values(|v: Vec<char>| v@) + ancestors(cur@),
            ancestors(cur@).len() == 0,
        decreases cur@.len(),
    {
        proof {
            lemma_parent_shorter(cur@);
        }
        match parent_of(&cur) {
            Some(d) => {
                if d.len() == 0 {
                    assert(ancestors(cur@) =~= Seq::<Seq<char>>::empty());
                    break;
                }
                let ghost old_out = out@.map_values(|v: Vec<char>| v@);
                assert(ancestors(cur@) == seq![d@] + ancestors(d@));
                out.push(d.clone());
                assert(out@.map_values(|v: Vec<char>| v@) =~= old_out.push(d@));
                assert(old_out + ancestors(cur@) =~= old_out.push(d@) + ancestors(d@));
                cur = d;
            },
            None => {
                assert(ancestors(cur@) =~= Seq::<Seq<char>>::empty());
                break;
            },
        }
    }
    assert(ancestors(p@) =~= out@.map_values(|v: Vec<char>| v@));
    out
}

} // verus!
