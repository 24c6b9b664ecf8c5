//! Character-level string helpers: whitespace, trimming, splitting and comparison.
//!
//! Strings are handled as sequences of `char`s; the spec functions here state what
//! each helper computes, in the form the rest of the library reasons with.

use vstd::prelude::*;

verus! {

/// The characters of `s`, in order.
pub fn chars_of(s: &str) -> (out: Vec<char>)
    ensures
        out@ == s@,
{
    let mut out: Vec<char> = Vec::new();
    for c in it: s.chars()
        invariant
            out@ == it.seq().take(it.index() as int),
            it.seq() == s@,
    {
        out.push(c);
    }
    out
}

/// `String::push`: appends `c` to `s`.
#[verifier::external_body]
fn push_char(s: &mut String, c: char)
    ensures
        final(s)@ == old(s)@.push(c),
{
    s.push(c);
}

/// A `String` holding exactly the given characters.
pub fn string_from_chars(cs: &[char]) -> (s: String)
    ensures
        s@ == cs@,
{
    let mut s = String::new();
    let mut i: usize = 0;
    while i < cs.len()
        invariant
            i <= cs@.len(),
            s@ == cs@.take(i as int),
        decreases cs@.len() - i,
    {
        push_char(&mut s, cs[i]);
        assert(cs@.take(i + 1) =~= cs@.take(i as int).push(cs@[i as int]));
        i += 1;
    }
    assert(cs@.take(cs@.len() as int) =~= cs@);
    s
}

/// A fresh `String` equal to `s`.
pub fn string_of(s: &str) -> (out: String)
    ensures
        out@ == s@,
{
    let cs = chars_of(s);
    string_from_chars(cs.as_slice())
}

/// Rust's `char::is_whitespace`: the Unicode `White_Space` property.
pub open spec fn is_ws(c: char) -> bool {
    let u = c as u32;
    ||| 0x09 <= u <= 0x0D
    ||| u == 0x20
    ||| u == 0x85
    ||| u == 0xA0
    ||| u == 0x1680
    ||| 0x2000 <= u <= 0x200A
    ||| u == 0x2028
    ||| u == 0x2029
    ||| u == 0x202F
    ||| u == 0x205F
    ||| u == 0x3000
}

/// Whether `c` is a Unicode whitespace character.
pub fn is_whitespace(c: char) -> (b: bool)
    ensures
        b == is_ws(c),
{
    let u = c as u32;
    (0x09 <= u && u <= 0x0D) || u == 0x20 || u == 0x85 || u == 0xA0 || u == 0x1680 || (0x2000
        <= u && u <= 0x200A) || u == 0x2028 || u == 0x2029 || u == 0x202F || u == 0x205F || u
        == 0x3000
}

/// `s` without leading whitespace.
pub open spec fn trim_start(s: Seq<char>) -> Seq<char>
    decreases s.len(),
{
    if s.len() > 0 && is_ws(s[0]) {
        trim_start(s.drop_first())
    } else {
        s
    }
}

/// `s` without trailing whitespace.
pub open spec fn trim_end(s: Seq<char>) -> Seq<char>
    decreases s.len(),
{
    if s.len() > 0 && is_ws(s.last()) {
        trim_end(s.drop_last())
    } else {
        s
    }
}

/// `str::trim`: `s` without leading and trailing whitespace.
pub open spec fn trim(s: Seq<char>) -> Seq<char> {
    trim_end(trim_start(s))
}

/// The characters `s[lo..hi]` as a new vector.
pub fn sub_chars(s: &Vec<char>, lo: usize, hi: usize) -> (out: Vec<char>)
    requires
        lo <= hi <= s.len(),
    ensures
        out@ == s@.subrange(lo as int, hi as int),
{
    let mut out: Vec<char> = Vec::new();
    let mut i = lo;
    while i < hi
        invariant
            lo <= i <= hi <= s.len(),
            out@ == s@.subrange(lo as int, i as int),
        decreases hi - i,
    {
        out.push(s[i]);
        i += 1;
    }
    out
}

proof fn lemma_trim_start_skip(s: Seq<char>, i: int)
    requires
        0 <= i <= s.len(),
        forall|j: int| 0 <= j < i ==> is_ws(s[j]),
    ensures
        trim_start(s) == trim_start(s.subrange(i, s.len() as int)),
    decreases i,
{
    if i > 0 {
        assert(s.drop_first() == s.subrange(1, s.len() as int));
        lemma_trim_start_skip(s.drop_first(), i - 1);
        assert(s.drop_first().subrange(i - 1, s.drop_first().len() as int) == s.subrange(
            i,
            s.len() as int,
        ));
    } else {
        assert(s.subrange(0, s.len() as int) == s);
    }
}

proof fn lemma_trim_end_cut(s: Seq<char>, k: int)
    requires
        0 <= k <= s.len(),
        forall|j: int| k <= j < s.len() ==> is_ws(s[j]),
    ensures
        trim_end(s) == trim_end(s.subrange(0, k)),
    decreases s.len() - k,
{
    if k < s.len() {
        assert(s.drop_last() == s.subrange(0, s.len() - 1));
        lemma_trim_end_cut(s.drop_last(), k);
        assert(s.drop_last().subrange(0, k) == s.subrange(0, k));
    } else {
        assert(s.subrange(0, k) == s);
    }
}

/// `str::trim` on a character vector.
pub fn trim_chars(s: &Vec<char>) -> (out: Vec<char>)
    ensures
        out@ == trim(s@),
{
    let mut i: usize = 0;
    while i < s.len() && is_whitespace(s[i])
        invariant
            i <= s.len(),
            forall|j: int| 0 <= j < i ==> is_ws(s@[j]),
        decreases s.len() - i,
    {
        i += 1;
    }
    let mut k: usize = s.len();
    while k > i && is_whitespace(s[k - 1])
        invariant
            i <= k <= s.len(),
            forall|j: int| k <= j < s.len() ==> is_ws(s@[j]),
        decreases k,
    {
        k -= 1;
    }
    proof {
        lemma_trim_start_skip(s@, i as int);
        let rest = s@.subrange(i as int, s@.len() as int);
        if i < s.len() {
            assert(!is_ws(rest[0]));
        }
        assert(trim_start(rest) == rest);
        lemma_trim_end_cut(rest, k - i);
        assert(rest.subrange(0, k - i) == s@.subrange(i as int, k as int));
        let mid = s@.subrange(i as int, k as int);
        if k > i {
            assert(mid.last() == s@[k - 1]);
        }
        assert(trim_end(mid) == mid);
    }
    sub_chars(s, i, k)
}

/// Whether `p` is a prefix of `s`.
pub open spec fn has_prefix(s: Seq<char>, p: Seq<char>) -> bool {
    p.len() <= s.len() && s.subrange(0, p.len() as int) == p
}

/// Whether the character sequences are equal.
pub fn chars_eq(a: &[char], b: &[char]) -> (r: bool)
    ensures
        r == (a@ == b@),
{
    if a.len() != b.len() {
        return false;
    }
    let mut i: usize = 0;
    while i < a.len()
        invariant
            i <= a.len() == b.len(),
            forall|j: int| 0 <= j < i ==> a@[j] == b@[j],
        decreases a.len() - i,
    {
        if a[i] != b[i] {
            return false;
        }
        i += 1;
    }
    assert(a@ =~= b@);
    true
}

/// Whether `p` is a prefix of `s`.
pub fn starts_with(s: &[char], p: &[char]) -> (r: bool)
    ensures
        r == has_prefix(s@, p@),
{
    if p.len() > s.len() {
        return false;
    }
    let mut i: usize = 0;
    while i < p.len()
        invariant
            i <= p.len() <= s.len(),
            forall|j: int| 0 <= j < i ==> s@[j] == p@[j],
        decreases p.len() - i,
    {
        if s[i] != p[i] {
            assert(s@.subrange(0, p.len() as int)[i as int] != p@[i as int]);
            return false;
        }
        i += 1;
    }
    assert(s@.subrange(0, p.len() as int) =~= p@);
    true
}

/// Whether `c` occurs in `s`.
pub fn contains_char(s: &[char], c: char) -> (r: bool)
    ensures
        r == s@.contains(c),
{
    let mut i: usize = 0;
    while i < s.len()
        invariant
            i <= s.len(),
            forall|j: int| 0 <= j < i ==> s@[j] != c,
        decreases s.len() - i,
    {
        if s[i] == c {
            assert(s@[i as int] == c);
            return true;
        }
        i += 1;
    }
    false
}

/// State of `str::split_whitespace` after reading `s`: the finished words and the
/// word being read.
pub open spec fn words_state(s: Seq<char>) -> (Seq<Seq<char>>, Seq<char>)
    decreases s.len(),
{
    if s.len() == 0 {
        (Seq::empty(), Seq::empty())
    } else {
        let (done, cur) = words_state(s.drop_last());
        if is_ws(s.last()) {
            if cur.len() > 0 {
                (done.push(cur), Seq::empty())
            } else {
                (done, Seq::empty())
            }
        } else {
            (done, cur.push(s.last()))
        }
    }
}

/// `str::split_whitespace`: the maximal runs of non-whitespace characters of `s`.
pub open spec fn words(s: Seq<char>) -> Seq<Seq<char>> {
    let (done, cur) = words_state(s);
    if cur.len() > 0 {
        done.push(cur)
    } else {
        done
    }
}

/// `str::split_whitespace` on a character vector.
pub fn split_words(s: &Vec<char>) -> (out: Vec<Vec<char>>)
    ensures
        out@.len() == words(s@).len(),
        forall|i: int| 0 <= i < out@.len() ==> #[trigger] out@[i]@ == words(s@)[i],
{
    let mut done: Vec<Vec<char>> = Vec::new();
    let mut cur: Vec<char> = Vec::new();
    let mut i: usize = 0;
    while i < s.len()
        invariant
            i <= s.len(),
            done@.len() == words_state(s@.take(i as int)).0.len(),
            forall|j: int|
                0 <= j < done@.len() ==> #[trigger] done@[j]@ == words_state(
                    s@.take(i as int),
                ).0[j],
            cur@ == words_state(s@.take(i as int)).1,
        decreases s.len() - i,
    {
        let c = s[i];
        assert(s@.take(i + 1).drop_last() == s@.take(i as int));
        if is_whitespace(c) {
            if cur.len() > 0 {
                done.push(cur);
                cur = Vec::new();
            }
        } else {
            cur.push(c);
        }
        i += 1;
    }
    assert(s@.take(s.len() as int) == s@);
    if cur.len() > 0 {
        done.push(cur);
    }
    done
}

/// State of `str::split(sep)` after reading `s`: the finished pieces and the piece
/// being read.
pub open spec fn pieces_state(s: Seq<char>, sep: char) -> (Seq<Seq<char>>, Seq<char>)
    decreases s.len(),
{
    if s.len() == 0 {
        (Seq::empty(), Seq::empty())
    } else {
        let (done, cur) = pieces_state(s.drop_last(), sep);
        if s.last() == sep {
            (done.push(cur), Seq::empty())
        } else {
            (done, cur.push(s.last()))
        }
    }
}

/// `str::split(sep)`: the pieces of `s` between occurrences of `sep` (always at
/// least one piece).
pub open spec fn pieces(s: Seq<char>, sep: char) -> Seq<Seq<char>> {
    let (done, cur) = pieces_state(s, sep);
    done.push(cur)
}

/// `str::split(sep)` on a character vector.
pub fn split_on(s: &Vec<char>, sep: char) -> (out: Vec<Vec<char>>)
    ensures
        out@.len() == pieces(s@, sep).len(),
        forall|i: int| 0 <= i < out@.len() ==> #[trigger] out@[i]@ == pieces(s@, sep)[i],
{
    let mut done: Vec<Vec<char>> = Vec::new();
    let mut cur: Vec<char> = Vec::new();
    let mut i: usize = 0;
    while i < s.len()
        invariant
            i <= s.len(),
            done@.len() == pieces_state(s@.take(i as int), sep).0.len(),
            forall|j: int|
                0 <= j < done@.len() ==> #[trigger] done@[j]@ == pieces_state(
                    s@.take(i as int),
                    sep,
                ).0[j],
            cur@ == pieces_state(s@.take(i as int), sep).1,
        decreases s.len() - i,
    {
        let c = s[i];
        assert(s@.take(i + 1).drop_last() == s@.take(i as int));
        if c == sep {
            done.push(cur);
            cur = Vec::new();
        } else {
            cur.push(c);
        }
        i += 1;
    }
    assert(s@.take(s.len() as int) == s@);
    done.push(cur);
    done
}

/// What a list of strings holds.
pub open spec fn views(v: Seq<String>) -> Seq<Seq<char>> {
    v.map_values(|s: String| s@)
}

/// A copy of every string of `v`, in order.
pub fn copy_strings(v: &[String]) -> (out: Vec<String>)
    ensures
        views(out@) == views(v@),
{
    let mut out: Vec<String> = Vec::new();
    let mut i: usize = 0;
    while i < v.len()
        invariant
            i <= v@.len(),
            out@.len() == i,
            views(out@) == views(v@.take(i as int)),
        decreases v@.len() - i,
    {
        let ghost before = out@;
        out.push(v[i].clone());
        assert forall|j: int| 0 <= j <= i implies #[trigger] views(out@)[j] == views(
            v@.take(i + 1),
        )[j] by {
            if j < i {
                assert(out@[j] == before[j]);
                assert(views(before)[j] == views(v@.take(i as int))[j]);
            }
        }
        assert(views(out@) =~= views(v@.take(i + 1)));
        i += 1;
    }
    assert(v@.take(v@.len() as int) =~= v@);
    out
}

/// A line without the carriage return that ends it, if any.
pub open spec fn strip_cr(l: Seq<char>) -> Seq<char> {
    if l.len() > 0 && l.last() == '\r' {
        l.drop_last()
    } else {
        l
    }
}

/// `str::lines`: the lines of `s`, split at `\n` with a `\r` right before it
/// dropped; a final empty line (after a trailing `\n`, or of an empty `s`) is not
/// a line.
pub open spec fn lines_of(s: Seq<char>) -> Seq<Seq<char>> {
    let ps = pieces(s, '\n');
    let n = ps.len() - 1;
    let ended = ps.take(n).map_values(|l: Seq<char>| strip_cr(l));
    if ps[n].len() == 0 {
        ended
    } else {
        ended.push(ps[n])
    }
}

/// The lines of `s`, as `str::lines` gives them.
pub fn text_lines(s: &str) -> (out: Vec<Vec<char>>)
    ensures
        out@.len() == lines_of(s@).len(),
        forall|i: int| 0 <= i < out@.len() ==> #[trigger] out@[i]@ == lines_of(s@)[i],
{
    let cs = chars_of(s);
    let ps = split_on(&cs, '\n');
    let ghost sp = pieces(s@, '\n');
    let n = ps.len() - 1;
    let mut out: Vec<Vec<char>> = Vec::new();
    let mut i: usize = 0;
    while i < n
        invariant
            n == sp.len() - 1,
            i <= n,
            ps@.len() == sp.len(),
            forall|j: int| 0 <= j < ps@.len() ==> #[trigger] ps@[j]@ == sp[j],
            out@.len() == i,
            forall|j: int| 0 <= j < i ==> #[trigger] out@[j]@ == strip_cr(sp[j]),
        decreases n - i,
    {
        let p = &ps[i];
        let k = p.len();
        if k > 0 && p[k - 1] == '\r' {
            let q = sub_chars(p, 0, k - 1);
            out.push(q);
        } else {
            let q = sub_chars(p, 0, k);
            out.push(q);
        }
        proof {
            assert(p@.take(k - 1) =~= p@.drop_last());
        }
        i += 1;
    }
    if ps[n].len() > 0 {
        let last = sub_chars(&ps[n], 0, ps[n].len());
        out.push(last);
    }
    proof {
        let ended = sp.take(n as int).map_values(|l: Seq<char>| strip_cr(l));
        assert forall|j: int| 0 <= j < n implies #[trigger] out@[j]@ == ended[j] by {}
    }
    out
}

/// Whether `a` and `b` hold the same characters.
pub fn same_text(a: &str, b: &str) -> (r: bool)
    ensures
        r == (a@ == b@),
{
    let x = chars_of(a);
    let y = chars_of(b);
    chars_eq(x.as_slice(), y.as_slice())
}

/// `str::replace(pat, with)` for a non-empty `pat`: every occurrence of `pat` in `s`,
/// found left to right without overlap, replaced by `with`.
pub open spec fn replace_all(s: Seq<char>, pat: Seq<char>, with: Seq<char>) -> Seq<char>
    decreases s.len(),
{
    if s.len() == 0 || pat.len() == 0 {
        s
    } else if has_prefix(s, pat) {
        with + replace_all(s.skip(pat.len() as int), pat, with)
    } else {
        seq![s[0]] + replace_all(s.drop_first(), pat, with)
    }
}

/// Whether `pat` occurs in `s` at position `i`.
fn occurs_at(s: &Vec<char>, i: usize, pat: &Vec<char>) -> (r: bool)
    requires
        i <= s@.len(),
    ensures
        r == has_prefix(s@.skip(i as int), pat@),
{
    if pat.len() > s.len() - i {
        return false;
    }
    let mut k: usize = 0;
    while k < pat.len()
        invariant
            k <= pat@.len(),
            i + pat@.len() <= s@.len(),
            s@.len() == s.len(),
            forall|j: int| 0 <= j < k ==> s@[i + j] == pat@[j],
        decreases pat@.len() - k,
    {
        if s[i + k] != pat[k] {
            assert(s@.skip(i as int).subrange(0, pat@.len() as int)[k as int] != pat@[k as int]);
            return false;
        }
        k += 1;
    }
    assert(s@.skip(i as int).subrange(0, pat@.len() as int) =~= pat@);
    true
}

/// `s` with every occurrence of the non-empty `pat` replaced by `with`.
pub fn replace_text(s: &str, pat: &str, with: &str) -> (out: String)
    requires
        pat@.len() > 0,
    ensures
        out@ == replace_all(s@, pat@, with@),
{
    let cs = chars_of(s);
    let ps = chars_of(pat);
    let ws = chars_of(with);
    let mut out: Vec<char> = Vec::new();
    let mut i: usize = 0;
    assert(cs@.skip(0) =~= cs@);
    while i < cs.len()
        invariant
            i <= cs@.len(),
            ps@.len() > 0,
            out@ + replace_all(cs@.skip(i as int), ps@, ws@) == replace_all(cs@, ps@, ws@),
        decreases cs@.len() - i,
    {
        let ghost rest = cs@.skip(i as int);
        if occurs_at(&cs, i, &ps) {
            let mut k: usize = 0;
            let ghost before = out@;
            while k < ws.len()
                invariant
                    k <= ws@.len(),
                    out@ == before + ws@.take(k as int),
                decreases ws@.len() - k,
            {
                out.push(ws[k]);
                k += 1;
            }
            assert(ws@.take(ws@.len() as int) =~= ws@);
            assert(rest.skip(ps@.len() as int) =~= cs@.skip(i + ps@.len()));
            assert(out@ + replace_all(cs@.skip(i + ps@.len()), ps@, ws@) =~= before + replace_all(
                rest,
                ps@,
                ws@,
            ));
            i = i + ps.len();
        } else {
            let ghost before = out@;
            out.push(cs[i]);
            assert(rest[0] == cs@[i as int]);
            assert(rest.drop_first() =~= cs@.skip(i + 1));
            assert(out@ + replace_all(cs@.skip(i + 1), ps@, ws@) =~= before + replace_all(
                rest,
                ps@,
                ws@,
            ));
            i = i + 1;
        }
    }
    assert(cs@.skip(i as int).len() == 0);
    assert(out@ + replace_all(cs@.skip(i as int), ps@, ws@) =~= out@);
    string_from_chars(out.as_slice())
}

/// `parts` joined with `sep` between each two.
pub open spec fn joined(parts: Seq<Seq<char>>, sep: Seq<char>) -> Seq<char>
    decreases parts.len(),
{
    if parts.len() == 0 {
        Seq::empty()
    } else if parts.len() == 1 {
        parts[0]
    } else {
        joined(parts.drop_last(), sep) + sep + parts.last()
    }
}

/// `out` with the characters of `b` appended.
pub fn push_all(out: &mut Vec<char>, b: &[char])
    ensures
        final(out)@ == old(out)@ + b@,
{
    let mut k: usize = 0;
    while k < b.len()
        invariant
            k <= b@.len(),
            out@ == old(out)@ + b@.take(k as int),
        decreases b@.len() - k,
    {
        out.push(b[k]);
        k += 1;
    }
    assert(b@.take(b@.len() as int) =~= b@);
}

/// `parts` joined with `sep`.
pub fn join_with(parts: &[String], sep: &str) -> (out: String)
    ensures
        out@ == joined(views(parts@), sep@),
{
    let sc = chars_of(sep);
    let mut out: Vec<char> = Vec::new();
    let mut i: usize = 0;
    while i < parts.len()
        invariant
            i <= parts@.len(),
            sc@ == sep@,
            out@ == joined(views(parts@.take(i as int)), sep@),
        decreases parts@.len() - i,
    {
        let pc = chars_of(parts[i].as_str());
        let ghost t = views(parts@.take(i + 1));
        assert(t.drop_last() =~= views(parts@.take(i as int)));
        assert(t.last() == parts@[i as int]@);
        if i > 0 {
            push_all(&mut out, sc.as_slice());
        } else {
            assert(t =~= seq![parts@[0]@]);
        }
        push_all(&mut out, pc.as_slice());
        i += 1;
    }
    assert(parts@.take(parts@.len() as int) =~= parts@);
    string_from_chars(out.as_slice())
}

/// `a` followed by `b`.
pub fn concat_text(a: &str, b: &str) -> (out: String)
    ensures
        out@ == a@ + b@,
{
    let mut out = chars_of(a);
    let bc = chars_of(b);
    push_all(&mut out, bc.as_slice());
    string_from_chars(out.as_slice())
}

/// `t` has no surrounding whitespace.
pub open spec fn is_trimmed(t: Seq<char>) -> bool {
    t.len() == 0 || (!is_ws(t[0]) && !is_ws(t.last()))
}

proof fn lemma_trim_start_shape(s: Seq<char>)
    ensures
        trim_start(s).len() == 0 || !is_ws(trim_start(s)[0]),
    decreases s.len(),
{
    if s.len() > 0 && is_ws(s[0]) {
        lemma_trim_start_shape(s.drop_first());
    }
}

proof fn lemma_trim_end_shape(s: Seq<char>)
    ensures
        trim_end(s).len() <= s.len(),
        trim_end(s) == s.take(trim_end(s).len() as int),
        trim_end(s).len() == 0 || !is_ws(trim_end(s).last()),
    decreases s.len(),
{
    if s.len() > 0 && is_ws(s.last()) {
        lemma_trim_end_shape(s.drop_last());
        let t = trim_end(s);
        assert(s.drop_last().take(t.len() as int) =~= s.take(t.len() as int));
    } else {
        assert(s.take(s.len() as int) =~= s);
    }
}

/// Trimming leaves no surrounding whitespace, and a trimmed text trims to itself.
pub proof fn lemma_trim_trimmed(s: Seq<char>)
    ensures
        is_trimmed(trim(s)),
        is_trimmed(s) ==> trim(s) == s,
        trim(trim(s)) == trim(s),
{
    lemma_trim_start_shape(s);
    let a = trim_start(s);
    lemma_trim_end_shape(a);
    let t = trim_end(a);
    if t.len() > 0 {
        assert(t[0] == a[0]);
    }
    assert(is_trimmed(t));
    if is_trimmed(s) {
        if s.len() > 0 {
            assert(trim_start(s) == s);
            assert(trim_end(s) == s);
        } else {
            assert(trim_start(s) == s);
        }
    }
    if t.len() > 0 {
        assert(trim_start(t) == t);
        assert(trim_end(t) == t);
    } else {
        assert(trim_start(t) == t);
    }
}

/// Trimming adds no character.
pub proof fn lemma_trim_lacks(s: Seq<char>, c: char)
    requires
        !s.contains(c),
    ensures
        !trim(s).contains(c),
{
    lemma_trim_start_lacks(s, c);
    lemma_trim_start_shape(s);
    lemma_trim_end_shape(trim_start(s));
    let a = trim_start(s);
    let t = trim_end(a);
    if t.contains(c) {
        let i = choose|i: int| 0 <= i < t.len() && t[i] == c;
        assert(a[i] == c);
    }
}

proof fn lemma_trim_start_lacks(s: Seq<char>, c: char)
    requires
        !s.contains(c),
    ensures
        !trim_start(s).contains(c),
    decreases s.len(),
{
    if s.len() > 0 && is_ws(s[0]) {
        let r = s.drop_first();
        if r.contains(c) {
            let i = choose|i: int| 0 <= i < r.len() && r[i] == c;
            assert(s[i + 1] == c);
        }
        lemma_trim_start_lacks(r, c);
    }
}

/// A text without the separator is one piece.
pub proof fn lemma_pieces_state_plain(s: Seq<char>, sep: char)
    requires
        !s.contains(sep),
    ensures
        pieces_state(s, sep) == (Seq::<Seq<char>>::empty(), s),
    decreases s.len(),
{
    if s.len() > 0 {
        let r = s.drop_last();
        if r.contains(sep) {
            let i = choose|i: int| 0 <= i < r.len() && r[i] == sep;
            assert(s[i] == sep);
        }
        lemma_pieces_state_plain(r, sep);
        assert(s[s.len() - 1] != sep);
        assert(r.push(s.last()) =~= s);
    }
}

/// Text without the separator, appended, extends the current piece.
pub proof fn lemma_pieces_state_append(s: Seq<char>, t: Seq<char>, sep: char)
    requires
        !t.contains(sep),
    ensures
        pieces_state(s + t, sep) == (pieces_state(s, sep).0, pieces_state(s, sep).1 + t),
    decreases t.len(),
{
    if t.len() == 0 {
        assert(s + t =~= s);
        assert(pieces_state(s, sep).1 + t =~= pieces_state(s, sep).1);
    } else {
        let r = t.drop_last();
        if r.contains(sep) {
            let i = choose|i: int| 0 <= i < r.len() && r[i] == sep;
            assert(t[i] == sep);
        }
        lemma_pieces_state_append(s, r, sep);
        assert((s + t).drop_last() =~= s + r);
        assert((s + t).last() == t.last());
        assert(t[t.len() - 1] != sep);
        assert((pieces_state(s, sep).1 + r).push(t.last()) =~= pieces_state(s, sep).1 + t);
    }
}

} // verus!
