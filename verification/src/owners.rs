//! CODEOWNERS parsing and ownership assignment.
//!
//! GitHub CODEOWNERS semantics: glob patterns matched against paths relative to the
//! repository root, the last matching rule winning. Anchored and unanchored
//! patterns, directory patterns, and bare names that may name a file or a directory
//! are translated to globs of the `glob` crate.

use vstd::prelude::*;

use glob::Pattern;

use crate::paths::{file_name_of, parent_of, path_file_name, path_parent};
use crate::scan::FileReport;
use crate::text::{
    chars_eq, chars_of, has_prefix, lines_of, pieces, split_on, split_words, string_from_chars,
    string_of, sub_chars, text_lines, trim, trim_chars, views, words,
};

verus! {

// ---------------------------------------------------------------------------
// Globs
// ---------------------------------------------------------------------------

/// `glob::Pattern`, held opaque: a compiled glob.
#[verifier::external_type_specification]
#[verifier::external_body]
pub struct ExGlobPattern(Pattern);

/// Whether `glob::Pattern::new` accepts `source`.
pub uninterp spec fn glob_compiles(source: Seq<char>) -> bool;

/// Whether the glob compiled from `source` matches `path` (`Pattern::matches`, with
/// the default match options). Fixed by its two arguments on Unix targets, where only
/// `/` separates path components; the glob crate also takes `\` as a separator on
/// Windows, which this library does not target.
pub uninterp spec fn glob_matches(source: Seq<char>, path: Seq<char>) -> bool;

/// `glob::Pattern::new(source)`: the compiled glob, when `source` is a valid pattern.
#[verifier::external_body]
fn compile_glob(source: &str) -> (r: Option<Pattern>)
    ensures
        r is Some <==> glob_compiles(source@),
{
    match Pattern::new(source) {
        Ok(p) => Some(p),
        Err(_) => None,
    }
}

/// A compiled glob together with the pattern it was compiled from.
struct Glob {
    source: String,
    pattern: Pattern,
}

impl Glob {
    /// `glob::Pattern::matches(path)`: whether this glob matches `path`, as
    /// `glob_matches` of its source. The pattern of a `Glob` is always the one compiled
    /// from its source: only `compile_globs` makes one, from `compile_glob` of that
    /// source, and both fields are private.
    #[verifier::external_body]
    fn matches(&self, path: &str) -> (b: bool)
        ensures
            b == glob_matches(self.source@, path@),
    {
        self.pattern.matches(path)
    }
}

// ---------------------------------------------------------------------------
// From CODEOWNERS patterns to globs
// ---------------------------------------------------------------------------

/// The globs that a CODEOWNERS pattern stands for.
///
/// - `*` matches everything (any file at any depth)
/// - `*.js` matches any .js file at any depth
/// - `/docs/` matches the `docs/` directory at the repo root
/// - `docs/` matches any `docs/` directory at any depth
/// - `/src/foo.ts` matches exactly `src/foo.ts`
/// - `apps/web/src/connectors` matches the file and everything under it
///
/// A glob's `*` matches within one directory only, so patterns that match across
/// directories use `**`. A bare path (no glob characters, no trailing `/`) may name
/// a file or a directory, and gives two globs.
pub open spec fn globs_for(pattern: Seq<char>) -> Seq<Seq<char>> {
    let anchored = pattern.len() > 0 && pattern[0] == '/';
    let clean = if anchored {
        pattern.drop_first()
    } else {
        pattern
    };
    let is_dir = clean.len() > 0 && clean.last() == '/';
    let base = if is_dir {
        clean.drop_last()
    } else {
        clean
    };
    if is_dir {
        if anchored {
            seq![base + "/**"@]
        } else {
            seq!["**/"@ + base + "/**"@]
        }
    } else if base == "*"@ {
        seq!["**"@]
    } else if !base.contains('*') && !base.contains('?') {
        if anchored || base.contains('/') {
            seq![base, base + "/**"@]
        } else {
            seq!["**/"@ + base, "**/"@ + base + "/**"@]
        }
    } else if anchored || base.contains('/') {
        seq![base]
    } else {
        seq!["**/"@ + base]
    }
}

/// The text a CODEOWNERS pattern names: the pattern without a leading `/` and
/// without a trailing `/`.
pub open spec fn pattern_text(p: Seq<char>) -> Seq<char> {
    let c = if p.len() > 0 && p[0] == '/' {
        p.drop_first()
    } else {
        p
    };
    if c.len() > 0 && c.last() == '/' {
        c.drop_last()
    } else {
        c
    }
}

/// A pattern rooted at the repository root (one that starts with `/`, or holds a
/// `/` and does not end in one) gives only globs that begin with its own text: no
/// `**/` is put in front of it, so it never matches that text deeper down.
pub proof fn lemma_rooted_patterns(p: Seq<char>)
    requires
        (p.len() > 0 && p[0] == '/') || (p.contains('/') && p.last() != '/'),
    ensures
        forall|i: int|
            0 <= i < globs_for(p).len() ==> (#[trigger] globs_for(p)[i]).len() >= pattern_text(
                p,
            ).len() && globs_for(p)[i].take(pattern_text(p).len() as int) == pattern_text(p),
{
    reveal_strlit("/**");
    reveal_strlit("**");
    reveal_strlit("*");
    let t = pattern_text(p);
    let gs = globs_for(p);
    let anchored = p.len() > 0 && p[0] == '/';
    if !anchored {
        let w = choose|w: int| 0 <= w < p.len() && p[w] == '/';
        assert(p.last() != '/');
        assert(t == p);
        assert(t.contains('/')) by {
            assert(t[w] == '/');
        }
    }
    let c = if anchored {
        p.drop_first()
    } else {
        p
    };
    let is_dir = c.len() > 0 && c.last() == '/';
    assert((t + "/**"@).take(t.len() as int) =~= t);
    assert(t.take(t.len() as int) =~= t);
    if is_dir {
        assert(anchored);
        assert(gs == seq![t + "/**"@]);
    } else if t == "*"@ {
        assert(gs == seq!["**"@]);
        assert("**"@.take(1) =~= "*"@);
    } else if !t.contains('*') && !t.contains('?') {
        assert(gs == seq![t, t + "/**"@]);
    } else {
        assert(gs == seq![t]);
    }
    assert forall|i: int| 0 <= i < gs.len() implies (#[trigger] gs[i]).len() >= t.len() && gs[i].take(
        t.len() as int,
    ) == t by {}
}

/// A bare pattern (no `/` anywhere, other than `*`) matches at any depth: each of
/// its globs is `**/` followed by the pattern.
pub proof fn lemma_bare_patterns_any_depth(p: Seq<char>)
    requires
        p.len() > 0,
        !p.contains('/'),
        p != "*"@,
    ensures
        forall|i: int|
            0 <= i < globs_for(p).len() ==> (#[trigger] globs_for(p)[i]).len() >= 3 + p.len()
                && globs_for(p)[i].take(3) == "**/"@ && globs_for(p)[i].subrange(3, 3 + p.len() as int) == p,
{
    reveal_strlit("**/");
    reveal_strlit("/**");
    reveal_strlit("*");
    let gs = globs_for(p);
    assert(p[0] != '/') by {
        assert(!p.contains('/'));
        if p[0] == '/' {
            assert(p.contains('/'));
        }
    }
    assert(p.last() != '/') by {
        if p.last() == '/' {
            assert(p[p.len() - 1] == '/');
        }
    }
    assert(pattern_text(p) == p);
    let a = "**/"@ + p;
    let b = "**/"@ + p + "/**"@;
    assert(a.take(3) =~= "**/"@);
    assert(b.take(3) =~= "**/"@);
    assert(a.subrange(3, 3 + p.len() as int) =~= p);
    assert(b.subrange(3, 3 + p.len() as int) =~= p);
    if !p.contains('*') && !p.contains('?') {
        assert(gs == seq![a, b]);
    } else {
        assert(gs == seq![a]);
    }
}

/// A pattern ending in `/` stands for everything inside that directory: it gives
/// one glob, the pattern's text followed by `/**`, rooted when the pattern starts
/// with `/` and otherwise preceded by `**/`.
pub proof fn lemma_directory_patterns(p: Seq<char>)
    requires
        p.len() > 1,
        p.last() == '/',
    ensures
        globs_for(p) == seq![
            if p[0] == '/' {
                pattern_text(p) + "/**"@
            } else {
                "**/"@ + pattern_text(p) + "/**"@
            },
        ],
{
    let c = if p[0] == '/' {
        p.drop_first()
    } else {
        p
    };
    assert(c.len() > 0 && c.last() == '/');
}

/// `a`, then `b`, as one string.
fn concat(a: &[char], b: &[char]) -> (out: Vec<char>)
    ensures
        out@ == a@ + b@,
{
    let mut out: Vec<char> = Vec::new();
    let mut i: usize = 0;
    while i < a.len()
        invariant
            i <= a@.len(),
            out@ == a@.take(i as int),
        decreases a@.len() - i,
    {
        out.push(a[i]);
        i += 1;
    }
    let mut j: usize = 0;
    while j < b.len()
        invariant
            j <= b@.len(),
            out@ == a@ + b@.take(j as int),
        decreases b@.len() - j,
    {
        out.push(b[j]);
        j += 1;
    }
    assert(a@.take(a@.len() as int) =~= a@);
    assert(b@.take(b@.len() as int) =~= b@);
    out
}

fn text_of(cs: Vec<char>) -> (s: String)
    ensures
        s@ == cs@,
{
    string_from_chars(cs.as_slice())
}

/// Translate a CODEOWNERS pattern to the globs it stands for (see `globs_for`).
pub fn codeowners_pattern_to_globs(pattern: &str) -> (out: Vec<String>)
    ensures
        views(out@) == globs_for(pattern@),
{
    let p = chars_of(pattern);
    let anchored = p.len() > 0 && p[0] == '/';
    let clean = if anchored {
        sub_chars(&p, 1, p.len())
    } else {
        sub_chars(&p, 0, p.len())
    };
    let is_dir = clean.len() > 0 && clean[clean.len() - 1] == '/';
    let base = if is_dir {
        sub_chars(&clean, 0, clean.len() - 1)
    } else {
        sub_chars(&clean, 0, clean.len())
    };
    proof {
        assert(p@.subrange(0, p@.len() as int) =~= p@);
        assert(p@.subrange(1, p@.len() as int) =~= p@.drop_first());
        assert(clean@.subrange(0, clean@.len() as int) =~= clean@);
        assert(clean@.subrange(0, clean@.len() - 1) =~= clean@.drop_last());
        reveal_strlit("/**");
        reveal_strlit("**/");
        reveal_strlit("**");
        reveal_strlit("*");
    }
    let star_star_slash = chars_of("**/");
    let slash_star_star = chars_of("/**");
    let star = chars_of("*");
    let has_star = crate::text::contains_char(base.as_slice(), '*');
    let has_q = crate::text::contains_char(base.as_slice(), '?');
    let has_slash = crate::text::contains_char(base.as_slice(), '/');
    let out = if is_dir {
        if anchored {
            vec![text_of(concat(base.as_slice(), slash_star_star.as_slice()))]
        } else {
            let front = concat(star_star_slash.as_slice(), base.as_slice());
            vec![text_of(concat(front.as_slice(), slash_star_star.as_slice()))]
        }
    } else if chars_eq(base.as_slice(), star.as_slice()) {
        vec![string_of("**")]
    } else if !has_star && !has_q {
        if anchored || has_slash {
            vec![
                text_of(concat(base.as_slice(), &[])),
                text_of(concat(base.as_slice(), slash_star_star.as_slice())),
            ]
        } else {
            let front = concat(star_star_slash.as_slice(), base.as_slice());
            let both = concat(front.as_slice(), slash_star_star.as_slice());
            vec![text_of(front), text_of(both)]
        }
    } else if anchored || has_slash {
        vec![text_of(concat(base.as_slice(), &[]))]
    } else {
        vec![text_of(concat(star_star_slash.as_slice(), base.as_slice()))]
    };
    proof {
        assert(base@ + Seq::<char>::empty() =~= base@);
        assert(views(out@) =~= globs_for(pattern@));
    }
    out
}

// ---------------------------------------------------------------------------
// Rules
// ---------------------------------------------------------------------------

/// A rule of a CODEOWNERS file: the globs of its pattern and its owners.
struct OwnerRule {
    globs: Vec<Glob>,
    owners: Vec<String>,
}

/// What a rule holds: the sources of its globs and its owners.
pub type RuleView = (Seq<Seq<char>>, Seq<Seq<char>>);

/// The globs among `gs` that compile, in order.
pub open spec fn compiled_globs(gs: Seq<Seq<char>>) -> Seq<Seq<char>>
    decreases gs.len(),
{
    if gs.len() == 0 {
        Seq::empty()
    } else if glob_compiles(gs.last()) {
        compiled_globs(gs.drop_last()).push(gs.last())
    } else {
        compiled_globs(gs.drop_last())
    }
}

/// The rule a CODEOWNERS line gives: none for a blank line, a comment (`#`), a line
/// with fewer than two fields, or a pattern none of whose globs compiles; otherwise
/// the compiling globs of the first field and the other fields as owners.
pub open spec fn rule_of_line(line: Seq<char>) -> Option<RuleView> {
    let t = trim(line);
    if t.len() == 0 || t[0] == '#' {
        None
    } else {
        let ws = words(t);
        if ws.len() < 2 {
            None
        } else {
            let gs = compiled_globs(globs_for(ws[0]));
            if gs.len() == 0 {
                None
            } else {
                Some((gs, ws.skip(1)))
            }
        }
    }
}

/// The rules of `lines`, in order.
pub open spec fn rules_of_lines(lines: Seq<Seq<char>>) -> Seq<RuleView>
    decreases lines.len(),
{
    if lines.len() == 0 {
        Seq::empty()
    } else {
        match rule_of_line(lines.last()) {
            Some(r) => rules_of_lines(lines.drop_last()).push(r),
            None => rules_of_lines(lines.drop_last()),
        }
    }
}

/// The rules of a CODEOWNERS file, in file order.
pub open spec fn parsed_rules(contents: Seq<char>) -> Seq<RuleView> {
    rules_of_lines(lines_of(contents))
}

/// What a rule holds.
spec fn rule_view(r: OwnerRule) -> RuleView {
    (r.globs@.map_values(|g: Glob| g.source@), views(r.owners@))
}

/// Compile the globs of `pattern`, dropping those that do not compile.
fn compile_globs(pattern: &str) -> (out: Vec<Glob>)
    ensures
        out@.map_values(|g: Glob| g.source@) == compiled_globs(globs_for(pattern@)),
{
    let strs = codeowners_pattern_to_globs(pattern);
    let ghost gs = views(strs@);
    let mut out: Vec<Glob> = Vec::new();
    let mut i: usize = 0;
    while i < strs.len()
        invariant
            i <= strs@.len(),
            gs == views(strs@),
            out@.map_values(|g: Glob| g.source@) == compiled_globs(gs.take(i as int)),
        decreases strs@.len() - i,
    {
        let ghost before = out@.map_values(|g: Glob| g.source@);
        assert(gs.take(i + 1).drop_last() =~= gs.take(i as int));
        assert(gs.take(i + 1).last() == strs@[i as int]@);
        match compile_glob(strs[i].as_str()) {
            Some(p) => {
                let g = Glob { source: strs[i].clone(), pattern: p };
                out.push(g);
                assert(out@.map_values(|g: Glob| g.source@) =~= before.push(strs@[i as int]@));
            },
            None => {},
        }
        i += 1;
    }
    assert(gs.take(gs.len() as int) =~= gs);
    out
}

/// The rule that `line` gives, if any.
fn parse_line(line: &Vec<char>) -> (r: Option<OwnerRule>)
    ensures
        match r {
            Some(rule) => rule_of_line(line@) == Some(rule_view(rule)),
            None => rule_of_line(line@) is None,
        },
{
    let t = trim_chars(line);
    if t.len() == 0 || t[0] == '#' {
        return None;
    }
    let ws = split_words(&t);
    if ws.len() < 2 {
        return None;
    }
    let first = string_from_chars(ws[0].as_slice());
    let globs = compile_globs(first.as_str());
    if globs.len() == 0 {
        return None;
    }
    let mut owners: Vec<String> = Vec::new();
    let mut k: usize = 1;
    while k < ws.len()
        invariant
            1 <= k <= ws@.len(),
            ws@.len() == words(t@).len(),
            forall|j: int| 0 <= j < ws@.len() ==> #[trigger] ws@[j]@ == words(t@)[j],
            owners@.len() == k - 1,
            views(owners@) == words(t@).subrange(1, k as int),
        decreases ws@.len() - k,
    {
        let ghost before = owners@;
        owners.push(string_from_chars(ws[k].as_slice()));
        assert forall|j: int| 0 <= j < k implies #[trigger] views(owners@)[j] == words(t@).subrange(
            1,
            k + 1,
        )[j] by {
            if j < k - 1 {
                assert(owners@[j] == before[j]);
                assert(views(before)[j] == words(t@).subrange(1, k as int)[j]);
            }
        }
        assert(views(owners@) =~= words(t@).subrange(1, k + 1));
        k += 1;
    }
    assert(words(t@).subrange(1, words(t@).len() as int) =~= words(t@).skip(1));
    Some(OwnerRule { globs, owners })
}

/// The rules of a CODEOWNERS file, in file order.
fn parse_rules(contents: &str) -> (rules: Vec<OwnerRule>)
    ensures
        rules@.map_values(|r: OwnerRule| rule_view(r)) == parsed_rules(contents@),
{
    let lines = text_lines(contents);
    let ghost ls = lines_of(contents@);
    let mut rules: Vec<OwnerRule> = Vec::new();
    let mut i: usize = 0;
    while i < lines.len()
        invariant
            i <= lines@.len(),
            lines@.len() == ls.len(),
            forall|j: int| 0 <= j < lines@.len() ==> #[trigger] lines@[j]@ == ls[j],
            rules@.map_values(|r: OwnerRule| rule_view(r)) == rules_of_lines(ls.take(i as int)),
        decreases lines@.len() - i,
    {
        let ghost before = rules@.map_values(|r: OwnerRule| rule_view(r));
        assert(ls.take(i + 1).drop_last() =~= ls.take(i as int));
        assert(ls.take(i + 1).last() == ls[i as int]);
        match parse_line(&lines[i]) {
            Some(rule) => {
                let ghost rv = rule_view(rule);
                rules.push(rule);
                assert(rules@.map_values(|r: OwnerRule| rule_view(r)) =~= before.push(rv));
            },
            None => {},
        }
        i += 1;
    }
    assert(ls.take(ls.len() as int) =~= ls);
    rules
}

// ---------------------------------------------------------------------------
// Paths relative to the repository root
// ---------------------------------------------------------------------------

/// Whether `p` is an absolute path.
pub open spec fn is_absolute(p: Seq<char>) -> bool {
    p.len() > 0 && p[0] == '/'
}

/// Whether a piece of a path split at `/` is one of its components: empty pieces
/// and `.` are not, but for a `.` that starts a relative path.
pub open spec fn kept_piece(piece: Seq<char>, first: bool, absolute: bool) -> bool {
    piece.len() > 0 && (piece != seq!['.'] || (first && !absolute))
}

/// The components among the pieces `ps` of a path.
pub open spec fn comps_from(ps: Seq<Seq<char>>, absolute: bool) -> Seq<Seq<char>>
    decreases ps.len(),
{
    if ps.len() == 0 {
        Seq::empty()
    } else if kept_piece(ps.last(), ps.len() == 1, absolute) {
        comps_from(ps.drop_last(), absolute).push(ps.last())
    } else {
        comps_from(ps.drop_last(), absolute)
    }
}

/// The named components of `p`, as `Path::components` gives them after its root.
pub open spec fn components(p: Seq<char>) -> Seq<Seq<char>> {
    comps_from(pieces(p, '/'), is_absolute(p))
}

/// The components `cs` joined with `/`.
pub open spec fn join_slash(cs: Seq<Seq<char>>) -> Seq<char>
    decreases cs.len(),
{
    if cs.len() == 0 {
        Seq::empty()
    } else if cs.len() == 1 {
        cs[0]
    } else {
        join_slash(cs.drop_last()) + seq!['/'] + cs.last()
    }
}

/// `Path::strip_prefix`: what remains of `p` below `root`, when `root`'s components
/// lead `p`'s (both absolute or both relative).
pub open spec fn strip_root(p: Seq<char>, root: Seq<char>) -> Option<Seq<char>> {
    let cp = components(p);
    let cr = components(root);
    if is_absolute(p) == is_absolute(root) && cr.len() <= cp.len() && cp.take(cr.len() as int) == cr {
        Some(join_slash(cp.skip(cr.len() as int)))
    } else {
        None
    }
}

/// The path that CODEOWNERS rules are matched against: `resolved` (the canonical form
/// of `path`, or `path` itself) relative to the repository root when it lies below it;
/// otherwise `path` without a leading `./`.
pub open spec fn relative_path(path: Seq<char>, resolved: Seq<char>, root: Seq<char>) -> Seq<char> {
    match strip_root(resolved, root) {
        Some(r) => r,
        None => if has_prefix(path, "./"@) {
            path.skip(2)
        } else {
            path
        },
    }
}

/// The components of `p`.
fn path_components(p: &Vec<char>) -> (out: Vec<Vec<char>>)
    ensures
        out@.len() == components(p@).len(),
        forall|i: int| 0 <= i < out@.len() ==> #[trigger] out@[i]@ == components(p@)[i],
{
    let absolute = p.len() > 0 && p[0] == '/';
    let ps = split_on(p, '/');
    let ghost sp = pieces(p@, '/');
    let mut out: Vec<Vec<char>> = Vec::new();
    let mut i: usize = 0;
    while i < ps.len()
        invariant
            i <= ps@.len(),
            absolute == is_absolute(p@),
            ps@.len() == sp.len(),
            forall|j: int| 0 <= j < ps@.len() ==> #[trigger] ps@[j]@ == sp[j],
            out@.len() == comps_from(sp.take(i as int), absolute).len(),
            forall|j: int| 0 <= j < out@.len() ==> #[trigger] out@[j]@ == comps_from(
                sp.take(i as int),
                absolute,
            )[j],
        decreases ps@.len() - i,
    {
        let piece = &ps[i];
        assert(sp.take(i + 1).drop_last() =~= sp.take(i as int));
        assert(sp.take(i + 1).last() == sp[i as int]);
        assert(sp.take(i + 1).len() == i + 1);
        let dot = piece.len() == 1 && piece[0] == '.';
        assert(dot == (piece@ == seq!['.'])) by {
            if piece@.len() == 1 && piece@[0] == '.' {
                assert(piece@ =~= seq!['.']);
            }
        }
        if piece.len() > 0 && (!dot || (i == 0 && !absolute)) {
            let ghost before = out@;
            out.push(sub_chars(piece, 0, piece.len()));
            assert(piece@.subrange(0, piece@.len() as int) =~= piece@);
            assert forall|j: int| 0 <= j < out@.len() implies #[trigger] out@[j]@ == comps_from(
                sp.take(i + 1),
                absolute,
            )[j] by {
                if j < before.len() {
                    assert(out@[j] == before[j]);
                }
            }
        }
        i += 1;
    }
    assert(sp.take(sp.len() as int) =~= sp);
    out
}

/// The components `cs[from..]` joined with `/`.
fn join_from(cs: &Vec<Vec<char>>, from: usize) -> (out: Vec<char>)
    requires
        from <= cs@.len(),
    ensures
        out@ == join_slash(cs@.skip(from as int).map_values(|c: Vec<char>| c@)),
{
    let ghost all = cs@.map_values(|c: Vec<char>| c@);
    let mut out: Vec<char> = Vec::new();
    let mut i: usize = from;
    assert(cs@.skip(from as int).map_values(|c: Vec<char>| c@).take(0) =~= Seq::<Seq<char>>::empty());
    while i < cs.len()
        invariant
            from <= i <= cs@.len(),
            all == cs@.map_values(|c: Vec<char>| c@),
            out@ == join_slash(all.subrange(from as int, i as int)),
        decreases cs@.len() - i,
    {
        let ghost before = out@;
        if i > from {
            out.push('/');
        }
        let c = &cs[i];
        let mut k: usize = 0;
        let ghost mid = out@;
        while k < c.len()
            invariant
                k <= c@.len(),
                out@ == mid + c@.take(k as int),
            decreases c@.len() - k,
        {
            out.push(c[k]);
            k += 1;
        }
        proof {
            assert(c@.take(c@.len() as int) =~= c@);
            let sub = all.subrange(from as int, i + 1);
            assert(sub.drop_last() =~= all.subrange(from as int, i as int));
            assert(sub.last() == c@);
            if i > from {
                assert(out@ =~= before + seq!['/'] + c@);
            } else {
                assert(sub =~= seq![c@]);
                assert(out@ =~= c@);
            }
        }
        i += 1;
    }
    assert(all.subrange(from as int, cs@.len() as int) =~= cs@.skip(from as int).map_values(
        |c: Vec<char>| c@,
    ));
    out
}

/// The path below `root` that `p` names, if `p` lies below `root`.
fn strip_root_of(p: &Vec<char>, root: &Vec<char>) -> (r: Option<Vec<char>>)
    ensures
        match r {
            Some(v) => strip_root(p@, root@) == Some(v@),
            None => strip_root(p@, root@) is None,
        },
{
    let pa = p.len() > 0 && p[0] == '/';
    let ra = root.len() > 0 && root[0] == '/';
    if pa != ra {
        return None;
    }
    let cp = path_components(p);
    let cr = path_components(root);
    let ghost sp = components(p@);
    let ghost sr = components(root@);
    if cr.len() > cp.len() {
        return None;
    }
    let mut i: usize = 0;
    while i < cr.len()
        invariant
            i <= cr@.len(),
            sp == components(p@),
            sr == components(root@),
            is_absolute(p@) == is_absolute(root@),
            cr@.len() <= cp@.len(),
            cp@.len() == sp.len(),
            cr@.len() == sr.len(),
            forall|j: int| 0 <= j < cp@.len() ==> #[trigger] cp@[j]@ == sp[j],
            forall|j: int| 0 <= j < cr@.len() ==> #[trigger] cr@[j]@ == sr[j],
            forall|j: int| 0 <= j < i ==> sp[j] == sr[j],
        decreases cr@.len() - i,
    {
        if !chars_eq(cp[i].as_slice(), cr[i].as_slice()) {
            assert(sp.take(sr.len() as int)[i as int] != sr[i as int]);
            return None;
        }
        i += 1;
    }
    assert(sp.take(sr.len() as int) =~= sr);
    let out = join_from(&cp, cr.len());
    assert(cp@.skip(cr@.len() as int).map_values(|c: Vec<char>| c@) =~= sp.skip(sr.len() as int));
    Some(out)
}

/// The repository root that a CODEOWNERS file at `path` belongs to: the directory of
/// the file, or the one above it when the file sits in `.github` or `docs`. None when
/// that directory has no parent.
pub open spec fn repo_root_for(path: Seq<char>) -> Option<Seq<char>> {
    match path_parent(path) {
        None => None,
        Some(parent) => {
            let name = match path_file_name(parent) {
                Some(n) => n,
                None => Seq::empty(),
            };
            if name == ".github"@ || name == "docs"@ {
                path_parent(parent)
            } else {
                Some(parent)
            }
        },
    }
}

// ---------------------------------------------------------------------------
// Owners
// ---------------------------------------------------------------------------

/// Whether some glob among `globs` matches `path`.
pub open spec fn rule_matches(globs: Seq<Seq<char>>, path: Seq<char>) -> bool {
    exists|k: int| 0 <= k < globs.len() && glob_matches(#[trigger] globs[k], path)
}

/// The index of the last rule that matches `path`, if any.
pub open spec fn last_match(rules: Seq<RuleView>, path: Seq<char>) -> Option<int>
    decreases rules.len(),
{
    if rules.len() == 0 {
        None
    } else if rule_matches(rules.last().0, path) {
        Some(rules.len() - 1)
    } else {
        last_match(rules.drop_last(), path)
    }
}

/// The owner that the rules give `path`: the first owner of the last matching rule.
pub open spec fn owner_of(rules: Seq<RuleView>, path: Seq<char>) -> Option<Seq<char>> {
    match last_match(rules, path) {
        Some(i) => if rules[i].1.len() > 0 {
            Some(rules[i].1[0])
        } else {
            None
        },
        None => None,
    }
}

/// Parsed CODEOWNERS file: its rules in file order (the last match wins, as on
/// GitHub) and the repository root that paths are made relative to.
pub struct Owners {
    rules: Vec<OwnerRule>,
    repo_root: String,
}

impl Owners {
    /// The rules, in file order.
    pub closed spec fn rules_view(&self) -> Seq<RuleView> {
        self.rules@.map_values(|r: OwnerRule| rule_view(r))
    }

    /// The repository root.
    pub closed spec fn root(&self) -> Seq<char> {
        self.repo_root@
    }

    /// The rules of the CODEOWNERS text `contents`, for the repository at `repo_root`.
    pub fn with_root(contents: &str, repo_root: &str) -> (o: Owners)
        ensures
            o.rules_view() == parsed_rules(contents@),
            o.root() == repo_root@,
    {
        Owners { rules: parse_rules(contents), repo_root: string_of(repo_root) }
    }

    /// The CODEOWNERS file at `path` (its canonical form, when it has one) whose text is
    /// `contents`; its repository root is the file's directory, or the directory above
    /// when that is `.github` or `docs`. None when there is no such root.
    pub fn from_contents(contents: &str, path: &str) -> (r: Option<Owners>)
        ensures
            r is Some <==> repo_root_for(path@) is Some,
            r matches Some(o) ==> o.rules_view() == parsed_rules(contents@) && Some(o.root())
                == repo_root_for(path@),
    {
        let p = chars_of(path);
        let parent = match parent_of(&p) {
            Some(d) => d,
            None => {
                return None;
            },
        };
        let name = match file_name_of(&parent) {
            Some(n) => n,
            None => Vec::new(),
        };
        let github = chars_of(".github");
        let docs = chars_of("docs");
        let root = if chars_eq(name.as_slice(), github.as_slice()) || chars_eq(
            name.as_slice(),
            docs.as_slice(),
        ) {
            match parent_of(&parent) {
                Some(d) => d,
                None => {
                    return None;
                },
            }
        } else {
            parent
        };
        let root_text = string_from_chars(root.as_slice());
        Some(Owners::with_root(contents, root_text.as_str()))
    }

    /// The path that rules are matched against for the file at `path`, whose canonical
    /// form is `resolved` (`path` itself when it has none): see `relative_path`.
    pub fn make_relative(&self, path: &str, resolved: &str) -> (r: String)
        ensures
            r@ == relative_path(path@, resolved@, self.root()),
    {
        let rp = chars_of(resolved);
        let root = chars_of(self.repo_root.as_str());
        match strip_root_of(&rp, &root) {
            Some(rel) => string_from_chars(rel.as_slice()),
            None => {
                let p = chars_of(path);
                let dot_slash = chars_of("./");
                proof {
                    reveal_strlit("./");
                }
                if crate::text::starts_with(p.as_slice(), dot_slash.as_slice()) {
                    let rest = sub_chars(&p, 2, p.len());
                    assert(rest@ =~= p@.skip(2));
                    string_from_chars(rest.as_slice())
                } else {
                    string_of(path)
                }
            },
        }
    }

    /// Whether rule `i` matches `path`.
    fn rule_hits(&self, i: usize, path: &str) -> (b: bool)
        requires
            i < self.rules_view().len(),
        ensures
            b == rule_matches(self.rules_view()[i as int].0, path@),
    {
        let globs = &self.rules[i].globs;
        let ghost srcs = globs@.map_values(|g: Glob| g.source@);
        assert(srcs == self.rules_view()[i as int].0);
        let mut k: usize = 0;
        while k < globs.len()
            invariant
                k <= globs@.len(),
                i < self.rules_view().len(),
                srcs == globs@.map_values(|g: Glob| g.source@),
                srcs == self.rules_view()[i as int].0,
                forall|j: int| 0 <= j < k ==> !glob_matches(#[trigger] srcs[j], path@),
            decreases globs@.len() - k,
        {
            if globs[k].matches(path) {
                assert(glob_matches(srcs[k as int], path@));
                return true;
            }
            k += 1;
        }
        false
    }

    /// The owners of the last rule that matches `relative_path`, if any (GitHub
    /// semantics: the last match wins).
    pub fn match_path(&self, relative_path: &str) -> (r: Option<&[String]>)
        ensures
            match last_match(self.rules_view(), relative_path@) {
                Some(i) => r matches Some(s) && views(s@) == self.rules_view()[i].1,
                None => r is None,
            },
    {
        let ghost rules = self.rules_view();
        let mut found: Option<usize> = None;
        let mut i: usize = 0;
        while i < self.rules.len()
            invariant
                i <= self.rules@.len(),
                rules == self.rules_view(),
                rules.len() == self.rules@.len(),
                match found {
                    Some(j) => j < i && last_match(rules.take(i as int), relative_path@) == Some(
                        j as int,
                    ),
                    None => last_match(rules.take(i as int), relative_path@) is None,
                },
            decreases self.rules@.len() - i,
        {
            assert(rules.take(i + 1).drop_last() =~= rules.take(i as int));
            assert(rules.take(i + 1).last() == rules[i as int]);
            if self.rule_hits(i, relative_path) {
                found = Some(i);
            }
            i += 1;
        }
        assert(rules.take(rules.len() as int) =~= rules);
        match found {
            Some(j) => Some(self.rules[j].owners.as_slice()),
            None => None,
        }
    }
}

/// An optional string, by its characters.
pub open spec fn owner_view(o: Option<String>) -> Option<Seq<char>> {
    match o {
        Some(s) => Some(s@),
        None => None,
    }
}

/// The canonical form of the path of file `i`: `resolved[i]` when given, else the
/// path itself.
pub open spec fn resolved_at(resolved: Seq<String>, i: int, path: Seq<char>) -> Seq<char> {
    if i < resolved.len() {
        resolved[i]@
    } else {
        path
    }
}

/// Give each file the first owner of the last CODEOWNERS rule matching its path
/// (made relative to the repository root; `resolved[i]` is the canonical form of the
/// path of file `i`); files that no rule matches keep their owner.
pub fn assign_owners(files: &mut Vec<FileReport>, owners: &Owners, resolved: &[String])
    ensures
        final(files)@.len() == old(files)@.len(),
        forall|i: int|
            0 <= i < old(files)@.len() ==> {
                &&& (#[trigger] final(files)@[i]).path == old(files)@[i].path
                &&& final(files)@[i].violations == old(files)@[i].violations
                &&& owner_view(final(files)@[i].owner) == match owner_of(
                    owners.rules_view(),
                    relative_path(
                        old(files)@[i].path@,
                        resolved_at(resolved@, i, old(files)@[i].path@),
                        owners.root(),
                    ),
                ) {
                    Some(o) => Some(o),
                    None => owner_view(old(files)@[i].owner),
                }
            },
{
    let mut i: usize = 0;
    while i < files.len()
        invariant
            i <= files@.len(),
            files@.len() == old(files)@.len(),
            forall|j: int| i <= j < files@.len() ==> #[trigger] files@[j] == old(files)@[j],
            forall|j: int|
                0 <= j < i ==> {
                    &&& (#[trigger] files@[j]).path == old(files)@[j].path
                    &&& files@[j].violations == old(files)@[j].violations
                    &&& owner_view(files@[j].owner) == match owner_of(
                        owners.rules_view(),
                        relative_path(
                            old(files)@[j].path@,
                            resolved_at(resolved@, j, old(files)@[j].path@),
                            owners.root(),
                        ),
                    ) {
                        Some(o) => Some(o),
                        None => owner_view(old(files)@[j].owner),
                    }
                },
        decreases files@.len() - i,
    {
        let relative = if i < resolved.len() {
            owners.make_relative(files[i].path.as_str(), resolved[i].as_str())
        } else {
            owners.make_relative(files[i].path.as_str(), files[i].path.as_str())
        };
        match owners.match_path(relative.as_str()) {
            Some(list) => {
                if list.len() > 0 {
                    let first = list[0].clone();
                    files[i].owner = Some(first);
                }
            },
            None => {},
        }
        i += 1;
    }
}

// ---------------------------------------------------------------------------
// What holds of the rules
// ---------------------------------------------------------------------------

/// The last match wins: a rule added after the others decides the owner of every
/// path it matches, and leaves the owner of every other path as it was.
pub proof fn lemma_last_match_wins(rules: Seq<RuleView>, rule: RuleView, path: Seq<char>)
    ensures
        rule_matches(rule.0, path) ==> owner_of(rules.push(rule), path) == (if rule.1.len() > 0 {
            Some(rule.1[0])
        } else {
            None
        }),
        !rule_matches(rule.0, path) ==> owner_of(rules.push(rule), path) == owner_of(rules, path),
{
    let all = rules.push(rule);
    assert(all.drop_last() =~= rules);
    assert(all.last() == rule);
    if !rule_matches(rule.0, path) {
        match last_match(rules, path) {
            Some(i) => {
                lemma_last_match_bounds(rules, path);
                assert(all[i] == rules[i]);
            },
            None => {},
        }
    }
}

proof fn lemma_last_match_bounds(rules: Seq<RuleView>, path: Seq<char>)
    ensures
        last_match(rules, path) matches Some(i) ==> 0 <= i < rules.len() && rule_matches(
            rules[i].0,
            path,
        ),
    decreases rules.len(),
{
    if rules.len() > 0 && !rule_matches(rules.last().0, path) {
        lemma_last_match_bounds(rules.drop_last(), path);
        match last_match(rules.drop_last(), path) {
            Some(i) => {
                assert(rules.drop_last()[i] == rules[i]);
            },
            None => {},
        }
    }
}

/// Every parsed rule has at least one glob and at least one owner, so a matching
/// rule always gives an owner.
pub proof fn lemma_rules_have_owners(lines: Seq<Seq<char>>)
    ensures
        forall|i: int|
            0 <= i < rules_of_lines(lines).len() ==> (#[trigger] rules_of_lines(lines)[i]).0.len() > 0
                && rules_of_lines(lines)[i].1.len() > 0,
    decreases lines.len(),
{
    if lines.len() > 0 {
        lemma_rules_have_owners(lines.drop_last());
        let rest = rules_of_lines(lines.drop_last());
        match rule_of_line(lines.last()) {
            Some(r) => {
                assert forall|i: int|
                    0 <= i < rules_of_lines(lines).len() implies (#[trigger] rules_of_lines(
                    lines,
                )[i]).0.len() > 0 && rules_of_lines(lines)[i].1.len() > 0 by {
                    if i < rest.len() {
                        assert(rules_of_lines(lines)[i] == rest[i]);
                    }
                }
            },
            None => {},
        }
    }
}

} // verus!
