//! Scan domain: violations found in source files, per-file reports, and the
//! line-by-line matching of configured patterns.

use vstd::prelude::*;

use regex::Regex;

use crate::config::PatternConfig;
use crate::paths::{extension_of, path_extension};
use crate::text::{
    chars_of, lines_of, pieces, pieces_state, same_text, split_on, string_from_chars, string_of, text_lines, trim,
    trim_chars, views,
};

verus! {

/// A single lint suppression found in source code.
#[derive(Debug, Clone)]
pub struct Violation {
    /// 1-based line number where the suppression appears.
    pub line: usize,
    /// Name of the matched pattern (e.g. "eslint-disable-next-line", "ts-ignore").
    pub pattern: String,
    /// Category grouping the pattern (e.g. "eslint", "typescript").
    pub category: String,
    /// Specific lint rules being suppressed. Empty for patterns that don't specify rules
    /// (like `@ts-ignore`). Contains `["*"]` when all rules are suppressed.
    pub rules: Vec<String>,
    /// The raw source line text (trimmed).
    pub raw_text: String,
}

/// All violations found in a single file, along with its CODEOWNERS owner.
#[derive(Debug, Clone)]
pub struct FileReport {
    pub path: String,
    /// CODEOWNERS owner for this file, if resolved.
    pub owner: Option<String>,
    pub violations: Vec<Violation>,
}

/// Result of scanning one or more directory trees.
pub struct ScanResult {
    /// Files that contained at least one violation.
    pub files: Vec<FileReport>,
    /// Total files read (including those with no violations).
    pub files_scanned: usize,
}

// ---------------------------------------------------------------------------
// Regular expressions
// ---------------------------------------------------------------------------

/// `regex::Regex`, held opaque: a compiled regular expression.
#[verifier::external_type_specification]
#[verifier::external_body]
pub struct ExRegex(Regex);

/// Whether `regex::Regex::new` accepts `source`: the pattern is valid and its
/// compiled form fits the default size limit.
pub uninterp spec fn regex_compiles(source: Seq<char>) -> bool;

/// What the regex compiled from `source` finds in `line`: `None` when it does not
/// match; otherwise, for the leftmost-first match, the text of capture group 1, or
/// `None` when that group took no part in the match (or does not exist).
pub uninterp spec fn regex_group_one(source: Seq<char>, line: Seq<char>) -> Option<Option<Seq<char>>>;

/// `regex::Regex::new(source)`: the compiled regex, or the crate's description of why
/// `source` was refused. It succeeds exactly when `regex_compiles(source)`.
#[verifier::external_body]
fn compile_regex(source: &str) -> (r: Result<Regex, String>)
    ensures
        r is Ok <==> regex_compiles(source@),
{
    match Regex::new(source) {
        Ok(re) => Ok(re),
        Err(e) => Err(e.to_string()),
    }
}

/// An optional capture, by its characters.
pub open spec fn capture_view(r: Option<Option<String>>) -> Option<Option<Seq<char>>> {
    match r {
        None => None,
        Some(None) => Some(None),
        Some(Some(s)) => Some(Some(s@)),
    }
}

/// Why a configured pattern could not be compiled.
#[derive(Debug, Clone)]
pub struct PatternError {
    /// Name of the pattern whose regex was refused.
    pub pattern: String,
    /// What the regex compiler said.
    pub detail: String,
}

/// The message of a pattern error: `invalid regex for pattern '<name>'`.
pub open spec fn pattern_error_message(name: Seq<char>) -> Seq<char> {
    "invalid regex for pattern '"@ + name + "'"@
}

impl PatternError {
    /// `invalid regex for pattern '<name>'`.
    pub fn message(&self) -> (s: String)
        ensures
            s@ == pattern_error_message(self.pattern@),
    {
        let head = chars_of("invalid regex for pattern '");
        let name = chars_of(self.pattern.as_str());
        let mut all: Vec<char> = Vec::new();
        let mut i: usize = 0;
        while i < head.len()
            invariant
                i <= head@.len(),
                all@ == head@.take(i as int),
            decreases head@.len() - i,
        {
            all.push(head[i]);
            i += 1;
        }
        let mut j: usize = 0;
        while j < name.len()
            invariant
                j <= name@.len(),
                all@ == head@ + name@.take(j as int),
            decreases name@.len() - j,
        {
            all.push(name[j]);
            j += 1;
        }
        all.push('\'');
        proof {
            assert(head@.take(head@.len() as int) == head@);
            assert(name@.take(name@.len() as int) == name@);
            reveal_strlit("'");
            assert(all@ =~= head@ + name@ + "'"@);
        }
        string_from_chars(all.as_slice())
    }
}

/// A detection pattern compiled from config, ready to match against source lines.
#[derive(Debug)]
pub struct CompiledPattern {
    pub name: String,
    pub category: String,
    /// When true, capture group 1 is parsed as a comma-separated list of rule names.
    pub extract_rules: bool,
    source: String,
    regex: Regex,
}

impl CompiledPattern {
    /// The regex source this pattern was compiled from.
    pub closed spec fn regex_source(&self) -> Seq<char> {
        self.source@
    }

    /// The name of this pattern.
    pub closed spec fn name_of(&self) -> Seq<char> {
        self.name@
    }

    /// The category of this pattern.
    pub closed spec fn category_of(&self) -> Seq<char> {
        self.category@
    }

    /// Whether this pattern extracts rule names from its capture group 1.
    pub closed spec fn extracts(&self) -> bool {
        self.extract_rules
    }

    /// Compile the pattern `pc`; fails, naming the pattern, when its regex is refused.
    pub fn compile(pc: &PatternConfig) -> (r: Result<CompiledPattern, PatternError>)
        ensures
            r is Ok <==> regex_compiles(pc.regex@),
            r matches Ok(p) ==> p.name_of() == pc.name@ && p.category_of() == pc.category@
                && p.extracts() == pc.extract_rules && p.regex_source() == pc.regex@,
            r matches Err(e) ==> e.pattern@ == pc.name@,
    {
        match compile_regex(pc.regex.as_str()) {
            Ok(regex) => Ok(
                CompiledPattern {
                    name: pc.name.clone(),
                    category: pc.category.clone(),
                    extract_rules: pc.extract_rules,
                    source: pc.regex.clone(),
                    regex,
                },
            ),
            Err(detail) => Err(PatternError { pattern: pc.name.clone(), detail }),
        }
    }

    /// `regex::Regex::captures(line)`, then `Captures::get(1)` and `Match::as_str`: what
    /// the regex finds in `line`, as `regex_group_one` of this pattern's source. The
    /// regex of a `CompiledPattern` is always the one compiled from its source: only
    /// `compile` sets the two, which are private fields.
    #[verifier::external_body]
    fn first_group(&self, line: &str) -> (r: Option<Option<String>>)
        ensures
            capture_view(r) == regex_group_one(self.regex_source(), line@),
    {
        match self.regex.captures(line) {
            None => None,
            Some(caps) => match caps.get(1) {
                None => Some(None),
                Some(m) => Some(Some(m.as_str().to_string())),
            },
        }
    }

    /// The rules a match names, given the text of its capture group 1 (see
    /// `extracted_rules`).
    pub fn extract_rules_from_match(&self, group: Option<&str>) -> (rules: Vec<String>)
        ensures
            views(rules@) == extracted_rules(
                self.extracts(),
                match group {
                    Some(g) => Some(g@),
                    None => None,
                },
            ),
    {
        rules_from_group(self.extract_rules, group)
    }
}

/// The non-empty trimmed pieces of `ps`, in order.
pub open spec fn nonempty_trimmed(ps: Seq<Seq<char>>) -> Seq<Seq<char>>
    decreases ps.len(),
{
    if ps.len() == 0 {
        Seq::empty()
    } else {
        let rest = nonempty_trimmed(ps.drop_last());
        if trim(ps.last()).len() > 0 {
            rest.push(trim(ps.last()))
        } else {
            rest
        }
    }
}

/// The rules a match names: none when the pattern does not extract rules; otherwise
/// the capture split at commas, each name trimmed, empty names dropped, and `*` (all
/// rules) when that leaves no name, as when the capture is absent, empty or blank.
pub open spec fn extracted_rules(extract: bool, group: Option<Seq<char>>) -> Seq<Seq<char>> {
    if !extract {
        Seq::empty()
    } else {
        let text = match group {
            Some(g) => trim(g),
            None => Seq::empty(),
        };
        let named = nonempty_trimmed(pieces(text, ','));
        if text.len() == 0 || named.len() == 0 {
            seq!["*"@]
        } else {
            named
        }
    }
}

/// A capture without a comma names one rule, its trimmed text, unless it is blank.
pub proof fn lemma_capture_without_comma(g: Seq<char>)
    requires
        !g.contains(','),
        trim(g).len() > 0,
    ensures
        extracted_rules(true, Some(g)) == seq![trim(g)],
{
    let t = trim(g);
    crate::text::lemma_trim_lacks(g, ',');
    crate::text::lemma_trim_trimmed(g);
    crate::text::lemma_pieces_state_plain(t, ',');
    assert(pieces(t, ',') =~= seq![t]);
    let one = seq![t];
    assert(one.drop_last() =~= Seq::<Seq<char>>::empty());
    assert(nonempty_trimmed(one.drop_last()) =~= Seq::<Seq<char>>::empty());
    assert(nonempty_trimmed(one) =~= seq![t]);
}

/// Rule names joined by `,`.
pub open spec fn comma_join(ns: Seq<Seq<char>>) -> Seq<char>
    decreases ns.len(),
{
    if ns.len() == 0 {
        Seq::empty()
    } else if ns.len() == 1 {
        ns[0]
    } else {
        comma_join(ns.drop_last()) + seq![','] + ns.last()
    }
}

/// A rule name as a comma-separated list writes it: not blank, no comma, no
/// surrounding whitespace.
pub open spec fn plain_name(n: Seq<char>) -> bool {
    &&& n.len() > 0
    &&& !n.contains(',')
    &&& trim(n) == n
}

proof fn lemma_comma_join_parts(ns: Seq<Seq<char>>)
    requires
        ns.len() > 0,
        forall|i: int| 0 <= i < ns.len() ==> plain_name(#[trigger] ns[i]),
    ensures
        comma_join(ns).len() > 0,
        comma_join(ns)[0] == ns[0][0],
        comma_join(ns).last() == ns.last().last(),
        pieces_state(comma_join(ns), ',') == (ns.drop_last(), ns.last()),
    decreases ns.len(),
{
    if ns.len() == 1 {
        assert(plain_name(ns[0]));
        crate::text::lemma_pieces_state_plain(ns[0], ',');
        assert(ns.drop_last() =~= Seq::<Seq<char>>::empty());
    } else {
        let d = ns.drop_last();
        assert forall|i: int| 0 <= i < d.len() implies plain_name(#[trigger] d[i]) by {
            assert(d[i] == ns[i]);
        }
        lemma_comma_join_parts(d);
        let j = comma_join(d);
        let l = ns.last();
        assert(plain_name(ns[ns.len() - 1]));
        assert(comma_join(ns) == j.push(',') + l);
        assert((j.push(',') + l)[0] == j[0]);
        assert(d[0] == ns[0]);
        assert(pieces_state(j.push(','), ',') == (d.drop_last().push(d.last()), Seq::<char>::empty())) by {
            assert(j.push(',').drop_last() =~= j);
            assert(j.push(',').last() == ',');
        }
        assert(d.drop_last().push(d.last()) =~= d);
        crate::text::lemma_pieces_state_append(j.push(','), l, ',');
        assert(Seq::<char>::empty() + l =~= l);
    }
}

proof fn lemma_plain_names_kept(ns: Seq<Seq<char>>)
    requires
        forall|i: int| 0 <= i < ns.len() ==> plain_name(#[trigger] ns[i]),
    ensures
        nonempty_trimmed(ns) == ns,
    decreases ns.len(),
{
    if ns.len() > 0 {
        let d = ns.drop_last();
        assert forall|i: int| 0 <= i < d.len() implies plain_name(#[trigger] d[i]) by {
            assert(d[i] == ns[i]);
        }
        lemma_plain_names_kept(d);
        assert(plain_name(ns[ns.len() - 1]));
        assert(d.push(ns.last()) =~= ns);
    }
}

/// A list of rule names written out with `,` between them comes back as that
/// list: the rules a match names are the comma-separated names, in order, each
/// one whole.
pub proof fn lemma_rule_list_round_trip(ns: Seq<Seq<char>>)
    requires
        ns.len() > 0,
        forall|i: int| 0 <= i < ns.len() ==> plain_name(#[trigger] ns[i]),
    ensures
        extracted_rules(true, Some(comma_join(ns))) == ns,
{
    lemma_comma_join_parts(ns);
    let j = comma_join(ns);
    assert(plain_name(ns[0]));
    assert(plain_name(ns[ns.len() - 1]));
    crate::text::lemma_trim_trimmed(ns[0]);
    crate::text::lemma_trim_trimmed(ns.last());
    assert(ns[0].len() > 0);
    assert(crate::text::is_trimmed(j));
    crate::text::lemma_trim_trimmed(j);
    assert(pieces(j, ',') =~= ns.drop_last().push(ns.last()));
    assert(ns.drop_last().push(ns.last()) =~= ns);
    lemma_plain_names_kept(ns);
}

fn rules_from_group(extract: bool, group: Option<&str>) -> (rules: Vec<String>)
    ensures
        views(rules@) == extracted_rules(
            extract,
            match group {
                Some(g) => Some(g@),
                None => None,
            },
        ),
{
    if !extract {
        let v: Vec<String> = Vec::new();
        assert(views(v@) =~= Seq::<Seq<char>>::empty());
        return v;
    }
    let text = match group {
        Some(g) => trim_chars(&chars_of(g)),
        None => Vec::new(),
    };
    if text.len() == 0 {
        let v = vec![string_of("*")];
        assert(views(v@) =~= seq!["*"@]);
        return v;
    }
    let ps = split_on(&text, ',');
    let ghost sp = pieces(text@, ',');
    let mut out: Vec<String> = Vec::new();
    let mut i: usize = 0;
    while i < ps.len()
        invariant
            i <= ps@.len(),
            ps@.len() == sp.len(),
            forall|j: int| 0 <= j < ps@.len() ==> #[trigger] ps@[j]@ == sp[j],
            views(out@) == nonempty_trimmed(sp.take(i as int)),
        decreases ps@.len() - i,
    {
        let t = trim_chars(&ps[i]);
        let ghost before = views(out@);
        assert(sp.take(i + 1).drop_last() =~= sp.take(i as int));
        assert(sp.take(i + 1).last() == sp[i as int]);
        if t.len() > 0 {
            out.push(string_from_chars(t.as_slice()));
            assert(views(out@) =~= before.push(t@));
        }
        i += 1;
    }
    assert(sp.take(sp.len() as int) =~= sp);
    if out.len() == 0 {
        let v = vec![string_of("*")];
        assert(views(v@) =~= seq!["*"@]);
        return v;
    }
    out
}

/// Compile all configured patterns, in order; fails on the first pattern whose regex
/// is refused, naming it.
pub fn compile_patterns(configs: &[PatternConfig]) -> (r: Result<Vec<CompiledPattern>, PatternError>)
    ensures
        r is Ok <==> forall|i: int| 0 <= i < configs@.len() ==> regex_compiles(#[trigger] configs@[i].regex@),
        r matches Ok(ps) ==> ps@.len() == configs@.len() && forall|i: int|
            0 <= i < configs@.len() ==> {
                &&& #[trigger] ps@[i].name_of() == configs@[i].name@
                &&& ps@[i].category_of() == configs@[i].category@
                &&& ps@[i].extracts() == configs@[i].extract_rules
                &&& ps@[i].regex_source() == configs@[i].regex@
            },
        r matches Err(e) ==> exists|i: int|
            0 <= i < configs@.len() && !regex_compiles(#[trigger] configs@[i].regex@) && (forall|j: int|
                0 <= j < i ==> regex_compiles(#[trigger] configs@[j].regex@)) && e.pattern@
                == configs@[i].name@,
{
    let mut out: Vec<CompiledPattern> = Vec::new();
    let mut i: usize = 0;
    while i < configs.len()
        invariant
            i <= configs@.len(),
            out@.len() == i,
            forall|j: int| 0 <= j < i ==> regex_compiles(#[trigger] configs@[j].regex@),
            forall|j: int|
                0 <= j < i ==> {
                    &&& #[trigger] out@[j].name_of() == configs@[j].name@
                    &&& out@[j].category_of() == configs@[j].category@
                    &&& out@[j].extracts() == configs@[j].extract_rules
                    &&& out@[j].regex_source() == configs@[j].regex@
                },
        decreases configs@.len() - i,
    {
        match CompiledPattern::compile(&configs[i]) {
            Ok(p) => {
                out.push(p);
            },
            Err(e) => {
                assert(!regex_compiles(configs@[i as int].regex@));
                return Err(e);
            },
        }
        i += 1;
    }
    assert(forall|j: int|
        0 <= j < configs@.len() ==> {
            &&& #[trigger] out@[j].name_of() == configs@[j].name@
            &&& out@[j].category_of() == configs@[j].category@
            &&& out@[j].extracts() == configs@[j].extract_rules
            &&& out@[j].regex_source() == configs@[j].regex@
        });
    Ok(out)
}

// ---------------------------------------------------------------------------
// Matching
// ---------------------------------------------------------------------------

/// What a violation records: line number, pattern, category, rules and line text.
pub open spec fn violation_view(v: Violation) -> (nat, Seq<char>, Seq<char>, Seq<Seq<char>>, Seq<char>) {
    (v.line as nat, v.pattern@, v.category@, views(v.rules@), v.raw_text@)
}

/// What the violations of a list record.
pub open spec fn violation_views(vs: Seq<Violation>) -> Seq<(nat, Seq<char>, Seq<char>, Seq<Seq<char>>, Seq<char>)> {
    vs.map_values(|v: Violation| violation_view(v))
}

/// The violations that the patterns `pats` (in order) report on line number `n`,
/// whose text is `line`: one per matching pattern.
pub open spec fn line_violations(pats: Seq<CompiledPattern>, n: nat, line: Seq<char>) -> Seq<
    (nat, Seq<char>, Seq<char>, Seq<Seq<char>>, Seq<char>),
>
    decreases pats.len(),
{
    if pats.len() == 0 {
        Seq::empty()
    } else {
        let rest = line_violations(pats.drop_last(), n, line);
        let p = pats.last();
        match regex_group_one(p.regex_source(), line) {
            None => rest,
            Some(g) => rest.push(
                (n, p.name_of(), p.category_of(), extracted_rules(p.extracts(), g), trim(line)),
            ),
        }
    }
}

/// The violations that the patterns report on `lines` (numbered from 1), line by
/// line.
pub open spec fn lines_violations(pats: Seq<CompiledPattern>, lines: Seq<Seq<char>>) -> Seq<
    (nat, Seq<char>, Seq<char>, Seq<Seq<char>>, Seq<char>),
>
    decreases lines.len(),
{
    if lines.len() == 0 {
        Seq::empty()
    } else {
        lines_violations(pats, lines.drop_last()) + line_violations(
            pats,
            lines.len(),
            lines.last(),
        )
    }
}

/// A found capture, by its characters.
pub open spec fn found_view(found: Option<Option<&str>>) -> Option<Option<Seq<char>>> {
    match found {
        None => None,
        Some(None) => Some(None),
        Some(Some(t)) => Some(Some(t@)),
    }
}

/// The violation that pattern `p` reports on line number `n`, whose trimmed text is
/// `raw`, given what its regex found on that line (`regex_group_one`): none when
/// it found no match; otherwise the pattern's name and category, the rules named by
/// the capture (see `extracted_rules`), the line number and the text.
pub fn violation_for(p: &CompiledPattern, n: usize, raw: &str, found: Option<Option<&str>>) -> (r: Option<Violation>)
    ensures
        match found_view(found) {
            None => r is None,
            Some(g) => r matches Some(v) && violation_view(v) == (
                n as nat,
                p.name_of(),
                p.category_of(),
                extracted_rules(p.extracts(), g),
                raw@,
            ),
        },
{
    match found {
        None => None,
        Some(g) => {
            let rules = p.extract_rules_from_match(g);
            Some(
                Violation {
                    line: n,
                    pattern: p.name.clone(),
                    category: p.category.clone(),
                    rules,
                    raw_text: string_of(raw),
                },
            )
        },
    }
}

/// Scan the text of a single file: every line is tested against every pattern in
/// order, and each match is one violation.
pub fn scan_file_contents(contents: &str, patterns: &[CompiledPattern]) -> (out: Vec<Violation>)
    ensures
        violation_views(out@) == lines_violations(patterns@, lines_of(contents@)),
{
    let lines = text_lines(contents);
    let ghost ls = lines_of(contents@);
    let mut out: Vec<Violation> = Vec::new();
    let mut i: usize = 0;
    while i < lines.len()
        invariant
            i <= lines@.len(),
            lines@.len() == ls.len(),
            forall|j: int| 0 <= j < lines@.len() ==> #[trigger] lines@[j]@ == ls[j],
            violation_views(out@) == lines_violations(patterns@, ls.take(i as int)),
        decreases lines@.len() - i,
    {
        let line_text = string_from_chars(lines[i].as_slice());
        let raw = string_from_chars(trim_chars(&lines[i]).as_slice());
        let n = i + 1;
        let ghost base = violation_views(out@);
        let mut k: usize = 0;
        while k < patterns.len()
            invariant
                k <= patterns@.len(),
                n == i + 1,
                line_text@ == ls[i as int],
                raw@ == trim(ls[i as int]),
                violation_views(out@) == base + line_violations(
                    patterns@.take(k as int),
                    n as nat,
                    ls[i as int],
                ),
            decreases patterns@.len() - k,
        {
            let p = &patterns[k];
            let ghost prev = violation_views(out@);
            assert(patterns@.take(k + 1).drop_last() =~= patterns@.take(k as int));
            assert(patterns@.take(k + 1).last() == patterns@[k as int]);
            let found = p.first_group(line_text.as_str());
            let hit = match &found {
                None => violation_for(p, n, raw.as_str(), None),
                Some(None) => violation_for(p, n, raw.as_str(), Some(None)),
                Some(Some(t)) => violation_for(p, n, raw.as_str(), Some(Some(t.as_str()))),
            };
            match hit {
                None => {},
                Some(v) => {
                    out.push(v);
                    assert(violation_views(out@) =~= prev.push(violation_view(v)));
                },
            }
            k += 1;
        }
        assert(patterns@.take(patterns@.len() as int) =~= patterns@);
        assert(ls.take(i + 1).drop_last() =~= ls.take(i as int));
        assert(ls.take(i + 1).last() == ls[i as int]);
        i += 1;
    }
    assert(ls.take(ls.len() as int) =~= ls);
    out
}

/// Whether the extension of `path` (case-sensitive) is one of `extensions`.
pub fn has_allowed_extension(path: &str, extensions: &[String]) -> (b: bool)
    ensures
        b == (match path_extension(path@) {
            Some(e) => views(extensions@).contains(e),
            None => false,
        }),
{
    match extension_of(&chars_of(path)) {
        None => false,
        Some(e) => {
            let es = string_from_chars(e.as_slice());
            let mut i: usize = 0;
            while i < extensions.len()
                invariant
                    i <= extensions@.len(),
                    es@ == e@,
                    path_extension(path@) == Some(e@),
                    forall|j: int| 0 <= j < i ==> #[trigger] extensions@[j]@ != e@,
                decreases extensions@.len() - i,
            {
                if same_text(extensions[i].as_str(), es.as_str()) {
                    assert(views(extensions@)[i as int] == e@);
                    return true;
                }
                i += 1;
            }
            assert(!views(extensions@).contains(e@)) by {
                if views(extensions@).contains(e@) {
                    let j = choose|j: int| 0 <= j < views(extensions@).len() && views(extensions@)[j] == e@;
                    assert(extensions@[j]@ == e@);
                }
            }
            false
        },
    }
}

/// The report for the file at `path` whose text is `contents`: its violations, when it
/// has any, with no owner yet.
pub fn report_for_contents(path: &str, contents: &str, patterns: &[CompiledPattern]) -> (r: Option<FileReport>)
    ensures
        r is None <==> lines_violations(patterns@, lines_of(contents@)).len() == 0,
        r matches Some(f) ==> f.path@ == path@ && f.owner is None && violation_views(f.violations@)
            == lines_violations(patterns@, lines_of(contents@)),
{
    let violations = scan_file_contents(contents, patterns);
    if violations.len() == 0 {
        return None;
    }
    Some(FileReport { path: string_of(path), owner: None, violations })
}

/// A walked file: its path, and its text when it was read.
pub open spec fn entry_allowed(path: Seq<char>, exts: Seq<String>) -> bool {
    match path_extension(path) {
        Some(e) => views(exts).contains(e),
        None => false,
    }
}

/// Number of walked files whose extension is allowed.
pub open spec fn scanned_total(entries: Seq<(String, Option<String>)>, exts: Seq<String>) -> nat
    decreases entries.len(),
{
    if entries.len() == 0 {
        0
    } else {
        scanned_total(entries.drop_last(), exts) + (if entry_allowed(entries.last().0@, exts) {
            1nat
        } else {
            0nat
        })
    }
}

/// What a file report records, but its owner: the path and the violations.
pub open spec fn report_view(f: FileReport) -> (Seq<char>, Seq<(nat, Seq<char>, Seq<char>, Seq<Seq<char>>, Seq<char>)>) {
    (f.path@, violation_views(f.violations@))
}

/// The reports of the walked files: one per file with an allowed extension that was
/// read and has violations, in walk order.
pub open spec fn scan_reports(
    entries: Seq<(String, Option<String>)>,
    exts: Seq<String>,
    pats: Seq<CompiledPattern>,
) -> Seq<(Seq<char>, Seq<(nat, Seq<char>, Seq<char>, Seq<Seq<char>>, Seq<char>)>)>
    decreases entries.len(),
{
    if entries.len() == 0 {
        Seq::empty()
    } else {
        let e = entries.last();
        let rest = scan_reports(entries.drop_last(), exts, pats);
        match e.1 {
            Some(c) => if entry_allowed(e.0@, exts) && lines_violations(pats, lines_of(c@)).len() > 0 {
                rest.push((e.0@, lines_violations(pats, lines_of(c@))))
            } else {
                rest
            },
            None => rest,
        }
    }
}

/// Scan the walked files `entries` (each path with its text, when it could be read):
/// files with an allowed extension count as scanned, and those of them that were
/// read and have violations are reported, in walk order, with no owner yet.
pub fn scan_paths(
    entries: &[(String, Option<String>)],
    extensions: &[String],
    patterns: &[CompiledPattern],
) -> (r: ScanResult)
    ensures
        r.files_scanned == scanned_total(entries@, extensions@),
        r.files@.map_values(|f: FileReport| report_view(f)) == scan_reports(
            entries@,
            extensions@,
            patterns@,
        ),
        forall|i: int| 0 <= i < r.files@.len() ==> (#[trigger] r.files@[i]).owner is None,
{
    let mut files: Vec<FileReport> = Vec::new();
    let mut files_scanned: usize = 0;
    let mut i: usize = 0;
    while i < entries.len()
        invariant
            i <= entries@.len(),
            files_scanned == scanned_total(entries@.take(i as int), extensions@),
            files_scanned <= i,
            files@.map_values(|f: FileReport| report_view(f)) == scan_reports(
                entries@.take(i as int),
                extensions@,
                patterns@,
            ),
            forall|j: int| 0 <= j < files@.len() ==> (#[trigger] files@[j]).owner is None,
        decreases entries@.len() - i,
    {
        let e = &entries[i];
        assert(entries@.take(i + 1).drop_last() =~= entries@.take(i as int));
        assert(entries@.take(i + 1).last() == entries@[i as int]);
        if has_allowed_extension(e.0.as_str(), extensions) {
            files_scanned = files_scanned + 1;
            match &e.1 {
                Some(c) => {
                    let ghost before = files@.map_values(|f: FileReport| report_view(f));
                    match report_for_contents(e.0.as_str(), c.as_str(), patterns) {
                        Some(f) => {
                            files.push(f);
                            assert(files@.map_values(|f: FileReport| report_view(f)) =~= before.push(
                                report_view(f),
                            ));
                        },
                        None => {},
                    }
                },
                None => {},
            }
        }
        i += 1;
    }
    assert(entries@.take(entries@.len() as int) =~= entries@);
    ScanResult { files, files_scanned }
}

// ---------------------------------------------------------------------------
// What holds of every scan
// ---------------------------------------------------------------------------

proof fn lemma_line_violations(pats: Seq<CompiledPattern>, n: nat, line: Seq<char>)
    ensures
        line_violations(pats, n, line).len() <= pats.len(),
        forall|k: int|
            0 <= k < line_violations(pats, n, line).len() ==> (#[trigger] line_violations(
                pats,
                n,
                line,
            )[k]).0 == n && line_violations(pats, n, line)[k].4 == trim(line),
    decreases pats.len(),
{
    if pats.len() > 0 {
        lemma_line_violations(pats.drop_last(), n, line);
    }
}

/// Every violation is reported on a line of the file: line numbers run from 1 to
/// the number of lines, never decrease along the list, and each violation records
/// its line's text, trimmed.
pub proof fn lemma_violation_lines(pats: Seq<CompiledPattern>, lines: Seq<Seq<char>>)
    ensures
        forall|k: int|
            0 <= k < lines_violations(pats, lines).len() ==> {
                let v = #[trigger] lines_violations(pats, lines)[k];
                &&& 1 <= v.0 <= lines.len()
                &&& v.4 == trim(lines[v.0 - 1])
            },
        forall|k: int, m: int|
            0 <= k < m < lines_violations(pats, lines).len() ==> (#[trigger] lines_violations(
                pats,
                lines,
            )[k]).0 <= (#[trigger] lines_violations(pats, lines)[m]).0,
    decreases lines.len(),
{
    if lines.len() > 0 {
        let init = lines.drop_last();
        lemma_violation_lines(pats, init);
        lemma_line_violations(pats, lines.len(), lines.last());
        let a = lines_violations(pats, init);
        let b = line_violations(pats, lines.len(), lines.last());
        let all = lines_violations(pats, lines);
        assert(all == a + b);
        assert forall|k: int| 0 <= k < all.len() implies {
            let v = #[trigger] all[k];
            &&& 1 <= v.0 <= lines.len()
            &&& v.4 == trim(lines[v.0 - 1])
        } by {
            if k < a.len() {
                assert(all[k] == a[k]);
                assert(lines[a[k].0 - 1] == init[a[k].0 - 1]);
            } else {
                assert(all[k] == b[k - a.len()]);
            }
        }
        assert forall|k: int, m: int| 0 <= k < m < all.len() implies (#[trigger] all[k]).0 <= (
        #[trigger] all[m]).0 by {
            if m < a.len() {
                assert(all[k] == a[k]);
                assert(all[m] == a[m]);
            } else if k < a.len() {
                assert(all[k] == a[k]);
                assert(all[m] == b[m - a.len()]);
            } else {
                assert(all[k] == b[k - a.len()]);
                assert(all[m] == b[m - a.len()]);
            }
        }
    }
}

} // verus!
