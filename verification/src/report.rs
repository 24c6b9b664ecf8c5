//! Report domain: report types, assembly, and aggregation of per-file violations
//! into summary counts by pattern, category, rule, directory and owner.

use vstd::prelude::*;

pub mod output;

use crate::config::ResolvedConfig;
use crate::counts::{key_seq, pair_views, CountMap};
use crate::paths::{ancestors, ancestors_of, lemma_ancestors_shorter};
use crate::scan::{FileReport, ScanResult, Violation};
use crate::sort::{lists_entries, sorted_vec};
use crate::text::{copy_strings, same_text, string_from_chars, string_of, views};

verus! {

// ---------------------------------------------------------------------------
// What a summary counts
// ---------------------------------------------------------------------------

/// Number of times `k` occurs in `s`.
pub open spec fn occurrences(s: Seq<Seq<char>>, k: Seq<char>) -> nat
    decreases s.len(),
{
    if s.len() == 0 {
        0
    } else {
        occurrences(s.drop_last(), k) + (if s.last() == k {
            1nat
        } else {
            0nat
        })
    }
}

/// The rule names of a violation.
pub open spec fn rule_names(v: Violation) -> Seq<Seq<char>> {
    v.rules@.map_values(|r: String| r@)
}

/// Violations among `vs` whose pattern is `k`.
pub open spec fn pattern_hits(vs: Seq<Violation>, k: Seq<char>) -> nat
    decreases vs.len(),
{
    if vs.len() == 0 {
        0
    } else {
        pattern_hits(vs.drop_last(), k) + (if vs.last().pattern@ == k {
            1nat
        } else {
            0nat
        })
    }
}

/// Violations among `vs` whose category is `k`.
pub open spec fn category_hits(vs: Seq<Violation>, k: Seq<char>) -> nat
    decreases vs.len(),
{
    if vs.len() == 0 {
        0
    } else {
        category_hits(vs.drop_last(), k) + (if vs.last().category@ == k {
            1nat
        } else {
            0nat
        })
    }
}

/// Occurrences of rule `k` in the rule lists of `vs`.
pub open spec fn rule_hits(vs: Seq<Violation>, k: Seq<char>) -> nat
    decreases vs.len(),
{
    if vs.len() == 0 {
        0
    } else {
        rule_hits(vs.drop_last(), k) + occurrences(rule_names(vs.last()), k)
    }
}

/// Total length of the rule lists of `vs`.
pub open spec fn rule_count(vs: Seq<Violation>) -> nat
    decreases vs.len(),
{
    if vs.len() == 0 {
        0
    } else {
        rule_count(vs.drop_last()) + vs.last().rules@.len()
    }
}

/// The owner under which a file is counted: its owner, or `@unowned`.
pub open spec fn owner_key(f: FileReport) -> Seq<char> {
    match f.owner {
        Some(o) => o@,
        None => "@unowned"@,
    }
}

/// Number of violations in `files`.
pub open spec fn violation_total(files: Seq<FileReport>) -> nat
    decreases files.len(),
{
    if files.len() == 0 {
        0
    } else {
        violation_total(files.drop_last()) + files.last().violations@.len()
    }
}

/// Number of files in `files` with at least one violation.
pub open spec fn flagged_file_count(files: Seq<FileReport>) -> nat
    decreases files.len(),
{
    if files.len() == 0 {
        0
    } else {
        flagged_file_count(files.drop_last()) + if files.last().violations@.len() > 0 {
            1nat
        } else {
            0nat
        }
    }
}

/// Number of rule entries over all violations in `files`.
pub open spec fn rule_total(files: Seq<FileReport>) -> nat
    decreases files.len(),
{
    if files.len() == 0 {
        0
    } else {
        rule_total(files.drop_last()) + rule_count(files.last().violations@)
    }
}

/// Violations in `files` with pattern `k`.
pub open spec fn pattern_tally(files: Seq<FileReport>, k: Seq<char>) -> nat
    decreases files.len(),
{
    if files.len() == 0 {
        0
    } else {
        pattern_tally(files.drop_last(), k) + pattern_hits(files.last().violations@, k)
    }
}

/// Violations in `files` with category `k`.
pub open spec fn category_tally(files: Seq<FileReport>, k: Seq<char>) -> nat
    decreases files.len(),
{
    if files.len() == 0 {
        0
    } else {
        category_tally(files.drop_last(), k) + category_hits(files.last().violations@, k)
    }
}

/// Occurrences of rule `k` over all violations in `files`.
pub open spec fn rule_tally(files: Seq<FileReport>, k: Seq<char>) -> nat
    decreases files.len(),
{
    if files.len() == 0 {
        0
    } else {
        rule_tally(files.drop_last(), k) + rule_hits(files.last().violations@, k)
    }
}

/// Violations in files counted under owner `k`.
pub open spec fn owner_tally(files: Seq<FileReport>, k: Seq<char>) -> nat
    decreases files.len(),
{
    if files.len() == 0 {
        0
    } else {
        owner_tally(files.drop_last(), k) + (if owner_key(files.last()) == k {
            files.last().violations@.len()
        } else {
            0
        })
    }
}

/// Violations in files lying (at any depth) below directory `k`.
pub open spec fn directory_tally(files: Seq<FileReport>, k: Seq<char>) -> nat
    decreases files.len(),
{
    if files.len() == 0 {
        0
    } else {
        directory_tally(files.drop_last(), k) + (if ancestors(files.last().path@).contains(k) {
            files.last().violations@.len()
        } else {
            0
        })
    }
}

// ---------------------------------------------------------------------------
// Report types
// ---------------------------------------------------------------------------

/// A point in time: seconds since the Unix epoch and nanoseconds within the second.
#[derive(Debug, Clone, Copy, PartialEq, Eq)]
pub struct Timestamp {
    pub secs: i64,
    pub nanos: u32,
}

/// Metadata about a scan run, included in every report for traceability.
#[derive(Debug, Clone)]
pub struct ReportMetadata {
    pub timestamp: Timestamp,
    pub tool_version: String,
    pub scanned_paths: Vec<String>,
    /// Path to the config file used, if any.
    pub config_path: Option<String>,
    /// Total number of files with matching extensions that were read.
    pub files_scanned: usize,
    pub scan_duration_ms: u64,
}

/// Pre-computed aggregate counts for the report, broken down by multiple dimensions.
pub struct ReportSummary {
    pub total_violations: usize,
    /// Number of files with at least one violation.
    pub total_files_with_violations: usize,
    pub by_pattern: CountMap,
    pub by_category: CountMap,
    pub by_rule: CountMap,
    /// Hierarchical directory counts: each violation increments all ancestor directories.
    pub by_directory: CountMap,
    pub by_owner: CountMap,
}

/// Complete scan report: metadata, per-file violations, and summary aggregations.
pub struct Report {
    pub metadata: ReportMetadata,
    pub files: Vec<FileReport>,
    pub summary: ReportSummary,
}

/// `s` is the summary of `files`: every count map holds, for each key, exactly the
/// number of violations (or rule entries) counted under that key, and no key with a
/// zero count.
pub open spec fn summarizes(s: ReportSummary, files: Seq<FileReport>) -> bool {
    &&& s.total_violations == violation_total(files)
    &&& s.total_files_with_violations == flagged_file_count(files)
    &&& s.by_pattern.wf() && s.by_pattern.positive()
    &&& s.by_category.wf() && s.by_category.positive()
    &&& s.by_rule.wf() && s.by_rule.positive()
    &&& s.by_directory.wf() && s.by_directory.positive()
    &&& s.by_owner.wf() && s.by_owner.positive()
    &&& forall|k: Seq<char>| #[trigger] s.by_pattern.count(k) == pattern_tally(files, k)
    &&& forall|k: Seq<char>| #[trigger] s.by_category.count(k) == category_tally(files, k)
    &&& forall|k: Seq<char>| #[trigger] s.by_rule.count(k) == rule_tally(files, k)
    &&& forall|k: Seq<char>| #[trigger] s.by_directory.count(k) == directory_tally(files, k)
    &&& forall|k: Seq<char>| #[trigger] s.by_owner.count(k) == owner_tally(files, k)
}

// ---------------------------------------------------------------------------
// Bounds
// ---------------------------------------------------------------------------

pub proof fn lemma_occurrences_le(s: Seq<Seq<char>>, k: Seq<char>)
    ensures
        occurrences(s, k) <= s.len(),
        s.no_duplicates() ==> occurrences(s, k) <= 1,
        !s.contains(k) ==> occurrences(s, k) == 0,
    decreases s.len(),
{
    if s.len() > 0 {
        lemma_occurrences_le(s.drop_last(), k);
        if s.no_duplicates() {
            assert(s.drop_last().no_duplicates());
            if s.last() == k {
                assert(!s.drop_last().contains(k));
            }
        }
        if !s.contains(k) {
            assert(!s.drop_last().contains(k));
        }
    }
}

proof fn lemma_hits_le(vs: Seq<Violation>, k: Seq<char>)
    ensures
        pattern_hits(vs, k) <= vs.len(),
        category_hits(vs, k) <= vs.len(),
        rule_hits(vs, k) <= rule_count(vs),
    decreases vs.len(),
{
    if vs.len() > 0 {
        lemma_hits_le(vs.drop_last(), k);
        lemma_occurrences_le(rule_names(vs.last()), k);
    }
}

proof fn lemma_tallies_le(files: Seq<FileReport>, k: Seq<char>)
    ensures
        pattern_tally(files, k) <= violation_total(files),
        category_tally(files, k) <= violation_total(files),
        owner_tally(files, k) <= violation_total(files),
        directory_tally(files, k) <= violation_total(files),
        rule_tally(files, k) <= rule_total(files),
    decreases files.len(),
{
    if files.len() > 0 {
        lemma_tallies_le(files.drop_last(), k);
        lemma_hits_le(files.last().violations@, k);
    }
}

pub proof fn lemma_totals_prefix(files: Seq<FileReport>, i: int)
    requires
        0 <= i <= files.len(),
    ensures
        violation_total(files.take(i)) <= violation_total(files),
        rule_total(files.take(i)) <= rule_total(files),
    decreases files.len(),
{
    if i < files.len() {
        lemma_totals_prefix(files.drop_last(), i);
        assert(files.drop_last().take(i) == files.take(i));
    } else {
        assert(files.take(i) == files);
    }
}

// ---------------------------------------------------------------------------
// Summary construction
// ---------------------------------------------------------------------------

/// Adds `n` to every ancestor directory of `path`.
fn add_directories(by_directory: &mut CountMap, path: &String, n: usize)
    requires
        old(by_directory).wf(),
        old(by_directory).positive(),
        n > 0,
        forall|k: Seq<char>| #[trigger] old(by_directory).count(k) + n <= usize::MAX,
    ensures
        final(by_directory).wf(),
        final(by_directory).positive(),
        forall|k: Seq<char>| #[trigger]
            final(by_directory).count(k) == old(by_directory).count(k) + (if ancestors(
                path@,
            ).contains(k) {
                n as nat
            } else {
                0
            }),
{
    let chars = crate::text::chars_of(path.as_str());
    let dirs = ancestors_of(&chars);
    let ghost anc = ancestors(path@);
    proof {
        lemma_ancestors_shorter(path@);
    }
    let ghost base = *by_directory;
    let mut t: usize = 0;
    while t < dirs.len()
        invariant
            t <= dirs@.len() == anc.len(),
            anc == ancestors(path@),
            anc.no_duplicates(),
            forall|x: int| 0 <= x < dirs@.len() ==> #[trigger] dirs@[x]@ == anc[x],
            by_directory.wf(),
            by_directory.positive(),
            n > 0,
            forall|k: Seq<char>| #[trigger] base.count(k) + n <= usize::MAX,
            forall|k: Seq<char>| #[trigger]
                by_directory.count(k) == base.count(k) + (if anc.take(t as int).contains(k) {
                    n as nat
                } else {
                    0
                }),
        decreases dirs@.len() - t,
    {
        let d = string_from_chars(dirs[t].as_slice());
        let ghost key = anc[t as int];
        assert(!anc.take(t as int).contains(key)) by {
            if anc.take(t as int).contains(key) {
                let x = choose|x: int| 0 <= x < t && anc.take(t as int)[x] == key;
                assert(anc[x] == anc[t as int]);
            }
        }
        by_directory.add(d.as_str(), n);
        assert forall|k: Seq<char>| #[trigger] anc.take(t + 1).contains(k) <==> (anc.take(
            t as int,
        ).contains(k) || k == key) by {
            let a = anc.take(t + 1);
            let b = anc.take(t as int);
            if a.contains(k) {
                let x = choose|x: int| 0 <= x < a.len() && a[x] == k;
                if x < t {
                    assert(b[x] == k);
                }
            }
            if b.contains(k) {
                let x = choose|x: int| 0 <= x < b.len() && b[x] == k;
                assert(a[x] == k);
            }
            if k == key {
                assert(a[t as int] == k);
            }
        }
        t += 1;
    }
    assert(anc.take(t as int) == anc);
}

/// Adds the patterns, categories and rules of `vs` to the counts.
fn add_violations(
    by_pattern: &mut CountMap,
    by_category: &mut CountMap,
    by_rule: &mut CountMap,
    vs: &Vec<Violation>,
)
    requires
        old(by_pattern).wf() && old(by_pattern).positive(),
        old(by_category).wf() && old(by_category).positive(),
        old(by_rule).wf() && old(by_rule).positive(),
        forall|k: Seq<char>| #[trigger] old(by_pattern).count(k) + vs@.len() <= usize::MAX,
        forall|k: Seq<char>| #[trigger] old(by_category).count(k) + vs@.len() <= usize::MAX,
        forall|k: Seq<char>| #[trigger] old(by_rule).count(k) + rule_count(vs@) <= usize::MAX,
    ensures
        final(by_pattern).wf() && final(by_pattern).positive(),
        final(by_category).wf() && final(by_category).positive(),
        final(by_rule).wf() && final(by_rule).positive(),
        forall|k: Seq<char>| #[trigger]
            final(by_pattern).count(k) == old(by_pattern).count(k) + pattern_hits(vs@, k),
        forall|k: Seq<char>| #[trigger]
            final(by_category).count(k) == old(by_category).count(k) + category_hits(vs@, k),
        forall|k: Seq<char>| #[trigger]
            final(by_rule).count(k) == old(by_rule).count(k) + rule_hits(vs@, k),
{
    let ghost bp = *by_pattern;
    let ghost bc = *by_category;
    let ghost br = *by_rule;
    let mut j: usize = 0;
    while j < vs.len()
        invariant
            j <= vs@.len(),
            by_pattern.wf() && by_pattern.positive(),
            by_category.wf() && by_category.positive(),
            by_rule.wf() && by_rule.positive(),
            forall|k: Seq<char>| #[trigger] bp.count(k) + vs@.len() <= usize::MAX,
            forall|k: Seq<char>| #[trigger] bc.count(k) + vs@.len() <= usize::MAX,
            forall|k: Seq<char>| #[trigger] br.count(k) + rule_count(vs@) <= usize::MAX,
            forall|k: Seq<char>| #[trigger]
                by_pattern.count(k) == bp.count(k) + pattern_hits(vs@.take(j as int), k),
            forall|k: Seq<char>| #[trigger]
                by_category.count(k) == bc.count(k) + category_hits(vs@.take(j as int), k),
            forall|k: Seq<char>| #[trigger]
                by_rule.count(k) == br.count(k) + rule_hits(vs@.take(j as int), k),
        decreases vs@.len() - j,
    {
        let v = &vs[j];
        let ghost pre = vs@.take(j as int);
        let ghost post = vs@.take(j + 1);
        assert(post.drop_last() == pre);
        assert(post.last() == *v);
        proof {
            lemma_hits_le(pre, v.pattern@);
            lemma_hits_le(pre, v.category@);
        }
        by_pattern.add(v.pattern.as_str(), 1);
        by_category.add(v.category.as_str(), 1);
        // Rules of this violation.
        proof {
            lemma_rule_count_prefix(vs@, j as int);
            lemma_hits_le(pre, v.pattern@);
            assert forall|k: Seq<char>| #[trigger] by_rule.count(k) + v.rules@.len() <= usize::MAX by {
                lemma_hits_le(pre, k);
            }
        }
        let ghost rb = *by_rule;
        let mut r: usize = 0;
        while r < v.rules.len()
            invariant
                r <= v.rules@.len(),
                *v == vs@[j as int],
                by_rule.wf() && by_rule.positive(),
                forall|k: Seq<char>| #[trigger]
                    rb.count(k) + v.rules@.len() <= usize::MAX,
                forall|k: Seq<char>| #[trigger]
                    by_rule.count(k) == rb.count(k) + occurrences(
                        rule_names(*v).take(r as int),
                        k,
                    ),
            decreases v.rules@.len() - r,
        {
            let ghost names = rule_names(*v);
            assert(names.take(r + 1).drop_last() == names.take(r as int));
            proof {
                lemma_occurrences_le(names.take(r as int), v.rules@[r as int]@);
            }
            by_rule.add(v.rules[r].as_str(), 1);
            r += 1;
        }
        assert(rule_names(*v).take(v.rules@.len() as int) == rule_names(*v));
        j += 1;
    }
    assert(vs@.take(vs@.len() as int) == vs@);
}

pub proof fn lemma_rule_count_prefix(vs: Seq<Violation>, j: int)
    requires
        0 <= j < vs.len(),
    ensures
        rule_count(vs.take(j)) + vs[j].rules@.len() <= rule_count(vs),
    decreases vs.len(),
{
    if j < vs.len() - 1 {
        lemma_rule_count_prefix(vs.drop_last(), j);
        assert(vs.drop_last().take(j) == vs.take(j));
    } else {
        assert(vs.drop_last() == vs.take(j));
    }
}

/// Build a summary with violation counts broken down by multiple dimensions.
/// Directory counts are hierarchical: each violation increments all ancestor
/// directories. Files without violations are skipped: they add to no count, and
/// `total_files_with_violations` counts only the files with at least one violation.
pub fn build_summary(files: &Vec<FileReport>) -> (s: ReportSummary)
    requires
        violation_total(files@) <= usize::MAX,
        rule_total(files@) <= usize::MAX,
    ensures
        summarizes(s, files@),
{
    let mut by_pattern = CountMap::new();
    let mut by_category = CountMap::new();
    let mut by_rule = CountMap::new();
    let mut by_directory = CountMap::new();
    let mut by_owner = CountMap::new();
    let mut total_violations: usize = 0;
    let mut flagged: usize = 0;
    let unowned = string_of("@unowned");

    let mut i: usize = 0;
    while i < files.len()
        invariant
            i <= files@.len(),
            violation_total(files@) <= usize::MAX,
            rule_total(files@) <= usize::MAX,
            unowned@ == "@unowned"@,
            total_violations == violation_total(files@.take(i as int)),
            flagged == flagged_file_count(files@.take(i as int)),
            flagged <= i,
            by_pattern.wf() && by_pattern.positive(),
            by_category.wf() && by_category.positive(),
            by_rule.wf() && by_rule.positive(),
            by_directory.wf() && by_directory.positive(),
            by_owner.wf() && by_owner.positive(),
            forall|k: Seq<char>| #[trigger]
                by_pattern.count(k) == pattern_tally(files@.take(i as int), k),
            forall|k: Seq<char>| #[trigger]
                by_category.count(k) == category_tally(files@.take(i as int), k),
            forall|k: Seq<char>| #[trigger]
                by_rule.count(k) == rule_tally(files@.take(i as int), k),
            forall|k: Seq<char>| #[trigger]
                by_directory.count(k) == directory_tally(files@.take(i as int), k),
            forall|k: Seq<char>| #[trigger]
                by_owner.count(k) == owner_tally(files@.take(i as int), k),
        decreases files@.len() - i,
    {
        let file = &files[i];
        let n = file.violations.len();
        let ghost pre = files@.take(i as int);
        let ghost post = files@.take(i + 1);
        assert(post.drop_last() == pre);
        assert(post.last() == *file);
        proof {
            lemma_totals_prefix(files@, i + 1);
            assert forall|k: Seq<char>|
                pattern_tally(pre, k) + n <= usize::MAX && category_tally(pre, k) + n
                    <= usize::MAX && owner_tally(pre, k) + n <= usize::MAX && directory_tally(
                    pre,
                    k,
                ) + n <= usize::MAX && rule_tally(pre, k) + rule_count(file.violations@)
                    <= usize::MAX by {
                lemma_tallies_le(pre, k);
            }
        }
        if n > 0 {
            total_violations = total_violations + n;
            flagged = flagged + 1;
            match &file.owner {
                Some(o) => by_owner.add(o.as_str(), n),
                None => by_owner.add(unowned.as_str(), n),
            }
            add_directories(&mut by_directory, &file.path, n);
            add_violations(&mut by_pattern, &mut by_category, &mut by_rule, &file.violations);
        } else {
            assert(file.violations@ == Seq::<Violation>::empty());
            assert(forall|k: Seq<char>| pattern_hits(file.violations@, k) == 0);
            assert(forall|k: Seq<char>| category_hits(file.violations@, k) == 0);
            assert(forall|k: Seq<char>| rule_hits(file.violations@, k) == 0);
        }
        i += 1;
    }
    assert(files@.take(files@.len() as int) == files@);
    ReportSummary {
        total_violations,
        total_files_with_violations: flagged,
        by_pattern,
        by_category,
        by_rule,
        by_directory,
        by_owner,
    }
}


/// Whether the counts of `files` fit the machine's counters: the number of
/// violations and the number of rule entries are each at most `usize::MAX`.
pub fn totals_fit(files: &Vec<FileReport>) -> (b: bool)
    ensures
        b == (violation_total(files@) <= usize::MAX && rule_total(files@) <= usize::MAX),
{
    let mut vt: usize = 0;
    let mut rt: usize = 0;
    let mut i: usize = 0;
    while i < files.len()
        invariant
            i <= files@.len(),
            vt == violation_total(files@.take(i as int)),
            rt == rule_total(files@.take(i as int)),
        decreases files@.len() - i,
    {
        let ghost t = files@.take(i + 1);
        assert(t.drop_last() =~= files@.take(i as int));
        assert(t.last() == files@[i as int]);
        let vs = &files[i].violations;
        let n = vs.len();
        assert(violation_total(t) == vt + n);
        assert(rule_total(t) == rt + rule_count(vs@));
        if vt > usize::MAX - n {
            proof {
                lemma_totals_prefix(files@, i + 1);
            }
            return false;
        }
        vt = vt + n;
        let mut k: usize = 0;
        let mut c: usize = 0;
        while k < vs.len()
            invariant
                i < files@.len(),
                vs@ == files@[i as int].violations@,
                rule_total(files@.take(i + 1)) == rt + rule_count(vs@),
                k <= vs@.len(),
                c == rule_count(vs@.take(k as int)),
                rt + c <= usize::MAX,
            decreases vs@.len() - k,
        {
            let m = vs[k].rules.len();
            assert(vs@.take(k + 1).drop_last() =~= vs@.take(k as int));
            if rt + c > usize::MAX - m {
                proof {
                    lemma_rule_count_prefix(vs@, k as int);
                    lemma_totals_prefix(files@, i + 1);
                }
                return false;
            }
            c = c + m;
            k += 1;
        }
        assert(vs@.take(vs@.len() as int) =~= vs@);
        rt = rt + c;
        i += 1;
    }
    assert(files@.take(files@.len() as int) =~= files@);
    true
}

/// Assemble a report from the scan result, the resolved config, the config path
/// used, the time of the scan, the version of the tool and the scan's duration in
/// milliseconds (kept modulo 2^64).
pub fn build(
    scan_result: ScanResult,
    resolved: &ResolvedConfig,
    config_path: Option<String>,
    timestamp: Timestamp,
    tool_version: &str,
    duration_ms: u128,
) -> (r: Report)
    requires
        violation_total(scan_result.files@) <= usize::MAX,
        rule_total(scan_result.files@) <= usize::MAX,
    ensures
        r.metadata.timestamp == timestamp,
        r.metadata.tool_version@ == tool_version@,
        views(r.metadata.scanned_paths@) == views(resolved.scan_paths@),
        r.metadata.config_path == config_path,
        r.metadata.files_scanned == scan_result.files_scanned,
        r.metadata.scan_duration_ms == duration_ms as u64,
        r.files == scan_result.files,
        summarizes(r.summary, r.files@),
{
    let summary = build_summary(&scan_result.files);
    Report {
        metadata: ReportMetadata {
            timestamp,
            tool_version: string_of(tool_version),
            scanned_paths: copy_strings(resolved.scan_paths.as_slice()),
            config_path,
            files_scanned: scan_result.files_scanned,
            scan_duration_ms: duration_ms as u64,
        },
        files: scan_result.files,
        summary,
    }
}

/// `v` lists the entries of `m` with the largest counts, largest first, at most
/// `limit` of them: each key once with its count, and no entry left out has a
/// larger count than the last one listed.
pub open spec fn lists_top_entries(v: Seq<(Seq<char>, nat)>, m: CountMap, limit: nat) -> bool {
    &&& v.len() == (if limit < m.size() {
        limit
    } else {
        m.size()
    })
    &&& forall|i: int, j: int| 0 <= i <= j < v.len() ==> #[trigger] v[i].1 >= #[trigger] v[j].1
    &&& forall|i: int, j: int|
        0 <= i < v.len() && 0 <= j < v.len() && i != j ==> #[trigger] v[i].0 != #[trigger] v[j].0
    &&& forall|i: int| 0 <= i < v.len() ==> m.has(#[trigger] v[i].0) && v[i].1 == m.count(v[i].0)
    &&& forall|k: Seq<char>|
        #[trigger] m.has(k) && (forall|i: int| 0 <= i < v.len() ==> v[i].0 != k) ==> v.len()
            == limit && (v.len() == 0 || m.count(k) <= v[v.len() - 1].1)
}

/// The entries of `map` by count, largest first, keeping at most `limit` of them.
pub fn sorted_entries(map: &CountMap, limit: usize) -> (out: Vec<(String, usize)>)
    requires
        map.wf(),
    ensures
        lists_top_entries(pair_views(out@), *map, limit as nat),
{
    let mut all = sorted_vec(map);
    let ghost full = pair_views(all@);
    proof {
        lemma_listed_keys(full, map);
    }
    if limit < all.len() {
        all.truncate(limit);
    }
    proof {
        let v = pair_views(all@);
        assert(v =~= full.take(v.len() as int));
        lemma_top_entries(full, v, *map, limit as nat);
    }
    all
}

/// The first `limit` entries of a full list of entries are the top entries.
proof fn lemma_top_entries(
    full: Seq<(Seq<char>, nat)>,
    v: Seq<(Seq<char>, nat)>,
    m: CountMap,
    limit: nat,
)
    requires
        lists_entries(full, m),
        full.len() == m.size(),
        v.len() == (if limit < full.len() {
            limit
        } else {
            full.len()
        }),
        v == full.take(v.len() as int),
    ensures
        lists_top_entries(v, m, limit),
{
    assert forall|i: int, j: int| 0 <= i <= j < v.len() implies #[trigger] v[i].1 >= #[trigger] v[j].1 by {
        assert(v[i] == full[i]);
        assert(v[j] == full[j]);
    }
    assert forall|i: int, j: int|
        0 <= i < v.len() && 0 <= j < v.len() && i != j implies #[trigger] v[i].0 != #[trigger] v[j].0 by {
        assert(v[i] == full[i]);
        assert(v[j] == full[j]);
    }
    assert forall|i: int| 0 <= i < v.len() implies m.has(#[trigger] v[i].0) && v[i].1 == m.count(v[i].0) by {
        assert(v[i] == full[i]);
    }
    assert forall|k: Seq<char>|
        #[trigger] m.has(k) && (forall|i: int| 0 <= i < v.len() ==> v[i].0 != k) implies v.len()
            == limit && (v.len() == 0 || m.count(k) <= v[v.len() - 1].1) by {
        let j = choose|j: int| 0 <= j < full.len() && #[trigger] full[j].0 == k;
        if j < v.len() {
            assert(v[j] == full[j]);
        }
        assert(m.has(full[j].0) && full[j].1 == m.count(full[j].0));
        if v.len() > 0 {
            assert(v[v.len() - 1] == full[v.len() - 1]);
            assert(full[v.len() - 1].1 >= full[j].1);
        }
    }
}

/// A list of all the entries of `map` holds as many entries as `map`.
proof fn lemma_listed_keys(v: Seq<(Seq<char>, nat)>, map: &CountMap)
    requires
        map.wf(),
        lists_entries(v, *map),
    ensures
        v.len() == map.size(),
{
    map.lemma_entries();
    let es = map.entry_seq();
    let keys = key_seq(es);
    let vkeys = v.map_values(|e: (Seq<char>, nat)| e.0);
    assert(keys.no_duplicates()) by {
        assert forall|a: int, b: int| 0 <= a < keys.len() && 0 <= b < keys.len() && a != b implies keys[a] != keys[b] by {
            assert(keys[a] == es[a].0@);
            assert(keys[b] == es[b].0@);
        }
    }
    assert(vkeys.no_duplicates()) by {
        assert forall|a: int, b: int| 0 <= a < vkeys.len() && 0 <= b < vkeys.len() && a != b implies vkeys[a] != vkeys[b] by {
            assert(vkeys[a] == v[a].0);
            assert(vkeys[b] == v[b].0);
        }
    }
    assert(keys.to_set() =~= vkeys.to_set()) by {
        assert forall|k: Seq<char>| keys.to_set().contains(k) <==> vkeys.to_set().contains(k) by {
            if keys.to_set().contains(k) {
                assert(keys.contains(k));
                assert(map.has(k));
                let i = choose|i: int| 0 <= i < v.len() && #[trigger] v[i].0 == k;
                assert(vkeys[i] == k);
            }
            if vkeys.to_set().contains(k) {
                let i = choose|i: int| 0 <= i < vkeys.len() && vkeys[i] == k;
                assert(v[i].0 == k);
                assert(map.has(v[i].0));
                assert(keys.contains(k));
            }
        }
    }
    keys.unique_seq_to_set();
    vkeys.unique_seq_to_set();
}

/// How a report is printed.
#[derive(Debug, Clone, Copy, PartialEq, Eq, Structural)]
pub enum OutputFormat {
    /// Pretty-printed JSON.
    Json,
    /// The interactive explorer.
    Tui,
    /// Aligned text for a terminal.
    Human,
}

/// The output format a format name selects: `json`, `tui`, and anything else human.
pub fn output_format(name: &str) -> (f: OutputFormat)
    ensures
        f == (if name@ == "json"@ {
            OutputFormat::Json
        } else if name@ == "tui"@ {
            OutputFormat::Tui
        } else {
            OutputFormat::Human
        }),
{
    if same_text(name, "json") {
        OutputFormat::Json
    } else if same_text(name, "tui") {
        OutputFormat::Tui
    } else {
        OutputFormat::Human
    }
}

// ---------------------------------------------------------------------------
// Directory counts nest
// ---------------------------------------------------------------------------

/// An ancestor of an ancestor of `p` is an ancestor of `p`.
pub proof fn lemma_ancestors_closed(p: Seq<char>, a: Seq<char>, x: Seq<char>)
    requires
        ancestors(p).contains(a),
        ancestors(a).contains(x),
    ensures
        ancestors(p).contains(x),
    decreases p.len(),
{
    crate::paths::lemma_parent_shorter(p);
    match path_parent_of(p) {
        Some(d) => {
            if d.len() > 0 && d.len() < p.len() {
                let ap = ancestors(p);
                assert(ap == seq![d] + ancestors(d));
                if a == d {
                    let i = choose|i: int| 0 <= i < ancestors(d).len() && ancestors(d)[i] == x;
                    assert(ap[i + 1] == x);
                } else {
                    let j = choose|j: int| 0 <= j < ap.len() && ap[j] == a;
                    assert(j > 0);
                    assert(ancestors(d)[j - 1] == a);
                    lemma_ancestors_closed(d, a, x);
                    let i = choose|i: int| 0 <= i < ancestors(d).len() && ancestors(d)[i] == x;
                    assert(ap[i + 1] == x);
                }
            }
        },
        None => {},
    }
}

spec fn path_parent_of(p: Seq<char>) -> Option<Seq<char>> {
    crate::paths::path_parent(p)
}

/// Directory counts nest: a directory counts at least the violations of every
/// directory below it.
pub proof fn lemma_directory_counts_nest(files: Seq<FileReport>, dir: Seq<char>, above: Seq<char>)
    requires
        ancestors(dir).contains(above),
    ensures
        directory_tally(files, above) >= directory_tally(files, dir),
    decreases files.len(),
{
    if files.len() > 0 {
        lemma_directory_counts_nest(files.drop_last(), dir, above);
        let p = files.last().path@;
        if ancestors(p).contains(dir) {
            lemma_ancestors_closed(p, dir, above);
        }
    }
}

/// Every violation is counted under exactly one owner: the owner counts add up to
/// the total, over any list of owners that holds each file's owner key once.
pub proof fn lemma_owner_counts_total(files: Seq<FileReport>, owners: Seq<Seq<char>>)
    requires
        owners.no_duplicates(),
        forall|i: int| 0 <= i < files.len() ==> owners.contains(#[trigger] owner_key(files[i])),
    ensures
        owner_sum(files, owners) == violation_total(files),
    decreases files.len(),
{
    if files.len() > 0 {
        let f = files.last();
        let rest = files.drop_last();
        assert forall|i: int| 0 <= i < rest.len() implies owners.contains(#[trigger] owner_key(rest[i])) by {
            assert(rest[i] == files[i]);
        }
        lemma_owner_counts_total(rest, owners);
        assert(owners.contains(owner_key(files[files.len() - 1])));
        lemma_owner_sum_step(rest, f, owners);
        assert(files =~= rest.push(f));
    } else {
        lemma_owner_sum_empty(files, owners);
    }
}

/// The sum of the owner counts of `files` over `owners`.
pub open spec fn owner_sum(files: Seq<FileReport>, owners: Seq<Seq<char>>) -> nat
    decreases owners.len(),
{
    if owners.len() == 0 {
        0
    } else {
        owner_sum(files, owners.drop_last()) + owner_tally(files, owners.last())
    }
}

proof fn lemma_owner_sum_empty(files: Seq<FileReport>, owners: Seq<Seq<char>>)
    requires
        files.len() == 0,
    ensures
        owner_sum(files, owners) == 0,
    decreases owners.len(),
{
    if owners.len() > 0 {
        lemma_owner_sum_empty(files, owners.drop_last());
    }
}

proof fn lemma_owner_sum_step(rest: Seq<FileReport>, f: FileReport, owners: Seq<Seq<char>>)
    requires
        owners.no_duplicates(),
    ensures
        owner_sum(rest.push(f), owners) == owner_sum(rest, owners) + (if owners.contains(
            owner_key(f),
        ) {
            f.violations@.len()
        } else {
            0
        }),
    decreases owners.len(),
{
    let files = rest.push(f);
    assert(files.drop_last() =~= rest);
    assert(files.last() == f);
    if owners.len() > 0 {
        let o = owners.drop_last();
        assert(o.no_duplicates()) by {
            assert forall|a: int, b: int| 0 <= a < o.len() && 0 <= b < o.len() && a != b implies o[a] != o[b] by {
                assert(o[a] == owners[a]);
                assert(o[b] == owners[b]);
            }
        }
        lemma_owner_sum_step(rest, f, o);
        if owners.contains(owner_key(f)) {
            if owners.last() == owner_key(f) {
                assert(!o.contains(owner_key(f))) by {
                    if o.contains(owner_key(f)) {
                        let j = choose|j: int| 0 <= j < o.len() && o[j] == owner_key(f);
                        assert(owners[j] == owners[owners.len() - 1]);
                    }
                }
            } else {
                let j = choose|j: int| 0 <= j < owners.len() && owners[j] == owner_key(f);
                assert(j != owners.len() - 1);
                assert(o[j] == owner_key(f));
            }
        } else {
            assert(!o.contains(owner_key(f))) by {
                if o.contains(owner_key(f)) {
                    let j = choose|j: int| 0 <= j < o.len() && o[j] == owner_key(f);
                    assert(owners[j] == owner_key(f));
                }
            }
        }
    }
}

} // verus!
