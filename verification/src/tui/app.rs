//! View state of the interactive report explorer: filters over the report's
//! dimensions, the filtered aggregations shown in the data views, selections, and
//! keyboard navigation.
//!
//! A violation passes the filters when, in every dimension with at least one
//! active value, it matches one of them (its pattern, its category, one of its
//! rules, its file's owner): values within a dimension are alternatives, and
//! dimensions are combined with "and".

use vstd::prelude::*;

use super::tree::{build_dir_tree, row_views, tree_rows, DirTreeRow};
use crate::counts::{pair_views, CountMap, IndexSet, StringSet};
use crate::paths::{ancestors, ancestors_of, lemma_ancestors_shorter};
use crate::report::{
    lemma_occurrences_le, lemma_rule_count_prefix, lemma_totals_prefix, occurrences, owner_key,
    rule_count, rule_names, rule_total, violation_total, Report,
};
use crate::scan::{FileReport, Violation};
use crate::sort::{lemma_insert_by_at, lists_counts, lists_entries, sort_by_lt, sorted_vec};
use crate::text::{string_from_chars, string_of};

verus! {

// ---------------------------------------------------------------------------
// Dimensions, views, focus, selections
// ---------------------------------------------------------------------------

/// A dimension that violations can be filtered by.
#[derive(Clone, Copy, PartialEq, Eq, Structural, Debug)]
pub enum FilterDimension {
    Pattern,
    Category,
    Rule,
    Owner,
}

/// Number of filter dimensions.
pub const DIMENSION_COUNT: usize = 4;

/// The filter dimensions in panel order.
pub open spec fn spec_dimension(i: int) -> FilterDimension {
    if i == 0 {
        FilterDimension::Pattern
    } else if i == 1 {
        FilterDimension::Category
    } else if i == 2 {
        FilterDimension::Rule
    } else {
        FilterDimension::Owner
    }
}

/// The `i`-th filter dimension in panel order.
pub fn dimension_at(i: usize) -> (d: FilterDimension)
    requires
        i < DIMENSION_COUNT,
    ensures
        d == spec_dimension(i as int),
{
    if i == 0 {
        FilterDimension::Pattern
    } else if i == 1 {
        FilterDimension::Category
    } else if i == 2 {
        FilterDimension::Rule
    } else {
        FilterDimension::Owner
    }
}

impl FilterDimension {
    /// The dimension's title.
    pub fn label(self) -> (s: &'static str)
        ensures
            s@ == (match self {
                FilterDimension::Pattern => "Pattern"@,
                FilterDimension::Category => "Category"@,
                FilterDimension::Rule => "Rule"@,
                FilterDimension::Owner => "Owner"@,
            }),
    {
        match self {
            FilterDimension::Pattern => "Pattern",
            FilterDimension::Category => "Category",
            FilterDimension::Rule => "Rule",
            FilterDimension::Owner => "Owner",
        }
    }
}

/// A data view of the right panel.
#[derive(Clone, Copy, PartialEq, Eq, Structural, Debug)]
pub enum DataView {
    Files,
    Rules,
    Patterns,
    Categories,
    Owners,
    Directories,
}

/// Number of data views.
pub const DATA_VIEW_COUNT: usize = 6;

/// Position of the directory tree among the data views.
pub const DIRECTORY_VIEW: usize = 5;

/// The data views in panel order.
pub open spec fn spec_data_view(i: int) -> DataView {
    if i == 0 {
        DataView::Files
    } else if i == 1 {
        DataView::Rules
    } else if i == 2 {
        DataView::Patterns
    } else if i == 3 {
        DataView::Categories
    } else if i == 4 {
        DataView::Owners
    } else {
        DataView::Directories
    }
}

/// The `i`-th data view in panel order.
pub fn data_view_at(i: usize) -> (v: DataView)
    requires
        i < DATA_VIEW_COUNT,
    ensures
        v == spec_data_view(i as int),
{
    if i == 0 {
        DataView::Files
    } else if i == 1 {
        DataView::Rules
    } else if i == 2 {
        DataView::Patterns
    } else if i == 3 {
        DataView::Categories
    } else if i == 4 {
        DataView::Owners
    } else {
        DataView::Directories
    }
}

impl DataView {
    /// The view's title.
    pub fn label(self) -> (s: &'static str)
        ensures
            s@ == (match self {
                DataView::Files => "Files"@,
                DataView::Rules => "Rules"@,
                DataView::Patterns => "Patterns"@,
                DataView::Categories => "Categories"@,
                DataView::Owners => "Owners"@,
                DataView::Directories => "Dirs"@,
            }),
    {
        match self {
            DataView::Files => "Files",
            DataView::Rules => "Rules",
            DataView::Patterns => "Patterns",
            DataView::Categories => "Categories",
            DataView::Owners => "Owners",
            DataView::Directories => "Dirs",
        }
    }
}

/// Which panel has the keyboard.
#[derive(Clone, Copy, PartialEq, Eq, Structural, Debug)]
pub enum Focus {
    Filters,
    Data,
}

/// The selected row of a list, if any.
#[derive(Clone, Copy, PartialEq, Eq, Debug)]
pub struct ListState {
    pub selected: Option<usize>,
}

impl ListState {
    /// No row selected.
    pub fn new() -> (s: ListState)
        ensures
            s.selected is None,
    {
        ListState { selected: None }
    }

    /// The selected row.
    pub fn selected(&self) -> (r: Option<usize>)
        ensures
            r == self.selected,
    {
        self.selected
    }

    /// Selects a row (or none).
    pub fn select(&mut self, s: Option<usize>)
        ensures
            final(self).selected == s,
    {
        self.selected = s;
    }
}

/// A key press, as the explorer distinguishes them.
#[derive(Clone, Copy, PartialEq, Eq, Structural, Debug)]
pub enum KeyInput {
    /// `q` or Escape.
    Quit,
    /// Tab.
    Tab,
    /// Left arrow or `h`.
    Left,
    /// Right arrow or `l`.
    Right,
    /// Down arrow or `j`.
    Down,
    /// Up arrow or `k`.
    Up,
    /// Space or Enter.
    Toggle,
    /// `c`.
    Clear,
    /// Any other key.
    Other,
}

// ---------------------------------------------------------------------------
// What the filters select
// ---------------------------------------------------------------------------

/// The active filter values of each dimension.
pub struct Filters {
    pub pattern: Set<Seq<char>>,
    pub category: Set<Seq<char>>,
    pub rule: Set<Seq<char>>,
    pub owner: Set<Seq<char>>,
}

/// An empty filter set allows everything; otherwise `k` must be in it.
pub open spec fn allows(s: Set<Seq<char>>, k: Seq<char>) -> bool {
    s == Set::<Seq<char>>::empty() || s.contains(k)
}

/// An empty filter set allows everything; otherwise one of `ks` must be in it.
pub open spec fn allows_any(s: Set<Seq<char>>, ks: Seq<Seq<char>>) -> bool {
    s == Set::<Seq<char>>::empty() || exists|i: int| 0 <= i < ks.len() && s.contains(ks[i])
}

/// Violation `v` of file `f` passes the filters.
pub open spec fn passes(f: FileReport, v: Violation, flt: Filters) -> bool {
    &&& allows(flt.owner, owner_key(f))
    &&& allows(flt.pattern, v.pattern@)
    &&& allows(flt.category, v.category@)
    &&& allows_any(flt.rule, rule_names(v))
}

/// What a filtered aggregation counts.
pub enum Tally {
    /// Every violation.
    All,
    /// Violations with pattern `k`.
    Pattern,
    /// Violations with category `k`.
    Category,
    /// Occurrences of rule `k`.
    Rule,
    /// Violations in files counted under owner `k`.
    Owner,
    /// Violations in files below directory `k`.
    Directory,
}

/// How much violation `v` of file `f` adds to the tally of `k`.
pub open spec fn weight(f: FileReport, v: Violation, t: Tally, k: Seq<char>) -> nat {
    match t {
        Tally::All => 1,
        Tally::Pattern => if v.pattern@ == k {
            1
        } else {
            0
        },
        Tally::Category => if v.category@ == k {
            1
        } else {
            0
        },
        Tally::Rule => occurrences(rule_names(v), k),
        Tally::Owner => if owner_key(f) == k {
            1
        } else {
            0
        },
        Tally::Directory => if ancestors(f.path@).contains(k) {
            1
        } else {
            0
        },
    }
}

/// The tally of `k` over the violations `vs` of file `f` that pass the filters.
pub open spec fn vs_tally(f: FileReport, vs: Seq<Violation>, flt: Filters, t: Tally, k: Seq<char>) -> nat
    decreases vs.len(),
{
    if vs.len() == 0 {
        0
    } else {
        vs_tally(f, vs.drop_last(), flt, t, k) + (if passes(f, vs.last(), flt) {
            weight(f, vs.last(), t, k)
        } else {
            0
        })
    }
}

/// The tally of `k` over all violations of `files` that pass the filters.
pub open spec fn filtered_tally(files: Seq<FileReport>, flt: Filters, t: Tally, k: Seq<char>) -> nat
    decreases files.len(),
{
    if files.len() == 0 {
        0
    } else {
        filtered_tally(files.drop_last(), flt, t, k) + vs_tally(
            files.last(),
            files.last().violations@,
            flt,
            t,
            k,
        )
    }
}

/// Number of violations of file `f` that pass the filters.
pub open spec fn file_hits(f: FileReport, flt: Filters) -> nat {
    vs_tally(f, f.violations@, flt, Tally::All, Seq::empty())
}

/// The owner column of a file: its owner, or `-`.
pub open spec fn owner_display(f: FileReport) -> Seq<char> {
    match f.owner {
        Some(o) => o@,
        None => "-"@,
    }
}

/// Path, owner column and passing-violation count of each file with at least one
/// passing violation, in report order.
pub open spec fn file_count_rows(files: Seq<FileReport>, flt: Filters) -> Seq<
    (Seq<char>, Seq<char>, nat),
>
    decreases files.len(),
{
    if files.len() == 0 {
        Seq::empty()
    } else {
        let f = files.last();
        file_count_rows(files.drop_last(), flt) + (if file_hits(f, flt) > 0 {
            seq![(f.path@, owner_display(f), file_hits(f, flt))]
        } else {
            Seq::empty()
        })
    }
}

/// File rows ordered by count, largest first.
pub open spec fn by_file_total() -> spec_fn(
    (Seq<char>, Seq<char>, nat),
    (Seq<char>, Seq<char>, nat),
) -> bool {
    |a: (Seq<char>, Seq<char>, nat), b: (Seq<char>, Seq<char>, nat)| a.2 > b.2
}

/// What a list of file rows shows.
pub open spec fn triple_views(v: Seq<(String, String, usize)>) -> Seq<(Seq<char>, Seq<char>, nat)> {
    v.map_values(|e: (String, String, usize)| (e.0@, e.1@, e.2 as nat))
}

/// The paths and counts of a list of file rows.
pub open spec fn file_pairs(v: Seq<(String, String, usize)>) -> Seq<(Seq<char>, nat)> {
    v.map_values(|e: (String, String, usize)| (e.0@, e.2 as nat))
}

/// The values at the active indices of a dimension.
pub open spec fn active_values(vals: Seq<(String, usize)>, active: Set<usize>) -> Set<Seq<char>> {
    Set::new(
        |k: Seq<char>|
            exists|i: int| 0 <= i < vals.len() && active.contains(i as usize) && vals[i].0@ == k,
    )
}

// ---------------------------------------------------------------------------
// App state
// ---------------------------------------------------------------------------

/// State of the report explorer.
pub struct App<'a> {
    pub report: &'a Report,
    pub focus: Focus,
    // Left panel
    pub dimension: usize,
    pub filter_list_state: ListState,
    pub dimension_values: Vec<Vec<(String, usize)>>,
    pub active_filters: Vec<IndexSet>,
    // Right panel
    pub data_view: usize,
    pub data_states: Vec<ListState>,
    // Cached filtered data
    pub filtered_files: Vec<(String, String, usize)>,
    pub filtered_rules: Vec<(String, usize)>,
    pub filtered_patterns: Vec<(String, usize)>,
    pub filtered_categories: Vec<(String, usize)>,
    pub filtered_owners: Vec<(String, usize)>,
    pub filtered_dir_counts: CountMap,
    pub filtered_violation_count: usize,
    // Directory tree state
    pub expanded_dirs: StringSet,
    pub dir_tree_rows: Vec<DirTreeRow>,
}

impl<'a> App<'a> {
    /// The shape every operation keeps.
    pub open spec fn wf(&self) -> bool {
        &&& self.dimension < DIMENSION_COUNT
        &&& self.data_view < DATA_VIEW_COUNT
        &&& self.dimension_values@.len() == DIMENSION_COUNT
        &&& self.active_filters@.len() == DIMENSION_COUNT
        &&& forall|d: int| 0 <= d < DIMENSION_COUNT ==> #[trigger] self.active_filters@[d].wf()
        &&& self.data_states@.len() == DATA_VIEW_COUNT
        &&& self.filtered_dir_counts.wf()
        &&& self.expanded_dirs.wf()
        &&& violation_total(self.report.files@) <= usize::MAX
        &&& rule_total(self.report.files@) <= usize::MAX
    }

    /// The active filter values of every dimension.
    pub open spec fn filters(&self) -> Filters {
        Filters {
            pattern: active_values(
                self.dimension_values@[0]@,
                self.active_filters@[0].members(),
            ),
            category: active_values(
                self.dimension_values@[1]@,
                self.active_filters@[1].members(),
            ),
            rule: active_values(self.dimension_values@[2]@, self.active_filters@[2].members()),
            owner: active_values(self.dimension_values@[3]@, self.active_filters@[3].members()),
        }
    }

    /// The directory tree shown for the current filtered counts and expand state.
    pub open spec fn tree_matches(&self) -> bool {
        row_views(self.dir_tree_rows@) == tree_rows(
            self.filtered_dir_counts,
            file_pairs(self.filtered_files@),
            self.expanded_dirs.members(),
        )
    }

    /// The cached aggregations are those of the violations passing the filters.
    pub open spec fn consistent(&self) -> bool {
        let files = self.report.files@;
        let flt = self.filters();
        &&& self.filtered_violation_count == filtered_tally(files, flt, Tally::All, Seq::empty())
        &&& triple_views(self.filtered_files@) == sort_by_lt(
            file_count_rows(files, flt),
            by_file_total(),
        )
        &&& lists_counts(
            pair_views(self.filtered_rules@),
            |k: Seq<char>| filtered_tally(files, flt, Tally::Rule, k),
        )
        &&& lists_counts(
            pair_views(self.filtered_patterns@),
            |k: Seq<char>| filtered_tally(files, flt, Tally::Pattern, k),
        )
        &&& lists_counts(
            pair_views(self.filtered_categories@),
            |k: Seq<char>| filtered_tally(files, flt, Tally::Category, k),
        )
        &&& lists_counts(
            pair_views(self.filtered_owners@),
            |k: Seq<char>| filtered_tally(files, flt, Tally::Owner, k),
        )
        &&& self.filtered_dir_counts.positive()
        &&& forall|k: Seq<char>| #[trigger]
            self.filtered_dir_counts.count(k) == filtered_tally(files, flt, Tally::Directory, k)
        &&& self.tree_matches()
    }

    /// Number of rows of data view `i`.
    pub open spec fn view_len(&self, i: int) -> nat {
        if i == 0 {
            self.filtered_files@.len()
        } else if i == 1 {
            self.filtered_rules@.len()
        } else if i == 2 {
            self.filtered_patterns@.len()
        } else if i == 3 {
            self.filtered_categories@.len()
        } else if i == 4 {
            self.filtered_owners@.len()
        } else {
            self.dir_tree_rows@.len()
        }
    }

    /// Nothing but the cached filtered data and the data selections differs.
    pub open spec fn same_settings(&self, other: &App<'a>) -> bool {
        &&& self.report == other.report
        &&& self.focus == other.focus
        &&& self.dimension == other.dimension
        &&& self.filter_list_state == other.filter_list_state
        &&& self.dimension_values == other.dimension_values
        &&& self.active_filters == other.active_filters
        &&& self.data_view == other.data_view
        &&& self.expanded_dirs == other.expanded_dirs
    }
}

// ---------------------------------------------------------------------------
// Bounds on the tallies
// ---------------------------------------------------------------------------

proof fn lemma_vs_tally_le(f: FileReport, vs: Seq<Violation>, flt: Filters, t: Tally, k: Seq<char>)
    ensures
        !(t is Rule) ==> vs_tally(f, vs, flt, t, k) <= vs.len(),
        t is Rule ==> vs_tally(f, vs, flt, t, k) <= rule_count(vs),
    decreases vs.len(),
{
    if vs.len() > 0 {
        lemma_vs_tally_le(f, vs.drop_last(), flt, t, k);
        lemma_occurrences_le(rule_names(vs.last()), k);
    }
}

proof fn lemma_filtered_le(files: Seq<FileReport>, flt: Filters, t: Tally, k: Seq<char>)
    ensures
        !(t is Rule) ==> filtered_tally(files, flt, t, k) <= violation_total(files),
        t is Rule ==> filtered_tally(files, flt, t, k) <= rule_total(files),
    decreases files.len(),
{
    if files.len() > 0 {
        lemma_filtered_le(files.drop_last(), flt, t, k);
        lemma_vs_tally_le(files.last(), files.last().violations@, flt, t, k);
    }
}

proof fn lemma_vs_tally_blocked(f: FileReport, vs: Seq<Violation>, flt: Filters, t: Tally, k: Seq<char>)
    requires
        !allows(flt.owner, owner_key(f)),
    ensures
        vs_tally(f, vs, flt, t, k) == 0,
    decreases vs.len(),
{
    if vs.len() > 0 {
        lemma_vs_tally_blocked(f, vs.drop_last(), flt, t, k);
    }
}

proof fn lemma_vs_tally_step(f: FileReport, vs: Seq<Violation>, j: int, flt: Filters)
    requires
        0 <= j < vs.len(),
    ensures
        forall|t: Tally, k: Seq<char>| #[trigger] vs_tally(f, vs.take(j + 1), flt, t, k) == vs_tally(f, vs.take(j), flt, t, k) + (if passes(
            f,
            vs[j],
            flt,
        ) {
            weight(f, vs[j], t, k)
        } else {
            0
        }),
{
    assert(vs.take(j + 1).drop_last() == vs.take(j));
    assert(vs.take(j + 1).last() == vs[j]);
}

proof fn lemma_filtered_step(files: Seq<FileReport>, i: int, flt: Filters)
    requires
        0 <= i < files.len(),
    ensures
        forall|t: Tally, k: Seq<char>| #[trigger] filtered_tally(files.take(i + 1), flt, t, k) == filtered_tally(files.take(i), flt, t, k)
            + vs_tally(files[i], files[i].violations@, flt, t, k),
        file_count_rows(files.take(i + 1), flt) == file_count_rows(files.take(i), flt) + (if file_hits(files[i], flt) > 0 {
            seq![(files[i].path@, owner_display(files[i]), file_hits(files[i], flt))]
        } else {
            Seq::empty()
        }),
{
    assert(files.take(i + 1).drop_last() == files.take(i));
    assert(files.take(i + 1).last() == files[i]);
}

// ---------------------------------------------------------------------------
// Counting one violation
// ---------------------------------------------------------------------------

/// Whether violation `v` passes the pattern, category and rule filters.
fn violation_passes(v: &Violation, pf: &StringSet, cf: &StringSet, rf: &StringSet) -> (r: bool)
    ensures
        r == (allows(pf.members(), v.pattern@) && allows(cf.members(), v.category@) && allows_any(
            rf.members(),
            rule_names(*v),
        )),
{
    if !pf.is_empty() && !pf.contains(v.pattern.as_str()) {
        return false;
    }
    if !cf.is_empty() && !cf.contains(v.category.as_str()) {
        return false;
    }
    if rf.is_empty() {
        return true;
    }
    let ghost names = rule_names(*v);
    let mut i: usize = 0;
    while i < v.rules.len()
        invariant
            i <= v.rules@.len(),
            names == rule_names(*v),
            allows(pf.members(), v.pattern@) && allows(cf.members(), v.category@),
            rf.members() != Set::<Seq<char>>::empty(),
            forall|j: int| 0 <= j < i ==> !rf.members().contains(#[trigger] names[j]),
        decreases v.rules@.len() - i,
    {
        assert(names[i as int] == v.rules@[i as int]@);
        if rf.contains(v.rules[i].as_str()) {
            assert(rf.members().contains(names[i as int]));
            return true;
        }
        i += 1;
    }
    false
}

/// Adds violation `v` of file `f` (counted under `owner`, below the directories
/// `dirs`) to the filtered aggregations.
fn tally_violation(
    patterns: &mut CountMap,
    categories: &mut CountMap,
    rules: &mut CountMap,
    owners: &mut CountMap,
    directories: &mut CountMap,
    v: &Violation,
    owner: &str,
    dirs: &Vec<String>,
    Ghost(f): Ghost<FileReport>,
)
    requires
        old(patterns).wf() && old(patterns).positive(),
        old(categories).wf() && old(categories).positive(),
        old(rules).wf() && old(rules).positive(),
        old(owners).wf() && old(owners).positive(),
        old(directories).wf() && old(directories).positive(),
        owner@ == owner_key(f),
        dirs@.len() == ancestors(f.path@).len(),
        forall|x: int| 0 <= x < dirs@.len() ==> #[trigger] dirs@[x]@ == ancestors(f.path@)[x],
        ancestors(f.path@).no_duplicates(),
        forall|k: Seq<char>| #[trigger] old(patterns).count(k) + 1 <= usize::MAX,
        forall|k: Seq<char>| #[trigger] old(categories).count(k) + 1 <= usize::MAX,
        forall|k: Seq<char>| #[trigger] old(owners).count(k) + 1 <= usize::MAX,
        forall|k: Seq<char>| #[trigger] old(directories).count(k) + 1 <= usize::MAX,
        forall|k: Seq<char>| #[trigger] old(rules).count(k) + v.rules@.len() <= usize::MAX,
    ensures
        final(patterns).wf() && final(patterns).positive(),
        final(categories).wf() && final(categories).positive(),
        final(rules).wf() && final(rules).positive(),
        final(owners).wf() && final(owners).positive(),
        final(directories).wf() && final(directories).positive(),
        forall|k: Seq<char>| #[trigger]
            final(patterns).count(k) == old(patterns).count(k) + weight(f, *v, Tally::Pattern, k),
        forall|k: Seq<char>| #[trigger]
            final(categories).count(k) == old(categories).count(k) + weight(
                f,
                *v,
                Tally::Category,
                k,
            ),
        forall|k: Seq<char>| #[trigger]
            final(rules).count(k) == old(rules).count(k) + weight(f, *v, Tally::Rule, k),
        forall|k: Seq<char>| #[trigger]
            final(owners).count(k) == old(owners).count(k) + weight(f, *v, Tally::Owner, k),
        forall|k: Seq<char>| #[trigger]
            final(directories).count(k) == old(directories).count(k) + weight(
                f,
                *v,
                Tally::Directory,
                k,
            ),
{
    patterns.add(v.pattern.as_str(), 1);
    categories.add(v.category.as_str(), 1);
    owners.add(owner, 1);
    let ghost names = rule_names(*v);
    let ghost rb = *rules;
    let mut r: usize = 0;
    while r < v.rules.len()
        invariant
            r <= v.rules@.len(),
            names == rule_names(*v),
            rules.wf() && rules.positive(),
            forall|k: Seq<char>| #[trigger] rb.count(k) + v.rules@.len() <= usize::MAX,
            forall|k: Seq<char>| #[trigger]
                rules.count(k) == rb.count(k) + occurrences(names.take(r as int), k),
        decreases v.rules@.len() - r,
    {
        assert(names.take(r + 1).drop_last() == names.take(r as int));
        assert(names.take(r + 1).last() == v.rules@[r as int]@);
        proof {
            lemma_occurrences_le(names.take(r as int), v.rules@[r as int]@);
        }
        rules.add(v.rules[r].as_str(), 1);
        r += 1;
    }
    assert(names.take(v.rules@.len() as int) == names);
    let ghost anc = ancestors(f.path@);
    let ghost db = *directories;
    let mut t: usize = 0;
    while t < dirs.len()
        invariant
            t <= dirs@.len() == anc.len(),
            anc == ancestors(f.path@),
            anc.no_duplicates(),
            forall|x: int| 0 <= x < dirs@.len() ==> #[trigger] dirs@[x]@ == anc[x],
            directories.wf() && directories.positive(),
            forall|k: Seq<char>| #[trigger] db.count(k) + 1 <= usize::MAX,
            forall|k: Seq<char>| #[trigger]
                directories.count(k) == db.count(k) + (if anc.take(t as int).contains(k) {
                    1nat
                } else {
                    0
                }),
        decreases dirs@.len() - t,
    {
        let ghost key = anc[t as int];
        assert(!anc.take(t as int).contains(key)) by {
            if anc.take(t as int).contains(key) {
                let x = choose|x: int| 0 <= x < t && anc.take(t as int)[x] == key;
                assert(anc[x] == anc[t as int]);
            }
        }
        directories.add(dirs[t].as_str(), 1);
        assert forall|k: Seq<char>| #[trigger] anc.take(t + 1).contains(k) <==> (anc.take(
            t as int,
        ).contains(k) || k == key) by {
            let a = anc.take(t + 1);
            let b = anc.take(t as int);
            if a.contains(k) {
                let x = choose|x: int| 0 <= x < a.len() && a[x] == k;
                if x < t {
                    assert(b[x] == k);
                }
            }
            if b.contains(k) {
                let x = choose|x: int| 0 <= x < b.len() && b[x] == k;
                assert(a[x] == k);
            }
            if k == key {
                assert(a[t as int] == k);
            }
        }
        t += 1;
    }
    assert(anc.take(t as int) == anc);
}

fn sort_file_totals(v: Vec<(String, String, usize)>) -> (out: Vec<(String, String, usize)>)
    ensures
        triple_views(out@) == sort_by_lt(triple_views(v@), by_file_total()),
{
    let ghost orig = v@;
    let mut out: Vec<(String, String, usize)> = Vec::new();
    for x in it: v
        invariant
            it.seq() == orig,
            triple_views(out@) == sort_by_lt(triple_views(orig.take(it.index() as int)), by_file_total()),
    {
        let ghost idx = it.index() as int;
        let ghost xv = (x.0@, x.1@, x.2 as nat);
        let mut i: usize = 0;
        while i < out.len() && !(x.2 > out[i].2)
            invariant
                i <= out@.len(),
                xv == (x.0@, x.1@, x.2 as nat),
                forall|j: int| 0 <= j < i ==> !(by_file_total())(xv, #[trigger] triple_views(out@)[j]),
            decreases out@.len() - i,
        {
            i += 1;
        }
        proof {
            lemma_insert_by_at(triple_views(out@), xv, by_file_total(), i as int);
            assert(triple_views(orig.take(idx + 1)) =~= triple_views(orig.take(idx)).push(xv));
            assert(triple_views(orig.take(idx + 1)).drop_last() == triple_views(orig.take(idx)));
            assert(triple_views(orig.take(idx + 1)).last() == xv);
        }
        let ghost sv = triple_views(out@);
        out.insert(i, x);
        assert(triple_views(out@) =~= sv.insert(i as int, xv));
    }
    assert(orig.take(orig.len() as int) == orig);
    out
}

impl<'a> App<'a> {
    /// The cached filtered data is the same.
    pub open spec fn same_data(&self, other: &App<'a>) -> bool {
        &&& self.filtered_files == other.filtered_files
        &&& self.filtered_rules == other.filtered_rules
        &&& self.filtered_patterns == other.filtered_patterns
        &&& self.filtered_categories == other.filtered_categories
        &&& self.filtered_owners == other.filtered_owners
        &&& self.filtered_dir_counts == other.filtered_dir_counts
        &&& self.filtered_violation_count == other.filtered_violation_count
    }

    /// The filter values currently active in dimension `dim`.
    pub fn active_filter_values(&self, dim: usize) -> (s: StringSet)
        requires
            self.wf(),
            dim < DIMENSION_COUNT,
        ensures
            s.wf(),
            s.members() == active_values(
                self.dimension_values@[dim as int]@,
                self.active_filters@[dim as int].members(),
            ),
    {
        let vals = &self.dimension_values[dim];
        let act = &self.active_filters[dim];
        let mut s = StringSet::new();
        let mut i: usize = 0;
        assert(active_values(vals@.take(0), act.members()) =~= Set::<Seq<char>>::empty());
        while i < vals.len()
            invariant
                i <= vals@.len(),
                s.wf(),
                s.members() == active_values(vals@.take(i as int), act.members()),
            decreases vals@.len() - i,
        {
            let ghost before = s.members();
            let hit = act.contains(i);
            if hit {
                s.insert(vals[i].0.as_str());
            }
            proof {
                let ta = vals@.take(i + 1);
                let tb = vals@.take(i as int);
                let a = active_values(ta, act.members());
                let b = active_values(tb, act.members());
                assert forall|k: Seq<char>| a.contains(k) <==> (b.contains(k) || (hit && k == vals@[i as int].0@)) by {
                    if a.contains(k) {
                        let j = choose|j: int| 0 <= j < ta.len() && act.members().contains(j as usize) && #[trigger] ta[j].0@ == k;
                        if j < i {
                            assert(tb[j] == ta[j]);
                        }
                    }
                    if b.contains(k) {
                        let j = choose|j: int| 0 <= j < tb.len() && act.members().contains(j as usize) && #[trigger] tb[j].0@ == k;
                        assert(ta[j] == tb[j]);
                    }
                    if hit && k == vals@[i as int].0@ {
                        assert(ta[i as int] == vals@[i as int]);
                    }
                }
                if hit {
                    assert(s.members() =~= a);
                } else {
                    assert(s.members() =~= a);
                }
            }
            i += 1;
        }
        assert(vals@.take(vals@.len() as int) == vals@);
        s
    }

    /// Rebuild the directory tree rows from the filtered counts and expand state.
    pub fn rebuild_dir_tree(&mut self)
        requires
            old(self).wf(),
        ensures
            final(self).wf(),
            final(self).tree_matches(),
            final(self).same_settings(&*old(self)),
            final(self).same_data(&*old(self)),
            final(self).data_states == old(self).data_states,
    {
        let mut entries: Vec<(String, usize)> = Vec::new();
        let mut i: usize = 0;
        while i < self.filtered_files.len()
            invariant
                i <= self.filtered_files@.len(),
                entries@.len() == i,
                forall|j: int| 0 <= j < i ==> #[trigger] pair_views(entries@)[j] == file_pairs(self.filtered_files@)[j],
            decreases self.filtered_files@.len() - i,
        {
            let e = &self.filtered_files[i];
            let ghost old_entries = entries@;
            entries.push((e.0.clone(), e.2));
            assert forall|j: int| 0 <= j < i implies #[trigger] pair_views(entries@)[j] == file_pairs(self.filtered_files@)[j] by {
                assert(entries@[j] == old_entries[j]);
                assert(pair_views(old_entries)[j] == file_pairs(self.filtered_files@)[j]);
            }
            assert(pair_views(entries@)[i as int] == file_pairs(self.filtered_files@)[i as int]);
            i += 1;
        }
        assert(pair_views(entries@) =~= file_pairs(self.filtered_files@));
        self.dir_tree_rows = build_dir_tree(&self.filtered_dir_counts, &entries, &self.expanded_dirs);
    }

    /// Recompute every filtered aggregation from the report and the active filters,
    /// rebuild the directory tree, and select the first row of each non-empty view.
    #[verifier::rlimit(50)]
    pub fn rebuild_filtered_data(&mut self)
        requires
            old(self).wf(),
        ensures
            final(self).wf(),
            final(self).consistent(),
            final(self).same_settings(&*old(self)),
            forall|i: int|
                0 <= i < DATA_VIEW_COUNT ==> #[trigger] final(self).data_states@[i].selected == (if final(self).view_len(i) == 0 {
                    None
                } else {
                    Some(0usize)
                }),
    {
        let pf = self.active_filter_values(0);
        let cf = self.active_filter_values(1);
        let rf = self.active_filter_values(2);
        let of = self.active_filter_values(3);
        let ghost flt = self.filters();
        let report = self.report;
        let files = &report.files;
        let mut patterns = CountMap::new();
        let mut categories = CountMap::new();
        let mut rules = CountMap::new();
        let mut owners = CountMap::new();
        let mut directories = CountMap::new();
        let mut rows: Vec<(String, String, usize)> = Vec::new();
        let mut total: usize = 0;
        let unowned = string_of("@unowned");
        let dash = string_of("-");
        assert(triple_views(rows@) =~= Seq::<(Seq<char>, Seq<char>, nat)>::empty());
        let mut fi: usize = 0;
        while fi < files.len()
            invariant
                fi <= files@.len(),
                flt.pattern == pf.members(),
                flt.category == cf.members(),
                flt.rule == rf.members(),
                flt.owner == of.members(),
                violation_total(files@) <= usize::MAX,
                rule_total(files@) <= usize::MAX,
                unowned@ == "@unowned"@,
                dash@ == "-"@,
                total == filtered_tally(files@.take(fi as int), flt, Tally::All, Seq::empty()),
                patterns.wf() && patterns.positive(),
                categories.wf() && categories.positive(),
                rules.wf() && rules.positive(),
                owners.wf() && owners.positive(),
                directories.wf() && directories.positive(),
                forall|k: Seq<char>| #[trigger] patterns.count(k) == filtered_tally(files@.take(fi as int), flt, Tally::Pattern, k),
                forall|k: Seq<char>| #[trigger] categories.count(k) == filtered_tally(files@.take(fi as int), flt, Tally::Category, k),
                forall|k: Seq<char>| #[trigger] rules.count(k) == filtered_tally(files@.take(fi as int), flt, Tally::Rule, k),
                forall|k: Seq<char>| #[trigger] owners.count(k) == filtered_tally(files@.take(fi as int), flt, Tally::Owner, k),
                forall|k: Seq<char>| #[trigger] directories.count(k) == filtered_tally(files@.take(fi as int), flt, Tally::Directory, k),
                triple_views(rows@) == file_count_rows(files@.take(fi as int), flt),
            decreases files@.len() - fi,
        {
            let file = &files[fi];
            let owner: &str = match &file.owner {
                Some(o) => o.as_str(),
                None => unowned.as_str(),
            };
            assert(owner@ == owner_key(*file));
            proof {
                lemma_filtered_step(files@, fi as int, flt);
                lemma_totals_prefix(files@, fi + 1);
                assert(files@.take(fi + 1).drop_last() == files@.take(fi as int));
                assert(files@.take(fi + 1).last() == *file);
            }
            let ghost base_all = filtered_tally(files@.take(fi as int), flt, Tally::All, Seq::empty());
            if !of.is_empty() && !of.contains(owner) {
                proof {
                    assert forall|t: Tally, k: Seq<char>| #[trigger] vs_tally(*file, file.violations@, flt, t, k) == 0 by {
                        lemma_vs_tally_blocked(*file, file.violations@, flt, t, k);
                    }
                    assert(file_hits(*file, flt) == 0);
                    assert(triple_views(rows@) =~= triple_views(rows@) + Seq::<(Seq<char>, Seq<char>, nat)>::empty());
                }
            } else {
                let path_chars = crate::text::chars_of(file.path.as_str());
                let anc = ancestors_of(&path_chars);
                let mut dirs: Vec<String> = Vec::new();
                let mut t: usize = 0;
                while t < anc.len()
                    invariant
                        t <= anc@.len(),
                        dirs@.len() == t,
                        forall|x: int| 0 <= x < t ==> #[trigger] dirs@[x]@ == anc@[x]@,
                    decreases anc@.len() - t,
                {
                    dirs.push(string_from_chars(anc[t].as_slice()));
                    t += 1;
                }
                proof {
                    lemma_ancestors_shorter(file.path@);
                }
                let vs = &file.violations;
                let mut fcount: usize = 0;
                let mut j: usize = 0;
                while j < vs.len()
                    invariant
                        j <= vs@.len(),
                        vs@ == file.violations@,
                        owner@ == owner_key(*file),
                        allows(flt.owner, owner_key(*file)),
                        flt.pattern == pf.members(),
                        flt.category == cf.members(),
                        flt.rule == rf.members(),
                        flt.owner == of.members(),
                        dirs@.len() == ancestors(file.path@).len(),
                        forall|x: int| 0 <= x < dirs@.len() ==> #[trigger] dirs@[x]@ == ancestors(file.path@)[x],
                        ancestors(file.path@).no_duplicates(),
                        violation_total(files@.take(fi as int)) + vs@.len() <= usize::MAX,
                        rule_total(files@.take(fi as int)) + rule_count(vs@) <= usize::MAX,
                        fcount == vs_tally(*file, vs@.take(j as int), flt, Tally::All, Seq::empty()),
                        total == base_all + fcount,
                        base_all == filtered_tally(files@.take(fi as int), flt, Tally::All, Seq::empty()),
                        patterns.wf() && patterns.positive(),
                        categories.wf() && categories.positive(),
                        rules.wf() && rules.positive(),
                        owners.wf() && owners.positive(),
                        directories.wf() && directories.positive(),
                        forall|k: Seq<char>| #[trigger] patterns.count(k) == filtered_tally(files@.take(fi as int), flt, Tally::Pattern, k) + vs_tally(*file, vs@.take(j as int), flt, Tally::Pattern, k),
                        forall|k: Seq<char>| #[trigger] categories.count(k) == filtered_tally(files@.take(fi as int), flt, Tally::Category, k) + vs_tally(*file, vs@.take(j as int), flt, Tally::Category, k),
                        forall|k: Seq<char>| #[trigger] rules.count(k) == filtered_tally(files@.take(fi as int), flt, Tally::Rule, k) + vs_tally(*file, vs@.take(j as int), flt, Tally::Rule, k),
                        forall|k: Seq<char>| #[trigger] owners.count(k) == filtered_tally(files@.take(fi as int), flt, Tally::Owner, k) + vs_tally(*file, vs@.take(j as int), flt, Tally::Owner, k),
                        forall|k: Seq<char>| #[trigger] directories.count(k) == filtered_tally(files@.take(fi as int), flt, Tally::Directory, k) + vs_tally(*file, vs@.take(j as int), flt, Tally::Directory, k),
                    decreases vs@.len() - j,
                {
                    let v = &vs[j];
                    proof {
                        lemma_vs_tally_step(*file, vs@, j as int, flt);
                        lemma_rule_count_prefix(vs@, j as int);
                        assert forall|k: Seq<char>|
                            filtered_tally(files@.take(fi as int), flt, Tally::Pattern, k) + vs_tally(*file, vs@.take(j as int), flt, Tally::Pattern, k) + 1 <= usize::MAX
                            && filtered_tally(files@.take(fi as int), flt, Tally::Category, k) + vs_tally(*file, vs@.take(j as int), flt, Tally::Category, k) + 1 <= usize::MAX
                            && filtered_tally(files@.take(fi as int), flt, Tally::Owner, k) + vs_tally(*file, vs@.take(j as int), flt, Tally::Owner, k) + 1 <= usize::MAX
                            && filtered_tally(files@.take(fi as int), flt, Tally::Directory, k) + vs_tally(*file, vs@.take(j as int), flt, Tally::Directory, k) + 1 <= usize::MAX
                            && filtered_tally(files@.take(fi as int), flt, Tally::Rule, k) + vs_tally(*file, vs@.take(j as int), flt, Tally::Rule, k) + v.rules@.len() <= usize::MAX
                            by {
                            lemma_filtered_le(files@.take(fi as int), flt, Tally::Pattern, k);
                            lemma_filtered_le(files@.take(fi as int), flt, Tally::Category, k);
                            lemma_filtered_le(files@.take(fi as int), flt, Tally::Owner, k);
                            lemma_filtered_le(files@.take(fi as int), flt, Tally::Directory, k);
                            lemma_filtered_le(files@.take(fi as int), flt, Tally::Rule, k);
                            lemma_filtered_le(files@.take(fi as int), flt, Tally::All, Seq::empty());
                            lemma_vs_tally_le(*file, vs@.take(j as int), flt, Tally::Pattern, k);
                            lemma_vs_tally_le(*file, vs@.take(j as int), flt, Tally::Category, k);
                            lemma_vs_tally_le(*file, vs@.take(j as int), flt, Tally::Owner, k);
                            lemma_vs_tally_le(*file, vs@.take(j as int), flt, Tally::Directory, k);
                            lemma_vs_tally_le(*file, vs@.take(j as int), flt, Tally::Rule, k);
                        }
                        lemma_filtered_le(files@.take(fi as int), flt, Tally::All, Seq::empty());
                        lemma_vs_tally_le(*file, vs@.take(j as int), flt, Tally::All, Seq::empty());
                        assert(base_all + vs_tally(*file, vs@.take(j as int), flt, Tally::All, Seq::empty()) + 1 <= usize::MAX);
                    }
                    let ok = violation_passes(v, &pf, &cf, &rf);
                    assert(ok == passes(*file, *v, flt));
                    if ok {
                        tally_violation(&mut patterns, &mut categories, &mut rules, &mut owners, &mut directories, v, owner, &dirs, Ghost(*file));
                        total = total + 1;
                        fcount = fcount + 1;
                    }
                    j += 1;
                }
                assert(vs@.take(vs@.len() as int) == vs@);
                if fcount > 0 {
                    let disp = match &file.owner {
                        Some(o) => o.clone(),
                        None => dash.clone(),
                    };
                    let ghost before = triple_views(rows@);
                    rows.push((file.path.clone(), disp, fcount));
                    assert(triple_views(rows@) =~= before + seq![(file.path@, owner_display(*file), file_hits(*file, flt))]);
                } else {
                    assert(triple_views(rows@) =~= triple_views(rows@) + Seq::<(Seq<char>, Seq<char>, nat)>::empty());
                }
            }
            fi += 1;
        }
        assert(files@.take(files@.len() as int) == files@);
        let ghost fl = files@;
        self.filtered_files = sort_file_totals(rows);
        self.filtered_rules = sorted_vec(&rules);
        self.filtered_patterns = sorted_vec(&patterns);
        self.filtered_categories = sorted_vec(&categories);
        self.filtered_owners = sorted_vec(&owners);
        self.filtered_dir_counts = directories;
        self.filtered_violation_count = total;
        proof {
            assert((|k: Seq<char>| rules.count(k)) =~= (|k: Seq<char>| filtered_tally(fl, flt, Tally::Rule, k)));
            assert((|k: Seq<char>| patterns.count(k)) =~= (|k: Seq<char>| filtered_tally(fl, flt, Tally::Pattern, k)));
            assert((|k: Seq<char>| categories.count(k)) =~= (|k: Seq<char>| filtered_tally(fl, flt, Tally::Category, k)));
            assert((|k: Seq<char>| owners.count(k)) =~= (|k: Seq<char>| filtered_tally(fl, flt, Tally::Owner, k)));
        }
        self.rebuild_dir_tree();
        let mut i: usize = 0;
        while i < DATA_VIEW_COUNT
            invariant
                i <= DATA_VIEW_COUNT,
                self.wf(),
                self.consistent(),
                self.same_settings(&*old(self)),
                forall|x: int| 0 <= x < i ==> #[trigger] self.data_states@[x].selected == (if self.view_len(x) == 0 {
                    None
                } else {
                    Some(0usize)
                }),
            decreases DATA_VIEW_COUNT - i,
        {
            let len = if i == 0 {
                self.filtered_files.len()
            } else if i == 1 {
                self.filtered_rules.len()
            } else if i == 2 {
                self.filtered_patterns.len()
            } else if i == 3 {
                self.filtered_categories.len()
            } else if i == 4 {
                self.filtered_owners.len()
            } else {
                self.dir_tree_rows.len()
            };
            let sel = if len == 0 {
                None
            } else {
                Some(0usize)
            };
            self.data_states.set(i, ListState { selected: sel });
            i += 1;
        }
    }
}

/// The index after `i` among `n`, wrapping around.
pub open spec fn next_index(i: int, n: int) -> int {
    (i + 1) % n
}

/// The index before `i` among `n`, wrapping around.
pub open spec fn prev_index(i: int, n: int) -> int {
    (i + n - 1) % n
}

/// The selection after moving down a list of `len` rows: the next row, wrapping
/// from the last row to the first; the first row when nothing was selected.
pub open spec fn scrolled_down(sel: Option<usize>, len: nat) -> Option<usize> {
    match sel {
        None => Some(0),
        Some(i) => if i >= len - 1 {
            Some(0)
        } else {
            Some((i + 1) as usize)
        },
    }
}

/// The selection after moving up a list of `len` rows: the previous row, wrapping
/// from the first row to the last; the first row when nothing was selected.
pub open spec fn scrolled_up(sel: Option<usize>, len: nat) -> Option<usize> {
    match sel {
        None => Some(0),
        Some(i) => if i == 0 {
            Some((len - 1) as usize)
        } else {
            Some((i - 1) as usize)
        },
    }
}

/// The first row of a list of `len` rows, if any.
pub open spec fn first_row(len: nat) -> Option<usize> {
    if len == 0 {
        None
    } else {
        Some(0)
    }
}

/// `s` with `i` added when absent and removed when present.
pub open spec fn toggled(s: Set<usize>, i: usize) -> Set<usize> {
    if s.contains(i) {
        s.remove(i)
    } else {
        s.insert(i)
    }
}

/// `s` with `k` added when absent and removed when present.
pub open spec fn toggled_path(s: Set<Seq<char>>, k: Seq<char>) -> Set<Seq<char>> {
    if s.contains(k) {
        s.remove(k)
    } else {
        s.insert(k)
    }
}

impl<'a> App<'a> {
    /// Everything but the filter panel's dimension and selection is the same.
    pub open spec fn same_but_filter_cursor(&self, other: &App<'a>) -> bool {
        &&& self.report == other.report
        &&& self.focus == other.focus
        &&& self.dimension_values == other.dimension_values
        &&& self.active_filters == other.active_filters
        &&& self.data_view == other.data_view
        &&& self.data_states == other.data_states
        &&& self.same_data(other)
        &&& self.expanded_dirs == other.expanded_dirs
        &&& self.dir_tree_rows == other.dir_tree_rows
    }

    /// Everything but the data panel's view and selections is the same.
    pub open spec fn same_but_data_cursor(&self, other: &App<'a>) -> bool {
        &&& self.report == other.report
        &&& self.focus == other.focus
        &&& self.dimension == other.dimension
        &&& self.filter_list_state == other.filter_list_state
        &&& self.dimension_values == other.dimension_values
        &&& self.active_filters == other.active_filters
        &&& self.same_data(other)
        &&& self.expanded_dirs == other.expanded_dirs
        &&& self.dir_tree_rows == other.dir_tree_rows
    }

    /// `self` is `before` with the filter panel on dimension `dim` and its first
    /// value selected.
    pub open spec fn filter_moved_to(&self, before: &App<'a>, dim: int) -> bool {
        &&& self.dimension == dim
        &&& self.same_but_filter_cursor(before)
        &&& self.filter_list_state.selected == first_row(self.dimension_values@[dim]@.len())
    }

    /// `self` is `before` with the data panel on view `view`.
    pub open spec fn data_moved_to(&self, before: &App<'a>, view: int) -> bool {
        &&& self.data_view == view
        &&& self.same_but_data_cursor(before)
        &&& self.data_states == before.data_states
    }

    /// `self` is `before` with the filter selection moved one row down (or up),
    /// wrapping around; an empty dimension keeps its selection.
    pub open spec fn filter_scrolled(&self, before: &App<'a>, down: bool) -> bool {
        let len = before.dimension_values@[before.dimension as int]@.len();
        let sel = before.filter_list_state.selected;
        &&& self.dimension == before.dimension
        &&& self.same_but_filter_cursor(before)
        &&& self.filter_list_state.selected == (if len == 0 {
            sel
        } else if down {
            scrolled_down(sel, len)
        } else {
            scrolled_up(sel, len)
        })
    }

    /// `self` is `before` with the selection of the current data view moved one row
    /// down (or up), wrapping around; an empty view keeps its selection.
    pub open spec fn data_scrolled(&self, before: &App<'a>, down: bool) -> bool {
        let v = before.data_view as int;
        let len = before.view_len(v);
        let sel = before.data_states@[v].selected;
        &&& self.data_view == before.data_view
        &&& self.same_but_data_cursor(before)
        &&& self.data_states@.len() == before.data_states@.len()
        &&& forall|i: int|
            0 <= i < DATA_VIEW_COUNT && i != v ==> #[trigger] self.data_states@[i]
                == before.data_states@[i]
        &&& self.data_states@[v].selected == (if len == 0 {
            sel
        } else if down {
            scrolled_down(sel, len)
        } else {
            scrolled_up(sel, len)
        })
    }

    /// The explorer for `report`: no filters, the first dimension and the first data
    /// view, the dimension values listed by count, top-level directories expanded,
    /// and the aggregations computed.
    pub fn new(report: &'a Report) -> (app: App<'a>)
        requires
            report.summary.by_pattern.wf(),
            report.summary.by_category.wf(),
            report.summary.by_rule.wf(),
            report.summary.by_owner.wf(),
            report.summary.by_directory.wf(),
            violation_total(report.files@) <= usize::MAX,
            rule_total(report.files@) <= usize::MAX,
        ensures
            app.wf(),
            app.consistent(),
            app.report == report,
            app.focus == Focus::Filters,
            app.dimension == 0,
            app.data_view == 0,
            forall|d: int| 0 <= d < DIMENSION_COUNT ==> #[trigger] app.active_filters@[d].members() == Set::<usize>::empty(),
            lists_entries(pair_views(app.dimension_values@[0]@), report.summary.by_pattern),
            lists_entries(pair_views(app.dimension_values@[1]@), report.summary.by_category),
            lists_entries(pair_views(app.dimension_values@[2]@), report.summary.by_rule),
            lists_entries(pair_views(app.dimension_values@[3]@), report.summary.by_owner),
            app.filter_list_state.selected == first_row(app.dimension_values@[0]@.len()),
            app.expanded_dirs.members() == Set::new(|k: Seq<char>| report.summary.by_directory.has(k) && !k.contains('/')),
            forall|i: int| 0 <= i < DATA_VIEW_COUNT ==> #[trigger] app.data_states@[i].selected == first_row(app.view_len(i)),
    {
        let s = &report.summary;
        let patterns = sorted_vec(&s.by_pattern);
        let categories = sorted_vec(&s.by_category);
        let rules = sorted_vec(&s.by_rule);
        let owners = sorted_vec(&s.by_owner);
        let mut dimension_values: Vec<Vec<(String, usize)>> = Vec::new();
        dimension_values.push(patterns);
        dimension_values.push(categories);
        dimension_values.push(rules);
        dimension_values.push(owners);
        let mut active_filters: Vec<IndexSet> = Vec::new();
        active_filters.push(IndexSet::new());
        active_filters.push(IndexSet::new());
        active_filters.push(IndexSet::new());
        active_filters.push(IndexSet::new());
        let mut filter_list_state = ListState::new();
        if dimension_values[0].len() > 0 {
            filter_list_state.select(Some(0));
        }
        let es = s.by_directory.entries();
        let mut expanded_dirs = StringSet::new();
        let ghost target = Set::new(|k: Seq<char>| s.by_directory.has(k) && !k.contains('/'));
        let mut i: usize = 0;
        proof {
            s.by_directory.lemma_entries();
        }
        while i < es.len()
            invariant
                i <= es@.len(),
                es@ == s.by_directory.entry_seq(),
                expanded_dirs.wf(),
                expanded_dirs.members() == Set::new(|k: Seq<char>| crate::counts::key_seq(es@).take(i as int).contains(k) && !k.contains('/')),
            decreases es@.len() - i,
        {
            let key = &es[i].0;
            let ghost ks = crate::counts::key_seq(es@);
            let ghost before = expanded_dirs.members();
            let no_slash = !crate::text::contains_char(crate::text::chars_of(key.as_str()).as_slice(), '/');
            if no_slash {
                expanded_dirs.insert(key.as_str());
            }
            assert(expanded_dirs.members() =~= Set::new(|k: Seq<char>| ks.take(i + 1).contains(k) && !k.contains('/'))) by {
                assert(ks.take(i + 1) == ks.take(i as int).push(key@));
                assert forall|k: Seq<char>| ks.take(i + 1).contains(k) <==> (ks.take(i as int).contains(k) || k == key@) by {
                    let a = ks.take(i + 1);
                    let b = ks.take(i as int);
                    if a.contains(k) {
                        let x = choose|x: int| 0 <= x < a.len() && a[x] == k;
                        if x < i {
                            assert(b[x] == k);
                        }
                    }
                    if b.contains(k) {
                        let x = choose|x: int| 0 <= x < b.len() && b[x] == k;
                        assert(a[x] == k);
                    }
                    if k == key@ {
                        assert(a[i as int] == k);
                    }
                }
            }
            i += 1;
        }
        assert(crate::counts::key_seq(es@).take(es@.len() as int) == crate::counts::key_seq(es@));
        assert(expanded_dirs.members() =~= target);
        let mut data_states: Vec<ListState> = Vec::new();
        let mut d: usize = 0;
        while d < DATA_VIEW_COUNT
            invariant
                d <= DATA_VIEW_COUNT,
                data_states@.len() == d,
            decreases DATA_VIEW_COUNT - d,
        {
            data_states.push(ListState::new());
            d += 1;
        }
        let mut app = App {
            report,
            focus: Focus::Filters,
            dimension: 0,
            filter_list_state,
            dimension_values,
            active_filters,
            data_view: 0,
            data_states,
            filtered_files: Vec::new(),
            filtered_rules: Vec::new(),
            filtered_patterns: Vec::new(),
            filtered_categories: Vec::new(),
            filtered_owners: Vec::new(),
            filtered_dir_counts: CountMap::new(),
            filtered_violation_count: 0,
            expanded_dirs,
            dir_tree_rows: Vec::new(),
        };
        app.rebuild_filtered_data();
        app
    }

    /// The values of the current filter dimension.
    pub fn current_dim_values(&self) -> (r: &Vec<(String, usize)>)
        requires
            self.wf(),
        ensures
            *r == self.dimension_values@[self.dimension as int],
    {
        &self.dimension_values[self.dimension]
    }

    /// Number of values of the current filter dimension.
    pub fn current_dim_len(&self) -> (n: usize)
        requires
            self.wf(),
        ensures
            n == self.dimension_values@[self.dimension as int]@.len(),
    {
        self.dimension_values[self.dimension].len()
    }

    /// Whether any dimension has an active filter.
    pub fn has_any_active_filter(&self) -> (b: bool)
        requires
            self.wf(),
        ensures
            b == exists|d: int| 0 <= d < DIMENSION_COUNT && #[trigger] self.active_filters@[d].members() != Set::<usize>::empty(),
    {
        let mut d: usize = 0;
        while d < DIMENSION_COUNT
            invariant
                d <= DIMENSION_COUNT,
                self.wf(),
                forall|x: int| 0 <= x < d ==> #[trigger] self.active_filters@[x].members() == Set::<usize>::empty(),
            decreases DIMENSION_COUNT - d,
        {
            if !self.active_filters[d].is_empty() {
                return true;
            }
            d += 1;
        }
        false
    }

    /// Number of rows of the current data view.
    pub fn current_data_len(&self) -> (n: usize)
        requires
            self.wf(),
        ensures
            n == self.view_len(self.data_view as int),
    {
        match data_view_at(self.data_view) {
            DataView::Files => self.filtered_files.len(),
            DataView::Rules => self.filtered_rules.len(),
            DataView::Patterns => self.filtered_patterns.len(),
            DataView::Categories => self.filtered_categories.len(),
            DataView::Owners => self.filtered_owners.len(),
            DataView::Directories => self.dir_tree_rows.len(),
        }
    }

    /// Select the first value of the current dimension, if it has any.
    pub fn reset_filter_selection(&mut self)
        requires
            old(self).wf(),
        ensures
            final(self).wf(),
            final(self).filter_moved_to(&*old(self), old(self).dimension as int),
    {
        if self.current_dim_len() == 0 {
            self.filter_list_state.select(None);
        } else {
            self.filter_list_state.select(Some(0));
        }
    }

    /// Move to the next filter dimension (wrapping) and select its first value.
    pub fn next_dimension(&mut self)
        requires
            old(self).wf(),
        ensures
            final(self).wf(),
            final(self).filter_moved_to(
                &*old(self),
                next_index(old(self).dimension as int, DIMENSION_COUNT as int),
            ),
    {
        self.dimension = (self.dimension + 1) % DIMENSION_COUNT;
        self.reset_filter_selection();
    }

    /// Move to the previous filter dimension (wrapping) and select its first value.
    pub fn prev_dimension(&mut self)
        requires
            old(self).wf(),
        ensures
            final(self).wf(),
            final(self).filter_moved_to(
                &*old(self),
                prev_index(old(self).dimension as int, DIMENSION_COUNT as int),
            ),
    {
        self.dimension = (self.dimension + DIMENSION_COUNT - 1) % DIMENSION_COUNT;
        self.reset_filter_selection();
    }

    /// Move to the next data view (wrapping).
    pub fn next_data_view(&mut self)
        requires
            old(self).wf(),
        ensures
            final(self).wf(),
            final(self).data_moved_to(
                &*old(self),
                next_index(old(self).data_view as int, DATA_VIEW_COUNT as int),
            ),
    {
        self.data_view = (self.data_view + 1) % DATA_VIEW_COUNT;
    }

    /// Move to the previous data view (wrapping).
    pub fn prev_data_view(&mut self)
        requires
            old(self).wf(),
        ensures
            final(self).wf(),
            final(self).data_moved_to(
                &*old(self),
                prev_index(old(self).data_view as int, DATA_VIEW_COUNT as int),
            ),
    {
        self.data_view = (self.data_view + DATA_VIEW_COUNT - 1) % DATA_VIEW_COUNT;
    }

    /// Move the filter selection down one row, wrapping to the top.
    pub fn scroll_down_filter(&mut self)
        requires
            old(self).wf(),
        ensures
            final(self).wf(),
            final(self).filter_scrolled(&*old(self), true),
    {
        let len = self.current_dim_len();
        if len == 0 {
            return;
        }
        let i = match self.filter_list_state.selected() {
            None => 0,
            Some(i) => if i >= len - 1 {
                0
            } else {
                i + 1
            },
        };
        self.filter_list_state.select(Some(i));
    }

    /// Move the filter selection up one row, wrapping to the bottom.
    pub fn scroll_up_filter(&mut self)
        requires
            old(self).wf(),
        ensures
            final(self).wf(),
            final(self).filter_scrolled(&*old(self), false),
    {
        let len = self.current_dim_len();
        if len == 0 {
            return;
        }
        let i = match self.filter_list_state.selected() {
            None => 0,
            Some(i) => if i == 0 {
                len - 1
            } else {
                i - 1
            },
        };
        self.filter_list_state.select(Some(i));
    }

    /// Move the selection of the current data view down one row, wrapping to the top.
    pub fn scroll_down_data(&mut self)
        requires
            old(self).wf(),
        ensures
            final(self).wf(),
            final(self).data_scrolled(&*old(self), true),
    {
        let len = self.current_data_len();
        if len == 0 {
            return;
        }
        let state = self.data_states[self.data_view];
        let i = match state.selected() {
            None => 0,
            Some(i) => if i >= len - 1 {
                0
            } else {
                i + 1
            },
        };
        self.data_states.set(self.data_view, ListState { selected: Some(i) });
    }

    /// Move the selection of the current data view up one row, wrapping to the bottom.
    pub fn scroll_up_data(&mut self)
        requires
            old(self).wf(),
        ensures
            final(self).wf(),
            final(self).data_scrolled(&*old(self), false),
    {
        let len = self.current_data_len();
        if len == 0 {
            return;
        }
        let state = self.data_states[self.data_view];
        let i = match state.selected() {
            None => 0,
            Some(i) => if i == 0 {
                len - 1
            } else {
                i - 1
            },
        };
        self.data_states.set(self.data_view, ListState { selected: Some(i) });
    }

    /// The data selections: the first row of every non-empty view, none elsewhere.
    pub open spec fn selections_reset(&self) -> bool {
        forall|i: int|
            0 <= i < DATA_VIEW_COUNT ==> #[trigger] self.data_states@[i].selected == first_row(
                self.view_len(i),
            )
    }

    /// Nothing but the active filters, the cached data and the data selections differs.
    pub open spec fn same_but_filters(&self, other: &App<'a>) -> bool {
        &&& self.report == other.report
        &&& self.focus == other.focus
        &&& self.dimension == other.dimension
        &&& self.filter_list_state == other.filter_list_state
        &&& self.dimension_values == other.dimension_values
        &&& self.data_view == other.data_view
        &&& self.expanded_dirs == other.expanded_dirs
    }

    /// `self` is `before` with the selected value of the current dimension toggled
    /// in the active filters and the aggregations recomputed; with no value
    /// selected, `self` is `before`.
    pub open spec fn filter_toggled(&self, before: &App<'a>) -> bool {
        match before.filter_list_state.selected {
            None => *self == *before,
            Some(idx) => {
                let dim = before.dimension as int;
                &&& self.consistent()
                &&& self.selections_reset()
                &&& self.same_but_filters(before)
                &&& self.active_filters@.len() == before.active_filters@.len()
                &&& self.active_filters@[dim].members() == toggled(
                    before.active_filters@[dim].members(),
                    idx,
                )
                &&& forall|d: int|
                    0 <= d < DIMENSION_COUNT && d != dim ==> #[trigger] self.active_filters@[d]
                        == before.active_filters@[d]
            },
        }
    }

    /// `self` is `before` with no filter active and the aggregations recomputed.
    pub open spec fn filters_cleared(&self, before: &App<'a>) -> bool {
        &&& self.consistent()
        &&& self.selections_reset()
        &&& self.same_but_filters(before)
        &&& forall|d: int|
            0 <= d < DIMENSION_COUNT ==> #[trigger] self.active_filters@[d].members()
                == Set::<usize>::empty()
    }

    /// Toggle the selected value of the current dimension in the active filters and
    /// recompute the aggregations; nothing happens when no value is selected.
    pub fn toggle_filter(&mut self)
        requires
            old(self).wf(),
        ensures
            final(self).wf(),
            final(self).filter_toggled(&*old(self)),
    {
        match self.filter_list_state.selected() {
            None => {},
            Some(idx) => {
                let dim = self.dimension;
                let mut set = self.active_filters[dim].copy();
                if set.contains(idx) {
                    set.remove(idx);
                } else {
                    set.insert(idx);
                }
                self.active_filters.set(dim, set);
                self.rebuild_filtered_data();
            },
        }
    }

    /// Deactivate every filter and recompute the aggregations.
    pub fn clear_filters(&mut self)
        requires
            old(self).wf(),
        ensures
            final(self).wf(),
            final(self).filters_cleared(&*old(self)),
    {
        let mut d: usize = 0;
        while d < DIMENSION_COUNT
            invariant
                d <= DIMENSION_COUNT,
                self.wf(),
                self.same_but_filters(&*old(self)),
                forall|x: int| 0 <= x < d ==> #[trigger] self.active_filters@[x].members() == Set::<usize>::empty(),
            decreases DIMENSION_COUNT - d,
        {
            self.active_filters.set(d, IndexSet::new());
            d += 1;
        }
        self.rebuild_filtered_data();
    }

    /// The row the selection of the directory view lands on after the tree was
    /// rebuilt with `len` rows: it stays unless it fell off the end, in which case
    /// the last row (or none) is selected.
    pub open spec fn dir_selection_after(sel: usize, len: nat) -> Option<usize> {
        if sel < len {
            Some(sel)
        } else if len > 0 {
            Some((len - 1) as usize)
        } else {
            None
        }
    }

    /// `self` is `before` with the selected directory row expanded (or collapsed) and
    /// the tree rebuilt; when no row with children is selected, `self` is `before`.
    pub open spec fn dir_toggled(&self, before: &App<'a>) -> bool {
        let v = DIRECTORY_VIEW as int;
        match before.data_states@[v].selected {
            Some(sel) if sel < before.dir_tree_rows@.len() && before.dir_tree_rows@[sel as int].has_children => {
                &&& self.expanded_dirs.members() == toggled_path(
                    before.expanded_dirs.members(),
                    before.dir_tree_rows@[sel as int].full_path@,
                )
                &&& self.tree_matches()
                &&& self.report == before.report
                &&& self.focus == before.focus
                &&& self.dimension == before.dimension
                &&& self.filter_list_state == before.filter_list_state
                &&& self.dimension_values == before.dimension_values
                &&& self.active_filters == before.active_filters
                &&& self.data_view == before.data_view
                &&& self.same_data(before)
                &&& self.data_states@.len() == before.data_states@.len()
                &&& forall|i: int|
                    0 <= i < DATA_VIEW_COUNT && i != v ==> #[trigger] self.data_states@[i]
                        == before.data_states@[i]
                &&& self.data_states@[v].selected == Self::dir_selection_after(
                    sel,
                    self.dir_tree_rows@.len(),
                )
            },
            _ => *self == *before,
        }
    }

    /// Expand the selected directory row of the tree if it is collapsed, collapse it
    /// if it is expanded, and rebuild the tree; rows without children are left alone.
    pub fn toggle_dir_expand(&mut self)
        requires
            old(self).wf(),
        ensures
            final(self).wf(),
            final(self).dir_toggled(&*old(self)),
            old(self).consistent() ==> final(self).consistent(),
    {
        let view_idx = DIRECTORY_VIEW;
        match self.data_states[view_idx].selected() {
            None => {},
            Some(selected) => {
                if selected < self.dir_tree_rows.len() && self.dir_tree_rows[selected].has_children {
                    let path = self.dir_tree_rows[selected].full_path.clone();
                    if self.expanded_dirs.contains(path.as_str()) {
                        self.expanded_dirs.remove(path.as_str());
                    } else {
                        self.expanded_dirs.insert(path.as_str());
                    }
                    self.rebuild_dir_tree();
                    let len = self.dir_tree_rows.len();
                    if selected >= len {
                        let sel = if len > 0 {
                            Some(len - 1)
                        } else {
                            None
                        };
                        self.data_states.set(view_idx, ListState { selected: sel });
                    }
                }
            },
        }
    }

    /// `self` with the keyboard on panel `f`.
    pub open spec fn with_focus(&self, f: Focus) -> App<'a> {
        App { focus: f, ..*self }
    }

    /// The panel that Tab moves the keyboard to.
    pub open spec fn other_panel(f: Focus) -> Focus {
        match f {
            Focus::Filters => Focus::Data,
            Focus::Data => Focus::Filters,
        }
    }

    /// `self` is `before` after the explorer handled `key`: Left and Right cycle the
    /// dimensions or the data views, Up and Down move the selection of the focused
    /// panel, Toggle switches the selected filter value (or, on the directory view,
    /// expands or collapses the selected directory), Clear drops every filter, Tab
    /// moves the keyboard to the other panel, and any other key changes nothing.
    pub open spec fn key_handled(&self, before: &App<'a>, key: KeyInput) -> bool {
        let dims = DIMENSION_COUNT as int;
        let views = DATA_VIEW_COUNT as int;
        match key {
            KeyInput::Quit => *self == *before,
            KeyInput::Other => *self == *before,
            KeyInput::Tab => *self == before.with_focus(Self::other_panel(before.focus)),
            KeyInput::Left => match before.focus {
                Focus::Filters => self.filter_moved_to(before, prev_index(before.dimension as int, dims)),
                Focus::Data => self.data_moved_to(before, prev_index(before.data_view as int, views)),
            },
            KeyInput::Right => match before.focus {
                Focus::Filters => self.filter_moved_to(before, next_index(before.dimension as int, dims)),
                Focus::Data => self.data_moved_to(before, next_index(before.data_view as int, views)),
            },
            KeyInput::Down => match before.focus {
                Focus::Filters => self.filter_scrolled(before, true),
                Focus::Data => self.data_scrolled(before, true),
            },
            KeyInput::Up => match before.focus {
                Focus::Filters => self.filter_scrolled(before, false),
                Focus::Data => self.data_scrolled(before, false),
            },
            KeyInput::Toggle => match before.focus {
                Focus::Filters => self.filter_toggled(before),
                Focus::Data => if before.data_view == DIRECTORY_VIEW {
                    self.dir_toggled(before)
                } else {
                    *self == *before
                },
            },
            KeyInput::Clear => self.filters_cleared(before),
        }
    }

    /// Handle one key press; returns whether the explorer should quit.
    pub fn handle_key(&mut self, key: KeyInput) -> (quit: bool)
        requires
            old(self).wf(),
        ensures
            final(self).wf(),
            quit == (key == KeyInput::Quit),
            final(self).key_handled(&*old(self), key),
            old(self).consistent() ==> final(self).consistent(),
    {
        match key {
            KeyInput::Quit => {
                return true;
            },
            KeyInput::Tab => {
                self.focus = match self.focus {
                    Focus::Filters => Focus::Data,
                    Focus::Data => Focus::Filters,
                };
            },
            KeyInput::Left => match self.focus {
                Focus::Filters => self.prev_dimension(),
                Focus::Data => self.prev_data_view(),
            },
            KeyInput::Right => match self.focus {
                Focus::Filters => self.next_dimension(),
                Focus::Data => self.next_data_view(),
            },
            KeyInput::Down => match self.focus {
                Focus::Filters => self.scroll_down_filter(),
                Focus::Data => self.scroll_down_data(),
            },
            KeyInput::Up => match self.focus {
                Focus::Filters => self.scroll_up_filter(),
                Focus::Data => self.scroll_up_data(),
            },
            KeyInput::Toggle => match self.focus {
                Focus::Filters => self.toggle_filter(),
                Focus::Data => {
                    if self.data_view == DIRECTORY_VIEW {
                        self.toggle_dir_expand();
                    }
                },
            },
            KeyInput::Clear => self.clear_filters(),
            KeyInput::Other => {},
        }
        false
    }
}

} // verus!
