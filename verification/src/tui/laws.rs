//! What holds of the explorer across its operations: navigation that one key undoes,
//! filters that narrow and never invent counts, and orderings that every rebuild
//! keeps.

use vstd::prelude::*;

use super::app::{
    allows, allows_any, by_file_total, file_count_rows, file_hits, owner_display, filtered_tally, next_index, passes,
    prev_index, toggled, triple_views, vs_tally, weight, App, Filters, Tally, DATA_VIEW_COUNT,
    DIMENSION_COUNT,
};
use crate::report::{
    category_hits, category_tally, directory_tally, owner_key, owner_tally, pattern_hits,
    pattern_tally, rule_hits, rule_tally, summarizes, violation_total, ReportSummary,
};
use crate::scan::{FileReport, Violation};
use crate::sort::{insert_by, sort_by_lt};

verus! {

// ---------------------------------------------------------------------------
// Cycling through dimensions and views
// ---------------------------------------------------------------------------

/// `i` after `k` steps forward among `n` positions.
pub open spec fn advanced(i: int, n: int, k: nat) -> int
    decreases k,
{
    if k == 0 {
        i
    } else {
        next_index(advanced(i, n, (k - 1) as nat), n)
    }
}

proof fn lemma_next_index(i: int, n: int)
    requires
        0 <= i < n,
    ensures
        next_index(i, n) == (if i + 1 < n {
            i + 1
        } else {
            0
        }),
        prev_index(i, n) == (if i == 0 {
            n - 1
        } else {
            i - 1
        }),
{
    if i + 1 < n {
        vstd::arithmetic::div_mod::lemma_small_mod((i + 1) as nat, n as nat);
    } else {
        vstd::arithmetic::div_mod::lemma_mod_self_0(n);
    }
    if i == 0 {
        vstd::arithmetic::div_mod::lemma_small_mod((n - 1) as nat, n as nat);
    } else {
        vstd::arithmetic::div_mod::lemma_mod_add_multiples_vanish(i - 1, n);
        vstd::arithmetic::div_mod::lemma_small_mod((i - 1) as nat, n as nat);
    }
}

proof fn lemma_advanced(i: int, n: int, k: nat)
    requires
        0 <= i < n,
    ensures
        advanced(i, n, k) == (i + k) % n,
    decreases k,
{
    if k > 0 {
        lemma_advanced(i, n, (k - 1) as nat);
        let a = advanced(i, n, (k - 1) as nat);
        assert(a == (i + k - 1) % n);
        assert(advanced(i, n, k) == (a + 1) % n);
        vstd::arithmetic::div_mod::lemma_add_mod_noop_right(1, i + k - 1, n);
        assert((1 + a) % n == (1 + (i + k - 1)) % n);
        assert(a + 1 == 1 + a);
        assert(1 + (i + k - 1) == i + k);
    } else {
        vstd::arithmetic::div_mod::lemma_small_mod(i as nat, n as nat);
    }
}

/// Stepping back undoes stepping forward, and stepping forward once per position
/// comes back to where it started.
pub proof fn lemma_cycle(i: int, n: int)
    requires
        0 <= i < n,
    ensures
        prev_index(next_index(i, n), n) == i,
        next_index(prev_index(i, n), n) == i,
        advanced(i, n, n as nat) == i,
{
    lemma_next_index(i, n);
    lemma_next_index(next_index(i, n), n);
    lemma_next_index(prev_index(i, n), n);
    lemma_advanced(i, n, n as nat);
    vstd::arithmetic::div_mod::lemma_mod_add_multiples_vanish(i, n);
    vstd::arithmetic::div_mod::lemma_small_mod(i as nat, n as nat);
}

/// Moving to the previous filter dimension right after moving to the next one
/// comes back to the same dimension, with everything else as it was but the
/// selection, which is on the first value.
pub proof fn lemma_prev_dimension_undoes_next(a: &App, b: &App, c: &App)
    requires
        a.wf(),
        b.filter_moved_to(a, next_index(a.dimension as int, DIMENSION_COUNT as int)),
        c.filter_moved_to(b, prev_index(b.dimension as int, DIMENSION_COUNT as int)),
    ensures
        c.dimension == a.dimension,
        c.same_but_filter_cursor(a),
{
    lemma_cycle(a.dimension as int, DIMENSION_COUNT as int);
}

/// Moving to the previous data view right after moving to the next one comes back
/// to the same view, with everything else as it was.
pub proof fn lemma_prev_view_undoes_next(a: &App, b: &App, c: &App)
    requires
        a.wf(),
        b.data_moved_to(a, next_index(a.data_view as int, DATA_VIEW_COUNT as int)),
        c.data_moved_to(b, prev_index(b.data_view as int, DATA_VIEW_COUNT as int)),
    ensures
        c.data_view == a.data_view,
        c.same_but_data_cursor(a),
        c.data_states == a.data_states,
{
    lemma_cycle(a.data_view as int, DATA_VIEW_COUNT as int);
}

// ---------------------------------------------------------------------------
// Toggling a filter value
// ---------------------------------------------------------------------------

/// Toggling the same value twice leaves the set as it was.
pub proof fn lemma_toggled_twice(s: Set<usize>, i: usize)
    ensures
        toggled(toggled(s, i), i) == s,
{
    assert(toggled(toggled(s, i), i) =~= s);
}

/// Toggling the selected filter value twice in a row restores every active filter,
/// and with them the filtered violation count.
pub proof fn lemma_toggle_filter_twice(a: &App, b: &App, c: &App)
    requires
        a.wf(),
        a.consistent(),
        a.filter_list_state.selected is Some,
        b.filter_toggled(a),
        c.filter_toggled(b),
    ensures
        forall|d: int|
            0 <= d < DIMENSION_COUNT ==> #[trigger] c.active_filters@[d].members()
                == a.active_filters@[d].members(),
        c.filters() == a.filters(),
        c.filtered_violation_count == a.filtered_violation_count,
{
    let dim = a.dimension as int;
    let idx = a.filter_list_state.selected->0;
    lemma_toggled_twice(a.active_filters@[dim].members(), idx);
    assert(c.filters() == a.filters()) by {
        assert(c.active_filters@[0].members() == a.active_filters@[0].members());
        assert(c.active_filters@[1].members() == a.active_filters@[1].members());
        assert(c.active_filters@[2].members() == a.active_filters@[2].members());
        assert(c.active_filters@[3].members() == a.active_filters@[3].members());
    }
}

// ---------------------------------------------------------------------------
// Filters narrow the report
// ---------------------------------------------------------------------------

/// No filter in any dimension.
pub open spec fn no_filters() -> Filters {
    Filters {
        pattern: Set::empty(),
        category: Set::empty(),
        rule: Set::empty(),
        owner: Set::empty(),
    }
}

proof fn lemma_vs_unfiltered(f: FileReport, vs: Seq<Violation>, k: Seq<char>)
    ensures
        vs_tally(f, vs, no_filters(), Tally::All, k) == vs.len(),
        vs_tally(f, vs, no_filters(), Tally::Pattern, k) == pattern_hits(vs, k),
        vs_tally(f, vs, no_filters(), Tally::Category, k) == category_hits(vs, k),
        vs_tally(f, vs, no_filters(), Tally::Rule, k) == rule_hits(vs, k),
        vs_tally(f, vs, no_filters(), Tally::Owner, k) == (if owner_key(f) == k {
            vs.len()
        } else {
            0
        }),
        vs_tally(f, vs, no_filters(), Tally::Directory, k) == (if crate::paths::ancestors(
            f.path@,
        ).contains(k) {
            vs.len()
        } else {
            0
        }),
    decreases vs.len(),
{
    if vs.len() > 0 {
        lemma_vs_unfiltered(f, vs.drop_last(), k);
        assert(passes(f, vs.last(), no_filters()));
    }
}

/// With no filter, every filtered tally is the report's own tally.
pub proof fn lemma_unfiltered_tallies(files: Seq<FileReport>, k: Seq<char>)
    ensures
        filtered_tally(files, no_filters(), Tally::All, k) == violation_total(files),
        filtered_tally(files, no_filters(), Tally::Pattern, k) == pattern_tally(files, k),
        filtered_tally(files, no_filters(), Tally::Category, k) == category_tally(files, k),
        filtered_tally(files, no_filters(), Tally::Rule, k) == rule_tally(files, k),
        filtered_tally(files, no_filters(), Tally::Owner, k) == owner_tally(files, k),
        filtered_tally(files, no_filters(), Tally::Directory, k) == directory_tally(files, k),
    decreases files.len(),
{
    if files.len() > 0 {
        lemma_unfiltered_tallies(files.drop_last(), k);
        lemma_vs_unfiltered(files.last(), files.last().violations@, k);
    }
}

proof fn lemma_vs_narrower(f: FileReport, vs: Seq<Violation>, flt: Filters, t: Tally, k: Seq<char>)
    ensures
        vs_tally(f, vs, flt, t, k) <= vs_tally(f, vs, no_filters(), t, k),
    decreases vs.len(),
{
    if vs.len() > 0 {
        lemma_vs_narrower(f, vs.drop_last(), flt, t, k);
        assert(passes(f, vs.last(), no_filters()));
    }
}

/// Whatever the filters, no filtered tally exceeds the same tally over the whole
/// report.
pub proof fn lemma_filters_narrow(files: Seq<FileReport>, flt: Filters, t: Tally, k: Seq<char>)
    ensures
        filtered_tally(files, flt, t, k) <= filtered_tally(files, no_filters(), t, k),
    decreases files.len(),
{
    if files.len() > 0 {
        lemma_filters_narrow(files.drop_last(), flt, t, k);
        lemma_vs_narrower(files.last(), files.last().violations@, flt, t, k);
    }
}

/// With no filter active (at start, or after clearing), the explorer counts exactly
/// what the report's summary counts.
pub proof fn lemma_unfiltered_explorer(app: &App)
    requires
        app.wf(),
        app.consistent(),
        summarizes(app.report.summary, app.report.files@),
        forall|d: int|
            0 <= d < DIMENSION_COUNT ==> #[trigger] app.active_filters@[d].members()
                == Set::<usize>::empty(),
    ensures
        app.filtered_violation_count == app.report.summary.total_violations,
        forall|k: Seq<char>| #[trigger]
            app.filtered_dir_counts.count(k) == app.report.summary.by_directory.count(k),
        forall|k: Seq<char>|
            filtered_tally(app.report.files@, app.filters(), Tally::Pattern, k)
                == #[trigger] app.report.summary.by_pattern.count(k),
        forall|k: Seq<char>|
            filtered_tally(app.report.files@, app.filters(), Tally::Category, k)
                == #[trigger] app.report.summary.by_category.count(k),
        forall|k: Seq<char>|
            filtered_tally(app.report.files@, app.filters(), Tally::Rule, k)
                == #[trigger] app.report.summary.by_rule.count(k),
        forall|k: Seq<char>|
            filtered_tally(app.report.files@, app.filters(), Tally::Owner, k)
                == #[trigger] app.report.summary.by_owner.count(k),
{
    let files = app.report.files@;
    assert(app.filters() == no_filters()) by {
        assert(app.filters().pattern =~= Set::<Seq<char>>::empty());
        assert(app.filters().category =~= Set::<Seq<char>>::empty());
        assert(app.filters().rule =~= Set::<Seq<char>>::empty());
        assert(app.filters().owner =~= Set::<Seq<char>>::empty());
    }
    lemma_unfiltered_tallies(files, Seq::empty());
    assert forall|k: Seq<char>| #[trigger]
        app.filtered_dir_counts.count(k) == app.report.summary.by_directory.count(k) by {
        lemma_unfiltered_tallies(files, k);
    }
    assert forall|k: Seq<char>|
        filtered_tally(files, app.filters(), Tally::Pattern, k)
            == #[trigger] app.report.summary.by_pattern.count(k) by {
        lemma_unfiltered_tallies(files, k);
    }
    assert forall|k: Seq<char>|
        filtered_tally(files, app.filters(), Tally::Category, k)
            == #[trigger] app.report.summary.by_category.count(k) by {
        lemma_unfiltered_tallies(files, k);
    }
    assert forall|k: Seq<char>|
        filtered_tally(files, app.filters(), Tally::Rule, k)
            == #[trigger] app.report.summary.by_rule.count(k) by {
        lemma_unfiltered_tallies(files, k);
    }
    assert forall|k: Seq<char>|
        filtered_tally(files, app.filters(), Tally::Owner, k)
            == #[trigger] app.report.summary.by_owner.count(k) by {
        lemma_unfiltered_tallies(files, k);
    }
}

/// Filters of different dimensions combine: a violation is counted only when every
/// dimension with an active filter admits it.
pub proof fn lemma_filters_combine(f: FileReport, v: Violation, flt: Filters)
    ensures
        passes(f, v, flt) <==> (allows(flt.owner, owner_key(f)) && allows(flt.pattern, v.pattern@)
            && allows(flt.category, v.category@) && allows_any(
            flt.rule,
            crate::report::rule_names(v),
        )),
        passes(f, v, flt) ==> weight(f, v, Tally::All, Seq::empty()) == 1,
{
}

/// The rule filter admits a violation when any one of its rules is an active value.
/// With `k` among the active rule values: a violation naming `k` passes exactly when
/// the other dimensions admit it, whatever other rules it also names; a violation
/// passes only if it names some active value; and a violation with no rules never
/// passes.
pub proof fn lemma_rule_filter_any(f: FileReport, v: Violation, flt: Filters, k: Seq<char>)
    requires
        flt.rule.contains(k),
    ensures
        crate::report::rule_names(v).contains(k) ==> (passes(f, v, flt) <==> (allows(
            flt.owner,
            owner_key(f),
        ) && allows(flt.pattern, v.pattern@) && allows(flt.category, v.category@))),
        passes(f, v, flt) ==> exists|i: int|
            0 <= i < crate::report::rule_names(v).len() && flt.rule.contains(
                #[trigger] crate::report::rule_names(v)[i],
            ),
        crate::report::rule_names(v).len() == 0 ==> !passes(f, v, flt),
{
    let names = crate::report::rule_names(v);
    assert(flt.rule != Set::<Seq<char>>::empty()) by {
        if flt.rule == Set::<Seq<char>>::empty() {
            assert(!Set::<Seq<char>>::empty().contains(k));
        }
    }
    if names.contains(k) {
        let i = choose|i: int| 0 <= i < names.len() && names[i] == k;
        assert(flt.rule.contains(names[i]));
    }
}

/// The pattern, category and owner filters admit exactly their active values: in a
/// dimension with active values, a violation passes only if its value there is one
/// of them; and a violation whose values are all active, in every dimension with
/// active values, and that names an active rule when rules are filtered, passes.
pub proof fn lemma_value_filters(f: FileReport, v: Violation, flt: Filters)
    ensures
        passes(f, v, flt) && flt.pattern != Set::<Seq<char>>::empty() ==> flt.pattern.contains(
            v.pattern@,
        ),
        passes(f, v, flt) && flt.category != Set::<Seq<char>>::empty() ==> flt.category.contains(
            v.category@,
        ),
        passes(f, v, flt) && flt.owner != Set::<Seq<char>>::empty() ==> flt.owner.contains(
            owner_key(f),
        ),
        (flt.pattern == Set::<Seq<char>>::empty() || flt.pattern.contains(v.pattern@)) && (
        flt.category == Set::<Seq<char>>::empty() || flt.category.contains(v.category@)) && (
        flt.owner == Set::<Seq<char>>::empty() || flt.owner.contains(owner_key(f))) && (flt.rule
            == Set::<Seq<char>>::empty() || exists|i: int|
            0 <= i < crate::report::rule_names(v).len() && flt.rule.contains(
                #[trigger] crate::report::rule_names(v)[i],
            )) ==> passes(f, v, flt),
{
}

/// Naming more rules never makes a violation fail the filters: a violation with the
/// same pattern and category whose rules include all the rules of one that passes
/// passes too.
pub proof fn lemma_more_rules_still_pass(f: FileReport, v: Violation, w: Violation, flt: Filters)
    requires
        passes(f, v, flt),
        w.pattern@ == v.pattern@,
        w.category@ == v.category@,
        forall|i: int|
            0 <= i < crate::report::rule_names(v).len() ==> crate::report::rule_names(w).contains(
                #[trigger] crate::report::rule_names(v)[i],
            ),
    ensures
        passes(f, w, flt),
{
    let nv = crate::report::rule_names(v);
    let nw = crate::report::rule_names(w);
    if flt.rule != Set::<Seq<char>>::empty() {
        let i = choose|i: int| 0 <= i < nv.len() && flt.rule.contains(nv[i]);
        assert(nw.contains(nv[i]));
        let j = choose|j: int| 0 <= j < nw.len() && nw[j] == nv[i];
        assert(flt.rule.contains(nw[j]));
    }
}

// ---------------------------------------------------------------------------
// Order of the file rows
// ---------------------------------------------------------------------------

/// Counts never increase along `s`.
pub open spec fn counts_descending(s: Seq<(Seq<char>, Seq<char>, nat)>) -> bool {
    forall|i: int, j: int| 0 <= i <= j < s.len() ==> #[trigger] s[i].2 >= #[trigger] s[j].2
}

proof fn lemma_insert_by_total(s: Seq<(Seq<char>, Seq<char>, nat)>, x: (Seq<char>, Seq<char>, nat))
    requires
        counts_descending(s),
    ensures
        counts_descending(insert_by(s, x, by_file_total())),
        insert_by(s, x, by_file_total()).len() == s.len() + 1,
        insert_by(s, x, by_file_total())[0] == x || (s.len() > 0 && insert_by(
            s,
            x,
            by_file_total(),
        )[0] == s[0]),
    decreases s.len(),
{
    let r = insert_by(s, x, by_file_total());
    if s.len() == 0 {
    } else if x.2 > s[0].2 {
        assert(r == seq![x] + s);
        assert forall|i: int, j: int| 0 <= i <= j < r.len() implies #[trigger] r[i].2 >= #[trigger] r[j].2 by {
            if i > 0 {
                assert(r[i] == s[i - 1]);
                assert(r[j] == s[j - 1]);
            } else if j > 0 {
                assert(r[j] == s[j - 1]);
            }
        }
    } else {
        let t = s.drop_first();
        assert(counts_descending(t)) by {
            assert forall|i: int, j: int| 0 <= i <= j < t.len() implies #[trigger] t[i].2 >= #[trigger] t[j].2 by {
                assert(t[i] == s[i + 1]);
                assert(t[j] == s[j + 1]);
            }
        }
        lemma_insert_by_total(t, x);
        let rt = insert_by(t, x, by_file_total());
        assert(r == seq![s[0]] + rt);
        assert(s[0].2 >= rt[0].2) by {
            if t.len() > 0 && rt[0] == t[0] {
                assert(t[0] == s[1]);
            }
        }
        assert forall|i: int, j: int| 0 <= i <= j < r.len() implies #[trigger] r[i].2 >= #[trigger] r[j].2 by {
            if i > 0 {
                assert(r[i] == rt[i - 1]);
                assert(r[j] == rt[j - 1]);
            } else if j > 0 {
                assert(r[j] == rt[j - 1]);
                assert(rt[0].2 >= rt[j - 1].2);
            }
        }
    }
}

proof fn lemma_sort_by_total(s: Seq<(Seq<char>, Seq<char>, nat)>)
    ensures
        counts_descending(sort_by_lt(s, by_file_total())),
    decreases s.len(),
{
    if s.len() > 0 {
        lemma_sort_by_total(s.drop_last());
        lemma_insert_by_total(sort_by_lt(s.drop_last(), by_file_total()), s.last());
    }
}

/// The file rows of the explorer are listed by violation count, largest first.
pub proof fn lemma_files_by_count(app: &App)
    requires
        app.consistent(),
    ensures
        forall|i: int, j: int|
            0 <= i <= j < app.filtered_files@.len() ==> #[trigger] app.filtered_files@[i].2
                >= #[trigger] app.filtered_files@[j].2,
{
    let rows = file_count_rows(app.report.files@, app.filters());
    lemma_sort_by_total(rows);
    let tv = triple_views(app.filtered_files@);
    assert forall|i: int, j: int|
        0 <= i <= j < app.filtered_files@.len() implies #[trigger] app.filtered_files@[i].2
            >= #[trigger] app.filtered_files@[j].2 by {
        assert(tv[i].2 == app.filtered_files@[i].2);
        assert(tv[j].2 == app.filtered_files@[j].2);
    }
}

// ---------------------------------------------------------------------------
// Breakdowns add up
// ---------------------------------------------------------------------------

/// The sum of `g` over `keys`.
pub open spec fn sum_over(keys: Seq<Seq<char>>, g: spec_fn(Seq<char>) -> nat) -> nat
    decreases keys.len(),
{
    if keys.len() == 0 {
        0
    } else {
        sum_over(keys.drop_last(), g) + g(keys.last())
    }
}

proof fn lemma_sum_split(
    keys: Seq<Seq<char>>,
    g: spec_fn(Seq<char>) -> nat,
    a: spec_fn(Seq<char>) -> nat,
    b: spec_fn(Seq<char>) -> nat,
)
    requires
        forall|k: Seq<char>| #[trigger] g(k) == a(k) + b(k),
    ensures
        sum_over(keys, g) == sum_over(keys, a) + sum_over(keys, b),
    decreases keys.len(),
{
    if keys.len() > 0 {
        lemma_sum_split(keys.drop_last(), g, a, b);
    }
}

proof fn lemma_sum_zero(keys: Seq<Seq<char>>, g: spec_fn(Seq<char>) -> nat)
    requires
        forall|k: Seq<char>| #[trigger] g(k) == 0,
    ensures
        sum_over(keys, g) == 0,
    decreases keys.len(),
{
    if keys.len() > 0 {
        lemma_sum_zero(keys.drop_last(), g);
    }
}

proof fn lemma_sum_single(keys: Seq<Seq<char>>, g: spec_fn(Seq<char>) -> nat, x: Seq<char>)
    requires
        keys.no_duplicates(),
        keys.contains(x),
        g(x) == 1,
        forall|k: Seq<char>| k != x ==> #[trigger] g(k) == 0,
    ensures
        sum_over(keys, g) == 1,
    decreases keys.len(),
{
    let init = keys.drop_last();
    assert(init.no_duplicates()) by {
        assert forall|a: int, b: int| 0 <= a < init.len() && 0 <= b < init.len() && a != b implies init[a] != init[b] by {
            assert(init[a] == keys[a]);
            assert(init[b] == keys[b]);
        }
    }
    if keys.last() == x {
        assert(!init.contains(x)) by {
            if init.contains(x) {
                let j = choose|j: int| 0 <= j < init.len() && init[j] == x;
                assert(keys[j] == keys[keys.len() - 1]);
            }
        }
        lemma_sum_absent(init, g, x);
    } else {
        let j = choose|j: int| 0 <= j < keys.len() && keys[j] == x;
        assert(j != keys.len() - 1);
        assert(init[j] == x);
        lemma_sum_single(init, g, x);
    }
}

proof fn lemma_sum_absent(keys: Seq<Seq<char>>, g: spec_fn(Seq<char>) -> nat, x: Seq<char>)
    requires
        !keys.contains(x),
        forall|k: Seq<char>| k != x ==> #[trigger] g(k) == 0,
    ensures
        sum_over(keys, g) == 0,
    decreases keys.len(),
{
    if keys.len() > 0 {
        assert(!keys.drop_last().contains(x)) by {
            if keys.drop_last().contains(x) {
                let j = choose|j: int| 0 <= j < keys.drop_last().len() && keys.drop_last()[j] == x;
                assert(keys[j] == x);
            }
        }
        assert(keys[keys.len() - 1] != x);
        lemma_sum_absent(keys.drop_last(), g, x);
    }
}

/// The key a violation is counted under in a breakdown by pattern, category or owner.
pub open spec fn key_of(f: FileReport, v: Violation, t: Tally) -> Seq<char> {
    match t {
        Tally::Pattern => v.pattern@,
        Tally::Category => v.category@,
        _ => owner_key(f),
    }
}

/// A breakdown that counts each violation under exactly one key.
pub open spec fn partitions(t: Tally) -> bool {
    t is Pattern || t is Category || t is Owner
}

proof fn lemma_vs_breakdown(f: FileReport, vs: Seq<Violation>, flt: Filters, t: Tally, keys: Seq<Seq<char>>)
    requires
        partitions(t),
        keys.no_duplicates(),
        forall|i: int| 0 <= i < vs.len() ==> keys.contains(#[trigger] key_of(f, vs[i], t)),
    ensures
        sum_over(keys, |k: Seq<char>| vs_tally(f, vs, flt, t, k)) == vs_tally(
            f,
            vs,
            flt,
            Tally::All,
            Seq::empty(),
        ),
    decreases vs.len(),
{
    let g = |k: Seq<char>| vs_tally(f, vs, flt, t, k);
    if vs.len() == 0 {
        lemma_sum_zero(keys, g);
    } else {
        let init = vs.drop_last();
        let v = vs.last();
        assert forall|i: int| 0 <= i < init.len() implies keys.contains(#[trigger] key_of(f, init[i], t)) by {
            assert(init[i] == vs[i]);
        }
        lemma_vs_breakdown(f, init, flt, t, keys);
        let a = |k: Seq<char>| vs_tally(f, init, flt, t, k);
        let b = |k: Seq<char>| if passes(f, v, flt) {
            weight(f, v, t, k)
        } else {
            0
        };
        lemma_sum_split(keys, g, a, b);
        assert(keys.contains(key_of(f, vs[vs.len() - 1], t)));
        if passes(f, v, flt) {
            lemma_sum_single(keys, b, key_of(f, v, t));
        } else {
            lemma_sum_zero(keys, b);
        }
    }
}

/// A breakdown by pattern, category or owner adds up to the total: summed over a
/// list of distinct keys that holds every key a violation is counted under, the
/// filtered counts give the filtered number of violations, whatever the filters.
pub proof fn lemma_breakdown_adds_up(files: Seq<FileReport>, flt: Filters, t: Tally, keys: Seq<Seq<char>>)
    requires
        partitions(t),
        keys.no_duplicates(),
        forall|i: int, j: int|
            0 <= i < files.len() && 0 <= j < files[i].violations@.len() ==> keys.contains(
                #[trigger] key_of(files[i], files[i].violations@[j], t),
            ),
    ensures
        sum_over(keys, |k: Seq<char>| filtered_tally(files, flt, t, k)) == filtered_tally(
            files,
            flt,
            Tally::All,
            Seq::empty(),
        ),
    decreases files.len(),
{
    let g = |k: Seq<char>| filtered_tally(files, flt, t, k);
    if files.len() == 0 {
        lemma_sum_zero(keys, g);
    } else {
        let init = files.drop_last();
        let f = files.last();
        assert forall|i: int, j: int|
            0 <= i < init.len() && 0 <= j < init[i].violations@.len() implies keys.contains(
            #[trigger] key_of(init[i], init[i].violations@[j], t),
        ) by {
            assert(init[i] == files[i]);
        }
        lemma_breakdown_adds_up(init, flt, t, keys);
        assert forall|j: int| 0 <= j < f.violations@.len() implies keys.contains(
            #[trigger] key_of(f, f.violations@[j], t),
        ) by {
            assert(f == files[files.len() - 1]);
        }
        lemma_vs_breakdown(f, f.violations@, flt, t, keys);
        let a = |k: Seq<char>| filtered_tally(init, flt, t, k);
        let b = |k: Seq<char>| vs_tally(f, f.violations@, flt, t, k);
        lemma_sum_split(keys, g, a, b);
    }
}

/// The report's breakdown by pattern adds up to its total number of violations,
/// over any list of distinct patterns that holds the pattern of every violation;
/// and likewise by category.
pub proof fn lemma_summary_adds_up(
    s: ReportSummary,
    files: Seq<FileReport>,
    patterns: Seq<Seq<char>>,
    categories: Seq<Seq<char>>,
)
    requires
        summarizes(s, files),
        patterns.no_duplicates(),
        categories.no_duplicates(),
        forall|i: int, j: int|
            0 <= i < files.len() && 0 <= j < files[i].violations@.len() ==> patterns.contains(
                #[trigger] files[i].violations@[j].pattern@,
            ) && categories.contains(files[i].violations@[j].category@),
    ensures
        sum_over(patterns, |k: Seq<char>| s.by_pattern.count(k)) == s.total_violations,
        sum_over(categories, |k: Seq<char>| s.by_category.count(k)) == s.total_violations,
{
    let zero = |k: Seq<char>| 0nat;
    lemma_sum_zero(patterns, zero);
    lemma_sum_zero(categories, zero);
    assert forall|i: int, j: int|
        0 <= i < files.len() && 0 <= j < files[i].violations@.len() implies patterns.contains(
        #[trigger] key_of(files[i], files[i].violations@[j], Tally::Pattern),
    ) by {
        assert(patterns.contains(files[i].violations@[j].pattern@));
    }
    assert forall|i: int, j: int|
        0 <= i < files.len() && 0 <= j < files[i].violations@.len() implies categories.contains(
        #[trigger] key_of(files[i], files[i].violations@[j], Tally::Category),
    ) by {
        assert(patterns.contains(files[i].violations@[j].pattern@));
    }
    lemma_breakdown_adds_up(files, no_filters(), Tally::Pattern, patterns);
    lemma_breakdown_adds_up(files, no_filters(), Tally::Category, categories);
    lemma_unfiltered_tallies(files, Seq::empty());
    assert forall|k: Seq<char>|
        #[trigger] s.by_pattern.count(k) == filtered_tally(files, no_filters(), Tally::Pattern, k)
            + 0 by {
        lemma_unfiltered_tallies(files, k);
    }
    assert forall|k: Seq<char>|
        #[trigger] s.by_category.count(k) == filtered_tally(files, no_filters(), Tally::Category, k)
            + 0 by {
        lemma_unfiltered_tallies(files, k);
    }
    lemma_sum_split(
        patterns,
        |k: Seq<char>| s.by_pattern.count(k),
        |k: Seq<char>| filtered_tally(files, no_filters(), Tally::Pattern, k),
        zero,
    );
    lemma_sum_split(
        categories,
        |k: Seq<char>| s.by_category.count(k),
        |k: Seq<char>| filtered_tally(files, no_filters(), Tally::Category, k),
        zero,
    );
}

/// The sum of the counts of file rows.
pub open spec fn row_total(rows: Seq<(Seq<char>, Seq<char>, nat)>) -> nat
    decreases rows.len(),
{
    if rows.len() == 0 {
        0
    } else {
        row_total(rows.drop_last()) + rows.last().2
    }
}

proof fn lemma_row_total_concat(a: Seq<(Seq<char>, Seq<char>, nat)>, b: Seq<(Seq<char>, Seq<char>, nat)>)
    ensures
        row_total(a + b) == row_total(a) + row_total(b),
    decreases b.len(),
{
    if b.len() == 0 {
        assert(a + b =~= a);
    } else {
        lemma_row_total_concat(a, b.drop_last());
        assert((a + b).drop_last() =~= a + b.drop_last());
    }
}

proof fn lemma_row_total_one(x: (Seq<char>, Seq<char>, nat))
    ensures
        row_total(seq![x]) == x.2,
{
    let e = Seq::<(Seq<char>, Seq<char>, nat)>::empty();
    assert(row_total(e) == 0);
    assert(seq![x].drop_last() =~= e);
    assert(seq![x].last() == x);
}

proof fn lemma_row_total_insert(s: Seq<(Seq<char>, Seq<char>, nat)>, x: (Seq<char>, Seq<char>, nat))
    ensures
        row_total(insert_by(s, x, by_file_total())) == row_total(s) + x.2,
    decreases s.len(),
{
    lemma_row_total_one(x);
    if s.len() == 0 {
        assert(insert_by(s, x, by_file_total()) == seq![x]);
    } else if x.2 > s[0].2 {
        assert((by_file_total())(x, s[0]));
        assert(insert_by(s, x, by_file_total()) == seq![x] + s);
        lemma_row_total_concat(seq![x], s);
    } else {
        assert(!(by_file_total())(x, s[0]));
        let rest = insert_by(s.drop_first(), x, by_file_total());
        assert(insert_by(s, x, by_file_total()) == seq![s[0]] + rest);
        lemma_row_total_insert(s.drop_first(), x);
        lemma_row_total_one(s[0]);
        lemma_row_total_concat(seq![s[0]], rest);
        lemma_row_total_concat(seq![s[0]], s.drop_first());
        assert(seq![s[0]] + s.drop_first() =~= s);
    }
}

proof fn lemma_row_total_sorted(s: Seq<(Seq<char>, Seq<char>, nat)>)
    ensures
        row_total(sort_by_lt(s, by_file_total())) == row_total(s),
    decreases s.len(),
{
    if s.len() > 0 {
        lemma_row_total_sorted(s.drop_last());
        lemma_row_total_insert(sort_by_lt(s.drop_last(), by_file_total()), s.last());
    }
}

proof fn lemma_rows_total(files: Seq<FileReport>, flt: Filters)
    ensures
        row_total(file_count_rows(files, flt)) == filtered_tally(
            files,
            flt,
            Tally::All,
            Seq::empty(),
        ),
    decreases files.len(),
{
    if files.len() > 0 {
        lemma_rows_total(files.drop_last(), flt);
        let f = files.last();
        let extra = if file_hits(f, flt) > 0 {
            seq![(f.path@, owner_display(f), file_hits(f, flt))]
        } else {
            Seq::empty()
        };
        lemma_row_total_concat(file_count_rows(files.drop_last(), flt), extra);
        assert(file_count_rows(files, flt) == file_count_rows(files.drop_last(), flt) + extra);
        if file_hits(f, flt) > 0 {
            lemma_row_total_one((f.path@, owner_display(f), file_hits(f, flt)));
        } else {
            assert(row_total(extra) == 0);
        }
        assert(file_hits(f, flt) == vs_tally(f, f.violations@, flt, Tally::All, Seq::empty()));
    }
}

/// The file rows of the explorer add up to its filtered number of violations: every
/// passing violation is counted in the row of its file, and in no other.
pub proof fn lemma_file_rows_add_up(app: &App)
    requires
        app.consistent(),
    ensures
        row_total(triple_views(app.filtered_files@)) == app.filtered_violation_count,
{
    let rows = file_count_rows(app.report.files@, app.filters());
    lemma_rows_total(app.report.files@, app.filters());
    lemma_row_total_sorted(rows);
}

} // verus!
