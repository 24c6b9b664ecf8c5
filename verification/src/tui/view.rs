//! The text the explorer shows: the header counts, the panel titles with their tabs,
//! and the labels of the directory tree.

use vstd::prelude::*;

use super::app::{App, DATA_VIEW_COUNT, DIMENSION_COUNT};
use super::tree::DirTreeRow;
use crate::report::output::{decimal, decimal_chars, fmt_num, group_thousands};
use crate::text::{chars_of, joined, push_all, string_from_chars};

verus! {

/// `n` with thousands separators, as `fmt_num` writes it.
pub open spec fn num_text(n: nat) -> Seq<char> {
    group_thousands(decimal(n))
}

/// The header's count line: the filtered counts out of the totals while any filter
/// is active, the totals alone otherwise.
pub open spec fn header_text(
    filtered: bool,
    shown_violations: nat,
    total_violations: nat,
    shown_files: nat,
    total_files: nat,
) -> Seq<char> {
    if filtered {
        num_text(shown_violations) + " / "@ + num_text(total_violations) + " violations in "@
            + num_text(shown_files) + " / "@ + num_text(total_files) + " files (filtered)"@
    } else {
        num_text(total_violations) + " violations in "@ + num_text(total_files) + " files"@
    }
}

/// `out` with the characters of `s` appended.
fn append(out: &mut Vec<char>, s: &str)
    ensures
        final(out)@ == old(out)@ + s@,
{
    let cs = chars_of(s);
    push_all(out, cs.as_slice());
}

/// The header's count line for the explorer's current state (see `header_text`).
pub fn header_counts(app: &App) -> (s: String)
    requires
        app.wf(),
    ensures
        s@ == header_text(
            exists|d: int|
                0 <= d < DIMENSION_COUNT && #[trigger] app.active_filters@[d].members() != Set::<
                    usize,
                >::empty(),
            app.filtered_violation_count as nat,
            app.report.summary.total_violations as nat,
            app.filtered_files@.len(),
            app.report.summary.total_files_with_violations as nat,
        ),
{
    let sm = &app.report.summary;
    let mut out: Vec<char> = Vec::new();
    if app.has_any_active_filter() {
        append(&mut out, fmt_num(app.filtered_violation_count).as_str());
        append(&mut out, " / ");
        append(&mut out, fmt_num(sm.total_violations).as_str());
        append(&mut out, " violations in ");
        append(&mut out, fmt_num(app.filtered_files.len()).as_str());
        append(&mut out, " / ");
        append(&mut out, fmt_num(sm.total_files_with_violations).as_str());
        append(&mut out, " files (filtered)");
    } else {
        append(&mut out, fmt_num(sm.total_violations).as_str());
        append(&mut out, " violations in ");
        append(&mut out, fmt_num(sm.total_files_with_violations).as_str());
        append(&mut out, " files");
    }
    string_from_chars(out.as_slice())
}

/// The labels of the filter dimensions, in panel order.
pub open spec fn dimension_labels() -> Seq<Seq<char>> {
    seq!["Pattern"@, "Category"@, "Rule"@, "Owner"@]
}

/// The labels of the data views, in panel order.
pub open spec fn view_labels() -> Seq<Seq<char>> {
    seq!["Files"@, "Rules"@, "Patterns"@, "Categories"@, "Owners"@, "Dirs"@]
}

/// The labels with the current one in brackets.
pub open spec fn marked(labels: Seq<Seq<char>>, current: int) -> Seq<Seq<char>> {
    Seq::new(
        labels.len(),
        |i: int|
            if i == current {
                "["@ + labels[i] + "]"@
            } else {
                labels[i]
            },
    )
}

/// The tabs of a panel: its labels, the current one in brackets, separated by spaces.
pub open spec fn tabs_text(labels: Seq<Seq<char>>, current: int) -> Seq<char> {
    joined(marked(labels, current), " "@)
}

fn dimension_label(i: usize) -> (s: &'static str)
    requires
        i < DIMENSION_COUNT,
    ensures
        s@ == dimension_labels()[i as int],
{
    if i == 0 {
        "Pattern"
    } else if i == 1 {
        "Category"
    } else if i == 2 {
        "Rule"
    } else {
        "Owner"
    }
}

fn view_label(i: usize) -> (s: &'static str)
    requires
        i < DATA_VIEW_COUNT,
    ensures
        s@ == view_labels()[i as int],
{
    if i == 0 {
        "Files"
    } else if i == 1 {
        "Rules"
    } else if i == 2 {
        "Patterns"
    } else if i == 3 {
        "Categories"
    } else if i == 4 {
        "Owners"
    } else {
        "Dirs"
    }
}

/// Append the tabs for `count` labels to `out`.
fn append_tabs(out: &mut Vec<char>, dims: bool, current: usize)
    ensures
        final(out)@ == old(out)@ + tabs_text(
            if dims {
                dimension_labels()
            } else {
                view_labels()
            },
            current as int,
        ),
{
    let ghost labels = if dims {
        dimension_labels()
    } else {
        view_labels()
    };
    let count: usize = if dims {
        DIMENSION_COUNT
    } else {
        DATA_VIEW_COUNT
    };
    let ghost m = marked(labels, current as int);
    let ghost start = out@;
    let mut i: usize = 0;
    while i < count
        invariant
            count == labels.len(),
            m == marked(labels, current as int),
            labels == (if dims {
                dimension_labels()
            } else {
                view_labels()
            }),
            i <= count,
            out@ == start + joined(m.take(i as int), " "@),
        decreases count - i,
    {
        let ghost before = out@;
        let label = if dims {
            dimension_label(i)
        } else {
            view_label(i)
        };
        if i > 0 {
            append(out, " ");
        }
        if i == current {
            append(out, "[");
            append(out, label);
            append(out, "]");
        } else {
            append(out, label);
        }
        proof {
            let t = m.take(i + 1);
            assert(t.drop_last() =~= m.take(i as int));
            assert(t.last() == m[i as int]);
            if i == 0 {
                assert(t =~= seq![m[0]]);
            }
            assert(out@ =~= start + joined(t, " "@));
        }
        i += 1;
    }
    assert(m.take(count as int) =~= m);
}

/// The title of the filter panel: the number of active filter values when there are
/// any, then the dimension tabs.
pub open spec fn filter_title_text(active_count: nat, dimension: int) -> Seq<char> {
    if active_count > 0 {
        " Filters ("@ + decimal(active_count) + " active) — "@ + tabs_text(
            dimension_labels(),
            dimension,
        ) + " "@
    } else {
        " Filters — "@ + tabs_text(dimension_labels(), dimension) + " "@
    }
}

/// The title of the filter panel (see `filter_title_text`).
pub fn filter_title(active_count: usize, dimension: usize) -> (s: String)
    ensures
        s@ == filter_title_text(active_count as nat, dimension as int),
{
    let mut out: Vec<char> = Vec::new();
    if active_count > 0 {
        append(&mut out, " Filters (");
        let d = decimal_chars(active_count);
        push_all(&mut out, d.as_slice());
        append(&mut out, " active) — ");
    } else {
        append(&mut out, " Filters — ");
    }
    append_tabs(&mut out, true, dimension);
    append(&mut out, " ");
    string_from_chars(out.as_slice())
}

/// The title of the data panel: the view tabs and the number of rows of the
/// current view.
pub open spec fn data_title_text(view: int, item_count: nat) -> Seq<char> {
    " "@ + tabs_text(view_labels(), view) + " ("@ + decimal(item_count) + ") "@
}

/// The title of the data panel (see `data_title_text`).
pub fn data_title(view: usize, item_count: usize) -> (s: String)
    ensures
        s@ == data_title_text(view as int, item_count as nat),
{
    let mut out: Vec<char> = Vec::new();
    append(&mut out, " ");
    append_tabs(&mut out, false, view);
    append(&mut out, " (");
    let d = decimal_chars(item_count);
    push_all(&mut out, d.as_slice());
    append(&mut out, ") ");
    string_from_chars(out.as_slice())
}

/// `n` copies of `s`, one after the other.
pub open spec fn repeated(s: Seq<char>, n: nat) -> Seq<char>
    decreases n,
{
    if n == 0 {
        Seq::empty()
    } else {
        repeated(s, (n - 1) as nat) + s
    }
}

/// The marker before a tree row's name: `▼` for an expanded directory with
/// something below it, `▶` for a collapsed one, blank otherwise.
pub open spec fn tree_marker(is_file: bool, has_children: bool, expanded: bool) -> Seq<char> {
    if is_file || !has_children {
        "  "@
    } else if expanded {
        "▼ "@
    } else {
        "▶ "@
    }
}

/// The label of a tree row: two spaces per level of depth, the marker, the name.
pub open spec fn tree_label_text(
    depth: nat,
    is_file: bool,
    has_children: bool,
    expanded: bool,
    name: Seq<char>,
) -> Seq<char> {
    repeated("  "@, depth) + tree_marker(is_file, has_children, expanded) + name
}

/// The label of a tree row (see `tree_label_text`).
pub fn tree_label(row: &DirTreeRow) -> (s: String)
    ensures
        s@ == tree_label_text(
            row.depth as nat,
            row.is_file,
            row.has_children,
            row.expanded,
            row.name@,
        ),
{
    let mut out: Vec<char> = Vec::new();
    let mut k: usize = 0;
    while k < row.depth
        invariant
            k <= row.depth,
            out@ == repeated("  "@, k as nat),
        decreases row.depth - k,
    {
        append(&mut out, "  ");
        k += 1;
    }
    if row.is_file || !row.has_children {
        append(&mut out, "  ");
    } else if row.expanded {
        append(&mut out, "▼ ");
    } else {
        append(&mut out, "▶ ");
    }
    append(&mut out, row.name.as_str());
    string_from_chars(out.as_slice())
}

} // verus!
