//! Trend dashboard: ordering saved reports in time, deciding what a set of loaded
//! reports amounts to, and preparing the dashboard page that carries them.

use vstd::prelude::*;

use crate::paths::{extension_of, path_extension};
use crate::report::{Report, Timestamp};
use crate::sort::{lemma_insert_by_at, lemma_sort_by_lt_sorted, sort_by_lt, strict_order};
use crate::text::{
    chars_of, concat_text, join_with, joined, replace_all, replace_text, same_text,
    string_from_chars, string_of, views,
};

verus! {

/// Whether a file found in a report directory is a report: its extension is `json`.
pub fn is_report_file(path: &str) -> (b: bool)
    ensures
        b == (path_extension(path@) == Some("json"@)),
{
    match extension_of(&chars_of(path)) {
        Some(e) => {
            let es = string_from_chars(e.as_slice());
            same_text(es.as_str(), "json")
        },
        None => false,
    }
}

/// `a` is earlier than `b`.
pub open spec fn earlier(a: Timestamp, b: Timestamp) -> bool {
    a.secs < b.secs || (a.secs == b.secs && a.nanos < b.nanos)
}

/// Reports by the time of their scan.
pub open spec fn by_time() -> spec_fn(Report, Report) -> bool {
    |a: Report, b: Report| earlier(a.metadata.timestamp, b.metadata.timestamp)
}

/// The reports ordered by the time of their scan, oldest first; reports of the same
/// time keep their order.
pub fn sort_by_time(reports: Vec<Report>) -> (out: Vec<Report>)
    ensures
        out@ == sort_by_lt(reports@, by_time()),
{
    let ghost orig = reports@;
    let mut out: Vec<Report> = Vec::new();
    for x in it: reports
        invariant
            it.seq() == orig,
            out@ == sort_by_lt(orig.take(it.index() as int), by_time()),
    {
        let ghost idx = it.index() as int;
        let t = x.metadata.timestamp;
        let mut i: usize = 0;
        while i < out.len() && !(t.secs < out[i].metadata.timestamp.secs || (t.secs
            == out[i].metadata.timestamp.secs && t.nanos < out[i].metadata.timestamp.nanos))
            invariant
                i <= out@.len(),
                t == x.metadata.timestamp,
                forall|j: int| 0 <= j < i ==> !(by_time())(x, #[trigger] out@[j]),
            decreases out@.len() - i,
        {
            i += 1;
        }
        proof {
            lemma_insert_by_at(out@, x, by_time(), i as int);
            assert(orig.take(idx + 1).drop_last() =~= orig.take(idx));
            assert(orig.take(idx + 1).last() == x);
        }
        out.insert(i, x);
    }
    assert(orig.take(orig.len() as int) =~= orig);
    out
}

/// What loading the report files found in `paths` amounts to, given the outcome of
/// reading and parsing each file (its display name and the report or the error):
/// an error when no file was found or none loaded; otherwise the loaded reports,
/// oldest first, and a `file: error` line for each file that failed.
pub fn load_reports(
    paths: &[String],
    outcomes: Vec<(String, Result<Report, String>)>,
) -> (r: Result<(Vec<Report>, Vec<String>), String>)
    ensures
        outcomes@.len() == 0 ==> (r matches Err(e) && e@ == "no JSON report files found in: "@
            + joined(views(paths@), ", "@)),
        outcomes@.len() > 0 && loaded(outcomes@).len() == 0 ==> (r matches Err(e) && e@
            == "failed to load any valid reports:\n"@ + joined(failures(outcomes@), "\n"@)),
        loaded(outcomes@).len() > 0 ==> (r matches Ok((rs, errs)) && rs@ == sort_by_lt(
            loaded(outcomes@),
            by_time(),
        ) && views(errs@) == failures(outcomes@)),
{
    if outcomes.len() == 0 {
        let list = join_with(paths, ", ");
        return Err(concat_text("no JSON report files found in: ", list.as_str()));
    }
    let ghost all = outcomes@;
    let mut reports: Vec<Report> = Vec::new();
    let mut errors: Vec<String> = Vec::new();
    for o in it: outcomes
        invariant
            it.seq() == all,
            reports@ == loaded(all.take(it.index() as int)),
            views(errors@) == failures(all.take(it.index() as int)),
    {
        let ghost idx = it.index() as int;
        proof {
            assert(all.take(idx + 1).drop_last() =~= all.take(idx));
            assert(all.take(idx + 1).last() == o);
        }
        let (name, res) = o;
        match res {
            Ok(rep) => {
                reports.push(rep);
            },
            Err(e) => {
                let ghost before = views(errors@);
                let head = concat_text(name.as_str(), ": ");
                errors.push(concat_text(head.as_str(), e.as_str()));
                assert(views(errors@) =~= before.push(name@ + ": "@ + e@));
            },
        }
    }
    assert(all.take(all.len() as int) =~= all);
    if reports.len() == 0 {
        let list = join_with(errors.as_slice(), "\n");
        return Err(concat_text("failed to load any valid reports:\n", list.as_str()));
    }
    Ok((sort_by_time(reports), errors))
}

/// The reports among the outcomes, in order.
pub open spec fn loaded(outcomes: Seq<(String, Result<Report, String>)>) -> Seq<Report>
    decreases outcomes.len(),
{
    if outcomes.len() == 0 {
        Seq::empty()
    } else {
        match outcomes.last().1 {
            Ok(r) => loaded(outcomes.drop_last()).push(r),
            Err(_) => loaded(outcomes.drop_last()),
        }
    }
}

/// A `file: error` line for each failed outcome, in order.
pub open spec fn failures(outcomes: Seq<(String, Result<Report, String>)>) -> Seq<Seq<char>>
    decreases outcomes.len(),
{
    if outcomes.len() == 0 {
        Seq::empty()
    } else {
        match outcomes.last().1 {
            Ok(_) => failures(outcomes.drop_last()),
            Err(e) => failures(outcomes.drop_last()).push(outcomes.last().0@ + ": "@ + e@),
        }
    }
}

/// The dashboard page `html` carrying the reports, serialized as `reports_json`: a
/// script setting `window.__REPORTS__` is placed before every `</head>`.
pub open spec fn page_with_reports(html: Seq<char>, reports_json: Seq<char>) -> Seq<char> {
    replace_all(
        html,
        "</head>"@,
        "<script>window.__REPORTS__="@ + reports_json + "</script></head>"@,
    )
}

/// Inject the reports into the dashboard page (see `page_with_reports`).
pub fn inject_reports(html: &str, reports_json: &str) -> (out: String)
    ensures
        out@ == page_with_reports(html@, reports_json@),
{
    let head = concat_text("<script>window.__REPORTS__=", reports_json);
    let script = concat_text(head.as_str(), "</script></head>");
    proof {
        reveal_strlit("</head>");
    }
    replace_text(html, "</head>", script.as_str())
}

/// The page with absolute asset paths made relative, so that it works from a
/// directory: `src="/assets/` becomes `src="assets/`, and likewise for `href`.
pub open spec fn page_with_relative_assets(html: Seq<char>) -> Seq<char> {
    replace_all(
        replace_all(html, "src=\"/assets/"@, "src=\"assets/"@),
        "href=\"/assets/"@,
        "href=\"assets/"@,
    )
}

/// Make the asset paths of the page relative (see `page_with_relative_assets`).
pub fn relative_asset_paths(html: &str) -> (out: String)
    ensures
        out@ == page_with_relative_assets(html@),
{
    proof {
        reveal_strlit("src=\"/assets/");
        reveal_strlit("href=\"/assets/");
    }
    let a = replace_text(html, "src=\"/assets/", "src=\"assets/");
    replace_text(a.as_str(), "href=\"/assets/", "href=\"assets/")
}

/// `s` without its leading `/` characters.
pub open spec fn without_leading_slashes(s: Seq<char>) -> Seq<char>
    decreases s.len(),
{
    if s.len() > 0 && s[0] == '/' {
        without_leading_slashes(s.drop_first())
    } else {
        s
    }
}

/// The asset that a request path names: the path without its leading slashes, or
/// `index.html` when nothing remains.
pub open spec fn asset_name(uri_path: Seq<char>) -> Seq<char> {
    let p = without_leading_slashes(uri_path);
    if p.len() == 0 {
        "index.html"@
    } else {
        p
    }
}

/// The asset that the request path `uri_path` names (see `asset_name`).
pub fn asset_path(uri_path: &str) -> (out: String)
    ensures
        out@ == asset_name(uri_path@),
{
    let cs = chars_of(uri_path);
    let mut i: usize = 0;
    assert(cs@.skip(0) =~= cs@);
    while i < cs.len() && cs[i] == '/'
        invariant
            i <= cs@.len(),
            without_leading_slashes(cs@) == without_leading_slashes(cs@.skip(i as int)),
        decreases cs@.len() - i,
    {
        assert(cs@.skip(i as int).drop_first() =~= cs@.skip(i + 1));
        i += 1;
    }
    if i == cs.len() {
        assert(cs@.skip(i as int).len() == 0);
        string_of("index.html")
    } else {
        let rest = crate::text::sub_chars(&cs, i, cs.len());
        assert(rest@ =~= cs@.skip(i as int));
        string_from_chars(rest.as_slice())
    }
}

/// What the dashboard answers to a request.
#[derive(Debug, Clone, PartialEq, Eq)]
pub enum Reply {
    /// The page, carrying the reports.
    Page,
    /// The named asset, as stored.
    Asset(String),
}

/// What the dashboard answers to a request for `uri_path`, `stored` telling whether
/// an asset of that name exists: the page for `index.html` and for every name with
/// no asset (so that the page's own routes load it), the asset otherwise.
pub fn reply_for(uri_path: &str, stored: bool) -> (r: Reply)
    ensures
        (asset_name(uri_path@) == "index.html"@ || !stored) ==> r == Reply::Page,
        !(asset_name(uri_path@) == "index.html"@ || !stored) ==> (r matches Reply::Asset(a) && a@
            == asset_name(uri_path@)),
{
    let name = asset_path(uri_path);
    if same_text(name.as_str(), "index.html") || !stored {
        Reply::Page
    } else {
        Reply::Asset(name)
    }
}

/// Reports put in time order come oldest first: none is earlier than a report
/// before it, and there are as many as before.
pub proof fn lemma_oldest_first(reports: Seq<Report>)
    ensures
        sort_by_lt(reports, by_time()).len() == reports.len(),
        forall|i: int, j: int|
            0 <= i < j < reports.len() ==> !earlier(
                #[trigger] sort_by_lt(reports, by_time())[j].metadata.timestamp,
                #[trigger] sort_by_lt(reports, by_time())[i].metadata.timestamp,
            ),
{
    assert(strict_order(by_time()));
    lemma_sort_by_lt_sorted(reports, by_time());
    let out = sort_by_lt(reports, by_time());
    assert forall|i: int, j: int| 0 <= i < j < reports.len() implies !earlier(
        #[trigger] out[j].metadata.timestamp,
        #[trigger] out[i].metadata.timestamp,
    ) by {
        assert(!(by_time())(out[j], out[i]));
    }
}

} // verus!
