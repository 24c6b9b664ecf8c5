//! Directory tree for the interactive view: a tree built from flat directory and
//! file counts, flattened into the rows that are visible under an expand state.
//!
//! The tree's nodes are the directory prefixes of the counted directories (the
//! text before each `/`, and the whole path). Roots are the nodes without a `/`;
//! the children of a node are the nodes one component longer. Roots are listed by
//! name; children by count, largest first, ties by name. A file hangs below the
//! deepest node reachable from a root along its parent directory's components, and
//! files are listed by count, largest first, after the child directories.

use vstd::prelude::*;

use crate::counts::{key_seq, pair_views, CountMap, StringSet};
use crate::paths::{
    file_name_of, last_index, last_index_in, lemma_last_index_bounds, opt_chars, parent_of,
    path_file_name, path_parent,
};
use crate::sort::{
    keys_distinct, lemma_insert_by_at, lemma_sort_by_lt_distinct, lemma_sort_by_lt_has,
    lemma_sort_by_lt_keeps, lemma_sort_by_lt_len, sort_by_lt,
};
use crate::text::{chars_eq, chars_of, string_from_chars, sub_chars};

verus! {

// ---------------------------------------------------------------------------
// Rows
// ---------------------------------------------------------------------------

/// What a row of the tree shows.
pub struct RowView {
    pub depth: nat,
    pub name: Seq<char>,
    pub full_path: Seq<char>,
    pub count: nat,
    pub has_children: bool,
    pub expanded: bool,
    pub is_file: bool,
}

/// A single visible row in the flattened directory tree.
#[derive(Clone)]
pub struct DirTreeRow {
    pub depth: usize,
    pub name: String,
    pub full_path: String,
    pub count: usize,
    pub has_children: bool,
    pub expanded: bool,
    pub is_file: bool,
}

impl DirTreeRow {
    /// What this row shows.
    pub open spec fn view(&self) -> RowView {
        RowView {
            depth: self.depth as nat,
            name: self.name@,
            full_path: self.full_path@,
            count: self.count as nat,
            has_children: self.has_children,
            expanded: self.expanded,
            is_file: self.is_file,
        }
    }
}

/// What a list of rows shows.
pub open spec fn row_views(rows: Seq<DirTreeRow>) -> Seq<RowView> {
    rows.map_values(|r: DirTreeRow| r.view())
}

/// The character sequences held by a list of character vectors.
pub open spec fn seq_views(v: Seq<Vec<char>>) -> Seq<Seq<char>> {
    v.map_values(|x: Vec<char>| x@)
}

// ---------------------------------------------------------------------------
// Nodes
// ---------------------------------------------------------------------------

/// The prefixes of `k` that end just before one of its first `j` characters that is
/// a `/`, shortest first.
pub open spec fn cut_prefixes_upto(k: Seq<char>, j: int) -> Seq<Seq<char>>
    decreases j,
{
    if j <= 0 {
        Seq::empty()
    } else {
        cut_prefixes_upto(k, j - 1) + (if k[j - 1] == '/' {
            seq![k.take(j - 1)]
        } else {
            Seq::empty()
        })
    }
}

/// The directory prefixes of `k`: the text before each `/`, then `k` itself.
pub open spec fn cut_prefixes(k: Seq<char>) -> Seq<Seq<char>> {
    cut_prefixes_upto(k, k.len() as int).push(k)
}

/// `list` with `x` appended unless already present.
pub open spec fn add_unique(list: Seq<Seq<char>>, x: Seq<char>) -> Seq<Seq<char>> {
    if list.contains(x) {
        list
    } else {
        list.push(x)
    }
}

/// `list` with each of `xs` appended unless already present.
pub open spec fn add_all(list: Seq<Seq<char>>, xs: Seq<Seq<char>>) -> Seq<Seq<char>>
    decreases xs.len(),
{
    if xs.len() == 0 {
        list
    } else {
        add_unique(add_all(list, xs.drop_last()), xs.last())
    }
}

/// The distinct directory prefixes of `keys`, in order of first appearance.
pub open spec fn node_list(keys: Seq<Seq<char>>) -> Seq<Seq<char>>
    decreases keys.len(),
{
    if keys.len() == 0 {
        Seq::empty()
    } else {
        add_all(node_list(keys.drop_last()), cut_prefixes(keys.last()))
    }
}

/// The nodes of the tree built from the directory counts.
pub open spec fn tree_nodes(dirs: CountMap) -> Seq<Seq<char>> {
    node_list(key_seq(dirs.entry_seq()))
}

/// `m` is a child of `n`: `n`, a `/`, and one more component.
pub open spec fn is_child(n: Seq<char>, m: Seq<char>) -> bool {
    &&& m.len() > n.len()
    &&& m.take(n.len() as int) == n
    &&& m[n.len() as int] == '/'
    &&& !m.skip(n.len() + 1int).contains('/')
}

/// `m` is a root: it holds no `/`.
pub open spec fn is_root(m: Seq<char>) -> bool {
    !m.contains('/')
}

/// The last component of a node's path.
pub open spec fn seg_name(m: Seq<char>) -> Seq<char> {
    m.skip(last_index(m, '/') + 1)
}

/// A node: its name, full path and count.
pub struct NodeV {
    pub name: Seq<char>,
    pub path: Seq<char>,
    pub count: nat,
}

/// The node for path `m`, counted as in `dirs` (0 for paths that are only prefixes).
pub open spec fn node_v(dirs: CountMap, m: Seq<char>) -> NodeV {
    NodeV { name: seg_name(m), path: m, count: dirs.count(m) }
}

/// Code-point lexicographic order (the order of `String`s).
pub open spec fn lex_lt(a: Seq<char>, b: Seq<char>) -> bool
    decreases a.len(),
{
    if a.len() == 0 {
        b.len() > 0
    } else if b.len() == 0 {
        false
    } else if a[0] != b[0] {
        (a[0] as u32) < (b[0] as u32)
    } else {
        lex_lt(a.drop_first(), b.drop_first())
    }
}

/// Nodes ordered by name.
pub open spec fn by_name() -> spec_fn(NodeV, NodeV) -> bool {
    |a: NodeV, b: NodeV| lex_lt(a.name, b.name)
}

/// Nodes ordered by count, largest first.
pub open spec fn by_count() -> spec_fn(NodeV, NodeV) -> bool {
    |a: NodeV, b: NodeV| a.count > b.count
}

/// The children of `n` among `nodes`, in list order.
pub open spec fn child_nodes(nodes: Seq<Seq<char>>, dirs: CountMap, n: Seq<char>) -> Seq<NodeV>
    decreases nodes.len(),
{
    if nodes.len() == 0 {
        Seq::empty()
    } else {
        child_nodes(nodes.drop_last(), dirs, n) + (if is_child(n, nodes.last()) {
            seq![node_v(dirs, nodes.last())]
        } else {
            Seq::empty()
        })
    }
}

/// The roots among `nodes`, in list order.
pub open spec fn root_nodes(nodes: Seq<Seq<char>>, dirs: CountMap) -> Seq<NodeV>
    decreases nodes.len(),
{
    if nodes.len() == 0 {
        Seq::empty()
    } else {
        root_nodes(nodes.drop_last(), dirs) + (if is_root(nodes.last()) {
            seq![node_v(dirs, nodes.last())]
        } else {
            Seq::empty()
        })
    }
}

/// The children of `n` as listed: by count, largest first, ties by name.
pub open spec fn sorted_children(nodes: Seq<Seq<char>>, dirs: CountMap, n: Seq<char>) -> Seq<
    NodeV,
> {
    sort_by_lt(sort_by_lt(child_nodes(nodes, dirs, n), by_name()), by_count())
}

/// The roots as listed: by name.
pub open spec fn sorted_roots(nodes: Seq<Seq<char>>, dirs: CountMap) -> Seq<NodeV> {
    sort_by_lt(root_nodes(nodes, dirs), by_name())
}

// ---------------------------------------------------------------------------
// Files
// ---------------------------------------------------------------------------

/// A file entry: its name, path and count.
pub struct FileV {
    pub name: Seq<char>,
    pub path: Seq<char>,
    pub count: nat,
}

/// How many of `ps`, from the front, are nodes.
pub open spec fn run_len(ps: Seq<Seq<char>>, nodes: Seq<Seq<char>>) -> nat
    decreases ps.len(),
{
    if ps.len() == 0 || !nodes.contains(ps[0]) {
        0
    } else {
        1 + run_len(ps.drop_first(), nodes)
    }
}

/// The parent directory of a file path (empty when it has none).
pub open spec fn file_dir(p: Seq<char>) -> Seq<char> {
    match path_parent(p) {
        Some(d) => d,
        None => Seq::empty(),
    }
}

/// The node a file hangs below: the deepest node reached from a root along the
/// components of the file's directory; none when that directory is empty or its
/// first component is not a root.
pub open spec fn attach_point(nodes: Seq<Seq<char>>, p: Seq<char>) -> Option<Seq<char>> {
    let d = file_dir(p);
    let ps = cut_prefixes(d);
    let r = run_len(ps, nodes);
    if d.len() == 0 || r == 0 {
        None
    } else {
        Some(ps[r - 1])
    }
}

/// A file entry: name (the path's file name, or the path), path and count.
pub open spec fn file_v(e: (Seq<char>, nat)) -> FileV {
    FileV {
        name: match path_file_name(e.0) {
            Some(x) => x,
            None => e.0,
        },
        path: e.0,
        count: e.1,
    }
}

/// The files hanging below node `n`, in input order.
pub open spec fn files_at(nodes: Seq<Seq<char>>, files: Seq<(Seq<char>, nat)>, n: Seq<char>) -> Seq<
    FileV,
>
    decreases files.len(),
{
    if files.len() == 0 {
        Seq::empty()
    } else {
        files_at(nodes, files.drop_last(), n) + (if attach_point(nodes, files.last().0) == Some(
            n,
        ) {
            seq![file_v(files.last())]
        } else {
            Seq::empty()
        })
    }
}

/// Files ordered by count, largest first.
pub open spec fn by_file_count() -> spec_fn(FileV, FileV) -> bool {
    |a: FileV, b: FileV| a.count > b.count
}

/// The files below `n` as listed: by count, largest first, ties in input order.
pub open spec fn sorted_files(nodes: Seq<Seq<char>>, files: Seq<(Seq<char>, nat)>, n: Seq<char>) -> Seq<
    FileV,
> {
    sort_by_lt(files_at(nodes, files, n), by_file_count())
}

// ---------------------------------------------------------------------------
// Flattening
// ---------------------------------------------------------------------------

/// The row of a file at `depth`.
pub open spec fn file_row(f: FileV, depth: nat) -> RowView {
    RowView {
        depth,
        name: f.name,
        full_path: f.path,
        count: f.count,
        has_children: false,
        expanded: false,
        is_file: true,
    }
}

/// The rows of files at `depth`.
pub open spec fn file_rows(fs: Seq<FileV>, depth: nat) -> Seq<RowView>
    decreases fs.len(),
{
    if fs.len() == 0 {
        Seq::empty()
    } else {
        file_rows(fs.drop_last(), depth).push(file_row(fs.last(), depth))
    }
}

/// The visible rows of node `n` at `depth`: its own row, then, when expanded, the
/// rows of its children and the rows of its files. `fuel` bounds the depth.
pub open spec fn node_rows(
    nodes: Seq<Seq<char>>,
    dirs: CountMap,
    files: Seq<(Seq<char>, nat)>,
    expanded: Set<Seq<char>>,
    n: NodeV,
    depth: nat,
    fuel: nat,
) -> Seq<RowView>
    decreases fuel, 0nat,
{
    if fuel == 0 {
        Seq::empty()
    } else {
        let ch = sorted_children(nodes, dirs, n.path);
        let fs = sorted_files(nodes, files, n.path);
        let exp = expanded.contains(n.path);
        let row = RowView {
            depth,
            name: n.name,
            full_path: n.path,
            count: n.count,
            has_children: ch.len() > 0 || fs.len() > 0,
            expanded: exp,
            is_file: false,
        };
        if exp {
            seq![row] + list_rows(nodes, dirs, files, expanded, ch, depth + 1, (fuel - 1) as nat)
                + file_rows(fs, depth + 1)
        } else {
            seq![row]
        }
    }
}

/// The visible rows of the nodes `cs`, one after another, at `depth`.
pub open spec fn list_rows(
    nodes: Seq<Seq<char>>,
    dirs: CountMap,
    files: Seq<(Seq<char>, nat)>,
    expanded: Set<Seq<char>>,
    cs: Seq<NodeV>,
    depth: nat,
    fuel: nat,
) -> Seq<RowView>
    decreases fuel, cs.len(),
{
    if cs.len() == 0 {
        Seq::empty()
    } else {
        node_rows(nodes, dirs, files, expanded, cs[0], depth, fuel) + list_rows(
            nodes,
            dirs,
            files,
            expanded,
            cs.drop_first(),
            depth,
            fuel,
        )
    }
}

/// The visible rows of the whole tree.
pub open spec fn tree_rows(dirs: CountMap, files: Seq<(Seq<char>, nat)>, expanded: Set<Seq<char>>) -> Seq<
    RowView,
> {
    let nodes = tree_nodes(dirs);
    if dirs.size() == 0 && files.len() == 0 {
        Seq::empty()
    } else {
        list_rows(nodes, dirs, files, expanded, sorted_roots(nodes, dirs), 0, nodes.len())
    }
}

// ---------------------------------------------------------------------------
// Construction
// ---------------------------------------------------------------------------

/// A node under construction.
pub struct NodeEntry {
    pub name: Vec<char>,
    pub path: Vec<char>,
    pub count: usize,
}

impl NodeEntry {
    pub open spec fn view(&self) -> NodeV {
        NodeV { name: self.name@, path: self.path@, count: self.count as nat }
    }
}

/// The nodes a list of entries stands for.
pub open spec fn node_views(s: Seq<NodeEntry>) -> Seq<NodeV> {
    s.map_values(|e: NodeEntry| e.view())
}

/// A file entry under construction.
pub struct FileEntry {
    pub name: Vec<char>,
    pub path: Vec<char>,
    pub count: usize,
}

impl FileEntry {
    pub open spec fn view(&self) -> FileV {
        FileV { name: self.name@, path: self.path@, count: self.count as nat }
    }
}

/// The files a list of entries stands for.
pub open spec fn file_views(s: Seq<FileEntry>) -> Seq<FileV> {
    s.map_values(|e: FileEntry| e.view())
}

fn cut_prefixes_of(k: &Vec<char>) -> (out: Vec<Vec<char>>)
    ensures
        seq_views(out@) == cut_prefixes(k@),
{
    let mut out: Vec<Vec<char>> = Vec::new();
    let mut j: usize = 0;
    while j < k.len()
        invariant
            j <= k@.len(),
            seq_views(out@) == cut_prefixes_upto(k@, j as int),
        decreases k@.len() - j,
    {
        let ghost before = seq_views(out@);
        if k[j] == '/' {
            let p = sub_chars(k, 0, j);
            out.push(p);
            assert(seq_views(out@) =~= before.push(k@.take(j as int)));
            assert(before.push(k@.take(j as int)) =~= before + seq![k@.take(j as int)]);
        } else {
            assert(before =~= before + Seq::<Seq<char>>::empty());
        }
        j += 1;
    }
    let ghost before = seq_views(out@);
    out.push(k.clone());
    assert(seq_views(out@) =~= before.push(k@));
    out
}

fn contains_seq(list: &Vec<Vec<char>>, x: &Vec<char>) -> (r: bool)
    ensures
        r == seq_views(list@).contains(x@),
{
    let mut i: usize = 0;
    while i < list.len()
        invariant
            i <= list@.len(),
            forall|j: int| 0 <= j < i ==> list@[j]@ != x@,
        decreases list@.len() - i,
    {
        if chars_eq(list[i].as_slice(), x.as_slice()) {
            assert(seq_views(list@)[i as int] == x@);
            return true;
        }
        i += 1;
    }
    assert forall|j: int| 0 <= j < seq_views(list@).len() implies seq_views(list@)[j] != x@ by {
        assert(seq_views(list@)[j] == list@[j]@);
    }
    false
}

fn collect_nodes(dirs: &CountMap) -> (out: Vec<Vec<char>>)
    ensures
        seq_views(out@) == tree_nodes(*dirs),
{
    let es = dirs.entries();
    let ghost keys = key_seq(es@);
    let mut out: Vec<Vec<char>> = Vec::new();
    let mut i: usize = 0;
    while i < es.len()
        invariant
            i <= es@.len(),
            es@ == dirs.entry_seq(),
            keys == key_seq(es@),
            seq_views(out@) == node_list(keys.take(i as int)),
        decreases es@.len() - i,
    {
        let k = chars_of(es[i].0.as_str());
        let ps = cut_prefixes_of(&k);
        let ghost base = seq_views(out@);
        let mut t: usize = 0;
        while t < ps.len()
            invariant
                t <= ps@.len(),
                seq_views(out@) == add_all(base, seq_views(ps@).take(t as int)),
            decreases ps@.len() - t,
        {
            let ghost cur = seq_views(out@);
            assert(seq_views(ps@).take(t + 1).drop_last() == seq_views(ps@).take(t as int));
            assert(seq_views(ps@).take(t + 1).last() == ps@[t as int]@);
            if !contains_seq(&out, &ps[t]) {
                out.push(ps[t].clone());
                assert(seq_views(out@) =~= cur.push(ps@[t as int]@));
            }
            t += 1;
        }
        assert(seq_views(ps@).take(ps@.len() as int) == seq_views(ps@));
        assert(keys.take(i + 1).drop_last() == keys.take(i as int));
        assert(keys.take(i + 1).last() == k@);
        i += 1;
    }
    assert(keys.take(es@.len() as int) == keys);
    out
}

fn node_entry(dirs: &CountMap, m: &Vec<char>) -> (e: NodeEntry)
    requires
        dirs.wf(),
    ensures
        e.view() == node_v(*dirs, m@),
{
    let start = match last_index_in(m, m.len(), '/') {
        Some(i) => i + 1,
        None => 0,
    };
    assert(m@.take(m@.len() as int) == m@);
    proof {
        lemma_last_index_bounds(m@, '/');
    }
    let name = sub_chars(m, start, m.len());
    let key = string_from_chars(m.as_slice());
    let count = match dirs.get(key.as_str()) {
        Some(c) => c,
        None => 0,
    };
    NodeEntry { name, path: m.clone(), count }
}

fn is_child_exec(n: &Vec<char>, m: &Vec<char>) -> (r: bool)
    ensures
        r == is_child(n@, m@),
{
    if m.len() <= n.len() {
        return false;
    }
    if !crate::text::starts_with(m.as_slice(), n.as_slice()) {
        return false;
    }
    if m[n.len()] != '/' {
        return false;
    }
    let rest = sub_chars(m, n.len() + 1, m.len());
    !crate::text::contains_char(rest.as_slice(), '/')
}

fn child_nodes_exec(nodes: &Vec<Vec<char>>, dirs: &CountMap, n: &Vec<char>) -> (out: Vec<NodeEntry>)
    requires
        dirs.wf(),
    ensures
        node_views(out@) == child_nodes(seq_views(nodes@), *dirs, n@),
{
    let mut out: Vec<NodeEntry> = Vec::new();
    let mut i: usize = 0;
    while i < nodes.len()
        invariant
            i <= nodes@.len(),
            dirs.wf(),
            node_views(out@) == child_nodes(seq_views(nodes@).take(i as int), *dirs, n@),
        decreases nodes@.len() - i,
    {
        let ghost before = node_views(out@);
        let ghost pre = seq_views(nodes@).take(i + 1);
        assert(pre.drop_last() == seq_views(nodes@).take(i as int));
        assert(pre.last() == nodes@[i as int]@);
        if is_child_exec(n, &nodes[i]) {
            let e = node_entry(dirs, &nodes[i]);
            out.push(e);
            assert(node_views(out@) =~= before + seq![node_v(*dirs, nodes@[i as int]@)]);
        } else {
            assert(before =~= before + Seq::<NodeV>::empty());
        }
        i += 1;
    }
    assert(seq_views(nodes@).take(nodes@.len() as int) == seq_views(nodes@));
    out
}

fn root_nodes_exec(nodes: &Vec<Vec<char>>, dirs: &CountMap) -> (out: Vec<NodeEntry>)
    requires
        dirs.wf(),
    ensures
        node_views(out@) == root_nodes(seq_views(nodes@), *dirs),
{
    let mut out: Vec<NodeEntry> = Vec::new();
    let mut i: usize = 0;
    while i < nodes.len()
        invariant
            i <= nodes@.len(),
            dirs.wf(),
            node_views(out@) == root_nodes(seq_views(nodes@).take(i as int), *dirs),
        decreases nodes@.len() - i,
    {
        let ghost before = node_views(out@);
        let ghost pre = seq_views(nodes@).take(i + 1);
        assert(pre.drop_last() == seq_views(nodes@).take(i as int));
        assert(pre.last() == nodes@[i as int]@);
        if !crate::text::contains_char(nodes[i].as_slice(), '/') {
            let e = node_entry(dirs, &nodes[i]);
            out.push(e);
            assert(node_views(out@) =~= before + seq![node_v(*dirs, nodes@[i as int]@)]);
        } else {
            assert(before =~= before + Seq::<NodeV>::empty());
        }
        i += 1;
    }
    assert(seq_views(nodes@).take(nodes@.len() as int) == seq_views(nodes@));
    out
}

/// Whether `a` comes before `b` in code-point lexicographic order.
pub fn lex_less(a: &Vec<char>, b: &Vec<char>) -> (r: bool)
    ensures
        r == lex_lt(a@, b@),
{
    let mut i: usize = 0;
    assert(a@.skip(0) == a@ && b@.skip(0) == b@);
    while i < a.len() && i < b.len()
        invariant
            i <= a@.len(),
            i <= b@.len(),
            lex_lt(a@, b@) == lex_lt(a@.skip(i as int), b@.skip(i as int)),
        decreases a@.len() - i,
    {
        let x = a[i];
        let y = b[i];
        assert(a@.skip(i as int)[0] == x && b@.skip(i as int)[0] == y);
        if x != y {
            return (x as u32) < (y as u32);
        }
        assert(a@.skip(i as int).drop_first() == a@.skip(i + 1));
        assert(b@.skip(i as int).drop_first() == b@.skip(i + 1));
        i += 1;
    }
    i >= a.len() && i < b.len()
}

fn sort_nodes_by_name(v: Vec<NodeEntry>) -> (out: Vec<NodeEntry>)
    ensures
        node_views(out@) == sort_by_lt(node_views(v@), by_name()),
{
    let ghost orig = v@;
    let mut out: Vec<NodeEntry> = Vec::new();
    for x in it: v
        invariant
            it.seq() == orig,
            node_views(out@) == sort_by_lt(node_views(orig.take(it.index() as int)), by_name()),
    {
        let ghost idx = it.index() as int;
        let mut i: usize = 0;
        while i < out.len() && !lex_less(&x.name, &out[i].name)
            invariant
                i <= out@.len(),
                forall|j: int| 0 <= j < i ==> !(by_name())(x.view(), #[trigger] node_views(out@)[j]),
            decreases out@.len() - i,
        {
            assert(node_views(out@)[i as int] == out@[i as int].view());
            i += 1;
        }
        proof {
            if i < out@.len() {
                assert(node_views(out@)[i as int] == out@[i as int].view());
            }
            lemma_insert_by_at(node_views(out@), x.view(), by_name(), i as int);
            assert(node_views(orig.take(idx + 1)) =~= node_views(orig.take(idx)).push(x.view()));
            assert(node_views(orig.take(idx + 1)).drop_last() == node_views(orig.take(idx)));
            assert(node_views(orig.take(idx + 1)).last() == x.view());
        }
        let ghost s = node_views(out@);
        out.insert(i, x);
        assert(node_views(out@) =~= s.insert(i as int, x.view()));
    }
    assert(orig.take(orig.len() as int) == orig);
    out
}

fn sort_nodes_by_count(v: Vec<NodeEntry>) -> (out: Vec<NodeEntry>)
    ensures
        node_views(out@) == sort_by_lt(node_views(v@), by_count()),
{
    let ghost orig = v@;
    let mut out: Vec<NodeEntry> = Vec::new();
    for x in it: v
        invariant
            it.seq() == orig,
            node_views(out@) == sort_by_lt(node_views(orig.take(it.index() as int)), by_count()),
    {
        let ghost idx = it.index() as int;
        let mut i: usize = 0;
        while i < out.len() && !(x.count > out[i].count)
            invariant
                i <= out@.len(),
                forall|j: int| 0 <= j < i ==> !(by_count())(x.view(), #[trigger] node_views(out@)[j]),
            decreases out@.len() - i,
        {
            assert(node_views(out@)[i as int] == out@[i as int].view());
            i += 1;
        }
        proof {
            if i < out@.len() {
                assert(node_views(out@)[i as int] == out@[i as int].view());
            }
            lemma_insert_by_at(node_views(out@), x.view(), by_count(), i as int);
            assert(node_views(orig.take(idx + 1)) =~= node_views(orig.take(idx)).push(x.view()));
            assert(node_views(orig.take(idx + 1)).drop_last() == node_views(orig.take(idx)));
            assert(node_views(orig.take(idx + 1)).last() == x.view());
        }
        let ghost s = node_views(out@);
        out.insert(i, x);
        assert(node_views(out@) =~= s.insert(i as int, x.view()));
    }
    assert(orig.take(orig.len() as int) == orig);
    out
}

fn sort_files_by_count(v: Vec<FileEntry>) -> (out: Vec<FileEntry>)
    ensures
        file_views(out@) == sort_by_lt(file_views(v@), by_file_count()),
{
    let ghost orig = v@;
    let mut out: Vec<FileEntry> = Vec::new();
    for x in it: v
        invariant
            it.seq() == orig,
            file_views(out@) == sort_by_lt(file_views(orig.take(it.index() as int)), by_file_count()),
    {
        let ghost idx = it.index() as int;
        let mut i: usize = 0;
        while i < out.len() && !(x.count > out[i].count)
            invariant
                i <= out@.len(),
                forall|j: int| 0 <= j < i ==> !(by_file_count())(x.view(), #[trigger] file_views(out@)[j]),
            decreases out@.len() - i,
        {
            assert(file_views(out@)[i as int] == out@[i as int].view());
            i += 1;
        }
        proof {
            if i < out@.len() {
                assert(file_views(out@)[i as int] == out@[i as int].view());
            }
            lemma_insert_by_at(file_views(out@), x.view(), by_file_count(), i as int);
            assert(file_views(orig.take(idx + 1)) =~= file_views(orig.take(idx)).push(x.view()));
            assert(file_views(orig.take(idx + 1)).drop_last() == file_views(orig.take(idx)));
            assert(file_views(orig.take(idx + 1)).last() == x.view());
        }
        let ghost s = file_views(out@);
        out.insert(i, x);
        assert(file_views(out@) =~= s.insert(i as int, x.view()));
    }
    assert(orig.take(orig.len() as int) == orig);
    out
}

fn attach_point_exec(nodes: &Vec<Vec<char>>, p: &Vec<char>) -> (r: Option<Vec<char>>)
    ensures
        opt_chars(r) == attach_point(seq_views(nodes@), p@),
{
    let d = match parent_of(p) {
        Some(d) => d,
        None => Vec::new(),
    };
    assert(d@ == file_dir(p@));
    if d.len() == 0 {
        return None;
    }
    let ps = cut_prefixes_of(&d);
    let ghost psv = seq_views(ps@);
    let ghost nv = seq_views(nodes@);
    let mut r: usize = 0;
    assert(psv.skip(0) == psv);
    while r < ps.len() && contains_seq(nodes, &ps[r])
        invariant
            r <= ps@.len(),
            psv == seq_views(ps@),
            nv == seq_views(nodes@),
            run_len(psv, nv) == r + run_len(psv.skip(r as int), nv),
        decreases ps@.len() - r,
    {
        assert(psv.skip(r as int)[0] == ps@[r as int]@);
        assert(psv.skip(r as int).drop_first() == psv.skip(r + 1));
        r += 1;
    }
    if r < ps.len() {
        assert(psv.skip(r as int)[0] == ps@[r as int]@);
    } else {
        assert(psv.skip(r as int).len() == 0);
    }
    if r == 0 {
        None
    } else {
        assert(psv[r - 1] == ps@[r - 1]@);
        Some(ps[r - 1].clone())
    }
}

fn file_entry(e: &(String, usize)) -> (f: FileEntry)
    ensures
        f.view() == file_v((e.0@, e.1 as nat)),
{
    let path = chars_of(e.0.as_str());
    let name = match file_name_of(&path) {
        Some(x) => x,
        None => path.clone(),
    };
    FileEntry { name, path, count: e.1 }
}

/// The files hanging below `n`, in input order.
fn files_at_exec(
    nodes: &Vec<Vec<char>>,
    files: &Vec<(String, usize)>,
    attach: &Vec<Option<Vec<char>>>,
    n: &Vec<char>,
) -> (out: Vec<FileEntry>)
    requires
        attach@.len() == files@.len(),
        forall|i: int|
            0 <= i < files@.len() ==> opt_chars(#[trigger] attach@[i]) == attach_point(
                seq_views(nodes@),
                files@[i].0@,
            ),
    ensures
        file_views(out@) == files_at(seq_views(nodes@), pair_views(files@), n@),
{
    let mut out: Vec<FileEntry> = Vec::new();
    let mut i: usize = 0;
    while i < files.len()
        invariant
            i <= files@.len(),
            attach@.len() == files@.len(),
            forall|i: int|
                0 <= i < files@.len() ==> opt_chars(#[trigger] attach@[i]) == attach_point(
                    seq_views(nodes@),
                    files@[i].0@,
                ),
            file_views(out@) == files_at(seq_views(nodes@), pair_views(files@).take(i as int), n@),
        decreases files@.len() - i,
    {
        let ghost before = file_views(out@);
        let ghost pre = pair_views(files@).take(i + 1);
        assert(pre.drop_last() == pair_views(files@).take(i as int));
        assert(pre.last() == (files@[i as int].0@, files@[i as int].1 as nat));
        let hit = match &attach[i] {
            Some(a) => chars_eq(a.as_slice(), n.as_slice()),
            None => false,
        };
        assert(opt_chars(attach@[i as int]) == attach_point(seq_views(nodes@), files@[i as int].0@));
        if hit {
            let f = file_entry(&files[i]);
            out.push(f);
            assert(file_views(out@) =~= before + seq![file_v((files@[i as int].0@, files@[i as int].1 as nat))]);
        } else {
            assert(before =~= before + Seq::<FileV>::empty());
        }
        i += 1;
    }
    assert(pair_views(files@).take(files@.len() as int) == pair_views(files@));
    out
}

fn emit_files(fs: &Vec<FileEntry>, depth: usize, rows: &mut Vec<DirTreeRow>)
    ensures
        row_views(final(rows)@) == row_views(old(rows)@) + file_rows(file_views(fs@), depth as nat),
{
    let ghost base = row_views(rows@);
    let mut i: usize = 0;
    assert(file_views(fs@).take(0) =~= Seq::<FileV>::empty());
    assert(base + file_rows(Seq::<FileV>::empty(), depth as nat) =~= base);
    while i < fs.len()
        invariant
            i <= fs@.len(),
            row_views(rows@) == base + file_rows(file_views(fs@).take(i as int), depth as nat),
        decreases fs@.len() - i,
    {
        let f = &fs[i];
        let ghost before = row_views(rows@);
        rows.push(
            DirTreeRow {
                depth,
                name: string_from_chars(f.name.as_slice()),
                full_path: string_from_chars(f.path.as_slice()),
                count: f.count,
                has_children: false,
                expanded: false,
                is_file: true,
            },
        );
        let ghost fv = file_views(fs@);
        assert(fv.take(i + 1).drop_last() == fv.take(i as int));
        assert(fv.take(i + 1).last() == fs@[i as int].view());
        assert(row_views(rows@) =~= before.push(file_row(fs@[i as int].view(), depth as nat)));
        i += 1;
    }
    assert(file_views(fs@).take(fs@.len() as int) == file_views(fs@));
}

fn emit_node(
    nodes: &Vec<Vec<char>>,
    dirs: &CountMap,
    files: &Vec<(String, usize)>,
    attach: &Vec<Option<Vec<char>>>,
    expanded: &StringSet,
    n: &NodeEntry,
    depth: usize,
    fuel: usize,
    rows: &mut Vec<DirTreeRow>,
)
    requires
        dirs.wf(),
        depth + fuel <= usize::MAX,
        attach@.len() == files@.len(),
        forall|i: int|
            0 <= i < files@.len() ==> opt_chars(#[trigger] attach@[i]) == attach_point(
                seq_views(nodes@),
                files@[i].0@,
            ),
    ensures
        row_views(final(rows)@) == row_views(old(rows)@) + node_rows(
            seq_views(nodes@),
            *dirs,
            pair_views(files@),
            expanded.members(),
            n.view(),
            depth as nat,
            fuel as nat,
        ),
    decreases fuel, 0usize,
{
    if fuel == 0 {
        assert(row_views(rows@) =~= row_views(rows@) + Seq::<RowView>::empty());
        return ;
    }
    let ch = sort_nodes_by_count(sort_nodes_by_name(child_nodes_exec(nodes, dirs, &n.path)));
    let fs = sort_files_by_count(files_at_exec(nodes, files, attach, &n.path));
    let path_s = string_from_chars(n.path.as_slice());
    let exp = expanded.contains(path_s.as_str());
    let ghost before = row_views(rows@);
    rows.push(
        DirTreeRow {
            depth,
            name: string_from_chars(n.name.as_slice()),
            full_path: path_s,
            count: n.count,
            has_children: ch.len() > 0 || fs.len() > 0,
            expanded: exp,
            is_file: false,
        },
    );
    let ghost with_row = row_views(rows@);
    assert(with_row =~= before + seq![rows@.last().view()]);
    if exp {
        emit_list(nodes, dirs, files, attach, expanded, &ch, 0, depth + 1, fuel - 1, rows);
        assert(node_views(ch@).skip(0) == node_views(ch@));
        emit_files(&fs, depth + 1, rows);
        assert(row_views(rows@) =~= before + (seq![with_row.last()] + list_rows(
            seq_views(nodes@),
            *dirs,
            pair_views(files@),
            expanded.members(),
            node_views(ch@),
            (depth + 1) as nat,
            (fuel - 1) as nat,
        ) + file_rows(file_views(fs@), (depth + 1) as nat)));
    }
}

fn emit_list(
    nodes: &Vec<Vec<char>>,
    dirs: &CountMap,
    files: &Vec<(String, usize)>,
    attach: &Vec<Option<Vec<char>>>,
    expanded: &StringSet,
    cs: &Vec<NodeEntry>,
    from: usize,
    depth: usize,
    fuel: usize,
    rows: &mut Vec<DirTreeRow>,
)
    requires
        dirs.wf(),
        from <= cs@.len(),
        depth + fuel <= usize::MAX,
        attach@.len() == files@.len(),
        forall|i: int|
            0 <= i < files@.len() ==> opt_chars(#[trigger] attach@[i]) == attach_point(
                seq_views(nodes@),
                files@[i].0@,
            ),
    ensures
        row_views(final(rows)@) == row_views(old(rows)@) + list_rows(
            seq_views(nodes@),
            *dirs,
            pair_views(files@),
            expanded.members(),
            node_views(cs@).skip(from as int),
            depth as nat,
            fuel as nat,
        ),
    decreases fuel, cs@.len() - from,
{
    if from >= cs.len() {
        assert(node_views(cs@).skip(from as int).len() == 0);
        assert(row_views(rows@) =~= row_views(rows@) + Seq::<RowView>::empty());
        return ;
    }
    let ghost before = row_views(rows@);
    emit_node(nodes, dirs, files, attach, expanded, &cs[from], depth, fuel, rows);
    let ghost mid = row_views(rows@);
    emit_list(nodes, dirs, files, attach, expanded, cs, from + 1, depth, fuel, rows);
    let ghost rest = node_views(cs@).skip(from as int);
    assert(rest[0] == cs@[from as int].view());
    assert(rest.drop_first() == node_views(cs@).skip(from + 1));
    assert(row_views(rows@) =~= before + list_rows(
        seq_views(nodes@),
        *dirs,
        pair_views(files@),
        expanded.members(),
        rest,
        depth as nat,
        fuel as nat,
    ));
}

/// Build the tree from directory counts and file counts, then flatten it into the
/// rows visible when exactly the directories in `expanded` are expanded.
pub fn build_dir_tree(
    dir_counts: &CountMap,
    file_entries: &Vec<(String, usize)>,
    expanded: &StringSet,
) -> (rows: Vec<DirTreeRow>)
    requires
        dir_counts.wf(),
    ensures
        row_views(rows@) == tree_rows(*dir_counts, pair_views(file_entries@), expanded.members()),
{
    if dir_counts.is_empty() && file_entries.len() == 0 {
        let rows: Vec<DirTreeRow> = Vec::new();
        assert(row_views(rows@) =~= Seq::<RowView>::empty());
        return rows;
    }
    let nodes = collect_nodes(dir_counts);
    let mut attach: Vec<Option<Vec<char>>> = Vec::new();
    let mut i: usize = 0;
    while i < file_entries.len()
        invariant
            i <= file_entries@.len(),
            attach@.len() == i,
            forall|j: int|
                0 <= j < i ==> opt_chars(#[trigger] attach@[j]) == attach_point(
                    seq_views(nodes@),
                    file_entries@[j].0@,
                ),
        decreases file_entries@.len() - i,
    {
        let p = chars_of(file_entries[i].0.as_str());
        attach.push(attach_point_exec(&nodes, &p));
        i += 1;
    }
    let roots = sort_nodes_by_name(root_nodes_exec(&nodes, dir_counts));
    let mut rows: Vec<DirTreeRow> = Vec::new();
    emit_list(
        &nodes,
        dir_counts,
        file_entries,
        &attach,
        expanded,
        &roots,
        0,
        0,
        nodes.len(),
        &mut rows,
    );
    assert(node_views(roots@).skip(0) == node_views(roots@));
    assert(row_views(rows@) =~= Seq::<RowView>::empty() + row_views(rows@));
    rows
}

// ---------------------------------------------------------------------------
// What holds of every tree
// ---------------------------------------------------------------------------

proof fn lemma_collapsed_list(
    nodes: Seq<Seq<char>>,
    dirs: CountMap,
    files: Seq<(Seq<char>, nat)>,
    cs: Seq<NodeV>,
    depth: nat,
    fuel: nat,
)
    requires
        fuel > 0,
    ensures
        list_rows(nodes, dirs, files, Set::empty(), cs, depth, fuel).len() == cs.len(),
        forall|i: int|
            0 <= i < cs.len() ==> {
                let r = #[trigger] list_rows(nodes, dirs, files, Set::empty(), cs, depth, fuel)[i];
                &&& r.depth == depth
                &&& r.full_path == cs[i].path
                &&& r.name == cs[i].name
                &&& r.count == cs[i].count
                &&& !r.expanded
                &&& !r.is_file
            },
    decreases cs.len(),
{
    if cs.len() > 0 {
        lemma_collapsed_list(nodes, dirs, files, cs.drop_first(), depth, fuel);
        let rest = list_rows(nodes, dirs, files, Set::empty(), cs.drop_first(), depth, fuel);
        let head = node_rows(nodes, dirs, files, Set::empty(), cs[0], depth, fuel);
        assert(head.len() == 1);
        let all = list_rows(nodes, dirs, files, Set::empty(), cs, depth, fuel);
        assert(all == head + rest);
        assert forall|i: int| 0 <= i < cs.len() implies {
            let r = #[trigger] all[i];
            &&& r.depth == depth
            &&& r.full_path == cs[i].path
            &&& r.name == cs[i].name
            &&& r.count == cs[i].count
            &&& !r.expanded
            &&& !r.is_file
        } by {
            if i > 0 {
                assert(all[i] == rest[i - 1]);
                assert(cs.drop_first()[i - 1] == cs[i]);
            }
        }
    }
}

proof fn lemma_roots_le(nodes: Seq<Seq<char>>, dirs: CountMap)
    ensures
        root_nodes(nodes, dirs).len() <= nodes.len(),
    decreases nodes.len(),
{
    if nodes.len() > 0 {
        lemma_roots_le(nodes.drop_last(), dirs);
    }
}

/// With nothing expanded, the tree shows exactly the top-level directories, one row
/// each, in name order, none of them expanded.
pub proof fn lemma_collapsed_tree(dirs: CountMap, files: Seq<(Seq<char>, nat)>)
    requires
        dirs.size() > 0 || files.len() > 0,
    ensures
        tree_rows(dirs, files, Set::empty()).len() == sorted_roots(tree_nodes(dirs), dirs).len(),
        forall|i: int|
            0 <= i < tree_rows(dirs, files, Set::empty()).len() ==> {
                let r = #[trigger] tree_rows(dirs, files, Set::empty())[i];
                let n = sorted_roots(tree_nodes(dirs), dirs)[i];
                &&& r.depth == 0
                &&& r.full_path == n.path
                &&& r.name == n.name
                &&& r.count == n.count
                &&& !r.expanded
                &&& !r.is_file
            },
{
    let nodes = tree_nodes(dirs);
    let roots = sorted_roots(nodes, dirs);
    lemma_roots_le(nodes, dirs);
    lemma_sort_by_lt_len(root_nodes(nodes, dirs), by_name());
    if nodes.len() > 0 {
        lemma_collapsed_list(nodes, dirs, files, roots, 0, nodes.len());
    } else {
        assert(roots.len() == 0);
        assert(list_rows(nodes, dirs, files, Set::empty(), roots, 0, 0).len() == 0);
    }
}

/// The first index of `c` in `s`, when `s` holds one.
proof fn first_index(s: Seq<char>, c: char) -> (j: int)
    requires
        s.contains(c),
    ensures
        0 <= j < s.len(),
        s[j] == c,
        forall|i: int| 0 <= i < j ==> s[i] != c,
    decreases s.len(),
{
    if s.drop_last().contains(c) {
        let j = first_index(s.drop_last(), c);
        assert(s[j] == s.drop_last()[j]);
        assert forall|i: int| 0 <= i < j implies s[i] != c by {
            assert(s[i] == s.drop_last()[i]);
        }
        j
    } else {
        let w = choose|i: int| 0 <= i < s.len() && s[i] == c;
        if w < s.len() - 1 {
            assert(s.drop_last()[w] == c);
        }
        assert forall|i: int| 0 <= i < s.len() - 1 implies s[i] != c by {
            if s[i] == c {
                assert(s.drop_last()[i] == c);
            }
        }
        s.len() - 1
    }
}

proof fn lemma_upto_has_prefix(k: Seq<char>, j: int, m: int)
    requires
        0 <= j < m <= k.len(),
        k[j] == '/',
    ensures
        cut_prefixes_upto(k, m).contains(k.take(j)),
    decreases m,
{
    let prev = cut_prefixes_upto(k, m - 1);
    let last = if k[m - 1] == '/' { seq![k.take(m - 1)] } else { Seq::<Seq<char>>::empty() };
    assert(cut_prefixes_upto(k, m) == prev + last);
    if m - 1 == j {
        assert((prev + last)[prev.len() as int] == k.take(j));
    } else {
        lemma_upto_has_prefix(k, j, m - 1);
        let i = choose|i: int| 0 <= i < prev.len() && prev[i] == k.take(j);
        assert((prev + last)[i] == k.take(j));
    }
}

/// Every key has a root among its directory prefixes.
proof fn lemma_prefixes_have_root(k: Seq<char>) -> (r: Seq<char>)
    ensures
        cut_prefixes(k).contains(r),
        is_root(r),
{
    let ps = cut_prefixes(k);
    if k.contains('/') {
        let j = first_index(k, '/');
        lemma_upto_has_prefix(k, j, k.len() as int);
        let i = choose|i: int| 0 <= i < cut_prefixes_upto(k, k.len() as int).len()
            && cut_prefixes_upto(k, k.len() as int)[i] == k.take(j);
        assert(ps[i] == k.take(j));
        assert(!k.take(j).contains('/')) by {
            if k.take(j).contains('/') {
                let w = choose|w: int| 0 <= w < j && k.take(j)[w] == '/';
                assert(k[w] == '/');
            }
        }
        k.take(j)
    } else {
        assert(ps[ps.len() - 1] == k);
        k
    }
}

proof fn lemma_add_all_contains(list: Seq<Seq<char>>, xs: Seq<Seq<char>>, x: Seq<char>)
    requires
        list.contains(x) || xs.contains(x),
    ensures
        add_all(list, xs).contains(x),
    decreases xs.len(),
{
    if xs.len() > 0 {
        let prev = add_all(list, xs.drop_last());
        if list.contains(x) || xs.drop_last().contains(x) {
            lemma_add_all_contains(list, xs.drop_last(), x);
        } else {
            assert(xs.last() == x) by {
                let i = choose|i: int| 0 <= i < xs.len() && xs[i] == x;
                if i < xs.len() - 1 {
                    assert(xs.drop_last()[i] == x);
                }
            }
        }
        if !prev.contains(xs.last()) {
            if prev.contains(x) {
                let w = choose|w: int| 0 <= w < prev.len() && prev[w] == x;
                assert(prev.push(xs.last())[w] == x);
            } else {
                assert(prev.push(xs.last())[prev.len() as int] == x);
            }
        }
    }
}

proof fn lemma_roots_found(nodes: Seq<Seq<char>>, dirs: CountMap, x: Seq<char>)
    requires
        nodes.contains(x),
        is_root(x),
    ensures
        root_nodes(nodes, dirs).len() > 0,
    decreases nodes.len(),
{
    if nodes.last() != x {
        let i = choose|i: int| 0 <= i < nodes.len() && nodes[i] == x;
        assert(nodes.drop_last()[i] == x);
        lemma_roots_found(nodes.drop_last(), dirs, x);
    }
}

/// The tree shows no row exactly when there are no directory counts: file entries
/// alone never make a row, whatever is expanded.
pub proof fn lemma_tree_empty(dirs: CountMap, files: Seq<(Seq<char>, nat)>, expanded: Set<Seq<char>>)
    requires
        dirs.wf(),
    ensures
        tree_rows(dirs, files, expanded).len() == 0 <==> dirs.size() == 0,
{
    dirs.lemma_entries();
    let keys = key_seq(dirs.entry_seq());
    let nodes = tree_nodes(dirs);
    let roots = sorted_roots(nodes, dirs);
    lemma_sort_by_lt_len(root_nodes(nodes, dirs), by_name());
    if dirs.size() == 0 {
        assert(keys.len() == 0);
        assert(nodes.len() == 0);
        assert(root_nodes(nodes, dirs).len() == 0);
        assert(roots.len() == 0);
    } else {
        assert(keys.len() > 0);
        let k = keys.last();
        let r = lemma_prefixes_have_root(k);
        lemma_add_all_contains(node_list(keys.drop_last()), cut_prefixes(k), r);
        assert(nodes.contains(r));
        lemma_roots_found(nodes, dirs, r);
        assert(roots.len() > 0);
        let rows = list_rows(nodes, dirs, files, expanded, roots, 0, nodes.len());
        let head = node_rows(nodes, dirs, files, expanded, roots[0], 0, nodes.len());
        assert(rows == head + list_rows(nodes, dirs, files, expanded, roots.drop_first(), 0, nodes.len()));
        assert(head.len() > 0);
    }
}

/// The directories above `p` in the tree, outermost first: the text before each of
/// its `/`.
pub open spec fn dirs_above(p: Seq<char>) -> Seq<Seq<char>> {
    cut_prefixes_upto(p, p.len() as int)
}

/// Every directory above `p` is expanded.
pub open spec fn opened_to(expanded: Set<Seq<char>>, p: Seq<char>) -> bool {
    forall|i: int| 0 <= i < dirs_above(p).len() ==> expanded.contains(#[trigger] dirs_above(p)[i])
}

/// Node `n` belongs at `depth`: it is a node of the tree, listed with its name and
/// count, `depth` directories lie above it, and all of them are expanded.
pub open spec fn node_in_place(
    nodes: Seq<Seq<char>>,
    dirs: CountMap,
    expanded: Set<Seq<char>>,
    n: NodeV,
    depth: nat,
) -> bool {
    &&& nodes.contains(n.path)
    &&& n == node_v(dirs, n.path)
    &&& dirs_above(n.path).len() == depth
    &&& opened_to(expanded, n.path)
}

/// What every row of the tree satisfies. A directory row shows a node of the tree
/// with its name, count and expand state, at the depth of the number of
/// directories above it, all of them expanded. A file row shows one of the file
/// entries, one level below the node that entry hangs under, which is expanded and
/// has every directory above it expanded.
pub open spec fn row_in_place(
    nodes: Seq<Seq<char>>,
    dirs: CountMap,
    files: Seq<(Seq<char>, nat)>,
    expanded: Set<Seq<char>>,
    r: RowView,
) -> bool {
    if r.is_file {
        exists|i: int|
            0 <= i < files.len() && (#[trigger] attach_point(nodes, files[i].0)) is Some && {
                let a = attach_point(nodes, files[i].0)->0;
                &&& nodes.contains(a)
                &&& expanded.contains(a)
                &&& opened_to(expanded, a)
                &&& r == file_row(file_v(files[i]), dirs_above(a).len() + 1)
            }
    } else {
        &&& nodes.contains(r.full_path)
        &&& opened_to(expanded, r.full_path)
        &&& r.depth == dirs_above(r.full_path).len()
        &&& r.name == seg_name(r.full_path)
        &&& r.count == dirs.count(r.full_path)
        &&& r.expanded == expanded.contains(r.full_path)
    }
}

proof fn lemma_upto_same(m: Seq<char>, n: Seq<char>, j: int)
    requires
        0 <= j <= n.len() <= m.len(),
        m.take(n.len() as int) == n,
    ensures
        cut_prefixes_upto(m, j) == cut_prefixes_upto(n, j),
    decreases j,
{
    if j > 0 {
        lemma_upto_same(m, n, j - 1);
        assert(m[j - 1] == m.take(n.len() as int)[j - 1]);
        assert(m.take(j - 1) == n.take(j - 1)) by {
            assert(m.take(j - 1) =~= m.take(n.len() as int).take(j - 1));
        }
    }
}

proof fn lemma_upto_no_slash(m: Seq<char>, from: int, j: int)
    requires
        0 <= from <= j <= m.len(),
        forall|i: int| from <= i < m.len() ==> m[i] != '/',
    ensures
        cut_prefixes_upto(m, j) == cut_prefixes_upto(m, from),
    decreases j,
{
    if j > from {
        lemma_upto_no_slash(m, from, j - 1);
    }
}

/// The directories above a child are those above its parent, then the parent.
proof fn lemma_child_above(n: Seq<char>, m: Seq<char>)
    requires
        is_child(n, m),
    ensures
        dirs_above(m) == dirs_above(n).push(n),
{
    let l = n.len() as int;
    lemma_upto_same(m, n, l);
    assert forall|i: int| l + 1 <= i < m.len() implies m[i] != '/' by {
        assert(m.skip(l + 1)[i - l - 1] == m[i]);
    }
    lemma_upto_no_slash(m, l + 1, m.len() as int);
    assert(cut_prefixes_upto(m, l + 1) == cut_prefixes_upto(m, l) + seq![m.take(l)]);
}

/// No directory lies above a root.
proof fn lemma_root_above(m: Seq<char>)
    requires
        is_root(m),
    ensures
        dirs_above(m).len() == 0,
{
    assert forall|i: int| 0 <= i < m.len() implies m[i] != '/' by {
        if m[i] == '/' {
            assert(m.contains('/'));
        }
    }
    lemma_upto_no_slash(m, 0, m.len() as int);
}

proof fn lemma_child_nodes_are(nodes: Seq<Seq<char>>, dirs: CountMap, n: Seq<char>)
    ensures
        forall|i: int|
            0 <= i < child_nodes(nodes, dirs, n).len() ==> {
                let c = #[trigger] child_nodes(nodes, dirs, n)[i];
                &&& is_child(n, c.path)
                &&& nodes.contains(c.path)
                &&& c == node_v(dirs, c.path)
            },
    decreases nodes.len(),
{
    if nodes.len() > 0 {
        let prev = nodes.drop_last();
        lemma_child_nodes_are(prev, dirs, n);
        let cs = child_nodes(nodes, dirs, n);
        let pc = child_nodes(prev, dirs, n);
        assert forall|i: int| 0 <= i < cs.len() implies {
            let c = #[trigger] cs[i];
            &&& is_child(n, c.path)
            &&& nodes.contains(c.path)
            &&& c == node_v(dirs, c.path)
        } by {
            if i < pc.len() {
                assert(cs[i] == pc[i]);
                let w = choose|w: int| 0 <= w < prev.len() && prev[w] == cs[i].path;
                assert(nodes[w] == prev[w]);
            } else {
                assert(cs[i] == node_v(dirs, nodes.last()));
                assert(nodes[nodes.len() - 1] == nodes.last());
            }
        }
    }
}

proof fn lemma_root_nodes_are(nodes: Seq<Seq<char>>, dirs: CountMap)
    ensures
        forall|i: int|
            0 <= i < root_nodes(nodes, dirs).len() ==> {
                let c = #[trigger] root_nodes(nodes, dirs)[i];
                &&& is_root(c.path)
                &&& nodes.contains(c.path)
                &&& c == node_v(dirs, c.path)
            },
    decreases nodes.len(),
{
    if nodes.len() > 0 {
        let prev = nodes.drop_last();
        lemma_root_nodes_are(prev, dirs);
        let cs = root_nodes(nodes, dirs);
        let pc = root_nodes(prev, dirs);
        assert forall|i: int| 0 <= i < cs.len() implies {
            let c = #[trigger] cs[i];
            &&& is_root(c.path)
            &&& nodes.contains(c.path)
            &&& c == node_v(dirs, c.path)
        } by {
            if i < pc.len() {
                assert(cs[i] == pc[i]);
                let w = choose|w: int| 0 <= w < prev.len() && prev[w] == cs[i].path;
                assert(nodes[w] == prev[w]);
            } else {
                assert(cs[i] == node_v(dirs, nodes.last()));
                assert(nodes[nodes.len() - 1] == nodes.last());
            }
        }
    }
}

/// The file entries that hang under `n`, each one of the given entries.
pub open spec fn hangs_under(
    nodes: Seq<Seq<char>>,
    files: Seq<(Seq<char>, nat)>,
    n: Seq<char>,
    f: FileV,
) -> bool {
    exists|i: int|
        0 <= i < files.len() && #[trigger] attach_point(nodes, files[i].0) == Some(n) && f
            == file_v(files[i])
}

proof fn lemma_files_at_are(nodes: Seq<Seq<char>>, files: Seq<(Seq<char>, nat)>, n: Seq<char>)
    ensures
        forall|k: int|
            0 <= k < files_at(nodes, files, n).len() ==> hangs_under(
                nodes,
                files,
                n,
                #[trigger] files_at(nodes, files, n)[k],
            ),
    decreases files.len(),
{
    if files.len() > 0 {
        let prev = files.drop_last();
        lemma_files_at_are(nodes, prev, n);
        let fs = files_at(nodes, files, n);
        let pf = files_at(nodes, prev, n);
        assert forall|k: int| 0 <= k < fs.len() implies hangs_under(
            nodes,
            files,
            n,
            #[trigger] fs[k],
        ) by {
            if k < pf.len() {
                assert(fs[k] == pf[k]);
                let i = choose|i: int|
                    0 <= i < prev.len() && #[trigger] attach_point(nodes, prev[i].0) == Some(n)
                        && pf[k] == file_v(prev[i]);
                assert(files[i] == prev[i]);
                assert(attach_point(nodes, files[i].0) == Some(n));
            } else {
                let i = files.len() - 1;
                assert(files[i] == files.last());
                assert(attach_point(nodes, files[i].0) == Some(n));
            }
        }
    }
}

proof fn lemma_file_rows_are(fs: Seq<FileV>, depth: nat)
    ensures
        file_rows(fs, depth).len() == fs.len(),
        forall|k: int| 0 <= k < fs.len() ==> #[trigger] file_rows(fs, depth)[k] == file_row(fs[k], depth),
    decreases fs.len(),
{
    if fs.len() > 0 {
        lemma_file_rows_are(fs.drop_last(), depth);
        assert forall|k: int| 0 <= k < fs.len() implies #[trigger] file_rows(fs, depth)[k] == file_row(
            fs[k],
            depth,
        ) by {
            if k < fs.len() - 1 {
                assert(fs.drop_last()[k] == fs[k]);
            }
        }
    }
}

proof fn lemma_node_rows_in_place(
    nodes: Seq<Seq<char>>,
    dirs: CountMap,
    files: Seq<(Seq<char>, nat)>,
    expanded: Set<Seq<char>>,
    n: NodeV,
    depth: nat,
    fuel: nat,
)
    requires
        node_in_place(nodes, dirs, expanded, n, depth),
    ensures
        forall|i: int|
            0 <= i < node_rows(nodes, dirs, files, expanded, n, depth, fuel).len() ==> row_in_place(
                nodes,
                dirs,
                files,
                expanded,
                #[trigger] node_rows(nodes, dirs, files, expanded, n, depth, fuel)[i],
            ),
    decreases fuel, 0nat,
{
    if fuel > 0 {
        let rows = node_rows(nodes, dirs, files, expanded, n, depth, fuel);
        if expanded.contains(n.path) {
            let ch = sorted_children(nodes, dirs, n.path);
            let fs = sorted_files(nodes, files, n.path);
            let p = |c: NodeV| node_in_place(nodes, dirs, expanded, c, depth + 1);
            lemma_child_nodes_are(nodes, dirs, n.path);
            let raw = child_nodes(nodes, dirs, n.path);
            assert forall|i: int| 0 <= i < raw.len() implies p(#[trigger] raw[i]) by {
                lemma_child_above(n.path, raw[i].path);
                let up = dirs_above(raw[i].path);
                assert(up == dirs_above(n.path).push(n.path));
                assert forall|j: int| 0 <= j < up.len() implies expanded.contains(#[trigger] up[j]) by {
                    if j < dirs_above(n.path).len() {
                        assert(up[j] == dirs_above(n.path)[j]);
                    }
                }
            }
            lemma_sort_by_lt_keeps(raw, by_name(), p);
            lemma_sort_by_lt_keeps(sort_by_lt(raw, by_name()), by_count(), p);
            lemma_list_rows_in_place(nodes, dirs, files, expanded, ch, depth + 1, (fuel - 1) as nat);
            let q = |f: FileV| hangs_under(nodes, files, n.path, f);
            lemma_files_at_are(nodes, files, n.path);
            lemma_sort_by_lt_keeps(files_at(nodes, files, n.path), by_file_count(), q);
            lemma_file_rows_are(fs, depth + 1);
            let head = seq![rows[0]];
            let mid = list_rows(nodes, dirs, files, expanded, ch, depth + 1, (fuel - 1) as nat);
            let tail = file_rows(fs, depth + 1);
            assert(rows == head + mid + tail);
            assert forall|i: int| 0 <= i < rows.len() implies row_in_place(
                nodes,
                dirs,
                files,
                expanded,
                #[trigger] rows[i],
            ) by {
                if i >= 1 + mid.len() {
                    let k = i - 1 - mid.len();
                    assert(rows[i] == tail[k]);
                    assert(q(fs[k]));
                    let w = choose|w: int|
                        0 <= w < files.len() && #[trigger] attach_point(nodes, files[w].0) == Some(
                            n.path,
                        ) && fs[k] == file_v(files[w]);
                    assert(attach_point(nodes, files[w].0)->0 == n.path);
                    assert(rows[i] == file_row(file_v(files[w]), dirs_above(n.path).len() + 1));
                } else if i >= 1 {
                    assert(rows[i] == mid[i - 1]);
                }
            }
        }
    }
}

proof fn lemma_list_rows_in_place(
    nodes: Seq<Seq<char>>,
    dirs: CountMap,
    files: Seq<(Seq<char>, nat)>,
    expanded: Set<Seq<char>>,
    cs: Seq<NodeV>,
    depth: nat,
    fuel: nat,
)
    requires
        forall|j: int| 0 <= j < cs.len() ==> node_in_place(nodes, dirs, expanded, #[trigger] cs[j], depth),
    ensures
        forall|i: int|
            0 <= i < list_rows(nodes, dirs, files, expanded, cs, depth, fuel).len() ==> row_in_place(
                nodes,
                dirs,
                files,
                expanded,
                #[trigger] list_rows(nodes, dirs, files, expanded, cs, depth, fuel)[i],
            ),
    decreases fuel, cs.len(),
{
    if cs.len() > 0 {
        assert(node_in_place(nodes, dirs, expanded, cs[0], depth));
        lemma_node_rows_in_place(nodes, dirs, files, expanded, cs[0], depth, fuel);
        let rest = cs.drop_first();
        assert forall|j: int| 0 <= j < rest.len() implies node_in_place(
            nodes,
            dirs,
            expanded,
            #[trigger] rest[j],
            depth,
        ) by {
            assert(rest[j] == cs[j + 1]);
        }
        lemma_list_rows_in_place(nodes, dirs, files, expanded, rest, depth, fuel);
        let a = node_rows(nodes, dirs, files, expanded, cs[0], depth, fuel);
        let b = list_rows(nodes, dirs, files, expanded, rest, depth, fuel);
        let all = list_rows(nodes, dirs, files, expanded, cs, depth, fuel);
        assert(all == a + b);
        assert forall|i: int| 0 <= i < all.len() implies row_in_place(
            nodes,
            dirs,
            files,
            expanded,
            #[trigger] all[i],
        ) by {
            if i < a.len() {
                assert(all[i] == a[i]);
            } else {
                assert(all[i] == b[i - a.len()]);
            }
        }
    }
}

/// Every row of the tree is in its place: a directory row shows a node of the tree
/// with its own name, count and expand state, at a depth equal to the number of
/// directories above it, all of which are expanded; a file row shows one of the
/// file entries, one level below the expanded node it hangs under, whose
/// directories above are all expanded too.
pub proof fn lemma_tree_rows_in_place(
    dirs: CountMap,
    files: Seq<(Seq<char>, nat)>,
    expanded: Set<Seq<char>>,
)
    ensures
        forall|i: int|
            0 <= i < tree_rows(dirs, files, expanded).len() ==> row_in_place(
                tree_nodes(dirs),
                dirs,
                files,
                expanded,
                #[trigger] tree_rows(dirs, files, expanded)[i],
            ),
{
    let nodes = tree_nodes(dirs);
    if !(dirs.size() == 0 && files.len() == 0) {
        let raw = root_nodes(nodes, dirs);
        let p = |c: NodeV| node_in_place(nodes, dirs, expanded, c, 0);
        lemma_root_nodes_are(nodes, dirs);
        assert forall|i: int| 0 <= i < raw.len() implies p(#[trigger] raw[i]) by {
            lemma_root_above(raw[i].path);
        }
        lemma_sort_by_lt_keeps(raw, by_name(), p);
        lemma_list_rows_in_place(nodes, dirs, files, expanded, sorted_roots(nodes, dirs), 0, nodes.len());
    }
}

proof fn lemma_upto_members(k: Seq<char>, m: int, x: Seq<char>)
    requires
        0 <= m <= k.len(),
        cut_prefixes_upto(k, m).contains(x),
    ensures
        exists|j: int| 0 <= j < m && k[j] == '/' && x == k.take(j),
    decreases m,
{
    if m == 0 {
        assert(cut_prefixes_upto(k, m) =~= Seq::<Seq<char>>::empty());
    } else {
        let prev = cut_prefixes_upto(k, m - 1);
        let last = if k[m - 1] == '/' {
            seq![k.take(m - 1)]
        } else {
            Seq::<Seq<char>>::empty()
        };
        let all = cut_prefixes_upto(k, m);
        assert(all == prev + last);
        let i = choose|i: int| 0 <= i < all.len() && all[i] == x;
        if i < prev.len() {
            assert(prev[i] == x);
            lemma_upto_members(k, m - 1, x);
        } else {
            assert(k[m - 1] == '/' && x == k.take(m - 1));
        }
    }
}

proof fn lemma_add_all_members(list: Seq<Seq<char>>, xs: Seq<Seq<char>>, x: Seq<char>)
    requires
        add_all(list, xs).contains(x),
    ensures
        list.contains(x) || xs.contains(x),
    decreases xs.len(),
{
    if xs.len() > 0 {
        let prev = add_all(list, xs.drop_last());
        if prev.contains(x) {
            lemma_add_all_members(list, xs.drop_last(), x);
            if xs.drop_last().contains(x) {
                let w = choose|w: int| 0 <= w < xs.drop_last().len() && xs.drop_last()[w] == x;
                assert(xs[w] == x);
            }
        } else {
            let r = add_all(list, xs);
            assert(r == add_unique(prev, xs.last()));
            let i = choose|i: int| 0 <= i < r.len() && r[i] == x;
            if i < prev.len() {
                assert(prev[i] == r[i]);
            }
            assert(xs[xs.len() - 1] == x);
        }
    }
}

proof fn lemma_node_list_members(keys: Seq<Seq<char>>, x: Seq<char>)
    requires
        node_list(keys).contains(x),
    ensures
        exists|i: int| 0 <= i < keys.len() && cut_prefixes(#[trigger] keys[i]).contains(x),
    decreases keys.len(),
{
    if keys.len() == 0 {
        assert(node_list(keys) =~= Seq::<Seq<char>>::empty());
    } else {
        let prev = keys.drop_last();
        lemma_add_all_members(node_list(prev), cut_prefixes(keys.last()), x);
        if node_list(prev).contains(x) {
            lemma_node_list_members(prev, x);
            let i = choose|i: int| 0 <= i < prev.len() && cut_prefixes(#[trigger] prev[i]).contains(x);
            assert(keys[i] == prev[i]);
        } else {
            assert(keys[keys.len() - 1] == keys.last());
        }
    }
}

proof fn lemma_node_list_has(keys: Seq<Seq<char>>, i: int, x: Seq<char>)
    requires
        0 <= i < keys.len(),
        cut_prefixes(keys[i]).contains(x),
    ensures
        node_list(keys).contains(x),
    decreases keys.len(),
{
    let prev = keys.drop_last();
    if i < keys.len() - 1 {
        assert(prev[i] == keys[i]);
        lemma_node_list_has(prev, i, x);
    }
    lemma_add_all_contains(node_list(prev), cut_prefixes(keys.last()), x);
}

/// The node above `m`: the text before its last `/`.
pub open spec fn parent_node(m: Seq<char>) -> Seq<char> {
    m.take(last_index(m, '/'))
}

proof fn lemma_parent_node(m: Seq<char>)
    requires
        m.contains('/'),
    ensures
        0 <= last_index(m, '/') < m.len(),
        m[last_index(m, '/')] == '/',
        is_child(parent_node(m), m),
        dirs_above(m) == dirs_above(parent_node(m)).push(parent_node(m)),
{
    lemma_last_index_bounds(m, '/');
    let l = last_index(m, '/');
    let w = choose|w: int| 0 <= w < m.len() && m[w] == '/';
    assert(l >= 0);
    let n = m.take(l);
    let rest = m.skip(l + 1);
    assert(!rest.contains('/')) by {
        if rest.contains('/') {
            let v = choose|v: int| 0 <= v < rest.len() && rest[v] == '/';
            assert(m[l + 1 + v] == '/');
        }
    }
    assert(m.take(n.len() as int) == n);
    lemma_child_above(n, m);
}

proof fn lemma_parent_in_nodes(keys: Seq<Seq<char>>, m: Seq<char>)
    requires
        node_list(keys).contains(m),
        m.contains('/'),
    ensures
        node_list(keys).contains(parent_node(m)),
{
    lemma_parent_node(m);
    lemma_node_list_members(keys, m);
    let i = choose|i: int| 0 <= i < keys.len() && cut_prefixes(#[trigger] keys[i]).contains(m);
    let k = keys[i];
    let l = last_index(m, '/');
    let ps = cut_prefixes(k);
    let up = cut_prefixes_upto(k, k.len() as int);
    assert(ps == up.push(k));
    let w = choose|w: int| 0 <= w < ps.len() && ps[w] == m;
    if w == ps.len() - 1 {
        assert(m == k);
    } else {
        assert(up[w] == m);
        lemma_upto_members(k, k.len() as int, m);
        let j = choose|j: int| 0 <= j < k.len() && k[j] == '/' && m == k.take(j);
        assert(k[l] == m[l]);
        assert(m.take(l) =~= k.take(l));
    }
    assert(k[l] == '/');
    assert(parent_node(m) == k.take(l));
    lemma_upto_has_prefix(k, l, k.len() as int);
    let v = choose|v: int| 0 <= v < up.len() && up[v] == k.take(l);
    assert(ps[v] == k.take(l));
    lemma_node_list_has(keys, i, parent_node(m));
}

proof fn lemma_above_nodes(keys: Seq<Seq<char>>, m: Seq<char>)
    requires
        node_list(keys).contains(m),
    ensures
        forall|i: int|
            0 <= i < dirs_above(m).len() ==> node_list(keys).contains(#[trigger] dirs_above(m)[i])
                && dirs_above(m)[i].len() < m.len(),
        dirs_above(m).push(m).no_duplicates(),
    decreases m.len(),
{
    if m.contains('/') {
        lemma_parent_node(m);
        lemma_parent_in_nodes(keys, m);
        let n = parent_node(m);
        lemma_above_nodes(keys, n);
        let a = dirs_above(m);
        let b = dirs_above(n).push(n);
        assert(a == b);
        assert forall|i: int| 0 <= i < a.len() implies node_list(keys).contains(#[trigger] a[i])
            && a[i].len() < m.len() by {
            if i < a.len() - 1 {
                assert(a[i] == dirs_above(n)[i]);
            }
        }
        let c = a.push(m);
        assert forall|x: int, y: int| 0 <= x < c.len() && 0 <= y < c.len() && x != y implies c[x]
            != c[y] by {
            if x < b.len() && y < b.len() {
                assert(c[x] == b[x] && c[y] == b[y]);
            } else if x == b.len() {
                assert(c[y] == a[y]);
            } else {
                assert(c[x] == a[x]);
            }
        }
    } else {
        lemma_root_above(m);
        assert(dirs_above(m).push(m) =~= seq![m]);
    }
}

/// A node lies below fewer directories than the tree has nodes.
proof fn lemma_depth_below_nodes(keys: Seq<Seq<char>>, m: Seq<char>)
    requires
        node_list(keys).contains(m),
    ensures
        dirs_above(m).len() < node_list(keys).len(),
{
    let nodes = node_list(keys);
    lemma_above_nodes(keys, m);
    let a = dirs_above(m).push(m);
    a.unique_seq_to_set();
    assert(a.to_set().subset_of(nodes.to_set())) by {
        assert forall|x: Seq<char>| a.to_set().contains(x) implies nodes.to_set().contains(x) by {
            let i = choose|i: int| 0 <= i < a.len() && a[i] == x;
            if i < a.len() - 1 {
                assert(a[i] == dirs_above(m)[i]);
            }
        }
    }
    vstd::seq_lib::seq_to_set_is_finite(nodes);
    vstd::set_lib::lemma_len_subset(a.to_set(), nodes.to_set());
    nodes.lemma_cardinality_of_set();
}

proof fn lemma_child_listed(nodes: Seq<Seq<char>>, dirs: CountMap, n: Seq<char>, m: Seq<char>)
    requires
        nodes.contains(m),
        is_child(n, m),
    ensures
        child_nodes(nodes, dirs, n).contains(node_v(dirs, m)),
    decreases nodes.len(),
{
    let prev = nodes.drop_last();
    let cs = child_nodes(nodes, dirs, n);
    let pc = child_nodes(prev, dirs, n);
    if nodes.last() == m {
        assert(cs[pc.len() as int] == node_v(dirs, m));
    } else {
        let w = choose|w: int| 0 <= w < nodes.len() && nodes[w] == m;
        assert(prev[w] == m);
        lemma_child_listed(prev, dirs, n, m);
        let i = choose|i: int| 0 <= i < pc.len() && pc[i] == node_v(dirs, m);
        assert(cs[i] == pc[i]);
    }
}

proof fn lemma_root_listed(nodes: Seq<Seq<char>>, dirs: CountMap, m: Seq<char>)
    requires
        nodes.contains(m),
        is_root(m),
    ensures
        root_nodes(nodes, dirs).contains(node_v(dirs, m)),
    decreases nodes.len(),
{
    let prev = nodes.drop_last();
    let cs = root_nodes(nodes, dirs);
    let pc = root_nodes(prev, dirs);
    if nodes.last() == m {
        assert(cs[pc.len() as int] == node_v(dirs, m));
    } else {
        let w = choose|w: int| 0 <= w < nodes.len() && nodes[w] == m;
        assert(prev[w] == m);
        lemma_root_listed(prev, dirs, m);
        let i = choose|i: int| 0 <= i < pc.len() && pc[i] == node_v(dirs, m);
        assert(cs[i] == pc[i]);
    }
}

/// `small` stands in `big` as a run that starts at `o`.
pub open spec fn runs_at(big: Seq<RowView>, small: Seq<RowView>, o: int) -> bool {
    &&& 0 <= o
    &&& o + small.len() <= big.len()
    &&& big.subrange(o, o + small.len()) == small
}

proof fn lemma_runs_trans(big: Seq<RowView>, mid: Seq<RowView>, small: Seq<RowView>, o1: int, o2: int)
    requires
        runs_at(big, mid, o1),
        runs_at(mid, small, o2),
    ensures
        runs_at(big, small, o1 + o2),
{
    assert forall|t: int| 0 <= t < small.len() implies big.subrange(o1 + o2, o1 + o2 + small.len())[t]
        == small[t] by {
        assert(small[t] == mid.subrange(o2, o2 + small.len())[t]);
        assert(mid[o2 + t] == big.subrange(o1, o1 + mid.len())[o2 + t]);
    }
    assert(big.subrange(o1 + o2, o1 + o2 + small.len()) =~= small);
}

proof fn lemma_list_rows_has_node(
    nodes: Seq<Seq<char>>,
    dirs: CountMap,
    files: Seq<(Seq<char>, nat)>,
    expanded: Set<Seq<char>>,
    cs: Seq<NodeV>,
    depth: nat,
    fuel: nat,
    j: int,
) -> (o: int)
    requires
        0 <= j < cs.len(),
    ensures
        runs_at(
            list_rows(nodes, dirs, files, expanded, cs, depth, fuel),
            node_rows(nodes, dirs, files, expanded, cs[j], depth, fuel),
            o,
        ),
    decreases j,
{
    let all = list_rows(nodes, dirs, files, expanded, cs, depth, fuel);
    let a = node_rows(nodes, dirs, files, expanded, cs[0], depth, fuel);
    let rest = cs.drop_first();
    let b = list_rows(nodes, dirs, files, expanded, rest, depth, fuel);
    assert(all == a + b);
    if j == 0 {
        assert(all.subrange(0, a.len() as int) =~= a);
        0
    } else {
        assert(rest[j - 1] == cs[j]);
        let o = lemma_list_rows_has_node(nodes, dirs, files, expanded, rest, depth, fuel, j - 1);
        assert(all.subrange(a.len() as int, all.len() as int) =~= b);
        lemma_runs_trans(all, b, node_rows(nodes, dirs, files, expanded, cs[j], depth, fuel), a.len() as int, o);
        a.len() + o
    }
}

/// Where the rows of node `m` stand among the rows of the tree.
proof fn lemma_node_reached(
    dirs: CountMap,
    files: Seq<(Seq<char>, nat)>,
    expanded: Set<Seq<char>>,
    m: Seq<char>,
) -> (o: int)
    requires
        tree_nodes(dirs).contains(m),
        opened_to(expanded, m),
    ensures
        dirs_above(m).len() < tree_nodes(dirs).len(),
        runs_at(
            list_rows(
                tree_nodes(dirs),
                dirs,
                files,
                expanded,
                sorted_roots(tree_nodes(dirs), dirs),
                0,
                tree_nodes(dirs).len(),
            ),
            node_rows(
                tree_nodes(dirs),
                dirs,
                files,
                expanded,
                node_v(dirs, m),
                dirs_above(m).len(),
                (tree_nodes(dirs).len() - dirs_above(m).len()) as nat,
            ),
            o,
        ),
    decreases m.len(),
{
    let nodes = tree_nodes(dirs);
    let keys = key_seq(dirs.entry_seq());
    lemma_depth_below_nodes(keys, m);
    let all = list_rows(nodes, dirs, files, expanded, sorted_roots(nodes, dirs), 0, nodes.len());
    if m.contains('/') {
        lemma_parent_node(m);
        lemma_parent_in_nodes(keys, m);
        let n = parent_node(m);
        let am = dirs_above(m);
        let an = dirs_above(n);
        assert(am == an.push(n));
        assert(expanded.contains(n)) by {
            assert(am[am.len() - 1] == n);
        }
        assert(opened_to(expanded, n)) by {
            assert forall|i: int| 0 <= i < an.len() implies expanded.contains(#[trigger] an[i]) by {
                assert(am[i] == an[i]);
            }
        }
        lemma_parent_shorter_node(m);
        let o1 = lemma_node_reached(dirs, files, expanded, n);
        let dn = an.len();
        let fuel_n = (nodes.len() - dn) as nat;
        let nr = node_rows(nodes, dirs, files, expanded, node_v(dirs, n), dn, fuel_n);
        let ch = sorted_children(nodes, dirs, n);
        let raw = child_nodes(nodes, dirs, n);
        lemma_child_listed(nodes, dirs, n, m);
        lemma_sort_by_lt_has(raw, by_name(), node_v(dirs, m));
        lemma_sort_by_lt_has(sort_by_lt(raw, by_name()), by_count(), node_v(dirs, m));
        let j = choose|j: int| 0 <= j < ch.len() && ch[j] == node_v(dirs, m);
        let fm = (fuel_n - 1) as nat;
        let o2 = lemma_list_rows_has_node(nodes, dirs, files, expanded, ch, dn + 1, fm, j);
        let mid = list_rows(nodes, dirs, files, expanded, ch, dn + 1, fm);
        let fs = sorted_files(nodes, files, n);
        assert(nr == seq![nr[0]] + mid + file_rows(fs, dn + 1));
        assert(nr.subrange(1, 1 + mid.len() as int) =~= mid);
        lemma_runs_trans(all, nr, mid, o1, 1);
        assert(dn + 1 == am.len());
        assert(fm == (nodes.len() - am.len()) as nat);
        lemma_runs_trans(all, mid, node_rows(nodes, dirs, files, expanded, ch[j], dn + 1, fm), o1 + 1, o2);
        o1 + 1 + o2
    } else {
        lemma_root_above(m);
        lemma_root_listed(nodes, dirs, m);
        lemma_sort_by_lt_has(root_nodes(nodes, dirs), by_name(), node_v(dirs, m));
        let roots = sorted_roots(nodes, dirs);
        let j = choose|j: int| 0 <= j < roots.len() && roots[j] == node_v(dirs, m);
        lemma_list_rows_has_node(nodes, dirs, files, expanded, roots, 0, nodes.len(), j)
    }
}

proof fn lemma_parent_shorter_node(m: Seq<char>)
    requires
        m.contains('/'),
    ensures
        parent_node(m).len() < m.len(),
{
    lemma_parent_node(m);
}

/// Every node of the tree whose directories above are all expanded is shown: one of
/// the rows is that directory's row, with its name and count, at a depth equal to
/// the number of directories above it.
pub proof fn lemma_open_nodes_shown(
    dirs: CountMap,
    files: Seq<(Seq<char>, nat)>,
    expanded: Set<Seq<char>>,
    m: Seq<char>,
)
    requires
        dirs.wf(),
        tree_nodes(dirs).contains(m),
        opened_to(expanded, m),
    ensures
        exists|i: int|
            0 <= i < tree_rows(dirs, files, expanded).len() && {
                let r = #[trigger] tree_rows(dirs, files, expanded)[i];
                &&& !r.is_file
                &&& r.full_path == m
                &&& r.depth == dirs_above(m).len()
                &&& r.name == seg_name(m)
                &&& r.count == dirs.count(m)
                &&& r.expanded == expanded.contains(m)
            },
{
    let nodes = tree_nodes(dirs);
    dirs.lemma_entries();
    if dirs.size() == 0 {
        assert(key_seq(dirs.entry_seq()).len() == 0);
        assert(nodes =~= Seq::<Seq<char>>::empty());
    }
    let o = lemma_node_reached(dirs, files, expanded, m);
    let d = dirs_above(m).len();
    let nr = node_rows(nodes, dirs, files, expanded, node_v(dirs, m), d, (nodes.len() - d) as nat);
    let rows = tree_rows(dirs, files, expanded);
    assert(nr.len() > 0);
    assert(rows[o] == rows.subrange(o, o + nr.len())[0]);
    assert(rows[o] == nr[0]);
}

/// The directories above `p`, outermost first, then `p` itself.
pub open spec fn chain(p: Seq<char>) -> Seq<Seq<char>> {
    dirs_above(p).push(p)
}

/// `p` is `n` or lies below it, where `d` directories lie above `n`.
pub open spec fn within(p: Seq<char>, n: Seq<char>, d: nat) -> bool {
    &&& chain(p).len() >= d + 1
    &&& chain(p).take(d + 1int) == chain(n)
}

/// No two directory rows of `rows` show the same directory.
pub open spec fn dir_rows_distinct(rows: Seq<RowView>) -> bool {
    forall|i: int, j: int|
        0 <= i < j < rows.len() && !rows[i].is_file && !rows[j].is_file ==> #[trigger] rows[i].full_path
            != #[trigger] rows[j].full_path
}

/// The path of a node.
pub open spec fn node_path() -> spec_fn(NodeV) -> Seq<char> {
    |c: NodeV| c.path
}

proof fn lemma_add_all_no_dup(list: Seq<Seq<char>>, xs: Seq<Seq<char>>)
    requires
        list.no_duplicates(),
    ensures
        add_all(list, xs).no_duplicates(),
    decreases xs.len(),
{
    if xs.len() > 0 {
        lemma_add_all_no_dup(list, xs.drop_last());
        let prev = add_all(list, xs.drop_last());
        if !prev.contains(xs.last()) {
            let r = prev.push(xs.last());
            assert forall|i: int, j: int| 0 <= i < r.len() && 0 <= j < r.len() && i != j implies r[i]
                != r[j] by {
                if i < prev.len() && j < prev.len() {
                    assert(r[i] == prev[i] && r[j] == prev[j]);
                } else if i < prev.len() {
                    assert(r[i] == prev[i]);
                } else {
                    assert(r[j] == prev[j]);
                }
            }
        }
    }
}

proof fn lemma_node_list_no_dup(keys: Seq<Seq<char>>)
    ensures
        node_list(keys).no_duplicates(),
    decreases keys.len(),
{
    if keys.len() > 0 {
        lemma_node_list_no_dup(keys.drop_last());
        lemma_add_all_no_dup(node_list(keys.drop_last()), cut_prefixes(keys.last()));
    }
}

proof fn lemma_child_nodes_distinct(nodes: Seq<Seq<char>>, dirs: CountMap, n: Seq<char>)
    requires
        nodes.no_duplicates(),
    ensures
        keys_distinct(child_nodes(nodes, dirs, n), node_path()),
    decreases nodes.len(),
{
    if nodes.len() > 0 {
        let prev = nodes.drop_last();
        assert(prev.no_duplicates()) by {
            assert forall|i: int, j: int| 0 <= i < prev.len() && 0 <= j < prev.len() && i != j implies prev[i]
                != prev[j] by {
                assert(prev[i] == nodes[i] && prev[j] == nodes[j]);
            }
        }
        lemma_child_nodes_distinct(prev, dirs, n);
        lemma_child_nodes_are(prev, dirs, n);
        let cs = child_nodes(nodes, dirs, n);
        let pc = child_nodes(prev, dirs, n);
        assert forall|i: int, j: int| 0 <= i < j < cs.len() implies node_path()(#[trigger] cs[i])
            != node_path()(#[trigger] cs[j]) by {
            assert(cs[i] == pc[i]);
            if j < pc.len() {
                assert(cs[j] == pc[j]);
            } else {
                assert(cs[j].path == nodes.last());
                let w = choose|w: int| 0 <= w < prev.len() && prev[w] == pc[i].path;
                assert(nodes[w] == prev[w]);
                assert(nodes[nodes.len() - 1] == nodes.last());
            }
        }
    }
}

proof fn lemma_root_nodes_distinct(nodes: Seq<Seq<char>>, dirs: CountMap)
    requires
        nodes.no_duplicates(),
    ensures
        keys_distinct(root_nodes(nodes, dirs), node_path()),
    decreases nodes.len(),
{
    if nodes.len() > 0 {
        let prev = nodes.drop_last();
        assert(prev.no_duplicates()) by {
            assert forall|i: int, j: int| 0 <= i < prev.len() && 0 <= j < prev.len() && i != j implies prev[i]
                != prev[j] by {
                assert(prev[i] == nodes[i] && prev[j] == nodes[j]);
            }
        }
        lemma_root_nodes_distinct(prev, dirs);
        lemma_root_nodes_are(prev, dirs);
        let cs = root_nodes(nodes, dirs);
        let pc = root_nodes(prev, dirs);
        assert forall|i: int, j: int| 0 <= i < j < cs.len() implies node_path()(#[trigger] cs[i])
            != node_path()(#[trigger] cs[j]) by {
            assert(cs[i] == pc[i]);
            if j < pc.len() {
                assert(cs[j] == pc[j]);
            } else {
                assert(cs[j].path == nodes.last());
                let w = choose|w: int| 0 <= w < prev.len() && prev[w] == pc[i].path;
                assert(nodes[w] == prev[w]);
                assert(nodes[nodes.len() - 1] == nodes.last());
            }
        }
    }
}

proof fn lemma_node_rows_once(
    nodes: Seq<Seq<char>>,
    dirs: CountMap,
    files: Seq<(Seq<char>, nat)>,
    expanded: Set<Seq<char>>,
    n: NodeV,
    depth: nat,
    fuel: nat,
)
    requires
        nodes.no_duplicates(),
        node_in_place(nodes, dirs, expanded, n, depth),
    ensures
        dir_rows_distinct(node_rows(nodes, dirs, files, expanded, n, depth, fuel)),
        forall|i: int|
            0 <= i < node_rows(nodes, dirs, files, expanded, n, depth, fuel).len() && !node_rows(
                nodes,
                dirs,
                files,
                expanded,
                n,
                depth,
                fuel,
            )[i].is_file ==> within(
                #[trigger] node_rows(nodes, dirs, files, expanded, n, depth, fuel)[i].full_path,
                n.path,
                depth,
            ),
        forall|i: int|
            1 <= i < node_rows(nodes, dirs, files, expanded, n, depth, fuel).len() && !node_rows(
                nodes,
                dirs,
                files,
                expanded,
                n,
                depth,
                fuel,
            )[i].is_file ==> chain(
                #[trigger] node_rows(nodes, dirs, files, expanded, n, depth, fuel)[i].full_path,
            ).len() >= depth + 2,
    decreases fuel, 0nat,
{
    let rows = node_rows(nodes, dirs, files, expanded, n, depth, fuel);
    assert(chain(n.path).take(depth + 1int) =~= chain(n.path));
    if fuel > 0 && expanded.contains(n.path) {
        let ch = sorted_children(nodes, dirs, n.path);
        let fs = sorted_files(nodes, files, n.path);
        let p = |c: NodeV| node_in_place(nodes, dirs, expanded, c, depth + 1) && is_child(n.path, c.path);
        lemma_child_nodes_are(nodes, dirs, n.path);
        let raw = child_nodes(nodes, dirs, n.path);
        assert forall|i: int| 0 <= i < raw.len() implies p(#[trigger] raw[i]) by {
            lemma_child_above(n.path, raw[i].path);
            let up = dirs_above(raw[i].path);
            assert(up == dirs_above(n.path).push(n.path));
            assert forall|j: int| 0 <= j < up.len() implies expanded.contains(#[trigger] up[j]) by {
                if j < dirs_above(n.path).len() {
                    assert(up[j] == dirs_above(n.path)[j]);
                }
            }
        }
        lemma_sort_by_lt_keeps(raw, by_name(), p);
        lemma_sort_by_lt_keeps(sort_by_lt(raw, by_name()), by_count(), p);
        lemma_child_nodes_distinct(nodes, dirs, n.path);
        lemma_sort_by_lt_distinct(raw, by_name(), node_path());
        lemma_sort_by_lt_distinct(sort_by_lt(raw, by_name()), by_count(), node_path());
        assert forall|j: int| 0 <= j < ch.len() implies node_in_place(
            nodes,
            dirs,
            expanded,
            #[trigger] ch[j],
            depth + 1,
        ) by {
            assert(p(ch[j]));
        }
        lemma_list_rows_once(nodes, dirs, files, expanded, ch, depth + 1, (fuel - 1) as nat);
        let mid = list_rows(nodes, dirs, files, expanded, ch, depth + 1, (fuel - 1) as nat);
        let tail = file_rows(fs, depth + 1);
        lemma_file_rows_are(fs, depth + 1);
        assert(rows == seq![rows[0]] + mid + tail);
        assert forall|i: int| 1 <= i < 1 + mid.len() && !rows[i].is_file implies within(
            rows[i].full_path,
            n.path,
            depth,
        ) && chain(rows[i].full_path).len() >= depth + 2 by {
            assert(rows[i] == mid[i - 1]);
            let k = choose|k: int|
                0 <= k < ch.len() && within(mid[i - 1].full_path, #[trigger] ch[k].path, depth + 1);
            assert(p(ch[k]));
            lemma_child_above(n.path, ch[k].path);
            let c = chain(rows[i].full_path);
            assert(chain(ch[k].path) == chain(n.path).push(ch[k].path));
            assert(c.take(depth + 1int) =~= c.take(depth + 2int).take(depth + 1int));
            assert(chain(n.path).push(ch[k].path).take(depth + 1int) =~= chain(n.path));
        }
        assert forall|i: int| 0 <= i < rows.len() && !rows[i].is_file implies within(
            #[trigger] rows[i].full_path,
            n.path,
            depth,
        ) by {
            if i >= 1 + mid.len() {
                assert(rows[i] == tail[i - 1 - mid.len()]);
            }
        }
        assert forall|i: int| 1 <= i < rows.len() && !rows[i].is_file implies chain(
            #[trigger] rows[i].full_path,
        ).len() >= depth + 2 by {
            if i >= 1 + mid.len() {
                assert(rows[i] == tail[i - 1 - mid.len()]);
            }
        }
        assert forall|i: int, j: int|
            0 <= i < j < rows.len() && !rows[i].is_file && !rows[j].is_file implies #[trigger] rows[i].full_path
            != #[trigger] rows[j].full_path by {
            if j >= 1 + mid.len() {
                assert(rows[j] == tail[j - 1 - mid.len()]);
            } else if i == 0 {
                assert(chain(rows[j].full_path).len() >= depth + 2);
                assert(rows[0].full_path == n.path);
            } else {
                assert(rows[i] == mid[i - 1] && rows[j] == mid[j - 1]);
            }
        }
    }
}

proof fn lemma_list_rows_once(
    nodes: Seq<Seq<char>>,
    dirs: CountMap,
    files: Seq<(Seq<char>, nat)>,
    expanded: Set<Seq<char>>,
    cs: Seq<NodeV>,
    depth: nat,
    fuel: nat,
)
    requires
        nodes.no_duplicates(),
        forall|j: int| 0 <= j < cs.len() ==> node_in_place(nodes, dirs, expanded, #[trigger] cs[j], depth),
        keys_distinct(cs, node_path()),
    ensures
        dir_rows_distinct(list_rows(nodes, dirs, files, expanded, cs, depth, fuel)),
        forall|i: int|
            0 <= i < list_rows(nodes, dirs, files, expanded, cs, depth, fuel).len() && !list_rows(
                nodes,
                dirs,
                files,
                expanded,
                cs,
                depth,
                fuel,
            )[i].is_file ==> exists|k: int|
                0 <= k < cs.len() && within(
                    list_rows(nodes, dirs, files, expanded, cs, depth, fuel)[i].full_path,
                    #[trigger] cs[k].path,
                    depth,
                ),
    decreases fuel, cs.len(),
{
    if cs.len() > 0 {
        assert(node_in_place(nodes, dirs, expanded, cs[0], depth));
        lemma_node_rows_once(nodes, dirs, files, expanded, cs[0], depth, fuel);
        let rest = cs.drop_first();
        assert forall|j: int| 0 <= j < rest.len() implies node_in_place(
            nodes,
            dirs,
            expanded,
            #[trigger] rest[j],
            depth,
        ) by {
            assert(rest[j] == cs[j + 1]);
        }
        assert forall|i: int, j: int| 0 <= i < j < rest.len() implies node_path()(#[trigger] rest[i])
            != node_path()(#[trigger] rest[j]) by {
            assert(rest[i] == cs[i + 1] && rest[j] == cs[j + 1]);
        }
        lemma_list_rows_once(nodes, dirs, files, expanded, rest, depth, fuel);
        let a = node_rows(nodes, dirs, files, expanded, cs[0], depth, fuel);
        let b = list_rows(nodes, dirs, files, expanded, rest, depth, fuel);
        let all = list_rows(nodes, dirs, files, expanded, cs, depth, fuel);
        assert(all == a + b);
        assert forall|i: int| 0 <= i < all.len() && !all[i].is_file implies exists|k: int|
            0 <= k < cs.len() && within(all[i].full_path, #[trigger] cs[k].path, depth) by {
            if i < a.len() {
                assert(all[i] == a[i]);
                assert(within(all[i].full_path, cs[0].path, depth));
            } else {
                assert(all[i] == b[i - a.len()]);
                let k = choose|k: int|
                    0 <= k < rest.len() && within(b[i - a.len()].full_path, #[trigger] rest[k].path, depth);
                assert(rest[k] == cs[k + 1]);
            }
        }
        assert forall|i: int, j: int|
            0 <= i < j < all.len() && !all[i].is_file && !all[j].is_file implies #[trigger] all[i].full_path
            != #[trigger] all[j].full_path by {
            if j < a.len() {
                assert(all[i] == a[i] && all[j] == a[j]);
            } else if i >= a.len() {
                assert(all[i] == b[i - a.len()] && all[j] == b[j - a.len()]);
            } else {
                assert(all[i] == a[i] && all[j] == b[j - a.len()]);
                let k = choose|k: int|
                    0 <= k < rest.len() && within(b[j - a.len()].full_path, #[trigger] rest[k].path, depth);
                assert(rest[k] == cs[k + 1]);
                assert(node_path()(cs[0]) != node_path()(cs[k + 1]));
                let ci = chain(all[i].full_path);
                let cj = chain(all[j].full_path);
                assert(ci.take(depth + 1int)[depth as int] == chain(cs[0].path)[depth as int]);
                assert(cj.take(depth + 1int)[depth as int] == chain(cs[k + 1].path)[depth as int]);
                assert(chain(cs[0].path)[depth as int] == cs[0].path);
                assert(chain(cs[k + 1].path)[depth as int] == cs[k + 1].path);
            }
        }
    }
}

/// No directory is shown twice: the directory rows of the tree show distinct
/// directories.
pub proof fn lemma_tree_dirs_once(dirs: CountMap, files: Seq<(Seq<char>, nat)>, expanded: Set<Seq<char>>)
    ensures
        dir_rows_distinct(tree_rows(dirs, files, expanded)),
{
    let nodes = tree_nodes(dirs);
    if !(dirs.size() == 0 && files.len() == 0) {
        lemma_node_list_no_dup(key_seq(dirs.entry_seq()));
        let raw = root_nodes(nodes, dirs);
        let p = |c: NodeV| node_in_place(nodes, dirs, expanded, c, 0);
        lemma_root_nodes_are(nodes, dirs);
        assert forall|i: int| 0 <= i < raw.len() implies p(#[trigger] raw[i]) by {
            lemma_root_above(raw[i].path);
        }
        lemma_sort_by_lt_keeps(raw, by_name(), p);
        lemma_root_nodes_distinct(nodes, dirs);
        lemma_sort_by_lt_distinct(raw, by_name(), node_path());
        let roots = sorted_roots(nodes, dirs);
        assert forall|j: int| 0 <= j < roots.len() implies node_in_place(
            nodes,
            dirs,
            expanded,
            #[trigger] roots[j],
            0,
        ) by {
            assert(p(roots[j]));
        }
        lemma_list_rows_once(nodes, dirs, files, expanded, roots, 0, nodes.len());
    }
}

proof fn lemma_run_len_all(ps: Seq<Seq<char>>, nodes: Seq<Seq<char>>)
    requires
        forall|i: int| 0 <= i < ps.len() ==> nodes.contains(#[trigger] ps[i]),
    ensures
        run_len(ps, nodes) == ps.len(),
    decreases ps.len(),
{
    if ps.len() > 0 {
        assert(nodes.contains(ps[0]));
        let rest = ps.drop_first();
        assert forall|i: int| 0 <= i < rest.len() implies nodes.contains(#[trigger] rest[i]) by {
            assert(rest[i] == ps[i + 1]);
        }
        lemma_run_len_all(rest, nodes);
    }
}

/// A file hangs under its own directory whenever that directory is a node of the
/// tree: not under a shallower node on the way to it.
pub proof fn lemma_file_under_own_dir(dirs: CountMap, p: Seq<char>)
    requires
        tree_nodes(dirs).contains(file_dir(p)),
        file_dir(p).len() > 0,
    ensures
        attach_point(tree_nodes(dirs), p) == Some(file_dir(p)),
{
    let nodes = tree_nodes(dirs);
    let d = file_dir(p);
    let ps = cut_prefixes(d);
    assert(ps == dirs_above(d).push(d));
    lemma_above_nodes(key_seq(dirs.entry_seq()), d);
    assert forall|i: int| 0 <= i < ps.len() implies nodes.contains(#[trigger] ps[i]) by {
        if i < ps.len() - 1 {
            assert(ps[i] == dirs_above(d)[i]);
        }
    }
    lemma_run_len_all(ps, nodes);
}

proof fn lemma_run_len_facts(ps: Seq<Seq<char>>, nodes: Seq<Seq<char>>)
    ensures
        run_len(ps, nodes) <= ps.len(),
        forall|i: int| 0 <= i < run_len(ps, nodes) ==> nodes.contains(#[trigger] ps[i]),
        run_len(ps, nodes) < ps.len() ==> !nodes.contains(ps[run_len(ps, nodes) as int]),
    decreases ps.len(),
{
    if ps.len() > 0 && nodes.contains(ps[0]) {
        let rest = ps.drop_first();
        lemma_run_len_facts(rest, nodes);
        assert forall|i: int| 0 <= i < run_len(ps, nodes) implies nodes.contains(#[trigger] ps[i]) by {
            if i > 0 {
                assert(ps[i] == rest[i - 1]);
            }
        }
        if run_len(ps, nodes) < ps.len() {
            assert(ps[run_len(ps, nodes) as int] == rest[run_len(rest, nodes) as int]);
        }
    }
}

/// A file hangs under the deepest node reached from the top along its directory:
/// when its directory is not empty and its top directory is a node, it hangs under
/// one of its directory's prefixes that is a node, as are all the prefixes above it,
/// while the next prefix down, if there is one, is not a node; otherwise it hangs
/// under nothing.
pub proof fn lemma_file_under_deepest_node(nodes: Seq<Seq<char>>, p: Seq<char>)
    ensures
        attach_point(nodes, p) is Some <==> (file_dir(p).len() > 0 && nodes.contains(
            cut_prefixes(file_dir(p))[0],
        )),
        attach_point(nodes, p) matches Some(n) ==> exists|k: int|
            0 <= k < cut_prefixes(file_dir(p)).len() && #[trigger] cut_prefixes(file_dir(p))[k] == n
                && (forall|j: int| 0 <= j <= k ==> nodes.contains(#[trigger] cut_prefixes(file_dir(p))[j]))
                && (k + 1 < cut_prefixes(file_dir(p)).len() ==> !nodes.contains(
                cut_prefixes(file_dir(p))[k + 1],
            )),
{
    let d = file_dir(p);
    let ps = cut_prefixes(d);
    lemma_run_len_facts(ps, nodes);
    let r = run_len(ps, nodes);
    if d.len() > 0 && r > 0 {
        let k = r - 1;
        assert(ps[k] == attach_point(nodes, p)->0);
        assert(forall|j: int| 0 <= j <= k ==> nodes.contains(#[trigger] ps[j]));
    }
}

} // verus!
