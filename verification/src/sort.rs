//! Stable sorting by an integer key, the way `slice::sort_by` orders items:
//! ascending by key, items with equal keys keeping their input order.

use vstd::prelude::*;

use crate::counts::{distinct_keys, pair_views, CountMap};

verus! {

/// Items that are ordered by an integer key.
pub trait SortKey: Sized {
    /// The key items are sorted by (ascending).
    spec fn key(&self) -> int;

    /// Whether this item's key is smaller than `other`'s.
    fn key_lt(&self, other: &Self) -> (r: bool)
        ensures
            r == (self.key() < other.key()),
    ;
}

/// `s` (sorted) with `x` inserted after every item whose key is not greater than
/// `x`'s.
pub open spec fn sorted_insert<T: SortKey>(s: Seq<T>, x: T) -> Seq<T>
    decreases s.len(),
{
    if s.len() == 0 {
        seq![x]
    } else if x.key() < s[0].key() {
        seq![x] + s
    } else {
        seq![s[0]] + sorted_insert(s.drop_first(), x)
    }
}

/// The stable sort of `s` by key: insertion of each item, in order, into the sorted
/// prefix.
pub open spec fn stable_sorted<T: SortKey>(s: Seq<T>) -> Seq<T>
    decreases s.len(),
{
    if s.len() == 0 {
        s
    } else {
        sorted_insert(stable_sorted(s.drop_last()), s.last())
    }
}

/// Keys are non-decreasing along `s`.
pub open spec fn keys_ascending<T: SortKey>(s: Seq<T>) -> bool {
    forall|i: int, j: int| 0 <= i <= j < s.len() ==> #[trigger] s[i].key() <= #[trigger] s[j].key()
}

proof fn lemma_insert_at<T: SortKey>(s: Seq<T>, x: T, i: int)
    requires
        0 <= i <= s.len(),
        forall|j: int| 0 <= j < i ==> !(x.key() < #[trigger] s[j].key()),
        i < s.len() ==> x.key() < s[i].key(),
    ensures
        sorted_insert(s, x) == s.insert(i, x),
    decreases i,
{
    if s.len() == 0 {
        assert(s.insert(i, x) =~= seq![x]);
    } else if i == 0 {
        assert(s.insert(0, x) =~= seq![x] + s);
    } else {
        let t = s.drop_first();
        assert forall|j: int| 0 <= j < i - 1 implies !(x.key() < #[trigger] t[j].key()) by {
            assert(t[j] == s[j + 1]);
        }
        if i < s.len() {
            assert(t[i - 1] == s[i]);
        }
        lemma_insert_at(t, x, i - 1);
        assert(!(x.key() < s[0].key()));
        assert(seq![s[0]] + t.insert(i - 1, x) =~= s.insert(i, x));
    }
}

/// Insertion keeps a key-ascending sequence ascending and adds exactly `x`.
pub proof fn lemma_sorted_insert<T: SortKey>(s: Seq<T>, x: T)
    requires
        keys_ascending(s),
    ensures
        keys_ascending(sorted_insert(s, x)),
        sorted_insert(s, x).to_multiset() == s.to_multiset().insert(x),
        sorted_insert(s, x).len() == s.len() + 1,
    decreases s.len(),
{
    broadcast use vstd::seq_lib::group_to_multiset_ensures;
    if s.len() == 0 {
        assert(sorted_insert(s, x) =~= s.push(x));
    } else if x.key() < s[0].key() {
        let r = seq![x] + s;
        assert forall|i: int, j: int| 0 <= i <= j < r.len() implies #[trigger] r[i].key()
            <= #[trigger] r[j].key() by {
            if i == 0 && j > 0 {
                assert(r[j] == s[j - 1]);
                assert(s[0].key() <= s[j - 1].key());
            } else if i > 0 {
                assert(r[i] == s[i - 1]);
                assert(r[j] == s[j - 1]);
            }
        }
        vstd::seq_lib::lemma_multiset_commutative(seq![x], s);
        assert(seq![x] =~= Seq::<T>::empty().push(x));
    } else {
        let t = s.drop_first();
        assert forall|i: int, j: int| 0 <= i <= j < t.len() implies #[trigger] t[i].key()
            <= #[trigger] t[j].key() by {
            assert(t[i] == s[i + 1]);
            assert(t[j] == s[j + 1]);
        }
        lemma_sorted_insert(t, x);
        let u = sorted_insert(t, x);
        let r = seq![s[0]] + u;
        assert forall|i: int, j: int| 0 <= i <= j < r.len() implies #[trigger] r[i].key()
            <= #[trigger] r[j].key() by {
            if i == 0 && j > 0 {
                assert(r[j] == u[j - 1]);
                assert(u.to_multiset().count(u[j - 1]) > 0);
                assert(t.to_multiset().insert(x).count(u[j - 1]) > 0);
                if u[j - 1] != x {
                    assert(t.to_multiset().count(u[j - 1]) > 0);
                    assert(t.contains(u[j - 1]));
                    let k = choose|k: int| 0 <= k < t.len() && t[k] == u[j - 1];
                    assert(t[k] == s[k + 1]);
                }
            } else if i > 0 {
                assert(r[i] == u[i - 1]);
                assert(r[j] == u[j - 1]);
            }
        }
        vstd::seq_lib::lemma_multiset_commutative(seq![s[0]], u);
        vstd::seq_lib::lemma_multiset_commutative(seq![s[0]], t);
        assert(seq![s[0]] + t =~= s);
        assert(seq![s[0]] =~= Seq::<T>::empty().push(s[0]));
    }
}

/// A stable sort orders by key and keeps exactly the input items.
pub proof fn lemma_stable_sorted<T: SortKey>(s: Seq<T>)
    ensures
        keys_ascending(stable_sorted(s)),
        stable_sorted(s).to_multiset() == s.to_multiset(),
        stable_sorted(s).len() == s.len(),
    decreases s.len(),
{
    broadcast use vstd::seq_lib::group_to_multiset_ensures;
    if s.len() > 0 {
        lemma_stable_sorted(s.drop_last());
        lemma_sorted_insert(stable_sorted(s.drop_last()), s.last());
        assert(s.drop_last().push(s.last()) =~= s);
    }
}

/// Stable sort of `v` by key.
pub fn stable_sort<T: SortKey>(v: Vec<T>) -> (out: Vec<T>)
    ensures
        out@ == stable_sorted(v@),
{
    let mut out: Vec<T> = Vec::new();
    let ghost orig = v@;
    for x in it: v
        invariant
            it.seq() == orig,
            out@ == stable_sorted(orig.take(it.index() as int)),
    {
        let ghost idx = it.index() as int;
        let mut i: usize = 0;
        while i < out.len() && !x.key_lt(&out[i])
            invariant
                i <= out@.len(),
                forall|j: int| 0 <= j < i ==> !(x.key() < #[trigger] out@[j].key()),
            decreases out@.len() - i,
        {
            i += 1;
        }
        proof {
            lemma_insert_at(out@, x, i as int);
            assert(orig.take(idx + 1).drop_last() == orig.take(idx));
            assert(orig.take(idx + 1).last() == x);
        }
        out.insert(i, x);
    }
    assert(orig.take(orig.len() as int) == orig);
    out
}

/// A name and a count, ordered by count, largest first.
impl SortKey for (String, usize) {
    open spec fn key(&self) -> int {
        -(self.1 as int)
    }

    fn key_lt(&self, other: &Self) -> (r: bool) {
        self.1 > other.1
    }
}

/// A path, an owner and a count, ordered by count, largest first.
impl SortKey for (String, String, usize) {
    open spec fn key(&self) -> int {
        -(self.2 as int)
    }

    fn key_lt(&self, other: &Self) -> (r: bool) {
        self.2 > other.2
    }
}

/// `s` with `x` inserted just before the first item that `x` precedes under `lt`
/// (at the end when there is none).
pub open spec fn insert_by<A>(s: Seq<A>, x: A, lt: spec_fn(A, A) -> bool) -> Seq<A>
    decreases s.len(),
{
    if s.len() == 0 {
        seq![x]
    } else if lt(x, s[0]) {
        seq![x] + s
    } else {
        seq![s[0]] + insert_by(s.drop_first(), x, lt)
    }
}

/// Insertion sort of `s` under the strict order `lt`, inserting items in their
/// input order; items that `lt` does not separate keep their relative order.
pub open spec fn sort_by_lt<A>(s: Seq<A>, lt: spec_fn(A, A) -> bool) -> Seq<A>
    decreases s.len(),
{
    if s.len() == 0 {
        s
    } else {
        insert_by(sort_by_lt(s.drop_last(), lt), s.last(), lt)
    }
}

/// Inserting at the first position whose item `x` precedes is `insert_by`.
pub proof fn lemma_insert_by_at<A>(s: Seq<A>, x: A, lt: spec_fn(A, A) -> bool, i: int)
    requires
        0 <= i <= s.len(),
        forall|j: int| 0 <= j < i ==> !lt(x, #[trigger] s[j]),
        i < s.len() ==> lt(x, s[i]),
    ensures
        insert_by(s, x, lt) == s.insert(i, x),
    decreases i,
{
    if s.len() == 0 {
        assert(s.insert(i, x) =~= seq![x]);
    } else if i == 0 {
        assert(s.insert(0, x) =~= seq![x] + s);
    } else {
        let t = s.drop_first();
        assert forall|j: int| 0 <= j < i - 1 implies !lt(x, #[trigger] t[j]) by {
            assert(t[j] == s[j + 1]);
        }
        if i < s.len() {
            assert(t[i - 1] == s[i]);
        }
        lemma_insert_by_at(t, x, lt, i - 1);
        assert(!lt(x, s[0]));
        assert(seq![s[0]] + t.insert(i - 1, x) =~= s.insert(i, x));
    }
}

/// `v` lists every key with a positive tally exactly once, with its tally, largest
/// tally first.
pub open spec fn lists_counts(v: Seq<(Seq<char>, nat)>, tally: spec_fn(Seq<char>) -> nat) -> bool {
    &&& forall|i: int, j: int| 0 <= i <= j < v.len() ==> #[trigger] v[i].1 >= #[trigger] v[j].1
    &&& forall|i: int, j: int| 0 <= i < v.len() && 0 <= j < v.len() && i != j ==> #[trigger] v[i].0 != #[trigger] v[j].0
    &&& forall|i: int| 0 <= i < v.len() ==> #[trigger] v[i].1 == tally(v[i].0) && v[i].1 > 0
    &&& forall|k: Seq<char>| #[trigger] tally(k) > 0 ==> exists|i: int| 0 <= i < v.len() && #[trigger] v[i].0 == k
}

proof fn lemma_sorted_pairs(input: Seq<(String, usize)>, out: Seq<(String, usize)>)
    requires
        out == stable_sorted(input),
        distinct_keys(input),
    ensures
        distinct_keys(out),
        out.len() == input.len(),
        forall|i: int| 0 <= i < out.len() ==> input.contains(#[trigger] out[i]),
        forall|p: int| 0 <= p < input.len() ==> out.contains(#[trigger] input[p]),
        forall|i: int, j: int| 0 <= i <= j < out.len() ==> #[trigger] out[i].1 >= #[trigger] out[j].1,
{
    broadcast use vstd::seq_lib::group_to_multiset_ensures;
    lemma_stable_sorted(input);
    assert(input.no_duplicates()) by {
        assert forall|a: int, b: int| 0 <= a < input.len() && 0 <= b < input.len() && a != b implies input[a] != input[b] by {
            assert(input[a].0@ != input[b].0@);
        }
    }
    input.lemma_multiset_has_no_duplicates();
    assert forall|x: (String, usize)| out.to_multiset().contains(x) implies out.to_multiset().count(x) == 1 by {}
    out.lemma_multiset_has_no_duplicates_conv();
    assert forall|i: int| 0 <= i < out.len() implies input.contains(#[trigger] out[i]) by {
        assert(out.contains(out[i]));
        assert(out.to_multiset().count(out[i]) > 0);
    }
    assert forall|p: int| 0 <= p < input.len() implies out.contains(#[trigger] input[p]) by {
        assert(input.contains(input[p]));
        assert(input.to_multiset().count(input[p]) > 0);
    }
    assert forall|a: int, b: int| 0 <= a < out.len() && 0 <= b < out.len() && a != b implies #[trigger] out[a].0@ != #[trigger] out[b].0@ by {
        assert(input.contains(out[a]));
        assert(input.contains(out[b]));
        let pa = choose|pa: int| 0 <= pa < input.len() && input[pa] == out[a];
        let pb = choose|pb: int| 0 <= pb < input.len() && input[pb] == out[b];
        assert(out[a] != out[b]);
        assert(pa != pb);
    }
    assert forall|i: int, j: int| 0 <= i <= j < out.len() implies #[trigger] out[i].1 >= #[trigger] out[j].1 by {
        assert(out[i].key() <= out[j].key());
    }
}

/// `v` lists every entry of `m` exactly once, with its count, largest count first.
pub open spec fn lists_entries(v: Seq<(Seq<char>, nat)>, m: CountMap) -> bool {
    &&& forall|i: int, j: int| 0 <= i <= j < v.len() ==> #[trigger] v[i].1 >= #[trigger] v[j].1
    &&& forall|i: int, j: int| 0 <= i < v.len() && 0 <= j < v.len() && i != j ==> #[trigger] v[i].0 != #[trigger] v[j].0
    &&& forall|i: int| 0 <= i < v.len() ==> m.has(#[trigger] v[i].0) && v[i].1 == m.count(v[i].0)
    &&& forall|k: Seq<char>| #[trigger] m.has(k) ==> exists|i: int| 0 <= i < v.len() && #[trigger] v[i].0 == k
}

/// The entries of `m` as name/count pairs, largest count first (`sort_by` on the
/// count, descending).
pub fn sorted_vec(m: &CountMap) -> (out: Vec<(String, usize)>)
    requires
        m.wf(),
    ensures
        lists_entries(pair_views(out@), *m),
        m.positive() ==> lists_counts(pair_views(out@), |k: Seq<char>| m.count(k)),
{
    let es = m.entries();
    let mut copy: Vec<(String, usize)> = Vec::new();
    let mut i: usize = 0;
    while i < es.len()
        invariant
            i <= es@.len(),
            copy@.len() == i,
            forall|j: int| 0 <= j < i ==> #[trigger] copy@[j].0@ == es@[j].0@ && copy@[j].1 == es@[j].1,
        decreases es@.len() - i,
    {
        copy.push((crate::text::string_of(es[i].0.as_str()), es[i].1));
        i += 1;
    }
    proof {
        m.lemma_entries();
        assert forall|a: int, b: int| 0 <= a < copy@.len() && 0 <= b < copy@.len() && a != b implies #[trigger] copy@[a].0@ != #[trigger] copy@[b].0@ by {
            assert(es@[a].0@ != es@[b].0@);
        }
    }
    let ghost input = copy@;
    let out = stable_sort(copy);
    proof {
        lemma_sorted_pairs(input, out@);
        let v = pair_views(out@);
        let t = |k: Seq<char>| m.count(k);
        assert forall|x: int, y: int| 0 <= x <= y < v.len() implies #[trigger] v[x].1 >= #[trigger] v[y].1 by {
            assert(out@[x].1 >= out@[y].1);
        }
        assert forall|x: int, y: int| 0 <= x < v.len() && 0 <= y < v.len() && x != y implies #[trigger] v[x].0 != #[trigger] v[y].0 by {
            assert(out@[x].0@ != out@[y].0@);
        }
        assert forall|x: int| 0 <= x < v.len() implies m.has(#[trigger] v[x].0) && v[x].1 == m.count(v[x].0) by {
            assert(input.contains(out@[x]));
            let p = choose|p: int| 0 <= p < input.len() && input[p] == out@[x];
            assert(m.count(es@[p].0@) == es@[p].1);
            assert(crate::counts::key_seq(es@)[p] == es@[p].0@);
        }
        assert forall|k: Seq<char>| #[trigger] m.has(k) implies exists|x: int| 0 <= x < v.len() && #[trigger] v[x].0 == k by {
            assert(crate::counts::key_seq(m.entry_seq()).contains(k));
            let p = choose|p: int| 0 <= p < crate::counts::key_seq(es@).len() && crate::counts::key_seq(es@)[p] == k;
            assert(es@[p].0@ == k);
            assert(out@.contains(input[p]));
            let x = choose|x: int| 0 <= x < out@.len() && out@[x] == input[p];
            assert(v[x].0 == k);
        }
        if m.positive() {
            assert forall|x: int| 0 <= x < v.len() implies #[trigger] v[x].1 == t(v[x].0) && v[x].1 > 0 by {
                assert(m.has(v[x].0));
            }
            assert forall|k: Seq<char>| #[trigger] t(k) > 0 implies exists|x: int| 0 <= x < v.len() && #[trigger] v[x].0 == k by {
                assert(m.has(k));
            }
        }
    }
    out
}

/// No item of `s` precedes, under `lt`, an item before it.
pub open spec fn sorted_by<A>(s: Seq<A>, lt: spec_fn(A, A) -> bool) -> bool {
    forall|i: int, j: int| 0 <= i < j < s.len() ==> !lt(#[trigger] s[j], #[trigger] s[i])
}

/// `lt` is a strict order: asymmetric and transitive.
pub open spec fn strict_order<A>(lt: spec_fn(A, A) -> bool) -> bool {
    &&& forall|a: A, b: A| #[trigger] lt(a, b) ==> !lt(b, a)
    &&& forall|a: A, b: A, c: A| #[trigger] lt(a, b) && #[trigger] lt(b, c) ==> lt(a, c)
}

proof fn lemma_insert_by_sorted<A>(s: Seq<A>, x: A, lt: spec_fn(A, A) -> bool)
    requires
        strict_order(lt),
        sorted_by(s, lt),
    ensures
        sorted_by(insert_by(s, x, lt), lt),
        insert_by(s, x, lt).len() == s.len() + 1,
        forall|k: int|
            0 <= k < insert_by(s, x, lt).len() ==> (#[trigger] insert_by(s, x, lt)[k] == x
                || s.contains(insert_by(s, x, lt)[k])),
    decreases s.len(),
{
    let r = insert_by(s, x, lt);
    if s.len() == 0 {
    } else if lt(x, s[0]) {
        assert(r == seq![x] + s);
        assert forall|i: int, j: int| 0 <= i < j < r.len() implies !lt(#[trigger] r[j], #[trigger] r[i]) by {
            assert(r[j] == s[j - 1]);
            if i > 0 {
                assert(r[i] == s[i - 1]);
            } else if j - 1 > 0 {
                assert(!lt(s[j - 1], s[0]));
            }
        }
        assert forall|k: int| 0 <= k < r.len() implies (#[trigger] r[k] == x || s.contains(r[k])) by {
            if k > 0 {
                assert(r[k] == s[k - 1]);
            }
        }
    } else {
        let t = s.drop_first();
        assert(sorted_by(t, lt)) by {
            assert forall|i: int, j: int| 0 <= i < j < t.len() implies !lt(#[trigger] t[j], #[trigger] t[i]) by {
                assert(t[i] == s[i + 1]);
                assert(t[j] == s[j + 1]);
            }
        }
        lemma_insert_by_sorted(t, x, lt);
        let rt = insert_by(t, x, lt);
        assert(r == seq![s[0]] + rt);
        assert forall|i: int, j: int| 0 <= i < j < r.len() implies !lt(#[trigger] r[j], #[trigger] r[i]) by {
            assert(r[j] == rt[j - 1]);
            if i > 0 {
                assert(r[i] == rt[i - 1]);
            } else {
                if rt[j - 1] != x {
                    let m = choose|m: int| 0 <= m < t.len() && t[m] == rt[j - 1];
                    assert(t[m] == s[m + 1]);
                }
            }
        }
        assert forall|k: int| 0 <= k < r.len() implies (#[trigger] r[k] == x || s.contains(r[k])) by {
            if k > 0 {
                assert(r[k] == rt[k - 1]);
                if rt[k - 1] != x {
                    let m = choose|m: int| 0 <= m < t.len() && t[m] == rt[k - 1];
                    assert(t[m] == s[m + 1]);
                }
            } else {
                assert(r[0] == s[0]);
            }
        }
    }
}

/// Insertion sort under a strict order leaves no item preceding an earlier one.
pub proof fn lemma_sort_by_lt_sorted<A>(s: Seq<A>, lt: spec_fn(A, A) -> bool)
    requires
        strict_order(lt),
    ensures
        sorted_by(sort_by_lt(s, lt), lt),
        sort_by_lt(s, lt).len() == s.len(),
    decreases s.len(),
{
    if s.len() > 0 {
        lemma_sort_by_lt_sorted(s.drop_last(), lt);
        lemma_insert_by_sorted(sort_by_lt(s.drop_last(), lt), s.last(), lt);
    }
}

proof fn lemma_insert_by_len<A>(s: Seq<A>, x: A, lt: spec_fn(A, A) -> bool)
    ensures
        insert_by(s, x, lt).len() == s.len() + 1,
    decreases s.len(),
{
    if s.len() > 0 && !lt(x, s[0]) {
        lemma_insert_by_len(s.drop_first(), x, lt);
    }
}

/// Sorting keeps the number of items.
pub proof fn lemma_sort_by_lt_len<A>(s: Seq<A>, lt: spec_fn(A, A) -> bool)
    ensures
        sort_by_lt(s, lt).len() == s.len(),
    decreases s.len(),
{
    if s.len() > 0 {
        lemma_sort_by_lt_len(s.drop_last(), lt);
        lemma_insert_by_len(sort_by_lt(s.drop_last(), lt), s.last(), lt);
    }
}

proof fn lemma_insert_by_keeps<A>(s: Seq<A>, x: A, lt: spec_fn(A, A) -> bool, p: spec_fn(A) -> bool)
    requires
        forall|i: int| 0 <= i < s.len() ==> p(#[trigger] s[i]),
        p(x),
    ensures
        forall|i: int| 0 <= i < insert_by(s, x, lt).len() ==> p(#[trigger] insert_by(s, x, lt)[i]),
    decreases s.len(),
{
    if s.len() > 0 {
        let r = insert_by(s, x, lt);
        if lt(x, s[0]) {
            assert forall|i: int| 0 <= i < r.len() implies p(#[trigger] r[i]) by {
                if i > 0 {
                    assert(r[i] == s[i - 1]);
                }
            }
        } else {
            let t = s.drop_first();
            assert forall|i: int| 0 <= i < t.len() implies p(#[trigger] t[i]) by {
                assert(t[i] == s[i + 1]);
            }
            lemma_insert_by_keeps(t, x, lt, p);
            let u = insert_by(t, x, lt);
            assert(r == seq![s[0]] + u);
            assert forall|i: int| 0 <= i < r.len() implies p(#[trigger] r[i]) by {
                if i > 0 {
                    assert(r[i] == u[i - 1]);
                }
            }
        }
    }
}

/// Sorting keeps every property that all the items have.
pub proof fn lemma_sort_by_lt_keeps<A>(s: Seq<A>, lt: spec_fn(A, A) -> bool, p: spec_fn(A) -> bool)
    requires
        forall|i: int| 0 <= i < s.len() ==> p(#[trigger] s[i]),
    ensures
        forall|i: int| 0 <= i < sort_by_lt(s, lt).len() ==> p(#[trigger] sort_by_lt(s, lt)[i]),
    decreases s.len(),
{
    if s.len() > 0 {
        let t = s.drop_last();
        assert forall|i: int| 0 <= i < t.len() implies p(#[trigger] t[i]) by {
            assert(t[i] == s[i]);
        }
        lemma_sort_by_lt_keeps(t, lt, p);
        assert(p(s[s.len() - 1]));
        lemma_insert_by_keeps(sort_by_lt(t, lt), s.last(), lt, p);
    }
}

proof fn lemma_insert_by_has<A>(s: Seq<A>, x: A, lt: spec_fn(A, A) -> bool, y: A)
    requires
        s.contains(y) || y == x,
    ensures
        insert_by(s, x, lt).contains(y),
    decreases s.len(),
{
    let r = insert_by(s, x, lt);
    if s.len() == 0 {
        assert(r[0] == x);
    } else if lt(x, s[0]) {
        if y == x {
            assert(r[0] == x);
        } else {
            let w = choose|w: int| 0 <= w < s.len() && s[w] == y;
            assert(r[w + 1] == y);
        }
    } else {
        let t = s.drop_first();
        if y == s[0] {
            assert(r[0] == y);
        } else {
            if y != x {
                let w = choose|w: int| 0 <= w < s.len() && s[w] == y;
                assert(w > 0);
                assert(t[w - 1] == y);
            }
            lemma_insert_by_has(t, x, lt, y);
            let u = insert_by(t, x, lt);
            let w = choose|w: int| 0 <= w < u.len() && u[w] == y;
            assert(r == seq![s[0]] + u);
            assert(r[w + 1] == y);
        }
    }
}

/// Sorting keeps every item.
pub proof fn lemma_sort_by_lt_has<A>(s: Seq<A>, lt: spec_fn(A, A) -> bool, y: A)
    requires
        s.contains(y),
    ensures
        sort_by_lt(s, lt).contains(y),
    decreases s.len(),
{
    let t = s.drop_last();
    if y != s.last() {
        let w = choose|w: int| 0 <= w < s.len() && s[w] == y;
        assert(w < s.len() - 1);
        assert(t[w] == y);
        lemma_sort_by_lt_has(t, lt, y);
    }
    lemma_insert_by_has(sort_by_lt(t, lt), s.last(), lt, y);
}

proof fn lemma_insert_by_is_insert<A>(s: Seq<A>, x: A, lt: spec_fn(A, A) -> bool) -> (i: int)
    ensures
        0 <= i <= s.len(),
        insert_by(s, x, lt) == s.insert(i, x),
    decreases s.len(),
{
    if s.len() == 0 {
        assert(s.insert(0, x) =~= seq![x]);
        0
    } else if lt(x, s[0]) {
        assert(s.insert(0, x) =~= seq![x] + s);
        0
    } else {
        let t = s.drop_first();
        let j = lemma_insert_by_is_insert(t, x, lt);
        assert(seq![s[0]] + t.insert(j, x) =~= s.insert(j + 1, x));
        j + 1
    }
}

/// No two items of `s` share a key under `f`.
pub open spec fn keys_distinct<A, K>(s: Seq<A>, f: spec_fn(A) -> K) -> bool {
    forall|i: int, j: int| 0 <= i < j < s.len() ==> f(#[trigger] s[i]) != f(#[trigger] s[j])
}

/// Sorting keeps items with distinct keys distinct.
pub proof fn lemma_sort_by_lt_distinct<A, K>(s: Seq<A>, lt: spec_fn(A, A) -> bool, f: spec_fn(A) -> K)
    requires
        keys_distinct(s, f),
    ensures
        keys_distinct(sort_by_lt(s, lt), f),
    decreases s.len(),
{
    if s.len() > 0 {
        let t = s.drop_last();
        let x = s.last();
        assert forall|i: int, j: int| 0 <= i < j < t.len() implies f(#[trigger] t[i]) != f(#[trigger] t[j]) by {
            assert(t[i] == s[i] && t[j] == s[j]);
        }
        lemma_sort_by_lt_distinct(t, lt, f);
        let st = sort_by_lt(t, lt);
        let p = |y: A| t.contains(y);
        assert forall|i: int| 0 <= i < t.len() implies p(#[trigger] t[i]) by {}
        lemma_sort_by_lt_keeps(t, lt, p);
        let k = lemma_insert_by_is_insert(st, x, lt);
        let r = st.insert(k, x);
        assert forall|a: int| 0 <= a < st.len() implies f(#[trigger] st[a]) != f(x) by {
            assert(p(st[a]));
            let w = choose|w: int| 0 <= w < t.len() && t[w] == st[a];
            assert(s[w] == t[w]);
            assert(s[s.len() - 1] == x);
        }
        lemma_sort_by_lt_len(t, lt);
        assert forall|i: int, j: int| 0 <= i < j < r.len() implies f(#[trigger] r[i]) != f(#[trigger] r[j]) by {
            if i < k && j < k {
                assert(r[i] == st[i] && r[j] == st[j]);
            } else if i < k && j == k {
                assert(r[i] == st[i] && r[j] == x);
            } else if i < k {
                assert(r[i] == st[i] && r[j] == st[j - 1]);
            } else if i == k {
                assert(r[i] == x && r[j] == st[j - 1]);
            } else {
                assert(r[i] == st[i - 1] && r[j] == st[j - 1]);
            }
        }
    }
}

} // verus!
