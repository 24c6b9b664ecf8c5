//! Counters keyed by strings, sets of strings, and sets of indices.
//!
//! A `CountMap` is an association list with distinct keys; its meaning is the
//! function from keys to counts (0 for absent keys). A `StringSet` is a list of
//! distinct strings, an `IndexSet` a list of distinct indices.

use vstd::prelude::*;

verus! {

/// Count stored for key `k` in the association list `es` (0 when absent).
pub open spec fn assoc(es: Seq<(String, usize)>, k: Seq<char>) -> nat
    decreases es.len(),
{
    if es.len() == 0 {
        0
    } else if es.last().0@ == k {
        es.last().1 as nat
    } else {
        assoc(es.drop_last(), k)
    }
}

/// No two entries of `es` share a key.
pub open spec fn distinct_keys(es: Seq<(String, usize)>) -> bool {
    forall|i: int, j: int|
        0 <= i < es.len() && 0 <= j < es.len() && i != j ==> #[trigger] es[i].0@ != #[trigger] es[j].0@
}

/// The keys of `es`, in order.
pub open spec fn key_seq(es: Seq<(String, usize)>) -> Seq<Seq<char>> {
    es.map_values(|e: (String, usize)| e.0@)
}

/// The keys and counts of `es`.
pub open spec fn pair_views(es: Seq<(String, usize)>) -> Seq<(Seq<char>, nat)> {
    es.map_values(|e: (String, usize)| (e.0@, e.1 as nat))
}

pub proof fn lemma_assoc_found(es: Seq<(String, usize)>, i: int)
    requires
        distinct_keys(es),
        0 <= i < es.len(),
    ensures
        assoc(es, es[i].0@) == es[i].1,
    decreases es.len(),
{
    if i < es.len() - 1 {
        assert(es.last().0@ != es[i].0@);
        lemma_assoc_found(es.drop_last(), i);
    }
}

pub proof fn lemma_assoc_absent(es: Seq<(String, usize)>, k: Seq<char>)
    requires
        forall|i: int| 0 <= i < es.len() ==> #[trigger] es[i].0@ != k,
    ensures
        assoc(es, k) == 0,
    decreases es.len(),
{
    if es.len() > 0 {
        assert(es.last().0@ != k);
        lemma_assoc_absent(es.drop_last(), k);
    }
}

/// Counts keyed by strings. Each key occurs once.
pub struct CountMap {
    entries: Vec<(String, usize)>,
}

impl CountMap {
    /// The entries are keyed by distinct strings.
    pub closed spec fn wf(&self) -> bool {
        distinct_keys(self.entries@)
    }

    /// The count for key `k`; 0 when `k` is absent.
    pub closed spec fn count(&self, k: Seq<char>) -> nat {
        assoc(self.entries@, k)
    }

    /// Whether `k` has an entry.
    pub closed spec fn has(&self, k: Seq<char>) -> bool {
        exists|i: int| 0 <= i < self.entries@.len() && self.entries@[i].0@ == k
    }

    /// Every entry holds a positive count, so the keys are exactly those counted.
    pub closed spec fn positive(&self) -> bool {
        forall|i: int| 0 <= i < self.entries@.len() ==> #[trigger] self.entries@[i].1 > 0
    }

    /// Number of entries.
    pub closed spec fn size(&self) -> nat {
        self.entries@.len()
    }

    /// The entries, in insertion order.
    pub closed spec fn entry_seq(&self) -> Seq<(String, usize)> {
        self.entries@
    }

    /// How the entry list determines the counts.
    pub proof fn lemma_entries(&self)
        requires
            self.wf(),
        ensures
            distinct_keys(self.entry_seq()),
            self.size() == self.entry_seq().len(),
            forall|i: int|
                0 <= i < self.entry_seq().len() ==> self.count(#[trigger] self.entry_seq()[i].0@)
                    == self.entry_seq()[i].1,
            forall|k: Seq<char>| self.has(k) <==> key_seq(self.entry_seq()).contains(k),
            forall|k: Seq<char>| !self.has(k) ==> #[trigger] self.count(k) == 0,
            self.positive() <==> (forall|i: int|
                0 <= i < self.entry_seq().len() ==> #[trigger] self.entry_seq()[i].1 > 0),
            self.positive() ==> (forall|k: Seq<char>| self.has(k) <==> #[trigger] self.count(k)
                > 0),
    {
        let es = self.entries@;
        assert(self.entry_seq() == es);
        assert(self.positive() <==> (forall|i: int| 0 <= i < es.len() ==> #[trigger] es[i].1 > 0));
        assert forall|i: int| 0 <= i < es.len() implies self.count(#[trigger] es[i].0@) == es[i].1 by {
            lemma_assoc_found(es, i);
        }
        assert forall|k: Seq<char>| self.has(k) <==> key_seq(es).contains(k) by {
            if self.has(k) {
                let i = choose|i: int| 0 <= i < es.len() && es[i].0@ == k;
                assert(key_seq(es)[i] == k);
            }
            if key_seq(es).contains(k) {
                let i = choose|i: int| 0 <= i < key_seq(es).len() && key_seq(es)[i] == k;
                assert(es[i].0@ == k);
            }
        }
        assert forall|k: Seq<char>| !self.has(k) implies #[trigger] self.count(k) == 0 by {
            lemma_assoc_absent(es, k);
        }
        if self.positive() {
            assert forall|k: Seq<char>| self.has(k) <==> #[trigger] self.count(k) > 0 by {
                if self.has(k) {
                    let i = choose|i: int| 0 <= i < es.len() && es[i].0@ == k;
                    lemma_assoc_found(es, i);
                } else {
                    lemma_assoc_absent(es, k);
                }
            }
        }
    }

    /// An empty counter.
    pub fn new() -> (m: CountMap)
        ensures
            m.wf(),
            m.positive(),
            m.size() == 0,
            forall|k: Seq<char>| #[trigger] m.count(k) == 0 && !m.has(k),
    {
        CountMap { entries: Vec::new() }
    }

    /// Position of the entry for `key`, if any.
    fn find(&self, key: &str) -> (r: Option<usize>)
        requires
            self.wf(),
        ensures
            match r {
                Some(i) => i < self.entries@.len() && self.entries@[i as int].0@ == key@,
                None => !self.has(key@),
            },
    {
        let mut i: usize = 0;
        while i < self.entries.len()
            invariant
                i <= self.entries@.len(),
                forall|j: int| 0 <= j < i ==> self.entries@[j].0@ != key@,
            decreases self.entries@.len() - i,
        {
            let k = self.entries[i].0.as_str();
            if crate::text::chars_eq(crate::text::chars_of(k).as_slice(), crate::text::chars_of(key).as_slice()) {
                return Some(i);
            }
            i += 1;
        }
        None
    }

    /// Adds `n` to the count of `key`.
    pub fn add(&mut self, key: &str, n: usize)
        requires
            old(self).wf(),
            old(self).count(key@) + n <= usize::MAX,
        ensures
            final(self).wf(),
            final(self).count(key@) == old(self).count(key@) + n,
            forall|k: Seq<char>| k != key@ ==> #[trigger] final(self).count(k) == old(self).count(k),
            final(self).has(key@),
            forall|k: Seq<char>| k != key@ ==> (#[trigger] final(self).has(k) <==> old(self).has(k)),
            old(self).positive() && n > 0 ==> final(self).positive(),
    {
        let ghost es = self.entries@;
        match self.find(key) {
            Some(i) => {
                proof {
                    lemma_assoc_found(es, i as int);
                }
                let v = self.entries[i].1;
                let k = crate::text::string_of(key);
                self.entries.set(i, (k, v + n));
                let ghost es2 = self.entries@;
                assert(distinct_keys(es2)) by {
                    assert forall|a: int, b: int|
                        0 <= a < es2.len() && 0 <= b < es2.len() && a != b implies #[trigger] es2[a].0@
                        != #[trigger] es2[b].0@ by {
                        assert(es[a].0@ != es[b].0@);
                    }
                }
                proof {
                    lemma_assoc_found(es2, i as int);
                    assert forall|kk: Seq<char>| kk != key@ implies #[trigger] assoc(es2, kk)
                        == assoc(es, kk) by {
                        if exists|j: int| 0 <= j < es.len() && es[j].0@ == kk {
                            let j = choose|j: int| 0 <= j < es.len() && es[j].0@ == kk;
                            lemma_assoc_found(es, j);
                            lemma_assoc_found(es2, j);
                        } else {
                            lemma_assoc_absent(es, kk);
                            assert forall|j: int| 0 <= j < es2.len() implies #[trigger] es2[j].0@
                                != kk by {
                                if j != i {
                                    assert(es2[j] == es[j]);
                                }
                            }
                            lemma_assoc_absent(es2, kk);
                        }
                    }
                    assert(es2[i as int].0@ == key@);
                    assert forall|kk: Seq<char>| kk != key@ implies (#[trigger] self.has(kk) <==> (
                    exists|j: int| 0 <= j < es.len() && es[j].0@ == kk)) by {
                        if self.has(kk) {
                            let j = choose|j: int| 0 <= j < es2.len() && es2[j].0@ == kk;
                            assert(j != i);
                            assert(es[j].0@ == kk);
                        }
                        if exists|j: int| 0 <= j < es.len() && es[j].0@ == kk {
                            let j = choose|j: int| 0 <= j < es.len() && es[j].0@ == kk;
                            assert(j != i);
                            assert(es2[j].0@ == kk);
                        }
                    }
                }
            },
            None => {
                let k = crate::text::string_of(key);
                self.entries.push((k, n));
                let ghost es2 = self.entries@;
                assert(es2.drop_last() == es);
                assert(distinct_keys(es2)) by {
                    assert forall|a: int, b: int|
                        0 <= a < es2.len() && 0 <= b < es2.len() && a != b implies #[trigger] es2[a].0@
                        != #[trigger] es2[b].0@ by {
                        if a < es.len() && b < es.len() {
                            assert(es[a].0@ != es[b].0@);
                        } else if a < es.len() {
                            assert(es2[a] == es[a]);
                        } else {
                            assert(es2[b] == es[b]);
                        }
                    }
                }
                proof {
                    lemma_assoc_absent(es, key@);
                    assert(es2[es.len() as int].0@ == key@);
                    assert forall|kk: Seq<char>| kk != key@ implies (#[trigger] self.has(kk) <==> (
                    exists|j: int| 0 <= j < es.len() && es[j].0@ == kk)) by {
                        if self.has(kk) {
                            let j = choose|j: int| 0 <= j < es2.len() && es2[j].0@ == kk;
                            assert(j < es.len());
                            assert(es[j].0@ == kk);
                        }
                        if exists|j: int| 0 <= j < es.len() && es[j].0@ == kk {
                            let j = choose|j: int| 0 <= j < es.len() && es[j].0@ == kk;
                            assert(es2[j].0@ == kk);
                        }
                    }
                }
            },
        }
    }

    /// The count of `key`, if it has an entry.
    pub fn get(&self, key: &str) -> (r: Option<usize>)
        requires
            self.wf(),
        ensures
            match r {
                Some(n) => self.has(key@) && n == self.count(key@),
                None => !self.has(key@) && self.count(key@) == 0,
            },
    {
        match self.find(key) {
            Some(i) => {
                proof {
                    lemma_assoc_found(self.entries@, i as int);
                }
                Some(self.entries[i].1)
            },
            None => {
                proof {
                    lemma_assoc_absent(self.entries@, key@);
                }
                None
            },
        }
    }

    /// Whether `key` has an entry.
    pub fn contains_key(&self, key: &str) -> (r: bool)
        requires
            self.wf(),
        ensures
            r == self.has(key@),
    {
        self.find(key).is_some()
    }

    /// Number of entries.
    pub fn len(&self) -> (n: usize)
        ensures
            n == self.size(),
    {
        self.entries.len()
    }

    /// Whether there are no entries.
    pub fn is_empty(&self) -> (b: bool)
        ensures
            b == (self.size() == 0),
    {
        self.entries.len() == 0
    }

    /// The entries, in the order their keys were first added.
    pub fn entries(&self) -> (r: &Vec<(String, usize)>)
        ensures
            r@ == self.entry_seq(),
    {
        &self.entries
    }
}

/// A set of strings, kept as a list of distinct strings.
pub struct StringSet {
    items: Vec<String>,
}

impl StringSet {
    /// The members are distinct.
    pub closed spec fn wf(&self) -> bool {
        forall|i: int, j: int|
            0 <= i < self.items@.len() && 0 <= j < self.items@.len() && i != j
                ==> #[trigger] self.items@[i]@ != #[trigger] self.items@[j]@
    }

    /// The members, as a set of character sequences.
    pub closed spec fn members(&self) -> Set<Seq<char>> {
        Set::new(|k: Seq<char>| exists|i: int| 0 <= i < self.items@.len() && self.items@[i]@ == k)
    }

    /// Number of members.
    pub closed spec fn size(&self) -> nat {
        self.items@.len()
    }

    /// An empty set.
    pub fn new() -> (s: StringSet)
        ensures
            s.wf(),
            s.members() == Set::<Seq<char>>::empty(),
            s.size() == 0,
    {
        let s = StringSet { items: Vec::new() };
        assert(s.members() =~= Set::<Seq<char>>::empty());
        s
    }

    fn find(&self, key: &str) -> (r: Option<usize>)
        ensures
            match r {
                Some(i) => i < self.items@.len() && self.items@[i as int]@ == key@,
                None => !self.members().contains(key@),
            },
    {
        let kc = crate::text::chars_of(key);
        let mut i: usize = 0;
        while i < self.items.len()
            invariant
                i <= self.items@.len(),
                kc@ == key@,
                forall|j: int| 0 <= j < i ==> self.items@[j]@ != key@,
            decreases self.items@.len() - i,
        {
            if crate::text::chars_eq(crate::text::chars_of(self.items[i].as_str()).as_slice(), kc.as_slice()) {
                return Some(i);
            }
            i += 1;
        }
        None
    }

    /// Whether `key` is a member.
    pub fn contains(&self, key: &str) -> (r: bool)
        ensures
            r == self.members().contains(key@),
    {
        self.find(key).is_some()
    }

    /// Adds `key`; returns whether it was absent.
    pub fn insert(&mut self, key: &str) -> (added: bool)
        requires
            old(self).wf(),
        ensures
            final(self).wf(),
            final(self).members() == old(self).members().insert(key@),
            added == !old(self).members().contains(key@),
    {
        match self.find(key) {
            Some(i) => {
                assert(self.members() =~= self.members().insert(key@));
                false
            },
            None => {
                let ghost old_items = self.items@;
                let ghost old_members = self.members();
                self.items.push(crate::text::string_of(key));
                assert forall|i: int| 0 <= i < old_items.len() implies self.items@[i] == old_items[i] by {}
                assert(self.members() =~= old_members.insert(key@)) by {
                    assert forall|k: Seq<char>| self.members().contains(k) implies old_members.insert(
                        key@,
                    ).contains(k) by {
                        let i = choose|i: int| 0 <= i < self.items@.len() && self.items@[i]@ == k;
                        if i < old_items.len() {
                            assert(old_items[i]@ == k);
                        }
                    }
                    assert forall|k: Seq<char>| old_members.insert(key@).contains(k) implies self.members().contains(k) by {
                        if k == key@ {
                            assert(self.items@[old_items.len() as int]@ == k);
                        } else {
                            let i = choose|i: int| 0 <= i < old_items.len() && old_items[i]@ == k;
                            assert(self.items@[i]@ == k);
                        }
                    }
                }
                true
            },
        }
    }

    /// Removes `key`; returns whether it was present.
    pub fn remove(&mut self, key: &str) -> (removed: bool)
        requires
            old(self).wf(),
        ensures
            final(self).wf(),
            final(self).members() == old(self).members().remove(key@),
            removed == old(self).members().contains(key@),
    {
        match self.find(key) {
            Some(i) => {
                let ghost old_items = self.items@;
                let ghost old_members = self.members();
                self.items.remove(i);
                assert forall|j: int| 0 <= j < self.items@.len() implies #[trigger] self.items@[j]
                    == (if j < i { old_items[j] } else { old_items[j + 1] }) by {}
                assert(self.members() =~= old_members.remove(key@)) by {
                    assert forall|k: Seq<char>| self.members().contains(k) implies old_members.remove(
                        key@,
                    ).contains(k) by {
                        let j = choose|j: int| 0 <= j < self.items@.len() && self.items@[j]@ == k;
                        if j < i {
                            assert(old_items[j]@ == k);
                            assert(j != i);
                        } else {
                            assert(old_items[j + 1]@ == k);
                        }
                    }
                    assert forall|k: Seq<char>| old_members.remove(key@).contains(k) implies self.members().contains(k) by {
                        let j = choose|j: int| 0 <= j < old_items.len() && old_items[j]@ == k;
                        assert(j != i);
                        if j < i {
                            assert(self.items@[j]@ == k);
                        } else {
                            assert(self.items@[j - 1]@ == k);
                        }
                    }
                }
                true
            },
            None => {
                assert(self.members() =~= self.members().remove(key@));
                false
            },
        }
    }

    /// Number of members.
    pub fn len(&self) -> (n: usize)
        ensures
            n == self.size(),
    {
        self.items.len()
    }

    /// Whether there are no members.
    pub fn is_empty(&self) -> (b: bool)
        ensures
            b == (self.members() == Set::<Seq<char>>::empty()),
    {
        if self.items.len() == 0 {
            assert(self.members() =~= Set::<Seq<char>>::empty());
            true
        } else {
            assert(self.members().contains(self.items@[0]@));
            false
        }
    }
}

/// A set of indices, kept as a list of distinct indices.
#[derive(Clone, Debug)]
pub struct IndexSet {
    items: Vec<usize>,
}

impl IndexSet {
    /// The members are distinct.
    pub closed spec fn wf(&self) -> bool {
        self.items@.no_duplicates()
    }

    /// The members.
    pub closed spec fn members(&self) -> Set<usize> {
        self.items@.to_set()
    }

    /// An empty set.
    pub fn new() -> (s: IndexSet)
        ensures
            s.wf(),
            s.members() == Set::<usize>::empty(),
    {
        let s = IndexSet { items: Vec::new() };
        assert(s.members() =~= Set::<usize>::empty());
        s
    }

    /// Whether `i` is a member.
    pub fn contains(&self, i: usize) -> (r: bool)
        ensures
            r == self.members().contains(i),
    {
        let mut k: usize = 0;
        while k < self.items.len()
            invariant
                k <= self.items@.len(),
                forall|j: int| 0 <= j < k ==> self.items@[j] != i,
            decreases self.items@.len() - k,
        {
            if self.items[k] == i {
                assert(self.items@.contains(i));
                return true;
            }
            k += 1;
        }
        false
    }

    /// Adds `i`; returns whether it was absent.
    pub fn insert(&mut self, i: usize) -> (added: bool)
        requires
            old(self).wf(),
        ensures
            final(self).wf(),
            final(self).members() == old(self).members().insert(i),
            added == !old(self).members().contains(i),
    {
        if self.contains(i) {
            assert(self.members() =~= self.members().insert(i));
            false
        } else {
            let ghost old_items = self.items@;
            self.items.push(i);
            assert(self.items@ == old_items.push(i));
            assert(self.members() =~= old_items.to_set().insert(i)) by {
                assert forall|x: usize| self.items@.contains(x) <==> (old_items.contains(x) || x == i) by {
                    if self.items@.contains(x) {
                        let j = choose|j: int| 0 <= j < self.items@.len() && self.items@[j] == x;
                        if j < old_items.len() {
                            assert(old_items[j] == x);
                        }
                    }
                    if old_items.contains(x) {
                        let j = choose|j: int| 0 <= j < old_items.len() && old_items[j] == x;
                        assert(self.items@[j] == x);
                    }
                    if x == i {
                        assert(self.items@[old_items.len() as int] == x);
                    }
                }
            }
            true
        }
    }

    /// Removes `i`; returns whether it was present.
    pub fn remove(&mut self, i: usize) -> (removed: bool)
        requires
            old(self).wf(),
        ensures
            final(self).wf(),
            final(self).members() == old(self).members().remove(i),
            removed == old(self).members().contains(i),
    {
        let mut k: usize = 0;
        while k < self.items.len()
            invariant
                k <= self.items@.len(),
                self.items@ == old(self).items@,
                self.items@.no_duplicates(),
                forall|j: int| 0 <= j < k ==> self.items@[j] != i,
            decreases self.items@.len() - k,
        {
            if self.items[k] == i {
                let ghost old_items = self.items@;
                self.items.remove(k);
                assert forall|j: int| 0 <= j < self.items@.len() implies #[trigger] self.items@[j]
                    == (if j < k { old_items[j] } else { old_items[j + 1] }) by {}
                assert(self.members() =~= old_items.to_set().remove(i)) by {
                    assert forall|x: usize| self.items@.contains(x) <==> (old_items.contains(x) && x != i) by {
                        if self.items@.contains(x) {
                            let j = choose|j: int| 0 <= j < self.items@.len() && self.items@[j] == x;
                            if j < k {
                                assert(old_items[j] == x);
                                assert(old_items[j] != old_items[k as int]);
                            } else {
                                assert(old_items[j + 1] == x);
                                assert(old_items[j + 1] != old_items[k as int]);
                            }
                        }
                        if old_items.contains(x) && x != i {
                            let j = choose|j: int| 0 <= j < old_items.len() && old_items[j] == x;
                            assert(j != k);
                            if j < k {
                                assert(self.items@[j] == x);
                            } else {
                                assert(self.items@[j - 1] == x);
                            }
                        }
                    }
                }
                assert(self.items@.no_duplicates()) by {
                    assert forall|a: int, b: int| 0 <= a < self.items@.len() && 0 <= b < self.items@.len() && a != b implies self.items@[a] != self.items@[b] by {
                        let oa = if a < k { a } else { a + 1 };
                        let ob = if b < k { b } else { b + 1 };
                        assert(oa != ob);
                        assert(self.items@[a] == old_items[oa]);
                        assert(self.items@[b] == old_items[ob]);
                    }
                }
                return true;
            }
            k += 1;
        }
        assert(!self.items@.contains(i));
        assert(self.members() =~= self.members().remove(i));
        false
    }

    /// Whether there are no members.
    pub fn is_empty(&self) -> (b: bool)
        ensures
            b == (self.members() == Set::<usize>::empty()),
    {
        if self.items.len() == 0 {
            assert(self.members() =~= Set::<usize>::empty());
            true
        } else {
            assert(self.members().contains(self.items@[0]));
            false
        }
    }

    /// Number of members.
    pub fn len(&self) -> (n: usize)
        requires
            self.wf(),
        ensures
            n == self.members().len(),
    {
        proof {
            self.items@.unique_seq_to_set();
        }
        self.items.len()
    }

    /// A copy of this set.
    pub fn copy(&self) -> (s: IndexSet)
        ensures
            s.wf() == self.wf(),
            s.members() == self.members(),
    {
        IndexSet { items: self.items.clone() }
    }
}

} // verus!
