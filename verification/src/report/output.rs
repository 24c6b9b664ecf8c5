//! Text formatting shared by the report renderers.

use vstd::prelude::*;

use crate::text::string_from_chars;

verus! {

/// The decimal digit character for `d` (`d < 10`).
pub open spec fn digit_char(d: nat) -> char {
    if d == 0 {
        '0'
    } else if d == 1 {
        '1'
    } else if d == 2 {
        '2'
    } else if d == 3 {
        '3'
    } else if d == 4 {
        '4'
    } else if d == 5 {
        '5'
    } else if d == 6 {
        '6'
    } else if d == 7 {
        '7'
    } else if d == 8 {
        '8'
    } else {
        '9'
    }
}

/// The decimal representation of `n`, without leading zeros (`"0"` for zero).
pub open spec fn decimal(n: nat) -> Seq<char>
    decreases n,
{
    if n < 10 {
        seq![digit_char(n)]
    } else {
        decimal(n / 10).push(digit_char(n % 10))
    }
}

/// `s` with a `,` inserted before every group of three characters counted from
/// the right, except at the very front.
pub open spec fn group_thousands(s: Seq<char>) -> Seq<char>
    decreases s.len(),
{
    if s.len() <= 3 {
        s
    } else {
        group_thousands(s.take(s.len() - 3)) + seq![','] + s.skip(s.len() - 3)
    }
}

fn digit(d: usize) -> (c: char)
    requires
        d < 10,
    ensures
        c == digit_char(d as nat),
{
    if d == 0 {
        '0'
    } else if d == 1 {
        '1'
    } else if d == 2 {
        '2'
    } else if d == 3 {
        '3'
    } else if d == 4 {
        '4'
    } else if d == 5 {
        '5'
    } else if d == 6 {
        '6'
    } else if d == 7 {
        '7'
    } else if d == 8 {
        '8'
    } else {
        '9'
    }
}

/// The decimal digits of `n`.
pub fn decimal_chars(n: usize) -> (out: Vec<char>)
    ensures
        out@ == decimal(n as nat),
{
    let mut acc: Vec<char> = Vec::new();
    let mut m = n;
    while m >= 10
        invariant
            decimal(n as nat) == decimal(m as nat) + acc@,
        decreases m,
    {
        let c = digit(m % 10);
        let ghost old_acc = acc@;
        acc.insert(0, c);
        assert(acc@ =~= seq![c] + old_acc);
        assert(decimal(m as nat) == decimal((m / 10) as nat).push(c));
        assert(decimal(m as nat) + old_acc =~= decimal((m / 10) as nat) + acc@);
        m = m / 10;
    }
    let ghost old_acc = acc@;
    acc.insert(0, digit(m));
    assert(acc@ =~= decimal(m as nat) + old_acc);
    acc
}

/// Format a number with thousands separators (e.g. `1234567` becomes `"1,234,567"`).
pub fn fmt_num(n: usize) -> (s: String)
    ensures
        s@ == group_thousands(decimal(n as nat)),
{
    let d = decimal_chars(n);
    let mut out: Vec<char> = Vec::new();
    let mut k = d.len();
    assert(d@.take(k as int) == d@);
    assert(group_thousands(d@) == group_thousands(d@.take(k as int)) + out@);
    while k > 3
        invariant
            k <= d@.len(),
            group_thousands(d@) == group_thousands(d@.take(k as int)) + out@,
        decreases k,
    {
        let ghost old_out = out@;
        let mut chunk: Vec<char> = Vec::new();
        chunk.push(',');
        chunk.push(d[k - 3]);
        chunk.push(d[k - 2]);
        chunk.push(d[k - 1]);
        let ghost pre = d@.take(k as int);
        assert(pre.take(pre.len() - 3) == d@.take(k - 3));
        assert(chunk@ =~= seq![','] + pre.skip(pre.len() - 3));
        chunk.append(&mut out);
        out = chunk;
        assert(group_thousands(pre) + old_out =~= group_thousands(d@.take(k - 3)) + out@);
        k -= 3;
    }
    let mut head: Vec<char> = Vec::new();
    let mut i: usize = 0;
    while i < k
        invariant
            i <= k <= d@.len(),
            head@ == d@.take(i as int),
        decreases k - i,
    {
        head.push(d[i]);
        i += 1;
    }
    let ghost take_k = d@.take(k as int);
    assert(head@ == take_k);
    assert(group_thousands(take_k) == take_k);
    head.append(&mut out);
    string_from_chars(head.as_slice())
}


/// `s` without its `,` characters.
pub open spec fn without_commas(s: Seq<char>) -> Seq<char>
    decreases s.len(),
{
    if s.len() == 0 {
        s
    } else if s.last() == ',' {
        without_commas(s.drop_last())
    } else {
        without_commas(s.drop_last()).push(s.last())
    }
}

proof fn lemma_without_commas_concat(a: Seq<char>, b: Seq<char>)
    ensures
        without_commas(a + b) == without_commas(a) + without_commas(b),
    decreases b.len(),
{
    if b.len() == 0 {
        assert(a + b =~= a);
        assert(without_commas(b) =~= Seq::<char>::empty());
        assert(without_commas(a) + without_commas(b) =~= without_commas(a));
    } else {
        lemma_without_commas_concat(a, b.drop_last());
        assert((a + b).drop_last() =~= a + b.drop_last());
        assert((a + b).last() == b.last());
        if b.last() == ',' {
        } else {
            assert(without_commas(a) + without_commas(b.drop_last()).push(b.last()) =~= (
            without_commas(a) + without_commas(b.drop_last())).push(b.last()));
        }
    }
}

proof fn lemma_without_commas_none(s: Seq<char>)
    requires
        !s.contains(','),
    ensures
        without_commas(s) == s,
    decreases s.len(),
{
    if s.len() > 0 {
        assert(!s.drop_last().contains(',')) by {
            if s.drop_last().contains(',') {
                let i = choose|i: int| 0 <= i < s.drop_last().len() && s.drop_last()[i] == ',';
                assert(s[i] == ',');
            }
        }
        lemma_without_commas_none(s.drop_last());
        assert(s.last() != ',') by {
            assert(s[s.len() - 1] == s.last());
        }
        assert(s.drop_last().push(s.last()) =~= s);
    }
}

/// Grouping only inserts separators: with the commas taken out, the grouped digits
/// are the digits; and one comma is added per full group of three after the first
/// digit.
pub proof fn lemma_grouping_keeps_digits(s: Seq<char>)
    requires
        !s.contains(','),
    ensures
        without_commas(group_thousands(s)) == s,
        s.len() > 0 ==> group_thousands(s).len() == s.len() + (s.len() - 1) / 3,
    decreases s.len(),
{
    if s.len() <= 3 {
        lemma_without_commas_none(s);
    } else {
        let head = s.take(s.len() - 3);
        let tail = s.skip(s.len() - 3);
        assert(!head.contains(',')) by {
            if head.contains(',') {
                let i = choose|i: int| 0 <= i < head.len() && head[i] == ',';
                assert(s[i] == ',');
            }
        }
        assert(!tail.contains(',')) by {
            if tail.contains(',') {
                let i = choose|i: int| 0 <= i < tail.len() && tail[i] == ',';
                assert(s[s.len() - 3 + i] == ',');
            }
        }
        lemma_grouping_keeps_digits(head);
        lemma_without_commas_none(tail);
        let g = group_thousands(head);
        lemma_without_commas_concat(g + seq![','], tail);
        lemma_without_commas_concat(g, seq![',']);
        assert(without_commas(seq![',']) =~= Seq::<char>::empty()) by {
            let c = seq![','];
            assert(c.len() == 1);
            assert(c.last() == ',');
            assert(c.drop_last() =~= Seq::<char>::empty());
            assert(without_commas(c.drop_last()) =~= Seq::<char>::empty());
        }
        assert(head + tail =~= s);
        assert((s.len() - 1) / 3 == (head.len() - 1) / 3 + 1);
    }
}

/// A decimal representation holds digits only.
proof fn lemma_decimal_digits(n: nat)
    ensures
        !decimal(n).contains(','),
        decimal(n).len() > 0,
    decreases n,
{
    if n >= 10 {
        lemma_decimal_digits(n / 10);
        let d = decimal(n);
        assert(d == decimal(n / 10).push(digit_char(n % 10)));
        assert(!d.contains(',')) by {
            if d.contains(',') {
                let i = choose|i: int| 0 <= i < d.len() && d[i] == ',';
                if i < d.len() - 1 {
                    assert(decimal(n / 10)[i] == ',');
                }
            }
        }
    } else {
        assert(!seq![digit_char(n)].contains(',')) by {
            if seq![digit_char(n)].contains(',') {
                let i = choose|i: int| 0 <= i < 1 && seq![digit_char(n)][i] == ',';
            }
        }
    }
}

/// Where grouping puts its separators: every `,` stands four places after the next
/// one (or four places before the end), the first character is never one, and the
/// length is never a multiple of four; so the text splits at its commas into a
/// first group of one to three characters and then groups of exactly three.
proof fn lemma_grouping_positions(s: Seq<char>)
    requires
        s.len() > 0,
        !s.contains(','),
    ensures
        group_thousands(s).len() % 4 != 0,
        forall|i: int|
            0 <= i < group_thousands(s).len() ==> (#[trigger] group_thousands(s)[i] == ',' <==> (
            i > 0 && (group_thousands(s).len() - i) % 4 == 0)),
        group_thousands(s).contains(',') <==> s.len() > 3,
    decreases s.len(),
{
    let t = group_thousands(s);
    if s.len() <= 3 {
        assert forall|i: int| 0 <= i < t.len() implies !(#[trigger] t[i] == ',') by {
            assert(s[i] == t[i]);
        }
    } else {
        let head = s.take(s.len() - 3);
        let tail = s.skip(s.len() - 3);
        assert(!head.contains(',')) by {
            if head.contains(',') {
                let i = choose|i: int| 0 <= i < head.len() && head[i] == ',';
                assert(s[i] == ',');
            }
        }
        lemma_grouping_positions(head);
        let g = group_thousands(head);
        assert(t == g + seq![','] + tail);
        assert(g.len() > 0) by {
            if head.len() <= 3 {
            } else {
                lemma_grouping_keeps_digits(head);
            }
        }
        assert forall|i: int| 0 <= i < t.len() implies (#[trigger] t[i] == ',' <==> (i > 0 && (
        t.len() - i) % 4 == 0)) by {
            if i < g.len() {
                assert(t[i] == g[i]);
                assert((t.len() - i) % 4 == (g.len() - i) % 4);
            } else if i == g.len() {
                assert(t[i] == ',');
            } else {
                assert(t[i] == s[s.len() - 3 + (i - g.len() - 1)]);
            }
        }
        assert(t[g.len() as int] == ',');
    }
}

/// A decimal representation is longer than three digits exactly from 1000 on.
proof fn lemma_decimal_len(n: nat)
    ensures
        decimal(n).len() > 3 <==> n >= 1000,
{
    if n >= 10 {
        assert(decimal(n).len() == decimal(n / 10).len() + 1);
        if n / 10 >= 10 {
            assert(decimal(n / 10).len() == decimal(n / 10 / 10).len() + 1);
            assert(n / 10 / 10 == n / 100);
            if n / 100 >= 10 {
                lemma_decimal_digits(n / 100 / 10);
                assert(decimal(n / 100).len() == decimal(n / 100 / 10).len() + 1);
            }
        }
    }
}

/// `fmt_num` only adds separators to the decimal digits of `n`: without its commas
/// it is the plain decimal representation, and it is longer by one comma for every
/// full group of three digits after the first. A comma appears exactly from 1000
/// on; the text never starts with one, and its commas stand exactly where the
/// count from the end is a multiple of four, so it splits into a first group of one
/// to three digits followed by groups of exactly three.
pub proof fn lemma_fmt_num_digits(n: nat)
    ensures
        without_commas(group_thousands(decimal(n))) == decimal(n),
        group_thousands(decimal(n)).len() == decimal(n).len() + (decimal(n).len() - 1) / 3,
        group_thousands(decimal(n)).contains(',') <==> n >= 1000,
        group_thousands(decimal(n)).len() % 4 != 0,
        forall|i: int|
            0 <= i < group_thousands(decimal(n)).len() ==> (#[trigger] group_thousands(
                decimal(n),
            )[i] == ',' <==> (i > 0 && (group_thousands(decimal(n)).len() - i) % 4 == 0)),
{
    lemma_decimal_digits(n);
    lemma_grouping_keeps_digits(decimal(n));
    lemma_grouping_positions(decimal(n));
    lemma_decimal_len(n);
}

} // verus!
