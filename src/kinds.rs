//! Counted, sorted summaries of input and output types (`"2x P2WPKH"`).
use vstd::prelude::*;
use crate::text::{decimal, decimal_text};

verus! {

broadcast use vstd::seq_lib::group_to_multiset_ensures;

/// The character content of each string.
pub open spec fn texts(v: Seq<String>) -> Seq<Seq<char>> {
    v.map_values(|s: String| s@)
}

/// `a` comes no later than `b` in lexicographic order of code points (the
/// order of `String`'s `Ord`, since UTF-8 keeps code point order).
pub open spec fn lex_le(a: Seq<char>, b: Seq<char>) -> bool {
    ||| (a.len() <= b.len() && a == b.subrange(0, a.len() as int))
    ||| exists|k: int|
        0 <= k < a.len() && k < b.len() && a.subrange(0, k) == b.subrange(0, k) && (#[trigger] a[k]
            as int) < (b[k] as int)
}

/// Each string comes no later than the next one.
pub open spec fn lex_sorted(s: Seq<Seq<char>>) -> bool {
    forall|i: int| 0 <= i < s.len() - 1 ==> #[trigger] lex_le(s[i], s[i + 1])
}

/// The labels of `ls`, each once, in order of first occurrence.
pub open spec fn distinct_labels(ls: Seq<Seq<char>>) -> Seq<Seq<char>>
    decreases ls.len(),
{
    if ls.len() == 0 {
        Seq::empty()
    } else {
        let p = distinct_labels(ls.drop_last());
        if p.contains(ls.last()) {
            p
        } else {
            p.push(ls.last())
        }
    }
}

/// How often `l` occurs in `ls`.
pub open spec fn count_in(ls: Seq<Seq<char>>, l: Seq<char>) -> nat
    decreases ls.len(),
{
    if ls.len() == 0 {
        0
    } else {
        count_in(ls.drop_last(), l) + if ls.last() == l {
            1nat
        } else {
            0nat
        }
    }
}

/// The summary line of a label seen `count` times: `"<count>x <label>"`.
pub open spec fn kind_entry(count: nat, label: Seq<char>) -> Seq<char> {
    decimal(count) + seq!['x', ' '] + label
}

/// One summary line per distinct label, in order of first occurrence.
pub open spec fn kind_entries(ls: Seq<Seq<char>>) -> Seq<Seq<char>> {
    distinct_labels(ls).map_values(|l: Seq<char>| kind_entry(count_in(ls, l), l))
}

proof fn lemma_count_in_bound(ls: Seq<Seq<char>>, l: Seq<char>)
    ensures
        count_in(ls, l) <= ls.len(),
    decreases ls.len(),
{
    if ls.len() > 0 {
        lemma_count_in_bound(ls.drop_last(), l);
    }
}

/// Whether `a` comes no later than `b`; when it does not, `b` comes before `a`.
pub fn lex_le_exec(a: &str, b: &str) -> (r: bool)
    ensures
        r == lex_le(a@, b@),
        !r ==> lex_le(b@, a@),
{
    let la = a.unicode_len();
    let lb = b.unicode_len();
    let mut i: usize = 0;
    while i < la && i < lb
        invariant
            la == a@.len(),
            lb == b@.len(),
            i <= la,
            i <= lb,
            a@.subrange(0, i as int) == b@.subrange(0, i as int),
        decreases la - i,
    {
        let ca = a.get_char(i);
        let cb = b.get_char(i);
        if ca != cb {
            proof {
                assert forall|k: int| 0 <= k < a@.len() && k < b@.len() && a@.subrange(0, k) == b@.subrange(0, k)
                    implies k <= i by {
                    if k > i {
                        assert(a@.subrange(0, k)[i as int] == b@.subrange(0, k)[i as int]);
                    }
                }
                assert forall|k: int| 0 <= k < i implies a@[k] == b@[k] by {
                    assert(a@.subrange(0, i as int)[k] == b@.subrange(0, i as int)[k]);
                }
                if a@.len() <= b@.len() && a@ == b@.subrange(0, a@.len() as int) {
                    assert(a@[i as int] == b@.subrange(0, a@.len() as int)[i as int]);
                }
                if b@.len() <= a@.len() && b@ == a@.subrange(0, b@.len() as int) {
                    assert(b@[i as int] == a@.subrange(0, b@.len() as int)[i as int]);
                }
            }
            return (ca as u32) < (cb as u32);
        }
        proof {
            assert(a@.subrange(0, i + 1) =~= a@.subrange(0, i as int).push(ca));
            assert(b@.subrange(0, i + 1) =~= b@.subrange(0, i as int).push(cb));
        }
        i = i + 1;
    }
    proof {
        assert forall|k: int| 0 <= k < i implies a@[k] == b@[k] by {
            assert(a@.subrange(0, i as int)[k] == b@.subrange(0, i as int)[k]);
        }
        if i == la {
            assert(a@ =~= a@.subrange(0, i as int));
        }
        if i == lb {
            assert(b@ =~= b@.subrange(0, i as int));
        }
    }
    la <= lb
}

/// Sorts strings in lexicographic order of code points.
pub fn sort_texts(v: &Vec<String>) -> (r: Vec<String>)
    ensures
        texts(r@).to_multiset() == texts(v@).to_multiset(),
        lex_sorted(texts(r@)),
{
    let mut out: Vec<String> = Vec::new();
    let mut i: usize = 0;
    while i < v.len()
        invariant
            i <= v@.len(),
            texts(out@).to_multiset() == texts(v@.subrange(0, i as int)).to_multiset(),
            lex_sorted(texts(out@)),
        decreases v@.len() - i,
    {
        let x = v[i].clone();
        let mut p: usize = 0;
        let mut found = false;
        while p < out.len() && !found
            invariant
                p <= out@.len(),
                found ==> p < out@.len() && lex_le(x@, out@[p as int]@),
                forall|q: int| 0 <= q < p ==> #[trigger] lex_le(out@[q]@, x@),
            decreases out@.len() - p + if found { 0int } else { 1int },
        {
            if lex_le_exec(out[p].as_str(), x.as_str()) {
                p = p + 1;
            } else {
                found = true;
            }
        }
        let ghost before = out@;
        out.insert(p, x);
        proof {
            assert(texts(out@) =~= texts(before).insert(p as int, x@));
            assert(texts(v@.subrange(0, i + 1)) =~= texts(v@.subrange(0, i as int)).push(x@));
            assert forall|j: int| 0 <= j < texts(out@).len() - 1 implies #[trigger] lex_le(
                texts(out@)[j],
                texts(out@)[j + 1],
            ) by {
                if j + 1 < p {
                    assert(lex_le(texts(before)[j], texts(before)[j + 1]));
                } else if j + 1 == p {
                    assert(lex_le(before[j]@, x@));
                } else if j == p {
                } else {
                    let i0 = j - 1;
                    assert(lex_le(texts(before)[i0], texts(before)[i0 + 1]));
                }
            }
        }
        i = i + 1;
    }
    proof {
        assert(v@.subrange(0, v@.len() as int) =~= v@);
    }
    out
}

/// Summarises type labels: one line `"<count>x <label>"` per distinct label,
/// sorted.
pub fn kind_summary(labels: &Vec<String>) -> (r: Vec<String>)
    ensures
        texts(r@).to_multiset() == kind_entries(texts(labels@)).to_multiset(),
        lex_sorted(texts(r@)),
{
    let ghost ls = texts(labels@);
    let mut distinct: Vec<String> = Vec::new();
    let mut counts: Vec<usize> = Vec::new();
    let mut i: usize = 0;
    while i < labels.len()
        invariant
            i <= labels@.len(),
            ls == texts(labels@),
            distinct@.len() == counts@.len(),
            texts(distinct@) == distinct_labels(ls.subrange(0, i as int)),
            texts(distinct@).no_duplicates(),
            forall|j: int|
                0 <= j < counts@.len() ==> #[trigger] counts@[j] == count_in(
                    ls.subrange(0, i as int),
                    distinct@[j]@,
                ),
        decreases labels@.len() - i,
    {
        let ghost prefix = ls.subrange(0, i as int);
        let ghost next = ls.subrange(0, i + 1);
        assert(next.drop_last() =~= prefix);
        let mut j: usize = 0;
        let mut found = false;
        while j < distinct.len() && !found
            invariant
                i < labels@.len(),
                j <= distinct@.len(),
                found ==> j < distinct@.len() && distinct@[j as int]@ == labels@[i as int]@,
                forall|q: int| 0 <= q < j ==> distinct@[q]@ != labels@[i as int]@,
            decreases distinct@.len() - j + if found { 0int } else { 1int },
        {
            if distinct[j] == labels[i] {
                found = true;
            } else {
                j = j + 1;
            }
        }
        if found {
            proof {
                lemma_count_in_bound(prefix, distinct@[j as int]@);
                assert(texts(distinct@)[j as int] == ls[i as int]);
            }
            let c = counts[j];
            counts.set(j, c + 1);
        } else {
            proof {
                assert forall|q: int| 0 <= q < texts(distinct@).len() implies texts(distinct@)[q] != ls[i as int] by {}
                assert(!distinct_labels(prefix).contains(ls[i as int]));
                assert forall|q: int| 0 <= q < prefix.len() implies prefix[q] != ls[i as int] by {
                    lemma_first_occurrence_listed(prefix, q);
                }
                lemma_count_in_absent(prefix, ls[i as int]);
            }
            distinct.push(labels[i].clone());
            counts.push(1);
        }
        proof {
            assert(next.last() == ls[i as int]);
            assert(texts(distinct@) =~= distinct_labels(next));
            assert forall|q: int| 0 <= q < counts@.len() implies #[trigger] counts@[q] == count_in(
                next,
                distinct@[q]@,
            ) by {
                assert(texts(distinct@)[q] == distinct@[q]@);
            }
        }
        i = i + 1;
    }
    proof {
        assert(ls.subrange(0, ls.len() as int) =~= ls);
    }
    let mut entries: Vec<String> = Vec::new();
    let mut k: usize = 0;
    while k < distinct.len()
        invariant
            k <= distinct@.len(),
            distinct@.len() == counts@.len(),
            texts(distinct@) == distinct_labels(ls),
            forall|j: int| 0 <= j < counts@.len() ==> #[trigger] counts@[j] == count_in(ls, distinct@[j]@),
            texts(entries@) =~= kind_entries(ls).subrange(0, k as int),
        decreases distinct@.len() - k,
    {
        let mut e = decimal_text(counts[k] as u128);
        proof {
            reveal_strlit("x ");
        }
        e.append("x ");
        e.append(distinct[k].as_str());
        proof {
            assert(distinct_labels(ls)[k as int] == distinct@[k as int]@);
            assert(kind_entries(ls)[k as int] == e@);
            assert(texts(entries@.push(e)) =~= texts(entries@).push(e@));
            assert(kind_entries(ls).subrange(0, k + 1) =~= kind_entries(ls).subrange(0, k as int).push(e@));
        }
        entries.push(e);
        k = k + 1;
    }
    proof {
        assert(kind_entries(ls).subrange(0, k as int) =~= kind_entries(ls));
    }
    sort_texts(&entries)
}

/// A label that occurs in `ls` is among its distinct labels.
proof fn lemma_first_occurrence_listed(ls: Seq<Seq<char>>, q: int)
    requires
        0 <= q < ls.len(),
    ensures
        distinct_labels(ls).contains(ls[q]),
    decreases ls.len(),
{
    if q < ls.len() - 1 {
        lemma_first_occurrence_listed(ls.drop_last(), q);
        assert(ls.drop_last()[q] == ls[q]);
        let p = distinct_labels(ls.drop_last());
        let idx = choose|k: int| 0 <= k < p.len() && p[k] == ls[q];
        if !p.contains(ls.last()) {
            assert(p.push(ls.last())[idx] == ls[q]);
        }
    } else {
        let p = distinct_labels(ls.drop_last());
        if !p.contains(ls.last()) {
            assert(p.push(ls.last())[p.len() as int] == ls.last());
        }
    }
}

/// A label that does not occur has count zero.
proof fn lemma_count_in_absent(ls: Seq<Seq<char>>, l: Seq<char>)
    requires
        forall|q: int| 0 <= q < ls.len() ==> ls[q] != l,
    ensures
        count_in(ls, l) == 0,
    decreases ls.len(),
{
    if ls.len() > 0 {
        assert(ls.last() == ls[ls.len() - 1]);
        lemma_count_in_absent(ls.drop_last(), l);
    }
}


/// `a` and `b` agree on their first `k` characters.
spec fn agree(a: Seq<char>, b: Seq<char>, k: int) -> bool {
    forall|i: int| 0 <= i < k ==> a[i] == b[i]
}

proof fn lemma_agree_subrange(a: Seq<char>, b: Seq<char>, k: int)
    requires
        0 <= k <= a.len(),
        k <= b.len(),
    ensures
        agree(a, b, k) <==> a.subrange(0, k) == b.subrange(0, k),
{
    if agree(a, b, k) {
        assert(a.subrange(0, k) =~= b.subrange(0, k));
    }
    if a.subrange(0, k) == b.subrange(0, k) {
        assert forall|i: int| 0 <= i < k implies a[i] == b[i] by {
            assert(a.subrange(0, k)[i] == b.subrange(0, k)[i]);
        }
    }
}

/// `lex_le` by agreement: `a` is a prefix of `b`, or they first differ at
/// `k` where `a` is smaller.
proof fn lemma_lex_le_agree(a: Seq<char>, b: Seq<char>)
    ensures
        lex_le(a, b) <==> ((a.len() <= b.len() && agree(a, b, a.len() as int)) || exists|k: int|
            0 <= k < a.len() && k < b.len() && agree(a, b, k) && (#[trigger] a[k] as int) < (b[k] as int)),
{
    if a.len() <= b.len() {
        lemma_agree_subrange(a, b, a.len() as int);
        assert(a.subrange(0, a.len() as int) =~= a);
    }
    assert forall|k: int| 0 <= k < a.len() && k < b.len() implies (agree(a, b, k) <==> a.subrange(0, k)
        == b.subrange(0, k)) by {
        lemma_agree_subrange(a, b, k);
    }
}

proof fn lemma_lex_scan(a: Seq<char>, b: Seq<char>, i: int)
    requires
        0 <= i <= a.len(),
        i <= b.len(),
        agree(a, b, i),
    ensures
        lex_le(a, b) || lex_le(b, a),
    decreases a.len() - i,
{
    if i < a.len() && i < b.len() && a[i] == b[i] {
        assert(agree(a, b, i + 1));
        lemma_lex_scan(a, b, i + 1);
    } else {
        lemma_agree_subrange(a, b, i);
        if i == a.len() {
            assert(a.subrange(0, i) =~= a);
            assert(lex_le(a, b));
        } else if i == b.len() {
            assert(b.subrange(0, i) =~= b);
            assert(lex_le(b, a));
        } else if (a[i] as int) < (b[i] as int) {
            assert(lex_le(a, b));
        } else {
            assert((b[i] as int) < (a[i] as int));
            assert(lex_le(b, a));
        }
    }
}

proof fn lemma_lex_antisymmetric(a: Seq<char>, b: Seq<char>)
    requires
        lex_le(a, b),
        lex_le(b, a),
    ensures
        a == b,
{
    lemma_lex_le_agree(a, b);
    lemma_lex_le_agree(b, a);
    if a.len() <= b.len() && agree(a, b, a.len() as int) {
        if b.len() <= a.len() && agree(b, a, b.len() as int) {
            assert(a =~= b);
        } else {
            let k = choose|k: int| 0 <= k < b.len() && k < a.len() && agree(b, a, k) && (#[trigger] b[k] as int) < (a[k] as int);
            assert(a[k] == b[k]);
        }
    } else {
        let k = choose|k: int| 0 <= k < a.len() && k < b.len() && agree(a, b, k) && (#[trigger] a[k] as int) < (b[k] as int);
        if b.len() <= a.len() && agree(b, a, b.len() as int) {
            assert(a[k] == b[k]);
        } else {
            let m = choose|m: int| 0 <= m < b.len() && m < a.len() && agree(b, a, m) && (#[trigger] b[m] as int) < (a[m] as int);
            if k < m {
                assert(a[k] == b[k]);
            } else if m < k {
                assert(a[m] == b[m]);
            }
        }
    }
}

proof fn lemma_lex_transitive(a: Seq<char>, b: Seq<char>, c: Seq<char>)
    requires
        lex_le(a, b),
        lex_le(b, c),
    ensures
        lex_le(a, c),
{
    lemma_lex_le_agree(a, b);
    lemma_lex_le_agree(b, c);
    lemma_lex_le_agree(a, c);
    if a.len() <= b.len() && agree(a, b, a.len() as int) {
        if b.len() <= c.len() && agree(b, c, b.len() as int) {
            assert(agree(a, c, a.len() as int));
        } else {
            let k = choose|k: int| 0 <= k < b.len() && k < c.len() && agree(b, c, k) && (#[trigger] b[k] as int) < (c[k] as int);
            if k < a.len() {
                assert(agree(a, c, k));
                assert(a[k] == b[k]);
            } else {
                assert(agree(a, c, a.len() as int));
            }
        }
    } else {
        let k = choose|k: int| 0 <= k < a.len() && k < b.len() && agree(a, b, k) && (#[trigger] a[k] as int) < (b[k] as int);
        if b.len() <= c.len() && agree(b, c, b.len() as int) {
            assert(agree(a, c, k));
            assert(b[k] == c[k]);
        } else {
            let m = choose|m: int| 0 <= m < b.len() && m < c.len() && agree(b, c, m) && (#[trigger] b[m] as int) < (c[m] as int);
            if k < m {
                assert(agree(a, c, k));
                assert(b[k] == c[k]);
            } else if m < k {
                assert(agree(a, c, m));
                assert(a[m] == b[m]);
            } else {
                assert(agree(a, c, k));
            }
        }
    }
}

/// Lexicographic order of code points is a total order.
proof fn lemma_lex_total()
    ensures
        vstd::relations::total_ordering(|a: Seq<char>, b: Seq<char>| lex_le(a, b)),
{
    let leq = |a: Seq<char>, b: Seq<char>| lex_le(a, b);
    assert forall|a: Seq<char>| #[trigger] leq(a, a) by {
        assert(a.subrange(0, a.len() as int) =~= a);
    }
    assert forall|a: Seq<char>, b: Seq<char>| #[trigger] leq(a, b) && #[trigger] leq(b, a) implies a == b by {
        lemma_lex_antisymmetric(a, b);
    }
    assert forall|a: Seq<char>, b: Seq<char>, c: Seq<char>| #[trigger] leq(a, b) && #[trigger] leq(b, c) implies leq(
        a,
        c,
    ) by {
        lemma_lex_transitive(a, b, c);
    }
    assert forall|a: Seq<char>, b: Seq<char>| #[trigger] leq(a, b) || #[trigger] leq(b, a) by {
        lemma_lex_scan(a, b, 0);
    }
}

proof fn lemma_lex_sorted_all_pairs(s: Seq<Seq<char>>)
    requires
        lex_sorted(s),
    ensures
        vstd::relations::sorted_by(s, |a: Seq<char>, b: Seq<char>| lex_le(a, b)),
{
    assert forall|i: int, j: int| 0 <= i < j < s.len() implies lex_le(s[i], s[j]) by {
        lemma_lex_sorted_step(s, i, j);
    }
}

proof fn lemma_lex_sorted_step(s: Seq<Seq<char>>, i: int, j: int)
    requires
        lex_sorted(s),
        0 <= i < j < s.len(),
    ensures
        lex_le(s[i], s[j]),
    decreases j - i,
{
    if j == i + 1 {
        assert(lex_le(s[i], s[i + 1]));
    } else {
        lemma_lex_sorted_step(s, i, j - 1);
        let p = j - 1;
        assert(lex_le(s[p], s[p + 1]));
        lemma_lex_transitive(s[i], s[j - 1], s[j]);
    }
}

/// Two sorted summaries of the same labels are the same: a kind summary is
/// unique.
pub proof fn lemma_kind_summary_unique(x: Seq<Seq<char>>, y: Seq<Seq<char>>, labels: Seq<Seq<char>>)
    requires
        x.to_multiset() == kind_entries(labels).to_multiset(),
        y.to_multiset() == kind_entries(labels).to_multiset(),
        lex_sorted(x),
        lex_sorted(y),
    ensures
        x == y,
{
    lemma_lex_total();
    lemma_lex_sorted_all_pairs(x);
    lemma_lex_sorted_all_pairs(y);
    vstd::seq_lib::lemma_sorted_unique(x, y, |a: Seq<char>, b: Seq<char>| lex_le(a, b));
}

} // verus!
