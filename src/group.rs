//! Merging events that share a replacement transaction and a timestamp.
use vstd::prelude::*;
use crate::html::{
    ReplacementContext, ReplacementGroupContext, ReplacementGroupDeltaContext, TransactionContext,
    TransactionView,
};
use crate::text::{feerate_delta_string, feerate_delta_text};

verus! {

/// What identifies a group: the replacement's id and the event's timestamp.
pub open spec fn event_key(c: ReplacementContext) -> (Seq<char>, u64) {
    (c.replacement.txid@, c.timestamp)
}

/// The key of a finished group.
pub open spec fn group_key(g: ReplacementGroupContext) -> (Seq<char>, u64) {
    (g.replacement.txid@, g.timestamp)
}

/// The content of each transaction context.
pub open spec fn views(v: Seq<TransactionContext>) -> Seq<TransactionView> {
    v.map_values(|t: TransactionContext| t@)
}

/// The ids of transaction views.
pub open spec fn ids(v: Seq<TransactionView>) -> Seq<Seq<char>> {
    v.map_values(|t: TransactionView| t.txid)
}

/// The keys of `es`, each once, in order of first occurrence.
pub open spec fn group_keys(es: Seq<ReplacementContext>) -> Seq<(Seq<char>, u64)>
    decreases es.len(),
{
    if es.len() == 0 {
        Seq::empty()
    } else {
        let p = group_keys(es.drop_last());
        if p.contains(event_key(es.last())) {
            p
        } else {
            p.push(event_key(es.last()))
        }
    }
}

/// The replacement shown for key `k`: the one of the first event with that key.
pub open spec fn replacement_of(es: Seq<ReplacementContext>, k: (Seq<char>, u64)) -> TransactionView
    decreases es.len(),
{
    if es.len() == 0 {
        arbitrary()
    } else if group_keys(es.drop_last()).contains(k) {
        replacement_of(es.drop_last(), k)
    } else {
        es.last().replacement@
    }
}

/// The transactions replaced under key `k`, one per id (the first seen), in
/// order of first occurrence.
pub open spec fn replaced_of(es: Seq<ReplacementContext>, k: (Seq<char>, u64)) -> Seq<TransactionView>
    decreases es.len(),
{
    if es.len() == 0 {
        Seq::empty()
    } else {
        let p = replaced_of(es.drop_last(), k);
        let e = es.last();
        if event_key(e) == k && !ids(p).contains(e.replaced.txid@) {
            p.push(e.replaced@)
        } else {
            p
        }
    }
}

/// The total fee of some transactions.
pub open spec fn sum_fees(v: Seq<TransactionView>) -> int
    decreases v.len(),
{
    if v.len() == 0 {
        0
    } else {
        sum_fees(v.drop_last()) + v.last().fee
    }
}

/// The total virtual size of some transactions.
pub open spec fn sum_vsizes(v: Seq<TransactionView>) -> int
    decreases v.len(),
{
    if v.len() == 0 {
        0
    } else {
        sum_vsizes(v.drop_last()) + v.last().vsize
    }
}

/// `x` held to the range of `i64`.
pub open spec fn clamp_i64(x: int) -> i64 {
    if x > i64::MAX {
        i64::MAX
    } else if x < i64::MIN {
        i64::MIN
    } else {
        x as i64
    }
}

/// The feerate gain shown for a group: present only when exactly one
/// transaction was replaced.
pub open spec fn delta_feerate_text(replacement: TransactionView, replaced: Seq<TransactionView>) -> Seq<char> {
    if replaced.len() == 1 {
        seq!['+'] + feerate_delta_text(
            replacement.fee as nat,
            replacement.vsize as nat,
            replaced[0].fee as nat,
            replaced[0].vsize as nat,
        ) + " sat/vByte"@
    } else {
        Seq::empty()
    }
}

/// `g` is the group of `es` under its own key.
pub open spec fn is_group_of(g: ReplacementGroupContext, es: Seq<ReplacementContext>) -> bool {
    let k = group_key(g);
    let replaced = replaced_of(es, k);
    &&& group_keys(es).contains(k)
    &&& g.replacement@ == replacement_of(es, k)
    &&& views(g.replaced@) == replaced
    &&& g.delta.fee == clamp_i64(g.replacement.fee - sum_fees(replaced))
    &&& g.delta.vsize == clamp_i64(g.replacement.vsize - sum_vsizes(replaced))
    &&& g.delta.feerate@ == delta_feerate_text(g.replacement@, replaced)
}

/// `gs` holds one group per key of `es`, most recent first.
pub open spec fn are_groups_of(gs: Seq<ReplacementGroupContext>, es: Seq<ReplacementContext>) -> bool {
    &&& gs.len() == group_keys(es).len()
    &&& forall|i: int| 0 <= i < gs.len() ==> is_group_of(#[trigger] gs[i], es)
    &&& forall|i: int, j: int|
        0 <= i < gs.len() && 0 <= j < gs.len() && i != j ==> group_key(#[trigger] gs[i]) != group_key(
            #[trigger] gs[j],
        )
    &&& forall|i: int, j: int|
        0 <= i < j < gs.len() ==> (#[trigger] gs[i]).timestamp >= (#[trigger] gs[j]).timestamp
}

/// A group being assembled.
struct GroupAccumulator {
    replacement: TransactionContext,
    timestamp: u64,
    replaced: Vec<TransactionContext>,
}

proof fn lemma_group_keys_grow(es: Seq<ReplacementContext>, k: (Seq<char>, u64))
    requires
        es.len() > 0,
        group_keys(es.drop_last()).contains(k),
    ensures
        group_keys(es).contains(k),
{
    let p = group_keys(es.drop_last());
    if !p.contains(event_key(es.last())) {
        let i = choose|i: int| 0 <= i < p.len() && p[i] == k;
        assert(p.push(event_key(es.last()))[i] == k);
    }
}

proof fn lemma_replaced_of_unkeyed(es: Seq<ReplacementContext>, k: (Seq<char>, u64))
    requires
        !group_keys(es).contains(k),
    ensures
        replaced_of(es, k).len() == 0,
    decreases es.len(),
{
    if es.len() > 0 {
        if group_keys(es.drop_last()).contains(k) {
            lemma_group_keys_grow(es, k);
        }
        let p = group_keys(es.drop_last());
        if !p.contains(event_key(es.last())) {
            assert(p.push(event_key(es.last()))[p.len() as int] == event_key(es.last()));
        }
        lemma_replaced_of_unkeyed(es.drop_last(), k);
    }
}

proof fn lemma_group_keys_no_duplicates(es: Seq<ReplacementContext>)
    ensures
        group_keys(es).no_duplicates(),
    decreases es.len(),
{
    if es.len() > 0 {
        lemma_group_keys_no_duplicates(es.drop_last());
    }
}

proof fn lemma_sums_step(v: Seq<TransactionView>, x: TransactionView)
    ensures
        sum_fees(v.push(x)) == sum_fees(v) + x.fee,
        sum_vsizes(v.push(x)) == sum_vsizes(v) + x.vsize,
{
    assert(v.push(x).drop_last() =~= v);
}

/// Finds the accumulator for key `(txid, timestamp)`.
fn find_accumulator(accs: &Vec<GroupAccumulator>, txid: &String, timestamp: u64) -> (r: Option<usize>)
    ensures
        r matches Some(j) ==> j < accs@.len() && accs@[j as int].replacement.txid@ == txid@
            && accs@[j as int].timestamp == timestamp,
        r is None ==> forall|j: int|
            0 <= j < accs@.len() ==> !(#[trigger] accs@[j].replacement.txid@ == txid@ && accs@[j].timestamp
                == timestamp),
{
    let mut j: usize = 0;
    while j < accs.len()
        invariant
            j <= accs@.len(),
            forall|q: int|
                0 <= q < j ==> !(#[trigger] accs@[q].replacement.txid@ == txid@ && accs@[q].timestamp
                    == timestamp),
        decreases accs@.len() - j,
    {
        if accs[j].timestamp == timestamp && accs[j].replacement.txid == *txid {
            return Some(j);
        }
        j = j + 1;
    }
    None
}

/// Whether a transaction with id `txid` is among `txs`.
fn contains_txid(txs: &Vec<TransactionContext>, txid: &String) -> (r: bool)
    ensures
        r == ids(views(txs@)).contains(txid@),
{
    let mut j: usize = 0;
    while j < txs.len()
        invariant
            j <= txs@.len(),
            forall|q: int| 0 <= q < j ==> #[trigger] txs@[q].txid@ != txid@,
        decreases txs@.len() - j,
    {
        if txs[j].txid == *txid {
            assert(ids(views(txs@))[j as int] == txid@);
            return true;
        }
        j = j + 1;
    }
    assert forall|q: int| 0 <= q < ids(views(txs@)).len() implies ids(views(txs@))[q] != txid@ by {
        assert(ids(views(txs@))[q] == txs@[q].txid@);
    }
    false
}

/// Folds the events into one accumulator per key, in order of first occurrence.
fn accumulate(es: &Vec<ReplacementContext>) -> (accs: Vec<GroupAccumulator>)
    ensures
        accs@.len() == group_keys(es@).len(),
        forall|j: int|
            0 <= j < accs@.len() ==> {
                let k = group_keys(es@)[j];
                &&& (#[trigger] accs@[j]).replacement.txid@ == k.0
                &&& accs@[j].timestamp == k.1
                &&& accs@[j].replacement@ == replacement_of(es@, k)
                &&& views(accs@[j].replaced@) == replaced_of(es@, k)
            },
{
    let mut accs: Vec<GroupAccumulator> = Vec::new();
    let mut i: usize = 0;
    while i < es.len()
        invariant
            i <= es@.len(),
            accs@.len() == group_keys(es@.subrange(0, i as int)).len(),
            forall|j: int|
                0 <= j < accs@.len() ==> {
                    let k = group_keys(es@.subrange(0, i as int))[j];
                    &&& (#[trigger] accs@[j]).replacement.txid@ == k.0
                    &&& accs@[j].timestamp == k.1
                    &&& accs@[j].replacement@ == replacement_of(es@.subrange(0, i as int), k)
                    &&& views(accs@[j].replaced@) == replaced_of(es@.subrange(0, i as int), k)
                },
        decreases es@.len() - i,
    {
        let ghost prefix = es@.subrange(0, i as int);
        let ghost next = es@.subrange(0, i + 1);
        let ghost old_accs = accs@;
        let e = &es[i];
        proof {
            assert(next.drop_last() =~= prefix);
            assert(next.last() == *e);
            lemma_group_keys_no_duplicates(prefix);
        }
        match find_accumulator(&accs, &e.replacement.txid, e.timestamp) {
            Some(j) => {
                proof {
                    assert(group_keys(prefix)[j as int] == event_key(*e));
                    assert(group_keys(prefix).contains(event_key(*e)));
                    assert(group_keys(next) == group_keys(prefix));
                }
                if !contains_txid(&accs[j].replaced, &e.replaced.txid) {
                    let mut acc = accs.remove(j);
                    let t = e.replaced.duplicate();
                    acc.replaced.push(t);
                    accs.insert(j, acc);
                    proof {
                        assert(views(accs@[j as int].replaced@) =~= views(old_accs[j as int].replaced@).push(
                            e.replaced@,
                        ));
                    }
                }
                proof {
                    assert forall|q: int| 0 <= q < accs@.len() implies {
                        let k = group_keys(next)[q];
                        &&& (#[trigger] accs@[q]).replacement.txid@ == k.0
                        &&& accs@[q].timestamp == k.1
                        &&& accs@[q].replacement@ == replacement_of(next, k)
                        &&& views(accs@[q].replaced@) == replaced_of(next, k)
                    } by {
                        let k = group_keys(prefix)[q];
                        assert(group_keys(prefix).contains(k));
                        if q != j {
                            assert(k != event_key(*e));
                            assert(accs@[q] == old_accs[q]);
                        }
                    }
                }
            },
            None => {
                proof {
                    assert forall|q: int| 0 <= q < group_keys(prefix).len() implies group_keys(prefix)[q]
                        != event_key(*e) by {
                        assert(!(old_accs[q].replacement.txid@ == e.replacement.txid@ && old_accs[q].timestamp
                            == e.timestamp));
                    }
                    assert(!group_keys(prefix).contains(event_key(*e)));
                    lemma_replaced_of_unkeyed(prefix, event_key(*e));
                    assert(ids(replaced_of(prefix, event_key(*e))) =~= Seq::<Seq<char>>::empty());
                }
                let mut replaced: Vec<TransactionContext> = Vec::new();
                replaced.push(e.replaced.duplicate());
                accs.push(
                    GroupAccumulator {
                        replacement: e.replacement.duplicate(),
                        timestamp: e.timestamp,
                        replaced,
                    },
                );
                proof {
                    assert(views(replaced@) =~= replaced_of(prefix, event_key(*e)).push(e.replaced@));
                    assert forall|q: int| 0 <= q < accs@.len() implies {
                        let k = group_keys(next)[q];
                        &&& (#[trigger] accs@[q]).replacement.txid@ == k.0
                        &&& accs@[q].timestamp == k.1
                        &&& accs@[q].replacement@ == replacement_of(next, k)
                        &&& views(accs@[q].replaced@) == replaced_of(next, k)
                    } by {
                        if q < old_accs.len() {
                            let k = group_keys(prefix)[q];
                            assert(group_keys(prefix).contains(k));
                            assert(accs@[q] == old_accs[q]);
                        }
                    }
                }
            },
        }
        i = i + 1;
    }
    proof {
        assert(es@.subrange(0, es@.len() as int) =~= es@);
    }
    accs
}

/// `replacement - total`, held to the range of `i64`.
fn clamped_difference(replacement: u64, total: u128) -> (r: i64)
    ensures
        r == clamp_i64(replacement - total),
{
    if total > replacement as u128 {
        let d = total - replacement as u128;
        if d >= 0x8000_0000_0000_0000 {
            i64::MIN
        } else {
            -(d as i64)
        }
    } else {
        let d = replacement as u128 - total;
        if d > i64::MAX as u128 {
            i64::MAX
        } else {
            d as i64
        }
    }
}

/// Turns an accumulator into a finished group with its deltas.
fn finish_group(acc: GroupAccumulator) -> (g: ReplacementGroupContext)
    ensures
        g.replacement == acc.replacement,
        g.timestamp == acc.timestamp,
        g.replaced == acc.replaced,
        g.delta.fee == clamp_i64(acc.replacement.fee - sum_fees(views(acc.replaced@))),
        g.delta.vsize == clamp_i64(acc.replacement.vsize - sum_vsizes(views(acc.replaced@))),
        g.delta.feerate@ == delta_feerate_text(acc.replacement@, views(acc.replaced@)),
{
    let mut fees: u128 = 0;
    let mut vsizes: u128 = 0;
    let mut i: usize = 0;
    while i < acc.replaced.len()
        invariant
            i <= acc.replaced@.len(),
            fees == sum_fees(views(acc.replaced@.subrange(0, i as int))),
            vsizes == sum_vsizes(views(acc.replaced@.subrange(0, i as int))),
            fees <= i * 0xffff_ffff_ffff_ffff,
            vsizes <= i * 0xffff_ffff_ffff_ffff,
        decreases acc.replaced@.len() - i,
    {
        proof {
            let v = views(acc.replaced@.subrange(0, i as int));
            let x = acc.replaced@[i as int]@;
            assert(views(acc.replaced@.subrange(0, i + 1)) =~= v.push(x));
            lemma_sums_step(v, x);
            assert((i + 1) * 0xffff_ffff_ffff_ffff <= 0xffff_ffff_ffff_ffff * 0xffff_ffff_ffff_ffff)
                by (nonlinear_arith)
                requires
                    i < 0xffff_ffff_ffff_ffff,
            ;
            assert((i + 1) * 0xffff_ffff_ffff_ffff == i * 0xffff_ffff_ffff_ffff + 0xffff_ffff_ffff_ffff)
                by (nonlinear_arith);
        }
        fees = fees + acc.replaced[i].fee as u128;
        vsizes = vsizes + acc.replaced[i].vsize as u128;
        i = i + 1;
    }
    proof {
        assert(acc.replaced@.subrange(0, acc.replaced@.len() as int) =~= acc.replaced@);
    }
    let fee = clamped_difference(acc.replacement.fee, fees);
    let vsize = clamped_difference(acc.replacement.vsize, vsizes);
    let feerate = if acc.replaced.len() == 1 {
        let mut s = String::from_str("+");
        let t = feerate_delta_string(
            acc.replacement.fee,
            acc.replacement.vsize,
            acc.replaced[0].fee,
            acc.replaced[0].vsize,
        );
        s.append(t.as_str());
        s.append(" sat/vByte");
        proof {
            reveal_strlit("+");
            assert(views(acc.replaced@)[0] == acc.replaced@[0]@);
        }
        s
    } else {
        String::new()
    };
    ReplacementGroupContext {
        timestamp: acc.timestamp,
        replaced: acc.replaced,
        replacement: acc.replacement,
        delta: ReplacementGroupDeltaContext { fee, vsize, feerate },
    }
}

/// Merges events that share a replacement transaction and a timestamp into
/// one group each, with the replaced transactions listed once per id, and
/// orders the groups by timestamp, most recent first.
pub fn build_replacement_groups(replacements: Vec<ReplacementContext>) -> (r: Vec<ReplacementGroupContext>)
    ensures
        are_groups_of(r@, replacements@),
{
    let ghost es = replacements@;
    let mut accs = accumulate(&replacements);
    let ghost keys = group_keys(es);
    proof {
        lemma_group_keys_no_duplicates(es);
    }
    let total = accs.len();
    let ghost n = total as nat;
    let mut out: Vec<ReplacementGroupContext> = Vec::new();
    let mut k: usize = 0;
    while accs.len() > 0
        invariant
            keys == group_keys(es),
            keys.no_duplicates(),
            n == keys.len(),
            n <= usize::MAX,
            k + accs@.len() == n,
            out@.len() == k,
            forall|j: int|
                0 <= j < accs@.len() ==> {
                    let key = keys[k + j];
                    &&& (#[trigger] accs@[j]).replacement.txid@ == key.0
                    &&& accs@[j].timestamp == key.1
                    &&& accs@[j].replacement@ == replacement_of(es, key)
                    &&& views(accs@[j].replaced@) == replaced_of(es, key)
                },
            forall|m: int| 0 <= m < out@.len() ==> is_group_of(#[trigger] out@[m], es),
            forall|m: int|
                0 <= m < out@.len() ==> exists|t: int| 0 <= t < k && keys[t] == group_key(#[trigger] out@[m]),
            forall|a: int, b: int|
                0 <= a < out@.len() && 0 <= b < out@.len() && a != b ==> group_key(#[trigger] out@[a])
                    != group_key(#[trigger] out@[b]),
            forall|a: int, b: int|
                0 <= a < b < out@.len() ==> (#[trigger] out@[a]).timestamp >= (#[trigger] out@[b]).timestamp,
        decreases accs@.len(),
    {
        let ghost old_accs = accs@;
        let acc = accs.remove(0);
        proof {
            assert(old_accs[0] == acc);
            assert forall|j: int| 0 <= j < accs@.len() implies accs@[j] == old_accs[j + 1] by {}
        }
        let g = finish_group(acc);
        proof {
            let key = keys[k as int];
            assert(group_key(g) == key);
            assert(keys.contains(key));
            assert(is_group_of(g, es));
        }
        let mut p: usize = 0;
        let mut found = false;
        while p < out.len() && !found
            invariant
                p <= out@.len(),
                found ==> p < out@.len() && out@[p as int].timestamp < g.timestamp,
                forall|q: int| 0 <= q < p ==> (#[trigger] out@[q]).timestamp >= g.timestamp,
            decreases out@.len() - p + if found { 0int } else { 1int },
        {
            if out[p].timestamp < g.timestamp {
                found = true;
            } else {
                p = p + 1;
            }
        }
        let ghost before = out@;
        let ghost gk = group_key(g);
        proof {
            assert forall|m: int| 0 <= m < before.len() implies group_key(#[trigger] before[m]) != gk by {
                let t = choose|t: int| 0 <= t < k && keys[t] == group_key(before[m]);
                assert(keys[t] != keys[k as int]);
            }
            assert forall|q: int| p <= q < before.len() implies (#[trigger] before[q]).timestamp
                < g.timestamp by {
                if found {
                    assert(before[p as int].timestamp >= before[q].timestamp);
                }
            }
        }
        out.insert(p, g);
        proof {
            assert forall|m: int| 0 <= m < out@.len() implies exists|t: int|
                0 <= t < k + 1 && keys[t] == group_key(#[trigger] out@[m]) by {
                if m < p {
                    assert(out@[m] == before[m]);
                    let t = choose|t: int| 0 <= t < k && keys[t] == group_key(before[m]);
                } else if m == p {
                    assert(keys[k as int] == group_key(out@[m]));
                } else {
                    assert(out@[m] == before[m - 1]);
                    let t = choose|t: int| 0 <= t < k && keys[t] == group_key(before[m - 1]);
                }
            }
            assert forall|m: int| 0 <= m < out@.len() implies is_group_of(#[trigger] out@[m], es) by {
                if m < p {
                    assert(out@[m] == before[m]);
                } else if m > p {
                    assert(out@[m] == before[m - 1]);
                }
            }
            assert forall|a: int, b: int|
                0 <= a < out@.len() && 0 <= b < out@.len() && a != b implies group_key(
                    #[trigger] out@[a],
                ) != group_key(#[trigger] out@[b]) by {
                let a0 = if a < p { a } else { a - 1 };
                let b0 = if b < p { b } else { b - 1 };
                if a != p && b != p {
                    assert(group_key(before[a0]) != group_key(before[b0]));
                }
            }
            assert forall|a: int, b: int| 0 <= a < b < out@.len() implies (#[trigger] out@[a]).timestamp
                >= (#[trigger] out@[b]).timestamp by {
                let a0 = if a < p { a } else { a - 1 };
                let b0 = if b < p { b } else { b - 1 };
                if a != p && b != p {
                    assert(before[a0].timestamp >= before[b0].timestamp);
                }
            }
        }
        k = k + 1;
    }
    out
}


/// The ids of the transactions replaced by events with key `k`.
pub open spec fn replaced_ids_under(es: Seq<ReplacementContext>, k: (Seq<char>, u64)) -> Set<Seq<char>> {
    Set::new(
        |id: Seq<char>|
            exists|q: int| 0 <= q < es.len() && event_key(#[trigger] es[q]) == k && es[q].replaced.txid@ == id,
    )
}

proof fn lemma_replaced_of_ids(es: Seq<ReplacementContext>, k: (Seq<char>, u64))
    ensures
        ids(replaced_of(es, k)).no_duplicates(),
        ids(replaced_of(es, k)).to_set() == replaced_ids_under(es, k),
    decreases es.len(),
{
    if es.len() == 0 {
        assert(ids(replaced_of(es, k)).to_set() =~= replaced_ids_under(es, k));
    } else {
        let prev = es.drop_last();
        let p = replaced_of(prev, k);
        let e = es.last();
        lemma_replaced_of_ids(prev, k);
        if event_key(e) == k && !ids(p).contains(e.replaced.txid@) {
            assert(ids(p.push(e.replaced@)) =~= ids(p).push(e.replaced.txid@));
        }
        let ide = e.replaced.txid@;
        let sp = replaced_ids_under(prev, k);
        let se = replaced_ids_under(es, k);
        assert forall|id: Seq<char>| se.contains(id) <==> (sp.contains(id) || (event_key(e) == k && id == ide)) by {
            if sp.contains(id) {
                let q = choose|q: int|
                    0 <= q < prev.len() && event_key(#[trigger] prev[q]) == k && prev[q].replaced.txid@ == id;
                assert(es[q] == prev[q]);
            }
            if se.contains(id) {
                let q = choose|q: int|
                    0 <= q < es.len() && event_key(#[trigger] es[q]) == k && es[q].replaced.txid@ == id;
                if q < prev.len() {
                    assert(prev[q] == es[q]);
                }
            }
            if event_key(e) == k && id == ide {
                assert(es[es.len() - 1] == e);
            }
        }
        if event_key(e) == k && !ids(p).contains(ide) {
            ids(p).lemma_push_to_set_commute(ide);
            assert(se =~= sp.insert(ide));
        } else if event_key(e) == k {
            assert(ids(p).to_set().contains(ide));
            assert(se =~= sp);
        } else {
            assert(se =~= sp);
        }
        assert(ids(replaced_of(es, k)).to_set() =~= replaced_ids_under(es, k));
    }
}

/// Within a group each replaced transaction appears once, and there are as
/// many as there are distinct replaced ids among the events of its key.
pub proof fn lemma_group_replaced_distinct(es: Seq<ReplacementContext>, g: ReplacementGroupContext)
    requires
        is_group_of(g, es),
    ensures
        ids(views(g.replaced@)).no_duplicates(),
        ids(views(g.replaced@)).to_set() == replaced_ids_under(es, group_key(g)),
        g.replaced@.len() == replaced_ids_under(es, group_key(g)).len(),
{
    lemma_replaced_of_ids(es, group_key(g));
    ids(views(g.replaced@)).unique_seq_to_set();
}

/// A group's fee and size deltas are the replacement's fee and size less the
/// totals of what it replaced, whenever that difference fits in an `i64`; its
/// feerate delta is shown exactly when one transaction was replaced.
pub proof fn lemma_group_delta(es: Seq<ReplacementContext>, g: ReplacementGroupContext)
    requires
        is_group_of(g, es),
    ensures
        i64::MIN <= g.replacement.fee - sum_fees(views(g.replaced@)) <= i64::MAX ==> g.delta.fee
            == g.replacement.fee - sum_fees(views(g.replaced@)),
        i64::MIN <= g.replacement.vsize - sum_vsizes(views(g.replaced@)) <= i64::MAX ==> g.delta.vsize
            == g.replacement.vsize - sum_vsizes(views(g.replaced@)),
        g.delta.feerate@.len() > 0 <==> g.replaced@.len() == 1,
{
}

proof fn lemma_same_keys(a: Seq<(Seq<char>, u64)>, b: Seq<(Seq<char>, u64)>, x: (Seq<char>, u64))
    requires
        a.no_duplicates(),
        b.no_duplicates(),
        a.len() == b.len(),
        forall|i: int| 0 <= i < a.len() ==> b.contains(#[trigger] a[i]),
        b.contains(x),
    ensures
        a.contains(x),
{
    a.unique_seq_to_set();
    b.unique_seq_to_set();
    vstd::seq_lib::seq_to_set_is_finite(b);
    assert forall|y: (Seq<char>, u64)| a.to_set().contains(y) implies b.to_set().contains(y) by {
        let i = choose|i: int| 0 <= i < a.len() && a[i] == y;
        assert(b.contains(a[i]));
    }
    assert(a.to_set().subset_of(b.to_set()));
    if !a.contains(x) {
        assert(b.to_set().contains(x));
        assert(a.to_set().subset_of(b.to_set().remove(x)));
        vstd::set_lib::lemma_len_subset(a.to_set(), b.to_set().remove(x));
    }
}

/// `a` shows the same group as `b`.
pub open spec fn same_group(a: ReplacementGroupContext, b: ReplacementGroupContext) -> bool {
    &&& a.timestamp == b.timestamp
    &&& a.replacement@ == b.replacement@
    &&& views(a.replaced@) == views(b.replaced@)
    &&& a.delta.fee == b.delta.fee
    &&& a.delta.vsize == b.delta.vsize
    &&& a.delta.feerate@ == b.delta.feerate@
}

/// Some group of `gs` shows the same as `g`.
pub open spec fn shows_same_group(gs: Seq<ReplacementGroupContext>, g: ReplacementGroupContext) -> bool {
    exists|j: int| 0 <= j < gs.len() && same_group(#[trigger] gs[j], g)
}

/// Grouping the same events twice gives the same groups: as many, and each
/// group of one result shows the same as some group of the other.
pub proof fn lemma_grouping_deterministic(
    es: Seq<ReplacementContext>,
    r1: Seq<ReplacementGroupContext>,
    r2: Seq<ReplacementGroupContext>,
)
    requires
        are_groups_of(r1, es),
        are_groups_of(r2, es),
    ensures
        r1.len() == r2.len(),
        forall|i: int| 0 <= i < r1.len() ==> shows_same_group(r2, #[trigger] r1[i]),
{
    let keys = group_keys(es);
    lemma_group_keys_no_duplicates(es);
    let k2 = r2.map_values(|g: ReplacementGroupContext| group_key(g));
    assert forall|a: int, b: int| 0 <= a < k2.len() && 0 <= b < k2.len() && a != b implies k2[a] != k2[b] by {
        assert(group_key(r2[a]) != group_key(r2[b]));
    }
    assert forall|i: int| 0 <= i < k2.len() implies keys.contains(#[trigger] k2[i]) by {
        assert(is_group_of(r2[i], es));
    }
    assert forall|i: int| 0 <= i < r1.len() implies shows_same_group(r2, #[trigger] r1[i]) by {
        assert(is_group_of(r1[i], es));
        let k = group_key(r1[i]);
        lemma_same_keys(k2, keys, k);
        let j = choose|j: int| 0 <= j < k2.len() && k2[j] == k;
        assert(is_group_of(r2[j], es));
        assert(group_key(r2[j]) == k);
        assert(same_group(r2[j], r1[i]));
    }
}


/// The timestamps of groups, in order.
pub open spec fn timestamps(gs: Seq<ReplacementGroupContext>) -> Seq<u64> {
    gs.map_values(|g: ReplacementGroupContext| g.timestamp)
}

/// No two groups of `gs` share a key.
pub open spec fn keys_distinct(gs: Seq<ReplacementGroupContext>) -> bool {
    forall|i: int, j: int|
        0 <= i < gs.len() && 0 <= j < gs.len() && i != j ==> group_key(#[trigger] gs[i]) != group_key(
            #[trigger] gs[j],
        )
}

/// Some group of `b` has key `k`.
pub open spec fn has_key(b: Seq<ReplacementGroupContext>, k: (Seq<char>, u64)) -> bool {
    exists|j: int| 0 <= j < b.len() && group_key(#[trigger] b[j]) == k
}

/// Every key of `a` is a key of `b`.
pub open spec fn keys_covered(a: Seq<ReplacementGroupContext>, b: Seq<ReplacementGroupContext>) -> bool {
    forall|i: int| 0 <= i < a.len() ==> has_key(b, group_key(#[trigger] a[i]))
}

proof fn lemma_same_timestamp_multiset(r1: Seq<ReplacementGroupContext>, r2: Seq<ReplacementGroupContext>)
    requires
        r1.len() == r2.len(),
        keys_distinct(r1),
        keys_distinct(r2),
        keys_covered(r1, r2),
        keys_covered(r2, r1),
    ensures
        timestamps(r1).to_multiset() == timestamps(r2).to_multiset(),
    decreases r1.len(),
{
    broadcast use vstd::seq_lib::group_to_multiset_ensures;
    broadcast use vstd::multiset::group_multiset_axioms;

    if r1.len() == 0 {
        assert(timestamps(r1) =~= timestamps(r2));
    } else {
        let n = r1.len() - 1;
        let x = r1[n];
        assert(has_key(r2, group_key(r1[n])));
        let j0 = choose|j: int| 0 <= j < r2.len() && group_key(#[trigger] r2[j]) == group_key(r1[n]);
        let r1p = r1.drop_last();
        let r2p = r2.remove(j0);
        assert forall|i: int| 0 <= i < r1p.len() implies has_key(r2p, group_key(#[trigger] r1p[i])) by {
            assert(r1p[i] == r1[i]);
            assert(has_key(r2, group_key(r1[i])));
            let j = choose|j: int| 0 <= j < r2.len() && group_key(#[trigger] r2[j]) == group_key(r1[i]);
            assert(group_key(r1[i]) != group_key(r1[n]));
            assert(j != j0);
            if j < j0 {
                assert(r2p[j] == r2[j]);
            } else {
                assert(r2p[j - 1] == r2[j]);
            }
        }
        assert forall|i: int| 0 <= i < r2p.len() implies has_key(r1p, group_key(#[trigger] r2p[i])) by {
            let i2 = if i < j0 { i } else { i + 1 };
            assert(r2p[i] == r2[i2]);
            assert(has_key(r1, group_key(r2[i2])));
            let j = choose|j: int| 0 <= j < r1.len() && group_key(#[trigger] r1[j]) == group_key(r2[i2]);
            assert(group_key(r2[i2]) != group_key(r2[j0]));
            assert(j != n);
            assert(r1p[j] == r1[j]);
        }
        assert forall|a: int, b: int|
            0 <= a < r2p.len() && 0 <= b < r2p.len() && a != b implies group_key(#[trigger] r2p[a])
                != group_key(#[trigger] r2p[b]) by {
            let a2 = if a < j0 { a } else { a + 1 };
            let b2 = if b < j0 { b } else { b + 1 };
            assert(r2p[a] == r2[a2]);
            assert(r2p[b] == r2[b2]);
        }
        assert forall|a: int, b: int|
            0 <= a < r1p.len() && 0 <= b < r1p.len() && a != b implies group_key(#[trigger] r1p[a])
                != group_key(#[trigger] r1p[b]) by {
            assert(r1p[a] == r1[a]);
            assert(r1p[b] == r1[b]);
        }
        lemma_same_timestamp_multiset(r1p, r2p);
        assert(timestamps(r1) =~= timestamps(r1p).push(x.timestamp));
        assert(timestamps(r2p) =~= timestamps(r2).remove(j0));
        assert(timestamps(r2)[j0] == x.timestamp);
        assert(timestamps(r2).to_multiset() =~= timestamps(r2p).to_multiset().insert(x.timestamp));
    }
}

/// Grouping the same events twice orders the groups by the same timestamps:
/// the two lists of timestamps are equal, and only groups with equal
/// timestamps may trade places.
pub proof fn lemma_grouping_same_timestamps(
    es: Seq<ReplacementContext>,
    r1: Seq<ReplacementGroupContext>,
    r2: Seq<ReplacementGroupContext>,
)
    requires
        are_groups_of(r1, es),
        are_groups_of(r2, es),
    ensures
        timestamps(r1) == timestamps(r2),
{
    lemma_keys_covered(es, r1, r2);
    lemma_keys_covered(es, r2, r1);
    lemma_same_timestamp_multiset(r1, r2);
    lemma_timestamps_sorted(r1);
    lemma_timestamps_sorted(r2);
    let leq = |a: u64, b: u64| a >= b;
    assert(vstd::relations::total_ordering(leq));
    vstd::seq_lib::lemma_sorted_unique(timestamps(r1), timestamps(r2), leq);
}

proof fn lemma_keys_covered(
    es: Seq<ReplacementContext>,
    r1: Seq<ReplacementGroupContext>,
    r2: Seq<ReplacementGroupContext>,
)
    requires
        are_groups_of(r1, es),
        are_groups_of(r2, es),
    ensures
        r1.len() == r2.len(),
        keys_distinct(r1),
        keys_covered(r1, r2),
{
    lemma_grouping_deterministic(es, r1, r2);
    assert forall|i: int| 0 <= i < r1.len() implies has_key(r2, group_key(#[trigger] r1[i])) by {
        assert(shows_same_group(r2, r1[i]));
        let j = choose|j: int| 0 <= j < r2.len() && same_group(#[trigger] r2[j], r1[i]);
        assert(r2[j].replacement@.txid == r1[i].replacement@.txid);
        assert(group_key(r2[j]) == group_key(r1[i]));
    }
}

proof fn lemma_timestamps_sorted(r: Seq<ReplacementGroupContext>)
    requires
        forall|i: int, j: int| 0 <= i < j < r.len() ==> (#[trigger] r[i]).timestamp >= (#[trigger] r[j]).timestamp,
    ensures
        vstd::relations::sorted_by(timestamps(r), |a: u64, b: u64| a >= b),
{
    assert forall|i: int, j: int| 0 <= i < j < timestamps(r).len() implies timestamps(r)[i] >= timestamps(r)[j] by {
        assert(r[i].timestamp >= r[j].timestamp);
    }
}

} // verus!
