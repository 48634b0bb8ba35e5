//! Splitting the ordered groups into report pages.
use vstd::prelude::*;
use crate::group::{same_group, views};
use crate::html::{
    NavigationContext, ReplacementGroupContext, ReplacementGroupDeltaContext, SiteContext,
    TransactionContext,
};
use crate::text::{decimal, decimal_text};

verus! {

/// Groups shown on one page.
pub const REPLACEMENT_GROUPS_PER_PAGE: u32 = 100;

/// Pages in a report; groups beyond these are not shown.
pub const MAX_PAGES: u32 = 10;

/// How many pages a report of `n` groups has: one more than the number of
/// full pages, but no more than `max_pages`.
pub open spec fn page_count_of(n: nat, page_size: nat, max_pages: nat) -> nat {
    if n / page_size + 1 < max_pages {
        n / page_size + 1
    } else {
        max_pages
    }
}

/// The groups on page `i`: the `i`-th run of `page_size` groups, cut short
/// at the end of the list.
pub open spec fn page_slice<T>(gs: Seq<T>, i: nat, page_size: nat) -> Seq<T> {
    let start = if i * page_size < gs.len() { i * page_size } else { gs.len() };
    let end = if (i + 1) * page_size < gs.len() { (i + 1) * page_size } else { gs.len() };
    gs.subrange(start as int, end as int)
}

/// The page numbers `0..n`.
pub open spec fn page_numbers(n: nat) -> Seq<u32> {
    Seq::new(n, |i: int| i as u32)
}

/// The file name (without extension) of page `page`.
pub open spec fn filename_text(page: u32) -> Seq<char> {
    if page == 0 {
        "index"@
    } else {
        "page_"@ + decimal(page as nat)
    }
}

/// How many pages a report of `n` groups has.
pub fn page_count(n: usize, page_size: u32, max_pages: u32) -> (r: u32)
    requires
        page_size > 0,
    ensures
        r == page_count_of(n as nat, page_size as nat, max_pages as nat),
{
    let q = n / page_size as usize;
    if (q as u128) + 1 < max_pages as u128 {
        (q + 1) as u32
    } else {
        max_pages
    }
}

/// The page numbers `0..n`.
pub fn sequence(n: u32) -> (r: Vec<u32>)
    ensures
        r@ == page_numbers(n as nat),
{
    let mut v: Vec<u32> = Vec::new();
    let mut i: u32 = 0;
    while i < n
        invariant
            i <= n,
            v@ =~= page_numbers(i as nat),
        decreases n - i,
    {
        v.push(i);
        i = i + 1;
    }
    v
}

/// The file name (without extension) of a page: `index` for the first,
/// `page_<n>` for the others.
pub fn get_filename(page: u32) -> (r: String)
    ensures
        r@ == filename_text(page),
{
    if page == 0 {
        String::from_str("index")
    } else {
        let mut s = String::from_str("page_");
        s.append(decimal_text(page as u128).as_str());
        s
    }
}

/// Splits the groups into pages and assembles what each page shows: its
/// groups, its number, the navigation over all pages and the generation time.
pub fn build_site_contexts(
    groups: Vec<ReplacementGroupContext>,
    page_size: u32,
    max_pages: u32,
    generated_at: u64,
) -> (r: Vec<SiteContext>)
    requires
        page_size > 0,
        max_pages > 0,
    ensures
        r@.len() == page_count_of(groups@.len(), page_size as nat, max_pages as nat),
        forall|i: int|
            0 <= i < r@.len() ==> {
                &&& (#[trigger] r@[i]).page == i
                &&& r@[i].timestamp == generated_at
                &&& r@[i].navigation.pages@ == page_numbers(r@.len())
                &&& r@[i].replacements@ == page_slice(groups@, i as nat, page_size as nat)
            },
{
    let ghost all = groups@;
    let count = page_count(groups.len(), page_size, max_pages);
    let mut g = groups;
    let mut rest: Vec<ReplacementGroupContext> = Vec::new();
    while g.len() > 0
        invariant
            g@.len() <= all.len(),
            g@ == all.subrange(0, g@.len() as int),
            rest@ == all.subrange(g@.len() as int, all.len() as int).reverse(),
        decreases g@.len(),
    {
        let x = g.pop().unwrap();
        proof {
            assert(x == all[g@.len() as int]);
            assert(g@ =~= all.subrange(0, g@.len() as int));
        }
        rest.push(x);
        assert(rest@ =~= all.subrange(g@.len() as int, all.len() as int).reverse());
    }
    let mut pages: Vec<SiteContext> = Vec::new();
    let mut page: u32 = 0;
    while page < count
        invariant
            page <= count,
            count == page_count_of(all.len(), page_size as nat, max_pages as nat),
            page_size > 0,
            pages@.len() == page,
            rest@ == all.subrange(all.len() - rest@.len(), all.len() as int).reverse(),
            rest@.len() == all.len() - (if page * page_size < all.len() {
                page * page_size
            } else {
                all.len() as int
            }),
            forall|i: int|
                0 <= i < page ==> {
                    &&& (#[trigger] pages@[i]).page == i
                    &&& pages@[i].timestamp == generated_at
                    &&& pages@[i].navigation.pages@ == page_numbers(count as nat)
                    &&& pages@[i].replacements@ == page_slice(all, i as nat, page_size as nat)
                },
        decreases count - page,
    {
        let ghost start = all.len() - rest@.len();
        let mut chunk: Vec<ReplacementGroupContext> = Vec::new();
        let mut taken: u32 = 0;
        while taken < page_size && rest.len() > 0
            invariant
                taken <= page_size,
                0 <= start <= all.len(),
                start + taken + rest@.len() == all.len(),
                rest@ == all.subrange(all.len() - rest@.len(), all.len() as int).reverse(),
                chunk@ == all.subrange(start, start + taken),
            decreases page_size - taken,
        {
            let x = rest.pop().unwrap();
            proof {
                assert(x == all[start + taken]);
                assert(rest@ =~= all.subrange(all.len() - rest@.len(), all.len() as int).reverse());
            }
            chunk.push(x);
            assert(chunk@ =~= all.subrange(start, start + taken + 1));
            taken = taken + 1;
        }
        proof {
            assert(page * page_size + page_size == (page + 1) * page_size) by (nonlinear_arith);
            assert(chunk@ =~= page_slice(all, page as nat, page_size as nat));
        }
        pages.push(
            SiteContext {
                replacements: chunk,
                timestamp: generated_at,
                page,
                navigation: NavigationContext { pages: sequence(count) },
            },
        );
        page = page + 1;
    }
    pages
}

impl ReplacementGroupContext {
    /// A copy showing the same group.
    pub fn duplicate(&self) -> (r: ReplacementGroupContext)
        ensures
            same_group(r, *self),
    {
        let mut replaced: Vec<TransactionContext> = Vec::new();
        let mut i: usize = 0;
        while i < self.replaced.len()
            invariant
                i <= self.replaced@.len(),
                views(replaced@) =~= views(self.replaced@.subrange(0, i as int)),
            decreases self.replaced@.len() - i,
        {
            let ghost before = replaced@;
            let t = self.replaced[i].duplicate();
            replaced.push(t);
            assert(views(replaced@) =~= views(before).push(t@));
            assert(views(self.replaced@.subrange(0, i + 1)) =~= views(self.replaced@.subrange(0, i as int)).push(
                self.replaced@[i as int]@,
            ));
            i = i + 1;
        }
        assert(self.replaced@.subrange(0, self.replaced@.len() as int) =~= self.replaced@);
        ReplacementGroupContext {
            timestamp: self.timestamp,
            replaced,
            replacement: self.replacement.duplicate(),
            delta: ReplacementGroupDeltaContext {
                fee: self.delta.fee,
                vsize: self.delta.vsize,
                feerate: self.delta.feerate.clone(),
            },
        }
    }
}

/// A report with no groups still has exactly one page, and it is empty.
pub proof fn lemma_empty_report_has_one_page<T>(page_size: nat, max_pages: nat)
    requires
        page_size > 0,
        max_pages > 0,
    ensures
        page_count_of(0, page_size, max_pages) == 1,
        page_slice(Seq::<T>::empty(), 0, page_size).len() == 0,
{
    assert(0nat / page_size == 0) by (nonlinear_arith)
        requires
            page_size > 0,
    ;
}

/// When there are more groups than `max_pages` full pages hold, the report
/// has exactly `max_pages` pages, each full; the groups after them are shown
/// on no page.
pub proof fn lemma_overflow_pages<T>(gs: Seq<T>, page_size: nat, max_pages: nat)
    requires
        page_size > 0,
        max_pages > 0,
        gs.len() > max_pages * page_size,
    ensures
        page_count_of(gs.len(), page_size, max_pages) == max_pages,
        forall|i: nat| i < max_pages ==> (#[trigger] page_slice(gs, i, page_size)).len() == page_size,
{
    assert(gs.len() / page_size >= max_pages) by (nonlinear_arith)
        requires
            page_size > 0,
            gs.len() > max_pages * page_size,
    ;
    assert forall|i: nat| i < max_pages implies (#[trigger] page_slice(gs, i, page_size)).len() == page_size by {
        assert((i + 1) * page_size <= max_pages * page_size) by (nonlinear_arith)
            requires
                i + 1 <= max_pages,
        ;
        assert(i * page_size + page_size == (i + 1) * page_size) by (nonlinear_arith);
    }
}

/// The positions of the groups whose replacement has no OP_RETURN output.
pub open spec fn without_op_return_positions(gs: Seq<ReplacementGroupContext>) -> Seq<int>
    decreases gs.len(),
{
    if gs.len() == 0 {
        Seq::empty()
    } else {
        let p = without_op_return_positions(gs.drop_last());
        if gs.last().replacement.op_return {
            p
        } else {
            p.push(gs.len() - 1)
        }
    }
}

/// Copies of the groups whose replacement has no OP_RETURN output, in order.
pub fn without_op_return(groups: &Vec<ReplacementGroupContext>) -> (r: Vec<ReplacementGroupContext>)
    ensures
        r@.len() == without_op_return_positions(groups@).len(),
        forall|k: int|
            0 <= k < r@.len() ==> same_group(
                #[trigger] r@[k],
                groups@[without_op_return_positions(groups@)[k]],
            ),
{
    let mut out: Vec<ReplacementGroupContext> = Vec::new();
    let mut i: usize = 0;
    while i < groups.len()
        invariant
            i <= groups@.len(),
            out@.len() == without_op_return_positions(groups@.subrange(0, i as int)).len(),
            forall|k: int|
                0 <= k < out@.len() ==> same_group(
                    #[trigger] out@[k],
                    groups@[without_op_return_positions(groups@.subrange(0, i as int))[k]],
                ),
        decreases groups@.len() - i,
    {
        let ghost prefix = groups@.subrange(0, i as int);
        let ghost next = groups@.subrange(0, i + 1);
        assert(next.drop_last() =~= prefix);
        if !groups[i].replacement.op_return {
            let d = groups[i].duplicate();
            out.push(d);
            proof {
                assert forall|k: int| 0 <= k < out@.len() implies same_group(
                    #[trigger] out@[k],
                    groups@[without_op_return_positions(next)[k]],
                ) by {
                    if k < out@.len() - 1 {
                        assert(without_op_return_positions(next)[k] == without_op_return_positions(prefix)[k]);
                    }
                }
            }
        }
        i = i + 1;
    }
    assert(groups@.subrange(0, groups@.len() as int) =~= groups@);
    out
}

} // verus!
