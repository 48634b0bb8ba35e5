//! The data each report page is rendered from.
use vstd::prelude::*;
use crate::classify::{
    any_input_signals, is_full_rbf, is_full_rbf_replacement, signals_opt_in_rbf,
    spends_common_output,
};
use crate::kinds::{kind_entries, kind_summary, lemma_kind_summary_unique, lex_sorted, texts};
use crate::text::{feerate_string, feerate_text, hex_encode, hex_of};
use crate::tx::{inputs_of, is_decodable, is_facts_of, transaction_facts, DecodeError, TransactionFacts};
use crate::types::{txid_string, txid_text, RBFEvent};

verus! {

/// One side of a replacement, ready for display.
#[derive(Debug)]
pub struct TransactionContext {
    /// The id as conventionally displayed.
    pub txid: String,
    pub fee: u64,
    pub vsize: u64,
    /// Seconds spent in the pool before the replacement; 0 when unknown.
    pub time_in_mempool: i64,
    /// `fee / vsize` with two decimals.
    pub feerate: String,
    /// The raw transaction in hexadecimal.
    pub raw: String,
    /// Counted input types, sorted.
    pub inputs: Vec<String>,
    /// Counted output types, sorted.
    pub outputs: Vec<String>,
    pub op_return: bool,
    /// Whether the transaction opts in to replace-by-fee (some input signals).
    pub optin_rbf: bool,
}

/// The content of a [`TransactionContext`].
pub struct TransactionView {
    pub txid: Seq<char>,
    pub fee: u64,
    pub vsize: u64,
    pub time_in_mempool: i64,
    pub feerate: Seq<char>,
    pub raw: Seq<char>,
    pub inputs: Seq<Seq<char>>,
    pub outputs: Seq<Seq<char>>,
    pub op_return: bool,
    pub optin_rbf: bool,
}

impl View for TransactionContext {
    type V = TransactionView;

    open spec fn view(&self) -> TransactionView {
        TransactionView {
            txid: self.txid@,
            fee: self.fee,
            vsize: self.vsize,
            time_in_mempool: self.time_in_mempool,
            feerate: self.feerate@,
            raw: self.raw@,
            inputs: texts(self.inputs@),
            outputs: texts(self.outputs@),
            op_return: self.op_return,
            optin_rbf: self.optin_rbf,
        }
    }
}

/// Two transaction contexts are the same transaction when their ids match.
impl PartialEq for TransactionContext {
    fn eq(&self, other: &TransactionContext) -> (r: bool) {
        self.txid == other.txid
    }
}

impl vstd::std_specs::cmp::PartialEqSpecImpl for TransactionContext {
    open spec fn obeys_eq_spec() -> bool {
        true
    }

    open spec fn eq_spec(&self, other: &TransactionContext) -> bool {
        self.txid@ == other.txid@
    }
}

/// What a group's replacement gained over what it replaced.
#[derive(Debug)]
pub struct ReplacementGroupDeltaContext {
    pub fee: i64,
    pub vsize: i64,
    /// The feerate gain, `"+X.XX sat/vByte"`, when exactly one transaction
    /// was replaced; empty otherwise.
    pub feerate: String,
}

/// One full replace-by-fee event.
#[derive(Debug)]
pub struct ReplacementContext {
    pub timestamp: u64,
    pub replaced: TransactionContext,
    pub replacement: TransactionContext,
}

/// A replacement transaction with everything it replaced at one time.
#[derive(Debug)]
pub struct ReplacementGroupContext {
    pub timestamp: u64,
    pub replaced: Vec<TransactionContext>,
    pub replacement: TransactionContext,
    pub delta: ReplacementGroupDeltaContext,
}

/// The pages a page links to.
#[derive(Debug)]
pub struct NavigationContext {
    pub pages: Vec<u32>,
}

/// Everything one page of the report shows.
#[derive(Debug)]
pub struct SiteContext {
    pub replacements: Vec<ReplacementGroupContext>,
    /// When the report was generated, in unix seconds.
    pub timestamp: u64,
    pub page: u32,
    pub navigation: NavigationContext,
}

/// A copy of a list of strings.
pub fn copy_strings(v: &Vec<String>) -> (r: Vec<String>)
    ensures
        r@ == v@,
{
    let mut out: Vec<String> = Vec::new();
    let mut i: usize = 0;
    while i < v.len()
        invariant
            i <= v@.len(),
            out@ =~= v@.subrange(0, i as int),
        decreases v@.len() - i,
    {
        out.push(v[i].clone());
        i = i + 1;
    }
    out
}

impl TransactionContext {
    /// A copy with the same content.
    pub fn duplicate(&self) -> (r: TransactionContext)
        ensures
            r@ == self@,
    {
        TransactionContext {
            txid: self.txid.clone(),
            fee: self.fee,
            vsize: self.vsize,
            time_in_mempool: self.time_in_mempool,
            feerate: self.feerate.clone(),
            raw: self.raw.clone(),
            inputs: copy_strings(&self.inputs),
            outputs: copy_strings(&self.outputs),
            op_return: self.op_return,
            optin_rbf: self.optin_rbf,
        }
    }
}

/// Seconds between entering the pool at `entry` and leaving it at `t`, held
/// to the range of `i64`; 0 when the entry time is unknown (0).
pub open spec fn mempool_seconds(t: u64, entry: u64) -> i64 {
    if entry == 0 {
        0
    } else if t - entry > i64::MAX {
        i64::MAX
    } else if t - entry < i64::MIN {
        i64::MIN
    } else {
        (t - entry) as i64
    }
}

/// `out` lists the labels in `labels` with their counts, sorted.
pub open spec fn is_kind_summary(out: Seq<Seq<char>>, labels: Seq<Seq<char>>) -> bool {
    out.to_multiset() == kind_entries(labels).to_multiset() && lex_sorted(out)
}

/// `v` shows the transaction `facts`, with the given fee, size, time in the
/// pool and raw bytes.
pub open spec fn shows_transaction(
    v: TransactionView,
    facts: TransactionFacts,
    fee: u64,
    vsize: u64,
    time_in_mempool: i64,
    raw: Seq<u8>,
) -> bool {
    &&& v.txid == txid_text(facts.txid@)
    &&& v.fee == fee
    &&& v.vsize == vsize
    &&& v.time_in_mempool == time_in_mempool
    &&& v.feerate == feerate_text(fee as nat, vsize as nat)
    &&& v.raw == hex_of(raw)
    &&& is_kind_summary(v.inputs, texts(facts.input_types@))
    &&& is_kind_summary(v.outputs, texts(facts.output_types@))
    &&& v.op_return == facts.op_return
    &&& v.optin_rbf == any_input_signals(facts.inputs@)
}

/// `c` shows the event `e`, whose transactions are `replaced` and `replacement`.
pub open spec fn shows_event(
    c: ReplacementContext,
    e: RBFEvent,
    replaced: TransactionFacts,
    replacement: TransactionFacts,
) -> bool {
    &&& c.timestamp == e.timestamp
    &&& shows_transaction(
        c.replaced@,
        replaced,
        e.replaced_fee,
        e.replaced_vsize,
        mempool_seconds(e.timestamp, e.replaced_entry_time),
        e.replaced_raw@,
    )
    &&& shows_transaction(
        c.replacement@,
        replacement,
        e.replacement_fee,
        e.replacement_vsize,
        0,
        e.replacement_raw@,
    )
}

/// Seconds spent in the pool, as [`mempool_seconds`] states it.
pub fn time_in_mempool(t: u64, entry: u64) -> (r: i64)
    ensures
        r == mempool_seconds(t, entry),
{
    if entry == 0 {
        return 0;
    }
    let d: i128 = t as i128 - entry as i128;
    if d > i64::MAX as i128 {
        i64::MAX
    } else if d < i64::MIN as i128 {
        i64::MIN
    } else {
        d as i64
    }
}

/// The counted, sorted input and output type summaries of a transaction.
pub fn in_and_outputs_to_strings(facts: &TransactionFacts) -> (r: (Vec<String>, Vec<String>))
    ensures
        is_kind_summary(texts(r.0@), texts(facts.input_types@)),
        is_kind_summary(texts(r.1@), texts(facts.output_types@)),
{
    (kind_summary(&facts.input_types), kind_summary(&facts.output_types))
}

/// Builds the display of one transaction.
pub fn build_transaction_context(
    facts: &TransactionFacts,
    fee: u64,
    vsize: u64,
    time_in_mempool: i64,
    raw: &Vec<u8>,
) -> (r: TransactionContext)
    ensures
        shows_transaction(r@, *facts, fee, vsize, time_in_mempool, raw@),
{
    let (inputs, outputs) = in_and_outputs_to_strings(facts);
    TransactionContext {
        txid: txid_string(&facts.txid),
        fee,
        vsize,
        time_in_mempool,
        feerate: feerate_string(fee, vsize),
        raw: hex_encode(raw.as_slice()),
        inputs,
        outputs,
        op_return: facts.op_return,
        optin_rbf: signals_opt_in_rbf(facts.inputs.as_slice()),
    }
}

/// Builds the display of one event from its decoded transactions.
pub fn build_replacement_context(
    event: &RBFEvent,
    replaced: &TransactionFacts,
    replacement: &TransactionFacts,
) -> (r: ReplacementContext)
    ensures
        shows_event(r, *event, *replaced, *replacement),
{
    ReplacementContext {
        timestamp: event.timestamp,
        replaced: build_transaction_context(
            replaced,
            event.replaced_fee,
            event.replaced_vsize,
            time_in_mempool(event.timestamp, event.replaced_entry_time),
            &event.replaced_raw,
        ),
        replacement: build_transaction_context(
            replacement,
            event.replacement_fee,
            event.replacement_vsize,
            0,
            &event.replacement_raw,
        ),
    }
}

/// The decoded transactions of one event: replaced, then replacement.
pub struct DecodedEvent {
    pub replaced: TransactionFacts,
    pub replacement: TransactionFacts,
}

/// The positions of the full replace-by-fee events among `decoded`, in order.
pub open spec fn full_rbf_positions(decoded: Seq<DecodedEvent>) -> Seq<int>
    decreases decoded.len(),
{
    if decoded.len() == 0 {
        Seq::empty()
    } else {
        let p = full_rbf_positions(decoded.drop_last());
        let d = decoded.last();
        if is_full_rbf_replacement(d.replaced, d.replacement) {
            p.push(decoded.len() - 1)
        } else {
            p
        }
    }
}

proof fn lemma_full_rbf_positions_bounded(decoded: Seq<DecodedEvent>)
    ensures
        forall|k: int|
            0 <= k < full_rbf_positions(decoded).len() ==> 0 <= #[trigger] full_rbf_positions(decoded)[k]
                < decoded.len(),
        full_rbf_positions(decoded).len() <= decoded.len(),
    decreases decoded.len(),
{
    if decoded.len() > 0 {
        lemma_full_rbf_positions_bounded(decoded.drop_last());
    }
}

proof fn lemma_full_rbf_positions_qualify(decoded: Seq<DecodedEvent>, i: int)
    requires
        full_rbf_positions(decoded).contains(i),
    ensures
        0 <= i < decoded.len(),
        is_full_rbf_replacement(decoded[i].replaced, decoded[i].replacement),
    decreases decoded.len(),
{
    let p = full_rbf_positions(decoded.drop_last());
    let d = decoded.last();
    if p.contains(i) {
        lemma_full_rbf_positions_qualify(decoded.drop_last(), i);
    } else {
        assert(i == decoded.len() - 1);
    }
}

/// An event whose replaced transaction signals opt-in replace-by-fee on some
/// input is never kept, so it is in no group.
pub proof fn lemma_opt_in_events_dropped(decoded: Seq<DecodedEvent>, i: int)
    requires
        0 <= i < decoded.len(),
        any_input_signals(decoded[i].replaced.inputs@),
    ensures
        !full_rbf_positions(decoded).contains(i),
{
    if full_rbf_positions(decoded).contains(i) {
        lemma_full_rbf_positions_qualify(decoded, i);
    }
}

/// An event whose two transactions spend no common output is never kept, so
/// it is in no group.
pub proof fn lemma_unrelated_events_dropped(decoded: Seq<DecodedEvent>, i: int)
    requires
        0 <= i < decoded.len(),
        !spends_common_output(decoded[i].replaced.inputs@, decoded[i].replacement.inputs@),
    ensures
        !full_rbf_positions(decoded).contains(i),
{
    if full_rbf_positions(decoded).contains(i) {
        lemma_full_rbf_positions_qualify(decoded, i);
    }
}

/// `r` shows the full replace-by-fee events among `events`, whose
/// transactions are `decoded`, most recent in the log first.
pub open spec fn lists_full_rbf_events(
    r: Seq<ReplacementContext>,
    events: Seq<RBFEvent>,
    decoded: Seq<DecodedEvent>,
) -> bool {
    &&& r.len() == full_rbf_positions(decoded).len()
    &&& forall|k: int|
        0 <= k < r.len() ==> {
            let i = #[trigger] full_rbf_positions(decoded)[r.len() - 1 - k];
            shows_event(r[k], events[i], decoded[i].replaced, decoded[i].replacement)
        }
}

/// Keeps the full replace-by-fee events, most recent in the log first.
pub fn full_rbf_replacements(events: &Vec<RBFEvent>, decoded: &Vec<DecodedEvent>) -> (r: Vec<ReplacementContext>)
    requires
        events@.len() == decoded@.len(),
    ensures
        lists_full_rbf_events(r@, events@, decoded@),
{
    let mut found: Vec<ReplacementContext> = Vec::new();
    let mut i: usize = 0;
    while i < events.len()
        invariant
            events@.len() == decoded@.len(),
            i <= events@.len(),
            found@.len() == full_rbf_positions(decoded@.subrange(0, i as int)).len(),
            forall|k: int|
                0 <= k < found@.len() ==> {
                    let j = #[trigger] full_rbf_positions(decoded@.subrange(0, i as int))[k];
                    shows_event(found@[k], events@[j], decoded@[j].replaced, decoded@[j].replacement)
                },
        decreases events@.len() - i,
    {
        let ghost prefix = decoded@.subrange(0, i as int);
        let ghost next = decoded@.subrange(0, i + 1);
        proof {
            assert(next.drop_last() =~= prefix);
            lemma_full_rbf_positions_bounded(prefix);
        }
        let d = &decoded[i];
        if is_full_rbf(&d.replaced, &d.replacement) {
            let c = build_replacement_context(&events[i], &d.replaced, &d.replacement);
            found.push(c);
            proof {
                assert forall|k: int| 0 <= k < found@.len() implies {
                    let j = #[trigger] full_rbf_positions(next)[k];
                    shows_event(found@[k], events@[j], decoded@[j].replaced, decoded@[j].replacement)
                } by {
                    if k < found@.len() - 1 {
                        assert(full_rbf_positions(next)[k] == full_rbf_positions(prefix)[k]);
                    }
                }
            }
        }
        i = i + 1;
    }
    proof {
        assert(decoded@.subrange(0, decoded@.len() as int) =~= decoded@);
    }
    let ghost kept = found@;
    let mut newest_first: Vec<ReplacementContext> = Vec::new();
    while found.len() > 0
        invariant
            found@.len() + newest_first@.len() == kept.len(),
            found@ == kept.subrange(0, found@.len() as int),
            forall|k: int| 0 <= k < newest_first@.len() ==> newest_first@[k] == kept[kept.len() - 1 - k],
        decreases found@.len(),
    {
        let c = found.pop().unwrap();
        newest_first.push(c);
    }
    newest_first
}

/// The transactions of every event decode and can be classified.
pub open spec fn all_decodable(events: Seq<RBFEvent>) -> bool {
    forall|i: int|
        0 <= i < events.len() ==> is_decodable((#[trigger] events[i]).replaced_raw@) && is_decodable(
            events[i].replacement_raw@,
        )
}

/// `decoded[i]` holds the facts of the transactions of `events[i]`.
pub open spec fn decodes_events(decoded: Seq<DecodedEvent>, events: Seq<RBFEvent>) -> bool {
    &&& decoded.len() == events.len()
    &&& forall|i: int|
        0 <= i < events.len() ==> is_facts_of((#[trigger] decoded[i]).replaced, events[i].replaced_raw@)
            && is_facts_of(decoded[i].replacement, events[i].replacement_raw@)
}

/// Decodes the transactions of every event, stopping at the first that fails.
pub fn decode_events(events: &Vec<RBFEvent>) -> (r: Result<Vec<DecodedEvent>, DecodeError>)
    ensures
        r is Ok <==> all_decodable(events@),
        r matches Ok(d) ==> decodes_events(d@, events@),
{
    let mut out: Vec<DecodedEvent> = Vec::new();
    let mut i: usize = 0;
    while i < events.len()
        invariant
            i <= events@.len(),
            out@.len() == i,
            forall|j: int|
                0 <= j < i ==> is_decodable((#[trigger] events@[j]).replaced_raw@) && is_decodable(
                    events@[j].replacement_raw@,
                ),
            forall|j: int|
                0 <= j < i ==> is_facts_of((#[trigger] out@[j]).replaced, events@[j].replaced_raw@)
                    && is_facts_of(out@[j].replacement, events@[j].replacement_raw@),
        decreases events@.len() - i,
    {
        let replaced = match transaction_facts(events[i].replaced_raw.as_slice()) {
            Ok(f) => f,
            Err(e) => {
                assert(!is_decodable(events@[i as int].replaced_raw@));
                return Err(e);
            },
        };
        let replacement = match transaction_facts(events[i].replacement_raw.as_slice()) {
            Ok(f) => f,
            Err(e) => {
                assert(!is_decodable(events@[i as int].replacement_raw@));
                return Err(e);
            },
        };
        assert(is_decodable(events@[i as int].replaced_raw@));
        assert(is_decodable(events@[i as int].replacement_raw@));
        out.push(DecodedEvent { replaced, replacement });
        i = i + 1;
    }
    Ok(out)
}

/// Decodes every event and keeps the full replace-by-fee ones, most recent
/// in the log first. Fails on the first event whose transactions cannot be
/// decoded or classified.
pub fn get_reverse_fullrbf_replacements(events: &Vec<RBFEvent>) -> (r: Result<Vec<ReplacementContext>, DecodeError>)
    ensures
        r is Ok <==> all_decodable(events@),
        r matches Ok(v) ==> exists|decoded: Seq<DecodedEvent>|
            #[trigger] decodes_events(decoded, events@) && lists_full_rbf_events(v@, events@, decoded),
{
    match decode_events(events) {
        Ok(decoded) => {
            let r = full_rbf_replacements(events, &decoded);
            let res: Result<Vec<ReplacementContext>, DecodeError> = Ok(r);
            assert(decodes_events(decoded@, events@) && lists_full_rbf_events(res->Ok_0@, events@, decoded@));
            res
        },
        Err(e) => Err(e),
    }
}

/// An event of the log whose replaced transaction opts in to replace-by-fee
/// is not among the kept events.
pub proof fn lemma_opt_in_log_events_dropped(events: Seq<RBFEvent>, decoded: Seq<DecodedEvent>, i: int)
    requires
        decodes_events(decoded, events),
        0 <= i < events.len(),
        any_input_signals(inputs_of(events[i].replaced_raw@)),
    ensures
        !full_rbf_positions(decoded).contains(i),
{
    assert(is_facts_of(decoded[i].replaced, events[i].replaced_raw@));
    lemma_opt_in_events_dropped(decoded, i);
}

/// An event of the log whose transactions spend no common output is not
/// among the kept events.
pub proof fn lemma_unrelated_log_events_dropped(events: Seq<RBFEvent>, decoded: Seq<DecodedEvent>, i: int)
    requires
        decodes_events(decoded, events),
        0 <= i < events.len(),
        !spends_common_output(inputs_of(events[i].replaced_raw@), inputs_of(events[i].replacement_raw@)),
    ensures
        !full_rbf_positions(decoded).contains(i),
{
    assert(is_facts_of(decoded[i].replaced, events[i].replaced_raw@));
    assert(is_facts_of(decoded[i].replacement, events[i].replacement_raw@));
    lemma_unrelated_events_dropped(decoded, i);
}


proof fn lemma_full_rbf_positions_same(d1: Seq<DecodedEvent>, d2: Seq<DecodedEvent>)
    requires
        d1.len() == d2.len(),
        forall|i: int|
            0 <= i < d1.len() ==> (#[trigger] d1[i]).replaced.inputs@ == d2[i].replaced.inputs@
                && d1[i].replacement.inputs@ == d2[i].replacement.inputs@,
    ensures
        full_rbf_positions(d1) == full_rbf_positions(d2),
    decreases d1.len(),
{
    if d1.len() > 0 {
        assert forall|i: int| 0 <= i < d1.drop_last().len() implies (#[trigger] d1.drop_last()[i]).replaced.inputs@
            == d2.drop_last()[i].replaced.inputs@ && d1.drop_last()[i].replacement.inputs@
            == d2.drop_last()[i].replacement.inputs@ by {
            assert(d1.drop_last()[i] == d1[i]);
            assert(d2.drop_last()[i] == d2[i]);
        }
        lemma_full_rbf_positions_same(d1.drop_last(), d2.drop_last());
        assert(d1.last() == d1[d1.len() - 1]);
    }
}

proof fn lemma_shown_transaction_unique(
    v1: TransactionView,
    v2: TransactionView,
    f1: TransactionFacts,
    f2: TransactionFacts,
    fee: u64,
    vsize: u64,
    time_in_mempool: i64,
    raw: Seq<u8>,
)
    requires
        shows_transaction(v1, f1, fee, vsize, time_in_mempool, raw),
        shows_transaction(v2, f2, fee, vsize, time_in_mempool, raw),
        is_facts_of(f1, raw),
        is_facts_of(f2, raw),
    ensures
        v1 == v2,
{
    lemma_kind_summary_unique(v1.inputs, v2.inputs, texts(f1.input_types@));
    lemma_kind_summary_unique(v1.outputs, v2.outputs, texts(f1.output_types@));
}

/// Classifying the same log twice gives the same result: as many events, in
/// the same order, each shown the same way.
pub proof fn lemma_classification_deterministic(
    events: Seq<RBFEvent>,
    d1: Seq<DecodedEvent>,
    d2: Seq<DecodedEvent>,
    v1: Seq<ReplacementContext>,
    v2: Seq<ReplacementContext>,
)
    requires
        decodes_events(d1, events),
        decodes_events(d2, events),
        lists_full_rbf_events(v1, events, d1),
        lists_full_rbf_events(v2, events, d2),
    ensures
        v1.len() == v2.len(),
        forall|k: int|
            0 <= k < v1.len() ==> (#[trigger] v1[k]).timestamp == v2[k].timestamp && v1[k].replaced@
                == v2[k].replaced@ && v1[k].replacement@ == v2[k].replacement@,
{
    assert forall|i: int| 0 <= i < d1.len() implies (#[trigger] d1[i]).replaced.inputs@ == d2[i].replaced.inputs@
        && d1[i].replacement.inputs@ == d2[i].replacement.inputs@ by {
        assert(is_facts_of(d1[i].replaced, events[i].replaced_raw@));
        assert(is_facts_of(d2[i].replaced, events[i].replaced_raw@));
        assert(is_facts_of(d1[i].replacement, events[i].replacement_raw@));
        assert(is_facts_of(d2[i].replacement, events[i].replacement_raw@));
    }
    lemma_full_rbf_positions_same(d1, d2);
    assert forall|k: int| 0 <= k < v1.len() implies (#[trigger] v1[k]).timestamp == v2[k].timestamp
        && v1[k].replaced@ == v2[k].replaced@ && v1[k].replacement@ == v2[k].replacement@ by {
        let i = full_rbf_positions(d1)[v1.len() - 1 - k];
        assert(i == full_rbf_positions(d2)[v2.len() - 1 - k]);
        lemma_full_rbf_positions_bounded(d1);
        let e = events[i];
        assert(shows_event(v1[k], e, d1[i].replaced, d1[i].replacement));
        assert(shows_event(v2[k], e, d2[i].replaced, d2[i].replacement));
        assert(is_facts_of(d1[i].replaced, e.replaced_raw@) && is_facts_of(d2[i].replaced, e.replaced_raw@));
        assert(is_facts_of(d1[i].replacement, e.replacement_raw@) && is_facts_of(d2[i].replacement, e.replacement_raw@));
        lemma_shown_transaction_unique(
            v1[k].replaced@,
            v2[k].replaced@,
            d1[i].replaced,
            d2[i].replaced,
            e.replaced_fee,
            e.replaced_vsize,
            mempool_seconds(e.timestamp, e.replaced_entry_time),
            e.replaced_raw@,
        );
        lemma_shown_transaction_unique(
            v1[k].replacement@,
            v2[k].replacement@,
            d1[i].replacement,
            d2[i].replacement,
            e.replacement_fee,
            e.replacement_vsize,
            0,
            e.replacement_raw@,
        );
    }
}

} // verus!
