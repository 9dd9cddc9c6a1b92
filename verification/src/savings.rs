//! How many tokens targeted recall saves against loading the full records.

use vstd::prelude::*;
use crate::clock;
use crate::clock::Timestamp;
use crate::paths;
use crate::text;
use crate::text_map;
use crate::text_map::TextMap;

verus! {

/// The file that every measurement is appended to.
pub const SAVINGS_LOG: &'static str = "token_savings.jsonl";

/// The file that holds the totals.
pub const SAVINGS_ROLLUP: &'static str = "token_savings.json";

/// The variable that names another directory for the files.
pub const ARTESIAN_STATS_DIR_ENV: &'static str = "ARTESIAN_STATS_DIR";

/// The directory of the files: the configured one, else `.artesian` below the home directory, else
/// below the current directory.
pub fn stats_dir(configured: Option<&str>, home: Option<&str>) -> (r: String)
    ensures
        r@ == (match configured {
            Some(dir) => dir@,
            None => paths::joined(
                match home {
                    Some(home) => home@,
                    None => "."@,
                },
                ".artesian"@,
            ),
        }),
{
    match configured {
        Some(dir) => dir.to_owned(),
        None => match home {
            Some(home) => paths::join(home, ".artesian"),
            None => paths::join(".", ".artesian"),
        },
    }
}

// ---------------------------------------------------------------------------------------------
// Measurements
// ---------------------------------------------------------------------------------------------

/// One measurement.
#[derive(Debug, Clone, PartialEq, Eq)]
pub struct TokenSavingsEntry {
    pub ts: Timestamp,
    /// The operation that recalled.
    pub op: String,
    /// The collection that was recalled from.
    pub collection: String,
    /// Tokens that were returned.
    pub returned_tokens: usize,
    /// Tokens in the records that the returned ones come from.
    pub baseline_tokens: usize,
    /// Tokens that were saved, which is never less than none.
    pub saved_tokens: usize,
}

/// What the full records cost more than what was returned, or nothing when they cost less.
pub open spec fn saved(returned: int, baseline: int) -> int {
    if baseline > returned {
        baseline - returned
    } else {
        0
    }
}

impl TokenSavingsEntry {
    /// A measurement at a given time.
    pub fn at(
        ts: Timestamp,
        op: &str,
        collection: &str,
        returned_tokens: usize,
        baseline_tokens: usize,
    ) -> (r: Self)
        ensures
            r.ts == ts,
            r.op@ == op@,
            r.collection@ == collection@,
            r.returned_tokens == returned_tokens,
            r.baseline_tokens == baseline_tokens,
            r.saved_tokens == saved(returned_tokens as int, baseline_tokens as int),
    {
        let saved_tokens: usize = if baseline_tokens > returned_tokens {
            baseline_tokens - returned_tokens
        } else {
            0
        };
        TokenSavingsEntry {
            ts,
            op: op.to_owned(),
            collection: collection.to_owned(),
            returned_tokens,
            baseline_tokens,
            saved_tokens,
        }
    }

    /// A measurement now.
    pub fn new(op: &str, collection: &str, returned_tokens: usize, baseline_tokens: usize) -> (r:
        Self)
        ensures
            r.op@ == op@,
            r.collection@ == collection@,
            r.returned_tokens == returned_tokens,
            r.baseline_tokens == baseline_tokens,
            r.saved_tokens == saved(returned_tokens as int, baseline_tokens as int),
    {
        TokenSavingsEntry::at(clock::now(), op, collection, returned_tokens, baseline_tokens)
    }
}

/// The measurement to record, or nothing when nothing is tracked.
pub fn record_savings(
    op: &str,
    collection: &str,
    returned_tokens: usize,
    baseline_tokens: usize,
    track: bool,
) -> (r: Option<TokenSavingsEntry>)
    ensures
        r is Some <==> track,
        r matches Some(entry) ==> {
            &&& entry.op@ == op@
            &&& entry.collection@ == collection@
            &&& entry.returned_tokens == returned_tokens
            &&& entry.baseline_tokens == baseline_tokens
            &&& entry.saved_tokens == saved(returned_tokens as int, baseline_tokens as int)
        },
{
    if !track {
        return None;
    }
    Some(TokenSavingsEntry::new(op, collection, returned_tokens, baseline_tokens))
}

// ---------------------------------------------------------------------------------------------
// Totals
// ---------------------------------------------------------------------------------------------

/// Totals of measurements.
#[derive(Debug, Clone, Copy, PartialEq, Eq, Structural)]
pub struct OpSavings {
    pub calls: u64,
    pub returned_total: u64,
    pub baseline_total: u64,
    pub saved_total: u64,
}

/// What totals amount to.
pub struct Totals {
    pub calls: int,
    pub returned: int,
    pub baseline: int,
    pub saved: int,
}

impl View for OpSavings {
    type V = Totals;

    open spec fn view(&self) -> Totals {
        Totals {
            calls: self.calls as int,
            returned: self.returned_total as int,
            baseline: self.baseline_total as int,
            saved: self.saved_total as int,
        }
    }
}

impl Default for OpSavings {
    fn default() -> (r: Self)
        ensures
            r@ == Totals::none(),
    {
        OpSavings { calls: 0, returned_total: 0, baseline_total: 0, saved_total: 0 }
    }
}

impl Totals {
    /// No measurement.
    pub open spec fn none() -> Totals {
        Totals { calls: 0, returned: 0, baseline: 0, saved: 0 }
    }

    /// The totals with one more measurement.
    pub open spec fn plus(self, entry: TokenSavingsEntry) -> Totals {
        Totals {
            calls: self.calls + 1,
            returned: self.returned + entry.returned_tokens,
            baseline: self.baseline + entry.baseline_tokens,
            saved: self.saved + entry.saved_tokens,
        }
    }

    /// The totals can be counted in 64 bits.
    pub open spec fn fits(self) -> bool {
        &&& self.calls <= u64::MAX
        &&& self.returned <= u64::MAX
        &&& self.baseline <= u64::MAX
        &&& self.saved <= u64::MAX
    }

    /// No total exceeds that of `other`.
    pub open spec fn within(self, other: Totals) -> bool {
        &&& self.calls <= other.calls
        &&& self.returned <= other.returned
        &&& self.baseline <= other.baseline
        &&& self.saved <= other.saved
    }
}

impl OpSavings {
    /// Whether one more measurement can be counted in 64 bits.
    pub fn has_room(&self, entry: &TokenSavingsEntry) -> (r: bool)
        ensures
            r == self@.plus(*entry).fits(),
    {
        self.calls < u64::MAX && entry.returned_tokens as u64 <= u64::MAX - self.returned_total
            && entry.baseline_tokens as u64 <= u64::MAX - self.baseline_total
            && entry.saved_tokens as u64 <= u64::MAX - self.saved_total
    }

    /// Adds one measurement.
    pub fn add_entry(&mut self, entry: &TokenSavingsEntry)
        requires
            old(self)@.plus(*entry).fits(),
        ensures
            final(self)@ == old(self)@.plus(*entry),
    {
        self.calls = self.calls + 1;
        self.returned_total = self.returned_total + entry.returned_tokens as u64;
        self.baseline_total = self.baseline_total + entry.baseline_tokens as u64;
        self.saved_total = self.saved_total + entry.saved_tokens as u64;
    }
}

/// The totals of all measurements, of each operation, and the first and last time in the order of
/// recording.
pub struct TokenSavingsRollup {
    pub totals: OpSavings,
    pub by_op: TextMap<OpSavings>,
    pub first_ts: Option<Timestamp>,
    pub last_ts: Option<Timestamp>,
}

/// What a rollup amounts to.
#[verifier::ext_equal]
pub struct RollupView {
    pub totals: Totals,
    pub by_op: Map<Seq<char>, Totals>,
    pub first_ts: Option<Timestamp>,
    pub last_ts: Option<Timestamp>,
}

impl View for TokenSavingsRollup {
    type V = RollupView;

    open spec fn view(&self) -> RollupView {
        RollupView {
            totals: self.totals@,
            by_op: text_map::views(self.by_op@),
            first_ts: self.first_ts,
            last_ts: self.last_ts,
        }
    }
}

impl RollupView {
    /// A rollup of nothing.
    pub open spec fn none() -> RollupView {
        RollupView {
            totals: Totals::none(),
            by_op: Map::empty(),
            first_ts: None,
            last_ts: None,
        }
    }

    /// The totals of one operation.
    pub open spec fn of_op(self, op: Seq<char>) -> Totals {
        if self.by_op.dom().contains(op) {
            self.by_op[op]
        } else {
            Totals::none()
        }
    }

    /// The rollup with one more measurement.
    pub open spec fn plus(self, entry: TokenSavingsEntry) -> RollupView {
        RollupView {
            totals: self.totals.plus(entry),
            by_op: self.by_op.insert(entry.op@, self.of_op(entry.op@).plus(entry)),
            first_ts: if self.first_ts is Some {
                self.first_ts
            } else {
                Some(entry.ts)
            },
            last_ts: Some(entry.ts),
        }
    }

    /// No operation exceeds the totals.
    pub open spec fn consistent(self) -> bool {
        forall|op: Seq<char>| #[trigger]
            self.by_op.dom().contains(op) ==> self.by_op[op].within(self.totals)
    }
}

/// The measurement counts when only those from `since` on do.
pub open spec fn counts(entry: TokenSavingsEntry, since: Option<Timestamp>) -> bool {
    match since {
        Some(since) => !entry.ts.earlier(since),
        None => true,
    }
}

/// The rollup of the first `n` measurements that count.
pub open spec fn aggregated(
    entries: Seq<TokenSavingsEntry>,
    since: Option<Timestamp>,
    n: int,
) -> RollupView
    decreases n,
{
    if n <= 0 {
        RollupView::none()
    } else if counts(entries[n - 1], since) {
        aggregated(entries, since, n - 1).plus(entries[n - 1])
    } else {
        aggregated(entries, since, n - 1)
    }
}

impl TokenSavingsRollup {
    /// A rollup of nothing.
    pub fn new() -> (r: Self)
        ensures
            r@ == RollupView::none(),
    {
        proof {
            text_map::lemma_views_empty::<OpSavings>();
        }
        TokenSavingsRollup {
            totals: OpSavings { calls: 0, returned_total: 0, baseline_total: 0, saved_total: 0 },
            by_op: TextMap::new(),
            first_ts: None,
            last_ts: None,
        }
    }

    /// Whether one more measurement can be counted in 64 bits.
    pub fn has_room(&self, entry: &TokenSavingsEntry) -> (r: bool)
        ensures
            r == (self@.totals.plus(*entry).fits() && self@.of_op(entry.op@).plus(*entry).fits()),
    {
        let op = match self.by_op.get(entry.op.as_str()) {
            Some(op) => *op,
            None => OpSavings { calls: 0, returned_total: 0, baseline_total: 0, saved_total: 0 },
        };
        self.totals.has_room(entry) && op.has_room(entry)
    }

    /// Adds one measurement.
    pub fn record(&mut self, entry: &TokenSavingsEntry)
        requires
            old(self)@.totals.plus(*entry).fits(),
            old(self)@.of_op(entry.op@).plus(*entry).fits(),
        ensures
            final(self)@ == old(self)@.plus(*entry),
    {
        self.totals.add_entry(entry);
        if self.first_ts.is_none() {
            self.first_ts = Some(entry.ts);
        }
        self.last_ts = Some(entry.ts);
        let mut op = match self.by_op.get(entry.op.as_str()) {
            Some(op) => *op,
            None => OpSavings { calls: 0, returned_total: 0, baseline_total: 0, saved_total: 0 },
        };
        op.add_entry(entry);
        proof {
            text_map::lemma_views_insert(self.by_op@, entry.op@, op);
        }
        self.by_op.insert(entry.op.clone(), op);
    }
}

/// Whether the totals of the measurements that count can be counted in 64 bits.
pub fn totals_fit(entries: &Vec<TokenSavingsEntry>, since: Option<Timestamp>) -> (r: bool)
    ensures
        r == aggregated(entries@, since, entries@.len() as int).totals.fits(),
{
    let ghost all = aggregated(entries@, since, entries@.len() as int).totals;
    let mut totals = OpSavings::default();
    let mut i: usize = 0;
    while i < entries.len()
        invariant
            all == aggregated(entries@, since, entries@.len() as int).totals,
            i <= entries@.len(),
            totals@ == aggregated(entries@, since, i as int).totals,
        decreases entries@.len() - i,
    {
        let entry = &entries[i];
        let counted: bool = match since {
            Some(since) => !entry.ts.is_before(since),
            None => true,
        };
        if counted {
            proof {
                lemma_aggregate_grows(entries@, since, i + 1, entries@.len() as int);
            }
            if !totals.has_room(entry) {
                return false;
            }
            totals.add_entry(entry);
        }
        i = i + 1;
    }
    true
}

/// The rollup of the measurements that count, in the order of the log.
pub fn aggregate(entries: &Vec<TokenSavingsEntry>, since: Option<Timestamp>) -> (r:
    TokenSavingsRollup)
    requires
        aggregated(entries@, since, entries@.len() as int).totals.fits(),
    ensures
        r@ == aggregated(entries@, since, entries@.len() as int),
{
    let mut rollup = TokenSavingsRollup::new();
    let mut i: usize = 0;
    while i < entries.len()
        invariant
            i <= entries@.len(),
            aggregated(entries@, since, entries@.len() as int).totals.fits(),
            rollup@ == aggregated(entries@, since, i as int),
        decreases entries@.len() - i,
    {
        let entry = &entries[i];
        let counted: bool = match since {
            Some(since) => !entry.ts.is_before(since),
            None => true,
        };
        if counted {
            proof {
                lemma_aggregate_grows(entries@, since, i + 1, entries@.len() as int);
                law_no_operation_exceeds_totals(entries@, since, i as int);
                if rollup@.by_op.dom().contains(entry.op@) {
                    assert(rollup@.by_op[entry.op@].within(rollup@.totals));
                }
                lemma_totals_nonnegative(entries@, since, i as int);
            }
            rollup.record(entry);
        }
        i = i + 1;
    }
    rollup
}

/// The lines of a log that hold a measurement: those that are not blank, trimmed.
pub open spec fn records_among(lines: Seq<Seq<char>>, n: int) -> Seq<Seq<char>>
    decreases n,
{
    if n <= 0 {
        Seq::empty()
    } else if text::bare(lines[n - 1]).len() > 0 {
        records_among(lines, n - 1).push(text::bare(lines[n - 1]))
    } else {
        records_among(lines, n - 1)
    }
}

/// The lines of a log that hold a measurement.
pub fn log_records(content: &str) -> (r: Vec<String>)
    ensures
        text::texts(r@) == records_among(
            text::lines_of(content@),
            text::lines_of(content@).len() as int,
        ),
{
    let lines = text::lines(content);
    let ghost all = text::lines_of(content@);
    let mut out: Vec<String> = Vec::new();
    assert(text::texts(out@) =~= records_among(all, 0));
    let mut i: usize = 0;
    while i < lines.len()
        invariant
            text::texts(lines@) == all,
            i <= lines@.len(),
            text::texts(out@) == records_among(all, i as int),
        decreases lines@.len() - i,
    {
        assert(all[i as int] == lines@[i as int]@);
        let trimmed = text::trim(lines[i].as_str());
        if !trimmed.as_str().is_empty() {
            proof {
                text::lemma_texts_push(out@, trimmed);
            }
            out.push(trimmed);
        }
        i = i + 1;
    }
    out
}

/// The rollup to show: the stored one when all measurements count and there is one, else the one
/// worked out from the log.
pub open spec fn loaded(
    since: Option<Timestamp>,
    stored: Option<RollupView>,
    log: Seq<TokenSavingsEntry>,
) -> RollupView {
    if since is None && stored is Some {
        stored->0
    } else {
        aggregated(log, since, log.len() as int)
    }
}

/// The rollup to show: the stored one when all measurements count and there is one, else the one
/// worked out from the log.
pub fn load_savings_rollup(
    since: Option<Timestamp>,
    stored: Option<TokenSavingsRollup>,
    log: &Vec<TokenSavingsEntry>,
) -> (r: TokenSavingsRollup)
    requires
        since is Some || stored is None ==> aggregated(
            log@,
            since,
            log@.len() as int,
        ).totals.fits(),
    ensures
        since is None && stored is Some ==> r == stored->0,
        r@ == loaded(
            since,
            match stored {
                Some(rollup) => Some(rollup@),
                None => None,
            },
            log@,
        ),
{
    match stored {
        Some(rollup) => if since.is_none() {
            rollup
        } else {
            aggregate(log, since)
        },
        None => aggregate(log, since),
    }
}

// ---------------------------------------------------------------------------------------------
// Laws
// ---------------------------------------------------------------------------------------------

proof fn lemma_totals_nonnegative(
    entries: Seq<TokenSavingsEntry>,
    since: Option<Timestamp>,
    n: int,
)
    ensures
        Totals::none().within(aggregated(entries, since, n).totals),
    decreases n,
{
    if n > 0 {
        lemma_totals_nonnegative(entries, since, n - 1);
    }
}

proof fn lemma_aggregate_grows(
    entries: Seq<TokenSavingsEntry>,
    since: Option<Timestamp>,
    m: int,
    n: int,
)
    requires
        m <= n,
    ensures
        aggregated(entries, since, m).totals.within(aggregated(entries, since, n).totals),
    decreases n - m,
{
    if m < n {
        lemma_aggregate_grows(entries, since, m, n - 1);
    }
}

/// What is saved is never less than nothing, and what is returned and saved together covers the
/// full records.
pub proof fn law_savings_never_negative(returned: int, baseline: int)
    requires
        returned >= 0,
        baseline >= 0,
    ensures
        saved(returned, baseline) >= 0,
        returned + saved(returned, baseline) >= baseline,
        saved(returned, baseline) <= baseline,
{
}

/// No operation exceeds the totals of its rollup.
pub proof fn law_no_operation_exceeds_totals(
    entries: Seq<TokenSavingsEntry>,
    since: Option<Timestamp>,
    n: int,
)
    ensures
        aggregated(entries, since, n).consistent(),
    decreases n,
{
    if n > 0 {
        law_no_operation_exceeds_totals(entries, since, n - 1);
        lemma_totals_nonnegative(entries, since, n - 1);
        let before = aggregated(entries, since, n - 1);
        let after = aggregated(entries, since, n);
        assert forall|op: Seq<char>| #[trigger] after.by_op.dom().contains(op) implies after.by_op[op].within(
            after.totals,
        ) by {
            if before.by_op.dom().contains(op) {
                assert(before.by_op[op].within(before.totals));
            }
        }
    }
}

/// Recording measurements one after another gives what working out the whole log gives.
pub proof fn law_rollup_follows_log(entries: Seq<TokenSavingsEntry>, entry: TokenSavingsEntry)
    ensures
        aggregated(entries.push(entry), None, entries.len() as int + 1) == aggregated(
            entries,
            None,
            entries.len() as int,
        ).plus(entry),
{
    lemma_aggregate_prefix(entries, entry, None, entries.len() as int);
}

proof fn lemma_aggregate_prefix(
    entries: Seq<TokenSavingsEntry>,
    entry: TokenSavingsEntry,
    since: Option<Timestamp>,
    n: int,
)
    requires
        n <= entries.len(),
    ensures
        aggregated(entries.push(entry), since, n) == aggregated(entries, since, n),
    decreases n,
{
    if n > 0 {
        lemma_aggregate_prefix(entries, entry, since, n - 1);
    }
}

/// Measurements from a time on are worked out as if the others were not there.
pub proof fn law_since_filters(entries: Seq<TokenSavingsEntry>, since: Timestamp)
    ensures
        ({
            let kept = entries.filter(|entry: TokenSavingsEntry| counts(entry, Some(since)));
            aggregated(entries, Some(since), entries.len() as int) == aggregated(
                kept,
                None,
                kept.len() as int,
            )
        }),
    decreases entries.len(),
{
    reveal(Seq::filter);
    let keep = |entry: TokenSavingsEntry| counts(entry, Some(since));
    if entries.len() > 0 {
        let head = entries.drop_last();
        let last = entries.last();
        assert(entries =~= head.push(last));
        law_since_filters(head, since);
        lemma_aggregate_prefix(head, last, Some(since), head.len() as int);
        let kept_head = head.filter(keep);
        if counts(last, Some(since)) {
            assert(entries.filter(keep) == kept_head.push(last));
            law_rollup_follows_log(kept_head, last);
        } else {
            assert(entries.filter(keep) == kept_head);
        }
    }
}

/// The totals of an operation are those of its own measurements.
pub proof fn law_operation_totals(
    entries: Seq<TokenSavingsEntry>,
    since: Option<Timestamp>,
    n: int,
    op: Seq<char>,
)
    requires
        0 <= n <= entries.len(),
    ensures
        aggregated(entries, since, n).of_op(op) == op_totals(entries, since, n, op),
    decreases n,
{
    if n > 0 {
        law_operation_totals(entries, since, n - 1, op);
    }
}

/// The totals of the first `n` measurements that count.
pub open spec fn all_totals(
    entries: Seq<TokenSavingsEntry>,
    since: Option<Timestamp>,
    n: int,
) -> Totals
    decreases n,
{
    if n <= 0 {
        Totals::none()
    } else if counts(entries[n - 1], since) {
        all_totals(entries, since, n - 1).plus(entries[n - 1])
    } else {
        all_totals(entries, since, n - 1)
    }
}

/// One of the first `n` measurements counts and is of the operation.
pub open spec fn has_entry(
    entries: Seq<TokenSavingsEntry>,
    since: Option<Timestamp>,
    n: int,
    op: Seq<char>,
) -> bool {
    exists|i: int| 0 <= i < n && counts(#[trigger] entries[i], since) && entries[i].op@ == op
}

/// The rollup of a log is that of its measurements: the totals are theirs, an operation is listed
/// exactly when a measurement that counts is of it, and what is listed for it are the totals of its
/// own measurements. Where all count, there are as many calls as measurements, and where there is
/// none, nothing is rolled up.
pub proof fn law_rollup_is_of_its_entries(
    entries: Seq<TokenSavingsEntry>,
    since: Option<Timestamp>,
    n: int,
    op: Seq<char>,
)
    requires
        0 <= n <= entries.len(),
    ensures
        aggregated(entries, since, n).totals == all_totals(entries, since, n),
        since is None ==> aggregated(entries, since, n).totals.calls == n,
        aggregated(entries, since, n).by_op.dom().contains(op) <==> has_entry(
            entries,
            since,
            n,
            op,
        ),
        has_entry(entries, since, n, op) ==> aggregated(entries, since, n).by_op[op] == op_totals(
            entries,
            since,
            n,
            op,
        ),
        n == 0 ==> aggregated(entries, since, n) == RollupView::none(),
    decreases n,
{
    law_operation_totals(entries, since, n, op);
    if n > 0 {
        law_rollup_is_of_its_entries(entries, since, n - 1, op);
        let last = entries[n - 1];
        if has_entry(entries, since, n - 1, op) {
            let i = choose|i: int|
                0 <= i < n - 1 && counts(#[trigger] entries[i], since) && entries[i].op@ == op;
            assert(counts(entries[i], since));
        }
        if has_entry(entries, since, n, op) && !has_entry(entries, since, n - 1, op) {
            let i = choose|i: int|
                0 <= i < n && counts(#[trigger] entries[i], since) && entries[i].op@ == op;
            assert(i == n - 1);
        }
        if counts(last, since) && last.op@ == op {
            assert(has_entry(entries, since, n, op));
        }
    }
}

impl Totals {
    /// Both totals together.
    pub open spec fn with(self, other: Totals) -> Totals {
        Totals {
            calls: self.calls + other.calls,
            returned: self.returned + other.returned,
            baseline: self.baseline + other.baseline,
            saved: self.saved + other.saved,
        }
    }
}

/// What the first `n` of some operations amount to together.
pub open spec fn sum_over(rollup: RollupView, ops: Seq<Seq<char>>, n: int) -> Totals
    decreases n,
{
    if n <= 0 {
        Totals::none()
    } else {
        sum_over(rollup, ops, n - 1).with(rollup.of_op(ops[n - 1]))
    }
}

proof fn lemma_sum_plus(
    rollup: RollupView,
    entry: TokenSavingsEntry,
    ops: Seq<Seq<char>>,
    n: int,
)
    requires
        ops.no_duplicates(),
        0 <= n <= ops.len(),
    ensures
        ops.take(n).contains(entry.op@) ==> sum_over(rollup.plus(entry), ops, n) == sum_over(
            rollup,
            ops,
            n,
        ).plus(entry),
        !ops.take(n).contains(entry.op@) ==> sum_over(rollup.plus(entry), ops, n) == sum_over(
            rollup,
            ops,
            n,
        ),
    decreases n,
{
    if n > 0 {
        lemma_sum_plus(rollup, entry, ops, n - 1);
        let head = ops.take(n - 1);
        let all = ops.take(n);
        assert(all =~= head.push(ops[n - 1]));
        if ops[n - 1] == entry.op@ {
            assert(all[n - 1] == entry.op@);
            assert(!head.contains(entry.op@)) by {
                if head.contains(entry.op@) {
                    let i = choose|i: int| 0 <= i < n - 1 && head[i] == entry.op@;
                    assert(ops[i] == ops[n - 1]);
                }
            }
        } else {
            if head.contains(entry.op@) {
                let i = choose|i: int| 0 <= i < n - 1 && head[i] == entry.op@;
                assert(all[i] == entry.op@);
            }
            if all.contains(entry.op@) {
                let i = choose|i: int| 0 <= i < n && all[i] == entry.op@;
                assert(head[i] == entry.op@);
            }
        }
    }
}

proof fn lemma_sum_of_none(ops: Seq<Seq<char>>, n: int)
    ensures
        sum_over(RollupView::none(), ops, n) == Totals::none(),
    decreases n,
{
    if n > 0 {
        lemma_sum_of_none(ops, n - 1);
    }
}

proof fn lemma_sum_covers(
    entries: Seq<TokenSavingsEntry>,
    since: Option<Timestamp>,
    n: int,
    ops: Seq<Seq<char>>,
)
    requires
        0 <= n <= entries.len(),
        ops.no_duplicates(),
        forall|op: Seq<char>| #[trigger]
            aggregated(entries, since, n).by_op.dom().contains(op) ==> ops.contains(op),
    ensures
        sum_over(aggregated(entries, since, n), ops, ops.len() as int) == aggregated(
            entries,
            since,
            n,
        ).totals,
    decreases n,
{
    if n == 0 {
        lemma_sum_of_none(ops, ops.len() as int);
    } else {
        let before = aggregated(entries, since, n - 1);
        let after = aggregated(entries, since, n);
        let last = entries[n - 1];
        assert forall|op: Seq<char>| #[trigger] before.by_op.dom().contains(op) implies ops.contains(
            op,
        ) by {
            assert(after.by_op.dom().contains(op));
        }
        lemma_sum_covers(entries, since, n - 1, ops);
        if counts(last, since) {
            assert(after.by_op.dom().contains(last.op@));
            assert(ops.take(ops.len() as int) =~= ops);
            lemma_sum_plus(before, last, ops, ops.len() as int);
        }
    }
}

proof fn lemma_operations_finite(
    entries: Seq<TokenSavingsEntry>,
    since: Option<Timestamp>,
    n: int,
)
    ensures
        aggregated(entries, since, n).by_op.dom().finite(),
    decreases n,
{
    if n > 0 {
        lemma_operations_finite(entries, since, n - 1);
    }
}

/// Each total of a rollup is the sum over its operations, in whatever order they are listed.
pub proof fn law_totals_are_sums_over_operations(
    entries: Seq<TokenSavingsEntry>,
    since: Option<Timestamp>,
    n: int,
    ops: Seq<Seq<char>>,
)
    requires
        0 <= n <= entries.len(),
        ops.no_duplicates(),
        ops.to_set() == aggregated(entries, since, n).by_op.dom(),
    ensures
        aggregated(entries, since, n).by_op.dom().finite(),
        sum_over(aggregated(entries, since, n), ops, ops.len() as int) == aggregated(
            entries,
            since,
            n,
        ).totals,
{
    lemma_operations_finite(entries, since, n);
    assert forall|op: Seq<char>| #[trigger]
        aggregated(entries, since, n).by_op.dom().contains(op) implies ops.contains(op) by {
        assert(ops.to_set().contains(op));
    }
    lemma_sum_covers(entries, since, n, ops);
}

/// The rollup that is stored after the first `n` measurements were recorded one after another.
pub open spec fn after_records(entries: Seq<TokenSavingsEntry>, n: int) -> RollupView
    decreases n,
{
    if n <= 0 {
        RollupView::none()
    } else {
        after_records(entries, n - 1).plus(entries[n - 1])
    }
}

proof fn lemma_records(entries: Seq<TokenSavingsEntry>, n: int)
    ensures
        after_records(entries, n) == aggregated(entries, None, n),
    decreases n,
{
    if n > 0 {
        lemma_records(entries, n - 1);
    }
}

/// What is shown after measurements were recorded is the rollup of those that count, whether it
/// comes from the store or from the log.
pub proof fn law_load_gives_what_was_recorded(
    entries: Seq<TokenSavingsEntry>,
    since: Option<Timestamp>,
)
    ensures
        loaded(since, Some(after_records(entries, entries.len() as int)), entries) == aggregated(
            entries,
            since,
            entries.len() as int,
        ),
        loaded(since, None, entries) == aggregated(entries, since, entries.len() as int),
{
    lemma_records(entries, entries.len() as int);
}

/// The totals of the measurements of one operation among the first `n` that count.
pub open spec fn op_totals(
    entries: Seq<TokenSavingsEntry>,
    since: Option<Timestamp>,
    n: int,
    op: Seq<char>,
) -> Totals
    decreases n,
{
    if n <= 0 {
        Totals::none()
    } else if counts(entries[n - 1], since) && entries[n - 1].op@ == op {
        op_totals(entries, since, n - 1, op).plus(entries[n - 1])
    } else {
        op_totals(entries, since, n - 1, op)
    }
}

/// What is saved is what the full records cost more than what was returned; where they do not cost
/// more, it is nothing.
pub proof fn law_saved_is_the_difference(returned: int, baseline: int)
    ensures
        baseline >= returned ==> saved(returned, baseline) == baseline - returned,
        baseline < returned ==> saved(returned, baseline) == 0,
{
}

/// A measurement that counts adds one call and its own tokens to the totals and to those of its
/// operation, and to no other operation; the first time stays, and the last time is its own. One from
/// before the time that is asked for changes nothing, and one at that time or later counts.
pub proof fn law_measurement_is_added_once(
    entries: Seq<TokenSavingsEntry>,
    since: Option<Timestamp>,
    n: int,
    op: Seq<char>,
)
    requires
        0 < n <= entries.len(),
    ensures
        ({
            let entry = entries[n - 1];
            let before = aggregated(entries, since, n - 1);
            let after = aggregated(entries, since, n);
            let late = since is None || entry.ts.secs > since->0.secs || entry.ts.secs
                == since->0.secs && entry.ts.nanos >= since->0.nanos;
            &&& !late ==> after == before
            &&& late ==> {
                &&& after.totals.calls == before.totals.calls + 1
                &&& after.totals.returned == before.totals.returned + entry.returned_tokens
                &&& after.totals.baseline == before.totals.baseline + entry.baseline_tokens
                &&& after.totals.saved == before.totals.saved + entry.saved_tokens
                &&& after.by_op.dom().contains(entry.op@)
                &&& after.of_op(entry.op@).calls == before.of_op(entry.op@).calls + 1
                &&& after.of_op(entry.op@).returned == before.of_op(entry.op@).returned
                    + entry.returned_tokens
                &&& after.of_op(entry.op@).baseline == before.of_op(entry.op@).baseline
                    + entry.baseline_tokens
                &&& after.of_op(entry.op@).saved == before.of_op(entry.op@).saved
                    + entry.saved_tokens
                &&& op != entry.op@ ==> after.of_op(op) == before.of_op(op)
                &&& before.first_ts is Some ==> after.first_ts == before.first_ts
                &&& before.first_ts is None ==> after.first_ts == Some(entry.ts)
                &&& after.last_ts == Some(entry.ts)
            }
        }),
        aggregated(entries, since, 0).totals.calls == 0,
        aggregated(entries, since, 0).totals.returned == 0,
        aggregated(entries, since, 0).totals.baseline == 0,
        aggregated(entries, since, 0).totals.saved == 0,
        aggregated(entries, since, 0).first_ts is None,
        aggregated(entries, since, 0).last_ts is None,
        aggregated(entries, since, 0).by_op.dom().is_empty(),
{
}

/// A line that is appended to a log is one more record, without the white space around it; a blank
/// line is none.
pub proof fn law_log_lines_are_records(content: Seq<char>, line: Seq<char>)
    requires
        content.len() > 0 ==> content.last() == '\n',
        !line.contains('\n'),
        line.len() > 0 ==> line.last() != '\r',
    ensures
        ({
            let before = text::lines_of(content);
            let after = text::lines_of(content + (line + seq!['\n']));
            records_among(after, after.len() as int) == (if text::bare(line).len() > 0 {
                records_among(before, before.len() as int).push(text::bare(line))
            } else {
                records_among(before, before.len() as int)
            })
        }),
{
    let nothing = Seq::<char>::empty();
    crate::text_laws::law_lines_of_whole_lines(content, line + seq!['\n']);
    crate::text_laws::law_lines_end_at_line_feeds(line, nothing);
    assert(line + seq!['\n'] + nothing =~= line + seq!['\n']);
    let before = text::lines_of(content);
    let after = text::lines_of(content + (line + seq!['\n']));
    assert(after =~= before.push(line));
    lemma_records_prefix(before, after, before.len() as int);
}

proof fn lemma_records_prefix(a: Seq<Seq<char>>, b: Seq<Seq<char>>, n: int)
    requires
        n <= a.len(),
        n <= b.len(),
        forall|i: int| 0 <= i < n ==> #[trigger] a[i] == b[i],
    ensures
        records_among(a, n) == records_among(b, n),
    decreases n,
{
    if n > 0 {
        lemma_records_prefix(a, b, n - 1);
        assert(a[n - 1] == b[n - 1]);
    }
}

/// The stored rollup is shown only when all measurements count; with a time to begin at, the log is
/// worked out, whatever is stored.
pub proof fn law_stored_rollup_is_for_all_time(
    since: Timestamp,
    stored: RollupView,
    log: Seq<TokenSavingsEntry>,
)
    ensures
        loaded(None, Some(stored), log) == stored,
        loaded(None, None, log) == aggregated(log, None, log.len() as int),
        loaded(Some(since), Some(stored), log) == aggregated(log, Some(since), log.len() as int),
        loaded(Some(since), None, log) == aggregated(log, Some(since), log.len() as int),
{
}

} // verus!
