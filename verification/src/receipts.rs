//! Receipts for what a parent hands to its children: who may be started, under which budget, and
//! under which ids it is written down.

use vstd::prelude::*;
use crate::paths;
use crate::paths::PartView;
use crate::scores::Amount;
use crate::text;
use crate::text::CharClass;

verus! {

/// The greatest length of a task boundary, in characters.
pub const RECEIPT_TASK_BOUNDARY_CHARS: usize = 200;

/// The variable that turns refusal of starts without a budget on.
pub const ARTESIAN_RECEIPTS_FAIL_CLOSED_ENV: &'static str = "ARTESIAN_RECEIPTS_FAIL_CLOSED";

// ---------------------------------------------------------------------------------------------
// Records
// ---------------------------------------------------------------------------------------------

/// Why a child stopped.
#[derive(Debug, Clone, Copy, PartialEq, Eq, Structural)]
pub enum StopReason {
    Done,
    BudgetTokens,
    BudgetToolCalls,
    BudgetTime,
    BudgetCost,
    GateRejected,
    Error,
    Killed,
}

impl StopReason {
    /// The word for a reason in a receipt.
    pub open spec fn word(self) -> Seq<char> {
        match self {
            StopReason::Done => "done"@,
            StopReason::BudgetTokens => "budget_tokens"@,
            StopReason::BudgetToolCalls => "budget_tool_calls"@,
            StopReason::BudgetTime => "budget_time"@,
            StopReason::BudgetCost => "budget_cost"@,
            StopReason::GateRejected => "gate_rejected"@,
            StopReason::Error => "error"@,
            StopReason::Killed => "killed"@,
        }
    }

    /// The word for a reason in a receipt.
    pub fn as_str(self) -> (r: &'static str)
        ensures
            r@ == self.word(),
    {
        match self {
            StopReason::Done => "done",
            StopReason::BudgetTokens => "budget_tokens",
            StopReason::BudgetToolCalls => "budget_tool_calls",
            StopReason::BudgetTime => "budget_time",
            StopReason::BudgetCost => "budget_cost",
            StopReason::GateRejected => "gate_rejected",
            StopReason::Error => "error",
            StopReason::Killed => "killed",
        }
    }
}

/// What a child may spend. A dimension that is not declared has no limit.
#[derive(Debug, Clone, Copy, PartialEq, Eq, Structural)]
pub struct BudgetEnvelope {
    pub max_tokens: Option<u64>,
    pub max_tool_calls: Option<u64>,
    pub max_wall_time_ms: Option<u64>,
    pub max_cost_usd: Option<Amount>,
}

impl Default for BudgetEnvelope {
    fn default() -> (r: Self)
        ensures
            r == (BudgetEnvelope {
                max_tokens: None,
                max_tool_calls: None,
                max_wall_time_ms: None,
                max_cost_usd: None,
            }),
    {
        BudgetEnvelope {
            max_tokens: None,
            max_tool_calls: None,
            max_wall_time_ms: None,
            max_cost_usd: None,
        }
    }
}

impl BudgetEnvelope {
    /// No dimension is declared.
    pub open spec fn undeclared(self) -> bool {
        &&& self.max_tokens is None
        &&& self.max_tool_calls is None
        &&& self.max_wall_time_ms is None
        &&& self.max_cost_usd is None
    }

    /// Whether no dimension is declared.
    pub fn is_empty(&self) -> (r: bool)
        ensures
            r == self.undeclared(),
    {
        self.max_tokens.is_none() && self.max_tool_calls.is_none()
            && self.max_wall_time_ms.is_none() && self.max_cost_usd.is_none()
    }
}

/// What a child spent, in the dimensions of a budget.
#[derive(Debug, Clone, Copy, PartialEq, Eq, Structural)]
pub struct Consumed {
    pub tokens: Option<u64>,
    pub tool_calls: Option<u64>,
    pub wall_time_ms: Option<u64>,
    pub cost_usd: Option<Amount>,
}

/// What the parent received back.
#[derive(Debug, Clone, PartialEq, Eq)]
pub struct Distilled {
    pub tokens: Option<u64>,
    pub reference: Option<String>,
}

/// Whether what came back was let in.
#[derive(Debug, Clone, PartialEq, Eq)]
pub struct GateDecision {
    pub admitted: bool,
    pub reason: Option<String>,
}

/// The first line of an instruction, trimmed and cut.
pub open spec fn boundary_of(instruction: Seq<char>) -> Seq<char> {
    let lines = text::lines_of(instruction);
    let first = if lines.len() > 0 {
        lines[0]
    } else {
        Seq::empty()
    };
    text::head(text::bare(first), RECEIPT_TASK_BOUNDARY_CHARS as int)
}

/// The boundary of a task: the first line of its instruction, trimmed and cut.
pub fn task_boundary_from_instruction(instruction: &str) -> (r: String)
    ensures
        r@ == boundary_of(instruction@),
        r@.len() <= RECEIPT_TASK_BOUNDARY_CHARS,
{
    let lines = text::lines(instruction);
    assert(text::texts(lines@).len() == lines@.len());
    let first = if lines.len() > 0 {
        assert(text::texts(lines@)[0] == lines@[0]@);
        lines[0].clone()
    } else {
        String::new()
    };
    assert(lines@.len() == 0 ==> first@ =~= Seq::<char>::empty());
    let trimmed = text::trim(first.as_str());
    text::take_chars(trimmed.as_str(), RECEIPT_TASK_BOUNDARY_CHARS)
}

// ---------------------------------------------------------------------------------------------
// Admission
// ---------------------------------------------------------------------------------------------

/// What is demanded of starts.
#[derive(Debug, Clone, Copy, PartialEq, Eq, Structural)]
pub struct ReceiptsConfig {
    /// A start without a budget, or whose receipt cannot be written, is refused.
    pub fail_closed: bool,
    /// The budget where none is declared.
    pub default_budget: Option<BudgetEnvelope>,
    /// Every receipt is flushed to the disk.
    pub fsync: bool,
}

impl Default for ReceiptsConfig {
    fn default() -> (r: Self)
        ensures
            r == (ReceiptsConfig { fail_closed: false, default_budget: None, fsync: false }),
    {
        ReceiptsConfig { fail_closed: false, default_budget: None, fsync: false }
    }
}

/// The value of a variable turns something on.
pub open spec fn is_truthy(value: Seq<char>) -> bool {
    let word = text::lowered(text::bare(value));
    word == "1"@ || word == "true"@ || word == "yes"@ || word == "on"@
}

/// Whether the value of a variable turns something on.
pub fn truthy(value: &str) -> (r: bool)
    ensures
        r == is_truthy(value@),
{
    let trimmed = text::trim(value);
    let word = text::to_ascii_lowercase(trimmed.as_str());
    text::same_text(word.as_str(), "1") || text::same_text(word.as_str(), "true")
        || text::same_text(word.as_str(), "yes") || text::same_text(word.as_str(), "on")
}

impl ReceiptsConfig {
    /// What the value of [`ARTESIAN_RECEIPTS_FAIL_CLOSED_ENV`] demands.
    pub fn from_env(value: Option<&str>) -> (r: Self)
        ensures
            r == (ReceiptsConfig {
                fail_closed: value is Some && is_truthy(value->0@),
                default_budget: None,
                fsync: false,
            }),
    {
        let fail_closed = match value {
            Some(value) => truthy(value),
            None => false,
        };
        ReceiptsConfig { fail_closed, default_budget: None, fsync: false }
    }
}

/// Whether a child may be started. Only a start without any budget is refused, and only where
/// refusal is on.
pub fn check_admission(budget: &BudgetEnvelope, fail_closed: bool) -> (r: Result<(), String>)
    ensures
        r is Err <==> fail_closed && budget.undeclared(),
        r is Err ==> r->Err_0@
            == "no budget dimension declared in any of budget/max_tokens/max_tool_calls/max_wall_time_ms/max_cost_usd, and receipts.fail_closed is enabled"@,
{
    if fail_closed && budget.is_empty() {
        Err(
            "no budget dimension declared in any of budget/max_tokens/max_tool_calls/max_wall_time_ms/max_cost_usd, and receipts.fail_closed is enabled".to_owned(),
        )
    } else {
        Ok(())
    }
}

// ---------------------------------------------------------------------------------------------
// Files and ids
// ---------------------------------------------------------------------------------------------

/// The number of lines among the first `n` that are not blank.
pub open spec fn nonblank(lines: Seq<Seq<char>>, n: int) -> int
    decreases n,
{
    if n <= 0 {
        0
    } else {
        nonblank(lines, n - 1) + if text::bare(lines[n - 1]).len() > 0 {
            1int
        } else {
            0int
        }
    }
}

/// The number of receipts in a file.
pub open spec fn receipts_in(content: Option<Seq<char>>) -> int {
    match content {
        Some(content) => nonblank(
            text::lines_of(content),
            text::lines_of(content).len() as int,
        ),
        None => 0,
    }
}

/// The number of receipts in a file: its lines that are not blank, none where there is no file.
pub fn count_existing_lines(content: Option<&str>) -> (r: u64)
    ensures
        r == receipts_in(text::str_opt(content)),
{
    match content {
        Some(content) => {
            let lines = text::lines(content);
            let ghost all = text::lines_of(content@);
            let mut n: u64 = 0;
            let mut i: usize = 0;
            while i < lines.len()
                invariant
                    text::texts(lines@) == all,
                    i <= lines@.len(),
                    n <= i,
                    n == nonblank(all, i as int),
                decreases lines@.len() - i,
            {
                assert(all[i as int] == lines@[i as int]@);
                let trimmed = text::trim(lines[i].as_str());
                if !trimmed.as_str().is_empty() {
                    n = n + 1;
                }
                i = i + 1;
            }
            n
        },
        None => 0,
    }
}

/// A character as it stands in a run label.
pub open spec fn label_char(c: char) -> char {
    if text::is_ascii_word(c) || c == '-' || c == '_' {
        c
    } else {
        '-'
    }
}

/// A text is made of punctuation alone, or of nothing.
pub open spec fn only_punctuation(s: Seq<char>) -> bool {
    forall|i: int| 0 <= i < s.len() ==> !text::is_ascii_word(#[trigger] s[i])
}

/// The name of a run as it stands in file names and ids: letters, digits, dashes and underscores,
/// without dashes at the ends, and a word of its own where no letter or digit is left.
pub open spec fn run_label(run: Seq<char>) -> Seq<char> {
    let cleaned = text::trimmed(
        Seq::new(run.len(), |i: int| label_char(run[i])),
        CharClass::Only('-'),
    );
    if only_punctuation(cleaned) {
        "adhoc"@
    } else {
        cleaned
    }
}

fn is_only_punctuation(s: &str) -> (r: bool)
    ensures
        r == only_punctuation(s@),
{
    let cs = text::to_chars(s);
    let mut i: usize = 0;
    while i < cs.len()
        invariant
            cs@ == s@,
            i <= cs@.len(),
            forall|j: int| 0 <= j < i ==> !text::is_ascii_word(#[trigger] s@[j]),
        decreases cs@.len() - i,
    {
        if text::is_ascii_alphanumeric(cs[i]) {
            assert(text::is_ascii_word(s@[i as int]));
            return false;
        }
        i = i + 1;
    }
    true
}

/// The name of a run as it stands in file names and ids.
pub fn sanitize_run_label(run: &str) -> (r: String)
    ensures
        r@ == run_label(run@),
{
    let cs = text::to_chars(run);
    let ghost mapped = Seq::new(run@.len(), |i: int| label_char(run@[i]));
    let mut out = String::new();
    let mut i: usize = 0;
    while i < cs.len()
        invariant
            cs@ == run@,
            mapped == Seq::new(run@.len(), |i: int| label_char(run@[i])),
            i <= cs@.len(),
            out@ == mapped.take(i as int),
        decreases cs@.len() - i,
    {
        let c: char = cs[i];
        out.push(
            if text::is_ascii_alphanumeric(c) || c == '-' || c == '_' {
                c
            } else {
                '-'
            },
        );
        assert(mapped.take(i + 1) =~= mapped.take(i as int).push(mapped[i as int]));
        i = i + 1;
    }
    assert(mapped.take(i as int) =~= mapped);
    let cleaned = text::trim_class(out.as_str(), CharClass::Only('-'));
    if is_only_punctuation(cleaned.as_str()) {
        "adhoc".to_owned()
    } else {
        cleaned
    }
}

/// The id of a receipt: the run and the number of the receipt, with at least six digits.
pub open spec fn receipt_id(run: Seq<char>, number: nat) -> Seq<char> {
    "rc_"@ + run + "_"@ + text::padded_left(text::decimal(number), 6, '0')
}

/// The path of the file that holds the receipts of a run.
pub open spec fn receipt_path(dir: Seq<char>, run: Seq<char>) -> Seq<char> {
    paths::joined(dir, "receipts-"@ + run + ".jsonl"@)
}

/// How many ids were handed out for each file. Writers of one file share its count.
pub struct ReceiptSequences {
    counts: Vec<(String, u64)>,
}

/// Where the count of a file stands at or after `i`.
spec fn slot_from(counts: Seq<(String, u64)>, parts: Seq<PartView>, i: int) -> Option<int>
    decreases counts.len() - i,
{
    if i >= counts.len() {
        None
    } else if paths::parts_of(counts[i].0@) == parts {
        Some(i)
    } else {
        slot_from(counts, parts, i + 1)
    }
}

proof fn lemma_slot_from(counts: Seq<(String, u64)>, parts: Seq<PartView>, i: int)
    requires
        0 <= i,
    ensures
        match slot_from(counts, parts, i) {
            Some(k) => i <= k < counts.len() && paths::parts_of(counts[k].0@) == parts,
            None => forall|j: int|
                i <= j < counts.len() ==> paths::parts_of((#[trigger] counts[j]).0@) != parts,
        },
    decreases counts.len() - i,
{
    if i < counts.len() && paths::parts_of(counts[i].0@) != parts {
        lemma_slot_from(counts, parts, i + 1);
    }
}

impl View for ReceiptSequences {
    type V = Map<Seq<PartView>, u64>;

    closed spec fn view(&self) -> Map<Seq<PartView>, u64> {
        Map::new(
            |parts: Seq<PartView>| slot_from(self.counts@, parts, 0) is Some,
            |parts: Seq<PartView>| self.counts@[slot_from(self.counts@, parts, 0)->0].1,
        )
    }
}

proof fn lemma_slot_update(counts: Seq<(String, u64)>, k: int, value: (String, u64), parts: Seq<PartView>, i: int)
    requires
        0 <= i,
        0 <= k < counts.len(),
        paths::parts_of(value.0@) == paths::parts_of(counts[k].0@),
    ensures
        slot_from(counts.update(k, value), parts, i) == slot_from(counts, parts, i),
    decreases counts.len() - i,
{
    if i < counts.len() {
        lemma_slot_update(counts, k, value, parts, i + 1);
    }
}

proof fn lemma_slot_push(counts: Seq<(String, u64)>, value: (String, u64), parts: Seq<PartView>, i: int)
    requires
        0 <= i <= counts.len(),
    ensures
        slot_from(counts.push(value), parts, i) == (match slot_from(counts, parts, i) {
            Some(k) => Some(k),
            None => if paths::parts_of(value.0@) == parts {
                Some(counts.len() as int)
            } else {
                None
            },
        }),
    decreases counts.len() - i,
{
    if i < counts.len() {
        lemma_slot_push(counts, value, parts, i + 1);
    } else {
        assert(slot_from(counts.push(value), parts, i + 1) is None);
    }
}

impl ReceiptSequences {
    /// No file was opened.
    pub fn new() -> (r: Self)
        ensures
            r@ == Map::<Seq<PartView>, u64>::empty(),
    {
        let r = ReceiptSequences { counts: Vec::new() };
        assert(r@ =~= Map::<Seq<PartView>, u64>::empty());
        r
    }

    fn find(&self, path: &str) -> (r: Option<usize>)
        ensures
            match r {
                Some(i) => slot_from(self.counts@, paths::parts_of(path@), 0) == Some(i as int) && i
                    < self.counts@.len(),
                None => slot_from(self.counts@, paths::parts_of(path@), 0) is None,
            },
    {
        let mut i: usize = 0;
        while i < self.counts.len()
            invariant
                i <= self.counts@.len(),
                slot_from(self.counts@, paths::parts_of(path@), 0) == slot_from(
                    self.counts@,
                    paths::parts_of(path@),
                    i as int,
                ),
            decreases self.counts@.len() - i,
        {
            if paths::same_path(self.counts[i].0.as_str(), path) {
                return Some(i);
            }
            i = i + 1;
        }
        None
    }

    /// Whether a file was opened before.
    pub fn contains(&self, path: &str) -> (r: bool)
        ensures
            r == self@.dom().contains(paths::parts_of(path@)),
    {
        self.find(path).is_some()
    }

    /// How many ids were handed out for a file that was opened.
    pub fn count(&self, path: &str) -> (r: Option<u64>)
        ensures
            r == (if self@.dom().contains(paths::parts_of(path@)) {
                Some(self@[paths::parts_of(path@)])
            } else {
                None
            }),
    {
        match self.find(path) {
            Some(i) => Some(self.counts[i].1),
            None => None,
        }
    }

    /// Opens a file: a file that was not open before goes on from the receipts that it holds.
    pub fn open(&mut self, path: &str, existing: u64)
        ensures
            final(self)@ == (if old(self)@.dom().contains(paths::parts_of(path@)) {
                old(self)@
            } else {
                old(self)@.insert(paths::parts_of(path@), existing)
            }),
    {
        if self.contains(path) {
            return;
        }
        let entry = (path.to_owned(), existing);
        proof {
            let parts = paths::parts_of(path@);
            let before = self.counts@;
            let after = before.push(entry);
            assert forall|p: Seq<PartView>| true implies slot_from(after, p, 0) == (
            match slot_from(before, p, 0) {
                Some(k) => Some(k),
                None => if parts == p {
                    Some(before.len() as int)
                } else {
                    None
                },
            }) by {
                lemma_slot_push(before, entry, p, 0);
            }
            assert forall|p: Seq<PartView>| (#[trigger] slot_from(before, p, 0)) is Some implies 0
                <= slot_from(before, p, 0)->0 < before.len() by {
                lemma_slot_from(before, p, 0);
            }
        }
        self.counts.push(entry);
        assert(self@ =~= old(self)@.insert(paths::parts_of(path@), existing));
    }

    /// Counts one more id for an open file and gives its number.
    pub fn advance(&mut self, path: &str) -> (r: u64)
        requires
            old(self)@.dom().contains(paths::parts_of(path@)),
            old(self)@[paths::parts_of(path@)] < u64::MAX,
        ensures
            r == old(self)@[paths::parts_of(path@)] + 1,
            final(self)@ == old(self)@.insert(paths::parts_of(path@), r),
    {
        let ghost parts = paths::parts_of(path@);
        match self.find(path) {
            Some(i) => {
                let number: u64 = self.counts[i].1 + 1;
                let name = self.counts[i].0.clone();
                let ghost before = self.counts@;
                let entry = (name, number);
                self.counts.set(i, entry);
                proof {
                    lemma_slot_from(before, parts, 0);
                    assert forall|p: Seq<PartView>| #[trigger]
                        slot_from(self.counts@, p, 0) == slot_from(before, p, 0) by {
                        lemma_slot_update(before, i as int, entry, p, 0);
                    }
                    assert forall|p: Seq<PartView>| #[trigger] self@.dom().contains(p) implies self@[p]
                        == old(self)@.insert(parts, number)[p] by {
                        lemma_slot_from(before, p, 0);
                    }
                    assert(self@ =~= old(self)@.insert(parts, number));
                }
                number
            },
            None => {
                assert(false);
                0
            },
        }
    }
}

/// Hands out the ids for the receipts of one run and knows the file that they are appended to.
pub struct ReceiptWriter {
    path: String,
    run: String,
    fsync: bool,
}

impl ReceiptWriter {
    /// The path of the file.
    pub closed spec fn path_spec(self) -> Seq<char> {
        self.path@
    }

    /// The label of the run.
    pub closed spec fn run_spec(self) -> Seq<char> {
        self.run@
    }

    /// Every receipt is flushed to the disk.
    pub closed spec fn fsync_spec(self) -> bool {
        self.fsync
    }

    /// A writer for a run below `dir`. `existing` is what the file holds; a file that is open goes
    /// on with its own count.
    pub fn open(
        dir: &str,
        run: &str,
        fsync: bool,
        sequences: &mut ReceiptSequences,
        existing: Option<&str>,
    ) -> (r: Self)
        ensures
            r.run_spec() == run_label(run@),
            r.path_spec() == receipt_path(dir@, run_label(run@)),
            r.fsync_spec() == fsync,
            final(sequences)@ == (if old(sequences)@.dom().contains(
                paths::parts_of(r.path_spec()),
            ) {
                old(sequences)@
            } else {
                old(sequences)@.insert(
                    paths::parts_of(r.path_spec()),
                    receipts_in(text::str_opt(existing)) as u64,
                )
            }),
    {
        let run = sanitize_run_label(run);
        let mut name = "receipts-".to_owned();
        name.append(run.as_str());
        name.append(".jsonl");
        let path = paths::join(dir, name.as_str());
        let count = count_existing_lines(existing);
        sequences.open(path.as_str(), count);
        ReceiptWriter { path, run, fsync }
    }

    /// The path of the file.
    pub fn path(&self) -> (r: &str)
        ensures
            r@ == self.path_spec(),
    {
        self.path.as_str()
    }

    /// The label of the run.
    pub fn run(&self) -> (r: &str)
        ensures
            r@ == self.run_spec(),
    {
        self.run.as_str()
    }

    /// Whether every receipt is flushed to the disk.
    pub fn fsync(&self) -> (r: bool)
        ensures
            r == self.fsync_spec(),
    {
        self.fsync
    }

    /// The next id for a receipt of the run.
    pub fn next_receipt_id(&self, sequences: &mut ReceiptSequences) -> (r: String)
        requires
            old(sequences)@.dom().contains(paths::parts_of(self.path_spec())),
            old(sequences)@[paths::parts_of(self.path_spec())] < u64::MAX,
        ensures
            ({
                let parts = paths::parts_of(self.path_spec());
                let number = (old(sequences)@[parts] + 1) as u64;
                &&& r@ == receipt_id(self.run_spec(), number as nat)
                &&& final(sequences)@ == old(sequences)@.insert(parts, number)
            }),
    {
        let number = sequences.advance(self.path.as_str());
        let mut out = "rc_".to_owned();
        out.append(self.run.as_str());
        out.append("_");
        let digits = text::decimal_u64(number);
        let padded = text::pad_left(digits.as_str(), 6, '0');
        out.append(padded.as_str());
        out
    }
}

/// A receipt as a line of its file.
pub fn receipt_line(json: &str) -> (r: String)
    ensures
        r@ == json@ + "\n"@,
{
    let mut out = json.to_owned();
    out.append("\n");
    out
}

// ---------------------------------------------------------------------------------------------
// Laws
// ---------------------------------------------------------------------------------------------

/// Ids are unique: two receipts with the same id belong to the same run and have the same number.
pub proof fn law_receipt_ids_unique(run_a: Seq<char>, a: nat, run_b: Seq<char>, b: nat)
    requires
        receipt_id(run_a, a) == receipt_id(run_b, b),
    ensures
        run_a == run_b,
        a == b,
{
    reveal_strlit("rc_");
    reveal_strlit("_");
    let da = text::padded_left(text::decimal(a), 6, '0');
    let db = text::padded_left(text::decimal(b), 6, '0');
    let ia = receipt_id(run_a, a);
    let ib = receipt_id(run_b, b);
    lemma_padded_digits(a);
    lemma_padded_digits(b);
    assert(ia.len() == 4 + run_a.len() + da.len());
    assert(ib.len() == 4 + run_b.len() + db.len());
    if da.len() < db.len() {
        let k = ia.len() - da.len() - 1;
        assert(ia[k] == '_');
        assert(ib[k] == db[k - (4 + run_b.len())]);
        assert(text::is_digit(db[k - (4 + run_b.len())]));
        assert(false);
    } else if db.len() < da.len() {
        let k = ib.len() - db.len() - 1;
        assert(ib[k] == '_');
        assert(ia[k] == da[k - (4 + run_a.len())]);
        assert(text::is_digit(da[k - (4 + run_a.len())]));
        assert(false);
    }
    assert(run_a =~= ia.subrange(3, 3 + run_a.len() as int));
    assert(run_b =~= ib.subrange(3, 3 + run_b.len() as int));
    assert(da =~= ia.skip(4 + run_a.len() as int));
    assert(db =~= ib.skip(4 + run_b.len() as int));
    lemma_padded_value(a);
    lemma_padded_value(b);
}

/// Padding keeps digits digits.
proof fn lemma_padded_digits(n: nat)
    ensures
        ({
            let d = text::padded_left(text::decimal(n), 6, '0');
            d.len() > 0 && forall|i: int| 0 <= i < d.len() ==> text::is_digit(#[trigger] d[i])
        }),
{
    text::lemma_decimal_digits(n);
    let s = text::decimal(n);
    let d = text::padded_left(s, 6, '0');
    assert forall|i: int| 0 <= i < d.len() implies text::is_digit(#[trigger] d[i]) by {
        let pad = d.len() - s.len();
        if i >= pad {
            assert(d[i] == s[i - pad]);
        }
    }
}

/// Padding keeps the number that digits stand for.
proof fn lemma_padded_value(n: nat)
    ensures
        text::digits_value(text::padded_left(text::decimal(n), 6, '0')) == n,
{
    let s = text::decimal(n);
    text::lemma_decimal_value(n);
    let k = (if s.len() < 6 {
        6 - s.len()
    } else {
        0
    }) as nat;
    text::lemma_zeros_value(k, s);
}

/// Ids of a run go up: the id that is handed out at a count differs from that at any later count,
/// so none is handed out twice.
pub proof fn law_later_ids_differ(run: Seq<char>, count: nat, later: nat)
    requires
        count < later,
    ensures
        receipt_id(run, count + 1) != receipt_id(run, later + 1),
{
    if receipt_id(run, count + 1) == receipt_id(run, later + 1) {
        law_receipt_ids_unique(run, count + 1, run, later + 1);
    }
}

/// Labels of runs are safe in file names and ids: they hold a letter or a digit, and apart from
/// those only dashes and underscores, neither begin nor end in a dash, and a label is its own label.
pub proof fn law_run_labels_are_safe(run: Seq<char>)
    ensures
        run_label(run).len() > 0,
        !only_punctuation(run_label(run)),
        forall|i: int|
            0 <= i < run_label(run).len() ==> text::is_ascii_word(#[trigger] run_label(run)[i])
                || run_label(run)[i] == '-' || run_label(run)[i] == '_',
        run_label(run)[0] != '-',
        run_label(run).last() != '-',
        run_label(run_label(run)) == run_label(run),
{
    reveal_strlit("adhoc");
    let mapped = Seq::new(run.len(), |i: int| label_char(run[i]));
    let cleaned = text::trimmed(mapped, CharClass::Only('-'));
    let from = mapped.len() - text::trim_start(mapped, CharClass::Only('-')).len();
    text::lemma_trimmed_part(mapped, CharClass::Only('-'));
    let label = run_label(run);
    assert forall|i: int| 0 <= i < label.len() implies text::is_ascii_word(#[trigger] label[i])
        || label[i] == '-' || label[i] == '_' by {
        if !only_punctuation(cleaned) {
            assert(label[i] == mapped[from + i]);
            assert(mapped[from + i] == label_char(run[from + i]));
        }
    }
    assert(text::is_ascii_word("adhoc"@[0]));
    assert(Seq::new(label.len(), |i: int| label_char(label[i])) =~= label);
    text::lemma_trimmed_stays(label, CharClass::Only('-'));
}

/// A run that is named by letters, digits, dashes and underscores alone, that begins and ends in a
/// letter or a digit, keeps its name.
pub proof fn law_plain_run_names_stay(run: Seq<char>)
    requires
        run.len() > 0,
        forall|i: int|
            0 <= i < run.len() ==> text::is_ascii_word(#[trigger] run[i]) || run[i] == '-' || run[i]
                == '_',
        text::is_ascii_word(run[0]),
        text::is_ascii_word(run.last()),
    ensures
        run_label(run) == run,
{
    assert(Seq::new(run.len(), |i: int| label_char(run[i])) =~= run);
    text::lemma_trimmed_stays(run, CharClass::Only('-'));
}

/// In the name of a run that begins and ends in a letter or a digit, every character that is no
/// letter, digit, dash or underscore becomes a dash in its place, and the others stay.
pub proof fn law_run_labels_keep_places(run: Seq<char>, i: int)
    requires
        0 <= i < run.len(),
        text::is_ascii_word(run[0]),
        text::is_ascii_word(run.last()),
    ensures
        run_label(run).len() == run.len(),
        run_label(run)[i] == (if text::is_ascii_word(run[i]) || run[i] == '-' || run[i] == '_' {
            run[i]
        } else {
            '-'
        }),
{
    let mapped = Seq::new(run.len(), |i: int| label_char(run[i]));
    assert(mapped[0] == run[0]);
    assert(mapped.last() == run.last());
    text::lemma_trimmed_stays(mapped, CharClass::Only('-'));
}

/// The boundary of a task is its first line: what follows the line plays no part, a short line is
/// kept whole and of a longer one the first 200 characters.
pub proof fn law_boundary_is_the_first_line(line: Seq<char>, rest: Seq<char>)
    requires
        !line.contains('\n'),
        line.len() > 0,
        !text::is_space(line[0]),
        !text::is_space(line.last()),
    ensures
        boundary_of(line + seq!['\n'] + rest) == boundary_of(line),
        line.len() <= 200 ==> boundary_of(line) == line,
        line.len() > 200 ==> boundary_of(line) == line.take(200),
{
    crate::text_laws::law_lines_end_at_line_feeds(line, rest);
    text::lemma_trimmed_stays(line, CharClass::Space);
    assert(line.last() != '\r');
}

/// A setting is on for `1`, `true`, `yes` and `on`, in any case and with white space around it, and
/// off for anything else.
pub proof fn law_settings_are_on_for_four_words(
    before: Seq<char>,
    word: Seq<char>,
    after: Seq<char>,
)
    requires
        forall|i: int| 0 <= i < before.len() ==> text::is_space(#[trigger] before[i]),
        forall|i: int| 0 <= i < after.len() ==> text::is_space(#[trigger] after[i]),
        word.len() > 0 ==> !text::is_space(word[0]) && !text::is_space(word.last()),
    ensures
        is_truthy(before + word + after) <==> text::lowered(word) == "1"@ || text::lowered(word)
            == "true"@ || text::lowered(word) == "yes"@ || text::lowered(word) == "on"@,
{
    assert forall|i: int| 0 <= i < before.len() implies CharClass::Space.has(
        #[trigger] before[i],
    ) by {}
    assert forall|i: int| 0 <= i < after.len() implies CharClass::Space.has(#[trigger] after[i]) by {}
    crate::text_laws::law_trimming_keeps_the_middle(before, word, after, CharClass::Space);
}

/// A receipt that is appended to a file counts as one more, and a blank line does not.
pub proof fn law_receipts_are_counted(content: Seq<char>, line: Seq<char>)
    requires
        content.len() > 0 ==> content.last() == '\n',
        !line.contains('\n'),
        line.len() > 0 ==> line.last() != '\r',
    ensures
        receipts_in(Some(content + (line + seq!['\n']))) == receipts_in(Some(content)) + (
        if text::bare(line).len() > 0 {
            1int
        } else {
            0int
        }),
        receipts_in(None) == 0,
        receipts_in(Some(Seq::empty())) == 0,
{
    let nothing = Seq::<char>::empty();
    crate::text_laws::law_lines_of_whole_lines(content, line + seq!['\n']);
    crate::text_laws::law_lines_end_at_line_feeds(line, nothing);
    assert(line + seq!['\n'] + nothing =~= line + seq!['\n']);
    let old_lines = text::lines_of(content);
    let lines = text::lines_of(content + (line + seq!['\n']));
    assert(lines =~= old_lines.push(line));
    lemma_nonblank_prefix(old_lines, lines, old_lines.len() as int);
}

proof fn lemma_nonblank_prefix(a: Seq<Seq<char>>, b: Seq<Seq<char>>, n: int)
    requires
        n <= a.len(),
        n <= b.len(),
        forall|i: int| 0 <= i < n ==> #[trigger] a[i] == b[i],
    ensures
        nonblank(a, n) == nonblank(b, n),
    decreases n,
{
    if n > 0 {
        lemma_nonblank_prefix(a, b, n - 1);
        assert(a[n - 1] == b[n - 1]);
    }
}

/// An id tells its run and its number: it begins with the mark of receipts and the run, and what
/// follows are at least six digits that stand for the number.
pub proof fn law_receipt_id_tells_run_and_number(run: Seq<char>, number: nat)
    ensures
        ({
            let front = "rc_"@ + run + "_"@;
            let digits = receipt_id(run, number).skip(front.len() as int);
            &&& text::begins_with(receipt_id(run, number), front)
            &&& digits.len() >= 6
            &&& text::digits_value(digits) == number
            &&& number >= 1_000_000 ==> digits == text::decimal(number)
        }),
{
    let front = "rc_"@ + run + "_"@;
    let digits = text::padded_left(text::decimal(number), 6, '0');
    let id = receipt_id(run, number);
    assert(id =~= front + digits);
    crate::text_laws::law_text_is_found_where_it_stands(Seq::empty(), front, digits);
    assert(id.skip(front.len() as int) =~= digits);
    crate::text_laws::law_padding_fills_to_the_width(text::decimal(number), 6, '0');
    let pad = (if text::decimal(number).len() < 6 {
        6 - text::decimal(number).len()
    } else {
        0
    }) as nat;
    text::lemma_zeros_value(pad, text::decimal(number));
    text::lemma_decimal_value(number);
    assert(digits =~= Seq::new(pad, |i: int| '0') + text::decimal(number));
    if number >= 1_000_000 {
        lemma_long_decimal(number);
    }
}

proof fn lemma_long_decimal(n: nat)
    requires
        n >= 1_000_000,
    ensures
        text::decimal(n).len() >= 6,
{
    reveal_with_fuel(text::decimal, 7);
}

/// The receipts of a run are kept in a file of their own below the directory, named by the run.
pub proof fn law_receipt_files(dir: Seq<char>, run: Seq<char>)
    requires
        dir.len() > 0,
        !run.contains('/'),
    ensures
        paths::parts_of(receipt_path(dir, run)) == paths::parts_of(dir).push(
            PartView::Normal("receipts-"@ + run + ".jsonl"@),
        ),
{
    reveal_strlit("receipts-");
    reveal_strlit(".jsonl");
    reveal_strlit(".");
    reveal_strlit("..");
    let name = "receipts-"@ + run + ".jsonl"@;
    assert(name[0] == 'r');
    assert(!name.contains('/')) by {
        assert forall|i: int| 0 <= i < name.len() implies name[i] != '/' by {
            if 9 <= i < 9 + run.len() {
                assert(name[i] == run[i - 9]);
            }
        }
    }
    paths::law_name_below_a_directory(dir, name);
}

/// A budget counts as declared as soon as one of its dimensions is.
pub proof fn law_one_dimension_declares_a_budget(budget: BudgetEnvelope)
    ensures
        budget.max_tokens is Some || budget.max_tool_calls is Some || budget.max_wall_time_ms is Some
            || budget.max_cost_usd is Some <==> !budget.undeclared(),
{
}

/// The words for the reasons tell them apart.
pub proof fn law_stop_words_tell_reasons_apart(a: StopReason, b: StopReason)
    ensures
        a.word() == b.word() ==> a == b,
{
    reveal_strlit("done");
    reveal_strlit("budget_tokens");
    reveal_strlit("budget_tool_calls");
    reveal_strlit("budget_time");
    reveal_strlit("budget_cost");
    reveal_strlit("gate_rejected");
    reveal_strlit("error");
    reveal_strlit("killed");
    assert("done"@.len() == 4);
    assert("budget_tokens"@.len() == 13 && "budget_tokens"@[0] == 'b');
    assert("budget_tool_calls"@.len() == 17);
    assert("budget_time"@.len() == 11 && "budget_time"@[7] == 't');
    assert("budget_cost"@.len() == 11 && "budget_cost"@[7] == 'c');
    assert("gate_rejected"@.len() == 13 && "gate_rejected"@[0] == 'g');
    assert("error"@.len() == 5);
    assert("killed"@.len() == 6);
}

} // verus!
