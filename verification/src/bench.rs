//! The benchmark of the control plane: what one cycle let in, held against labelled facts.

use vstd::prelude::*;
use crate::scores::Score;
use crate::sorting;
use crate::text;

verus! {

/// What a fact really is.
#[derive(Debug, Clone, Copy, PartialEq, Eq, Structural)]
pub enum FactLabel {
    /// Relevant and true.
    Gold,
    /// Irrelevant.
    Distractor,
    /// Contradicts a gold fact.
    Contradiction,
    /// Not supported by anything.
    Fabrication,
}

impl FactLabel {
    /// The word for a label.
    pub fn as_str(self) -> (r: &'static str)
        ensures
            r@ == (match self {
                FactLabel::Gold => "gold"@,
                FactLabel::Distractor => "distractor"@,
                FactLabel::Contradiction => "contradiction"@,
                FactLabel::Fabrication => "fabrication"@,
            }),
    {
        match self {
            FactLabel::Gold => "gold",
            FactLabel::Distractor => "distractor",
            FactLabel::Contradiction => "contradiction",
            FactLabel::Fabrication => "fabrication",
        }
    }
}

/// A candidate with its label.
#[derive(Debug, Clone, PartialEq, Eq)]
pub struct LabeledFact {
    pub id: String,
    pub content: String,
    pub label: FactLabel,
    /// The score that recall gives the fact.
    pub score: Score,
}

/// What a labelled candidate is.
#[verifier::ext_equal]
pub struct FactView {
    pub id: Seq<char>,
    pub content: Seq<char>,
    pub label: FactLabel,
    pub score: Score,
}

impl View for LabeledFact {
    type V = FactView;

    open spec fn view(&self) -> FactView {
        FactView { id: self.id@, content: self.content@, label: self.label, score: self.score }
    }
}

impl LabeledFact {
    /// A candidate with its label and score.
    pub fn new(id: &str, content: &str, label: FactLabel, score: Score) -> (r: Self)
        ensures
            r@ == (FactView { id: id@, content: content@, label, score }),
    {
        LabeledFact { id: id.to_owned(), content: content.to_owned(), label, score }
    }
}

/// A query with its candidates.
#[derive(Debug, Clone, PartialEq, Eq)]
pub struct BenchCase {
    pub query: String,
    pub facts: Vec<LabeledFact>,
}

/// What a cycle of the control plane counted.
#[derive(Debug, Clone, Copy, PartialEq, Eq, Structural)]
pub struct CycleMetrics {
    pub candidates: usize,
    pub admitted: usize,
    pub footprint_tokens: usize,
}

/// An exact ratio: a numerator over a denominator that is not zero.
#[derive(Debug, Clone, Copy, PartialEq, Eq, Structural)]
pub struct Ratio {
    pub numerator: usize,
    pub denominator: usize,
}

/// One number to another, and nothing to one where the other is zero.
pub open spec fn ratio_of(numerator: nat, denominator: nat) -> (nat, nat) {
    if denominator == 0 {
        (0, 1)
    } else {
        (numerator, denominator)
    }
}

impl View for Ratio {
    type V = (nat, nat);

    open spec fn view(&self) -> (nat, nat) {
        (self.numerator as nat, self.denominator as nat)
    }
}

/// One number to another, and nothing to one where the other is zero.
pub fn ratio(numerator: usize, denominator: usize) -> (r: Ratio)
    ensures
        r@ == ratio_of(numerator as nat, denominator as nat),
{
    if denominator == 0 {
        Ratio { numerator: 0, denominator: 1 }
    } else {
        Ratio { numerator, denominator }
    }
}

/// How one arm did.
#[derive(Debug, Clone, PartialEq, Eq)]
pub struct BenchResult {
    pub arm: String,
    pub candidates: usize,
    pub admitted: usize,
    pub admitted_gold: usize,
    pub total_gold: usize,
    pub raw_recall_tokens: usize,
    pub footprint_tokens: usize,
    pub precision: Ratio,
    pub recall: Ratio,
    pub drift_rate: Ratio,
    pub hallucination_rate: Ratio,
    /// What was let in as a share of all that was recalled.
    pub footprint_ratio: Ratio,
}

/// The label of the last fact with the id among the first `n`.
pub open spec fn label_among(facts: Seq<LabeledFact>, id: Seq<char>, n: int) -> Option<FactLabel>
    decreases n,
{
    if n <= 0 {
        None
    } else if facts[n - 1].id@ == id {
        Some(facts[n - 1].label)
    } else {
        label_among(facts, id, n - 1)
    }
}

/// The label of an id.
pub open spec fn label_of(facts: Seq<LabeledFact>, id: Seq<char>) -> Option<FactLabel> {
    label_among(facts, id, facts.len() as int)
}

fn find_label(facts: &Vec<LabeledFact>, id: &str) -> (r: Option<FactLabel>)
    ensures
        r == label_of(facts@, id@),
{
    let mut n: usize = facts.len();
    while n > 0
        invariant
            n <= facts@.len(),
            label_of(facts@, id@) == label_among(facts@, id@, n as int),
        decreases n,
    {
        if text::same_text(facts[n - 1].id.as_str(), id) {
            return Some(facts[n - 1].label);
        }
        n = n - 1;
    }
    None
}

/// The number of the first `n` committed ids that have a label.
pub open spec fn committed_with(
    facts: Seq<LabeledFact>,
    committed: Seq<Seq<char>>,
    label: FactLabel,
    n: int,
) -> nat
    decreases n,
{
    if n <= 0 {
        0
    } else {
        committed_with(facts, committed, label, n - 1) + if label_of(facts, committed[n - 1])
            == Some(label) {
            1nat
        } else {
            0nat
        }
    }
}

fn count_committed(facts: &Vec<LabeledFact>, committed: &Vec<String>, label: FactLabel) -> (r: usize)
    ensures
        r == committed_with(
            facts@,
            text::texts(committed@),
            label,
            committed@.len() as int,
        ),
        r <= committed@.len(),
{
    let ghost all = text::texts(committed@);
    let mut count: usize = 0;
    let mut i: usize = 0;
    while i < committed.len()
        invariant
            all == text::texts(committed@),
            count <= i <= committed@.len(),
            count == committed_with(facts@, all, label, i as int),
        decreases committed@.len() - i,
    {
        assert(all[i as int] == committed@[i as int]@);
        let matching: bool = match find_label(facts, committed[i].as_str()) {
            Some(found) => found == label,
            None => false,
        };
        if matching {
            count = count + 1;
        }
        i = i + 1;
    }
    count
}

/// The number of gold facts among the first `n`.
pub open spec fn gold_among(facts: Seq<LabeledFact>, n: int) -> nat
    decreases n,
{
    if n <= 0 {
        0
    } else {
        gold_among(facts, n - 1) + if facts[n - 1].label == FactLabel::Gold {
            1nat
        } else {
            0nat
        }
    }
}

fn count_gold(facts: &Vec<LabeledFact>) -> (r: usize)
    ensures
        r == gold_among(facts@, facts@.len() as int),
        r <= facts@.len(),
{
    let mut count: usize = 0;
    let mut i: usize = 0;
    while i < facts.len()
        invariant
            count <= i <= facts@.len(),
            count == gold_among(facts@, i as int),
        decreases facts@.len() - i,
    {
        if facts[i].label == FactLabel::Gold {
            count = count + 1;
        }
        i = i + 1;
    }
    count
}

/// The sum of the first `n` numbers.
pub open spec fn sum_of(numbers: Seq<usize>, n: int) -> nat
    decreases n,
{
    if n <= 0 {
        0
    } else {
        sum_of(numbers, n - 1) + numbers[n - 1] as nat
    }
}

proof fn lemma_sum_grows(numbers: Seq<usize>, m: int, n: int)
    requires
        m <= n,
    ensures
        sum_of(numbers, m) <= sum_of(numbers, n),
    decreases n - m,
{
    if m < n {
        lemma_sum_grows(numbers, m, n - 1);
    }
}

fn sum(numbers: &Vec<usize>) -> (r: usize)
    requires
        sum_of(numbers@, numbers@.len() as int) <= usize::MAX,
    ensures
        r == sum_of(numbers@, numbers@.len() as int),
{
    let mut total: usize = 0;
    let mut i: usize = 0;
    while i < numbers.len()
        invariant
            sum_of(numbers@, numbers@.len() as int) <= usize::MAX,
            i <= numbers@.len(),
            total == sum_of(numbers@, i as int),
        decreases numbers@.len() - i,
    {
        proof {
            lemma_sum_grows(numbers@, i + 1, numbers@.len() as int);
        }
        total = total + numbers[i];
        i = i + 1;
    }
    total
}

/// A committed id counts for at most one rate: the gold, the contradicting and the fabricated ones
/// together are no more than the committed ones, so the rates of an arm whose admitted ids are the
/// committed ones add up to one at most.
pub proof fn law_rates_share_the_committed(
    facts: Seq<LabeledFact>,
    committed: Seq<Seq<char>>,
    n: int,
)
    requires
        0 <= n <= committed.len(),
    ensures
        committed_with(facts, committed, FactLabel::Gold, n) + committed_with(
            facts,
            committed,
            FactLabel::Contradiction,
            n,
        ) + committed_with(facts, committed, FactLabel::Fabrication, n) <= n,
    decreases n,
{
    if n > 0 {
        law_rates_share_the_committed(facts, committed, n - 1);
    }
}

/// How an arm did: `token_counts` holds the tokens of each fact, and `committed` the ids that the
/// cycle let in.
pub fn run_bench(
    arm: &str,
    case: &BenchCase,
    token_counts: &Vec<usize>,
    metrics: CycleMetrics,
    committed: &Vec<String>,
) -> (r: BenchResult)
    requires
        token_counts@.len() == case.facts@.len(),
        sum_of(token_counts@, token_counts@.len() as int) <= usize::MAX,
    ensures
        r.arm@ == arm@,
        r.candidates == metrics.candidates,
        r.admitted == metrics.admitted,
        r.footprint_tokens == metrics.footprint_tokens,
        r.total_gold == gold_among(case.facts@, case.facts@.len() as int),
        r.raw_recall_tokens == sum_of(token_counts@, token_counts@.len() as int),
        ({
            let ids = text::texts(committed@);
            let n = ids.len() as int;
            let gold = committed_with(case.facts@, ids, FactLabel::Gold, n);
            &&& r.admitted_gold == gold
            &&& r.precision@ == ratio_of(gold, metrics.admitted as nat)
            &&& r.recall@ == ratio_of(gold, r.total_gold as nat)
            &&& r.drift_rate@ == ratio_of(
                committed_with(case.facts@, ids, FactLabel::Contradiction, n),
                metrics.admitted as nat,
            )
            &&& r.hallucination_rate@ == ratio_of(
                committed_with(case.facts@, ids, FactLabel::Fabrication, n),
                metrics.admitted as nat,
            )
        }),
        r.footprint_ratio@ == ratio_of(
            metrics.footprint_tokens as nat,
            r.raw_recall_tokens as nat,
        ),
        metrics.admitted == 0 ==> r.precision.numerator == 0 && r.drift_rate.numerator == 0
            && r.hallucination_rate.numerator == 0,
{
    let raw_recall_tokens = sum(token_counts);
    let total_gold = count_gold(&case.facts);
    let admitted_gold = count_committed(&case.facts, committed, FactLabel::Gold);
    let contradictions = count_committed(&case.facts, committed, FactLabel::Contradiction);
    let fabrications = count_committed(&case.facts, committed, FactLabel::Fabrication);
    BenchResult {
        arm: arm.to_owned(),
        candidates: metrics.candidates,
        admitted: metrics.admitted,
        admitted_gold,
        total_gold,
        raw_recall_tokens,
        footprint_tokens: metrics.footprint_tokens,
        precision: ratio(admitted_gold, metrics.admitted),
        recall: ratio(admitted_gold, total_gold),
        drift_rate: ratio(contradictions, metrics.admitted),
        hallucination_rate: ratio(fabrications, metrics.admitted),
        footprint_ratio: ratio(metrics.footprint_tokens, raw_recall_tokens),
    }
}

/// The facts of the demonstration case.
pub open spec fn demo_facts() -> Seq<FactView> {
    seq![
        FactView {
            id: "g1"@,
            content: "the team chose Rust for the core crates"@,
            label: FactLabel::Gold,
            score: Score { bits: 0x4040_0000 },
        },
        FactView {
            id: "g2"@,
            content: "deployments run nightly on the kubernetes cluster"@,
            label: FactLabel::Gold,
            score: Score { bits: 0x4000_0000 },
        },
        FactView {
            id: "r1"@,
            content: "the team chose Rust for the core crates"@,
            label: FactLabel::Distractor,
            score: Score { bits: 0x3fc0_0000 },
        },
        FactView {
            id: "d1"@,
            content: "the office coffee machine was replaced in March"@,
            label: FactLabel::Distractor,
            score: Score { bits: 0x3f80_0000 },
        },
        FactView {
            id: "c1"@,
            content: "the team chose Go for the core crates"@,
            label: FactLabel::Contradiction,
            score: Score { bits: 0x4020_0000 },
        },
        FactView {
            id: "f1"@,
            content: "the team deployed to a quantum datacenter on Mars"@,
            label: FactLabel::Fabrication,
            score: Score { bits: 0x3f99_999a },
        },
    ]
}

/// A small case with facts of every label, among them a repetition.
pub fn demo_case() -> (r: BenchCase)
    ensures
        r.query@ == "what language and deployment did the team choose"@,
        sorting::views(r.facts@) == demo_facts(),
{
    let facts: Vec<LabeledFact> = vec![
        LabeledFact::new(
            "g1",
            "the team chose Rust for the core crates",
            FactLabel::Gold,
            Score::from_bits(0x4040_0000),
        ),
        LabeledFact::new(
            "g2",
            "deployments run nightly on the kubernetes cluster",
            FactLabel::Gold,
            Score::from_bits(0x4000_0000),
        ),
        LabeledFact::new(
            "r1",
            "the team chose Rust for the core crates",
            FactLabel::Distractor,
            Score::from_bits(0x3fc0_0000),
        ),
        LabeledFact::new(
            "d1",
            "the office coffee machine was replaced in March",
            FactLabel::Distractor,
            Score::from_bits(0x3f80_0000),
        ),
        LabeledFact::new(
            "c1",
            "the team chose Go for the core crates",
            FactLabel::Contradiction,
            Score::from_bits(0x4020_0000),
        ),
        LabeledFact::new(
            "f1",
            "the team deployed to a quantum datacenter on Mars",
            FactLabel::Fabrication,
            Score::from_bits(0x3f99_999a),
        ),
    ];
    assert(sorting::views(facts@) =~= demo_facts());
    BenchCase { query: "what language and deployment did the team choose".to_owned(), facts }
}

/// The ratios of a result as text.
#[derive(Debug, Clone, PartialEq, Eq)]
pub struct RatioTexts {
    pub precision: String,
    pub recall: String,
    pub drift_rate: String,
    pub hallucination_rate: String,
    pub footprint_ratio: String,
}

/// A result as a block of markdown.
pub open spec fn markdown(result: BenchResult, ratios: RatioTexts) -> Seq<char> {
    "### arm: "@ + result.arm@ + "\n| metric | value |\n|---|---|\n| candidates | "@ + text::decimal(
        result.candidates as nat,
    ) + " |\n| admitted | "@ + text::decimal(result.admitted as nat) + " |\n| precision | "@
        + ratios.precision@ + " |\n| recall | "@ + ratios.recall@ + " |\n| drift_rate | "@
        + ratios.drift_rate@ + " |\n| hallucination_rate | "@ + ratios.hallucination_rate@
        + " |\n| footprint_tokens | "@ + text::decimal(result.footprint_tokens as nat)
        + " |\n| raw_recall_tokens | "@ + text::decimal(result.raw_recall_tokens as nat)
        + " |\n| footprint_ratio | "@ + ratios.footprint_ratio@ + " |\n"@
}

/// A result as a block of markdown. `ratios` holds its ratios as text.
pub fn render_markdown(result: &BenchResult, ratios: &RatioTexts) -> (r: String)
    ensures
        r@ == markdown(*result, *ratios),
{
    let mut out = "### arm: ".to_owned();
    out.append(result.arm.as_str());
    out.append("\n| metric | value |\n|---|---|\n| candidates | ");
    let candidates = text::decimal_u64(result.candidates as u64);
    out.append(candidates.as_str());
    out.append(" |\n| admitted | ");
    let admitted = text::decimal_u64(result.admitted as u64);
    out.append(admitted.as_str());
    out.append(" |\n| precision | ");
    out.append(ratios.precision.as_str());
    out.append(" |\n| recall | ");
    out.append(ratios.recall.as_str());
    out.append(" |\n| drift_rate | ");
    out.append(ratios.drift_rate.as_str());
    out.append(" |\n| hallucination_rate | ");
    out.append(ratios.hallucination_rate.as_str());
    out.append(" |\n| footprint_tokens | ");
    let footprint = text::decimal_u64(result.footprint_tokens as u64);
    out.append(footprint.as_str());
    out.append(" |\n| raw_recall_tokens | ");
    let raw = text::decimal_u64(result.raw_recall_tokens as u64);
    out.append(raw.as_str());
    out.append(" |\n| footprint_ratio | ");
    out.append(ratios.footprint_ratio.as_str());
    out.append(" |\n");
    out
}

/// A committed id is judged by the label of the last fact with that id, and by none where there is no
/// such fact.
pub proof fn law_last_fact_labels_its_id(facts: Seq<LabeledFact>, id: Seq<char>, k: int)
    requires
        0 <= k <= facts.len(),
        k < facts.len() ==> facts[k].id@ == id,
        forall|j: int| k < j < facts.len() ==> (#[trigger] facts[j]).id@ != id,
        k == facts.len() ==> forall|j: int| 0 <= j < facts.len() ==> (#[trigger] facts[j]).id@ != id,
    ensures
        label_of(facts, id) == (if k < facts.len() {
            Some(facts[k].label)
        } else {
            None
        }),
{
    lemma_label_among(facts, id, facts.len() as int, k);
}

proof fn lemma_label_among(facts: Seq<LabeledFact>, id: Seq<char>, n: int, k: int)
    requires
        0 <= n <= facts.len(),
        0 <= k < n ==> facts[k].id@ == id,
        0 <= k,
        forall|j: int| k < j < n ==> (#[trigger] facts[j]).id@ != id,
        k >= n ==> forall|j: int| 0 <= j < n ==> (#[trigger] facts[j]).id@ != id,
    ensures
        label_among(facts, id, n) == (if k < n {
            Some(facts[k].label)
        } else {
            None
        }),
    decreases n,
{
    if n > 0 && k != n - 1 {
        assert(facts[n - 1].id@ != id);
        lemma_label_among(facts, id, n - 1, k);
    }
}

/// An arm is counted id by id: each committed id adds one to the count of its own label and to no
/// other, and each gold fact adds one to the gold ones.
pub proof fn law_committed_ids_are_counted(
    facts: Seq<LabeledFact>,
    committed: Seq<Seq<char>>,
    id: Seq<char>,
    label: FactLabel,
    fact: LabeledFact,
)
    ensures
        ({
            let more = committed.push(id);
            committed_with(facts, more, label, more.len() as int) == committed_with(
                facts,
                committed,
                label,
                committed.len() as int,
            ) + (if label_of(facts, id) == Some(label) {
                1nat
            } else {
                0nat
            })
        }),
        ({
            let more = facts.push(fact);
            gold_among(more, more.len() as int) == gold_among(facts, facts.len() as int) + (
            if fact.label == FactLabel::Gold {
                1nat
            } else {
                0nat
            })
        }),
        committed_with(facts, Seq::empty(), label, 0) == 0,
        gold_among(Seq::empty(), 0) == 0,
{
    lemma_committed_prefix(facts, committed, committed.push(id), label, committed.len() as int);
    lemma_gold_prefix(facts, facts.push(fact), facts.len() as int);
}

proof fn lemma_committed_prefix(
    facts: Seq<LabeledFact>,
    a: Seq<Seq<char>>,
    b: Seq<Seq<char>>,
    label: FactLabel,
    n: int,
)
    requires
        n <= a.len(),
        n <= b.len(),
        forall|i: int| 0 <= i < n ==> #[trigger] a[i] == b[i],
    ensures
        committed_with(facts, a, label, n) == committed_with(facts, b, label, n),
    decreases n,
{
    if n > 0 {
        lemma_committed_prefix(facts, a, b, label, n - 1);
        assert(a[n - 1] == b[n - 1]);
    }
}

proof fn lemma_gold_prefix(a: Seq<LabeledFact>, b: Seq<LabeledFact>, n: int)
    requires
        n <= a.len(),
        n <= b.len(),
        forall|i: int| 0 <= i < n ==> #[trigger] a[i] == b[i],
    ensures
        gold_among(a, n) == gold_among(b, n),
    decreases n,
{
    if n > 0 {
        lemma_gold_prefix(a, b, n - 1);
        assert(a[n - 1] == b[n - 1]);
    }
}

/// A ratio is what it is made of, and never divides by zero: to nothing, everything is nothing.
pub proof fn law_ratios(numerator: nat, denominator: nat)
    ensures
        ratio_of(numerator, denominator).1 > 0,
        denominator > 0 ==> ratio_of(numerator, denominator) == (numerator, denominator),
        denominator == 0 ==> ratio_of(numerator, denominator).0 == 0,
{
}

/// The tokens of all facts are the sum of those of each.
pub proof fn law_tokens_add_up(numbers: Seq<usize>, more: usize)
    ensures
        sum_of(numbers.push(more), numbers.len() as int + 1) == sum_of(numbers, numbers.len() as int)
            + more,
        sum_of(numbers, 0) == 0,
{
    lemma_sum_prefix(numbers, numbers.push(more), numbers.len() as int);
}

proof fn lemma_sum_prefix(a: Seq<usize>, b: Seq<usize>, n: int)
    requires
        n <= a.len(),
        n <= b.len(),
        forall|i: int| 0 <= i < n ==> #[trigger] a[i] == b[i],
    ensures
        sum_of(a, n) == sum_of(b, n),
    decreases n,
{
    if n > 0 {
        lemma_sum_prefix(a, b, n - 1);
        assert(a[n - 1] == b[n - 1]);
    }
}

/// The block of markdown tells every number of the result, each behind its name.
pub proof fn law_markdown_tells_every_number(result: BenchResult, ratios: RatioTexts)
    ensures
        ({
            let said = markdown(result, ratios);
            &&& text::begins_with(said, "### arm: "@ + result.arm@ + "\n"@)
            &&& text::has_text(
                said,
                "| candidates | "@ + text::decimal(result.candidates as nat) + " |"@,
            )
            &&& text::has_text(
                said,
                "| admitted | "@ + text::decimal(result.admitted as nat) + " |"@,
            )
            &&& text::has_text(said, "| precision | "@ + ratios.precision@ + " |"@)
            &&& text::has_text(said, "| recall | "@ + ratios.recall@ + " |"@)
            &&& text::has_text(said, "| drift_rate | "@ + ratios.drift_rate@ + " |"@)
            &&& text::has_text(
                said,
                "| hallucination_rate | "@ + ratios.hallucination_rate@ + " |"@,
            )
            &&& text::has_text(
                said,
                "| footprint_tokens | "@ + text::decimal(result.footprint_tokens as nat) + " |"@,
            )
            &&& text::has_text(
                said,
                "| raw_recall_tokens | "@ + text::decimal(result.raw_recall_tokens as nat) + " |"@,
            )
            &&& text::has_text(said, "| footprint_ratio | "@ + ratios.footprint_ratio@ + " |"@)
        }),
{
    let lines = markdown_lines(result, ratios);
    let head = "### arm: "@ + result.arm@ + "\n"@;
    let table = "| metric | value |\n|---|---|\n"@;
    let body = lines_text(lines, 9);
    let said = markdown(result, ratios);
    lemma_markdown_lines(result, ratios);
    crate::text_laws::law_text_is_found_where_it_stands(Seq::empty(), head, table + body);
    assert(said =~= head + (table + body));
    assert forall|k: int| 0 <= k < 9 implies text::has_text(said, #[trigger] lines[k]) by {
        let (front, back) = lemma_line_stands(lines, 9, k);
        assert(said =~= (head + table + front) + lines[k] + back);
        crate::text_laws::law_text_is_found_where_it_stands(
            head + table + front,
            lines[k],
            back,
        );
    }
    assert(text::has_text(said, lines[0]));
    assert(text::has_text(said, lines[1]));
    assert(text::has_text(said, lines[2]));
    assert(text::has_text(said, lines[3]));
    assert(text::has_text(said, lines[4]));
    assert(text::has_text(said, lines[5]));
    assert(text::has_text(said, lines[6]));
    assert(text::has_text(said, lines[7]));
    assert(text::has_text(said, lines[8]));
}

spec fn markdown_lines(result: BenchResult, ratios: RatioTexts) -> Seq<Seq<char>> {
    seq![
        "| candidates | "@ + text::decimal(result.candidates as nat) + " |"@,
        "| admitted | "@ + text::decimal(result.admitted as nat) + " |"@,
        "| precision | "@ + ratios.precision@ + " |"@,
        "| recall | "@ + ratios.recall@ + " |"@,
        "| drift_rate | "@ + ratios.drift_rate@ + " |"@,
        "| hallucination_rate | "@ + ratios.hallucination_rate@ + " |"@,
        "| footprint_tokens | "@ + text::decimal(result.footprint_tokens as nat) + " |"@,
        "| raw_recall_tokens | "@ + text::decimal(result.raw_recall_tokens as nat) + " |"@,
        "| footprint_ratio | "@ + ratios.footprint_ratio@ + " |"@,
    ]
}

proof fn lemma_cells_split()
    ensures
        "\n| metric | value |\n|---|---|\n| candidates | "@ == "\n"@
            + "| metric | value |\n|---|---|\n"@ + "| candidates | "@,
        " |\n| admitted | "@ == " |"@ + "\n"@ + "| admitted | "@,
        " |\n| precision | "@ == " |"@ + "\n"@ + "| precision | "@,
        " |\n| recall | "@ == " |"@ + "\n"@ + "| recall | "@,
        " |\n| drift_rate | "@ == " |"@ + "\n"@ + "| drift_rate | "@,
        " |\n| hallucination_rate | "@ == " |"@ + "\n"@ + "| hallucination_rate | "@,
        " |\n| footprint_tokens | "@ == " |"@ + "\n"@ + "| footprint_tokens | "@,
        " |\n| raw_recall_tokens | "@ == " |"@ + "\n"@ + "| raw_recall_tokens | "@,
        " |\n| footprint_ratio | "@ == " |"@ + "\n"@ + "| footprint_ratio | "@,
        " |\n"@ == " |"@ + "\n"@,
{
    reveal_strlit("\n");
    reveal_strlit(" |");
    reveal_strlit(" |\n");
    reveal_strlit("\n| metric | value |\n|---|---|\n| candidates | ");
    reveal_strlit("| metric | value |\n|---|---|\n");
    reveal_strlit("| candidates | ");
    reveal_strlit(" |\n| admitted | ");
    reveal_strlit("| admitted | ");
    reveal_strlit(" |\n| precision | ");
    reveal_strlit("| precision | ");
    reveal_strlit(" |\n| recall | ");
    reveal_strlit("| recall | ");
    reveal_strlit(" |\n| drift_rate | ");
    reveal_strlit("| drift_rate | ");
    reveal_strlit(" |\n| hallucination_rate | ");
    reveal_strlit("| hallucination_rate | ");
    reveal_strlit(" |\n| footprint_tokens | ");
    reveal_strlit("| footprint_tokens | ");
    reveal_strlit(" |\n| raw_recall_tokens | ");
    reveal_strlit("| raw_recall_tokens | ");
    reveal_strlit(" |\n| footprint_ratio | ");
    reveal_strlit("| footprint_ratio | ");
}

proof fn lemma_markdown_lines(result: BenchResult, ratios: RatioTexts)
    ensures
        markdown(result, ratios) == "### arm: "@ + result.arm@ + "\n"@
            + "| metric | value |\n|---|---|\n"@ + lines_text(markdown_lines(result, ratios), 9),
{
    lemma_cells_split();
    let lines = markdown_lines(result, ratios);
    let (end, feed) = (" |"@, "\n"@);
    let head = "### arm: "@ + result.arm@ + feed + "| metric | value |\n|---|---|\n"@;
    let c0 = text::decimal(result.candidates as nat);
    let c1 = text::decimal(result.admitted as nat);
    let c6 = text::decimal(result.footprint_tokens as nat);
    let c7 = text::decimal(result.raw_recall_tokens as nat);
    let p0 = head + lines_text(lines, 0);
    assert(p0 =~= head);
    let arm = "### arm: "@ + result.arm@;
    let m0 = arm + "\n| metric | value |\n|---|---|\n| candidates | "@ + c0;
    assert(m0 =~= head + "| candidates | "@ + c0);
    lemma_next_line(head, lines, 1, "| candidates | "@, c0, " |\n| admitted | "@, "| admitted | "@);
    let m1 = m0 + " |\n| admitted | "@ + c1;
    lemma_next_line(head, lines, 2, "| admitted | "@, c1, " |\n| precision | "@, "| precision | "@);
    let m2 = m1 + " |\n| precision | "@ + ratios.precision@;
    lemma_next_line(
        head,
        lines,
        3,
        "| precision | "@,
        ratios.precision@,
        " |\n| recall | "@,
        "| recall | "@,
    );
    let m3 = m2 + " |\n| recall | "@ + ratios.recall@;
    lemma_next_line(
        head,
        lines,
        4,
        "| recall | "@,
        ratios.recall@,
        " |\n| drift_rate | "@,
        "| drift_rate | "@,
    );
    let m4 = m3 + " |\n| drift_rate | "@ + ratios.drift_rate@;
    lemma_next_line(
        head,
        lines,
        5,
        "| drift_rate | "@,
        ratios.drift_rate@,
        " |\n| hallucination_rate | "@,
        "| hallucination_rate | "@,
    );
    let m5 = m4 + " |\n| hallucination_rate | "@ + ratios.hallucination_rate@;
    lemma_next_line(
        head,
        lines,
        6,
        "| hallucination_rate | "@,
        ratios.hallucination_rate@,
        " |\n| footprint_tokens | "@,
        "| footprint_tokens | "@,
    );
    let m6 = m5 + " |\n| footprint_tokens | "@ + c6;
    lemma_next_line(
        head,
        lines,
        7,
        "| footprint_tokens | "@,
        c6,
        " |\n| raw_recall_tokens | "@,
        "| raw_recall_tokens | "@,
    );
    let m7 = m6 + " |\n| raw_recall_tokens | "@ + c7;
    lemma_next_line(
        head,
        lines,
        8,
        "| raw_recall_tokens | "@,
        c7,
        " |\n| footprint_ratio | "@,
        "| footprint_ratio | "@,
    );
    let m8 = m7 + " |\n| footprint_ratio | "@ + ratios.footprint_ratio@;
    lemma_next_line(
        head,
        lines,
        9,
        "| footprint_ratio | "@,
        ratios.footprint_ratio@,
        " |\n"@,
        Seq::empty(),
    );
    assert(head + lines_text(lines, 0) + "| candidates | "@ =~= head + "| candidates | "@);
    let said = markdown(result, ratios);
    assert(said == m8 + " |\n"@);
    assert(head + lines_text(lines, 9) + Seq::empty() =~= head + lines_text(lines, 9));
}

/// A line that is complete with the start of the next one.
proof fn lemma_next_line(
    head: Seq<char>,
    lines: Seq<Seq<char>>,
    n: int,
    name: Seq<char>,
    cell: Seq<char>,
    between: Seq<char>,
    next: Seq<char>,
)
    requires
        0 < n <= lines.len(),
        lines[n - 1] == name + cell + " |"@,
        between =~= " |"@ + "\n"@ + next,
    ensures
        head + lines_text(lines, n - 1) + name + cell + between == head + lines_text(lines, n)
            + next,
{
    assert(head + lines_text(lines, n - 1) + name + cell + between =~= head + lines_text(lines, n)
        + next);
}

spec fn lines_text(lines: Seq<Seq<char>>, n: int) -> Seq<char>
    decreases n,
{
    if n <= 0 {
        Seq::empty()
    } else {
        lines_text(lines, n - 1) + lines[n - 1] + "\n"@
    }
}

proof fn lemma_line_stands(lines: Seq<Seq<char>>, n: int, k: int) -> (r: (Seq<char>, Seq<char>))
    requires
        0 <= k < n <= lines.len(),
    ensures
        lines_text(lines, n) == r.0 + lines[k] + r.1,
    decreases n,
{
    if k == n - 1 {
        (lines_text(lines, n - 1), "\n"@)
    } else {
        let (front, back) = lemma_line_stands(lines, n - 1, k);
        let more = back + lines[n - 1] + "\n"@;
        assert(lines_text(lines, n) =~= front + lines[k] + more);
        (front, more)
    }
}

} // verus!
