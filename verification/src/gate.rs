//! The qualify-gate: which recalled candidates may enter the committed context, and how sure the
//! gate is of its verdict.

use vstd::prelude::*;
use crate::scores::{Score, Share};
use crate::text;

verus! {

// ---------------------------------------------------------------------------------------------
// Votes
// ---------------------------------------------------------------------------------------------

/// One signal that contributed to a verdict.
#[derive(Debug, Clone, PartialEq, Eq)]
pub struct QualifySignal {
    pub name: String,
    pub value: Score,
    pub threshold: Score,
    pub passed: bool,
    /// The distance of the value from the threshold, scaled to lie between zero and one.
    pub margin: Score,
}

/// What a signal says.
#[verifier::ext_equal]
pub struct SignalView {
    pub name: Seq<char>,
    pub value: Score,
    pub threshold: Score,
    pub passed: bool,
    pub margin: Score,
}

impl View for QualifySignal {
    type V = SignalView;

    open spec fn view(&self) -> SignalView {
        SignalView {
            name: self.name@,
            value: self.value,
            threshold: self.threshold,
            passed: self.passed,
            margin: self.margin,
        }
    }
}

impl QualifySignal {
    /// A signal with its margin.
    pub fn new(name: &str, value: Score, threshold: Score, passed: bool, margin: Score) -> (r: Self)
        ensures
            r@ == (SignalView { name: name@, value, threshold, passed, margin }),
    {
        QualifySignal { name: name.to_owned(), value, threshold, passed, margin }
    }
}

/// The votes of signals.
pub open spec fn votes_of(signals: Seq<QualifySignal>) -> Seq<bool> {
    Seq::new(signals.len(), |i: int| signals[i].passed)
}

/// The number of votes among the first `n` that equal `value`.
pub open spec fn votes_for(votes: Seq<bool>, value: bool, n: int) -> int
    decreases n,
{
    if n <= 0 {
        0
    } else {
        votes_for(votes, value, n - 1) + if votes[n - 1] == value {
            1int
        } else {
            0int
        }
    }
}

/// Every vote is for one side.
pub proof fn lemma_votes_split(votes: Seq<bool>, n: int)
    requires
        0 <= n <= votes.len(),
    ensures
        votes_for(votes, true, n) + votes_for(votes, false, n) == n,
        0 <= votes_for(votes, true, n) <= n,
        0 <= votes_for(votes, false, n) <= n,
    decreases n,
{
    if n > 0 {
        lemma_votes_split(votes, n - 1);
    }
}

fn count_votes(votes: &Vec<bool>, value: bool) -> (r: usize)
    ensures
        r == votes_for(votes@, value, votes@.len() as int),
        r <= votes@.len(),
{
    let mut n: usize = 0;
    let mut i: usize = 0;
    while i < votes.len()
        invariant
            n <= i <= votes@.len(),
            n == votes_for(votes@, value, i as int),
        decreases votes@.len() - i,
    {
        if votes[i] == value {
            n = n + 1;
        }
        i = i + 1;
    }
    n
}

fn collect_votes(signals: &Vec<QualifySignal>) -> (r: Vec<bool>)
    ensures
        r@ == votes_of(signals@),
{
    let mut out: Vec<bool> = Vec::new();
    let mut i: usize = 0;
    while i < signals.len()
        invariant
            i <= signals@.len(),
            out@ == votes_of(signals@).take(i as int),
        decreases signals@.len() - i,
    {
        out.push(signals[i].passed);
        assert(votes_of(signals@).take(i + 1) =~= votes_of(signals@).take(i as int).push(
            signals@[i as int].passed,
        ));
        i = i + 1;
    }
    assert(votes_of(signals@).take(i as int) =~= votes_of(signals@));
    out
}

/// `num / den` is the pairwise agreement of `yes` and `no` votes corrected for chance:
/// `(observed - expected) / (1 - expected)`, where `observed` is the share of ordered pairs of
/// different votes that agree and `expected` the chance that two votes agree. The two shares are
/// `(yes * (yes - 1) + no * (no - 1)) / (n * (n - 1))` and `(yes * yes + no * no) / (n * n)`. When
/// all votes agree, chance explains everything and the agreement is one.
pub open spec fn is_chance_corrected(num: int, den: int, yes: int, no: int) -> bool {
    let n = yes + no;
    let observed = yes * (yes - 1) + no * (no - 1);
    let expected = yes * yes + no * no;
    if n * n == expected {
        num == den
    } else {
        num * ((n * n - expected) * (n - 1)) == den * (observed * n - expected * (n - 1))
    }
}

/// With votes on both sides, the chance-corrected agreement is minus one over one less than the
/// number of votes, whatever the votes are.
pub proof fn law_split_votes_agreement(yes: int, no: int)
    requires
        yes >= 1,
        no >= 1,
    ensures
        is_chance_corrected(-1, yes + no - 1, yes, no),
        !is_chance_corrected(1, 1, yes, no),
{
    let n = yes + no;
    let expected = yes * yes + no * no;
    let observed = yes * (yes - 1) + no * (no - 1);
    let both = yes * no;
    assert(both >= 1) by (nonlinear_arith)
        requires
            yes >= 1,
            no >= 1,
            both == yes * no,
    ;
    assert(n * n == expected + 2 * both) by (nonlinear_arith)
        requires
            n == yes + no,
            expected == yes * yes + no * no,
            both == yes * no,
    ;
    assert(observed == expected - n) by (nonlinear_arith)
        requires
            n == yes + no,
            expected == yes * yes + no * no,
            observed == yes * (yes - 1) + no * (no - 1),
    ;
    assert((-1) * ((n * n - expected) * (n - 1)) == (n - 1) * (observed * n - expected * (n - 1)))
        by (nonlinear_arith)
        requires
            n * n == expected + 2 * both,
            observed == expected - n,
    {
        assert(observed * n - expected * (n - 1) == expected - n * n);
    }
    assert(1 * ((n * n - expected) * (n - 1)) != 1 * (observed * n - expected * (n - 1)))
        by (nonlinear_arith)
        requires
            n * n == expected + 2 * both,
            observed == expected - n,
            both >= 1,
            n >= 2,
    {
        assert(observed * n - expected * (n - 1) == expected - n * n);
        assert((n * n - expected) * (n - 1) >= 0);
    }
}

/// When all votes agree, the chance-corrected agreement is one.
pub proof fn law_unanimous_votes_agreement(yes: int, no: int)
    requires
        yes == 0 || no == 0,
    ensures
        is_chance_corrected(1, 1, yes, no),
{
    let n = yes + no;
    assert(n * n == yes * yes + no * no) by (nonlinear_arith)
        requires
            yes == 0 || no == 0,
            n == yes + no,
    ;
}

/// Agreement corrected for chance, and which statistic it is.
#[derive(Debug, Clone, PartialEq, Eq)]
pub struct ChanceCorrectedStats {
    pub value: Option<Share>,
    pub cohen_kappa: Option<Share>,
    pub krippendorff_alpha: Option<Share>,
    pub method: Option<String>,
}

impl ChanceCorrectedStats {
    /// The statistics of a list of votes: none for fewer than two votes, Cohen's kappa for two,
    /// Krippendorff's alpha for more.
    pub open spec fn are_of(self, votes: Seq<bool>) -> bool {
        let n = votes.len();
        if n < 2 {
            &&& self.value is None
            &&& self.cohen_kappa is None
            &&& self.krippendorff_alpha is None
            &&& self.method is None
        } else {
            &&& self.value is Some
            &&& self.value->0.denominator > 0
            &&& is_chance_corrected(
                self.value->0.numerator as int,
                self.value->0.denominator as int,
                votes_for(votes, true, n as int),
                votes_for(votes, false, n as int),
            )
            &&& self.method is Some
            &&& if n == 2 {
                &&& self.cohen_kappa == self.value
                &&& self.krippendorff_alpha is None
                &&& self.method->0@ == "cohen_kappa"@
            } else {
                &&& self.cohen_kappa is None
                &&& self.krippendorff_alpha == self.value
                &&& self.method->0@ == "krippendorff_alpha"@
            }
        }
    }
}

/// The pairwise agreement of at least two votes, corrected for chance.
pub fn binary_pairwise_kappa_alpha(votes: &Vec<bool>) -> (r: Share)
    requires
        votes@.len() >= 2,
    ensures
        r.denominator > 0,
        is_chance_corrected(
            r.numerator as int,
            r.denominator as int,
            votes_for(votes@, true, votes@.len() as int),
            votes_for(votes@, false, votes@.len() as int),
        ),
{
    let yes = count_votes(votes, true);
    proof {
        lemma_votes_split(votes@, votes@.len() as int);
    }
    if yes == 0 || yes == votes.len() {
        proof {
            law_unanimous_votes_agreement(yes as int, votes@.len() - yes);
        }
        Share { numerator: 1, denominator: 1 }
    } else {
        proof {
            law_split_votes_agreement(yes as int, votes@.len() - yes);
        }
        Share { numerator: -1, denominator: (votes.len() - 1) as u64 }
    }
}

/// The statistics of a list of votes.
pub fn chance_corrected_binary_votes(votes: &Vec<bool>) -> (r: ChanceCorrectedStats)
    ensures
        r.are_of(votes@),
{
    if votes.len() < 2 {
        return ChanceCorrectedStats {
            value: None,
            cohen_kappa: None,
            krippendorff_alpha: None,
            method: None,
        };
    }
    let statistic = binary_pairwise_kappa_alpha(votes);
    if votes.len() == 2 {
        ChanceCorrectedStats {
            value: Some(statistic),
            cohen_kappa: Some(statistic),
            krippendorff_alpha: None,
            method: Some("cohen_kappa".to_owned()),
        }
    } else {
        ChanceCorrectedStats {
            value: Some(statistic),
            cohen_kappa: None,
            krippendorff_alpha: Some(statistic),
            method: Some("krippendorff_alpha".to_owned()),
        }
    }
}

// ---------------------------------------------------------------------------------------------
// Audits
// ---------------------------------------------------------------------------------------------

/// What a call of a judge cost.
#[derive(Debug, Clone, PartialEq, Eq)]
pub struct JudgeTokenCost {
    pub judge: String,
    pub tokens: u64,
}

/// How a verdict came about. The confidence in it is the mean of the agreement and the decisive
/// margin.
#[derive(Debug, Clone, PartialEq, Eq)]
pub struct QualifyAudit {
    pub signals: Vec<QualifySignal>,
    /// The share of votes that agree with the verdict.
    pub agreement: Share,
    /// The agreement among the votes, corrected for chance.
    pub chance_corrected_agreement: Option<Share>,
    pub cohen_kappa: Option<Share>,
    pub krippendorff_alpha: Option<Share>,
    pub chance_corrected_method: Option<String>,
    /// How often a pairwise judge changes its mind when the candidates change places.
    pub position_bias: Option<Score>,
    pub position_bias_threshold: Option<Score>,
    pub position_bias_flagged: Option<bool>,
    pub judge_tier: Option<String>,
    pub judge_costs: Vec<JudgeTokenCost>,
    /// The margin that decided: the least of all for an admission, the greatest of the failed
    /// signals for a rejection.
    pub decisive_margin: Score,
}

/// The least margin among the first `n` signals, and one.
pub open spec fn least_margin(signals: Seq<QualifySignal>, n: int) -> Score
    decreases n,
{
    if n <= 0 {
        Score { bits: 0x3f80_0000 }
    } else {
        least_margin(signals, n - 1).lesser(signals[n - 1].margin)
    }
}

/// The greatest margin of the failed signals among the first `n`.
pub open spec fn greatest_failed_margin(signals: Seq<QualifySignal>, n: int) -> Option<Score>
    decreases n,
{
    if n <= 0 {
        None
    } else if signals[n - 1].passed {
        greatest_failed_margin(signals, n - 1)
    } else {
        match greatest_failed_margin(signals, n - 1) {
            Some(current) => Some(current.greater(signals[n - 1].margin)),
            None => Some(signals[n - 1].margin),
        }
    }
}

/// The margin that decided a verdict.
pub open spec fn deciding_margin(admitted: bool, signals: Seq<QualifySignal>) -> Score {
    if signals.len() == 0 {
        Score { bits: 0x3f80_0000 }
    } else if admitted {
        least_margin(signals, signals.len() as int)
    } else {
        match greatest_failed_margin(signals, signals.len() as int) {
            Some(margin) => margin,
            None => Score { bits: 0 },
        }
    }
}

/// The margin that decided a verdict.
pub fn decisive_margin(admitted: bool, signals: &Vec<QualifySignal>) -> (r: Score)
    ensures
        r == deciding_margin(admitted, signals@),
{
    if signals.len() == 0 {
        return Score::one();
    }
    if admitted {
        let mut least = Score::one();
        let mut i: usize = 0;
        while i < signals.len()
            invariant
                i <= signals@.len(),
                least == least_margin(signals@, i as int),
            decreases signals@.len() - i,
        {
            least = least.min(signals[i].margin);
            i = i + 1;
        }
        least
    } else {
        let mut greatest: Option<Score> = None;
        let mut i: usize = 0;
        while i < signals.len()
            invariant
                i <= signals@.len(),
                greatest == greatest_failed_margin(signals@, i as int),
            decreases signals@.len() - i,
        {
            if !signals[i].passed {
                greatest = match greatest {
                    Some(current) => Some(current.max(signals[i].margin)),
                    None => Some(signals[i].margin),
                };
            }
            i = i + 1;
        }
        match greatest {
            Some(margin) => margin,
            None => Score::zero(),
        }
    }
}

impl QualifyAudit {
    /// The audit tells what the signals say of the verdict, and nothing of judges.
    pub open spec fn audits(self, admitted: bool, signals: Seq<QualifySignal>) -> bool {
        let n = signals.len();
        &&& self.signals@ == signals
        &&& self.agreement.denominator > 0
        &&& if n == 0 {
            self.agreement.numerator == 1 && self.agreement.denominator == 1
        } else {
            self.agreement.numerator == votes_for(votes_of(signals), admitted, n as int)
                && self.agreement.denominator == n
        }
        &&& (ChanceCorrectedStats {
            value: self.chance_corrected_agreement,
            cohen_kappa: self.cohen_kappa,
            krippendorff_alpha: self.krippendorff_alpha,
            method: self.chance_corrected_method,
        }).are_of(votes_of(signals))
        &&& self.decisive_margin == deciding_margin(admitted, signals)
        &&& self.position_bias is None
        &&& self.position_bias_threshold is None
        &&& self.position_bias_flagged is None
        &&& self.judge_tier is None
        &&& self.judge_costs@.len() == 0
    }

    /// The audit of a verdict that rests on signals.
    pub fn from_signals(admitted: bool, signals: Vec<QualifySignal>) -> (r: Self)
        ensures
            r.audits(admitted, signals@),
    {
        let votes = collect_votes(&signals);
        let agreement = if signals.len() == 0 {
            Share { numerator: 1, denominator: 1 }
        } else {
            Share {
                numerator: count_votes(&votes, admitted) as i128,
                denominator: signals.len() as u64,
            }
        };
        let stats = chance_corrected_binary_votes(&votes);
        let margin = decisive_margin(admitted, &signals);
        QualifyAudit {
            signals,
            agreement,
            chance_corrected_agreement: stats.value,
            cohen_kappa: stats.cohen_kappa,
            krippendorff_alpha: stats.krippendorff_alpha,
            chance_corrected_method: stats.method,
            position_bias: None,
            position_bias_threshold: None,
            position_bias_flagged: None,
            judge_tier: None,
            judge_costs: Vec::new(),
            decisive_margin: margin,
        }
    }

    /// The audit with a measured position bias, which is flagged above the threshold.
    pub fn with_position_bias(self, bias: Score, threshold: Score) -> (r: Self)
        ensures
            r == (QualifyAudit {
                position_bias: Some(bias),
                position_bias_threshold: Some(threshold),
                position_bias_flagged: Some(threshold.lt(bias)),
                ..self
            }),
    {
        QualifyAudit {
            position_bias: Some(bias),
            position_bias_threshold: Some(threshold),
            position_bias_flagged: Some(threshold.less_than(bias)),
            ..self
        }
    }

    /// The audit with the tier of the judge.
    pub fn with_judge_tier(self, tier: &str) -> (r: Self)
        ensures
            r.judge_tier is Some,
            r.judge_tier->0@ == tier@,
            r == (QualifyAudit { judge_tier: r.judge_tier, ..self }),
    {
        QualifyAudit { judge_tier: Some(tier.to_owned()), ..self }
    }

    /// The audit with the cost of one more judge call.
    pub fn with_judge_cost(self, cost: JudgeTokenCost) -> (r: Self)
        ensures
            r.judge_costs@ == self.judge_costs@.push(cost),
            r == (QualifyAudit { judge_costs: r.judge_costs, ..self }),
    {
        let mut audit = self;
        audit.judge_costs.push(cost);
        audit
    }

    /// The audit with the costs of more judge calls.
    pub fn with_judge_costs(self, costs: Vec<JudgeTokenCost>) -> (r: Self)
        ensures
            r.judge_costs@ == self.judge_costs@ + costs@,
            r == (QualifyAudit { judge_costs: r.judge_costs, ..self }),
    {
        let mut audit = self;
        let mut more = costs;
        audit.judge_costs.append(&mut more);
        audit
    }
}

// ---------------------------------------------------------------------------------------------
// Decisions
// ---------------------------------------------------------------------------------------------

/// The verdict on one candidate.
#[derive(Debug, Clone, PartialEq, Eq)]
pub struct QualifyDecision {
    pub admitted: bool,
    pub reason: String,
    pub slot: Option<String>,
    pub score: Score,
    pub audit: Option<QualifyAudit>,
}

impl QualifyDecision {
    /// Admits a candidate into a slot.
    pub fn accept(slot: &str, score: Score) -> (r: Self)
        ensures
            r.admitted,
            r.reason@ == "qualified"@,
            text::text_opt(r.slot) == Some(slot@),
            r.score == score,
            r.audit is None,
    {
        QualifyDecision {
            admitted: true,
            reason: "qualified".to_owned(),
            slot: Some(slot.to_owned()),
            score,
            audit: None,
        }
    }

    /// Rejects a candidate for a reason.
    pub fn reject(reason: &str, score: Score) -> (r: Self)
        ensures
            !r.admitted,
            r.reason@ == reason@,
            r.slot is None,
            r.score == score,
            r.audit is None,
    {
        QualifyDecision {
            admitted: false,
            reason: reason.to_owned(),
            slot: None,
            score,
            audit: None,
        }
    }

    /// The verdict with an audit.
    pub fn with_audit(self, audit: QualifyAudit) -> (r: Self)
        ensures
            r == (QualifyDecision { audit: Some(audit), ..self }),
    {
        QualifyDecision { audit: Some(audit), ..self }
    }
}

/// A recalled candidate.
#[derive(Debug, Clone, PartialEq, Eq)]
pub struct RecallItem {
    pub id: String,
    pub content: String,
    pub score: Score,
}

impl RecallItem {
    /// A candidate with its score.
    pub fn new(id: &str, content: &str, score: Score) -> (r: Self)
        ensures
            r.id@ == id@,
            r.content@ == content@,
            r.score == score,
    {
        RecallItem { id: id.to_owned(), content: content.to_owned(), score }
    }
}

/// The slots of the committed context. The first is the default.
#[derive(Debug, Clone, PartialEq, Eq)]
pub struct CcsSchema {
    pub slots: Vec<String>,
}

/// What a gate sees of the committed context: whether the candidate is in it, how much the
/// candidate overlaps with it, and its slots.
#[derive(Debug, Clone, PartialEq, Eq)]
pub struct GateContext {
    pub already_committed: bool,
    pub overlap: Score,
    pub schema: CcsSchema,
}

/// Numbers as a gate reports them: as text where they stand in a reason, and the novelty and the
/// margins, which are worked out from the score and the overlap.
#[derive(Debug, Clone, PartialEq, Eq)]
pub struct GateFigures {
    pub score_text: String,
    pub min_score_text: String,
    pub overlap_text: String,
    pub redundancy_threshold_text: String,
    pub novelty: Score,
    pub novelty_threshold: Score,
    pub relevance_margin: Score,
    pub uniqueness_margin: Score,
    pub novelty_margin: Score,
}

/// The text that `str::to_lowercase` makes of a text.
pub uninterp spec fn lowercase_text(text: Seq<char>) -> Seq<char>;

/// `str::to_lowercase` of the standard library: the text with every character in lower case, by
/// the Unicode tables. A text in ASCII has its letters in lower case and nothing else changed;
/// what the tables say of other texts is left to the name.
#[verifier::external_body]
fn to_lowercase(s: &str) -> (r: String)
    ensures
        r@ == lowercase_text(s@),
        (forall|i: int| 0 <= i < s@.len() ==> (#[trigger] s@[i]) as int <= 0x7f) ==> r@
            == text::lowered(s@),
{
    s.to_lowercase()
}

/// A slot and the words that lead to it.
pub type SlotKeywords = (String, Vec<String>);

/// The default gate: a threshold on relevance, no duplicates, a threshold on redundancy, and slots
/// by keywords.
pub struct DefaultQualifyGate {
    /// The least score that qualifies.
    pub min_score: Score,
    /// The overlap at which a candidate is redundant.
    pub redundancy_threshold: Score,
    /// The slots and the words that lead to them, in the order in which they are tried.
    pub slot_keywords: Vec<SlotKeywords>,
}

/// A slot is in the schema.
pub open spec fn has_slot(schema: CcsSchema, slot: Seq<char>) -> bool {
    text::texts(schema.slots@).contains(slot)
}

/// One of the keywords stands in the text.
pub open spec fn has_keyword(lower: Seq<char>, keywords: Seq<String>) -> bool {
    exists|i: int| 0 <= i < keywords.len() && text::has_text(lower, (#[trigger] keywords[i])@)
}

/// The first slot at or after `i` that is in the schema and has a keyword in the text; the first
/// slot of the schema when there is none.
pub open spec fn routed_from(
    table: Seq<SlotKeywords>,
    lower: Seq<char>,
    schema: CcsSchema,
    i: int,
) -> Seq<char>
    decreases table.len() - i,
{
    if i >= table.len() {
        schema.slots@[0]@
    } else if has_slot(schema, table[i].0@) && has_keyword(lower, table[i].1@) {
        table[i].0@
    } else {
        routed_from(table, lower, schema, i + 1)
    }
}

/// What a gate says of a candidate.
#[derive(Debug, Clone, Copy, PartialEq, Eq, Structural)]
pub enum Verdict {
    BelowRelevance,
    AlreadyCommitted,
    Redundant,
    Qualified,
}

/// What a gate says of a candidate: relevance comes first, then duplicates, then redundancy.
pub open spec fn verdict_on(
    min_score: Score,
    redundancy_threshold: Score,
    score: Score,
    context: GateContext,
) -> Verdict {
    if score.lt(min_score) {
        Verdict::BelowRelevance
    } else if context.already_committed {
        Verdict::AlreadyCommitted
    } else if context.overlap.ge(redundancy_threshold) {
        Verdict::Redundant
    } else {
        Verdict::Qualified
    }
}

/// The reason that goes with a verdict.
pub open spec fn reason_text(verdict: Verdict, figures: GateFigures) -> Seq<char> {
    match verdict {
        Verdict::BelowRelevance => "below relevance threshold ("@ + figures.score_text@ + " < "@
            + figures.min_score_text@ + ")"@,
        Verdict::AlreadyCommitted => "already committed"@,
        Verdict::Redundant => "redundant (overlap "@ + figures.overlap_text@ + " >= "@
            + figures.redundancy_threshold_text@ + ")"@,
        Verdict::Qualified => "qualified"@,
    }
}

/// The three signals of the default gate.
pub open spec fn signals_of(
    min_score: Score,
    redundancy_threshold: Score,
    score: Score,
    context: GateContext,
    figures: GateFigures,
) -> Seq<SignalView> {
    seq![
        SignalView {
            name: "relevance"@,
            value: score,
            threshold: min_score,
            passed: score.ge(min_score),
            margin: figures.relevance_margin,
        },
        SignalView {
            name: "uniqueness"@,
            value: if context.already_committed {
                Score { bits: 0 }
            } else {
                Score { bits: 0x3f80_0000 }
            },
            threshold: Score { bits: 0x3f00_0000 },
            passed: !context.already_committed,
            margin: figures.uniqueness_margin,
        },
        SignalView {
            name: "novelty"@,
            value: figures.novelty,
            threshold: figures.novelty_threshold,
            passed: context.overlap.lt(redundancy_threshold),
            margin: figures.novelty_margin,
        },
    ]
}

impl DefaultQualifyGate {
    /// The words that lead to slots.
    pub open spec fn keywords(self) -> Seq<SlotKeywords> {
        self.slot_keywords@
    }

    /// A gate with the default keywords.
    pub fn new(min_score: Score, redundancy_threshold: Score) -> (r: Self)
        ensures
            r.min_score == min_score,
            r.redundancy_threshold == redundancy_threshold,
            keyword_views(r.keywords()) == default_keywords(),
    {
        DefaultQualifyGate {
            min_score,
            redundancy_threshold,
            slot_keywords: default_slot_keywords(),
        }
    }

    /// This gate with other keywords.
    pub fn with_slot_keywords(self, slot_keywords: Vec<SlotKeywords>) -> (r: Self)
        ensures
            r.min_score == self.min_score,
            r.redundancy_threshold == self.redundancy_threshold,
            r.keywords() == slot_keywords@,
    {
        DefaultQualifyGate {
            min_score: self.min_score,
            redundancy_threshold: self.redundancy_threshold,
            slot_keywords,
        }
    }

    /// The slot for a content in lower case: the first in the table that is in the schema and has
    /// a keyword in the content, else the first of the schema.
    pub fn route_lowered(&self, lower: &str, schema: &CcsSchema) -> (r: String)
        requires
            schema.slots@.len() > 0,
        ensures
            r@ == routed_from(self.keywords(), lower@, *schema, 0),
    {
        let mut i: usize = 0;
        while i < self.slot_keywords.len()
            invariant
                schema.slots@.len() > 0,
                i <= self.slot_keywords@.len(),
                routed_from(self.keywords(), lower@, *schema, 0) == routed_from(
                    self.keywords(),
                    lower@,
                    *schema,
                    i as int,
                ),
            decreases self.slot_keywords@.len() - i,
        {
            let entry = &self.slot_keywords[i];
            if contains_slot(schema, entry.0.as_str()) && mentions(lower, &entry.1) {
                return entry.0.clone();
            }
            i = i + 1;
        }
        schema.slots[0].clone()
    }

    /// The slot for a content.
    pub fn route_slot(&self, content: &str, schema: &CcsSchema) -> (r: String)
        requires
            schema.slots@.len() > 0,
        ensures
            r@ == routed_from(self.keywords(), lowercase_text(content@), *schema, 0),
    {
        let lower = to_lowercase(content);
        self.route_lowered(lower.as_str(), schema)
    }

    /// The signals of a candidate: relevance, uniqueness and novelty.
    pub fn audit_signals(&self, score: Score, context: &GateContext, figures: &GateFigures) -> (r:
        Vec<QualifySignal>)
        ensures
            crate::sorting::views(r@) == signals_of(
                self.min_score,
                self.redundancy_threshold,
                score,
                *context,
                *figures,
            ),
    {
        let relevance = QualifySignal::new(
            "relevance",
            score,
            self.min_score,
            score.at_least(self.min_score),
            figures.relevance_margin,
        );
        let presence = if context.already_committed {
            Score::zero()
        } else {
            Score::one()
        };
        let uniqueness = QualifySignal::new(
            "uniqueness",
            presence,
            Score::half(),
            !context.already_committed,
            figures.uniqueness_margin,
        );
        let novelty = QualifySignal::new(
            "novelty",
            figures.novelty,
            figures.novelty_threshold,
            context.overlap.less_than(self.redundancy_threshold),
            figures.novelty_margin,
        );
        let out = vec![relevance, uniqueness, novelty];
        assert(crate::sorting::views(out@) =~= signals_of(
            self.min_score,
            self.redundancy_threshold,
            score,
            *context,
            *figures,
        ));
        out
    }

    /// The verdict on a candidate, with its audit. `slot` is where it goes when it qualifies.
    pub fn judge(
        &self,
        score: Score,
        slot: &str,
        context: &GateContext,
        figures: &GateFigures,
    ) -> (r: QualifyDecision)
        ensures
            ({
                let verdict = verdict_on(
                    self.min_score,
                    self.redundancy_threshold,
                    score,
                    *context,
                );
                &&& r.admitted == (verdict == Verdict::Qualified)
                &&& r.admitted == (!score.lt(self.min_score) && !context.already_committed
                    && !context.overlap.ge(self.redundancy_threshold))
                &&& r.reason@ == reason_text(verdict, *figures)
                &&& text::text_opt(r.slot) == (if r.admitted {
                    Some(slot@)
                } else {
                    None
                })
                &&& r.score == score
                &&& r.audit is Some
                &&& r.audit->0.audits(r.admitted, r.audit->0.signals@)
                &&& crate::sorting::views(r.audit->0.signals@) == signals_of(
                    self.min_score,
                    self.redundancy_threshold,
                    score,
                    *context,
                    *figures,
                )
            }),
    {
        let signals = self.audit_signals(score, context, figures);
        assert(crate::sorting::views(signals@).len() == signals@.len());
        if score.less_than(self.min_score) {
            let mut reason = "below relevance threshold (".to_owned();
            reason.append(figures.score_text.as_str());
            reason.append(" < ");
            reason.append(figures.min_score_text.as_str());
            reason.append(")");
            let decision = QualifyDecision::reject(reason.as_str(), score);
            return decision.with_audit(QualifyAudit::from_signals(false, signals));
        }
        if context.already_committed {
            let decision = QualifyDecision::reject("already committed", score);
            return decision.with_audit(QualifyAudit::from_signals(false, signals));
        }
        if context.overlap.at_least(self.redundancy_threshold) {
            let mut reason = "redundant (overlap ".to_owned();
            reason.append(figures.overlap_text.as_str());
            reason.append(" >= ");
            reason.append(figures.redundancy_threshold_text.as_str());
            reason.append(")");
            let decision = QualifyDecision::reject(reason.as_str(), score);
            return decision.with_audit(QualifyAudit::from_signals(false, signals));
        }
        let decision = QualifyDecision::accept(slot, score);
        decision.with_audit(QualifyAudit::from_signals(true, signals))
    }

    /// Whether a candidate is let in.
    pub fn qualifies(&self, score: Score, context: &GateContext) -> (r: bool)
        ensures
            r == (verdict_on(self.min_score, self.redundancy_threshold, score, *context)
                == Verdict::Qualified),
            r == (!score.lt(self.min_score) && !context.already_committed
                && !context.overlap.ge(self.redundancy_threshold)),
    {
        !score.less_than(self.min_score) && !context.already_committed
            && !context.overlap.at_least(self.redundancy_threshold)
    }

    /// The verdict on a candidate, with its slot and its audit. A slot is only looked for where the
    /// candidate is let in.
    pub fn decide(&self, item: &RecallItem, context: &GateContext, figures: &GateFigures) -> (r:
        QualifyDecision)
        requires
            verdict_on(self.min_score, self.redundancy_threshold, item.score, *context)
                == Verdict::Qualified ==> context.schema.slots@.len() > 0,
        ensures
            ({
                let verdict = verdict_on(
                    self.min_score,
                    self.redundancy_threshold,
                    item.score,
                    *context,
                );
                &&& r.admitted == (verdict == Verdict::Qualified)
                &&& r.admitted == (!item.score.lt(self.min_score) && !context.already_committed
                    && !context.overlap.ge(self.redundancy_threshold))
                &&& r.reason@ == reason_text(verdict, *figures)
                &&& text::text_opt(r.slot) == (if r.admitted {
                    Some(
                        routed_from(
                            self.keywords(),
                            lowercase_text(item.content@),
                            context.schema,
                            0,
                        ),
                    )
                } else {
                    None
                })
                &&& r.score == item.score
                &&& r.audit is Some
                &&& r.audit->0.audits(r.admitted, r.audit->0.signals@)
                &&& crate::sorting::views(r.audit->0.signals@) == signals_of(
                    self.min_score,
                    self.redundancy_threshold,
                    item.score,
                    *context,
                    *figures,
                )
            }),
    {
        let slot = if self.qualifies(item.score, context) {
            self.route_slot(item.content.as_str(), &context.schema)
        } else {
            String::new()
        };
        self.judge(item.score, slot.as_str(), context, figures)
    }
}

impl Default for DefaultQualifyGate {
    /// A gate that wants a score of a fifth and an overlap below four fifths.
    fn default() -> (r: Self)
        ensures
            r.min_score == (Score { bits: 0x3e4c_cccd }),
            r.redundancy_threshold == (Score { bits: 0x3f4c_cccd }),
            keyword_views(r.keywords()) == default_keywords(),
    {
        DefaultQualifyGate::new(Score::from_bits(0x3e4c_cccd), Score::from_bits(0x3f4c_cccd))
    }
}

fn contains_slot(schema: &CcsSchema, slot: &str) -> (r: bool)
    ensures
        r == has_slot(*schema, slot@),
{
    let ghost all = text::texts(schema.slots@);
    let mut i: usize = 0;
    while i < schema.slots.len()
        invariant
            all == text::texts(schema.slots@),
            i <= schema.slots@.len(),
            forall|j: int| 0 <= j < i ==> #[trigger] all[j] != slot@,
        decreases schema.slots@.len() - i,
    {
        assert(all[i as int] == schema.slots@[i as int]@);
        if text::same_text(schema.slots[i].as_str(), slot) {
            return true;
        }
        i = i + 1;
    }
    false
}

fn mentions(lower: &str, keywords: &Vec<String>) -> (r: bool)
    ensures
        r == has_keyword(lower@, keywords@),
{
    let mut i: usize = 0;
    while i < keywords.len()
        invariant
            i <= keywords@.len(),
            forall|j: int|
                0 <= j < i ==> !text::has_text(lower@, (#[trigger] keywords@[j])@),
        decreases keywords@.len() - i,
    {
        if text::contains(lower, keywords[i].as_str()) {
            return true;
        }
        i = i + 1;
    }
    false
}

/// What a table of keywords holds.
pub open spec fn keyword_views(table: Seq<SlotKeywords>) -> Seq<(Seq<char>, Seq<Seq<char>>)> {
    Seq::new(table.len(), |i: int| (table[i].0@, text::texts(table[i].1@)))
}

/// The default table of keywords.
pub open spec fn default_keywords() -> Seq<(Seq<char>, Seq<Seq<char>>)> {
    seq![
        (
            "decision"@,
            seq!["decid"@, "chose"@, "chosen"@, "will use"@, "agreed"@, "selected"@],
        ),
        (
            "constraint"@,
            seq!["must"@, "never"@, "always"@, "require"@, "cannot"@, "do not"@],
        ),
        (
            "task-state"@,
            seq!["todo"@, "in progress"@, "blocked"@, "next step"@, "remaining"@],
        ),
    ]
}

/// The default table of keywords.
pub fn default_slot_keywords() -> (r: Vec<SlotKeywords>)
    ensures
        keyword_views(r@) == default_keywords(),
{
    let decision: Vec<String> = vec![
        "decid".to_owned(),
        "chose".to_owned(),
        "chosen".to_owned(),
        "will use".to_owned(),
        "agreed".to_owned(),
        "selected".to_owned(),
    ];
    let constraint: Vec<String> = vec![
        "must".to_owned(),
        "never".to_owned(),
        "always".to_owned(),
        "require".to_owned(),
        "cannot".to_owned(),
        "do not".to_owned(),
    ];
    let task_state: Vec<String> = vec![
        "todo".to_owned(),
        "in progress".to_owned(),
        "blocked".to_owned(),
        "next step".to_owned(),
        "remaining".to_owned(),
    ];
    proof {
        assert(text::texts(decision@) =~= default_keywords()[0].1);
        assert(text::texts(constraint@) =~= default_keywords()[1].1);
        assert(text::texts(task_state@) =~= default_keywords()[2].1);
    }
    let out: Vec<SlotKeywords> = vec![
        ("decision".to_owned(), decision),
        ("constraint".to_owned(), constraint),
        ("task-state".to_owned(), task_state),
    ];
    assert(keyword_views(out@) =~= default_keywords());
    out
}

/// A candidate qualifies only when all three signals pass, and when all pass it qualifies.
pub proof fn law_admitted_iff_all_signals_pass(
    min_score: Score,
    redundancy_threshold: Score,
    score: Score,
    context: GateContext,
    figures: GateFigures,
)
    requires
        !min_score.nan(),
        !redundancy_threshold.nan(),
        !score.nan(),
        !context.overlap.nan(),
    ensures
        verdict_on(min_score, redundancy_threshold, score, context) == Verdict::Qualified <==> {
            let signals = signals_of(min_score, redundancy_threshold, score, context, figures);
            signals[0].passed && signals[1].passed && signals[2].passed
        },
{
}

/// A gate holds a candidate to its own least score. Of two numbers: a score below it is rejected for
/// its relevance, and any other is not; the relevance signal shows both numbers and passes exactly
/// when the score is at least that one.
pub proof fn law_own_threshold_decides(
    gate: DefaultQualifyGate,
    score: Score,
    context: GateContext,
    figures: GateFigures,
)
    requires
        !score.nan(),
        !gate.min_score.nan(),
    ensures
        ({
            let verdict = verdict_on(gate.min_score, gate.redundancy_threshold, score, context);
            let signals = signals_of(
                gate.min_score,
                gate.redundancy_threshold,
                score,
                context,
                figures,
            );
            &&& score.place() < gate.min_score.place() <==> verdict == Verdict::BelowRelevance
            &&& score.place() < gate.min_score.place() ==> verdict != Verdict::Qualified
            &&& signals.len() == 3
            &&& signals[0].name == "relevance"@
            &&& signals[0].value == score
            &&& signals[0].threshold == gate.min_score
            &&& signals[0].passed <==> score.place() >= gate.min_score.place()
        }),
{
}

/// Raising the least score of a gate above a score turns an admission into a rejection; lowering it
/// to the score or below never does.
pub proof fn law_raising_the_least_score_rejects(
    gate: DefaultQualifyGate,
    other: DefaultQualifyGate,
    score: Score,
    context: GateContext,
)
    requires
        !score.nan(),
        !gate.min_score.nan(),
        !other.min_score.nan(),
        gate.redundancy_threshold == other.redundancy_threshold,
        verdict_on(gate.min_score, gate.redundancy_threshold, score, context)
            == Verdict::Qualified,
    ensures
        score.place() < other.min_score.place() <==> verdict_on(
            other.min_score,
            other.redundancy_threshold,
            score,
            context,
        ) != Verdict::Qualified,
{
}

/// A gate holds a relevant candidate to its own bound on overlap: one that is not in the context
/// yet and is relevant enough is admitted exactly when its overlap is below that bound, and the
/// novelty signal passes in the same case.
pub proof fn law_own_overlap_bound_decides(
    gate: DefaultQualifyGate,
    score: Score,
    context: GateContext,
    figures: GateFigures,
)
    requires
        !score.nan(),
        !gate.min_score.nan(),
        !context.overlap.nan(),
        !gate.redundancy_threshold.nan(),
        score.place() >= gate.min_score.place(),
    ensures
        ({
            let verdict = verdict_on(gate.min_score, gate.redundancy_threshold, score, context);
            let signals = signals_of(
                gate.min_score,
                gate.redundancy_threshold,
                score,
                context,
                figures,
            );
            let below = context.overlap.place() < gate.redundancy_threshold.place();
            &&& context.already_committed <==> verdict == Verdict::AlreadyCommitted
            &&& verdict == Verdict::Qualified <==> !context.already_committed && below
            &&& verdict == Verdict::Redundant <==> !context.already_committed && !below
            &&& signals[1].name == "uniqueness"@
            &&& signals[1].passed <==> !context.already_committed
            &&& signals[2].name == "novelty"@
            &&& signals[2].passed <==> below
            &&& signals[2].value == figures.novelty
            &&& signals[2].threshold == figures.novelty_threshold
        }),
{
}

/// What is let in is called qualified, what is turned away says what it was turned away for: the two
/// numbers that were compared, in their order.
pub proof fn law_reasons_show_what_decided(
    gate: DefaultQualifyGate,
    score: Score,
    context: GateContext,
    figures: GateFigures,
)
    requires
        !score.nan(),
        !gate.min_score.nan(),
        !context.overlap.nan(),
        !gate.redundancy_threshold.nan(),
    ensures
        ({
            let reason = reason_text(
                verdict_on(gate.min_score, gate.redundancy_threshold, score, context),
                figures,
            );
            let low = score.place() < gate.min_score.place();
            let near = context.overlap.place() >= gate.redundancy_threshold.place();
            &&& low ==> reason == "below relevance threshold ("@ + figures.score_text@ + " < "@
                + figures.min_score_text@ + ")"@
            &&& !low && context.already_committed ==> reason == "already committed"@
            &&& !low && !context.already_committed && near ==> reason == "redundant (overlap "@
                + figures.overlap_text@ + " >= "@ + figures.redundancy_threshold_text@ + ")"@
            &&& !low && !context.already_committed && !near ==> reason == "qualified"@
        }),
{
}

/// A candidate goes to a slot of the schema: to the first slot of the table that is in the schema
/// and of whose words one stands in the content, and to the first slot of the schema when the table
/// has no such slot.
pub proof fn law_first_matching_slot_wins(
    table: Seq<SlotKeywords>,
    lower: Seq<char>,
    schema: CcsSchema,
    k: int,
)
    requires
        schema.slots@.len() > 0,
        0 <= k <= table.len(),
        forall|j: int, s: int, w: int|
            0 <= j < k && 0 <= s < schema.slots@.len() && 0 <= w < table[j].1@.len() ==> !(
            (#[trigger] schema.slots@[s])@ == table[j].0@ && text::has_text(
                lower,
                (#[trigger] table[j].1@[w])@,
            )),
        k < table.len() ==> exists|s: int, w: int|
            0 <= s < schema.slots@.len() && 0 <= w < table[k].1@.len() && (
            #[trigger] schema.slots@[s])@ == table[k].0@ && text::has_text(
                lower,
                (#[trigger] table[k].1@[w])@,
            ),
    ensures
        routed_from(table, lower, schema, 0) == (if k < table.len() {
            table[k].0@
        } else {
            schema.slots@[0]@
        }),
{
    lemma_routed(table, lower, schema, k, 0);
}

proof fn lemma_routed(
    table: Seq<SlotKeywords>,
    lower: Seq<char>,
    schema: CcsSchema,
    k: int,
    i: int,
)
    requires
        schema.slots@.len() > 0,
        0 <= i <= k <= table.len(),
        forall|j: int, s: int, w: int|
            0 <= j < k && 0 <= s < schema.slots@.len() && 0 <= w < table[j].1@.len() ==> !(
            (#[trigger] schema.slots@[s])@ == table[j].0@ && text::has_text(
                lower,
                (#[trigger] table[j].1@[w])@,
            )),
        k < table.len() ==> exists|s: int, w: int|
            0 <= s < schema.slots@.len() && 0 <= w < table[k].1@.len() && (
            #[trigger] schema.slots@[s])@ == table[k].0@ && text::has_text(
                lower,
                (#[trigger] table[k].1@[w])@,
            ),
    ensures
        routed_from(table, lower, schema, i) == (if k < table.len() {
            table[k].0@
        } else {
            schema.slots@[0]@
        }),
    decreases k - i,
{
    let slots = text::texts(schema.slots@);
    if i < k {
        if has_slot(schema, table[i].0@) && has_keyword(lower, table[i].1@) {
            let s = choose|s: int| 0 <= s < slots.len() && slots[s] == table[i].0@;
            let w = choose|w: int|
                0 <= w < table[i].1@.len() && text::has_text(lower, (#[trigger] table[i].1@[w])@);
            assert(schema.slots@[s]@ == table[i].0@);
            assert(text::has_text(lower, table[i].1@[w]@));
        }
        lemma_routed(table, lower, schema, k, i + 1);
    } else if k < table.len() {
        let (s, w) = choose|s: int, w: int|
            0 <= s < schema.slots@.len() && 0 <= w < table[k].1@.len() && (
            #[trigger] schema.slots@[s])@ == table[k].0@ && text::has_text(
                lower,
                (#[trigger] table[k].1@[w])@,
            );
        assert(slots[s] == table[k].0@);
        assert(has_slot(schema, table[k].0@));
    }
}

/// The chance-corrected agreement is one number: one where all votes agree, and minus one over one
/// less than the number of votes where they do not.
pub proof fn law_agreement_is_determined(num: int, den: int, yes: int, no: int)
    requires
        yes >= 0,
        no >= 0,
        is_chance_corrected(num, den, yes, no),
    ensures
        yes == 0 || no == 0 ==> num == den,
        yes >= 1 && no >= 1 ==> num * (yes + no - 1) == -den,
{
    let n = yes + no;
    let expected = yes * yes + no * no;
    let observed = yes * (yes - 1) + no * (no - 1);
    assert(n * n - expected == 2 * (yes * no)) by (nonlinear_arith)
        requires
            n == yes + no,
            expected == yes * yes + no * no,
    ;
    if yes == 0 || no == 0 {
        assert(yes * no == 0) by (nonlinear_arith)
            requires
                yes == 0 || no == 0,
        ;
    } else {
        let both = yes * no;
        assert(both > 0) by (nonlinear_arith)
            requires
                yes >= 1,
                no >= 1,
                both == yes * no,
        ;
        assert(observed * n - expected * (n - 1) == -2 * both) by (nonlinear_arith)
            requires
                n == yes + no,
                expected == yes * yes + no * no,
                observed == yes * (yes - 1) + no * (no - 1),
                both == yes * no,
        ;
        let m = n - 1;
        assert(num * ((2 * both) * m) == den * (-2 * both));
        assert(num * m == -den) by (nonlinear_arith)
            requires
                num * ((2 * both) * m) == den * (-2 * both),
                both > 0,
        ;
    }
}

/// The agreement in an audit is the share of the signals that say what the verdict says; where every
/// signal does, that is all of them.
pub proof fn law_agreement_counts_signals(
    audit: QualifyAudit,
    admitted: bool,
    signals: Seq<QualifySignal>,
)
    requires
        audit.audits(admitted, signals),
        signals.len() > 0,
    ensures
        audit.agreement.denominator == signals.len(),
        0 <= audit.agreement.numerator <= signals.len(),
        audit.agreement.numerator == signals.len() <==> forall|i: int|
            0 <= i < signals.len() ==> (#[trigger] signals[i]).passed == admitted,
        audit.agreement.numerator == 0 <==> forall|i: int|
            0 <= i < signals.len() ==> (#[trigger] signals[i]).passed != admitted,
{
    let votes = votes_of(signals);
    lemma_votes_split(votes, votes.len() as int);
    lemma_votes_all(votes, admitted, votes.len() as int);
    lemma_votes_all(votes, !admitted, votes.len() as int);
    if audit.agreement.numerator == signals.len() {
        assert forall|i: int| 0 <= i < signals.len() implies (#[trigger] signals[i]).passed
            == admitted by {
            assert(votes[i] == signals[i].passed);
        }
    }
    if forall|i: int| 0 <= i < signals.len() ==> (#[trigger] signals[i]).passed == admitted {
        assert forall|i: int| 0 <= i < votes.len() implies #[trigger] votes[i] == admitted by {
            assert(signals[i].passed == admitted);
        }
    }
    if audit.agreement.numerator == 0 {
        assert forall|i: int| 0 <= i < signals.len() implies (#[trigger] signals[i]).passed
            != admitted by {
            assert(votes[i] == signals[i].passed);
        }
    }
    if forall|i: int| 0 <= i < signals.len() ==> (#[trigger] signals[i]).passed != admitted {
        assert forall|i: int| 0 <= i < votes.len() implies #[trigger] votes[i] == !admitted by {
            assert(signals[i].passed != admitted);
        }
    }
}

proof fn lemma_votes_all(votes: Seq<bool>, value: bool, n: int)
    requires
        0 <= n <= votes.len(),
    ensures
        votes_for(votes, value, n) <= n,
        votes_for(votes, value, n) == n <==> forall|i: int|
            0 <= i < n ==> #[trigger] votes[i] == value,
    decreases n,
{
    if n > 0 {
        lemma_votes_all(votes, value, n - 1);
        lemma_votes_split(votes, n);
    }
}

/// The margin that decided an admission is the least of all margins, and at most one; that of a
/// rejection is the greatest among those of the signals that failed.
pub proof fn law_deciding_margin(admitted: bool, signals: Seq<QualifySignal>, i: int)
    requires
        0 <= i < signals.len(),
        forall|k: int| 0 <= k < signals.len() ==> !(#[trigger] signals[k]).margin.nan(),
    ensures
        ({
            let margin = deciding_margin(admitted, signals);
            &&& admitted ==> margin.place() <= signals[i].margin.place() && margin.place() <= (
            Score { bits: 0x3f80_0000 }).place()
            &&& admitted ==> margin == (Score { bits: 0x3f80_0000 }) || exists|k: int|
                0 <= k < signals.len() && margin == (#[trigger] signals[k]).margin
            &&& !admitted && !signals[i].passed ==> margin.place() >= signals[i].margin.place()
            &&& !admitted && !signals[i].passed ==> exists|k: int|
                0 <= k < signals.len() && !(#[trigger] signals[k]).passed && margin
                    == signals[k].margin
        }),
{
    lemma_least_margin(signals, signals.len() as int, i);
    lemma_greatest_failed(signals, signals.len() as int, i);
}

proof fn lemma_least_margin(signals: Seq<QualifySignal>, n: int, i: int)
    requires
        0 <= n <= signals.len(),
        forall|k: int| 0 <= k < signals.len() ==> !(#[trigger] signals[k]).margin.nan(),
    ensures
        !least_margin(signals, n).nan(),
        0 <= i < n ==> least_margin(signals, n).place() <= signals[i].margin.place(),
        least_margin(signals, n).place() <= (Score { bits: 0x3f80_0000 }).place(),
        least_margin(signals, n) == (Score { bits: 0x3f80_0000 }) || exists|k: int|
            0 <= k < n && least_margin(signals, n) == (#[trigger] signals[k]).margin,
    decreases n,
{
    if n > 0 {
        lemma_least_margin(signals, n - 1, i);
        assert(!signals[n - 1].margin.nan());
    }
}

proof fn lemma_greatest_failed(signals: Seq<QualifySignal>, n: int, i: int)
    requires
        0 <= n <= signals.len(),
        forall|k: int| 0 <= k < signals.len() ==> !(#[trigger] signals[k]).margin.nan(),
    ensures
        match greatest_failed_margin(signals, n) {
            Some(margin) => {
                &&& !margin.nan()
                &&& 0 <= i < n && !signals[i].passed ==> margin.place() >= signals[i].margin.place()
                &&& exists|k: int|
                    0 <= k < n && !(#[trigger] signals[k]).passed && margin == signals[k].margin
            },
            None => 0 <= i < n ==> signals[i].passed,
        },
    decreases n,
{
    if n > 0 {
        lemma_greatest_failed(signals, n - 1, i);
        assert(!signals[n - 1].margin.nan());
    }
}

/// The audit of signals holds these signals, and speaks of agreement corrected for chance only where
/// two or more voted: by Cohen's kappa for two, by Krippendorff's alpha for more, and by one of the two
/// alone. It says nothing of judges.
pub proof fn law_audit_of_signals(
    audit: QualifyAudit,
    admitted: bool,
    signals: Seq<QualifySignal>,
)
    requires
        audit.audits(admitted, signals),
    ensures
        audit.signals@ == signals,
        signals.len() == 0 ==> audit.agreement.numerator == audit.agreement.denominator,
        signals.len() < 2 ==> audit.chance_corrected_agreement is None
            && audit.chance_corrected_method is None && audit.cohen_kappa is None
            && audit.krippendorff_alpha is None,
        signals.len() == 2 ==> audit.cohen_kappa is Some && audit.krippendorff_alpha is None
            && audit.cohen_kappa == audit.chance_corrected_agreement
            && audit.chance_corrected_method is Some && audit.chance_corrected_method->0@
            == "cohen_kappa"@,
        signals.len() > 2 ==> audit.krippendorff_alpha is Some && audit.cohen_kappa is None
            && audit.krippendorff_alpha == audit.chance_corrected_agreement
            && audit.chance_corrected_method is Some && audit.chance_corrected_method->0@
            == "krippendorff_alpha"@,
        signals.len() >= 2 && (forall|i: int|
            0 <= i < signals.len() ==> (#[trigger] signals[i]).passed)
            ==> audit.chance_corrected_agreement->0.numerator
            == audit.chance_corrected_agreement->0.denominator,
        (exists|i: int, j: int|
            0 <= i < signals.len() && 0 <= j < signals.len() && (#[trigger] signals[i]).passed && !(
            #[trigger] signals[j]).passed) ==> audit.chance_corrected_agreement->0.numerator * (
        signals.len() - 1) == -(audit.chance_corrected_agreement->0.denominator as int),
        audit.position_bias is None,
        audit.position_bias_threshold is None,
        audit.position_bias_flagged is None,
        audit.judge_tier is None,
        audit.judge_costs@.len() == 0,
        audit.decisive_margin == deciding_margin(admitted, signals),
{
    let votes = votes_of(signals);
    let n = votes.len() as int;
    lemma_votes_split(votes, n);
    lemma_votes_all(votes, true, n);
    lemma_votes_all(votes, false, n);
    if exists|i: int, j: int|
        0 <= i < signals.len() && 0 <= j < signals.len() && (#[trigger] signals[i]).passed && !(
        #[trigger] signals[j]).passed {
        let (i, j) = choose|i: int, j: int|
            0 <= i < signals.len() && 0 <= j < signals.len() && (#[trigger] signals[i]).passed && !(
            #[trigger] signals[j]).passed;
        assert(votes[i] == true && votes[j] == false);
        let value = audit.chance_corrected_agreement->0;
        law_agreement_is_determined(
            value.numerator as int,
            value.denominator as int,
            votes_for(votes, true, n),
            votes_for(votes, false, n),
        );
    }
    if signals.len() >= 2 && (forall|i: int|
        0 <= i < signals.len() ==> (#[trigger] signals[i]).passed) {
        assert forall|i: int| 0 <= i < n implies #[trigger] votes[i] == true by {
            assert(signals[i].passed);
        }
        let value = audit.chance_corrected_agreement->0;
        law_agreement_is_determined(
            value.numerator as int,
            value.denominator as int,
            votes_for(votes, true, n),
            votes_for(votes, false, n),
        );
    }
}

/// The default table leads to decisions, constraints and the state of tasks, in this order, each by
/// words of its own.
pub proof fn law_default_slots(table: Seq<SlotKeywords>)
    requires
        keyword_views(table) == default_keywords(),
    ensures
        table.len() == 3,
        table[0].0@ == "decision"@,
        table[1].0@ == "constraint"@,
        table[2].0@ == "task-state"@,
        text::texts(table[0].1@) == seq![
            "decid"@,
            "chose"@,
            "chosen"@,
            "will use"@,
            "agreed"@,
            "selected"@,
        ],
        text::texts(table[1].1@) == seq![
            "must"@,
            "never"@,
            "always"@,
            "require"@,
            "cannot"@,
            "do not"@,
        ],
        text::texts(table[2].1@) == seq![
            "todo"@,
            "in progress"@,
            "blocked"@,
            "next step"@,
            "remaining"@,
        ],
{
    assert(keyword_views(table).len() == table.len());
    assert(keyword_views(table)[0] == (table[0].0@, text::texts(table[0].1@)));
    assert(keyword_views(table)[1] == (table[1].0@, text::texts(table[1].1@)));
    assert(keyword_views(table)[2] == (table[2].0@, text::texts(table[2].1@)));
}

} // verus!
