//! Which judge a candidate is put to, by what is at stake.

use vstd::prelude::*;
use crate::gate::{QualifyAudit, QualifyDecision};
use crate::scores::Score;
use crate::text;

verus! {

/// A tier of judges.
#[derive(Debug, Clone, Copy, PartialEq, Eq, Structural)]
pub enum JudgeTier {
    Cheap,
    Frontier,
}

impl JudgeTier {
    /// The name of the tier.
    pub open spec fn word(self) -> Seq<char> {
        match self {
            JudgeTier::Cheap => "cheap"@,
            JudgeTier::Frontier => "frontier"@,
        }
    }

    /// The name of the tier.
    pub fn as_str(self) -> (r: &'static str)
        ensures
            r@ == self.word(),
    {
        match self {
            JudgeTier::Cheap => "cheap",
            JudgeTier::Frontier => "frontier",
        }
    }
}

/// Which judges there are, and when the frontier judge is used.
#[derive(Debug, Clone, PartialEq, Eq)]
pub struct JudgeTierConfig {
    pub cheap_judge: Option<String>,
    pub frontier_judge: Option<String>,
    /// Stakes at or above this value use the frontier judge.
    pub frontier_stakes_threshold: Score,
    /// The stakes where a caller names none.
    pub default_stakes: Score,
}

impl Default for JudgeTierConfig {
    fn default() -> (r: Self)
        ensures
            r.cheap_judge is None,
            r.frontier_judge is None,
            r.frontier_stakes_threshold == (Score { bits: 0x3f40_0000 }),
            r.default_stakes == (Score { bits: 0 }),
    {
        JudgeTierConfig {
            cheap_judge: None,
            frontier_judge: None,
            frontier_stakes_threshold: Score::from_bits(0x3f40_0000),
            default_stakes: Score::zero(),
        }
    }
}

impl JudgeTierConfig {
    /// A configuration with both judges and no default stakes.
    pub fn new(cheap_judge: &str, frontier_judge: &str, frontier_stakes_threshold: Score) -> (r:
        Self)
        ensures
            text::text_opt(r.cheap_judge) == Some(cheap_judge@),
            text::text_opt(r.frontier_judge) == Some(frontier_judge@),
            r.frontier_stakes_threshold == frontier_stakes_threshold,
            r.default_stakes == (Score { bits: 0 }),
    {
        JudgeTierConfig {
            cheap_judge: Some(cheap_judge.to_owned()),
            frontier_judge: Some(frontier_judge.to_owned()),
            frontier_stakes_threshold,
            default_stakes: Score::zero(),
        }
    }

    /// The configuration with other default stakes.
    pub fn with_default_stakes(self, default_stakes: Score) -> (r: Self)
        ensures
            r == (JudgeTierConfig { default_stakes, ..self }),
    {
        JudgeTierConfig { default_stakes, ..self }
    }

    /// The tier for what is at stake.
    pub open spec fn tier_for(self, stakes: Score) -> JudgeTier {
        if stakes.ge(self.frontier_stakes_threshold) {
            JudgeTier::Frontier
        } else {
            JudgeTier::Cheap
        }
    }

    /// The tier for what is at stake.
    pub fn select(&self, stakes: Score) -> (r: JudgeTier)
        ensures
            r == self.tier_for(stakes),
    {
        if stakes.at_least(self.frontier_stakes_threshold) {
            JudgeTier::Frontier
        } else {
            JudgeTier::Cheap
        }
    }
}

/// A verdict is another one, marked with a tier. A verdict without an audit got one without
/// signals.
pub open spec fn is_marked(
    marked: QualifyDecision,
    decision: QualifyDecision,
    tier: JudgeTier,
) -> bool {
    &&& marked.admitted == decision.admitted
    &&& marked.reason == decision.reason
    &&& marked.slot == decision.slot
    &&& marked.score == decision.score
    &&& marked.audit is Some
    &&& text::text_opt(marked.audit->0.judge_tier) == Some(tier.word())
    &&& match decision.audit {
        Some(audit) => marked.audit->0 == (QualifyAudit {
            judge_tier: marked.audit->0.judge_tier,
            ..audit
        }),
        None => exists|audit: QualifyAudit| #[trigger]
            audit.audits(decision.admitted, Seq::empty()) && marked.audit->0 == (QualifyAudit {
                judge_tier: marked.audit->0.judge_tier,
                ..audit
            }),
    }
}

/// The verdict of a judge, marked with its tier. A verdict without an audit gets one without
/// signals.
pub fn mark_tier(decision: QualifyDecision, tier: JudgeTier) -> (r: QualifyDecision)
    ensures
        is_marked(r, decision, tier),
{
    let audit = match decision.audit {
        Some(audit) => audit,
        None => {
            let signals = Vec::new();
            let audit = QualifyAudit::from_signals(decision.admitted, signals);
            assert(signals@ =~= Seq::empty());
            audit
        },
    };
    QualifyDecision {
        admitted: decision.admitted,
        reason: decision.reason,
        slot: decision.slot,
        score: decision.score,
        audit: Some(audit.with_judge_tier(tier.as_str())),
    }
}

/// A cheap judge and a frontier judge, and when the frontier judge is asked.
pub struct TieredQualifyGate<G> {
    cheap: G,
    frontier: G,
    config: JudgeTierConfig,
}

impl<G> TieredQualifyGate<G> {
    /// The judge of a tier.
    pub closed spec fn judge_of(self, tier: JudgeTier) -> G {
        match tier {
            JudgeTier::Cheap => self.cheap,
            JudgeTier::Frontier => self.frontier,
        }
    }

    /// When the frontier judge is asked.
    pub closed spec fn config_spec(self) -> JudgeTierConfig {
        self.config
    }

    /// Two judges under a configuration.
    pub fn new(cheap: G, frontier: G, config: JudgeTierConfig) -> (r: Self)
        ensures
            r.judge_of(JudgeTier::Cheap) == cheap,
            r.judge_of(JudgeTier::Frontier) == frontier,
            r.config_spec() == config,
    {
        TieredQualifyGate { cheap, frontier, config }
    }

    /// When the frontier judge is asked.
    pub fn config(&self) -> (r: &JudgeTierConfig)
        ensures
            *r == self.config_spec(),
    {
        &self.config
    }

    /// The tier for what is at stake.
    pub fn select_tier(&self, stakes: Score) -> (r: JudgeTier)
        ensures
            r == self.config_spec().tier_for(stakes),
    {
        self.config.select(stakes)
    }

    /// The judge that is asked for what is at stake.
    pub fn judge_for(&self, stakes: Score) -> (r: &G)
        ensures
            *r == self.judge_of(self.config_spec().tier_for(stakes)),
    {
        match self.select_tier(stakes) {
            JudgeTier::Cheap => &self.cheap,
            JudgeTier::Frontier => &self.frontier,
        }
    }

    /// What becomes of the verdict of the judge that was asked for what is at stake: it is marked
    /// with the tier of that judge.
    pub fn qualify_with_stakes(&self, verdict: QualifyDecision, stakes: Score) -> (r:
        QualifyDecision)
        ensures
            is_marked(r, verdict, self.config_spec().tier_for(stakes)),
    {
        mark_tier(verdict, self.select_tier(stakes))
    }
}

/// Higher stakes never lead to a cheaper judge.
pub proof fn law_higher_stakes_keep_frontier(config: JudgeTierConfig, low: Score, high: Score)
    requires
        config.tier_for(low) == JudgeTier::Frontier,
        high.ge(low),
    ensures
        config.tier_for(high) == JudgeTier::Frontier,
{
}

/// The frontier judge is asked exactly when what is at stake is at least the configuration's own
/// threshold, whatever its default stakes are; where one of the two is not a number the cheap judge
/// is.
pub proof fn law_own_threshold_picks_the_judge(config: JudgeTierConfig, stakes: Score)
    ensures
        !stakes.nan() && !config.frontier_stakes_threshold.nan() ==> (config.tier_for(stakes)
            == JudgeTier::Frontier <==> stakes.place()
            >= config.frontier_stakes_threshold.place()),
        stakes.nan() || config.frontier_stakes_threshold.nan() ==> config.tier_for(stakes)
            == JudgeTier::Cheap,
{
}

/// Marking a decision with its tier changes nothing else of it: whether it admits, why, where to and
/// on what score stay, and so do the signals of its audit where it had one.
pub proof fn law_marking_keeps_the_verdict(
    marked: QualifyDecision,
    decision: QualifyDecision,
    tier: JudgeTier,
)
    requires
        is_marked(marked, decision, tier),
    ensures
        marked.admitted == decision.admitted,
        marked.reason == decision.reason,
        marked.slot == decision.slot,
        marked.score == decision.score,
        marked.audit is Some,
        marked.audit->0.judge_tier is Some,
        tier == JudgeTier::Cheap ==> marked.audit->0.judge_tier->0@ == "cheap"@,
        tier == JudgeTier::Frontier ==> marked.audit->0.judge_tier->0@ == "frontier"@,
        decision.audit is Some ==> marked.audit->0.signals == decision.audit->0.signals
            && marked.audit->0.agreement == decision.audit->0.agreement
            && marked.audit->0.judge_costs == decision.audit->0.judge_costs,
        decision.audit is None ==> marked.audit->0.signals@.len() == 0,
{
    if text::text_opt(marked.audit->0.judge_tier) is Some {
        assert(marked.audit->0.judge_tier is Some);
    }
}

} // verus!
