use artesian::gate::{
    binary_pairwise_kappa_alpha, chance_corrected_binary_votes, decisive_margin,
    default_slot_keywords, CcsSchema, DefaultQualifyGate, GateContext, GateFigures,
    JudgeTokenCost, QualifyAudit, QualifyDecision, QualifySignal, RecallItem,
};
use artesian::headroom::HeadroomCompressor;
use artesian::position::{
    default_position_bias_threshold, position_swap_debias, PairwiseChoice, StaticPairwiseJudge,
};
use artesian::scores::{Score, Share};
use artesian::tier::{mark_tier, JudgeTier, JudgeTierConfig, TieredQualifyGate};

fn score(value: f32) -> Score {
    Score::from_bits(value.to_bits())
}

fn value(share: Share) -> f64 {
    share.numerator as f64 / share.denominator as f64
}

fn margin(value: f32, threshold: f32) -> Score {
    let scale = value.abs().max(threshold.abs()).max(1.0);
    score(((value - threshold).abs() / scale).clamp(0.0, 1.0))
}

fn context(already_committed: bool, overlap: f32) -> GateContext {
    GateContext {
        already_committed,
        overlap: score(overlap),
        schema: CcsSchema {
            slots: vec![
                "decision".to_string(),
                "constraint".to_string(),
                "task-state".to_string(),
                "fact".to_string(),
            ],
        },
    }
}

fn figures(gate: &DefaultQualifyGate, item: &RecallItem, context: &GateContext) -> GateFigures {
    let number = |score: Score| f32::from_bits(score.bits);
    let (found, least) = (number(item.score), number(gate.min_score));
    let (overlap, redundant) = (number(context.overlap), number(gate.redundancy_threshold));
    let novelty = (1.0 - overlap).clamp(0.0, 1.0);
    let novelty_threshold = (1.0 - redundant).clamp(0.0, 1.0);
    GateFigures {
        score_text: format!("{found:.3}"),
        min_score_text: format!("{least:.3}"),
        overlap_text: format!("{overlap:.3}"),
        redundancy_threshold_text: format!("{redundant:.3}"),
        novelty: score(novelty),
        novelty_threshold: score(novelty_threshold),
        relevance_margin: margin(found, least),
        uniqueness_margin: margin(if context.already_committed { 0.0 } else { 1.0 }, 0.5),
        novelty_margin: margin(novelty, novelty_threshold),
    }
}

fn decide(gate: &DefaultQualifyGate, item: &RecallItem, context: &GateContext) -> QualifyDecision {
    gate.decide(item, context, &figures(gate, item, context))
}

#[test]
fn rejects_below_relevance() {
    let gate = DefaultQualifyGate::new(score(0.5), score(0.8));
    let item = RecallItem::new("a", "some weakly relevant note", score(0.1));
    let decision = decide(&gate, &item, &context(false, 0.0));
    assert!(!decision.admitted);
    assert!(decision.reason.contains("below relevance"));
    assert_eq!(decision.reason, "below relevance threshold (0.100 < 0.500)");
}

#[test]
fn routes_decision_keyword_to_decision_slot() {
    let gate = DefaultQualifyGate::default();
    let item = RecallItem::new("a", "we chose Rust for the core crates", score(1.0));
    let decision = decide(&gate, &item, &context(false, 0.0));
    assert!(decision.admitted);
    assert_eq!(decision.slot.as_deref(), Some("decision"));
}

#[test]
fn routes_unmatched_to_default_slot() {
    let gate = DefaultQualifyGate::default();
    let item = RecallItem::new("a", "the cluster has three nodes", score(1.0));
    let decision = decide(&gate, &item, &context(false, 0.0));
    assert_eq!(decision.slot.as_deref(), Some("decision"));
}

#[test]
fn routes_by_keyword_in_any_case() {
    let gate = DefaultQualifyGate::default();
    let item = RecallItem::new("a", "You MUST NOT deploy", score(1.0));
    let decision = decide(&gate, &item, &context(false, 0.0));
    assert_eq!(decision.slot.as_deref(), Some("constraint"));
    let greek = gate.with_slot_keywords(vec![("fact".to_string(), vec!["\u{3c3}\u{3b1}".to_string()])]);
    assert_eq!(greek.route_slot("\u{3a3}\u{391}", &context(false, 0.0).schema), "fact");
}

#[test]
fn routes_past_slots_that_the_schema_lacks() {
    let gate = DefaultQualifyGate::default();
    let schema = CcsSchema { slots: vec!["fact".to_string(), "task-state".to_string()] };
    assert_eq!(gate.route_lowered("we chose and must: todo", &schema), "task-state");
    assert_eq!(gate.route_lowered("we chose and must", &schema), "fact");
}

#[test]
fn rejects_redundant_against_committed() {
    let gate = DefaultQualifyGate::new(score(0.2), score(0.6));
    let item = RecallItem::new(
        "b",
        "the deployment runs nightly on the kubernetes cluster",
        score(1.0),
    );
    let decision = decide(&gate, &item, &context(false, 1.0));
    assert!(!decision.admitted);
    assert!(decision.reason.contains("redundant"));
    assert_eq!(decision.reason, "redundant (overlap 1.000 >= 0.600)");
}

#[test]
fn rejects_what_is_committed_already() {
    let gate = DefaultQualifyGate::default();
    let item = RecallItem::new("a", "text", score(1.0));
    let decision = decide(&gate, &item, &context(true, 1.0));
    assert!(!decision.admitted);
    assert_eq!(decision.reason, "already committed");
    assert_eq!(decision.slot, None);
}

#[test]
fn multi_signal_decision_reports_audited_agreement_and_confidence() {
    let gate = DefaultQualifyGate::new(score(0.5), score(0.6));
    let item = RecallItem::new("candidate", "deployment runs nightly on kubernetes", score(0.9));
    let decision = decide(&gate, &item, &context(false, 1.0));
    assert!(!decision.admitted);
    let audit = decision.audit.expect("audit should be attached");
    assert_eq!(audit.signals.len(), 3);
    assert!((0.0..=1.0).contains(&value(audit.agreement)));
    assert!(audit.chance_corrected_agreement.is_some());
    assert_eq!(audit.chance_corrected_agreement, audit.krippendorff_alpha);
    assert_eq!(audit.chance_corrected_method.as_deref(), Some("krippendorff_alpha"));
    let decisive = f32::from_bits(audit.decisive_margin.bits);
    assert!((0.0..=1.0).contains(&decisive));
    assert_eq!(audit.agreement, Share { numerator: 1, denominator: 3 });
}

#[test]
fn cohen_kappa_for_two_votes_matches_hand_computed_values() {
    let disagree = chance_corrected_binary_votes(&vec![true, false]);
    assert_eq!(disagree.cohen_kappa.map(value), Some(-1.0));
    assert_eq!(disagree.krippendorff_alpha, None);
    assert_eq!(disagree.method.as_deref(), Some("cohen_kappa"));

    let agree = chance_corrected_binary_votes(&vec![true, true]);
    assert_eq!(agree.cohen_kappa.map(value), Some(1.0));
    assert_eq!(agree.value.map(value), Some(1.0));
}

#[test]
fn krippendorff_alpha_for_three_votes_matches_hand_computed_value() {
    let stats = chance_corrected_binary_votes(&vec![true, true, false]);
    assert_eq!(stats.cohen_kappa, None);
    assert_eq!(stats.method.as_deref(), Some("krippendorff_alpha"));
    let alpha = stats.krippendorff_alpha.map(value).expect("alpha for >2 votes");
    assert!(
        (alpha - -0.5).abs() < 1e-6,
        "2 yes / 1 no: observed agreement=1/3, expected=5/9, alpha=-0.5; got {alpha}"
    );
}

#[test]
fn agreement_formula_is_met_for_small_ballots() {
    for n in 2..40usize {
        for yes in 0..=n {
            let votes: Vec<bool> = (0..n).map(|i| i < yes).collect();
            let (y, t) = (yes as f64, n as f64);
            let m = t - y;
            let observed = (y * (y - 1.0) + m * (m - 1.0)) / (t * (t - 1.0));
            let expected = (y * y + m * m) / (t * t);
            let formula = if 1.0 - expected == 0.0 {
                1.0
            } else {
                ((observed - expected) / (1.0 - expected)).clamp(-1.0, 1.0)
            };
            let exact = value(binary_pairwise_kappa_alpha(&votes));
            assert!((exact - formula).abs() < 1e-9, "{yes} of {n}: {exact} and {formula}");
        }
    }
}

#[test]
fn single_votes_have_no_agreement_by_chance() {
    let stats = chance_corrected_binary_votes(&vec![true]);
    assert_eq!(stats.value, None);
    assert_eq!(stats.method, None);
}

#[test]
fn audited_decision_preserves_existing_admit_reject_outcome() {
    let gate = DefaultQualifyGate::new(score(0.5), score(0.6));
    let weak = RecallItem::new("weak", "some weakly relevant note", score(0.1));
    let strong = RecallItem::new("strong", "the team chose Rust", score(0.9));
    let empty = context(false, 0.0);

    assert_eq!(decide(&gate, &weak, &empty).admitted, weak.score.at_least(gate.min_score));
    assert!(decide(&gate, &strong, &empty).admitted);
}

fn signal(passed: bool, margin: f32) -> QualifySignal {
    QualifySignal::new("s", score(0.0), score(0.0), passed, score(margin))
}

#[test]
fn decisive_margins_are_the_weakest_or_the_strongest() {
    let signals = vec![signal(true, 0.5), signal(false, 0.25), signal(false, 0.75)];
    assert_eq!(decisive_margin(true, &signals), score(0.25));
    assert_eq!(decisive_margin(false, &signals), score(0.75));
    assert_eq!(decisive_margin(false, &vec![signal(true, 0.5)]), score(0.0));
    assert_eq!(decisive_margin(true, &Vec::new()), score(1.0));
    assert_eq!(decisive_margin(false, &Vec::new()), score(1.0));
}

#[test]
fn audits_take_more_findings() {
    let audit = QualifyAudit::from_signals(true, vec![signal(true, 1.0), signal(false, 1.0)])
        .with_position_bias(score(0.5), score(0.2))
        .with_judge_tier("cheap")
        .with_judge_cost(JudgeTokenCost { judge: "a".to_string(), tokens: 3 })
        .with_judge_costs(vec![JudgeTokenCost { judge: "b".to_string(), tokens: 4 }]);
    assert_eq!(audit.agreement, Share { numerator: 1, denominator: 2 });
    assert_eq!(audit.position_bias_flagged, Some(true));
    assert_eq!(audit.judge_tier.as_deref(), Some("cheap"));
    assert_eq!(audit.judge_costs.len(), 2);
    let none = QualifyAudit::from_signals(false, Vec::new());
    assert_eq!(value(none.agreement), 1.0);
    let unbiased = none.with_position_bias(score(0.2), score(0.2));
    assert_eq!(unbiased.position_bias_flagged, Some(false));
}

#[test]
fn keywords_lead_to_three_slots() {
    let table = default_slot_keywords();
    let slots: Vec<&str> = table.iter().map(|(slot, _)| slot.as_str()).collect();
    assert_eq!(slots, vec!["decision", "constraint", "task-state"]);
    assert_eq!(table[0].1[0], "decid");
}

#[test]
fn flags_position_biased_pairwise_judge() {
    let judge = StaticPairwiseJudge::new(PairwiseChoice::First, PairwiseChoice::First);
    let a = RecallItem::new("a", "candidate a", score(1.0));
    let b = RecallItem::new("b", "candidate b", score(1.0));

    let ab = judge.compare(&a, &b);
    let ba = judge.compare(&b, &a);
    let audit =
        position_swap_debias(ab.choice, ba.choice, &a, &b, default_position_bias_threshold());

    assert_eq!(audit.position_bias, score(1.0));
    assert!(audit.flagged);
}

#[test]
fn passes_unbiased_pairwise_judge() {
    let judge = StaticPairwiseJudge::new(PairwiseChoice::First, PairwiseChoice::Second);
    let a = RecallItem::new("a", "candidate a", score(1.0));
    let b = RecallItem::new("b", "candidate b", score(1.0));

    let ab = judge.compare(&a, &b);
    let ba = judge.compare(&b, &a);
    let audit =
        position_swap_debias(ab.choice, ba.choice, &a, &b, default_position_bias_threshold());

    assert_eq!(audit.position_bias, score(0.0));
    assert!(!audit.flagged);
}

#[test]
fn choices_select_ids() {
    let a = RecallItem::new("a", "", score(0.0));
    let b = RecallItem::new("b", "", score(0.0));
    assert_eq!(PairwiseChoice::First.selected_id(&a, &b), Some("a"));
    assert_eq!(PairwiseChoice::Second.selected_id(&a, &b), Some("b"));
    assert_eq!(PairwiseChoice::Tie.selected_id(&a, &b), None);
}

#[test]
fn tiering_selects_cheap_vs_frontier_by_stakes() {
    let config = JudgeTierConfig::new("cheap-local", "frontier-remote", score(0.7));

    let cheap = mark_tier(
        QualifyDecision::reject("cheap reject", score(0.1)),
        config.select(score(0.2)),
    );
    assert!(!cheap.admitted);
    assert_eq!(
        cheap.audit.as_ref().and_then(|audit| audit.judge_tier.as_deref()),
        Some("cheap")
    );

    let frontier = mark_tier(
        QualifyDecision::accept("decision", score(1.0)),
        config.select(score(0.9)),
    );
    assert!(frontier.admitted);
    assert_eq!(
        frontier.audit.as_ref().and_then(|audit| audit.judge_tier.as_deref()),
        Some("frontier")
    );
}

#[test]
fn tiers_have_their_words_and_default_stakes() {
    assert_eq!(JudgeTier::Cheap.as_str(), "cheap");
    assert_eq!(JudgeTier::Frontier.as_str(), "frontier");
    let config = JudgeTierConfig::default().with_default_stakes(score(0.25));
    assert_eq!(config.default_stakes, score(0.25));
    assert_eq!(config.select(config.frontier_stakes_threshold), JudgeTier::Frontier);
    assert_eq!(config.select(score(f32::NAN)), JudgeTier::Cheap);
}

#[test]
fn compressors_keep_what_is_inside() {
    let plain = HeadroomCompressor::passthrough(7u8);
    assert_eq!(*plain.inner(), 7);
    assert_eq!(*plain.endpoint(), None);
    let wired = HeadroomCompressor::new(8u8, Some("http://localhost:9090".to_string()));
    assert_eq!(*wired.inner(), 8);
    assert_eq!(wired.endpoint().as_deref(), Some("http://localhost:9090"));
}

#[test]
fn tiered_judges_are_asked_by_stakes() {
    let config = JudgeTierConfig::new("cheap-local", "frontier-remote", score(0.7));
    let tiers = TieredQualifyGate::new("cheap judge", "frontier judge", config);
    assert_eq!(tiers.select_tier(score(0.2)), JudgeTier::Cheap);
    assert_eq!(*tiers.judge_for(score(0.2)), "cheap judge");
    assert_eq!(*tiers.judge_for(score(0.7)), "frontier judge");
    assert_eq!(*tiers.judge_for(tiers.config().default_stakes), "cheap judge");
    let verdict = QualifyDecision::reject("too vague", score(0.1));
    let marked = tiers.qualify_with_stakes(verdict, score(0.9));
    assert!(!marked.admitted);
    assert_eq!(marked.reason, "too vague");
    assert_eq!(
        marked.audit.as_ref().and_then(|audit| audit.judge_tier.as_deref()),
        Some("frontier")
    );
}

#[test]
fn rejected_candidates_need_no_slot() {
    let gate = DefaultQualifyGate::new(score(0.5), score(0.8));
    let mut without_slots = context(false, 0.0);
    without_slots.schema.slots.clear();
    let weak = RecallItem::new("a", "we decided on wells", score(0.1));
    assert!(!gate.qualifies(weak.score, &without_slots));
    let decision = decide(&gate, &weak, &without_slots);
    assert!(!decision.admitted);
    assert_eq!(decision.slot, None);
    assert_eq!(decision.reason, "below relevance threshold (0.100 < 0.500)");
    assert!(gate.qualifies(score(0.5), &without_slots));
    assert!(!gate.qualifies(score(0.5), &context(true, 0.0)));
    assert!(!gate.qualifies(score(0.5), &context(false, 0.8)));
}
