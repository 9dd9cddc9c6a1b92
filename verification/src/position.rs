//! Whether a pairwise judge changes its mind when the candidates change places.

use vstd::prelude::*;
use crate::gate::RecallItem;
use crate::scores::Score;
use crate::text;
use crate::text::Rank;

verus! {

/// The rate of changed minds that is tolerated: one tenth.
pub fn default_position_bias_threshold() -> (r: Score)
    ensures
        r == (Score { bits: 0x3dcc_cccd }),
{
    Score::from_bits(0x3dcc_cccd)
}

/// What a judge prefers, in the order in which it saw the candidates.
#[derive(Debug, Clone, Copy, PartialEq, Eq, Structural)]
pub enum PairwiseChoice {
    First,
    Second,
    Tie,
}

impl PairwiseChoice {
    /// The id of the preferred candidate.
    pub open spec fn winner(self, first: Seq<char>, second: Seq<char>) -> Option<Seq<char>> {
        match self {
            PairwiseChoice::First => Some(first),
            PairwiseChoice::Second => Some(second),
            PairwiseChoice::Tie => None,
        }
    }

    /// The id of the preferred candidate.
    pub fn selected_id<'a>(&self, first: &'a RecallItem, second: &'a RecallItem) -> (r: Option<
        &'a str,
    >)
        ensures
            text::str_opt(r) == self.winner(first.id@, second.id@),
    {
        match self {
            PairwiseChoice::First => Some(first.id.as_str()),
            PairwiseChoice::Second => Some(second.id.as_str()),
            PairwiseChoice::Tie => None,
        }
    }
}

/// One verdict of a pairwise judge.
#[derive(Debug, Clone, PartialEq, Eq)]
pub struct PairwiseDecision {
    pub choice: PairwiseChoice,
    pub score: Score,
    pub reason: Option<String>,
}

impl PairwiseDecision {
    /// A verdict without a reason.
    pub fn new(choice: PairwiseChoice, score: Score) -> (r: Self)
        ensures
            r == (PairwiseDecision { choice, score, reason: None }),
    {
        PairwiseDecision { choice, score, reason: None }
    }
}

/// What asking a judge in both orders showed.
#[derive(Debug, Clone, Copy, PartialEq, Eq, Structural)]
pub struct PositionSwapAudit {
    pub ab_choice: PairwiseChoice,
    pub ba_choice: PairwiseChoice,
    pub position_bias: Score,
    pub threshold: Score,
    pub flagged: bool,
}

/// The judge names different winners in the two orders.
pub open spec fn changes_mind(
    ab: PairwiseChoice,
    ba: PairwiseChoice,
    a: Seq<char>,
    b: Seq<char>,
) -> bool {
    ab.winner(a, b) != ba.winner(b, a)
}

fn same_winner(x: Option<&str>, y: Option<&str>) -> (r: bool)
    ensures
        r == (text::str_opt(x) == text::str_opt(y)),
{
    match (x, y) {
        (Some(x), Some(y)) => text::same_text(x, y),
        (None, None) => true,
        _ => false,
    }
}

/// What a judge's choices in both orders show: a bias of one when it names different winners,
/// else zero, flagged above the threshold.
pub fn position_swap_debias(
    ab: PairwiseChoice,
    ba: PairwiseChoice,
    a: &RecallItem,
    b: &RecallItem,
    threshold: Score,
) -> (r: PositionSwapAudit)
    ensures
        r.ab_choice == ab,
        r.ba_choice == ba,
        r.position_bias == (if changes_mind(ab, ba, a.id@, b.id@) {
            Score { bits: 0x3f80_0000 }
        } else {
            Score { bits: 0 }
        }),
        r.threshold == threshold,
        r.flagged == threshold.lt(r.position_bias),
{
    let ab_winner = ab.selected_id(a, b);
    let ba_winner = ba.selected_id(b, a);
    let position_bias = if same_winner(ab_winner, ba_winner) {
        Score::zero()
    } else {
        Score::one()
    };
    PositionSwapAudit {
        ab_choice: ab,
        ba_choice: ba,
        position_bias,
        threshold,
        flagged: threshold.less_than(position_bias),
    }
}

/// A judge whose choices are fixed: one for candidates in the order of their ids, one for the
/// other order.
#[derive(Debug, Clone, Copy, PartialEq, Eq, Structural)]
pub struct StaticPairwiseJudge {
    ab_choice: PairwiseChoice,
    ba_choice: PairwiseChoice,
}

impl StaticPairwiseJudge {
    /// The choice for candidates in the order of their ids.
    pub closed spec fn in_order(self) -> PairwiseChoice {
        self.ab_choice
    }

    /// The choice for candidates in the other order.
    pub closed spec fn out_of_order(self) -> PairwiseChoice {
        self.ba_choice
    }

    /// A judge with fixed choices.
    pub fn new(ab_choice: PairwiseChoice, ba_choice: PairwiseChoice) -> (r: Self)
        ensures
            r.in_order() == ab_choice,
            r.out_of_order() == ba_choice,
    {
        StaticPairwiseJudge { ab_choice, ba_choice }
    }

    /// The judge's verdict on two candidates.
    pub fn compare(&self, first: &RecallItem, second: &RecallItem) -> (r: PairwiseDecision)
        ensures
            r == (PairwiseDecision {
                choice: if text::precedes(second.id@, first.id@) {
                    self.out_of_order()
                } else {
                    self.in_order()
                },
                score: Score { bits: 0x3f80_0000 },
                reason: None,
            }),
    {
        let choice = match text::rank(first.id.as_str(), second.id.as_str()) {
            Rank::Before => self.ab_choice,
            Rank::Same => {
                proof {
                    text::lemma_precedes_irreflexive(first.id@);
                }
                self.ab_choice
            },
            Rank::After => self.ba_choice,
        };
        PairwiseDecision::new(choice, Score::one())
    }
}

/// A judge that prefers the same candidate in both orders, or none in both, shows no bias, and a
/// judge that always prefers the same place shows one.
pub proof fn law_bias_is_preference_for_a_place(a: Seq<char>, b: Seq<char>)
    requires
        a != b,
    ensures
        !changes_mind(PairwiseChoice::First, PairwiseChoice::Second, a, b),
        !changes_mind(PairwiseChoice::Second, PairwiseChoice::First, a, b),
        !changes_mind(PairwiseChoice::Tie, PairwiseChoice::Tie, a, b),
        changes_mind(PairwiseChoice::First, PairwiseChoice::First, a, b),
        changes_mind(PairwiseChoice::Second, PairwiseChoice::Second, a, b),
{
}

/// Changing the names of the two orders changes nothing.
pub proof fn law_bias_is_symmetric(
    ab: PairwiseChoice,
    ba: PairwiseChoice,
    a: Seq<char>,
    b: Seq<char>,
)
    ensures
        changes_mind(ab, ba, a, b) == changes_mind(ba, ab, b, a),
{
}

/// A judge names a candidate by its place: the first, the second, or none in a tie. One that decides
/// in one order and not in the other shows a bias too.
pub proof fn law_choices_name_candidates(choice: PairwiseChoice, a: Seq<char>, b: Seq<char>)
    ensures
        PairwiseChoice::First.winner(a, b) == Some(a),
        PairwiseChoice::Second.winner(a, b) == Some(b),
        PairwiseChoice::Tie.winner(a, b) is None,
        choice != PairwiseChoice::Tie ==> changes_mind(choice, PairwiseChoice::Tie, a, b)
            && changes_mind(PairwiseChoice::Tie, choice, a, b),
{
}

} // verus!
