use crate::hand::SHand;
use crate::rulestatecache::SRuleStateCache;
use crate::primitives::{EPlayerIndex, SCard, VTrumpfOrFarbe};
use crate::stich::{SStich, SStichView};
use crate::stichseq::{SStichSequence, SStichSequenceView};
use vstd::prelude::*;

verus! {

/// The cards of each player's hand.
pub open spec fn hands_view(ahand: Seq<SHand>) -> Seq<Seq<SCard>> {
    ahand.map_values(|hand: SHand| hand@)
}

/// A rule variant: which cards may be played, who wins a trick, and what a
/// finished deal pays.
pub trait TRules {
    spec fn spec_winner_index(&self, stich: SStichView) -> EPlayerIndex;

    spec fn spec_all_allowed_cards(&self, stichseq: SStichSequenceView, hand: Seq<SCard>) -> Seq<SCard>;

    spec fn spec_trumpforfarbe(&self, card: SCard) -> VTrumpfOrFarbe;

    /// What each player is paid for the finished deal `stichseq`, given the
    /// number of raises and doublings, the stake pool and the per-player
    /// tricks and points.
    spec fn spec_payout(
        &self,
        stichseq: SStichSequenceView,
        tpln_stoss_doubling: (usize, usize),
        n_stock: isize,
        counts: Seq<(nat, nat)>,
    ) -> [isize; 4];

    /// For each player, a payout that the deal is sure to reach from this
    /// position, where the rules can tell one without searching.
    spec fn spec_payouthints(
        &self,
        stichseq: SStichSequenceView,
        hands: Seq<Seq<SCard>>,
        counts: Seq<(nat, nat)>,
        tpln_stoss_doubling: (usize, usize),
        n_stock: isize,
    ) -> [Option<isize>; 4];

    /// Whatever the position, a non-empty hand without repeated cards allows
    /// at least one of its cards, and every allowed card is in the hand.
    proof fn lemma_all_allowed_cards(&self, stichseq: SStichSequenceView, hand: Seq<SCard>)
        requires
            stichseq.wf(),
            !stichseq.game_finished(),
            hand.len() > 0,
            hand.no_duplicates(),
        ensures
            self.spec_all_allowed_cards(stichseq, hand).len() > 0,
            forall|i: int|
                0 <= i < self.spec_all_allowed_cards(stichseq, hand).len() ==> hand.contains(
                    #[trigger] self.spec_all_allowed_cards(stichseq, hand)[i],
                ),
    ;

    /// The player who wins the full trick `stich`.
    fn winner_index(&self, stich: &SStich) -> (r: EPlayerIndex)
        requires
            stich@.wf(),
            stich@.is_full(),
        ensures
            r == self.spec_winner_index(stich@),
    ;

    /// The cards of `hand` that the player to move may play.
    fn all_allowed_cards(&self, stichseq: &SStichSequence, hand: &SHand) -> (r: Vec<SCard>)
        requires
            stichseq@.wf(),
            !stichseq@.game_finished(),
        ensures
            r@ == self.spec_all_allowed_cards(stichseq@, hand@),
    ;

    /// What each player is paid for the finished deal.
    fn payout_with_cache(
        &self,
        stichseq: &SStichSequence,
        tpln_stoss_doubling: (usize, usize),
        n_stock: isize,
        rulestatecache: &SRuleStateCache,
    ) -> (r: [isize; 4])
        requires
            stichseq@.wf(),
            stichseq@.game_finished(),
        ensures
            r == self.spec_payout(stichseq@, tpln_stoss_doubling, n_stock, rulestatecache@),
    ;

    /// Per-player payout lower bounds at this position, where known.
    fn payouthints(
        &self,
        stichseq: &SStichSequence,
        ahand: &Vec<SHand>,
        rulestatecache: &SRuleStateCache,
        tpln_stoss_doubling: (usize, usize),
        n_stock: isize,
    ) -> (r: [Option<isize>; 4])
        requires
            stichseq@.wf(),
            ahand@.len() == 4,
        ensures
            r == self.spec_payouthints(
                stichseq@,
                hands_view(ahand@),
                rulestatecache@,
                tpln_stoss_doubling,
                n_stock,
            ),
    ;

    fn trumpforfarbe(&self, card: SCard) -> (r: VTrumpfOrFarbe)
        ensures
            r == self.spec_trumpforfarbe(card),
    ;
}

} // verus!
