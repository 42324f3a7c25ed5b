use crate::hand::{first_index, lemma_first_index_in_range, SHand};
use crate::primitives::{EPlayerIndex, SCard};
use crate::rules::{hands_view, TRules};
use crate::rulestatecache::{
    counts_of_sequence, lemma_counts_bound, lemma_counts_zugeben, lemma_register_unregister,
    SRuleStateCache,
};
use crate::stichseq::lemma_zugeben_undo;
use crate::stich::SStichView;
use crate::stichseq::{SStichSequence, SStichSequenceView};
use std::marker::PhantomData;
use vstd::prelude::*;

verus! {

/// One value per way of modelling how the other players choose their cards.
#[derive(Clone, Copy, Debug, PartialEq, Eq)]
pub struct SPerMinMaxStrategy<T> {
    /// The others play against the fixed player.
    pub t_min: T,
    /// The others play for themselves; ties go against the fixed player.
    pub t_selfish_min: T,
    /// The others play for themselves; ties go the fixed player's way.
    pub t_selfish_max: T,
    /// The others play for the fixed player.
    pub t_max: T,
}

/// Per strategy, the payout of every player.
pub type SMinMax = SPerMinMaxStrategy<[isize; 4]>;

/// The outcome of a decided deal: every strategy sees the same payouts.
pub open spec fn spec_new_final(an_payout: [isize; 4]) -> SMinMax {
    SPerMinMaxStrategy {
        t_min: an_payout,
        t_selfish_min: an_payout,
        t_selfish_max: an_payout,
        t_max: an_payout,
    }
}

/// The fixed player's payouts rise from `min` over the selfish strategies to `max`.
pub open spec fn bounds_ordered(minmax: SMinMax, epi: EPlayerIndex) -> bool {
    let f = epi.idx() as int;
    &&& minmax.t_min@[f] <= minmax.t_selfish_min@[f]
    &&& minmax.t_selfish_max@[f] <= minmax.t_max@[f]
    &&& minmax.t_min@[f] <= minmax.t_max@[f]
}

/// Whether `an_new` beats `an_acc` when `key` is to be maximised.
pub open spec fn key_greater(an_new: [isize; 4], an_acc: [isize; 4], key: EPlayerIndex) -> bool {
    an_new@[key.idx() as int] > an_acc@[key.idx() as int]
}

/// Whether `an_new` beats `an_acc` when `epi_card` maximises its own payout
/// and, on a tie, the fixed player's payout is to be maximised (`b_max`) or
/// minimised.
pub open spec fn selfish_better(
    an_new: [isize; 4],
    an_acc: [isize; 4],
    epi_card: EPlayerIndex,
    epi: EPlayerIndex,
    b_max: bool,
) -> bool {
    let p = epi_card.idx() as int;
    let f = epi.idx() as int;
    an_new@[p] > an_acc@[p] || (an_new@[p] == an_acc@[p] && if b_max {
        an_new@[f] > an_acc@[f]
    } else {
        an_new@[f] < an_acc@[f]
    })
}

/// Folds one more child into the accumulated outcome of a node at which
/// `epi_card` chooses, seen from the fixed player `epi`.
pub open spec fn combine_step(acc: SMinMax, new: SMinMax, epi: EPlayerIndex, epi_card: EPlayerIndex) -> SMinMax {
    if epi == epi_card {
        SPerMinMaxStrategy {
            t_min: if key_greater(new.t_min, acc.t_min, epi) { new.t_min } else { acc.t_min },
            t_selfish_min: if key_greater(new.t_selfish_min, acc.t_selfish_min, epi) {
                new.t_selfish_min
            } else {
                acc.t_selfish_min
            },
            t_selfish_max: if key_greater(new.t_selfish_max, acc.t_selfish_max, epi) {
                new.t_selfish_max
            } else {
                acc.t_selfish_max
            },
            t_max: if key_greater(new.t_max, acc.t_max, epi) { new.t_max } else { acc.t_max },
        }
    } else {
        SPerMinMaxStrategy {
            t_min: if key_greater(acc.t_min, new.t_min, epi) { new.t_min } else { acc.t_min },
            t_selfish_min: if selfish_better(new.t_selfish_min, acc.t_selfish_min, epi_card, epi, false) {
                new.t_selfish_min
            } else {
                acc.t_selfish_min
            },
            t_selfish_max: if selfish_better(new.t_selfish_max, acc.t_selfish_max, epi_card, epi, true) {
                new.t_selfish_max
            } else {
                acc.t_selfish_max
            },
            t_max: if key_greater(new.t_max, acc.t_max, epi) { new.t_max } else { acc.t_max },
        }
    }
}

/// The outcome of a node from its children's outcomes, folded left to right.
pub open spec fn combine_all(children: Seq<SMinMax>, epi: EPlayerIndex, epi_card: EPlayerIndex) -> SMinMax
    decreases children.len(),
{
    if children.len() <= 1 {
        children[0]
    } else {
        combine_step(combine_all(children.drop_last(), epi, epi_card), children.last(), epi, epi_card)
    }
}

/// What the fold picks: per strategy the value of some child, best for the
/// chooser. When the fixed player chooses, every strategy maximises its
/// payout; otherwise `min` minimises it, `max` maximises it, and the selfish
/// strategies maximise the chooser's own payout.
pub proof fn lemma_combine_all(children: Seq<SMinMax>, epi: EPlayerIndex, epi_card: EPlayerIndex)
    requires
        children.len() > 0,
    ensures
        ({
            let r = combine_all(children, epi, epi_card);
            let f = epi.idx() as int;
            let p = epi_card.idx() as int;
            &&& exists|j: int| 0 <= j < children.len() && r.t_min == children[j].t_min
            &&& exists|j: int| 0 <= j < children.len() && r.t_selfish_min == children[j].t_selfish_min
            &&& exists|j: int| 0 <= j < children.len() && r.t_selfish_max == children[j].t_selfish_max
            &&& exists|j: int| 0 <= j < children.len() && r.t_max == children[j].t_max
            &&& forall|i: int| 0 <= i < children.len() ==> r.t_max@[f] >= (#[trigger] children[i]).t_max@[f]
            &&& epi == epi_card ==> forall|i: int|
                0 <= i < children.len() ==> {
                    &&& r.t_min@[f] >= (#[trigger] children[i]).t_min@[f]
                    &&& r.t_selfish_min@[f] >= children[i].t_selfish_min@[f]
                    &&& r.t_selfish_max@[f] >= children[i].t_selfish_max@[f]
                }
            &&& epi != epi_card ==> forall|i: int|
                0 <= i < children.len() ==> {
                    &&& r.t_min@[f] <= (#[trigger] children[i]).t_min@[f]
                    &&& r.t_selfish_min@[p] >= children[i].t_selfish_min@[p]
                    &&& r.t_selfish_max@[p] >= children[i].t_selfish_max@[p]
                }
        }),
    decreases children.len(),
{
    let r = combine_all(children, epi, epi_card);
    if children.len() > 1 {
        let prefix = children.drop_last();
        lemma_combine_all(prefix, epi, epi_card);
        let last = children.len() - 1;
        assert forall|i: int| 0 <= i < last implies #[trigger] children[i] == prefix[i] by {}
        let acc = combine_all(prefix, epi, epi_card);
        let jm = choose|j: int| 0 <= j < prefix.len() && acc.t_min == prefix[j].t_min;
        let jsn = choose|j: int| 0 <= j < prefix.len() && acc.t_selfish_min == prefix[j].t_selfish_min;
        let jsx = choose|j: int| 0 <= j < prefix.len() && acc.t_selfish_max == prefix[j].t_selfish_max;
        let jx = choose|j: int| 0 <= j < prefix.len() && acc.t_max == prefix[j].t_max;
        if r.t_min == children[last].t_min {} else { assert(r.t_min == children[jm].t_min); }
        if r.t_selfish_min == children[last].t_selfish_min {} else { assert(r.t_selfish_min == children[jsn].t_selfish_min); }
        if r.t_selfish_max == children[last].t_selfish_max {} else { assert(r.t_selfish_max == children[jsx].t_selfish_max); }
        if r.t_max == children[last].t_max {} else { assert(r.t_max == children[jx].t_max); }
    }
}

/// When every child's bounds are ordered, so are the node's.
pub proof fn lemma_combine_all_ordered(children: Seq<SMinMax>, epi: EPlayerIndex, epi_card: EPlayerIndex)
    requires
        children.len() > 0,
        forall|i: int| 0 <= i < children.len() ==> bounds_ordered(#[trigger] children[i], epi),
    ensures
        bounds_ordered(combine_all(children, epi, epi_card), epi),
{
    lemma_combine_all(children, epi, epi_card);
    let r = combine_all(children, epi, epi_card);
    let jm = choose|j: int| 0 <= j < children.len() && r.t_min == children[j].t_min;
    let jsn = choose|j: int| 0 <= j < children.len() && r.t_selfish_min == children[j].t_selfish_min;
    let jsx = choose|j: int| 0 <= j < children.len() && r.t_selfish_max == children[j].t_selfish_max;
    assert(bounds_ordered(children[jm], epi));
    assert(bounds_ordered(children[jsn], epi));
    assert(bounds_ordered(children[jsx], epi));
    assert(bounds_ordered(children[0], epi));
}

impl SPerMinMaxStrategy<[isize; 4]> {
    /// The outcome of a decided deal paying `an_payout`.
    pub fn new_final(an_payout: [isize; 4]) -> (r: SMinMax)
        ensures
            r == spec_new_final(an_payout),
    {
        SPerMinMaxStrategy {
            t_min: an_payout,
            t_selfish_min: an_payout,
            t_selfish_max: an_payout,
            t_max: an_payout,
        }
    }
}

/// The parameters of a search for the payouts that `epi` can reach, with the
/// pruning strategy `Pruner`.
#[derive(Debug)]
pub struct SMinReachablePayoutBase<Pruner> {
    epi: EPlayerIndex,
    tpln_stoss_doubling: (usize, usize),
    n_stock: isize,
    phantom: PhantomData<Pruner>,
}

/// Searches without pruning.
pub type SMinReachablePayout = SMinReachablePayoutBase<SPrunerNothing>;

/// Searches that stop where the rules' payout hints already decide the node.
pub type SMinReachablePayoutLowerBoundViaHint = SMinReachablePayoutBase<SPrunerViaHint>;

impl<Pruner> SMinReachablePayoutBase<Pruner> {
    /// The fixed player, for whom payouts are bounded.
    pub closed spec fn spec_epi(&self) -> EPlayerIndex {
        self.epi
    }

    pub closed spec fn spec_tpln_stoss_doubling(&self) -> (usize, usize) {
        self.tpln_stoss_doubling
    }

    pub closed spec fn spec_n_stock(&self) -> isize {
        self.n_stock
    }

    pub fn new(epi: EPlayerIndex, tpln_stoss_doubling: (usize, usize), n_stock: isize) -> (r: Self)
        ensures
            r.spec_epi() == epi,
            r.spec_tpln_stoss_doubling() == tpln_stoss_doubling,
            r.spec_n_stock() == n_stock,
    {
        SMinReachablePayoutBase { epi, tpln_stoss_doubling, n_stock, phantom: PhantomData }
    }

    pub fn epi(&self) -> (r: EPlayerIndex)
        ensures
            r == self.spec_epi(),
    {
        self.epi
    }

    /// The outcome of the finished deal `stichseq`.
    pub fn final_output<R: TRules>(
        &self,
        rules: &R,
        stichseq: &SStichSequence,
        rulestatecache: &SRuleStateCache,
    ) -> (r: SMinMax)
        requires
            stichseq@.wf(),
            stichseq@.game_finished(),
        ensures
            r == spec_new_final(
                rules.spec_payout(stichseq@, self.spec_tpln_stoss_doubling(), self.spec_n_stock(), rulestatecache@),
            ),
    {
        SPerMinMaxStrategy::new_final(
            rules.payout_with_cache(stichseq, self.tpln_stoss_doubling, self.n_stock, rulestatecache),
        )
    }

    /// Folds the outcomes of the cards that `epi_card` may play into the
    /// outcome of the node.
    pub fn combine_outputs(&self, epi_card: EPlayerIndex, vecminmax: Vec<SMinMax>) -> (r: SMinMax)
        requires
            vecminmax@.len() > 0,
        ensures
            r == combine_all(vecminmax@, self.spec_epi(), epi_card),
    {
        let f = self.epi.to_usize();
        let p = epi_card.to_usize();
        let b_fixed_chooses = f == p;
        let mut acc = vecminmax[0];
        let mut i: usize = 1;
        assert(vecminmax@.take(1) =~= seq![vecminmax@[0]]);
        while i < vecminmax.len()
            invariant
                1 <= i <= vecminmax@.len(),
                f == self.spec_epi().idx(),
                p == epi_card.idx(),
                b_fixed_chooses == (self.spec_epi() == epi_card),
                acc == combine_all(vecminmax@.take(i as int), self.spec_epi(), epi_card),
            decreases vecminmax@.len() - i,
        {
            proof {
                self.spec_epi().lemma_idx_of_idx();
                epi_card.lemma_idx_of_idx();
                assert(vecminmax@.take(i as int + 1).drop_last() =~= vecminmax@.take(i as int));
            }
            let minmax = vecminmax[i];
            if b_fixed_chooses {
                if minmax.t_min[f] > acc.t_min[f] {
                    acc.t_min = minmax.t_min;
                }
                if minmax.t_selfish_min[f] > acc.t_selfish_min[f] {
                    acc.t_selfish_min = minmax.t_selfish_min;
                }
                if minmax.t_selfish_max[f] > acc.t_selfish_max[f] {
                    acc.t_selfish_max = minmax.t_selfish_max;
                }
            } else {
                if minmax.t_min[f] < acc.t_min[f] {
                    acc.t_min = minmax.t_min;
                }
                if minmax.t_selfish_min[p] > acc.t_selfish_min[p] || (minmax.t_selfish_min[p]
                    == acc.t_selfish_min[p] && minmax.t_selfish_min[f] < acc.t_selfish_min[f]) {
                    acc.t_selfish_min = minmax.t_selfish_min;
                }
                if minmax.t_selfish_max[p] > acc.t_selfish_max[p] || (minmax.t_selfish_max[p]
                    == acc.t_selfish_max[p] && minmax.t_selfish_max[f] > acc.t_selfish_max[f]) {
                    acc.t_selfish_max = minmax.t_selfish_max;
                }
            }
            if minmax.t_max[f] > acc.t_max[f] {
                acc.t_max = minmax.t_max;
            }
            i = i + 1;
        }
        assert(vecminmax@.take(i as int) =~= vecminmax@);
        acc
    }
}

/// A way to settle a node without exploring it, from the rules' payout hints.
pub trait TPruner: Sized {
    /// Whether the pruner looks at the hints at all.
    spec fn spec_consults_hints() -> bool;

    /// The outcome that the hints `aopayout` decide for the fixed player `epi`,
    /// or `None` where the node must be explored.
    spec fn spec_pruned_output(epi: EPlayerIndex, aopayout: [Option<isize>; 4]) -> Option<SMinMax>;

    /// A pruned outcome has its bounds ordered.
    proof fn lemma_pruned_ordered(epi: EPlayerIndex, aopayout: [Option<isize>; 4])
        ensures
            Self::spec_pruned_output(epi, aopayout) matches Some(minmax) ==> bounds_ordered(minmax, epi),
    ;

    fn consults_hints() -> (r: bool)
        ensures
            r == Self::spec_consults_hints(),
    ;

    fn pruned_output(epi: EPlayerIndex, aopayout: [Option<isize>; 4]) -> (r: Option<SMinMax>)
        ensures
            r == Self::spec_pruned_output(epi, aopayout),
            r matches Some(minmax) ==> bounds_ordered(minmax, epi),
    ;
}

/// Never prunes: the search is exact.
#[derive(Debug)]
pub struct SPrunerNothing;

impl TPruner for SPrunerNothing {
    open spec fn spec_consults_hints() -> bool {
        false
    }

    open spec fn spec_pruned_output(epi: EPlayerIndex, aopayout: [Option<isize>; 4]) -> Option<SMinMax> {
        None
    }

    proof fn lemma_pruned_ordered(epi: EPlayerIndex, aopayout: [Option<isize>; 4]) {
    }

    fn consults_hints() -> (r: bool) {
        false
    }

    fn pruned_output(epi: EPlayerIndex, aopayout: [Option<isize>; 4]) -> (r: Option<SMinMax>) {
        None
    }
}

/// Settles a node by the rules' payout hints when every player has one and
/// the fixed player's is positive.
#[derive(Debug)]
pub struct SPrunerViaHint;

/// The outcome that the hints `aopayout` decide for the fixed player `epi`, if any.
pub open spec fn spec_hint_output(aopayout: [Option<isize>; 4], epi: EPlayerIndex) -> Option<SMinMax> {
    if (forall|i: int| 0 <= i < 4 ==> (#[trigger] aopayout@[i]) is Some) && aopayout@[epi.idx() as int]->0 > 0 {
        Some(
            spec_new_final(
                [aopayout@[0]->0, aopayout@[1]->0, aopayout@[2]->0, aopayout@[3]->0],
            ),
        )
    } else {
        None
    }
}

impl TPruner for SPrunerViaHint {
    open spec fn spec_consults_hints() -> bool {
        true
    }

    open spec fn spec_pruned_output(epi: EPlayerIndex, aopayout: [Option<isize>; 4]) -> Option<SMinMax> {
        spec_hint_output(aopayout, epi)
    }

    proof fn lemma_pruned_ordered(epi: EPlayerIndex, aopayout: [Option<isize>; 4]) {
    }

    fn consults_hints() -> (r: bool) {
        true
    }

    fn pruned_output(epi: EPlayerIndex, aopayout: [Option<isize>; 4]) -> (r: Option<SMinMax>) {
        let f = epi.to_usize();
        let mut an_payout: [isize; 4] = [0, 0, 0, 0];
        let mut i: usize = 0;
        while i < 4
            invariant
                i <= 4,
                an_payout@.len() == 4,
                forall|j: int| 0 <= j < i ==> (#[trigger] aopayout@[j]) is Some && an_payout@[j]
                    == aopayout@[j]->0,
            decreases 4 - i,
        {
            match aopayout[i] {
                Some(n_payout) => {
                    an_payout[i] = n_payout;
                },
                None => {
                    return None;
                },
            }
            i = i + 1;
        }
        if an_payout[f] > 0 {
            Some(
                SPerMinMaxStrategy::new_final(
                    [an_payout[0], an_payout[1], an_payout[2], an_payout[3]],
                ),
            )
        } else {
            None
        }
    }
}

/// The outcome that `Pruner` assigns to the node, or `None` where it must be explored.
pub open spec fn spec_node_pruned<R: TRules, Pruner: TPruner>(
    params: SMinReachablePayoutBase<Pruner>,
    rules: R,
    stichseq: SStichSequenceView,
    hands: Seq<Seq<SCard>>,
) -> Option<SMinMax> {
    if Pruner::spec_consults_hints() {
        Pruner::spec_pruned_output(
            params.spec_epi(),
            rules.spec_payouthints(
                stichseq,
                hands,
                counts_of_sequence(stichseq),
                params.spec_tpln_stoss_doubling(),
                params.spec_n_stock(),
            ),
        )
    } else {
        None
    }
}

impl<Pruner: TPruner> SMinReachablePayoutBase<Pruner> {
    /// The outcome that the pruner assigns to the node, if any.
    pub fn pruned_output<R: TRules>(
        &self,
        rules: &R,
        stichseq: &SStichSequence,
        ahand: &Vec<SHand>,
        rulestatecache: &SRuleStateCache,
    ) -> (r: Option<SMinMax>)
        requires
            stichseq@.wf(),
            ahand@.len() == 4,
            rulestatecache@ == counts_of_sequence(stichseq@),
        ensures
            r == spec_node_pruned(*self, *rules, stichseq@, hands_view(ahand@)),
            r matches Some(minmax) ==> bounds_ordered(minmax, self.spec_epi()),
    {
        if Pruner::consults_hints() {
            let aopayout = rules.payouthints(
                stichseq,
                ahand,
                rulestatecache,
                self.tpln_stoss_doubling,
                self.n_stock,
            );
            Pruner::pruned_output(self.epi, aopayout)
        } else {
            None
        }
    }
}

/// Narrows the cards that may be explored at a node, e.g. to bound the
/// branching factor.
pub trait TFilterAllowedCards {
    spec fn spec_filter(&self, stichseq: SStichSequenceView, veccard: Seq<SCard>) -> Seq<SCard>;

    /// A filter keeps at least one card and invents none.
    proof fn lemma_filter(&self, stichseq: SStichSequenceView, veccard: Seq<SCard>)
        requires
            veccard.len() > 0,
        ensures
            self.spec_filter(stichseq, veccard).len() > 0,
            forall|i: int|
                0 <= i < self.spec_filter(stichseq, veccard).len() ==> veccard.contains(
                    #[trigger] self.spec_filter(stichseq, veccard)[i],
                ),
    ;

    fn filter_allowed_cards(&self, stichseq: &SStichSequence, veccard: &mut Vec<SCard>)
        ensures
            final(veccard)@ == self.spec_filter(stichseq@, old(veccard)@),
    ;
}

/// Keeps every allowed card: the search is exhaustive.
#[derive(Debug)]
pub struct SNoFilter;

impl TFilterAllowedCards for SNoFilter {
    open spec fn spec_filter(&self, stichseq: SStichSequenceView, veccard: Seq<SCard>) -> Seq<SCard> {
        veccard
    }

    proof fn lemma_filter(&self, stichseq: SStichSequenceView, veccard: Seq<SCard>) {
        assert forall|i: int| 0 <= i < veccard.len() implies veccard.contains(#[trigger] veccard[i]) by {}
    }

    fn filter_allowed_cards(&self, stichseq: &SStichSequence, veccard: &mut Vec<SCard>) {
    }
}

/// Observes the entry into and the exit from each explored node.
pub trait TSnapshotVisualizer {
    fn begin_snapshot(&mut self, stichseq: &SStichSequence, ahand: &Vec<SHand>);

    fn end_snapshot(&mut self, output: &SMinMax);
}

/// Observes nothing.
#[derive(Debug)]
pub struct SNoVisualization;

impl TSnapshotVisualizer for SNoVisualization {
    fn begin_snapshot(&mut self, stichseq: &SStichSequence, ahand: &Vec<SHand>) {
    }

    fn end_snapshot(&mut self, output: &SMinMax) {
    }
}

/// At a finished deal the outcome is the rules' payout, the same under all
/// four strategies.
pub proof fn lemma_terminal_outcome<R: TRules, Pruner: TPruner, Filter: TFilterAllowedCards>(
    params: SMinReachablePayoutBase<Pruner>,
    rules: R,
    filter: Filter,
    hands: Seq<Seq<SCard>>,
    s: SStichSequenceView,
)
    requires
        s.wf(),
        s.game_finished(),
    ensures
        ({
            let an_payout = rules.spec_payout(
                s,
                params.spec_tpln_stoss_doubling(),
                params.spec_n_stock(),
                counts_of_sequence(s),
            );
            let minmax = spec_explore(params, rules, filter, hands, s);
            &&& minmax.t_min == an_payout
            &&& minmax.t_selfish_min == an_payout
            &&& minmax.t_selfish_max == an_payout
            &&& minmax.t_max == an_payout
        }),
{
}

proof fn lemma_forced_ordered<R: TRules, Pruner>(
    params: SMinReachablePayoutBase<Pruner>,
    rules: R,
    hands: Seq<Seq<SCard>>,
    s: SStichSequenceView,
)
    ensures
        bounds_ordered(spec_explore_forced(params, rules, hands, s), params.spec_epi()),
    decreases remaining_plays(s),
{
    if s.wf() && !s.game_finished() {
        lemma_remaining_plays(s);
        lemma_forced_ordered(params, rules, hands, spec_play(rules, s, hands[s.current_player().idx() as int][0]));
    }
}

/// For every position reachable in a consistent world, the fixed player's
/// payout under `min` is at most that under `selfish-min`, the one under
/// `selfish-max` at most that under `max`, and `min` at most `max`.
pub proof fn lemma_explore_bounds_ordered<R: TRules, Pruner: TPruner, Filter: TFilterAllowedCards>(
    params: SMinReachablePayoutBase<Pruner>,
    rules: R,
    filter: Filter,
    hands: Seq<Seq<SCard>>,
    s: SStichSequenceView,
)
    requires
        s.wf(),
        hands_consistent(hands, s),
    ensures
        bounds_ordered(spec_explore(params, rules, filter, hands, s), params.spec_epi()),
    decreases remaining_plays(s), 1nat, 0nat,
{
    if s.game_finished() {
    } else if all_hands_at_most_one(hands) {
        lemma_forced_ordered(params, rules, hands, s);
    } else {
        if Pruner::spec_consults_hints() {
            Pruner::lemma_pruned_ordered(
                params.spec_epi(),
                rules.spec_payouthints(
                    s,
                    hands,
                    counts_of_sequence(s),
                    params.spec_tpln_stoss_doubling(),
                    params.spec_n_stock(),
                ),
            );
        }
        if spec_node_pruned(params, rules, s, hands) is None {
            let epi = s.current_player();
            let p = epi.idx() as int;
            epi.lemma_idx_of_idx();
            lemma_offsets(s.current());
            lemma_of_idx(p as nat);
            assert(EPlayerIndex::of_idx(p as nat) == epi);
            assert(hands[p].len() >= 1);
            rules.lemma_all_allowed_cards(s, hands[p]);
            let allowed_unfiltered = rules.spec_all_allowed_cards(s, hands[p]);
            filter.lemma_filter(s, allowed_unfiltered);
            let allowed = filter.spec_filter(s, allowed_unfiltered);
            assert forall|j: int| 0 <= j < allowed.len() implies hands[p].contains(#[trigger] allowed[j]) by {
                assert(allowed_unfiltered.contains(allowed[j]));
            }
            lemma_children_ordered(params, rules, filter, hands, s, p, allowed, allowed.len());
            lemma_combine_all_ordered(
                spec_children(params, rules, filter, hands, s, p, allowed, allowed.len()),
                params.spec_epi(),
                epi,
            );
        }
    }
}

proof fn lemma_children_ordered<R: TRules, Pruner: TPruner, Filter: TFilterAllowedCards>(
    params: SMinReachablePayoutBase<Pruner>,
    rules: R,
    filter: Filter,
    hands: Seq<Seq<SCard>>,
    s: SStichSequenceView,
    p: int,
    allowed: Seq<SCard>,
    k: nat,
)
    requires
        s.wf(),
        !s.game_finished(),
        hands_consistent(hands, s),
        p == s.current_player().idx(),
        k <= allowed.len(),
        forall|j: int| 0 <= j < allowed.len() ==> hands[p].contains(#[trigger] allowed[j]),
    ensures
        spec_children(params, rules, filter, hands, s, p, allowed, k).len() == k,
        forall|j: int|
            0 <= j < k ==> bounds_ordered(
                #[trigger] spec_children(params, rules, filter, hands, s, p, allowed, k)[j],
                params.spec_epi(),
            ),
    decreases remaining_plays(s), 0nat, k,
{
    if k > 0 {
        lemma_children_ordered(params, rules, filter, hands, s, p, allowed, (k - 1) as nat);
        let card = allowed[k - 1];
        lemma_remaining_plays(s);
        lemma_hands_consistent_play(hands, s, card, rules.spec_winner_index(s.current_after(card)));
        lemma_explore_bounds_ordered(params, rules, filter, hands_after(hands, p, card), spec_play(rules, s, card));
        let prev = spec_children(params, rules, filter, hands, s, p, allowed, (k - 1) as nat);
        assert forall|j: int| 0 <= j < k implies bounds_ordered(
            #[trigger] spec_children(params, rules, filter, hands, s, p, allowed, k)[j],
            params.spec_epi(),
        ) by {
            if j < k - 1 {
                assert(spec_children(params, rules, filter, hands, s, p, allowed, k)[j] == prev[j]);
            }
        }
    }
}

/// `a` is at most `b` (`b_le`), or at least `b`.
pub open spec fn compares(a: isize, b: isize, b_le: bool) -> bool {
    if b_le {
        a <= b
    } else {
        a >= b
    }
}

/// Folding two rows of children, each child of the first comparing with the
/// matching child of the second under `min`, gives outcomes that compare so too.
pub proof fn lemma_combine_all_monotone(
    a: Seq<SMinMax>,
    b: Seq<SMinMax>,
    epi: EPlayerIndex,
    epi_card: EPlayerIndex,
    b_le: bool,
)
    requires
        a.len() == b.len(),
        a.len() > 0,
        forall|i: int|
            0 <= i < a.len() ==> compares(
                (#[trigger] a[i]).t_min@[epi.idx() as int],
                b[i].t_min@[epi.idx() as int],
                b_le,
            ),
    ensures
        compares(
            combine_all(a, epi, epi_card).t_min@[epi.idx() as int],
            combine_all(b, epi, epi_card).t_min@[epi.idx() as int],
            b_le,
        ),
{
    lemma_combine_all(a, epi, epi_card);
    lemma_combine_all(b, epi, epi_card);
    let ra = combine_all(a, epi, epi_card);
    let rb = combine_all(b, epi, epi_card);
    let ja = choose|j: int| 0 <= j < a.len() && ra.t_min == a[j].t_min;
    let jb = choose|j: int| 0 <= j < b.len() && rb.t_min == b[j].t_min;
    assert(compares(a[ja].t_min@[epi.idx() as int], b[ja].t_min@[epi.idx() as int], b_le));
    assert(compares(a[jb].t_min@[epi.idx() as int], b[jb].t_min@[epi.idx() as int], b_le));
}

proof fn lemma_forced_same_params<R: TRules, PrunerA, PrunerB>(
    params_a: SMinReachablePayoutBase<PrunerA>,
    params_b: SMinReachablePayoutBase<PrunerB>,
    rules: R,
    hands: Seq<Seq<SCard>>,
    s: SStichSequenceView,
)
    requires
        params_a.spec_tpln_stoss_doubling() == params_b.spec_tpln_stoss_doubling(),
        params_a.spec_n_stock() == params_b.spec_n_stock(),
    ensures
        spec_explore_forced(params_a, rules, hands, s) == spec_explore_forced(params_b, rules, hands, s),
    decreases remaining_plays(s),
{
    if s.wf() && !s.game_finished() {
        lemma_remaining_plays(s);
        lemma_forced_same_params(
            params_a,
            params_b,
            rules,
            hands,
            spec_play(rules, s, hands[s.current_player().idx() as int][0]),
        );
    }
}

/// Wherever the hints prune a position reachable in a consistent world,
/// their payout for the fixed player compares (`b_le`: is at most, else is
/// at least) with the exact search's `min` outcome there.
pub open spec fn hints_compare_with_exact<R: TRules, Filter: TFilterAllowedCards>(
    params_exact: SMinReachablePayoutBase<SPrunerNothing>,
    rules: R,
    filter: Filter,
    b_le: bool,
) -> bool {
    forall|hands: Seq<Seq<SCard>>, s: SStichSequenceView|
        s.wf() && !s.game_finished() && hands_consistent(hands, s) && !all_hands_at_most_one(hands) ==> {
            let f = params_exact.spec_epi().idx() as int;
            match #[trigger] spec_hint_output(
                rules.spec_payouthints(
                    s,
                    hands,
                    counts_of_sequence(s),
                    params_exact.spec_tpln_stoss_doubling(),
                    params_exact.spec_n_stock(),
                ),
                params_exact.spec_epi(),
            ) {
                Some(minmax) => compares(
                    minmax.t_min@[f],
                    spec_explore(params_exact, rules, filter, hands, s).t_min@[f],
                    b_le,
                ),
                None => true,
            }
        }
}

/// Pruning by hints moves the fixed player's `min` payout only in the
/// direction in which the hints deviate from the exact search where they
/// prune: with hints that are true lower bounds it never exceeds the exact
/// value; with hints that are never below the exact value it is never lower.
pub proof fn lemma_hint_pruning_compare<R: TRules, Filter: TFilterAllowedCards>(
    params_exact: SMinReachablePayoutBase<SPrunerNothing>,
    params_hint: SMinReachablePayoutBase<SPrunerViaHint>,
    rules: R,
    filter: Filter,
    hands: Seq<Seq<SCard>>,
    s: SStichSequenceView,
    b_le: bool,
)
    requires
        params_hint.spec_epi() == params_exact.spec_epi(),
        params_hint.spec_tpln_stoss_doubling() == params_exact.spec_tpln_stoss_doubling(),
        params_hint.spec_n_stock() == params_exact.spec_n_stock(),
        hints_compare_with_exact(params_exact, rules, filter, b_le),
        s.wf(),
        hands_consistent(hands, s),
    ensures
        compares(
            spec_explore(params_hint, rules, filter, hands, s).t_min@[params_exact.spec_epi().idx() as int],
            spec_explore(params_exact, rules, filter, hands, s).t_min@[params_exact.spec_epi().idx() as int],
            b_le,
        ),
    decreases remaining_plays(s), 1nat, 0nat,
{
    if s.game_finished() {
    } else if all_hands_at_most_one(hands) {
        lemma_forced_same_params(params_hint, params_exact, rules, hands, s);
    } else {
        let f = params_exact.spec_epi().idx() as int;
        let ohint = spec_hint_output(
            rules.spec_payouthints(
                s,
                hands,
                counts_of_sequence(s),
                params_exact.spec_tpln_stoss_doubling(),
                params_exact.spec_n_stock(),
            ),
            params_exact.spec_epi(),
        );
        if ohint is None {
            let epi = s.current_player();
            let p = epi.idx() as int;
            epi.lemma_idx_of_idx();
            lemma_offsets(s.current());
            lemma_of_idx(p as nat);
            assert(EPlayerIndex::of_idx(p as nat) == epi);
            assert(hands[p].len() >= 1);
            rules.lemma_all_allowed_cards(s, hands[p]);
            let allowed_unfiltered = rules.spec_all_allowed_cards(s, hands[p]);
            filter.lemma_filter(s, allowed_unfiltered);
            let allowed = filter.spec_filter(s, allowed_unfiltered);
            assert forall|j: int| 0 <= j < allowed.len() implies hands[p].contains(#[trigger] allowed[j]) by {
                assert(allowed_unfiltered.contains(allowed[j]));
            }
            lemma_children_compare(params_exact, params_hint, rules, filter, hands, s, p, allowed, allowed.len(), b_le);
            lemma_combine_all_monotone(
                spec_children(params_hint, rules, filter, hands, s, p, allowed, allowed.len()),
                spec_children(params_exact, rules, filter, hands, s, p, allowed, allowed.len()),
                params_exact.spec_epi(),
                epi,
                b_le,
            );
        }
    }
}

proof fn lemma_children_compare<R: TRules, Filter: TFilterAllowedCards>(
    params_exact: SMinReachablePayoutBase<SPrunerNothing>,
    params_hint: SMinReachablePayoutBase<SPrunerViaHint>,
    rules: R,
    filter: Filter,
    hands: Seq<Seq<SCard>>,
    s: SStichSequenceView,
    p: int,
    allowed: Seq<SCard>,
    k: nat,
    b_le: bool,
)
    requires
        params_hint.spec_epi() == params_exact.spec_epi(),
        params_hint.spec_tpln_stoss_doubling() == params_exact.spec_tpln_stoss_doubling(),
        params_hint.spec_n_stock() == params_exact.spec_n_stock(),
        hints_compare_with_exact(params_exact, rules, filter, b_le),
        s.wf(),
        !s.game_finished(),
        hands_consistent(hands, s),
        p == s.current_player().idx(),
        k <= allowed.len(),
        forall|j: int| 0 <= j < allowed.len() ==> hands[p].contains(#[trigger] allowed[j]),
    ensures
        spec_children(params_hint, rules, filter, hands, s, p, allowed, k).len() == k,
        spec_children(params_exact, rules, filter, hands, s, p, allowed, k).len() == k,
        forall|j: int|
            0 <= j < k ==> compares(
                (#[trigger] spec_children(params_hint, rules, filter, hands, s, p, allowed, k)[j]).t_min@[params_exact.spec_epi().idx() as int],
                spec_children(params_exact, rules, filter, hands, s, p, allowed, k)[j].t_min@[params_exact.spec_epi().idx() as int],
                b_le,
            ),
    decreases remaining_plays(s), 0nat, k,
{
    if k > 0 {
        lemma_children_compare(params_exact, params_hint, rules, filter, hands, s, p, allowed, (k - 1) as nat, b_le);
        let card = allowed[k - 1];
        lemma_remaining_plays(s);
        lemma_hands_consistent_play(hands, s, card, rules.spec_winner_index(s.current_after(card)));
        lemma_hint_pruning_compare(
            params_exact,
            params_hint,
            rules,
            filter,
            hands_after(hands, p, card),
            spec_play(rules, s, card),
            b_le,
        );
        let prev_hint = spec_children(params_hint, rules, filter, hands, s, p, allowed, (k - 1) as nat);
        let prev_exact = spec_children(params_exact, rules, filter, hands, s, p, allowed, (k - 1) as nat);
        assert forall|j: int| 0 <= j < k implies compares(
            (#[trigger] spec_children(params_hint, rules, filter, hands, s, p, allowed, k)[j]).t_min@[params_exact.spec_epi().idx() as int],
            spec_children(params_exact, rules, filter, hands, s, p, allowed, k)[j].t_min@[params_exact.spec_epi().idx() as int],
            b_le,
        ) by {
            if j < k - 1 {
                assert(spec_children(params_hint, rules, filter, hands, s, p, allowed, k)[j] == prev_hint[j]);
                assert(spec_children(params_exact, rules, filter, hands, s, p, allowed, k)[j] == prev_exact[j]);
            }
        }
    }
}

/// The outcome of the node `s` by plain recursion, without the shortcut for
/// positions in which nobody has a choice left.
pub open spec fn spec_explore_full<R: TRules, Pruner: TPruner, Filter: TFilterAllowedCards>(
    params: SMinReachablePayoutBase<Pruner>,
    rules: R,
    filter: Filter,
    hands: Seq<Seq<SCard>>,
    s: SStichSequenceView,
) -> SMinMax
    decreases remaining_plays(s), 1nat, 0nat,
{
    if !s.wf() || s.game_finished() {
        spec_final(params, rules, s)
    } else {
        match spec_node_pruned(params, rules, s, hands) {
            Some(minmax) => minmax,
            None => {
                let epi = s.current_player();
                let p = epi.idx() as int;
                let allowed = filter.spec_filter(s, rules.spec_all_allowed_cards(s, hands[p]));
                combine_all(
                    spec_children_full(params, rules, filter, hands, s, p, allowed, allowed.len()),
                    params.spec_epi(),
                    epi,
                )
            },
        }
    }
}

/// The outcomes, by plain recursion, of the first `k` cards of `allowed`.
pub open spec fn spec_children_full<R: TRules, Pruner: TPruner, Filter: TFilterAllowedCards>(
    params: SMinReachablePayoutBase<Pruner>,
    rules: R,
    filter: Filter,
    hands: Seq<Seq<SCard>>,
    s: SStichSequenceView,
    p: int,
    allowed: Seq<SCard>,
    k: nat,
) -> Seq<SMinMax>
    decreases remaining_plays(s), 0nat, k,
{
    if k == 0 || !s.wf() || s.game_finished() {
        Seq::empty()
    } else {
        proof {
            lemma_remaining_plays(s);
        }
        let card = allowed[k - 1];
        spec_children_full(params, rules, filter, hands, s, p, allowed, (k - 1) as nat).push(
            spec_explore_full(params, rules, filter, hands_after(hands, p, card), spec_play(rules, s, card)),
        )
    }
}

/// Folding children that all have one outcome gives that outcome.
proof fn lemma_combine_all_same(children: Seq<SMinMax>, minmax: SMinMax, epi: EPlayerIndex, epi_card: EPlayerIndex)
    requires
        children.len() > 0,
        forall|i: int| 0 <= i < children.len() ==> children[i] == minmax,
    ensures
        combine_all(children, epi, epi_card) == minmax,
    decreases children.len(),
{
    if children.len() > 1 {
        lemma_combine_all_same(children.drop_last(), minmax, epi, epi_card);
    }
}

/// The forced play-out reads a hand only while its owner is still to play
/// to the current trick.
proof fn lemma_forced_hands_agree<R: TRules, Pruner>(
    params: SMinReachablePayoutBase<Pruner>,
    rules: R,
    h1: Seq<Seq<SCard>>,
    h2: Seq<Seq<SCard>>,
    s: SStichSequenceView,
)
    requires
        s.wf(),
        !s.game_finished() ==> s.n_completed() + 1 == s.ekurzlang.spec_cards_per_player(),
        !s.game_finished() ==> forall|q: int|
            0 <= q < 4 && !s.current().has_played(EPlayerIndex::of_idx(q as nat)) ==> #[trigger] h1[q]
                == h2[q],
    ensures
        spec_explore_forced(params, rules, h1, s) == spec_explore_forced(params, rules, h2, s),
    decreases remaining_plays(s),
{
    if !s.game_finished() {
        lemma_remaining_plays(s);
        let c = s.current_player();
        let p = c.idx() as int;
        lemma_offsets(s.current());
        c.lemma_idx_of_idx();
        lemma_of_idx(p as nat);
        assert(h1[p] == h2[p]);
        let t = spec_play(rules, s, h1[p][0]);
        if !t.game_finished() {
            assert forall|q: int|
                0 <= q < 4 && !t.current().has_played(EPlayerIndex::of_idx(q as nat)) implies #[trigger] h1[q]
                == h2[q] by {
                assert(t.current().cards.len() == s.current().cards.len() + 1);
            }
        }
        lemma_forced_hands_agree(params, rules, h1, h2, t);
    }
}

/// When nobody holds more than one card, the forced play-out gives the same
/// outcome as the plain recursion through the remaining forced plays.
pub proof fn lemma_forced_equals_full<R: TRules, Filter: TFilterAllowedCards>(
    params: SMinReachablePayoutBase<SPrunerNothing>,
    rules: R,
    filter: Filter,
    hands: Seq<Seq<SCard>>,
    s: SStichSequenceView,
)
    requires
        s.wf(),
        hands_consistent(hands, s),
        all_hands_at_most_one(hands),
    ensures
        spec_explore_forced(params, rules, hands, s) == spec_explore_full(params, rules, filter, hands, s),
    decreases remaining_plays(s), 1nat, 0nat,
{
    if !s.game_finished() {
        let epi = s.current_player();
        let p = epi.idx() as int;
        epi.lemma_idx_of_idx();
        lemma_offsets(s.current());
        lemma_of_idx(p as nat);
        assert(EPlayerIndex::of_idx(p as nat) == epi);
        assert(hands[p].len() == 1);
        let card = hands[p][0];
        rules.lemma_all_allowed_cards(s, hands[p]);
        let allowed_unfiltered = rules.spec_all_allowed_cards(s, hands[p]);
        filter.lemma_filter(s, allowed_unfiltered);
        let allowed = filter.spec_filter(s, allowed_unfiltered);
        assert forall|j: int| 0 <= j < allowed.len() implies #[trigger] allowed[j] == card by {
            assert(allowed_unfiltered.contains(allowed[j]));
            let i = choose|i: int| 0 <= i < allowed_unfiltered.len() && allowed_unfiltered[i] == allowed[j];
            assert(hands[p].contains(allowed_unfiltered[i]));
        }
        let t = spec_play(rules, s, card);
        let hands2 = hands_after(hands, p, card);
        lemma_remaining_plays(s);
        assert(hands[p].contains(card));
        lemma_hands_consistent_play(hands, s, card, rules.spec_winner_index(s.current_after(card)));
        assert forall|q: int| 0 <= q < 4 implies #[trigger] hands2[q].len() <= 1 by {}
        lemma_forced_equals_full(params, rules, filter, hands2, t);
        // The forced play-out of `hands2` and of `hands` agree from `t` on.
        if !t.game_finished() {
            assert(t.n_completed() == s.n_completed());
            assert(s.n_completed() + 1 == s.ekurzlang.spec_cards_per_player()) by {
                assert(!s.current().has_played(epi));
            }
            assert forall|q: int|
                0 <= q < 4 && !t.current().has_played(EPlayerIndex::of_idx(q as nat)) implies #[trigger] hands2[q]
                == hands[q] by {
                lemma_of_idx(q as nat);
                if q == p {
                    assert(t.current().cards.len() == s.current().cards.len() + 1);
                    assert(t.current().has_played(epi));
                }
            }
        }
        assert(t.wf());
        lemma_forced_hands_agree(params, rules, hands2, hands, t);
        lemma_children_full_same(params, rules, filter, hands, s, p, allowed, allowed.len(), card);
        lemma_combine_all_same(
            spec_children_full(params, rules, filter, hands, s, p, allowed, allowed.len()),
            spec_explore_full(params, rules, filter, hands2, t),
            params.spec_epi(),
            epi,
        );
    }
}

proof fn lemma_children_full_same<R: TRules, Pruner: TPruner, Filter: TFilterAllowedCards>(
    params: SMinReachablePayoutBase<Pruner>,
    rules: R,
    filter: Filter,
    hands: Seq<Seq<SCard>>,
    s: SStichSequenceView,
    p: int,
    allowed: Seq<SCard>,
    k: nat,
    card: SCard,
)
    requires
        s.wf(),
        !s.game_finished(),
        k <= allowed.len(),
        forall|j: int| 0 <= j < allowed.len() ==> #[trigger] allowed[j] == card,
    ensures
        spec_children_full(params, rules, filter, hands, s, p, allowed, k).len() == k,
        forall|j: int|
            0 <= j < k ==> #[trigger] spec_children_full(params, rules, filter, hands, s, p, allowed, k)[j]
                == spec_explore_full(params, rules, filter, hands_after(hands, p, card), spec_play(rules, s, card)),
    decreases k,
{
    if k > 0 {
        lemma_children_full_same(params, rules, filter, hands, s, p, allowed, (k - 1) as nat, card);
        let prev = spec_children_full(params, rules, filter, hands, s, p, allowed, (k - 1) as nat);
        assert forall|j: int| 0 <= j < k implies #[trigger] spec_children_full(
            params,
            rules,
            filter,
            hands,
            s,
            p,
            allowed,
            k,
        )[j] == spec_explore_full(params, rules, filter, hands_after(hands, p, card), spec_play(rules, s, card)) by {
            if j < k - 1 {
                assert(spec_children_full(params, rules, filter, hands, s, p, allowed, k)[j] == prev[j]);
            }
        }
    }
}

/// Card plays left before the deal is finished.
pub open spec fn remaining_plays(s: SStichSequenceView) -> nat {
    if s.count_played_cards() <= 4 * s.ekurzlang.spec_cards_per_player() {
        (4 * s.ekurzlang.spec_cards_per_player() - s.count_played_cards()) as nat
    } else {
        0
    }
}

pub proof fn lemma_remaining_plays(s: SStichSequenceView)
    requires
        s.wf(),
        !s.game_finished(),
    ensures
        forall|card: SCard, epi_winner: EPlayerIndex|
            remaining_plays(#[trigger] s.zugeben(card, epi_winner)) < remaining_plays(s),
        forall|card: SCard, epi_winner: EPlayerIndex| (#[trigger] s.zugeben(card, epi_winner)).wf(),
{
    assert forall|card: SCard, epi_winner: EPlayerIndex|
        remaining_plays(#[trigger] s.zugeben(card, epi_winner)) < remaining_plays(s)
            && s.zugeben(card, epi_winner).wf() by {
        lemma_zugeben_undo(s, card, epi_winner);
    }
}

/// Each hand holds distinct cards, one per trick still to come, less the card
/// its owner has already played to the current trick.
pub open spec fn hands_consistent(hands: Seq<Seq<SCard>>, s: SStichSequenceView) -> bool {
    &&& hands.len() == 4
    &&& forall|q: int| 0 <= q < 4 ==> (#[trigger] hands[q]).no_duplicates()
    &&& forall|q: int|
        0 <= q < 4 ==> #[trigger] hands[q].len() + (if s.current().has_played(
            EPlayerIndex::of_idx(q as nat),
        ) {
            1int
        } else {
            0int
        }) == s.ekurzlang.spec_cards_per_player() - s.n_completed()
}

pub open spec fn all_hands_at_most_one(hands: Seq<Seq<SCard>>) -> bool {
    forall|q: int| 0 <= q < 4 ==> #[trigger] hands[q].len() <= 1
}

/// The hands after player `p` played `card`.
pub open spec fn hands_after(hands: Seq<Seq<SCard>>, p: int, card: SCard) -> Seq<Seq<SCard>> {
    hands.update(p, hands[p].remove(first_index(hands[p], card)))
}

/// The ledger after `card` is played, the rules deciding who wins a full trick.
pub open spec fn spec_play<R: TRules>(rules: R, s: SStichSequenceView, card: SCard) -> SStichSequenceView {
    s.zugeben(card, rules.spec_winner_index(s.current_after(card)))
}

/// The outcome of the finished deal `s`.
pub open spec fn spec_final<R: TRules, Pruner>(
    params: SMinReachablePayoutBase<Pruner>,
    rules: R,
    s: SStichSequenceView,
) -> SMinMax {
    spec_new_final(
        rules.spec_payout(
            s,
            params.spec_tpln_stoss_doubling(),
            params.spec_n_stock(),
            counts_of_sequence(s),
        ),
    )
}

/// The outcome when no choice is left: each player in turn plays the first
/// card of their hand until the deal is finished.
pub open spec fn spec_explore_forced<R: TRules, Pruner>(
    params: SMinReachablePayoutBase<Pruner>,
    rules: R,
    hands: Seq<Seq<SCard>>,
    s: SStichSequenceView,
) -> SMinMax
    decreases remaining_plays(s),
{
    if s.wf() && !s.game_finished() {
        proof {
            lemma_remaining_plays(s);
        }
        spec_explore_forced(
            params,
            rules,
            hands,
            spec_play(rules, s, hands[s.current_player().idx() as int][0]),
        )
    } else {
        spec_final(params, rules, s)
    }
}

/// The outcomes of the first `k` cards of `allowed`, played by player `p`
/// at the node `s`.
pub open spec fn spec_children<R: TRules, Pruner: TPruner, Filter: TFilterAllowedCards>(
    params: SMinReachablePayoutBase<Pruner>,
    rules: R,
    filter: Filter,
    hands: Seq<Seq<SCard>>,
    s: SStichSequenceView,
    p: int,
    allowed: Seq<SCard>,
    k: nat,
) -> Seq<SMinMax>
    decreases remaining_plays(s), 0nat, k,
{
    if k == 0 || !s.wf() || s.game_finished() {
        Seq::empty()
    } else {
        proof {
            lemma_remaining_plays(s);
        }
        let card = allowed[k - 1];
        spec_children(params, rules, filter, hands, s, p, allowed, (k - 1) as nat).push(
            spec_explore(params, rules, filter, hands_after(hands, p, card), spec_play(rules, s, card)),
        )
    }
}

/// The outcome of the node `s` with the world `hands`: final at the end of
/// the deal, forced when no hand holds two cards, as pruned where the pruner
/// decides, and otherwise folded from one child per filtered allowed card.
pub open spec fn spec_explore<R: TRules, Pruner: TPruner, Filter: TFilterAllowedCards>(
    params: SMinReachablePayoutBase<Pruner>,
    rules: R,
    filter: Filter,
    hands: Seq<Seq<SCard>>,
    s: SStichSequenceView,
) -> SMinMax
    decreases remaining_plays(s), 1nat, 0nat,
{
    if !s.wf() || s.game_finished() {
        spec_final(params, rules, s)
    } else if all_hands_at_most_one(hands) {
        spec_explore_forced(params, rules, hands, s)
    } else {
        match spec_node_pruned(params, rules, s, hands) {
            Some(minmax) => minmax,
            None => {
                let epi = s.current_player();
                let p = epi.idx() as int;
                let allowed = filter.spec_filter(s, rules.spec_all_allowed_cards(s, hands[p]));
                combine_all(
                    spec_children(params, rules, filter, hands, s, p, allowed, allowed.len()),
                    params.spec_epi(),
                    epi,
                )
            },
        }
    }
}

proof fn lemma_of_idx(n: nat)
    ensures
        EPlayerIndex::of_idx(n).idx() == n % 4,
{
}

/// The player to move is the one whose offset is the trick's length; no
/// other player has that offset.
proof fn lemma_offsets(t: SStichView)
    requires
        t.cards.len() < 4,
    ensures
        forall|q: EPlayerIndex| #[trigger] t.offset_of(q) < 4,
        forall|q: EPlayerIndex|
            #[trigger] t.offset_of(q) == t.cards.len() <==> q == t.player_at(t.cards.len()),
{
    lemma_of_idx(t.epi_first.idx() + t.cards.len());
    assert forall|q: EPlayerIndex|
        #[trigger] t.offset_of(q) == t.cards.len() <==> q == t.player_at(t.cards.len()) by {
        q.lemma_idx_of_idx();
        t.player_at(t.cards.len()).lemma_idx_of_idx();
        t.epi_first.lemma_idx_of_idx();
    }
}

/// Playing a card of the player to move keeps the hands consistent with the ledger.
proof fn lemma_hands_consistent_play(
    hands: Seq<Seq<SCard>>,
    s: SStichSequenceView,
    card: SCard,
    epi_winner: EPlayerIndex,
)
    requires
        s.wf(),
        !s.game_finished(),
        hands_consistent(hands, s),
        hands[s.current_player().idx() as int].contains(card),
    ensures
        hands_consistent(hands_after(hands, s.current_player().idx() as int, card), s.zugeben(card, epi_winner)),
{
    let t = s.zugeben(card, epi_winner);
    let c = s.current_player();
    let p = c.idx() as int;
    let h2 = hands_after(hands, p, card);
    lemma_first_index_in_range(hands[p], card);
    assert forall|q: int| 0 <= q < 4 implies (#[trigger] h2[q]).no_duplicates() by {
        if q == p {
            let i = first_index(hands[p], card);
            let r = hands[p].remove(i);
            assert forall|a: int, b: int| 0 <= a < r.len() && 0 <= b < r.len() && a != b implies r[a] != r[b] by {
                let a2 = if a < i { a } else { a + 1 };
                let b2 = if b < i { b } else { b + 1 };
                assert(r[a] == hands[p][a2]);
                assert(r[b] == hands[p][b2]);
            }
        }
    }
    lemma_offsets(s.current());
    c.lemma_idx_of_idx();
    assert forall|q: int| 0 <= q < 4 implies #[trigger] h2[q].len() + (if t.current().has_played(
        EPlayerIndex::of_idx(q as nat),
    ) {
        1int
    } else {
        0int
    }) == t.ekurzlang.spec_cards_per_player() - t.n_completed() by {
        let eq = EPlayerIndex::of_idx(q as nat);
        lemma_of_idx(q as nat);
        assert(eq.idx() == q);
        assert(s.current().offset_of(eq) < 4);
        if q == p {
            assert(eq == c);
        } else {
            assert(eq != c);
        }
    }
}

/// At a forced position, the deal ends with the current trick, and everyone
/// still to play to it holds a card.
pub open spec fn forced_ready(hands: Seq<Seq<SCard>>, s: SStichSequenceView) -> bool {
    &&& hands.len() == 4
    &&& !s.game_finished() ==> {
        &&& s.n_completed() + 1 == s.ekurzlang.spec_cards_per_player()
        &&& forall|q: int|
            0 <= q < 4 && !s.current().has_played(EPlayerIndex::of_idx(q as nat)) ==> #[trigger] hands[q].len()
                >= 1
    }
}

pub proof fn lemma_counts_of_sequence_bound(s: SStichSequenceView)
    requires
        s.wf(),
    ensures
        counts_of_sequence(s).len() == 4,
        forall|q: int| 0 <= q < 4 ==> (#[trigger] counts_of_sequence(s)[q]).0 <= 8,
        forall|q: int| 0 <= q < 4 ==> (#[trigger] counts_of_sequence(s)[q]).1 <= 352,
{
    lemma_counts_bound(s.stichs, s.n_completed());
}

/// Plays `card` for the player to move, registers a trick that this completes,
/// and keeps the statistics in step with the ledger.
fn play_and_register<R: TRules>(
    rules: &R,
    rulestatecache: &mut SRuleStateCache,
    stichseq: &mut SStichSequence,
    card: SCard,
) -> (r: Option<crate::rulestatecache::SUnregisterStich>)
    requires
        old(stichseq)@.wf(),
        !old(stichseq)@.game_finished(),
        old(rulestatecache)@ == counts_of_sequence(old(stichseq)@),
    ensures
        final(stichseq)@ == spec_play(*rules, old(stichseq)@, card),
        final(stichseq)@.wf(),
        final(rulestatecache)@ == counts_of_sequence(final(stichseq)@),
        r is Some <==> old(stichseq)@.current_after(card).is_full(),
        r matches Some(u) ==> {
            &&& u.epi() == rules.spec_winner_index(old(stichseq)@.current_after(card))
            &&& u.points() == crate::rulestatecache::stich_points(old(stichseq)@.current_after(card).cards)
        },
{
    let ghost s = stichseq@;
    let ghost w = rules.spec_winner_index(s.current_after(card));
    proof {
        lemma_counts_zugeben(s, card, w);
        lemma_counts_of_sequence_bound(s);
        w.lemma_idx_of_idx();
    }
    stichseq.zugeben(card, rules);
    if stichseq.current_stich().is_empty() {
        let epi_winner = stichseq.current_stich().first_playerindex();
        let stich = stichseq.last_completed_stich();
        let unregisterstich = rulestatecache.register_stich(stich, epi_winner);
        Some(unregisterstich)
    } else {
        None
    }
}

/// Takes back what `play_and_register` did.
fn undo_play<R: TRules>(
    rules: &R,
    rulestatecache: &mut SRuleStateCache,
    stichseq: &mut SStichSequence,
    card: SCard,
    ounregisterstich: Option<crate::rulestatecache::SUnregisterStich>,
    Ghost(s): Ghost<SStichSequenceView>,
    Ghost(counts): Ghost<Seq<(nat, nat)>>,
)
    requires
        s.wf(),
        !s.game_finished(),
        counts == counts_of_sequence(s),
        old(stichseq)@ == spec_play(*rules, s, card),
        old(rulestatecache)@ == counts_of_sequence(old(stichseq)@),
        ounregisterstich is Some <==> s.current_after(card).is_full(),
        ounregisterstich matches Some(u) ==> {
            &&& u.epi() == rules.spec_winner_index(s.current_after(card))
            &&& u.points() == crate::rulestatecache::stich_points(s.current_after(card).cards)
        },
    ensures
        final(stichseq)@ == s,
        final(rulestatecache)@ == counts,
{
    let ghost w = rules.spec_winner_index(s.current_after(card));
    proof {
        lemma_counts_zugeben(s, card, w);
        lemma_zugeben_undo(s, card, w);
        lemma_counts_of_sequence_bound(s);
        w.lemma_idx_of_idx();
    }
    match ounregisterstich {
        Some(unregisterstich) => {
            proof {
                lemma_register_unregister(counts, w, s.current_after(card).cards);
            }
            rulestatecache.unregister_stich(unregisterstich);
        },
        None => {},
    }
    stichseq.undo_most_recent();
}

/// Plays out a position in which nobody has a choice left.
fn explore_forced<R: TRules, Pruner>(
    ahand: &Vec<SHand>,
    rules: &R,
    rulestatecache: &mut SRuleStateCache,
    stichseq: &mut SStichSequence,
    foreachsnapshot: &SMinReachablePayoutBase<Pruner>,
) -> (r: SMinMax)
    requires
        old(stichseq)@.wf(),
        old(rulestatecache)@ == counts_of_sequence(old(stichseq)@),
        forced_ready(hands_view(ahand@), old(stichseq)@),
    ensures
        r == spec_explore_forced(*foreachsnapshot, *rules, hands_view(ahand@), old(stichseq)@),
        bounds_ordered(r, foreachsnapshot.spec_epi()),
        final(stichseq)@ == old(stichseq)@,
        final(rulestatecache)@ == old(rulestatecache)@,
    decreases remaining_plays(old(stichseq)@),
{
    if stichseq.game_finished() {
        return foreachsnapshot.final_output(rules, stichseq, rulestatecache);
    }
    let ghost s = stichseq@;
    let ghost counts = rulestatecache@;
    let ghost hands = hands_view(ahand@);
    let epi = match stichseq.current_stich().current_playerindex() {
        Some(epi) => epi,
        None => {
            proof {
                assert(false);
            }
            return foreachsnapshot.final_output(rules, stichseq, rulestatecache);
        },
    };
    let p = epi.to_usize();
    proof {
        lemma_offsets(s.current());
        lemma_of_idx(p as nat);
        epi.lemma_idx_of_idx();
        assert(EPlayerIndex::of_idx(p as nat) == epi);
        assert(hands[p as int] == ahand@[p as int]@);
    }
    let card = ahand[p].card_at(0);
    let ounregisterstich = play_and_register(rules, rulestatecache, stichseq, card);
    proof {
        lemma_remaining_plays(s);
        let t = stichseq@;
        lemma_offsets(s.current());
        if !t.game_finished() {
            assert(!s.current_after(card).is_full());
            assert forall|q: int|
                0 <= q < 4 && !t.current().has_played(EPlayerIndex::of_idx(q as nat)) implies #[trigger] hands[q].len()
                >= 1 by {
                assert(t.current().cards.len() == s.current().cards.len() + 1);
            }
        }
    }
    let output = explore_forced(ahand, rules, rulestatecache, stichseq, foreachsnapshot);
    undo_play(rules, rulestatecache, stichseq, card, ounregisterstich, Ghost(s), Ghost(counts));
    output
}

fn hands_at_most_one(ahand: &Vec<SHand>) -> (r: bool)
    requires
        ahand@.len() == 4,
    ensures
        r == all_hands_at_most_one(hands_view(ahand@)),
{
    let mut q: usize = 0;
    while q < 4
        invariant
            ahand@.len() == 4,
            q <= 4,
            forall|j: int| 0 <= j < q ==> #[trigger] hands_view(ahand@)[j].len() <= 1,
        decreases 4 - q,
    {
        if ahand[q].len() > 1 {
            assert(hands_view(ahand@)[q as int] == ahand@[q as int]@);
            return false;
        }
        q = q + 1;
    }
    true
}

/// The outcome of the node at which `stichseq` stands, with the world `ahand`;
/// the world, the ledger and the statistics are restored before returning.
fn explore_snapshots_internal<R: TRules, Pruner: TPruner, Filter: TFilterAllowedCards, Visualizer: TSnapshotVisualizer>(
    ahand: &mut Vec<SHand>,
    rules: &R,
    rulestatecache: &mut SRuleStateCache,
    stichseq: &mut SStichSequence,
    func_filter_allowed_cards: &Filter,
    foreachsnapshot: &SMinReachablePayoutBase<Pruner>,
    snapshotvisualizer: &mut Visualizer,
) -> (r: SMinMax)
    requires
        old(stichseq)@.wf(),
        hands_consistent(hands_view(old(ahand)@), old(stichseq)@),
        old(rulestatecache)@ == counts_of_sequence(old(stichseq)@),
    ensures
        r == spec_explore(
            *foreachsnapshot,
            *rules,
            *func_filter_allowed_cards,
            hands_view(old(ahand)@),
            old(stichseq)@,
        ),
        bounds_ordered(r, foreachsnapshot.spec_epi()),
        hands_view(final(ahand)@) == hands_view(old(ahand)@),
        final(ahand)@.len() == 4,
        final(stichseq)@ == old(stichseq)@,
        final(rulestatecache)@ == old(rulestatecache)@,
        final(rulestatecache)@ == counts_of_sequence(final(stichseq)@),
    decreases remaining_plays(old(stichseq)@),
{
    snapshotvisualizer.begin_snapshot(stichseq, ahand);
    let ghost s = stichseq@;
    let ghost counts = rulestatecache@;
    let ghost hands = hands_view(ahand@);
    let output = if stichseq.game_finished() {
        foreachsnapshot.final_output(rules, stichseq, rulestatecache)
    } else if hands_at_most_one(ahand) {
        proof {
            lemma_offsets(s.current());
            assert forall|q: int|
                0 <= q < 4 && !s.current().has_played(EPlayerIndex::of_idx(q as nat)) implies #[trigger] hands[q].len()
                >= 1 by {
                assert(s.ekurzlang.spec_cards_per_player() - s.n_completed() >= 1);
            }
            if s.n_completed() + 1 != s.ekurzlang.spec_cards_per_player() {
                let c = s.current_player();
                c.lemma_idx_of_idx();
                lemma_of_idx(c.idx());
                assert(hands[c.idx() as int].len() <= 1);
                assert(!s.current().has_played(EPlayerIndex::of_idx(c.idx())));
            }
        }
        explore_forced(ahand, rules, rulestatecache, stichseq, foreachsnapshot)
    } else {
        match foreachsnapshot.pruned_output(rules, stichseq, ahand, rulestatecache) {
            Some(minmax) => minmax,
            None => {
                let epi = match stichseq.current_stich().current_playerindex() {
                    Some(epi) => epi,
                    None => {
                        proof {
                            assert(false);
                        }
                        EPlayerIndex::EPI0
                    },
                };
                let p = epi.to_usize();
                proof {
                    epi.lemma_idx_of_idx();
                    assert(hands[p as int] == ahand@[p as int]@);
                    lemma_offsets(s.current());
                    lemma_of_idx(p as nat);
                    assert(EPlayerIndex::of_idx(p as nat) == epi);
                    assert(hands[p as int].len() >= 1);
                }
                let mut veccard_allowed = rules.all_allowed_cards(stichseq, &ahand[p]);
                proof {
                    rules.lemma_all_allowed_cards(s, hands[p as int]);
                    func_filter_allowed_cards.lemma_filter(s, veccard_allowed@);
                }
                func_filter_allowed_cards.filter_allowed_cards(stichseq, &mut veccard_allowed);
                let ghost allowed = veccard_allowed@;
                let mut vecminmax: Vec<SMinMax> = Vec::new();
                let mut i: usize = 0;
                while i < veccard_allowed.len()
                    invariant
                        s == old(stichseq)@,
                        hands == hands_view(old(ahand)@),
                        counts == old(rulestatecache)@,
                        spec_node_pruned(*foreachsnapshot, *rules, s, hands) is None,
                        !all_hands_at_most_one(hands),
                        epi == s.current_player(),
                        s.wf(),
                        !s.game_finished(),
                        hands_consistent(hands, s),
                        counts == counts_of_sequence(s),
                        p == s.current_player().idx(),
                        p < 4,
                        veccard_allowed@ == allowed,
                        allowed.len() > 0,
                        forall|j: int| 0 <= j < allowed.len() ==> hands[p as int].contains(#[trigger] allowed[j]),
                        i <= allowed.len(),
                        ahand@.len() == 4,
                        hands_view(ahand@) == hands,
                        stichseq@ == s,
                        rulestatecache@ == counts,
                        vecminmax@ == spec_children(
                            *foreachsnapshot,
                            *rules,
                            *func_filter_allowed_cards,
                            hands,
                            s,
                            p as int,
                            allowed,
                            i as nat,
                        ),
                        vecminmax@.len() == i,
                        forall|j: int| 0 <= j < i ==> bounds_ordered(#[trigger] vecminmax@[j], foreachsnapshot.spec_epi()),
                    decreases allowed.len() - i,
                {
                    let card = veccard_allowed[i];
                    proof {
                        assert(hands[p as int].contains(allowed[i as int]));
                        assert(hands[p as int] == ahand@[p as int]@);
                        lemma_hands_consistent_play(
                            hands,
                            s,
                            card,
                            rules.spec_winner_index(s.current_after(card)),
                        );
                        lemma_remaining_plays(s);
                    }
                    let i_hand = ahand[p].index_of(card);
                    let n_hand = ahand[p].len();
                    let _ = ahand[p].play_card_at(i_hand);
                    let ounregisterstich = play_and_register(rules, rulestatecache, stichseq, card);
                    proof {
                        assert(hands_view(ahand@) =~= hands_after(hands, p as int, card));
                    }
                    let output = explore_snapshots_internal(
                        ahand,
                        rules,
                        rulestatecache,
                        stichseq,
                        func_filter_allowed_cards,
                        foreachsnapshot,
                        snapshotvisualizer,
                    );
                    undo_play(rules, rulestatecache, stichseq, card, ounregisterstich, Ghost(s), Ghost(counts));
                    proof {
                        assert(ahand@[p as int]@ == hands_view(ahand@)[p as int]);
                        assert(hands_after(hands, p as int, card)[p as int] == hands[p as int].remove(i_hand as int));
                    }
                    let ghost before = ahand@;
                    ahand[p].add_card_at(i_hand, card);
                    proof {
                        assert(hands[p as int].remove(i_hand as int).insert(i_hand as int, card) =~= hands[p as int]);
                        assert forall|q: int| 0 <= q < 4 implies #[trigger] hands_view(ahand@)[q] == hands[q] by {
                            if q != p {
                                assert(hands_view(before)[q] == hands_after(hands, p as int, card)[q]);
                            }
                        }
                        assert(hands_view(ahand@) =~= hands);
                    }
                    vecminmax.push(output);
                    i = i + 1;
                }
                proof {
                    lemma_combine_all_ordered(vecminmax@, foreachsnapshot.spec_epi(), epi);
                }
                foreachsnapshot.combine_outputs(epi, vecminmax)
            },
        }
    };
    snapshotvisualizer.end_snapshot(&output);
    output
}

/// The outcome, for the fixed player of `foreachsnapshot`, of the position at
/// which `stichseq` stands with the world `ahand`. The world and the ledger
/// are the same on return as on entry.
pub fn explore_snapshots<R: TRules, Pruner: TPruner, Filter: TFilterAllowedCards, Visualizer: TSnapshotVisualizer>(
    ahand: &mut Vec<SHand>,
    rules: &R,
    stichseq: &mut SStichSequence,
    func_filter_allowed_cards: &Filter,
    foreachsnapshot: &SMinReachablePayoutBase<Pruner>,
    snapshotvisualizer: &mut Visualizer,
) -> (r: SMinMax)
    requires
        old(stichseq)@.wf(),
        hands_consistent(hands_view(old(ahand)@), old(stichseq)@),
    ensures
        r == spec_explore(
            *foreachsnapshot,
            *rules,
            *func_filter_allowed_cards,
            hands_view(old(ahand)@),
            old(stichseq)@,
        ),
        old(stichseq)@.game_finished() ==> r == spec_final(*foreachsnapshot, *rules, old(stichseq)@),
        bounds_ordered(r, foreachsnapshot.spec_epi()),
        hands_view(final(ahand)@) == hands_view(old(ahand)@),
        final(stichseq)@ == old(stichseq)@,
{
    let mut rulestatecache = SRuleStateCache::new(stichseq);
    explore_snapshots_internal(
        ahand,
        rules,
        &mut rulestatecache,
        stichseq,
        func_filter_allowed_cards,
        foreachsnapshot,
        snapshotvisualizer,
    )
}

} // verus!
