use openschafkopf::hand::SHand;
use openschafkopf::primitives::{EFarbe, EKurzLang, EPlayerIndex, ESchlag, SCard};
use openschafkopf::rules::TRules;
use openschafkopf::rulesrufspiel::{SPayoutDeciderParams, SRulesRufspiel};
use openschafkopf::rulestatecache::SRuleStateCache;
use openschafkopf::stichseq::SStichSequence;
use openschafkopf::suspicion::{
    explore_snapshots, SMinMax, SMinReachablePayout, SMinReachablePayoutLowerBoundViaHint,
    SNoFilter, SNoVisualization, SPerMinMaxStrategy, TSnapshotVisualizer,
};

fn card(efarbe: EFarbe, eschlag: ESchlag) -> SCard {
    SCard::new(efarbe, eschlag)
}

fn rules_rufspiel() -> SRulesRufspiel {
    SRulesRufspiel::new(EPlayerIndex::EPI1, EFarbe::Gras, SPayoutDeciderParams::new(20, 10))
}

/// A deal in which EPI1 calls the ace of Gras, held by EPI2; EPI2 leads.
fn deal() -> Vec<SHand> {
    vec![
        SHand::new_from_iter(vec![card(EFarbe::Herz, ESchlag::S8), card(EFarbe::Schelln, ESchlag::Unter), card(EFarbe::Gras, ESchlag::S7), card(EFarbe::Schelln, ESchlag::S7), card(EFarbe::Gras, ESchlag::Unter), card(EFarbe::Eichel, ESchlag::Ober), card(EFarbe::Gras, ESchlag::Koenig), card(EFarbe::Schelln, ESchlag::S9)]),
        SHand::new_from_iter(vec![card(EFarbe::Eichel, ESchlag::Unter), card(EFarbe::Herz, ESchlag::S7), card(EFarbe::Gras, ESchlag::S8), card(EFarbe::Schelln, ESchlag::Ass), card(EFarbe::Herz, ESchlag::Ober), card(EFarbe::Schelln, ESchlag::Zehn), card(EFarbe::Herz, ESchlag::Koenig), card(EFarbe::Herz, ESchlag::Zehn)]),
        SHand::new_from_iter(vec![card(EFarbe::Herz, ESchlag::S9), card(EFarbe::Eichel, ESchlag::S7), card(EFarbe::Gras, ESchlag::Ass), card(EFarbe::Gras, ESchlag::Zehn), card(EFarbe::Gras, ESchlag::S9), card(EFarbe::Eichel, ESchlag::S9), card(EFarbe::Eichel, ESchlag::Koenig), card(EFarbe::Eichel, ESchlag::Ass)]),
        SHand::new_from_iter(vec![card(EFarbe::Herz, ESchlag::Unter), card(EFarbe::Herz, ESchlag::Ass), card(EFarbe::Schelln, ESchlag::Ober), card(EFarbe::Schelln, ESchlag::S8), card(EFarbe::Gras, ESchlag::Ober), card(EFarbe::Eichel, ESchlag::S8), card(EFarbe::Schelln, ESchlag::Koenig), card(EFarbe::Eichel, ESchlag::Zehn)]),
    ]
}

fn new_stichseq() -> SStichSequence {
    SStichSequence::new(EPlayerIndex::EPI2, EKurzLang::Lang)
}

/// The player to move plays the first card the rules allow, `n_cards` times.
fn play_first_allowed(ahand: &mut Vec<SHand>, stichseq: &mut SStichSequence, rules: &SRulesRufspiel, n_cards: usize) {
    for _ in 0..n_cards {
        let epi = stichseq.current_stich().current_playerindex().unwrap();
        let veccard = TRules::all_allowed_cards(rules, stichseq, &ahand[epi.to_usize()]);
        let card = veccard[0];
        let i = ahand[epi.to_usize()].index_of(card);
        ahand[epi.to_usize()].play_card_at(i);
        stichseq.zugeben(card, rules);
    }
}

fn hand_cards(ahand: &Vec<SHand>) -> Vec<Vec<SCard>> {
    ahand.iter().map(|hand| hand.cards().iter().copied().collect()).collect()
}

fn ledger_cards(stichseq: &SStichSequence) -> Vec<(EPlayerIndex, Vec<SCard>)> {
    let mut vec = Vec::new();
    for stich in stichseq.completed_stichs() {
        vec.push((stich.first_playerindex(), (0..stich.size()).map(|i| stich.card_at(i)).collect()));
    }
    let stich = stichseq.current_stich();
    vec.push((stich.first_playerindex(), (0..stich.size()).map(|i| stich.card_at(i)).collect()));
    vec
}

fn payouts(minmax: &SMinMax) -> [[isize; 4]; 4] {
    [minmax.t_min, minmax.t_selfish_min, minmax.t_selfish_max, minmax.t_max]
}

struct SCountingVisualizer {
    n_begin: usize,
    n_end: usize,
}

impl TSnapshotVisualizer for SCountingVisualizer {
    fn begin_snapshot(&mut self, _stichseq: &SStichSequence, _ahand: &Vec<SHand>) {
        self.n_begin += 1;
    }

    fn end_snapshot(&mut self, _output: &SMinMax) {
        self.n_end += 1;
    }
}

#[test]
fn forced_finish_matches_played_out_deal() {
    let rules = rules_rufspiel();
    let mut ahand = deal();
    let mut stichseq = new_stichseq();
    play_first_allowed(&mut ahand, &mut stichseq, &rules, 28);
    assert!(ahand.iter().all(|hand| hand.len() == 1));
    let minmax = explore_snapshots(
        &mut ahand,
        &rules,
        &mut stichseq,
        &SNoFilter,
        &SMinReachablePayout::new(EPlayerIndex::EPI1, (0, 0), 0),
        &mut SNoVisualization,
    );
    // Playing the last four forced cards by hand gives the same outcome.
    let mut stichseq_played = new_stichseq();
    let mut ahand_full = deal();
    play_first_allowed(&mut ahand_full, &mut stichseq_played, &rules, 32);
    assert!(stichseq_played.game_finished());
    let an_payout = rules.payout_with_cache(&stichseq_played, (0, 0), 0, &SRuleStateCache::new(&stichseq_played));
    assert_eq!(an_payout.iter().sum::<isize>(), 0);
    assert!(an_payout.iter().all(|n_payout| *n_payout != 0));
    assert_eq!(minmax, SPerMinMaxStrategy::new_final(an_payout));
}

#[test]
fn terminal_outcome_is_the_payout() {
    let rules = rules_rufspiel();
    let mut ahand = deal();
    let mut stichseq = new_stichseq();
    play_first_allowed(&mut ahand, &mut stichseq, &rules, 32);
    assert!(stichseq.game_finished());
    let an_payout = rules.payout_with_cache(&stichseq, (1, 1), 0, &SRuleStateCache::new(&stichseq));
    let minmax = explore_snapshots(
        &mut ahand,
        &rules,
        &mut stichseq,
        &SNoFilter,
        &SMinReachablePayout::new(EPlayerIndex::EPI2, (1, 1), 0),
        &mut SNoVisualization,
    );
    assert_eq!(payouts(&minmax), [an_payout; 4]);
    // One raise and one doubling quadruple the stake.
    let an_plain = rules.payout_with_cache(&stichseq, (0, 0), 0, &SRuleStateCache::new(&stichseq));
    for i in 0..4 {
        assert_eq!(an_payout[i], 4 * an_plain[i]);
    }
}

#[test]
fn exploration_restores_world_and_ledger() {
    let rules = rules_rufspiel();
    let mut ahand = deal();
    let mut stichseq = new_stichseq();
    play_first_allowed(&mut ahand, &mut stichseq, &rules, 21);
    let vecveccard_before = hand_cards(&ahand);
    let ledger_before = ledger_cards(&stichseq);
    let mut visualizer = SCountingVisualizer { n_begin: 0, n_end: 0 };
    let minmax = explore_snapshots(
        &mut ahand,
        &rules,
        &mut stichseq,
        &SNoFilter,
        &SMinReachablePayout::new(EPlayerIndex::EPI0, (0, 0), 0),
        &mut visualizer,
    );
    assert_eq!(hand_cards(&ahand), vecveccard_before);
    assert_eq!(ledger_cards(&stichseq), ledger_before);
    assert!(visualizer.n_begin > 1);
    assert_eq!(visualizer.n_begin, visualizer.n_end);
    let minmax_again = explore_snapshots(
        &mut ahand,
        &rules,
        &mut stichseq,
        &SNoFilter,
        &SMinReachablePayout::new(EPlayerIndex::EPI0, (0, 0), 0),
        &mut SNoVisualization,
    );
    assert_eq!(minmax, minmax_again);
}

#[test]
fn minmax_strategies_are_ordered() {
    let rules = rules_rufspiel();
    let mut ahand = deal();
    let mut stichseq = new_stichseq();
    play_first_allowed(&mut ahand, &mut stichseq, &rules, 18);
    for epi in [EPlayerIndex::EPI0, EPlayerIndex::EPI1, EPlayerIndex::EPI2, EPlayerIndex::EPI3] {
        let minmax = explore_snapshots(
            &mut ahand,
            &rules,
            &mut stichseq,
            &SNoFilter,
            &SMinReachablePayout::new(epi, (0, 0), 0),
            &mut SNoVisualization,
        );
        let f = epi.to_usize();
        assert!(minmax.t_min[f] <= minmax.t_selfish_min[f]);
        assert!(minmax.t_selfish_max[f] <= minmax.t_max[f]);
        assert!(minmax.t_min[f] <= minmax.t_max[f]);
    }
}

#[test]
fn selfish_tie_break() {
    // The fixed player is EPI0; EPI1 chooses between two cards that pay it
    // the same but pay EPI0 3 or 5.
    let child = |n_fixed: isize| SPerMinMaxStrategy::new_final([n_fixed, 7, 0, 0]);
    let params = SMinReachablePayout::new(EPlayerIndex::EPI0, (0, 0), 0);
    let minmax = params.combine_outputs(EPlayerIndex::EPI1, vec![child(3), child(5)]);
    assert_eq!(minmax.t_selfish_min[0], 3);
    assert_eq!(minmax.t_selfish_max[0], 5);
    assert_eq!(minmax.t_min[0], 3);
    assert_eq!(minmax.t_max[0], 5);
    let minmax_reversed = params.combine_outputs(EPlayerIndex::EPI1, vec![child(5), child(3)]);
    assert_eq!(minmax, minmax_reversed);
}

#[test]
fn selfish_prefers_chooser_payout() {
    let params = SMinReachablePayout::new(EPlayerIndex::EPI0, (0, 0), 0);
    let a = SPerMinMaxStrategy::new_final([10, 1, 0, 0]);
    let b = SPerMinMaxStrategy::new_final([-4, 6, 0, 0]);
    let minmax = params.combine_outputs(EPlayerIndex::EPI1, vec![a, b]);
    assert_eq!(minmax.t_min, [-4, 6, 0, 0]);
    assert_eq!(minmax.t_selfish_min, [-4, 6, 0, 0]);
    assert_eq!(minmax.t_selfish_max, [-4, 6, 0, 0]);
    assert_eq!(minmax.t_max, [10, 1, 0, 0]);
    // When the fixed player chooses, every strategy takes its best.
    let minmax_fixed = params.combine_outputs(EPlayerIndex::EPI0, vec![b, a]);
    assert_eq!(payouts(&minmax_fixed), [[10, 1, 0, 0]; 4]);
}

#[test]
fn hint_pruning_short_circuits() {
    let rules = rules_rufspiel();
    for n_played in [16, 20, 24] {
        let mut ahand = deal();
        let mut stichseq = new_stichseq();
        play_first_allowed(&mut ahand, &mut stichseq, &rules, n_played);
        for epi in [EPlayerIndex::EPI0, EPlayerIndex::EPI1, EPlayerIndex::EPI2, EPlayerIndex::EPI3] {
            let exact = explore_snapshots(
                &mut ahand,
                &rules,
                &mut stichseq,
                &SNoFilter,
                &SMinReachablePayout::new(epi, (0, 0), 0),
                &mut SNoVisualization,
            );
            let pruned = explore_snapshots(
                &mut ahand,
                &rules,
                &mut stichseq,
                &SNoFilter,
                &SMinReachablePayoutLowerBoundViaHint::new(epi, (0, 0), 0),
                &mut SNoVisualization,
            );
            assert!(pruned.t_min[epi.to_usize()] <= exact.t_min[epi.to_usize()]);
            let aohint = rules.payouthints(&stichseq, &ahand, &SRuleStateCache::new(&stichseq), (0, 0), 0);
            if aohint.iter().all(|ohint| ohint.is_some()) && aohint[epi.to_usize()].unwrap() > 0 {
                assert_eq!(pruned, SPerMinMaxStrategy::new_final(aohint.map(|ohint| ohint.unwrap())));
            }
        }
    }
}

#[test]
fn selfish_bounds_may_cross() {
    // EPI1 chooses between two subtrees, EPI0 is the fixed player. Under the
    // selfish strategies EPI1 picks by its own payout, which differs between
    // the two selfish vectors of each child: selfish-min ends above selfish-max.
    let params = SMinReachablePayout::new(EPlayerIndex::EPI0, (0, 0), 0);
    let a = SPerMinMaxStrategy {
        t_min: [0, 0, 0, 0],
        t_selfish_min: [9, 5, 0, 0],
        t_selfish_max: [10, 0, 0, 0],
        t_max: [10, 0, 0, 0],
    };
    let b = SPerMinMaxStrategy {
        t_min: [0, 0, 0, 0],
        t_selfish_min: [0, 1, 0, 0],
        t_selfish_max: [1, 10, 0, 0],
        t_max: [1, 10, 0, 0],
    };
    let minmax = params.combine_outputs(EPlayerIndex::EPI1, vec![a, b]);
    assert_eq!(minmax.t_selfish_min[0], 9);
    assert_eq!(minmax.t_selfish_max[0], 1);
    assert!(minmax.t_min[0] <= minmax.t_selfish_min[0]);
    assert!(minmax.t_selfish_max[0] <= minmax.t_max[0]);
}

#[test]
fn stock_goes_to_the_declarer_side() {
    let rules = rules_rufspiel();
    let mut ahand = deal();
    let mut stichseq = new_stichseq();
    play_first_allowed(&mut ahand, &mut stichseq, &rules, 32);
    let cache = SRuleStateCache::new(&stichseq);
    let an_plain = rules.payout_with_cache(&stichseq, (0, 0), 0, &cache);
    let an_stock = rules.payout_with_cache(&stichseq, (0, 0), 10, &cache);
    // EPI1 declared and EPI2 held the called ace: they take or pay 5 each.
    for i in [1, 2] {
        assert_eq!(an_stock[i], an_plain[i] + if an_plain[i] > 0 { 5 } else { -5 });
    }
    for i in [0, 3] {
        assert_eq!(an_stock[i], an_plain[i]);
    }
}
