use openschafkopf::hand::SHand;
use openschafkopf::primitives::{EFarbe, EKurzLang, EPlayerIndex, ESchlag, SCard};
use openschafkopf::rules::TRules;
use openschafkopf::rulesrufspiel::{SPayoutDeciderParams, SRulesRufspiel};
use openschafkopf::rulestatecache::SRuleStateCache;
use openschafkopf::stichseq::SStichSequence;
use openschafkopf::suspicion::SPerMinMaxStrategy;

fn card(efarbe: EFarbe, eschlag: ESchlag) -> SCard {
    SCard::new(efarbe, eschlag)
}

fn deal() -> Vec<SHand> {
    vec![
        SHand::new_from_iter(vec![card(EFarbe::Herz, ESchlag::S8), card(EFarbe::Schelln, ESchlag::Unter), card(EFarbe::Gras, ESchlag::S7), card(EFarbe::Schelln, ESchlag::S7), card(EFarbe::Gras, ESchlag::Unter), card(EFarbe::Eichel, ESchlag::Ober), card(EFarbe::Gras, ESchlag::Koenig), card(EFarbe::Schelln, ESchlag::S9)]),
        SHand::new_from_iter(vec![card(EFarbe::Eichel, ESchlag::Unter), card(EFarbe::Herz, ESchlag::S7), card(EFarbe::Gras, ESchlag::S8), card(EFarbe::Schelln, ESchlag::Ass), card(EFarbe::Herz, ESchlag::Ober), card(EFarbe::Schelln, ESchlag::Zehn), card(EFarbe::Herz, ESchlag::Koenig), card(EFarbe::Herz, ESchlag::Zehn)]),
        SHand::new_from_iter(vec![card(EFarbe::Herz, ESchlag::S9), card(EFarbe::Eichel, ESchlag::S7), card(EFarbe::Gras, ESchlag::Ass), card(EFarbe::Gras, ESchlag::Zehn), card(EFarbe::Gras, ESchlag::S9), card(EFarbe::Eichel, ESchlag::S9), card(EFarbe::Eichel, ESchlag::Koenig), card(EFarbe::Eichel, ESchlag::Ass)]),
        SHand::new_from_iter(vec![card(EFarbe::Herz, ESchlag::Unter), card(EFarbe::Herz, ESchlag::Ass), card(EFarbe::Schelln, ESchlag::Ober), card(EFarbe::Schelln, ESchlag::S8), card(EFarbe::Gras, ESchlag::Ober), card(EFarbe::Eichel, ESchlag::S8), card(EFarbe::Schelln, ESchlag::Koenig), card(EFarbe::Eichel, ESchlag::Zehn)]),
    ]
}

fn play_first_allowed(ahand: &mut Vec<SHand>, stichseq: &mut SStichSequence, rules: &SRulesRufspiel, n_cards: usize) {
    for _ in 0..n_cards {
        let epi = stichseq.current_stich().current_playerindex().unwrap();
        let veccard = TRules::all_allowed_cards(rules, stichseq, &ahand[epi.to_usize()]);
        let i = ahand[epi.to_usize()].index_of(veccard[0]);
        ahand[epi.to_usize()].play_card_at(i);
        stichseq.zugeben(veccard[0], rules);
    }
}

#[test]
fn snapshot_cache_remembers_per_class() {
    let rules = SRulesRufspiel::new(EPlayerIndex::EPI1, EFarbe::Gras, SPayoutDeciderParams::new(20, 10));
    let mut ahand = deal();
    let mut stichseq = SStichSequence::new(EPlayerIndex::EPI2, EKurzLang::Lang);
    let mut cache = rules.snapshot_cache(&stichseq, &ahand).unwrap();
    play_first_allowed(&mut ahand, &mut stichseq, &rules, 4);
    let rulestatecache = SRuleStateCache::new(&stichseq);
    assert_eq!(cache.get(&stichseq, &rulestatecache), None);
    let minmax = SPerMinMaxStrategy::new_final([20, -20, 20, -20]);
    cache.put(&stichseq, &rulestatecache, &minmax);
    assert_eq!(cache.get(&stichseq, &rulestatecache), Some(minmax));
    let key_one_trick = cache.snap_equiv(&stichseq, &rulestatecache);
    play_first_allowed(&mut ahand, &mut stichseq, &rules, 4);
    let rulestatecache = SRuleStateCache::new(&stichseq);
    assert_eq!(cache.get(&stichseq, &rulestatecache), None);
    assert_ne!(cache.snap_equiv(&stichseq, &rulestatecache), key_one_trick);
    // Nobody holds or has played the called ace: no cache.
    let ahand_without = vec![SHand::new_from_iter(vec![]), SHand::new_from_iter(vec![]), SHand::new_from_iter(vec![]), SHand::new_from_iter(vec![])];
    let stichseq_new = SStichSequence::new(EPlayerIndex::EPI0, EKurzLang::Lang);
    assert!(rules.snapshot_cache(&stichseq_new, &ahand_without).is_none());
}

#[test]
fn snapshot_key_packs_fields() {
    let rules = SRulesRufspiel::new(EPlayerIndex::EPI1, EFarbe::Gras, SPayoutDeciderParams::new(20, 10));
    let ahand = deal();
    let stichseq = SStichSequence::new(EPlayerIndex::EPI3, EKurzLang::Lang);
    let cache = rules.snapshot_cache(&stichseq, &ahand).unwrap();
    // No points, no tricks, no card played: only the leader is set.
    assert_eq!(cache.snap_equiv(&stichseq, &SRuleStateCache::new(&stichseq)), 3 << 30);
}
