use openschafkopf::primitives::{EFarbe, EKurzLang, EPlayerIndex, ESchlag, SCard};
use openschafkopf::rulesrufspiel::{SPayoutDeciderParams, SRulesRufspiel};
use openschafkopf::rulestatecache::SRuleStateCache;
use openschafkopf::stich::SStich;
use openschafkopf::stichseq::SStichSequence;

fn c(efarbe: EFarbe, eschlag: ESchlag) -> SCard {
    SCard::new(efarbe, eschlag)
}

fn cards_of(stich: &SStich) -> Vec<SCard> {
    (0..stich.size()).map(|i| stich.card_at(i)).collect()
}

#[test]
fn stich_basics() {
    let mut stich = SStich::new(EPlayerIndex::EPI2);
    assert!(stich.is_empty());
    assert_eq!(stich.current_playerindex(), Some(EPlayerIndex::EPI2));
    stich.push(c(EFarbe::Gras, ESchlag::Ass));
    stich.push(c(EFarbe::Gras, ESchlag::S7));
    assert_eq!(stich.current_playerindex(), Some(EPlayerIndex::EPI0));
    assert_eq!(stich.get(EPlayerIndex::EPI3), Some(c(EFarbe::Gras, ESchlag::S7)));
    assert_eq!(stich.get(EPlayerIndex::EPI0), None);
    stich.undo_most_recent();
    assert_eq!(cards_of(&stich), vec![c(EFarbe::Gras, ESchlag::Ass)]);
    let stich_full = SStich::new_full(EPlayerIndex::EPI1, [c(EFarbe::Eichel, ESchlag::S9), c(EFarbe::Eichel, ESchlag::S8), c(EFarbe::Eichel, ESchlag::S7), c(EFarbe::Eichel, ESchlag::Ass)]);
    assert!(stich_full.is_full());
    assert_eq!(stich_full.current_playerindex(), None);
    assert_eq!(stich_full.first(), c(EFarbe::Eichel, ESchlag::S9));
}

#[test]
fn zugeben_and_undo_round_trip() {
    let rules = SRulesRufspiel::new(EPlayerIndex::EPI0, EFarbe::Eichel, SPayoutDeciderParams::new(20, 10));
    let mut stichseq = SStichSequence::new(EPlayerIndex::EPI1, EKurzLang::Kurz);
    assert!(stichseq.no_card_played());
    let acard = [c(EFarbe::Gras, ESchlag::S9), c(EFarbe::Gras, ESchlag::Ass), c(EFarbe::Gras, ESchlag::Koenig), c(EFarbe::Herz, ESchlag::Ober)];
    for card in acard {
        stichseq.zugeben(card, &rules);
    }
    // The Ober is trump and wins; its player (EPI0) leads next.
    assert_eq!(stichseq.completed_stichs().len(), 1);
    assert_eq!(stichseq.current_stich().first_playerindex(), EPlayerIndex::EPI0);
    assert_eq!(stichseq.count_played_cards(), 4);
    let cache = SRuleStateCache::new(&stichseq);
    assert_eq!(cache.point_stich_count(EPlayerIndex::EPI0).n_stich, 1);
    assert_eq!(cache.point_stich_count(EPlayerIndex::EPI0).n_point, 0 + 11 + 4 + 3);
    assert_eq!(cache.point_stich_count(EPlayerIndex::EPI1).n_point, 0);
    stichseq.undo_most_recent();
    assert_eq!(stichseq.completed_stichs().len(), 0);
    assert_eq!(cards_of(stichseq.current_stich()), acard[0..3].to_vec());
    assert_eq!(stichseq.first_playerindex(), EPlayerIndex::EPI1);
    for _ in 0..3 {
        stichseq.undo_most_recent();
    }
    assert!(stichseq.no_card_played());
    assert!(!stichseq.game_finished());
    assert_eq!(stichseq.kurzlang(), EKurzLang::Kurz);
}

#[test]
fn cache_register_unregister() {
    let rules = SRulesRufspiel::new(EPlayerIndex::EPI0, EFarbe::Eichel, SPayoutDeciderParams::new(20, 10));
    let mut stichseq = SStichSequence::new(EPlayerIndex::EPI0, EKurzLang::Lang);
    let mut cache = SRuleStateCache::new(&stichseq);
    for card in [c(EFarbe::Schelln, ESchlag::Zehn), c(EFarbe::Schelln, ESchlag::Ass), c(EFarbe::Schelln, ESchlag::S7), c(EFarbe::Schelln, ESchlag::Koenig)] {
        stichseq.zugeben(card, &rules);
    }
    let unregister = cache.register_stich(stichseq.last_completed_stich(), stichseq.current_stich().first_playerindex());
    let cache_fresh = SRuleStateCache::new(&stichseq);
    for i in 0..4 {
        let epi = EPlayerIndex::from_usize(i);
        assert_eq!(cache.point_stich_count(epi), cache_fresh.point_stich_count(epi));
    }
    assert_eq!(cache.point_stich_count(EPlayerIndex::EPI1).n_point, 25);
    cache.unregister_stich(unregister);
    assert_eq!(cache.point_stich_count(EPlayerIndex::EPI1).n_point, 0);
    assert_eq!(cache.point_stich_count(EPlayerIndex::EPI1).n_stich, 0);
}
