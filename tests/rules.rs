use openschafkopf::game::{stoss_and_doublings, SCardMap, SStoss};
use openschafkopf::hand::SHand;
use openschafkopf::primitives::{EFarbe, EKurzLang, EPlayerIndex, ESchlag, SCard, VTrumpfOrFarbe};
use openschafkopf::rules::TRules;
use openschafkopf::rulesrufspiel::{SPayoutDeciderParams, SRulesRufspiel, STrumpfDeciderRufspiel};
use openschafkopf::stich::SStich;
use openschafkopf::stichseq::SStichSequence;
use openschafkopf::trumpfdecider::{
    SFarbeDesignatorHerz, STrumpfDeciderFarbe, STrumpfDeciderNoTrumpf, TTrumpfDecider,
};
use std::cmp::Ordering;

fn c(efarbe: EFarbe, eschlag: ESchlag) -> SCard {
    SCard::new(efarbe, eschlag)
}

#[test]
fn trumpf_deciders() {
    assert_eq!(STrumpfDeciderRufspiel::trumpforfarbe(c(EFarbe::Gras, ESchlag::Ober)), VTrumpfOrFarbe::Trumpf);
    assert_eq!(STrumpfDeciderRufspiel::trumpforfarbe(c(EFarbe::Schelln, ESchlag::Unter)), VTrumpfOrFarbe::Trumpf);
    assert_eq!(STrumpfDeciderRufspiel::trumpforfarbe(c(EFarbe::Herz, ESchlag::S7)), VTrumpfOrFarbe::Trumpf);
    assert_eq!(STrumpfDeciderRufspiel::trumpforfarbe(c(EFarbe::Gras, ESchlag::Ass)), VTrumpfOrFarbe::Farbe(EFarbe::Gras));
    assert_eq!(STrumpfDeciderNoTrumpf::trumpforfarbe(c(EFarbe::Herz, ESchlag::Ober)), VTrumpfOrFarbe::Farbe(EFarbe::Herz));
    assert_eq!(STrumpfDeciderRufspiel::compare_trumpf(c(EFarbe::Eichel, ESchlag::Ober), c(EFarbe::Gras, ESchlag::Ober)), Ordering::Greater);
    assert_eq!(STrumpfDeciderRufspiel::compare_trumpf(c(EFarbe::Schelln, ESchlag::Unter), c(EFarbe::Herz, ESchlag::Ass)), Ordering::Greater);
    assert_eq!(STrumpfDeciderRufspiel::compare_trumpf(c(EFarbe::Herz, ESchlag::Ass), c(EFarbe::Herz, ESchlag::Zehn)), Ordering::Greater);
    assert_eq!(STrumpfDeciderRufspiel::compare_trumpf(c(EFarbe::Herz, ESchlag::S7), c(EFarbe::Herz, ESchlag::S8)), Ordering::Less);
    let veccard = STrumpfDeciderRufspiel::trumpfs_in_descending_order(Vec::new());
    assert_eq!(veccard.len(), 14);
    assert_eq!(veccard[0], c(EFarbe::Eichel, ESchlag::Ober));
    assert_eq!(veccard[4], c(EFarbe::Eichel, ESchlag::Unter));
    assert_eq!(veccard[8], c(EFarbe::Herz, ESchlag::Ass));
    assert_eq!(veccard[13], c(EFarbe::Herz, ESchlag::S7));
    let veccard_herz = STrumpfDeciderFarbe::<SFarbeDesignatorHerz>::trumpfs_in_descending_order(vec![ESchlag::Koenig]);
    assert_eq!(veccard_herz.len(), 7);
    assert!(!veccard_herz.contains(&c(EFarbe::Herz, ESchlag::Koenig)));
}

#[test]
fn rufspiel_basics() {
    let rules = SRulesRufspiel::new(EPlayerIndex::EPI1, EFarbe::Gras, SPayoutDeciderParams::new(20, 10));
    assert_eq!(rules.rufsau(), c(EFarbe::Gras, ESchlag::Ass));
    assert!(rules.is_ruffarbe(c(EFarbe::Gras, ESchlag::S9)));
    assert!(!rules.is_ruffarbe(c(EFarbe::Gras, ESchlag::Unter)));
    assert_eq!(rules.playerindex(), EPlayerIndex::EPI1);
    assert!(rules.can_be_played(&SHand::new_from_iter(vec![c(EFarbe::Gras, ESchlag::S9), c(EFarbe::Eichel, ESchlag::Ass)])));
    assert!(!rules.can_be_played(&SHand::new_from_iter(vec![c(EFarbe::Gras, ESchlag::Ass), c(EFarbe::Gras, ESchlag::S9)])));
    assert!(!rules.can_be_played(&SHand::new_from_iter(vec![c(EFarbe::Eichel, ESchlag::S9)])));
}

#[test]
fn rufspiel_allowed_cards() {
    let rules = SRulesRufspiel::new(EPlayerIndex::EPI1, EFarbe::Gras, SPayoutDeciderParams::new(20, 10));
    let mut stichseq = SStichSequence::new(EPlayerIndex::EPI0, EKurzLang::Lang);
    // The holder of the called ace may not lead another card of its suit.
    let hand = SHand::new_from_iter(vec![c(EFarbe::Gras, ESchlag::Ass), c(EFarbe::Gras, ESchlag::S9), c(EFarbe::Eichel, ESchlag::S7)]);
    let veccard = rules.all_allowed_cards(&stichseq, &hand);
    assert_eq!(veccard, vec![c(EFarbe::Gras, ESchlag::Ass), c(EFarbe::Eichel, ESchlag::S7)]);
    // When the called suit is led, the ace must be played.
    stichseq.zugeben(c(EFarbe::Gras, ESchlag::Koenig), &rules);
    let veccard = rules.all_allowed_cards(&stichseq, &hand);
    assert_eq!(veccard, vec![c(EFarbe::Gras, ESchlag::Ass)]);
    // Otherwise, follow suit.
    let hand_other = SHand::new_from_iter(vec![c(EFarbe::Gras, ESchlag::S8), c(EFarbe::Herz, ESchlag::S9), c(EFarbe::Eichel, ESchlag::S7)]);
    assert_eq!(rules.all_allowed_cards(&stichseq, &hand_other), vec![c(EFarbe::Gras, ESchlag::S8)]);
    // Without the led suit any card may be played.
    let hand_free = SHand::new_from_iter(vec![c(EFarbe::Herz, ESchlag::S9), c(EFarbe::Eichel, ESchlag::S7)]);
    assert_eq!(rules.all_allowed_cards(&stichseq, &hand_free).len(), 2);
}

#[test]
fn rufspiel_winner_and_payout() {
    let rules = SRulesRufspiel::new(EPlayerIndex::EPI1, EFarbe::Gras, SPayoutDeciderParams::new(20, 10));
    let stich = SStich::new_full(EPlayerIndex::EPI0, [c(EFarbe::Gras, ESchlag::Koenig), c(EFarbe::Gras, ESchlag::Ass), c(EFarbe::Herz, ESchlag::S7), c(EFarbe::Gras, ESchlag::Zehn)]);
    // Hearts are trump: the seven of hearts wins.
    assert_eq!(rules.winner_index(&stich), EPlayerIndex::EPI2);
    let stich_plain = SStich::new_full(EPlayerIndex::EPI3, [c(EFarbe::Schelln, ESchlag::Koenig), c(EFarbe::Schelln, ESchlag::Zehn), c(EFarbe::Eichel, ESchlag::Ass), c(EFarbe::Schelln, ESchlag::S9)]);
    assert_eq!(rules.winner_index(&stich_plain), EPlayerIndex::EPI0);
    assert_eq!(rules.trumpforfarbe(c(EFarbe::Eichel, ESchlag::Unter)), VTrumpfOrFarbe::Trumpf);
}

#[test]
fn game_helpers() {
    assert_eq!(stoss_and_doublings(&[SStoss { epi: EPlayerIndex::EPI1 }], &[true, false, true, true]), (1, 3));
    assert_eq!(stoss_and_doublings(&[], &[]), (0, 0));
    let mapcardn = SCardMap::from_pairs(vec![(c(EFarbe::Gras, ESchlag::Ass), 1), (c(EFarbe::Herz, ESchlag::S7), 2), (c(EFarbe::Gras, ESchlag::Ass), 3)]);
    assert_eq!(*mapcardn.get(c(EFarbe::Gras, ESchlag::Ass)), 3);
    assert_eq!(*mapcardn.get(c(EFarbe::Herz, ESchlag::S7)), 2);
}
