use openschafkopf::hand::{CHand, SHand};
use openschafkopf::primitives::{EFarbe, ESchlag, SCard};

#[test]
fn hand_test_hand() {
    let hand = CHand::new_from_vec(vec![
        SCard::new(EFarbe::Eichel, ESchlag::Unter),
        SCard::new(EFarbe::Herz, ESchlag::Koenig),
        SCard::new(EFarbe::Schelln, ESchlag::S7),
    ]);
    let hand2 = hand.new_from_hand(SCard::new(EFarbe::Herz, ESchlag::Koenig));
    assert_eq!(hand.cards().len() - 1, hand2.cards().len());
    assert!(hand2.cards()[0] == SCard::new(EFarbe::Eichel, ESchlag::Unter));
    assert!(hand2.cards()[1] == SCard::new(EFarbe::Schelln, ESchlag::S7));

    let hand = SHand::new_from_iter(vec![
        SCard::new(EFarbe::Eichel, ESchlag::Unter),
        SCard::new(EFarbe::Herz, ESchlag::Koenig),
        SCard::new(EFarbe::Schelln, ESchlag::S7),
    ]);
    let hand2 = {
        let mut hand2 = hand.clone();
        hand2.play_card(SCard::new(EFarbe::Herz, ESchlag::Koenig));
        hand2
    };
    assert_eq!(hand.cards().len() - 1, hand2.cards().len());
    assert!(hand2.cards()[0] == SCard::new(EFarbe::Eichel, ESchlag::Unter));
    assert!(hand2.cards()[1] == SCard::new(EFarbe::Schelln, ESchlag::S7));
}

#[test]
fn chand_sort_and_play() {
    let mut hand = CHand::new_from_vec(vec![
        SCard::new(EFarbe::Schelln, ESchlag::S7),
        SCard::new(EFarbe::Eichel, ESchlag::Unter),
        SCard::new(EFarbe::Gras, ESchlag::Ass),
    ]);
    hand.sort(|a, b| a.to_usize().cmp(&b.to_usize()));
    assert_eq!(
        hand.cards(),
        &vec![
            SCard::new(EFarbe::Eichel, ESchlag::Unter),
            SCard::new(EFarbe::Gras, ESchlag::Ass),
            SCard::new(EFarbe::Schelln, ESchlag::S7),
        ]
    );
    assert!(hand.contains(SCard::new(EFarbe::Gras, ESchlag::Ass)));
    hand.play_card(SCard::new(EFarbe::Gras, ESchlag::Ass));
    assert!(!hand.contains(SCard::new(EFarbe::Gras, ESchlag::Ass)));
    assert_eq!(hand.cards().len(), 2);
}

#[test]
fn shand_play_and_restore() {
    let ea = SCard::new(EFarbe::Eichel, ESchlag::Ass);
    let gk = SCard::new(EFarbe::Gras, ESchlag::Koenig);
    let h9 = SCard::new(EFarbe::Herz, ESchlag::S9);
    let mut hand = SHand::new_from_iter(vec![ea, gk, h9]);
    assert_eq!(hand.len(), 3);
    assert!(hand.contains(gk));
    assert!(hand.contains_pred(|card| card.farbe() == EFarbe::Herz));
    assert!(!hand.contains_pred(|card| card.farbe() == EFarbe::Schelln));
    assert_eq!(hand.index_of(h9), 2);
    let card = hand.play_card_at(1);
    assert_eq!(card, gk);
    assert_eq!(hand.cards().as_slice(), &[ea, h9]);
    hand.add_card_at(1, card);
    assert_eq!(hand.cards().as_slice(), &[ea, gk, h9]);
    hand.play_card(ea);
    assert_eq!(hand.cards().as_slice(), &[gk, h9]);
    hand.add_card(ea);
    assert_eq!(hand.cards().as_slice(), &[gk, h9, ea]);
    let hand_clone = hand.clone();
    assert_eq!(hand_clone.cards().as_slice(), &[gk, h9, ea]);
    assert_eq!(hand.card_at(2), ea);
}
