use openschafkopf::game::make_stich_vector;
use openschafkopf::hand::SHand;
use openschafkopf::handiterators::{all_possible_hands, forever_rand_hands, random_hand, unplayed_cards};
use openschafkopf::primitives::{EFarbe, EPlayerIndex, ESchlag, SCard};

fn c(efarbe: EFarbe, eschlag: ESchlag) -> SCard {
    SCard::new(efarbe, eschlag)
}

/// "g7 g8 ga g9", "s8 ho s7 s9", "h7 hk hu su", "eo go hz h8", "e9 ek e8 ea", "sa eu so ha"
fn six_stichs() -> Vec<openschafkopf::stich::SStich> {
    make_stich_vector(&[
        (EPlayerIndex::EPI0, [c(EFarbe::Gras, ESchlag::S7), c(EFarbe::Gras, ESchlag::S8), c(EFarbe::Gras, ESchlag::Ass), c(EFarbe::Gras, ESchlag::S9)]),
        (EPlayerIndex::EPI0, [c(EFarbe::Schelln, ESchlag::S8), c(EFarbe::Herz, ESchlag::Ober), c(EFarbe::Schelln, ESchlag::S7), c(EFarbe::Schelln, ESchlag::S9)]),
        (EPlayerIndex::EPI0, [c(EFarbe::Herz, ESchlag::S7), c(EFarbe::Herz, ESchlag::Koenig), c(EFarbe::Herz, ESchlag::Unter), c(EFarbe::Schelln, ESchlag::Unter)]),
        (EPlayerIndex::EPI0, [c(EFarbe::Eichel, ESchlag::Ober), c(EFarbe::Gras, ESchlag::Ober), c(EFarbe::Herz, ESchlag::Zehn), c(EFarbe::Herz, ESchlag::S8)]),
        (EPlayerIndex::EPI0, [c(EFarbe::Eichel, ESchlag::S9), c(EFarbe::Eichel, ESchlag::Koenig), c(EFarbe::Eichel, ESchlag::S8), c(EFarbe::Eichel, ESchlag::Ass)]),
        (EPlayerIndex::EPI0, [c(EFarbe::Schelln, ESchlag::Ass), c(EFarbe::Eichel, ESchlag::Unter), c(EFarbe::Schelln, ESchlag::Ober), c(EFarbe::Herz, ESchlag::Ass)]),
    ])
}

#[test]
fn test_all_possible_hands() {
    let vecstich = six_stichs();
    let mut allhands = all_possible_hands(
        &vecstich,
        SHand::new_from_iter(vec![c(EFarbe::Gras, ESchlag::Koenig), c(EFarbe::Schelln, ESchlag::Koenig)]),
        EPlayerIndex::EPI0, // epi_fixed
    );
    let mut vecahand = Vec::new();
    while let Some(ahand) = allhands.next() {
        vecahand.push(ahand);
    }
    // 6 cards are unknown, distributed among three other players, i.e. binomial(6,2)*binomial(4,2)=90 possibilities
    assert_eq!(vecahand.len(), 90);
    let mut vecvecveccard: Vec<Vec<Vec<usize>>> = Vec::new();
    for ahand in vecahand.iter() {
        assert_eq!(ahand[0].cards().as_slice(), &[c(EFarbe::Gras, ESchlag::Koenig), c(EFarbe::Schelln, ESchlag::Koenig)]);
        let mut veccard_all: Vec<usize> = Vec::new();
        for hand in ahand.iter().skip(1) {
            assert_eq!(hand.len(), 2);
            veccard_all.extend(hand.cards().iter().map(|card| card.to_usize()));
        }
        veccard_all.sort();
        veccard_all.dedup();
        assert_eq!(veccard_all.len(), 6);
        vecvecveccard.push(ahand.iter().map(|hand| hand.cards().iter().map(|card| card.to_usize()).collect()).collect());
    }
    vecvecveccard.sort();
    vecvecveccard.dedup();
    assert_eq!(vecvecveccard.len(), 90);
    assert!(allhands.next().is_none());
}

#[test]
fn test_unplayed_cards() {
    let vecstich = six_stichs();
    let hand = SHand::new_from_iter(vec![c(EFarbe::Gras, ESchlag::Koenig), c(EFarbe::Schelln, ESchlag::Koenig)]);
    let veccard_unplayed = unplayed_cards(&vecstich, &hand);
    let veccard_unplayed_check = [c(EFarbe::Gras, ESchlag::Zehn), c(EFarbe::Eichel, ESchlag::S7), c(EFarbe::Schelln, ESchlag::Zehn), c(EFarbe::Herz, ESchlag::S9), c(EFarbe::Eichel, ESchlag::Zehn), c(EFarbe::Gras, ESchlag::Unter)];
    assert_eq!(veccard_unplayed.len(), veccard_unplayed_check.len());
    assert!(veccard_unplayed.iter().all(|card| veccard_unplayed_check.contains(card)));
    assert!(veccard_unplayed_check.iter().all(|card| veccard_unplayed.contains(card)));
}

#[test]
fn all_possible_hands_other_fixed_player() {
    let vecstich = six_stichs();
    let mut allhands = all_possible_hands(
        &vecstich,
        SHand::new_from_iter(vec![c(EFarbe::Gras, ESchlag::Koenig), c(EFarbe::Schelln, ESchlag::Koenig)]),
        EPlayerIndex::EPI2,
    );
    let mut n = 0;
    while let Some(ahand) = allhands.next() {
        assert_eq!(ahand[2].len(), 2);
        assert!(ahand[2].contains(c(EFarbe::Gras, ESchlag::Koenig)));
        assert_eq!(ahand[0].len() + ahand[1].len() + ahand[3].len(), 6);
        n += 1;
    }
    assert_eq!(n, 90);
}

#[test]
fn random_hands_keep_the_cards() {
    let vecstich = six_stichs();
    let hand_fixed = SHand::new_from_iter(vec![c(EFarbe::Gras, ESchlag::Koenig), c(EFarbe::Schelln, ESchlag::Koenig)]);
    let mut veccard_expected: Vec<usize> = unplayed_cards(&vecstich, &hand_fixed).iter().map(|card| card.to_usize()).collect();
    veccard_expected.sort();
    let mut randhands = forever_rand_hands(&vecstich, &hand_fixed, EPlayerIndex::EPI1);
    for _ in 0..20 {
        let ahand = randhands.next().unwrap();
        assert_eq!(ahand[1].cards().as_slice(), hand_fixed.cards().as_slice());
        let mut veccard: Vec<usize> = Vec::new();
        for (i, hand) in ahand.iter().enumerate() {
            assert_eq!(hand.len(), 2);
            if i != 1 {
                veccard.extend(hand.cards().iter().map(|card| card.to_usize()));
            }
        }
        veccard.sort();
        assert_eq!(veccard, veccard_expected);
    }
}

#[test]
fn random_hand_draws_from_the_cards() {
    let mut veccard = SCard::values(openschafkopf::primitives::EKurzLang::Kurz);
    let hand = random_hand(6, &mut veccard);
    assert_eq!(hand.len(), 6);
    assert_eq!(veccard.len(), 18);
    for card in hand.cards().iter() {
        assert!(!veccard.contains(card));
    }
}

#[test]
fn shuffle_with_given_draws() {
    let vecstich = six_stichs();
    let hand_fixed = SHand::new_from_iter(vec![c(EFarbe::Gras, ESchlag::Koenig), c(EFarbe::Schelln, ESchlag::Koenig)]);
    let mut randhands = forever_rand_hands(&vecstich, &hand_fixed, EPlayerIndex::EPI1);
    let card_at = |ahand: &Vec<SHand>, i: usize| -> SCard {
        // The i-th card not held by EPI1.
        let epi = if i < 2 { 0 } else { i / 2 + 1 };
        ahand[epi].card_at(i % 2)
    };
    let veccard_before: Vec<SCard> = (0..6).map(|i| card_at(randhands.hands(), i)).collect();
    // Swapping card k with card 0, for k = 0..6, rotates the cards by one.
    randhands.shuffle_with(&vec![0, 0, 0, 0, 0, 0]);
    let veccard_after: Vec<SCard> = (0..6).map(|i| card_at(randhands.hands(), i)).collect();
    assert_eq!(veccard_after[0], veccard_before[5]);
    for i in 1..6 {
        assert_eq!(veccard_after[i], veccard_before[i - 1]);
    }
    assert_eq!(randhands.hands()[1].cards().as_slice(), hand_fixed.cards().as_slice());
}
