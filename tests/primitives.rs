use openschafkopf::primitives::{
    card_to_neural_network_input, neural_network_input_to_card, EFarbe, EKurzLang, EPlayerIndex, ESchlag, SCard,
    SUnknownNeuralNetworkInput,
};

#[test]
fn test_farbe_schlag_enumerators() {
    assert_eq!(EFarbe::values().len(), 4);
    assert_eq!(ESchlag::values().len(), 8);
}

#[test]
fn test_card_ctor() {
    for efarbe in EFarbe::values() {
        for eschlag in ESchlag::values() {
            assert_eq!(SCard::new(efarbe, eschlag).farbe(), efarbe);
            assert_eq!(SCard::new(efarbe, eschlag).schlag(), eschlag);
        }
    }
}

#[test]
fn card_values_per_deck() {
    let veccard_lang = SCard::values(EKurzLang::Lang);
    assert_eq!(veccard_lang.len(), 32);
    assert_eq!(veccard_lang[0], SCard::new(EFarbe::Eichel, ESchlag::Ass));
    assert_eq!(veccard_lang[31], SCard::new(EFarbe::Schelln, ESchlag::S7));
    let veccard_kurz = SCard::values(EKurzLang::Kurz);
    assert_eq!(veccard_kurz.len(), 24);
    assert!(veccard_kurz.iter().all(|card| card.schlag() != ESchlag::S7 && card.schlag() != ESchlag::S8));
    for (i, card) in veccard_lang.iter().enumerate() {
        assert_eq!(card.to_usize(), i);
    }
}

#[test]
fn kurzlang_conversions() {
    assert_eq!(EKurzLang::Kurz.cards_per_player(), 6);
    assert_eq!(EKurzLang::Lang.cards_per_player(), 8);
    assert_eq!(EKurzLang::from_cards_per_player(6), EKurzLang::Kurz);
    assert_eq!(EKurzLang::from_cards_per_player(8), EKurzLang::Lang);
    assert!(!EKurzLang::Kurz.supports_card(SCard::new(EFarbe::Gras, ESchlag::S8)));
    assert!(EKurzLang::Kurz.supports_card(SCard::new(EFarbe::Gras, ESchlag::S9)));
    assert!(EKurzLang::Lang.supports_card(SCard::new(EFarbe::Gras, ESchlag::S7)));
}

#[test]
fn player_index_wraps() {
    assert_eq!(EPlayerIndex::EPI3.wrapping_add(1), EPlayerIndex::EPI0);
    assert_eq!(EPlayerIndex::EPI1.wrapping_add(6), EPlayerIndex::EPI3);
    assert_eq!(EPlayerIndex::from_usize(2).to_usize(), 2);
}

#[test]
fn card_points() {
    assert_eq!(SCard::new(EFarbe::Herz, ESchlag::Ass).points(), 11);
    assert_eq!(SCard::new(EFarbe::Herz, ESchlag::Zehn).points(), 10);
    assert_eq!(SCard::new(EFarbe::Herz, ESchlag::Koenig).points(), 4);
    assert_eq!(SCard::new(EFarbe::Herz, ESchlag::Ober).points(), 3);
    assert_eq!(SCard::new(EFarbe::Herz, ESchlag::Unter).points(), 2);
    assert_eq!(SCard::new(EFarbe::Herz, ESchlag::S9).points(), 0);
}

#[test]
fn flip_tuple() {
    assert_eq!(openschafkopf::primitives::tpl_flip_if(true, (1, 2)), (2, 1));
    assert_eq!(openschafkopf::primitives::tpl_flip_if(false, (1, 2)), (1, 2));
}

#[test]
fn neural_network_mapping() {
    assert_eq!(card_to_neural_network_input(None), 0);
    assert_eq!(card_to_neural_network_input(Some(SCard::new(EFarbe::Eichel, ESchlag::Ass))), 1);
    assert_eq!(card_to_neural_network_input(Some(SCard::new(EFarbe::Schelln, ESchlag::Ass))), 4);
    assert_eq!(card_to_neural_network_input(Some(SCard::new(EFarbe::Gras, ESchlag::Zehn))), 6);
    assert_eq!(card_to_neural_network_input(Some(SCard::new(EFarbe::Schelln, ESchlag::S7))), 32);
    assert_eq!(neural_network_input_to_card(0), Ok(None));
    assert_eq!(neural_network_input_to_card(13), Ok(Some(SCard::new(EFarbe::Eichel, ESchlag::Ober))));
    assert_eq!(neural_network_input_to_card(33), Err(SUnknownNeuralNetworkInput { n: 33 }));
    for card in SCard::values(EKurzLang::Lang) {
        assert_eq!(neural_network_input_to_card(card_to_neural_network_input(Some(card))), Ok(Some(card)));
    }
}
