use crate::primitives::{EFarbe, ESchlag, SCard, VTrumpfOrFarbe};
use std::cmp::Ordering;
use std::marker::PhantomData;
use vstd::prelude::*;

verus! {

/// The ranks of a suit from the highest: ace, ten, king, ober, unter, nine,
/// eight, seven.
pub open spec fn spec_compare_farbcards_same_color(card_fst: SCard, card_snd: SCard) -> Ordering {
    if card_fst.eschlag.idx() < card_snd.eschlag.idx() {
        Ordering::Greater
    } else if card_fst.eschlag.idx() == card_snd.eschlag.idx() {
        Ordering::Equal
    } else {
        Ordering::Less
    }
}

pub fn compare_farbcards_same_color(card_fst: SCard, card_snd: SCard) -> (r: Ordering)
    ensures
        r == spec_compare_farbcards_same_color(card_fst, card_snd),
{
    let i_fst = card_fst.schlag().to_usize();
    let i_snd = card_snd.schlag().to_usize();
    if i_fst < i_snd {
        Ordering::Greater
    } else if i_fst == i_snd {
        Ordering::Equal
    } else {
        Ordering::Less
    }
}

/// Which cards are trump, and how trumps rank among themselves.
pub trait TTrumpfDecider {
    spec fn spec_trumpforfarbe(card: SCard) -> VTrumpfOrFarbe;

    spec fn spec_compare_trumpf(card_fst: SCard, card_snd: SCard) -> Ordering;

    /// The trumps from the highest down, leaving out the ranks in `veceschlag`
    /// that a higher decider has already claimed.
    spec fn spec_trumpfs_in_descending_order(veceschlag: Seq<ESchlag>) -> Seq<SCard>;

    fn trumpforfarbe(card: SCard) -> (r: VTrumpfOrFarbe)
        ensures
            r == Self::spec_trumpforfarbe(card),
    ;

    /// How the trump `card_fst` ranks against the trump `card_snd`.
    fn compare_trumpf(card_fst: SCard, card_snd: SCard) -> (r: Ordering)
        requires
            Self::spec_trumpforfarbe(card_fst) == VTrumpfOrFarbe::Trumpf,
            Self::spec_trumpforfarbe(card_snd) == VTrumpfOrFarbe::Trumpf,
        ensures
            r == Self::spec_compare_trumpf(card_fst, card_snd),
    ;

    fn trumpfs_in_descending_order(veceschlag: Vec<ESchlag>) -> (r: Vec<SCard>)
        ensures
            r@ == Self::spec_trumpfs_in_descending_order(veceschlag@),
    ;
}

/// No card is trump.
#[derive(Clone, Debug)]
pub struct STrumpfDeciderNoTrumpf {}

impl TTrumpfDecider for STrumpfDeciderNoTrumpf {
    open spec fn spec_trumpforfarbe(card: SCard) -> VTrumpfOrFarbe {
        VTrumpfOrFarbe::Farbe(card.efarbe)
    }

    open spec fn spec_compare_trumpf(card_fst: SCard, card_snd: SCard) -> Ordering {
        Ordering::Equal
    }

    open spec fn spec_trumpfs_in_descending_order(veceschlag: Seq<ESchlag>) -> Seq<SCard> {
        Seq::empty()
    }

    fn trumpforfarbe(card: SCard) -> (r: VTrumpfOrFarbe) {
        VTrumpfOrFarbe::Farbe(card.farbe())
    }

    fn compare_trumpf(card_fst: SCard, card_snd: SCard) -> (r: Ordering) {
        Ordering::Equal
    }

    fn trumpfs_in_descending_order(veceschlag: Vec<ESchlag>) -> (r: Vec<SCard>) {
        Vec::new()
    }
}

/// Names the rank that a `STrumpfDeciderSchlag` makes trump.
pub trait TSchlagDesignator {
    spec fn spec_schlag() -> ESchlag;

    fn schlag() -> (r: ESchlag)
        ensures
            r == Self::spec_schlag(),
    ;
}

#[derive(Clone, Debug)]
pub struct SSchlagDesignatorOber {}

#[derive(Clone, Debug)]
pub struct SSchlagDesignatorUnter {}

impl TSchlagDesignator for SSchlagDesignatorOber {
    open spec fn spec_schlag() -> ESchlag {
        ESchlag::Ober
    }

    fn schlag() -> (r: ESchlag) {
        ESchlag::Ober
    }
}

impl TSchlagDesignator for SSchlagDesignatorUnter {
    open spec fn spec_schlag() -> ESchlag {
        ESchlag::Unter
    }

    fn schlag() -> (r: ESchlag) {
        ESchlag::Unter
    }
}

/// The four cards of one rank are the highest trumps, ranked by suit; the
/// decider `DeciderSec` rules the other cards.
#[derive(Debug)]
pub struct STrumpfDeciderSchlag<SchlagDesignator, DeciderSec> {
    schlagdesignator: PhantomData<SchlagDesignator>,
    decidersec: PhantomData<DeciderSec>,
}

/// The four cards of rank `eschlag`, suit by suit.
pub open spec fn spec_cards_of_schlag(eschlag: ESchlag) -> Seq<SCard> {
    seq![
        SCard { efarbe: EFarbe::Eichel, eschlag },
        SCard { efarbe: EFarbe::Gras, eschlag },
        SCard { efarbe: EFarbe::Herz, eschlag },
        SCard { efarbe: EFarbe::Schelln, eschlag },
    ]
}

impl<SchlagDesignator: TSchlagDesignator, DeciderSec: TTrumpfDecider> TTrumpfDecider for STrumpfDeciderSchlag<
    SchlagDesignator,
    DeciderSec,
> {
    open spec fn spec_trumpforfarbe(card: SCard) -> VTrumpfOrFarbe {
        if card.eschlag == SchlagDesignator::spec_schlag() {
            VTrumpfOrFarbe::Trumpf
        } else {
            DeciderSec::spec_trumpforfarbe(card)
        }
    }

    open spec fn spec_compare_trumpf(card_fst: SCard, card_snd: SCard) -> Ordering {
        let b_fst = card_fst.eschlag == SchlagDesignator::spec_schlag();
        let b_snd = card_snd.eschlag == SchlagDesignator::spec_schlag();
        if b_fst && b_snd {
            if card_snd.efarbe.idx() < card_fst.efarbe.idx() {
                Ordering::Less
            } else {
                Ordering::Greater
            }
        } else if b_fst {
            Ordering::Greater
        } else if b_snd {
            Ordering::Less
        } else {
            DeciderSec::spec_compare_trumpf(card_fst, card_snd)
        }
    }

    open spec fn spec_trumpfs_in_descending_order(veceschlag: Seq<ESchlag>) -> Seq<SCard> {
        spec_cards_of_schlag(SchlagDesignator::spec_schlag()) + DeciderSec::spec_trumpfs_in_descending_order(
            veceschlag.push(SchlagDesignator::spec_schlag()),
        )
    }

    fn trumpforfarbe(card: SCard) -> (r: VTrumpfOrFarbe) {
        if SchlagDesignator::schlag() == card.schlag() {
            VTrumpfOrFarbe::Trumpf
        } else {
            DeciderSec::trumpforfarbe(card)
        }
    }

    fn compare_trumpf(card_fst: SCard, card_snd: SCard) -> (r: Ordering) {
        let eschlag = SchlagDesignator::schlag();
        let b_fst = eschlag == card_fst.schlag();
        let b_snd = eschlag == card_snd.schlag();
        if b_fst && b_snd {
            if card_snd.farbe().to_usize() < card_fst.farbe().to_usize() {
                Ordering::Less
            } else {
                Ordering::Greater
            }
        } else if b_fst {
            Ordering::Greater
        } else if b_snd {
            Ordering::Less
        } else {
            DeciderSec::compare_trumpf(card_fst, card_snd)
        }
    }

    fn trumpfs_in_descending_order(veceschlag: Vec<ESchlag>) -> (r: Vec<SCard>) {
        let eschlag = SchlagDesignator::schlag();
        let mut veccard_trumpf = vec![
            SCard::new(EFarbe::Eichel, eschlag),
            SCard::new(EFarbe::Gras, eschlag),
            SCard::new(EFarbe::Herz, eschlag),
            SCard::new(EFarbe::Schelln, eschlag),
        ];
        let mut veceschlag = veceschlag;
        veceschlag.push(eschlag);
        let mut veccard_trumpf_sec = DeciderSec::trumpfs_in_descending_order(veceschlag);
        veccard_trumpf.append(&mut veccard_trumpf_sec);
        veccard_trumpf
    }
}

/// Names the suit that a `STrumpfDeciderFarbe` makes trump.
pub trait TFarbeDesignator {
    spec fn spec_farbe() -> EFarbe;

    fn farbe() -> (r: EFarbe)
        ensures
            r == Self::spec_farbe(),
    ;
}

#[derive(Clone, Debug)]
pub struct SFarbeDesignatorEichel {}

#[derive(Clone, Debug)]
pub struct SFarbeDesignatorGras {}

#[derive(Clone, Debug)]
pub struct SFarbeDesignatorHerz {}

#[derive(Clone, Debug)]
pub struct SFarbeDesignatorSchelln {}

impl TFarbeDesignator for SFarbeDesignatorEichel {
    open spec fn spec_farbe() -> EFarbe {
        EFarbe::Eichel
    }

    fn farbe() -> (r: EFarbe) {
        EFarbe::Eichel
    }
}

impl TFarbeDesignator for SFarbeDesignatorGras {
    open spec fn spec_farbe() -> EFarbe {
        EFarbe::Gras
    }

    fn farbe() -> (r: EFarbe) {
        EFarbe::Gras
    }
}

impl TFarbeDesignator for SFarbeDesignatorHerz {
    open spec fn spec_farbe() -> EFarbe {
        EFarbe::Herz
    }

    fn farbe() -> (r: EFarbe) {
        EFarbe::Herz
    }
}

impl TFarbeDesignator for SFarbeDesignatorSchelln {
    open spec fn spec_farbe() -> EFarbe {
        EFarbe::Schelln
    }

    fn farbe() -> (r: EFarbe) {
        EFarbe::Schelln
    }
}

/// One suit is trump; its cards rank as in a plain suit.
#[derive(Debug)]
pub struct STrumpfDeciderFarbe<FarbeDesignator> {
    farbedesignator: PhantomData<FarbeDesignator>,
}

/// All ranks, from the highest down.
pub open spec fn spec_schlag_values() -> Seq<ESchlag> {
    seq![
        ESchlag::Ass,
        ESchlag::Zehn,
        ESchlag::Koenig,
        ESchlag::Ober,
        ESchlag::Unter,
        ESchlag::S9,
        ESchlag::S8,
        ESchlag::S7,
    ]
}

impl<FarbeDesignator: TFarbeDesignator> TTrumpfDecider for STrumpfDeciderFarbe<FarbeDesignator> {
    open spec fn spec_trumpforfarbe(card: SCard) -> VTrumpfOrFarbe {
        if card.efarbe == FarbeDesignator::spec_farbe() {
            VTrumpfOrFarbe::Trumpf
        } else {
            VTrumpfOrFarbe::Farbe(card.efarbe)
        }
    }

    open spec fn spec_compare_trumpf(card_fst: SCard, card_snd: SCard) -> Ordering {
        spec_compare_farbcards_same_color(card_fst, card_snd)
    }

    open spec fn spec_trumpfs_in_descending_order(veceschlag: Seq<ESchlag>) -> Seq<SCard> {
        spec_schlag_values().filter(|eschlag: ESchlag| !veceschlag.contains(eschlag)).map_values(
            |eschlag: ESchlag| SCard { efarbe: FarbeDesignator::spec_farbe(), eschlag },
        )
    }

    fn trumpforfarbe(card: SCard) -> (r: VTrumpfOrFarbe) {
        if FarbeDesignator::farbe() == card.farbe() {
            VTrumpfOrFarbe::Trumpf
        } else {
            VTrumpfOrFarbe::Farbe(card.farbe())
        }
    }

    fn compare_trumpf(card_fst: SCard, card_snd: SCard) -> (r: Ordering) {
        compare_farbcards_same_color(card_fst, card_snd)
    }

    fn trumpfs_in_descending_order(veceschlag: Vec<ESchlag>) -> (r: Vec<SCard>) {
        let efarbe = FarbeDesignator::farbe();
        let aeschlag = ESchlag::values();
        let ghost pred = |eschlag: ESchlag| !veceschlag@.contains(eschlag);
        let ghost f = |eschlag: ESchlag| SCard { efarbe: FarbeDesignator::spec_farbe(), eschlag };
        let mut r: Vec<SCard> = Vec::new();
        let mut i: usize = 0;
        while i < aeschlag.len()
            invariant
                pred == (|eschlag: ESchlag| !veceschlag@.contains(eschlag)),
                f == (|eschlag: ESchlag| SCard { efarbe: FarbeDesignator::spec_farbe(), eschlag }),
                efarbe == FarbeDesignator::spec_farbe(),
                aeschlag@ == spec_schlag_values(),
                i <= aeschlag@.len(),
                r@ == aeschlag@.take(i as int).filter(pred).map_values(f),
            decreases aeschlag@.len() - i,
        {
            let eschlag = aeschlag[i];
            assert(aeschlag@.take(i as int + 1) =~= aeschlag@.take(i as int).push(eschlag));
            proof {
                aeschlag@.take(i as int).lemma_filter_push(eschlag, pred);
            }
            let mut b_done = false;
            let mut k: usize = 0;
            while k < veceschlag.len()
                invariant
                    k <= veceschlag@.len(),
                    b_done == (exists|l: int| 0 <= l < k && veceschlag@[l] == eschlag),
                decreases veceschlag@.len() - k,
            {
                if veceschlag[k] == eschlag {
                    b_done = true;
                }
                k = k + 1;
            }
            if !b_done {
                r.push(SCard::new(efarbe, eschlag));
                assert(r@ =~= aeschlag@.take(i as int + 1).filter(pred).map_values(f));
            } else {
                assert(r@ =~= aeschlag@.take(i as int + 1).filter(pred).map_values(f));
            }
            i = i + 1;
        }
        assert(aeschlag@.take(i as int) =~= aeschlag@);
        r
    }
}

} // verus!
