use crate::primitives::{EPlayerIndex, SCard};
use crate::stich::{SStich, SStichView};
use vstd::prelude::*;

verus! {

/// A raise announced by a player.
#[derive(Clone, Copy, Debug, PartialEq, Eq, Structural)]
pub struct SStoss {
    pub epi: EPlayerIndex,
}

/// What a finished deal paid each player.
#[derive(Clone, Copy, Debug, PartialEq, Eq)]
pub struct SGameResult {
    pub an_payout: [isize; 4],
}

/// How many of `doublings` are set.
pub open spec fn count_true(doublings: Seq<bool>) -> nat
    decreases doublings.len(),
{
    if doublings.len() == 0 {
        0
    } else {
        count_true(doublings.drop_last()) + if doublings.last() {
            1nat
        } else {
            0nat
        }
    }
}

/// The number of raises and the number of players who doubled.
pub fn stoss_and_doublings(vecstoss: &[SStoss], doublings: &[bool]) -> (r: (usize, usize))
    ensures
        r.0 == vecstoss@.len(),
        r.1 == count_true(doublings@),
{
    let mut n_doubling: usize = 0;
    let mut i: usize = 0;
    while i < doublings.len()
        invariant
            i <= doublings@.len(),
            n_doubling == count_true(doublings@.take(i as int)),
            n_doubling <= i,
        decreases doublings@.len() - i,
    {
        assert(doublings@.take(i as int + 1).drop_last() =~= doublings@.take(i as int));
        if doublings[i] {
            n_doubling = n_doubling + 1;
        }
        i = i + 1;
    }
    assert(doublings@.take(i as int) =~= doublings@);
    (vecstoss.len(), n_doubling)
}

/// Full tricks, each given by its leader and its four cards in playing order.
pub fn make_stich_vector(vectplepiacard_stich: &[(EPlayerIndex, [SCard; 4])]) -> (r: Vec<SStich>)
    ensures
        r@.len() == vectplepiacard_stich@.len(),
        forall|i: int|
            0 <= i < r@.len() ==> (#[trigger] r@[i])@ == (SStichView {
                epi_first: vectplepiacard_stich@[i].0,
                cards: vectplepiacard_stich@[i].1@,
            }),
{
    let mut r: Vec<SStich> = Vec::new();
    let mut i: usize = 0;
    while i < vectplepiacard_stich.len()
        invariant
            i <= vectplepiacard_stich@.len(),
            r@.len() == i,
            forall|j: int|
                0 <= j < i ==> (#[trigger] r@[j])@ == (SStichView {
                    epi_first: vectplepiacard_stich@[j].0,
                    cards: vectplepiacard_stich@[j].1@,
                }),
        decreases vectplepiacard_stich@.len() - i,
    {
        let (epi, acard) = vectplepiacard_stich[i];
        r.push(SStich::new_full(epi, acard));
        i = i + 1;
    }
    r
}

/// A value per card of the long deck, where one has been given.
#[derive(Debug)]
pub struct SCardMap<T> {
    aot: Vec<Option<T>>,
}

/// The map that `vecpaircardt` describes, a later pair overriding an earlier one.
pub open spec fn spec_card_map<T>(vecpaircardt: Seq<(SCard, T)>) -> Seq<Option<T>>
    decreases vecpaircardt.len(),
{
    if vecpaircardt.len() == 0 {
        Seq::new(32, |i: int| None)
    } else {
        let rest = spec_card_map(vecpaircardt.skip(1));
        let (card, t) = vecpaircardt[0];
        if rest[card.idx() as int] is Some {
            rest
        } else {
            rest.update(card.idx() as int, Some(t))
        }
    }
}

proof fn lemma_card_map_len<T>(vecpaircardt: Seq<(SCard, T)>)
    ensures
        spec_card_map(vecpaircardt).len() == 32,
    decreases vecpaircardt.len(),
{
    if vecpaircardt.len() > 0 {
        lemma_card_map_len(vecpaircardt.skip(1));
    }
}

impl<T> View for SCardMap<T> {
    type V = Seq<Option<T>>;

    closed spec fn view(&self) -> Seq<Option<T>> {
        self.aot@
    }
}

impl<T> SCardMap<T> {
    pub fn from_pairs(vecpaircardt: Vec<(SCard, T)>) -> (r: SCardMap<T>)
        ensures
            r@ == spec_card_map(vecpaircardt@),
    {
        let mut aot: Vec<Option<T>> = Vec::new();
        let mut i: usize = 0;
        while i < 32
            invariant
                i <= 32,
                aot@ == Seq::new(i as nat, |j: int| None::<T>),
            decreases 32 - i,
        {
            aot.push(None);
            assert(aot@ =~= Seq::new(i as nat + 1, |j: int| None::<T>));
            i = i + 1;
        }
        let ghost pairs = vecpaircardt@;
        let mut vecpaircardt = vecpaircardt;
        assert(pairs.skip(pairs.len() as int) =~= Seq::<(SCard, T)>::empty());
        assert(aot@ =~= Seq::new(32, |j: int| None::<T>));
        while vecpaircardt.len() > 0
            invariant
                vecpaircardt@ == pairs.take(vecpaircardt@.len() as int),
                vecpaircardt@.len() <= pairs.len(),
                aot@ == spec_card_map(pairs.skip(vecpaircardt@.len() as int)),
            decreases vecpaircardt@.len(),
        {
            let ghost k = vecpaircardt@.len() - 1;
            let (card, t) = vecpaircardt.pop().unwrap();
            proof {
                assert(pairs[k] == (card, t));
                assert(pairs.skip(k).skip(1) =~= pairs.skip(k + 1));
                assert(pairs.skip(k)[0] == pairs[k]);
                lemma_card_map_len(pairs.skip(k + 1));
                assert(vecpaircardt@ =~= pairs.take(k));
            }
            let i = card.to_usize();
            if aot[i].is_none() {
                aot.set(i, Some(t));
            }
        }
        assert(pairs.skip(0) =~= pairs);
        SCardMap { aot }
    }

    /// The value given for `card`.
    pub fn get(&self, card: SCard) -> (r: &T)
        requires
            self@.len() == 32,
            self@[card.idx() as int] is Some,
        ensures
            Some(*r) == self@[card.idx() as int],
    {
        self.aot[card.to_usize()].as_ref().unwrap()
    }
}

} // verus!
