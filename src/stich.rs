use crate::primitives::{EPlayerIndex, SCard, N_PLAYERS};
use vstd::prelude::*;

verus! {

/// What a trick is: who led it and the cards played to it, in order.
pub struct SStichView {
    pub epi_first: EPlayerIndex,
    pub cards: Seq<SCard>,
}

impl SStichView {
    pub open spec fn wf(self) -> bool {
        self.cards.len() <= 4
    }

    pub open spec fn is_full(self) -> bool {
        self.cards.len() == 4
    }

    /// The player who played (or will play) the `i`-th card of the trick.
    pub open spec fn player_at(self, i: nat) -> EPlayerIndex {
        EPlayerIndex::of_idx(self.epi_first.idx() + i)
    }

    /// How many cards `epi` stands after the leader.
    pub open spec fn offset_of(self, epi: EPlayerIndex) -> nat {
        ((epi.idx() + 4 - self.epi_first.idx()) % 4) as nat
    }

    /// Whether `epi` has already played to this trick.
    pub open spec fn has_played(self, epi: EPlayerIndex) -> bool {
        self.offset_of(epi) < self.cards.len()
    }
}

/// One trick: up to four cards, in playing order, and the player who led it.
#[derive(Debug)]
pub struct SStich {
    epi_first: EPlayerIndex,
    veccard: Vec<SCard>,
}

impl View for SStich {
    type V = SStichView;

    closed spec fn view(&self) -> SStichView {
        SStichView { epi_first: self.epi_first, cards: self.veccard@ }
    }
}

impl Clone for SStich {
    fn clone(&self) -> (r: SStich)
        ensures
            r@ == self@,
    {
        SStich { epi_first: self.epi_first, veccard: self.veccard.clone() }
    }
}

impl SStich {
    /// An empty trick led by `epi_first`.
    pub fn new(epi_first: EPlayerIndex) -> (r: SStich)
        ensures
            r@ == (SStichView { epi_first, cards: Seq::empty() }),
    {
        SStich { epi_first, veccard: Vec::new() }
    }

    /// A full trick led by `epi_first` holding `acard` in playing order.
    pub fn new_full(epi_first: EPlayerIndex, acard: [SCard; 4]) -> (r: SStich)
        ensures
            r@ == (SStichView { epi_first, cards: acard@ }),
    {
        let mut veccard: Vec<SCard> = Vec::new();
        let mut i: usize = 0;
        while i < 4
            invariant
                i <= 4,
                veccard@ == acard@.take(i as int),
            decreases 4 - i,
        {
            assert(acard@.take(i as int + 1) =~= acard@.take(i as int).push(acard@[i as int]));
            veccard.push(acard[i]);
            i = i + 1;
        }
        assert(acard@.take(4) =~= acard@);
        SStich { epi_first, veccard }
    }

    pub fn first_playerindex(&self) -> (r: EPlayerIndex)
        ensures
            r == self@.epi_first,
    {
        self.epi_first
    }

    pub fn size(&self) -> (r: usize)
        ensures
            r == self@.cards.len(),
    {
        self.veccard.len()
    }

    pub fn is_full(&self) -> (r: bool)
        requires
            self@.wf(),
        ensures
            r == self@.is_full(),
    {
        self.veccard.len() == 4
    }

    pub fn is_empty(&self) -> (r: bool)
        ensures
            r == (self@.cards.len() == 0),
    {
        self.veccard.len() == 0
    }

    /// The card led to the trick.
    pub fn first(&self) -> (r: SCard)
        requires
            self@.cards.len() > 0,
        ensures
            r == self@.cards[0],
    {
        self.veccard[0]
    }

    /// The `i`-th card played to the trick.
    pub fn card_at(&self, i: usize) -> (r: SCard)
        requires
            i < self@.cards.len(),
        ensures
            r == self@.cards[i as int],
    {
        self.veccard[i]
    }

    /// The player whose turn it is, or `None` once the trick is full.
    pub fn current_playerindex(&self) -> (r: Option<EPlayerIndex>)
        requires
            self@.wf(),
        ensures
            self@.is_full() ==> r is None,
            !self@.is_full() ==> r == Some(self@.player_at(self@.cards.len())),
    {
        if self.veccard.len() == 4 {
            None
        } else {
            Some(self.epi_first.wrapping_add(self.veccard.len()))
        }
    }

    /// The card that `epi` played to this trick, if any.
    pub fn get(&self, epi: EPlayerIndex) -> (r: Option<SCard>)
        requires
            self@.wf(),
        ensures
            self@.has_played(epi) ==> r == Some(self@.cards[self@.offset_of(epi) as int]),
            !self@.has_played(epi) ==> r is None,
    {
        let i: usize = (epi.to_usize() + N_PLAYERS - self.epi_first.to_usize()) % N_PLAYERS;
        if i < self.veccard.len() {
            Some(self.veccard[i])
        } else {
            None
        }
    }

    /// Plays `card` as the next card of the trick.
    pub fn push(&mut self, card: SCard)
        requires
            old(self)@.cards.len() < 4,
        ensures
            final(self)@ == (SStichView {
                epi_first: old(self)@.epi_first,
                cards: old(self)@.cards.push(card),
            }),
    {
        self.veccard.push(card);
    }

    /// Takes back the card played last.
    pub fn undo_most_recent(&mut self)
        requires
            old(self)@.cards.len() > 0,
        ensures
            final(self)@ == (SStichView {
                epi_first: old(self)@.epi_first,
                cards: old(self)@.cards.drop_last(),
            }),
    {
        self.veccard.pop();
    }
}

} // verus!
