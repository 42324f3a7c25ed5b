use crate::primitives::{EKurzLang, EPlayerIndex, SCard};
use crate::rules::TRules;
use crate::stich::{SStich, SStichView};
use arrayvec::ArrayVec;
use vstd::prelude::*;

verus! {

/// The tricks that a trick vector holds, in order.
pub uninterp spec fn stich_vector_items(v: ArrayVec<SStich, 9>) -> Seq<SStich>;

/// Relies on `ArrayVec::new`: a new vector is empty.
#[verifier::external_body]
fn stich_vector_new() -> (r: ArrayVec<SStich, 9>)
    ensures
        stich_vector_items(r) == Seq::<SStich>::empty(),
{
    ArrayVec::new()
}

/// Relies on `ArrayVec::len`: the number of elements held, at most the capacity.
#[verifier::external_body]
fn stich_vector_len(v: &ArrayVec<SStich, 9>) -> (r: usize)
    ensures
        r == stich_vector_items(*v).len(),
        r <= 9,
{
    v.len()
}

/// Relies on `ArrayVec::push`: appends at the end; panics only when full.
#[verifier::external_body]
fn stich_vector_push(v: &mut ArrayVec<SStich, 9>, stich: SStich)
    requires
        stich_vector_items(*old(v)).len() < 9,
    ensures
        stich_vector_items(*final(v)) == stich_vector_items(*old(v)).push(stich),
{
    v.push(stich)
}

/// Relies on `ArrayVec::pop`: takes out the last element, `Some` unless empty.
#[verifier::external_body]
fn stich_vector_pop(v: &mut ArrayVec<SStich, 9>) -> (r: Option<SStich>)
    ensures
        stich_vector_items(*old(v)).len() == 0 ==> r is None && stich_vector_items(*final(v))
            == stich_vector_items(*old(v)),
        stich_vector_items(*old(v)).len() > 0 ==> r == Some(stich_vector_items(*old(v)).last())
            && stich_vector_items(*final(v)) == stich_vector_items(*old(v)).drop_last(),
{
    v.pop()
}

/// Relies on range indexing through `ArrayVec`'s slice: the first `n` elements.
#[verifier::external_body]
fn stich_vector_prefix(v: &ArrayVec<SStich, 9>, n: usize) -> (r: &[SStich])
    requires
        n <= stich_vector_items(*v).len(),
    ensures
        r@ == stich_vector_items(*v).take(n as int),
{
    &v[0..n]
}

/// What a trick sequence is: its tricks, the last one being the current one.
pub struct SStichSequenceView {
    pub stichs: Seq<SStichView>,
    pub ekurzlang: EKurzLang,
}

impl SStichSequenceView {
    pub open spec fn n_completed(self) -> nat {
        (self.stichs.len() - 1) as nat
    }

    pub open spec fn completed(self) -> Seq<SStichView> {
        self.stichs.drop_last()
    }

    pub open spec fn current(self) -> SStichView {
        self.stichs.last()
    }

    /// Every trick but the last is full, the last is not, at most one trick
    /// per card of a hand is completed, and once all are the current one is empty.
    pub open spec fn wf(self) -> bool {
        &&& self.stichs.len() >= 1
        &&& forall|i: int| 0 <= i < self.stichs.len() - 1 ==> (#[trigger] self.stichs[i]).is_full()
        &&& self.current().cards.len() < 4
        &&& self.n_completed() <= self.ekurzlang.spec_cards_per_player()
        &&& self.n_completed() == self.ekurzlang.spec_cards_per_player() ==> self.current().cards.len()
            == 0
    }

    pub open spec fn game_finished(self) -> bool {
        self.n_completed() == self.ekurzlang.spec_cards_per_player()
    }

    /// The player to play next.
    pub open spec fn current_player(self) -> EPlayerIndex {
        self.current().player_at(self.current().cards.len())
    }

    pub open spec fn count_played_cards(self) -> nat {
        self.n_completed() * 4 + self.current().cards.len()
    }

    /// The current trick with `card` played to it.
    pub open spec fn current_after(self, card: SCard) -> SStichView {
        SStichView { epi_first: self.current().epi_first, cards: self.current().cards.push(card) }
    }

    /// The sequence after `card` is played; when it fills the trick, a new
    /// trick led by `epi_winner` is opened.
    pub open spec fn zugeben(self, card: SCard, epi_winner: EPlayerIndex) -> SStichSequenceView {
        let stich = self.current_after(card);
        let stichs = self.stichs.update(self.stichs.len() - 1, stich);
        SStichSequenceView {
            stichs: if stich.is_full() {
                stichs.push(SStichView { epi_first: epi_winner, cards: Seq::empty() })
            } else {
                stichs
            },
            ekurzlang: self.ekurzlang,
        }
    }

    /// The sequence with its most recent card taken back.
    pub open spec fn undo(self) -> SStichSequenceView {
        let stichs = if self.current().cards.len() == 0 {
            self.stichs.drop_last()
        } else {
            self.stichs
        };
        let stich = stichs.last();
        SStichSequenceView {
            stichs: stichs.update(
                stichs.len() - 1,
                SStichView { epi_first: stich.epi_first, cards: stich.cards.drop_last() },
            ),
            ekurzlang: self.ekurzlang,
        }
    }
}

/// Playing a card keeps the ledger well formed, and taking it back restores
/// the ledger exactly.
pub proof fn lemma_zugeben_undo(s: SStichSequenceView, card: SCard, epi_winner: EPlayerIndex)
    requires
        s.wf(),
        !s.game_finished(),
    ensures
        s.zugeben(card, epi_winner).wf(),
        s.zugeben(card, epi_winner).undo() == s,
        s.zugeben(card, epi_winner).count_played_cards() == s.count_played_cards() + 1,
{
    let t = s.zugeben(card, epi_winner);
    let stich = s.current_after(card);
    if stich.is_full() {
        assert(t.stichs.len() == s.stichs.len() + 1);
        assert forall|i: int| 0 <= i < t.stichs.len() - 1 implies (#[trigger] t.stichs[i]).is_full() by {
            if i < s.stichs.len() - 1 {
                assert(t.stichs[i] == s.stichs[i]);
            }
        }
    } else {
        assert forall|i: int| 0 <= i < t.stichs.len() - 1 implies (#[trigger] t.stichs[i]).is_full() by {
            assert(t.stichs[i] == s.stichs[i]);
        }
    }
    let u = t.undo();
    assert(stich.cards.drop_last() =~= s.current().cards);
    assert(u.stichs =~= s.stichs);
}

/// The play history of a deal: completed tricks followed by the current one.
#[derive(Debug)]
pub struct SStichSequence {
    vecstich: ArrayVec<SStich, 9>,
    ekurzlang: EKurzLang,
}

impl View for SStichSequence {
    type V = SStichSequenceView;

    closed spec fn view(&self) -> SStichSequenceView {
        SStichSequenceView {
            stichs: stich_vector_items(self.vecstich).map_values(|stich: SStich| stich@),
            ekurzlang: self.ekurzlang,
        }
    }
}

impl SStichSequence {
    /// An empty ledger whose first trick is led by `epi_first`.
    pub fn new(epi_first: EPlayerIndex, ekurzlang: EKurzLang) -> (r: SStichSequence)
        ensures
            r@.ekurzlang == ekurzlang,
            r@.stichs == seq![SStichView { epi_first, cards: Seq::empty() }],
            r@.wf(),
    {
        let mut vecstich = stich_vector_new();
        stich_vector_push(&mut vecstich, SStich::new(epi_first));
        let r = SStichSequence { vecstich, ekurzlang };
        assert(r@.stichs =~= seq![SStichView { epi_first, cards: Seq::empty() }]);
        r
    }

    fn n_stichs(&self) -> (r: usize)
        ensures
            r == self@.stichs.len(),
    {
        stich_vector_len(&self.vecstich)
    }

    pub fn game_finished(&self) -> (r: bool)
        requires
            self@.wf(),
        ensures
            r == self@.game_finished(),
    {
        self.n_stichs() - 1 == self.ekurzlang.cards_per_player()
    }

    pub fn no_card_played(&self) -> (r: bool)
        requires
            self@.wf(),
        ensures
            r == (self@.count_played_cards() == 0),
    {
        self.n_stichs() == 1 && self.current_stich().is_empty()
    }

    /// The completed tricks, oldest first.
    pub fn completed_stichs(&self) -> (r: &[SStich])
        requires
            self@.wf(),
        ensures
            r@.map_values(|stich: SStich| stich@) == self@.completed(),
    {
        let n = self.n_stichs();
        let r = stich_vector_prefix(&self.vecstich, n - 1);
        assert(r@.map_values(|stich: SStich| stich@) =~= self@.completed());
        r
    }

    /// The tricks that have been played to, at most one per card of a hand.
    pub fn visible_stichs(&self) -> (r: &[SStich])
        requires
            self@.wf(),
        ensures
            r@.map_values(|stich: SStich| stich@) == self@.stichs.take(
                if self@.stichs.len() <= self@.ekurzlang.spec_cards_per_player() {
                    self@.stichs.len() as int
                } else {
                    self@.ekurzlang.spec_cards_per_player() as int
                },
            ),
    {
        let n = self.n_stichs();
        let n_cards_per_player = self.ekurzlang.cards_per_player();
        let n_visible = if n <= n_cards_per_player {
            n
        } else {
            n_cards_per_player
        };
        let r = stich_vector_prefix(&self.vecstich, n_visible);
        assert(r@.map_values(|stich: SStich| stich@) =~= self@.stichs.take(n_visible as int));
        r
    }

    /// All tricks, the current one last.
    pub fn stichs(&self) -> (r: &[SStich])
        ensures
            r@.map_values(|stich: SStich| stich@) == self@.stichs,
    {
        let n = self.n_stichs();
        let r = stich_vector_prefix(&self.vecstich, n);
        assert(r@.map_values(|stich: SStich| stich@) =~= self@.stichs);
        r
    }

    pub fn current_stich(&self) -> (r: &SStich)
        requires
            self@.wf(),
        ensures
            r@ == self@.current(),
    {
        let n = self.n_stichs();
        let r = stich_vector_prefix(&self.vecstich, n);
        assert(r@ =~= stich_vector_items(self.vecstich));
        &r[n - 1]
    }

    /// The last completed trick.
    pub fn last_completed_stich(&self) -> (r: &SStich)
        requires
            self@.wf(),
            self@.n_completed() > 0,
        ensures
            r@ == self@.completed().last(),
    {
        let n = self.n_stichs();
        let r = stich_vector_prefix(&self.vecstich, n);
        assert(r@ =~= stich_vector_items(self.vecstich));
        &r[n - 2]
    }

    /// The player who led the first trick.
    pub fn first_playerindex(&self) -> (r: EPlayerIndex)
        requires
            self@.wf(),
        ensures
            r == self@.stichs[0].epi_first,
    {
        let r = stich_vector_prefix(&self.vecstich, 1);
        r[0].first_playerindex()
    }

    pub fn kurzlang(&self) -> (r: EKurzLang)
        ensures
            r == self@.ekurzlang,
    {
        self.ekurzlang
    }

    pub fn count_played_cards(&self) -> (r: usize)
        requires
            self@.wf(),
        ensures
            r == self@.count_played_cards(),
    {
        (self.n_stichs() - 1) * 4 + self.current_stich().size()
    }

    /// Plays `card` into the current trick; when that fills it, opens a new
    /// trick led by `epi_winner`.
    pub fn zugeben_with_winner(&mut self, card: SCard, epi_winner: EPlayerIndex)
        requires
            old(self)@.wf(),
            !old(self)@.game_finished(),
        ensures
            final(self)@ == old(self)@.zugeben(card, epi_winner),
            final(self)@.wf(),
    {
        proof {
            lemma_zugeben_undo(self@, card, epi_winner);
        }
        let ostich = stich_vector_pop(&mut self.vecstich);
        let mut stich = ostich.unwrap();
        stich.push(card);
        let b_full = stich.is_full();
        stich_vector_push(&mut self.vecstich, stich);
        if b_full {
            stich_vector_push(&mut self.vecstich, SStich::new(epi_winner));
        }
        assert(self@.stichs =~= old(self)@.zugeben(card, epi_winner).stichs);
    }

    /// Plays `card` into the current trick; a full trick goes to the player
    /// that `rules` declares its winner, who leads the next one.
    pub fn zugeben<R: TRules>(&mut self, card: SCard, rules: &R)
        requires
            old(self)@.wf(),
            !old(self)@.game_finished(),
        ensures
            final(self)@ == old(self)@.zugeben(
                card,
                rules.spec_winner_index(old(self)@.current_after(card)),
            ),
            final(self)@.wf(),
    {
        let mut stich = self.current_stich().clone();
        stich.push(card);
        if stich.is_full() {
            let epi_winner = rules.winner_index(&stich);
            self.zugeben_with_winner(card, epi_winner);
        } else {
            let epi_first = stich.first_playerindex();
            self.zugeben_with_winner(card, epi_first);
        }
    }

    /// Takes back the card played last: the inverse of `zugeben`.
    pub fn undo_most_recent(&mut self)
        requires
            old(self)@.wf(),
            old(self)@.count_played_cards() > 0,
        ensures
            final(self)@ == old(self)@.undo(),
    {
        let ostich = stich_vector_pop(&mut self.vecstich);
        let mut stich = ostich.unwrap();
        if stich.is_empty() {
            let ostich_prev = stich_vector_pop(&mut self.vecstich);
            let mut stich_prev = ostich_prev.unwrap();
            stich_prev.undo_most_recent();
            stich_vector_push(&mut self.vecstich, stich_prev);
            assert(self@.stichs =~= old(self)@.undo().stichs);
        } else {
            stich.undo_most_recent();
            stich_vector_push(&mut self.vecstich, stich);
            assert(self@.stichs =~= old(self)@.undo().stichs);
        }
    }
}

} // verus!
