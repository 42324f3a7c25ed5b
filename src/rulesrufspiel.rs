use crate::hand::SHand;
use crate::primitives::{EFarbe, EPlayerIndex, ESchlag, SCard, VTrumpfOrFarbe};
use crate::rules::{hands_view, TRules};
use crate::rulestatecache::SRuleStateCache;
use crate::stich::{SStich, SStichView};
use crate::trumpfdecider::spec_compare_farbcards_same_color;
use crate::trumpfdecider::compare_farbcards_same_color;
use std::cmp::Ordering;
use crate::stichseq::{SStichSequence, SStichSequenceView};
use crate::trumpfdecider::{
    SFarbeDesignatorHerz, SSchlagDesignatorOber, SSchlagDesignatorUnter, STrumpfDeciderFarbe,
    STrumpfDeciderSchlag, TTrumpfDecider,
};
use vstd::prelude::*;

verus! {

/// Obers, then Unters, then hearts are trump.
pub type STrumpfDeciderRufspiel = STrumpfDeciderSchlag<
    SSchlagDesignatorOber,
    STrumpfDeciderSchlag<SSchlagDesignatorUnter, STrumpfDeciderFarbe<SFarbeDesignatorHerz>>,
>;

/// Which cards of a hand a filter keeps.
#[derive(Clone, Copy, Debug, PartialEq, Eq, Structural)]
enum EKeep {
    All,
    NotOtherRuffarbe,
    Follow,
    NotRufsau,
}

proof fn lemma_filter_all(s: Seq<SCard>, pred: spec_fn(SCard) -> bool)
    requires
        forall|card: SCard| #[trigger] pred(card),
    ensures
        s.filter(pred) == s,
    decreases s.len(),
{
    reveal(Seq::filter);
    if s.len() > 0 {
        lemma_filter_all(s.drop_last(), pred);
        assert(s.drop_last().push(s.last()) =~= s);
    }
}

proof fn lemma_filter_subset(s: Seq<SCard>, pred: spec_fn(SCard) -> bool)
    ensures
        forall|i: int| 0 <= i < s.filter(pred).len() ==> s.contains(#[trigger] s.filter(pred)[i]),
{
    assert forall|i: int| 0 <= i < s.filter(pred).len() implies s.contains(#[trigger] s.filter(pred)[i]) by {
        s.lemma_filter_contains_rev(pred, s.filter(pred)[i]);
    }
}

/// A partnership game: the declarer plays with whoever holds the ace of the
/// called suit.
#[derive(Clone, Copy, Debug)]
pub struct SRulesRufspiel {
    epi: EPlayerIndex,
    efarbe: EFarbe,
    payoutparams: SPayoutDeciderParams,
}

/// The stakes of a game: the base payout, and what each of schneider (the
/// losers took at most 30 points) and schwarz (the losers took no trick) adds.
#[derive(Clone, Copy, Debug, PartialEq, Eq, Structural)]
pub struct SPayoutDeciderParams {
    pub n_payout_base: isize,
    pub n_payout_schneider_schwarz: isize,
}

impl SPayoutDeciderParams {
    pub open spec fn wf(self) -> bool {
        &&& 0 <= self.n_payout_base
        &&& 0 <= self.n_payout_schneider_schwarz
        &&& self.n_payout_base + 2 * self.n_payout_schneider_schwarz <= N_PAYOUT_SATURATION
    }

    pub fn new(n_payout_base: isize, n_payout_schneider_schwarz: isize) -> (r: SPayoutDeciderParams)
        requires
            0 <= n_payout_base,
            0 <= n_payout_schneider_schwarz,
            n_payout_base + 2 * n_payout_schneider_schwarz <= N_PAYOUT_SATURATION,
        ensures
            r == (SPayoutDeciderParams { n_payout_base, n_payout_schneider_schwarz }),
            r.wf(),
    {
        SPayoutDeciderParams { n_payout_base, n_payout_schneider_schwarz }
    }
}

/// Where payouts stop growing when the stake is doubled again and again. An
/// `isize` may be 32 bits wide, and each raise or doubling doubles the stake,
/// so the stake is capped here to keep it and its negation representable.
pub const N_PAYOUT_SATURATION: isize = 1_000_000_000;

/// `n_payout` doubled `n_times` times, stopping at `N_PAYOUT_SATURATION`.
pub open spec fn spec_doubled(n_payout: int, n_times: nat) -> int
    decreases n_times,
{
    if n_times == 0 {
        n_payout
    } else {
        let n = spec_doubled(n_payout, (n_times - 1) as nat);
        if n > N_PAYOUT_SATURATION / 2 {
            N_PAYOUT_SATURATION as int
        } else {
            2 * n
        }
    }
}

fn doubled(n_payout: isize, n_times: usize) -> (r: isize)
    requires
        0 <= n_payout <= N_PAYOUT_SATURATION,
    ensures
        r == spec_doubled(n_payout as int, n_times as nat),
        0 <= r <= N_PAYOUT_SATURATION,
{
    let mut r = n_payout;
    let mut i: usize = 0;
    while i < n_times
        invariant
            i <= n_times,
            0 <= r <= N_PAYOUT_SATURATION,
            r == spec_doubled(n_payout as int, i as nat),
        decreases n_times - i,
    {
        if r > N_PAYOUT_SATURATION / 2 {
            r = N_PAYOUT_SATURATION;
        } else {
            r = 2 * r;
        }
        i = i + 1;
    }
    r
}

/// The half of the stake pool that each member of the declarer's side takes
/// on a win or pays on a loss, rounded toward zero.
pub open spec fn spec_stock_share(n_stock: isize) -> int {
    if n_stock >= 0 {
        n_stock / 2
    } else {
        -((-n_stock) / 2)
    }
}

/// `x`, or the nearest `isize` where `x` does not fit one.
pub open spec fn spec_clamp(x: int) -> isize {
    if x > isize::MAX {
        isize::MAX
    } else if x < isize::MIN {
        isize::MIN
    } else {
        x as isize
    }
}

fn stock_share(n_stock: isize) -> (r: isize)
    ensures
        r == spec_stock_share(n_stock),
{
    if n_stock >= 0 {
        n_stock / 2
    } else {
        let m = -(n_stock + 1);
        -(m / 2 + m % 2)
    }
}

fn clamp_add(a: isize, b: isize) -> (r: isize)
    ensures
        r == spec_clamp(a + b),
{
    if b > 0 && a > isize::MAX - b {
        isize::MAX
    } else if b < 0 && a < isize::MIN - b {
        isize::MIN
    } else {
        a + b
    }
}

/// Whether `card` beats `card_best` in a trick: a trump beats any plain card
/// and lower trumps, a plain card only lower cards of its own suit.
pub open spec fn spec_beats(card: SCard, card_best: SCard) -> bool {
    let tof = STrumpfDeciderRufspiel::spec_trumpforfarbe(card);
    let tof_best = STrumpfDeciderRufspiel::spec_trumpforfarbe(card_best);
    if tof == VTrumpfOrFarbe::Trumpf {
        tof_best != VTrumpfOrFarbe::Trumpf || STrumpfDeciderRufspiel::spec_compare_trumpf(card, card_best)
            == Ordering::Greater
    } else {
        tof == tof_best && spec_compare_farbcards_same_color(card, card_best) == Ordering::Greater
    }
}

/// The position of the winning card among the first `k` cards.
pub open spec fn spec_winner_pos(cards: Seq<SCard>, k: nat) -> nat
    decreases k,
{
    if k <= 1 {
        0
    } else {
        let i_best = spec_winner_pos(cards, (k - 1) as nat);
        if spec_beats(cards[k - 1], cards[i_best as int]) {
            (k - 1) as nat
        } else {
            i_best
        }
    }
}

proof fn lemma_winner_pos_bound(cards: Seq<SCard>, k: nat)
    ensures
        k >= 1 ==> spec_winner_pos(cards, k) < k,
    decreases k,
{
    if k > 1 {
        lemma_winner_pos_bound(cards, (k - 1) as nat);
    }
}

/// Who played `card` in `stichs`, the earliest play counting.
pub open spec fn spec_who_played(stichs: Seq<SStichView>, card: SCard) -> Option<EPlayerIndex>
    decreases stichs.len(),
{
    if stichs.len() == 0 {
        None
    } else if stichs[0].cards.contains(card) {
        Some(stichs[0].player_at(crate::hand::first_index(stichs[0].cards, card) as nat))
    } else {
        spec_who_played(stichs.skip(1), card)
    }
}

/// The tricks and points of player `q` if `q` is on the side asked for
/// (`b_party`: the players `epi` and `epi_co`; otherwise the other two).
pub open spec fn spec_count_if(
    counts: Seq<(nat, nat)>,
    q: int,
    epi: EPlayerIndex,
    epi_co: EPlayerIndex,
    b_party: bool,
) -> (nat, nat) {
    if (EPlayerIndex::of_idx(q as nat) == epi || EPlayerIndex::of_idx(q as nat) == epi_co) == b_party {
        counts[q]
    } else {
        (0nat, 0nat)
    }
}

/// Tricks and points of one side together.
pub open spec fn spec_side_counts(
    counts: Seq<(nat, nat)>,
    epi: EPlayerIndex,
    epi_co: EPlayerIndex,
    b_party: bool,
) -> (nat, nat) {
    let c0 = spec_count_if(counts, 0, epi, epi_co, b_party);
    let c1 = spec_count_if(counts, 1, epi, epi_co, b_party);
    let c2 = spec_count_if(counts, 2, epi, epi_co, b_party);
    let c3 = spec_count_if(counts, 3, epi, epi_co, b_party);
    ((c0.0 + c1.0 + c2.0 + c3.0) as nat, (c0.1 + c1.1 + c2.1 + c3.1) as nat)
}

impl SRulesRufspiel {
    #[verifier::type_invariant]
    spec fn inv(self) -> bool {
        self.efarbe != EFarbe::Herz && self.payoutparams.wf()
    }

    pub closed spec fn spec_epi(self) -> EPlayerIndex {
        self.epi
    }

    pub closed spec fn spec_efarbe(self) -> EFarbe {
        self.efarbe
    }

    /// The called ace.
    pub open spec fn spec_rufsau(self) -> SCard {
        SCard { efarbe: self.spec_efarbe(), eschlag: ESchlag::Ass }
    }

    /// Whether `card` belongs to the called suit (and is no trump).
    pub open spec fn spec_is_ruffarbe(self, card: SCard) -> bool {
        STrumpfDeciderRufspiel::spec_trumpforfarbe(card) == VTrumpfOrFarbe::Farbe(self.spec_efarbe())
    }

    pub open spec fn pred_ruffarbe(self) -> spec_fn(SCard) -> bool {
        |card: SCard| self.spec_is_ruffarbe(card)
    }

    /// Cards that the holder of the called ace may lead before it is known.
    pub open spec fn pred_first(self) -> spec_fn(SCard) -> bool {
        |card: SCard| !self.spec_is_ruffarbe(card) || card == self.spec_rufsau()
    }

    /// Cards that follow the led card `card_first`, the called ace aside.
    pub open spec fn pred_follow(self, card_first: SCard) -> spec_fn(SCard) -> bool {
        |card: SCard|
            card != self.spec_rufsau() && STrumpfDeciderRufspiel::spec_trumpforfarbe(card)
                == STrumpfDeciderRufspiel::spec_trumpforfarbe(card_first)
    }

    pub open spec fn pred_not_rufsau(self) -> spec_fn(SCard) -> bool {
        |card: SCard| card != self.spec_rufsau()
    }

    /// Whether the called suit has been led, or the called ace played, in a completed trick.
    pub open spec fn spec_rufsau_known(self, stichseq: SStichSequenceView) -> bool {
        exists|i: int|
            0 <= i < stichseq.completed().len() && ({
                let stich = #[trigger] stichseq.completed()[i];
                self.spec_is_ruffarbe(stich.cards[0]) || stich.cards.contains(self.spec_rufsau())
            })
    }

    /// The cards that may lead a trick: the holder of the called ace may not
    /// play another card of the called suit before it is known, unless they
    /// hold four of that suit.
    pub open spec fn spec_allowed_first_in_stich(self, stichseq: SStichSequenceView, hand: Seq<SCard>) -> Seq<SCard> {
        if self.spec_rufsau_known(stichseq) || !hand.contains(self.spec_rufsau()) || hand.filter(
            self.pred_ruffarbe(),
        ).len() >= 4 {
            hand
        } else {
            hand.filter(self.pred_first())
        }
    }

    /// Whether `epi` has led the called suit in a completed trick.
    pub open spec fn spec_weggelaufen(self, stichseq: SStichSequenceView, epi: EPlayerIndex) -> bool {
        exists|i: int|
            0 <= i < stichseq.completed().len() && ({
                let stich = #[trigger] stichseq.completed()[i];
                stich.epi_first == epi && self.spec_is_ruffarbe(stich.cards[0])
            })
    }

    /// The cards that may follow in a trick: the called ace when its suit is
    /// led, otherwise a card of the led suit other than the called ace, and
    /// only without one any card but the called ace (any card at all once its
    /// holder has run away with the suit).
    pub open spec fn spec_allowed_within_stich(self, stichseq: SStichSequenceView, hand: Seq<SCard>) -> Seq<SCard> {
        if hand.len() <= 1 {
            hand
        } else {
            let b_weggelaufen = self.spec_weggelaufen(stichseq, stichseq.current_player());
            let card_first = stichseq.current().cards[0];
            if self.spec_is_ruffarbe(card_first) && hand.contains(self.spec_rufsau()) && !b_weggelaufen {
                seq![self.spec_rufsau()]
            } else {
                let follow = hand.filter(self.pred_follow(card_first));
                if follow.len() == 0 {
                    if b_weggelaufen {
                        hand
                    } else {
                        hand.filter(self.pred_not_rufsau())
                    }
                } else {
                    follow
                }
            }
        }
    }

    pub open spec fn spec_allowed_cards(self, stichseq: SStichSequenceView, hand: Seq<SCard>) -> Seq<SCard> {
        if stichseq.current().cards.len() == 0 {
            self.spec_allowed_first_in_stich(stichseq, hand)
        } else {
            self.spec_allowed_within_stich(stichseq, hand)
        }
    }

    pub closed spec fn spec_payoutparams(self) -> SPayoutDeciderParams {
        self.payoutparams
    }

    /// The declarer `epi` calls the ace of `efarbe`, which is not hearts.
    pub fn new(epi: EPlayerIndex, efarbe: EFarbe, payoutparams: SPayoutDeciderParams) -> (r: SRulesRufspiel)
        requires
            efarbe != EFarbe::Herz,
            payoutparams.wf(),
        ensures
            r.spec_epi() == epi,
            r.spec_efarbe() == efarbe,
            r.spec_payoutparams() == payoutparams,
    {
        SRulesRufspiel { epi, efarbe, payoutparams }
    }

    /// Whether `q` plays on the declarer's side with co-player `epi_co`.
    pub open spec fn spec_in_party(self, epi_co: EPlayerIndex, q: int) -> bool {
        EPlayerIndex::of_idx(q as nat) == self.spec_epi() || EPlayerIndex::of_idx(q as nat) == epi_co
    }

    /// The stake, doubled once per raise and per doubling.
    pub open spec fn spec_stake(self, n_payout: int, tpln_stoss_doubling: (usize, usize)) -> int {
        spec_doubled(spec_doubled(n_payout, tpln_stoss_doubling.0 as nat), tpln_stoss_doubling.1 as nat)
    }

    /// The payouts of a finished game with co-player `epi_co`: the declarer's
    /// side wins with at least 61 points; winners get and losers pay the stake.
    /// Each member of the declarer's side also takes half the stake pool on a
    /// win and pays half of it on a loss.
    pub open spec fn spec_payout_for(
        self,
        counts: Seq<(nat, nat)>,
        epi_co: EPlayerIndex,
        tpln_stoss_doubling: (usize, usize),
        n_stock: isize,
    ) -> [isize; 4] {
        let party = spec_side_counts(counts, self.spec_epi(), epi_co, true);
        let opp = spec_side_counts(counts, self.spec_epi(), epi_co, false);
        let b_win = party.1 >= 61;
        let loser = if b_win { opp } else { party };
        let params = self.spec_payoutparams();
        let stake = params.n_payout_base + (if loser.1 <= 30 { params.n_payout_schneider_schwarz } else { 0 })
            + (if loser.0 == 0 { params.n_payout_schneider_schwarz } else { 0 });
        let m = self.spec_stake(stake as int, tpln_stoss_doubling);
        let h = spec_stock_share(n_stock);
        let pay = |q: int|
            if self.spec_in_party(epi_co, q) {
                if b_win {
                    spec_clamp(m + h)
                } else {
                    spec_clamp(-m - h)
                }
            } else {
                (if b_win { -m } else { m }) as isize
            };
        [pay(0), pay(1), pay(2), pay(3)]
    }

    /// The declarer's partner: whoever holds the called ace, or else played it.
    pub open spec fn spec_coplayer(self, stichseq: SStichSequenceView, hands: Seq<Seq<SCard>>) -> Option<EPlayerIndex> {
        if hands.len() == 4 && hands[0].contains(self.spec_rufsau()) {
            Some(EPlayerIndex::EPI0)
        } else if hands.len() == 4 && hands[1].contains(self.spec_rufsau()) {
            Some(EPlayerIndex::EPI1)
        } else if hands.len() == 4 && hands[2].contains(self.spec_rufsau()) {
            Some(EPlayerIndex::EPI2)
        } else if hands.len() == 4 && hands[3].contains(self.spec_rufsau()) {
            Some(EPlayerIndex::EPI3)
        } else {
            spec_who_played(stichseq.stichs, self.spec_rufsau())
        }
    }

    /// Payouts that are certain once one side has enough points: the winners
    /// get at least the plain stake, the losers pay at most the stake with
    /// schneider and schwarz, and the declarer's side takes or pays its share
    /// of the stake pool.
    pub open spec fn spec_hints_for(
        self,
        counts: Seq<(nat, nat)>,
        epi_co: EPlayerIndex,
        tpln_stoss_doubling: (usize, usize),
        n_stock: isize,
    ) -> [Option<isize>; 4] {
        let party = spec_side_counts(counts, self.spec_epi(), epi_co, true);
        let opp = spec_side_counts(counts, self.spec_epi(), epi_co, false);
        let params = self.spec_payoutparams();
        let m_min = self.spec_stake(params.n_payout_base as int, tpln_stoss_doubling) as isize;
        let m_max = self.spec_stake(
            params.n_payout_base + 2 * params.n_payout_schneider_schwarz,
            tpln_stoss_doubling,
        ) as isize;
        if party.1 >= 61 || opp.1 >= 60 {
            let b_party_wins = party.1 >= 61;
            let h = spec_stock_share(n_stock);
            let hint = |q: int|
                if self.spec_in_party(epi_co, q) {
                    if b_party_wins {
                        Some(spec_clamp(m_min + h))
                    } else {
                        Some(spec_clamp(-m_max - h))
                    }
                } else if b_party_wins {
                    Some((-m_max) as isize)
                } else {
                    Some(m_min)
                };
            [hint(0), hint(1), hint(2), hint(3)]
        } else {
            [None, None, None, None]
        }
    }

    pub fn playerindex(&self) -> (r: EPlayerIndex)
        ensures
            r == self.spec_epi(),
    {
        self.epi
    }

    pub fn rufsau(&self) -> (r: SCard)
        ensures
            r == self.spec_rufsau(),
    {
        SCard::new(self.efarbe, ESchlag::Ass)
    }

    pub fn trumpforfarbe(&self, card: SCard) -> (r: VTrumpfOrFarbe)
        ensures
            r == STrumpfDeciderRufspiel::spec_trumpforfarbe(card),
    {
        STrumpfDeciderRufspiel::trumpforfarbe(card)
    }

    pub fn is_ruffarbe(&self, card: SCard) -> (r: bool)
        ensures
            r == self.spec_is_ruffarbe(card),
    {
        match self.trumpforfarbe(card) {
            VTrumpfOrFarbe::Farbe(efarbe) => efarbe == self.efarbe,
            VTrumpfOrFarbe::Trumpf => false,
        }
    }

    /// The cards of `hand` in the called suit.
    fn count_ruffarbe(&self, hand: &SHand) -> (r: usize)
        ensures
            r == hand@.filter(self.pred_ruffarbe()).len(),
    {
        let ghost pred = self.pred_ruffarbe();
        let n = hand.len();
        let mut r: usize = 0;
        let mut i: usize = 0;
        while i < n
            invariant
                pred == self.pred_ruffarbe(),
                n == hand@.len(),
                i <= n,
                r == hand@.take(i as int).filter(pred).len(),
                r <= i,
            decreases n - i,
        {
            let card = hand.card_at(i);
            assert(hand@.take(i as int + 1) =~= hand@.take(i as int).push(card));
            proof {
                hand@.take(i as int).lemma_filter_push(card, pred);
            }
            if self.is_ruffarbe(card) {
                r = r + 1;
            }
            i = i + 1;
        }
        assert(hand@.take(i as int) =~= hand@);
        r
    }

    /// Whether the declarer may call this ace with `hand`: they hold a card
    /// of the called suit, but not its ace.
    pub fn can_be_played(&self, hand: &SHand) -> (r: bool)
        ensures
            r == ((forall|i: int|
                0 <= i < hand@.len() && self.spec_is_ruffarbe(#[trigger] hand@[i]) ==> hand@[i].eschlag
                    != ESchlag::Ass) && exists|i: int| 0 <= i < hand@.len() && self.spec_is_ruffarbe(#[trigger] hand@[i])),
    {
        let n = hand.len();
        let mut b_some = false;
        let mut i: usize = 0;
        while i < n
            invariant
                n == hand@.len(),
                i <= n,
                forall|j: int|
                    0 <= j < i && self.spec_is_ruffarbe(#[trigger] hand@[j]) ==> hand@[j].eschlag != ESchlag::Ass,
                b_some == exists|j: int| 0 <= j < i && self.spec_is_ruffarbe(#[trigger] hand@[j]),
            decreases n - i,
        {
            let card = hand.card_at(i);
            if self.is_ruffarbe(card) {
                if card.schlag() == ESchlag::Ass {
                    return false;
                }
                b_some = true;
            }
            i = i + 1;
        }
        b_some
    }

    fn rufsau_known(&self, stichseq: &SStichSequence) -> (r: bool)
        requires
            stichseq@.wf(),
        ensures
            r == self.spec_rufsau_known(stichseq@),
    {
        let vecstich = stichseq.completed_stichs();
        let ghost completed = stichseq@.completed();
        let rufsau = self.rufsau();
        let mut i: usize = 0;
        assert(vecstich@.map_values(|stich: crate::stich::SStich| stich@).len() == vecstich@.len());
        while i < vecstich.len()
            invariant
                stichseq@.wf(),
                vecstich@.map_values(|stich: crate::stich::SStich| stich@) == completed,
                completed == stichseq@.completed(),
                vecstich@.len() == completed.len(),
                rufsau == self.spec_rufsau(),
                i <= vecstich@.len(),
                forall|j: int|
                    0 <= j < i ==> !({
                        let stich = #[trigger] completed[j];
                        self.spec_is_ruffarbe(stich.cards[0]) || stich.cards.contains(self.spec_rufsau())
                    }),
            decreases vecstich@.len() - i,
        {
            let stich = &vecstich[i];
            assert(stich@ == completed[i as int]);
            assert(completed[i as int] == stichseq@.stichs[i as int]);
            if self.is_ruffarbe(stich.first()) {
                return true;
            }
            let mut k: usize = 0;
            while k < stich.size()
                invariant
                    k <= stich@.cards.len(),
                    stich@ == completed[i as int],
                    i < completed.len(),
                    completed == stichseq@.completed(),
                    rufsau == self.spec_rufsau(),
                    forall|l: int| 0 <= l < k ==> stich@.cards[l] != rufsau,
                decreases stich@.cards.len() - k,
            {
                if stich.card_at(k) == rufsau {
                    assert(stich@.cards[k as int] == rufsau);
                    assert(completed[i as int].cards.contains(rufsau));
                    assert(stichseq@.completed()[i as int].cards.contains(self.spec_rufsau()));
                    return true;
                }
                k = k + 1;
            }
            i = i + 1;
        }
        false
    }

    spec fn spec_keeps(self, ekeep: EKeep, card_first: SCard, card: SCard) -> bool {
        match ekeep {
            EKeep::All => true,
            EKeep::NotOtherRuffarbe => !self.spec_is_ruffarbe(card) || card == self.spec_rufsau(),
            EKeep::Follow => card != self.spec_rufsau() && STrumpfDeciderRufspiel::spec_trumpforfarbe(card)
                == STrumpfDeciderRufspiel::spec_trumpforfarbe(card_first),
            EKeep::NotRufsau => card != self.spec_rufsau(),
        }
    }

    /// The cards of `hand` that `ekeep` keeps, in order.
    fn filter_hand(&self, hand: &SHand, ekeep: EKeep, card_first: SCard) -> (r: Vec<SCard>)
        ensures
            r@ == hand@.filter(|card: SCard| self.spec_keeps(ekeep, card_first, card)),
    {
        let ghost pred = |card: SCard| self.spec_keeps(ekeep, card_first, card);
        let rufsau = self.rufsau();
        let n = hand.len();
        let mut r: Vec<SCard> = Vec::new();
        let mut i: usize = 0;
        while i < n
            invariant
                pred == (|card: SCard| self.spec_keeps(ekeep, card_first, card)),
                rufsau == self.spec_rufsau(),
                n == hand@.len(),
                i <= n,
                r@ == hand@.take(i as int).filter(pred),
            decreases n - i,
        {
            let card = hand.card_at(i);
            assert(hand@.take(i as int + 1) =~= hand@.take(i as int).push(card));
            proof {
                hand@.take(i as int).lemma_filter_push(card, pred);
            }
            let b_keep = match ekeep {
                EKeep::All => true,
                EKeep::NotOtherRuffarbe => !self.is_ruffarbe(card) || card == rufsau,
                EKeep::Follow => card != rufsau && self.trumpforfarbe(card) == self.trumpforfarbe(card_first),
                EKeep::NotRufsau => card != rufsau,
            };
            if b_keep {
                r.push(card);
            }
            i = i + 1;
        }
        assert(hand@.take(i as int) =~= hand@);
        r
    }

    /// The cards that may lead a trick.
    pub fn all_allowed_cards_first_in_stich(&self, stichseq: &SStichSequence, hand: &SHand) -> (r: Vec<SCard>)
        requires
            stichseq@.wf(),
        ensures
            r@ == self.spec_allowed_first_in_stich(stichseq@, hand@),
    {
        let card_any = self.rufsau();
        if self.rufsau_known(stichseq) || !hand.contains(self.rufsau()) || 4 <= self.count_ruffarbe(hand) {
            let r = self.filter_hand(hand, EKeep::All, card_any);
            assert(r@ =~= hand@) by {
                lemma_filter_all(hand@, |card: SCard| self.spec_keeps(EKeep::All, card_any, card));
            }
            r
        } else {
            let r = self.filter_hand(hand, EKeep::NotOtherRuffarbe, card_any);
            assert(r@ == hand@.filter(self.pred_first())) by {
                assert((|card: SCard| self.spec_keeps(EKeep::NotOtherRuffarbe, card_any, card)) =~= self.pred_first());
            }
            r
        }
    }

    /// The cards that may follow in a trick that has been led.
    pub fn all_allowed_cards_within_stich(&self, stichseq: &SStichSequence, hand: &SHand) -> (r: Vec<SCard>)
        requires
            stichseq@.wf(),
            stichseq@.current().cards.len() > 0,
        ensures
            r@ == self.spec_allowed_within_stich(stichseq@, hand@),
    {
        let rufsau = self.rufsau();
        if hand.len() <= 1 {
            let r = self.filter_hand(hand, EKeep::All, rufsau);
            assert(r@ =~= hand@) by {
                lemma_filter_all(hand@, |card: SCard| self.spec_keeps(EKeep::All, rufsau, card));
            }
            return r;
        }
        let stich = stichseq.current_stich();
        let epi = match stich.current_playerindex() {
            Some(epi) => epi,
            None => {
                proof {
                    assert(false);
                }
                return Vec::new();
            },
        };
        let b_weggelaufen = self.weggelaufen(stichseq, epi);
        let card_first = stich.first();
        if self.is_ruffarbe(card_first) && hand.contains(rufsau) && !b_weggelaufen {
            let r = vec![rufsau];
            assert(r@ =~= seq![self.spec_rufsau()]);
            return r;
        }
        let veccard_allowed = self.filter_hand(hand, EKeep::Follow, card_first);
        proof {
            assert((|card: SCard| self.spec_keeps(EKeep::Follow, card_first, card)) =~= self.pred_follow(card_first));
        }
        if veccard_allowed.len() == 0 {
            if b_weggelaufen {
                let r = self.filter_hand(hand, EKeep::All, rufsau);
                assert(r@ =~= hand@) by {
                    lemma_filter_all(hand@, |card: SCard| self.spec_keeps(EKeep::All, rufsau, card));
                }
                r
            } else {
                let r = self.filter_hand(hand, EKeep::NotRufsau, rufsau);
                proof {
                    assert((|card: SCard| self.spec_keeps(EKeep::NotRufsau, rufsau, card)) =~= self.pred_not_rufsau());
                }
                r
            }
        } else {
            veccard_allowed
        }
    }

    /// The cards of `hand` that may be played next.
    pub fn all_allowed_cards(&self, stichseq: &SStichSequence, hand: &SHand) -> (r: Vec<SCard>)
        requires
            stichseq@.wf(),
        ensures
            r@ == self.spec_allowed_cards(stichseq@, hand@),
    {
        if stichseq.current_stich().is_empty() {
            self.all_allowed_cards_first_in_stich(stichseq, hand)
        } else {
            self.all_allowed_cards_within_stich(stichseq, hand)
        }
    }

    fn weggelaufen(&self, stichseq: &SStichSequence, epi: EPlayerIndex) -> (r: bool)
        requires
            stichseq@.wf(),
        ensures
            r == self.spec_weggelaufen(stichseq@, epi),
    {
        let vecstich = stichseq.completed_stichs();
        let ghost completed = stichseq@.completed();
        let mut i: usize = 0;
        assert(vecstich@.map_values(|stich: crate::stich::SStich| stich@).len() == vecstich@.len());
        while i < vecstich.len()
            invariant
                stichseq@.wf(),
                vecstich@.map_values(|stich: crate::stich::SStich| stich@) == completed,
                completed == stichseq@.completed(),
                vecstich@.len() == completed.len(),
                i <= vecstich@.len(),
                forall|j: int|
                    0 <= j < i ==> !({
                        let stich = #[trigger] completed[j];
                        stich.epi_first == epi && self.spec_is_ruffarbe(stich.cards[0])
                    }),
            decreases vecstich@.len() - i,
        {
            let stich = &vecstich[i];
            assert(stich@ == completed[i as int]);
            assert(completed[i as int] == stichseq@.stichs[i as int]);
            if stich.first_playerindex() == epi && self.is_ruffarbe(stich.first()) {
                return true;
            }
            i = i + 1;
        }
        false
    }
}

fn count_if(
    rulestatecache: &SRuleStateCache,
    q: usize,
    epi: EPlayerIndex,
    epi_co: EPlayerIndex,
    b_party: bool,
) -> (r: (u64, u64))
    requires
        q < 4,
    ensures
        r.0 == spec_count_if(rulestatecache@, q as int, epi, epi_co, b_party).0,
        r.1 == spec_count_if(rulestatecache@, q as int, epi, epi_co, b_party).1,
        r.0 < 0x1_0000_0000,
        r.1 < 0x1_0000_0000,
{
    let _ = rulestatecache.n_players();
    let epi_q = EPlayerIndex::from_usize(q);
    if (epi_q == epi || epi_q == epi_co) == b_party {
        let count = rulestatecache.point_stich_count(epi_q);
        (count.n_stich as u64, count.n_point as u64)
    } else {
        (0, 0)
    }
}

pub(crate) fn side_counts(
    rulestatecache: &SRuleStateCache,
    epi: EPlayerIndex,
    epi_co: EPlayerIndex,
    b_party: bool,
) -> (r: (u64, u64))
    ensures
        r.0 == spec_side_counts(rulestatecache@, epi, epi_co, b_party).0,
        r.1 == spec_side_counts(rulestatecache@, epi, epi_co, b_party).1,
{
    let _ = rulestatecache.n_players();
    let c0 = count_if(rulestatecache, 0, epi, epi_co, b_party);
    let c1 = count_if(rulestatecache, 1, epi, epi_co, b_party);
    let c2 = count_if(rulestatecache, 2, epi, epi_co, b_party);
    let c3 = count_if(rulestatecache, 3, epi, epi_co, b_party);
    (c0.0 + c1.0 + c2.0 + c3.0, c0.1 + c1.1 + c2.1 + c3.1)
}

impl SRulesRufspiel {
    fn stake(&self, n_payout: isize, tpln_stoss_doubling: (usize, usize)) -> (r: isize)
        requires
            0 <= n_payout <= N_PAYOUT_SATURATION,
        ensures
            r == self.spec_stake(n_payout as int, tpln_stoss_doubling),
            0 <= r <= N_PAYOUT_SATURATION,
    {
        let n = doubled(n_payout, tpln_stoss_doubling.0);
        doubled(n, tpln_stoss_doubling.1)
    }

    fn who_played_rufsau(&self, stichseq: &SStichSequence) -> (r: Option<EPlayerIndex>)
        requires
            stichseq@.wf(),
        ensures
            r == spec_who_played(stichseq@.stichs, self.spec_rufsau()),
    {
        let vecstich = stichseq.stichs();
        let ghost stichs = stichseq@.stichs;
        let rufsau = self.rufsau();
        assert(vecstich@.map_values(|stich: SStich| stich@).len() == vecstich@.len());
        assert(stichs.skip(0) =~= stichs);
        let mut i: usize = 0;
        while i < vecstich.len()
            invariant
                vecstich@.map_values(|stich: SStich| stich@) == stichs,
                vecstich@.len() == stichs.len(),
                stichs == stichseq@.stichs,
                rufsau == self.spec_rufsau(),
                i <= stichs.len(),
                spec_who_played(stichs.skip(i as int), rufsau) == spec_who_played(stichs, rufsau),
            decreases stichs.len() - i,
        {
            let stich = &vecstich[i];
            assert(stich@ == stichs[i as int]);
            assert(stichs.skip(i as int)[0] == stichs[i as int]);
            assert(stichs.skip(i as int).skip(1) =~= stichs.skip(i as int + 1));
            let mut k: usize = 0;
            while k < stich.size()
                invariant
                    k <= stich@.cards.len(),
                    i < stichs.len(),
                    stich@ == stichs[i as int],
                    rufsau == self.spec_rufsau(),
                    spec_who_played(stichs.skip(i as int), rufsau) == spec_who_played(stichs, rufsau),
                    stichs == stichseq@.stichs,
                    stichs.skip(i as int)[0] == stichs[i as int],
                    forall|l: int| 0 <= l < k ==> stich@.cards[l] != rufsau,
                decreases stich@.cards.len() - k,
            {
                if stich.card_at(k) == rufsau {
                    proof {
                        crate::hand::lemma_first_index(stich@.cards, rufsau, k as int);
                        assert(stich@.cards.contains(rufsau));
                        assert(stichs.skip(i as int)[0].cards.contains(rufsau));
                        assert(stichs.skip(i as int).len() > 0);
                        assert(spec_who_played(stichs.skip(i as int), rufsau) == Some(
                            stichs.skip(i as int)[0].player_at(
                                crate::hand::first_index(stichs.skip(i as int)[0].cards, rufsau) as nat,
                            ),
                        ));
                    }
                    return Some(stich.first_playerindex().wrapping_add(k));
                }
                k = k + 1;
            }
            assert(!stich@.cards.contains(rufsau));
            i = i + 1;
        }
        assert(stichs.skip(i as int).len() == 0);
        None
    }

    pub(crate) fn coplayer(&self, stichseq: &SStichSequence, ahand: &Vec<SHand>) -> (r: Option<EPlayerIndex>)
        requires
            stichseq@.wf(),
            ahand@.len() == 4,
        ensures
            r == self.spec_coplayer(stichseq@, hands_view(ahand@)),
    {
        let rufsau = self.rufsau();
        let ghost hands = hands_view(ahand@);
        assert(hands[0] == ahand@[0]@ && hands[1] == ahand@[1]@ && hands[2] == ahand@[2]@ && hands[3] == ahand@[3]@);
        if ahand[0].contains(rufsau) {
            Some(EPlayerIndex::EPI0)
        } else if ahand[1].contains(rufsau) {
            Some(EPlayerIndex::EPI1)
        } else if ahand[2].contains(rufsau) {
            Some(EPlayerIndex::EPI2)
        } else if ahand[3].contains(rufsau) {
            Some(EPlayerIndex::EPI3)
        } else {
            self.who_played_rufsau(stichseq)
        }
    }
}

impl TRules for SRulesRufspiel {
    open spec fn spec_winner_index(&self, stich: SStichView) -> EPlayerIndex {
        stich.player_at(spec_winner_pos(stich.cards, 4))
    }

    open spec fn spec_all_allowed_cards(&self, stichseq: SStichSequenceView, hand: Seq<SCard>) -> Seq<SCard> {
        self.spec_allowed_cards(stichseq, hand)
    }

    open spec fn spec_trumpforfarbe(&self, card: SCard) -> VTrumpfOrFarbe {
        STrumpfDeciderRufspiel::spec_trumpforfarbe(card)
    }

    open spec fn spec_payout(
        &self,
        stichseq: SStichSequenceView,
        tpln_stoss_doubling: (usize, usize),
        n_stock: isize,
        counts: Seq<(nat, nat)>,
    ) -> [isize; 4] {
        match spec_who_played(stichseq.stichs, self.spec_rufsau()) {
            Some(epi_co) => self.spec_payout_for(counts, epi_co, tpln_stoss_doubling, n_stock),
            None => [0, 0, 0, 0],
        }
    }

    open spec fn spec_payouthints(
        &self,
        stichseq: SStichSequenceView,
        hands: Seq<Seq<SCard>>,
        counts: Seq<(nat, nat)>,
        tpln_stoss_doubling: (usize, usize),
        n_stock: isize,
    ) -> [Option<isize>; 4] {
        match self.spec_coplayer(stichseq, hands) {
            Some(epi_co) => self.spec_hints_for(counts, epi_co, tpln_stoss_doubling, n_stock),
            None => [None, None, None, None],
        }
    }

    proof fn lemma_all_allowed_cards(&self, stichseq: SStichSequenceView, hand: Seq<SCard>) {
        let r = self.spec_allowed_cards(stichseq, hand);
        let rufsau = self.spec_rufsau();
        assert forall|i: int| 0 <= i < hand.len() implies hand.contains(#[trigger] hand[i]) by {}
        lemma_filter_subset(hand, self.pred_first());
        lemma_filter_subset(hand, self.pred_not_rufsau());
        if stichseq.current().cards.len() == 0 {
            if !(self.spec_rufsau_known(stichseq) || !hand.contains(rufsau) || hand.filter(
                self.pred_ruffarbe(),
            ).len() >= 4) {
                hand.filter_lemma(self.pred_first());
                let i = choose|i: int| 0 <= i < hand.len() && hand[i] == rufsau;
                assert(hand.filter(self.pred_first()).contains(hand[i]));
            }
        } else if hand.len() > 1 {
            let card_first = stichseq.current().cards[0];
            lemma_filter_subset(hand, self.pred_follow(card_first));
            let b_weggelaufen = self.spec_weggelaufen(stichseq, stichseq.current_player());
            if self.spec_is_ruffarbe(card_first) && hand.contains(rufsau) && !b_weggelaufen {
                assert(r == seq![rufsau]);
                assert forall|i: int| 0 <= i < r.len() implies hand.contains(#[trigger] r[i]) by {
                    assert(r[i] == rufsau);
                }
            } else if hand.filter(self.pred_follow(card_first)).len() == 0 && !b_weggelaufen {
                hand.filter_lemma(self.pred_not_rufsau());
                let j = if hand[0] != rufsau { 0int } else { 1int };
                assert(hand[0] != hand[1]);
                assert(hand[j] != rufsau);
                assert(hand.filter(self.pred_not_rufsau()).contains(hand[j]));
            }
        }
    }

    fn winner_index(&self, stich: &SStich) -> (r: EPlayerIndex) {
        let mut i_best: usize = 0;
        let mut i: usize = 1;
        while i < 4
            invariant
                stich@.cards.len() == 4,
                1 <= i <= 4,
                i_best == spec_winner_pos(stich@.cards, i as nat),
                i_best < i,
            decreases 4 - i,
        {
            let card = stich.card_at(i);
            let card_best = stich.card_at(i_best);
            let tof = STrumpfDeciderRufspiel::trumpforfarbe(card);
            let tof_best = STrumpfDeciderRufspiel::trumpforfarbe(card_best);
            let b_beats = match tof {
                VTrumpfOrFarbe::Trumpf => match tof_best {
                    VTrumpfOrFarbe::Trumpf => match STrumpfDeciderRufspiel::compare_trumpf(card, card_best) {
                        Ordering::Greater => true,
                        _ => false,
                    },
                    VTrumpfOrFarbe::Farbe(_) => true,
                },
                VTrumpfOrFarbe::Farbe(efarbe) => tof == tof_best && match compare_farbcards_same_color(card, card_best) {
                    Ordering::Greater => true,
                    _ => false,
                },
            };
            if b_beats {
                i_best = i;
            }
            i = i + 1;
        }
        stich.first_playerindex().wrapping_add(i_best)
    }

    fn all_allowed_cards(&self, stichseq: &SStichSequence, hand: &SHand) -> (r: Vec<SCard>) {
        SRulesRufspiel::all_allowed_cards(self, stichseq, hand)
    }

    fn payout_with_cache(
        &self,
        stichseq: &SStichSequence,
        tpln_stoss_doubling: (usize, usize),
        n_stock: isize,
        rulestatecache: &SRuleStateCache,
    ) -> (r: [isize; 4]) {
        match self.who_played_rufsau(stichseq) {
            Some(epi_co) => self.payout_for(rulestatecache, epi_co, tpln_stoss_doubling, n_stock),
            None => [0, 0, 0, 0],
        }
    }

    fn payouthints(
        &self,
        stichseq: &SStichSequence,
        ahand: &Vec<SHand>,
        rulestatecache: &SRuleStateCache,
        tpln_stoss_doubling: (usize, usize),
        n_stock: isize,
    ) -> (r: [Option<isize>; 4]) {
        match self.coplayer(stichseq, ahand) {
            Some(epi_co) => self.hints_for(rulestatecache, epi_co, tpln_stoss_doubling, n_stock),
            None => [None, None, None, None],
        }
    }

    fn trumpforfarbe(&self, card: SCard) -> (r: VTrumpfOrFarbe) {
        STrumpfDeciderRufspiel::trumpforfarbe(card)
    }
}

impl SRulesRufspiel {
    fn payout_for(
        &self,
        rulestatecache: &SRuleStateCache,
        epi_co: EPlayerIndex,
        tpln_stoss_doubling: (usize, usize),
        n_stock: isize,
    ) -> (r: [isize; 4])
        ensures
            r == self.spec_payout_for(rulestatecache@, epi_co, tpln_stoss_doubling, n_stock),
    {
        proof {
            use_type_invariant(self);
        }
        let _ = rulestatecache.n_players();
        let party = side_counts(rulestatecache, self.epi, epi_co, true);
        let opp = side_counts(rulestatecache, self.epi, epi_co, false);
        let b_win = party.1 >= 61;
        let loser = if b_win { opp } else { party };
        let mut stake = self.payoutparams.n_payout_base;
        if loser.1 <= 30 {
            stake = stake + self.payoutparams.n_payout_schneider_schwarz;
        }
        if loser.0 == 0 {
            stake = stake + self.payoutparams.n_payout_schneider_schwarz;
        }
        let m = self.stake(stake, tpln_stoss_doubling);
        let h = stock_share(n_stock);
        let n_party = if b_win {
            clamp_add(m, h)
        } else {
            clamp_add(-m, -h)
        };
        let mut an_payout: [isize; 4] = [0, 0, 0, 0];
        let mut q: usize = 0;
        while q < 4
            invariant
                q <= 4,
                0 <= m <= N_PAYOUT_SATURATION,
                h == spec_stock_share(n_stock),
                n_party == (if b_win { spec_clamp(m + h) } else { spec_clamp(-m - h) }),
                forall|j: int|
                    0 <= j < q ==> an_payout@[j] == if self.spec_in_party(epi_co, j) {
                        n_party
                    } else {
                        (if b_win { -m } else { m as int }) as isize
                    },
            decreases 4 - q,
        {
            let epi_q = EPlayerIndex::from_usize(q);
            let b_party = epi_q == self.epi || epi_q == epi_co;
            an_payout[q] = if b_party {
                n_party
            } else if b_win {
                -m
            } else {
                m
            };
            q = q + 1;
        }
        [an_payout[0], an_payout[1], an_payout[2], an_payout[3]]
    }

    fn hints_for(
        &self,
        rulestatecache: &SRuleStateCache,
        epi_co: EPlayerIndex,
        tpln_stoss_doubling: (usize, usize),
        n_stock: isize,
    ) -> (r: [Option<isize>; 4])
        ensures
            r == self.spec_hints_for(rulestatecache@, epi_co, tpln_stoss_doubling, n_stock),
    {
        proof {
            use_type_invariant(self);
        }
        let _ = rulestatecache.n_players();
        let party = side_counts(rulestatecache, self.epi, epi_co, true);
        let opp = side_counts(rulestatecache, self.epi, epi_co, false);
        let m_min = self.stake(self.payoutparams.n_payout_base, tpln_stoss_doubling);
        let m_max = self.stake(
            self.payoutparams.n_payout_base + 2 * self.payoutparams.n_payout_schneider_schwarz,
            tpln_stoss_doubling,
        );
        if party.1 >= 61 || opp.1 >= 60 {
            let b_party_wins = party.1 >= 61;
            let h = stock_share(n_stock);
            let n_party = if b_party_wins {
                clamp_add(m_min, h)
            } else {
                clamp_add(-m_max, -h)
            };
            let mut aohint: [Option<isize>; 4] = [None, None, None, None];
            let mut q: usize = 0;
            while q < 4
                invariant
                    q <= 4,
                    0 <= m_max <= N_PAYOUT_SATURATION,
                    h == spec_stock_share(n_stock),
                    n_party == (if b_party_wins { spec_clamp(m_min + h) } else { spec_clamp(-m_max - h) }),
                    forall|j: int|
                        0 <= j < q ==> aohint@[j] == if self.spec_in_party(epi_co, j) {
                            Some(n_party)
                        } else if b_party_wins {
                            Some((-m_max) as isize)
                        } else {
                            Some(m_min)
                        },
                decreases 4 - q,
            {
                let epi_q = EPlayerIndex::from_usize(q);
                let b_party = epi_q == self.epi || epi_q == epi_co;
                aohint[q] = if b_party {
                    Some(n_party)
                } else if b_party_wins {
                    Some(-m_max)
                } else {
                    Some(m_min)
                };
                q = q + 1;
            }
            [aohint[0], aohint[1], aohint[2], aohint[3]]
        } else {
            [None, None, None, None]
        }
    }
}

} // verus!
