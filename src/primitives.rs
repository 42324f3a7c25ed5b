use vstd::prelude::*;

verus! {

/// Number of players at the table.
pub const N_PLAYERS: usize = 4;

/// Number of distinct cards of the long deck.
pub const N_CARDS: usize = 32;

/// Seat of a player, in playing order.
#[derive(Clone, Copy, Debug, PartialEq, Eq, Structural, Hash)]
pub enum EPlayerIndex {
    EPI0,
    EPI1,
    EPI2,
    EPI3,
}

impl EPlayerIndex {
    pub open spec fn idx(self) -> nat {
        match self {
            EPlayerIndex::EPI0 => 0,
            EPlayerIndex::EPI1 => 1,
            EPlayerIndex::EPI2 => 2,
            EPlayerIndex::EPI3 => 3,
        }
    }

    pub open spec fn of_idx(i: nat) -> EPlayerIndex {
        if i % 4 == 0 {
            EPlayerIndex::EPI0
        } else if i % 4 == 1 {
            EPlayerIndex::EPI1
        } else if i % 4 == 2 {
            EPlayerIndex::EPI2
        } else {
            EPlayerIndex::EPI3
        }
    }

    pub proof fn lemma_idx_of_idx(self)
        ensures
            self.idx() < 4,
            EPlayerIndex::of_idx(self.idx()) == self,
    {
    }

    pub fn to_usize(self) -> (r: usize)
        ensures
            r == self.idx(),
            r < N_PLAYERS,
    {
        match self {
            EPlayerIndex::EPI0 => 0,
            EPlayerIndex::EPI1 => 1,
            EPlayerIndex::EPI2 => 2,
            EPlayerIndex::EPI3 => 3,
        }
    }

    pub fn from_usize(i: usize) -> (r: EPlayerIndex)
        requires
            i < N_PLAYERS,
        ensures
            r.idx() == i,
            r == EPlayerIndex::of_idx(i as nat),
    {
        if i == 0 {
            EPlayerIndex::EPI0
        } else if i == 1 {
            EPlayerIndex::EPI1
        } else if i == 2 {
            EPlayerIndex::EPI2
        } else {
            EPlayerIndex::EPI3
        }
    }

    /// The player `n` seats after `self`, counting round the table.
    pub fn wrapping_add(self, n: usize) -> (r: EPlayerIndex)
        ensures
            r == EPlayerIndex::of_idx(self.idx() + n as nat),
            r.idx() == (self.idx() + n as nat) % 4,
    {
        let i: usize = (self.to_usize() + n % 4) % 4;
        assert((self.idx() + n as nat) % 4 == (self.idx() + n % 4) % 4) by (nonlinear_arith);
        EPlayerIndex::from_usize(i)
    }
}

/// Suit of a card.
#[derive(Clone, Copy, Debug, PartialEq, Eq, Structural, Hash)]
pub enum EFarbe {
    Eichel,
    Gras,
    Herz,
    Schelln,
}

impl EFarbe {
    pub open spec fn idx(self) -> nat {
        match self {
            EFarbe::Eichel => 0,
            EFarbe::Gras => 1,
            EFarbe::Herz => 2,
            EFarbe::Schelln => 3,
        }
    }

    pub fn to_usize(self) -> (r: usize)
        ensures
            r == self.idx(),
    {
        match self {
            EFarbe::Eichel => 0,
            EFarbe::Gras => 1,
            EFarbe::Herz => 2,
            EFarbe::Schelln => 3,
        }
    }

    /// All suits, in their natural order.
    pub fn values() -> (r: Vec<EFarbe>)
        ensures
            r@ == seq![EFarbe::Eichel, EFarbe::Gras, EFarbe::Herz, EFarbe::Schelln],
    {
        vec![EFarbe::Eichel, EFarbe::Gras, EFarbe::Herz, EFarbe::Schelln]
    }
}

/// Rank of a card.
#[derive(Clone, Copy, Debug, PartialEq, Eq, Structural, Hash)]
pub enum ESchlag {
    Ass,
    Zehn,
    Koenig,
    Ober,
    Unter,
    S9,
    S8,
    S7,
}

impl ESchlag {
    pub open spec fn idx(self) -> nat {
        match self {
            ESchlag::Ass => 0,
            ESchlag::Zehn => 1,
            ESchlag::Koenig => 2,
            ESchlag::Ober => 3,
            ESchlag::Unter => 4,
            ESchlag::S9 => 5,
            ESchlag::S8 => 6,
            ESchlag::S7 => 7,
        }
    }

    pub fn to_usize(self) -> (r: usize)
        ensures
            r == self.idx(),
    {
        match self {
            ESchlag::Ass => 0,
            ESchlag::Zehn => 1,
            ESchlag::Koenig => 2,
            ESchlag::Ober => 3,
            ESchlag::Unter => 4,
            ESchlag::S9 => 5,
            ESchlag::S8 => 6,
            ESchlag::S7 => 7,
        }
    }

    /// All ranks, in their natural order.
    pub fn values() -> (r: Vec<ESchlag>)
        ensures
            r@ == seq![
                ESchlag::Ass,
                ESchlag::Zehn,
                ESchlag::Koenig,
                ESchlag::Ober,
                ESchlag::Unter,
                ESchlag::S9,
                ESchlag::S8,
                ESchlag::S7,
            ],
    {
        vec![
            ESchlag::Ass,
            ESchlag::Zehn,
            ESchlag::Koenig,
            ESchlag::Ober,
            ESchlag::Unter,
            ESchlag::S9,
            ESchlag::S8,
            ESchlag::S7,
        ]
    }
}

/// Short deck (six cards each, no sevens and eights) or long deck (eight each).
#[derive(Clone, Copy, Debug, PartialEq, Eq, Structural, Hash)]
pub enum EKurzLang {
    Kurz,
    Lang,
}

impl EKurzLang {
    pub open spec fn spec_cards_per_player(self) -> nat {
        match self {
            EKurzLang::Kurz => 6,
            EKurzLang::Lang => 8,
        }
    }

    pub open spec fn spec_supports_card(self, card: SCard) -> bool {
        match self {
            EKurzLang::Lang => true,
            EKurzLang::Kurz => card.eschlag != ESchlag::S7 && card.eschlag != ESchlag::S8,
        }
    }

    pub fn cards_per_player(self) -> (r: usize)
        ensures
            r == self.spec_cards_per_player(),
    {
        match self {
            EKurzLang::Kurz => 6,
            EKurzLang::Lang => 8,
        }
    }

    /// The deck in which each player holds `n_cards_per_player` cards.
    pub fn from_cards_per_player(n_cards_per_player: usize) -> (r: EKurzLang)
        requires
            n_cards_per_player == 6 || n_cards_per_player == 8,
        ensures
            r.spec_cards_per_player() == n_cards_per_player,
    {
        if n_cards_per_player == 6 {
            EKurzLang::Kurz
        } else {
            EKurzLang::Lang
        }
    }

    pub fn supports_card(self, card: SCard) -> (r: bool)
        ensures
            r == self.spec_supports_card(card),
    {
        match self {
            EKurzLang::Lang => true,
            EKurzLang::Kurz => card.schlag() != ESchlag::S7 && card.schlag() != ESchlag::S8,
        }
    }
}

/// One physical card: a suit and a rank.
#[derive(Clone, Copy, Debug, PartialEq, Eq, Structural, Hash)]
pub struct SCard {
    pub efarbe: EFarbe,
    pub eschlag: ESchlag,
}

/// Whether a card counts as trump or belongs to a plain suit.
#[derive(Clone, Copy, Debug, PartialEq, Eq, Structural, Hash)]
pub enum VTrumpfOrFarbe {
    Trumpf,
    Farbe(EFarbe),
}

impl SCard {
    /// Position of the card in the long deck: eight ranks per suit.
    pub open spec fn idx(self) -> nat {
        self.efarbe.idx() * 8 + self.eschlag.idx()
    }

    /// The points a card is worth when the trick holding it is won.
    pub open spec fn spec_points(self) -> nat {
        match self.eschlag {
            ESchlag::Ass => 11,
            ESchlag::Zehn => 10,
            ESchlag::Koenig => 4,
            ESchlag::Ober => 3,
            ESchlag::Unter => 2,
            _ => 0,
        }
    }

    pub proof fn lemma_idx_injective(self, other: SCard)
        ensures
            self.idx() < 32,
            self.idx() == other.idx() ==> self == other,
    {
    }

    pub fn new(efarbe: EFarbe, eschlag: ESchlag) -> (r: SCard)
        ensures
            r.efarbe == efarbe,
            r.eschlag == eschlag,
    {
        SCard { efarbe, eschlag }
    }

    pub fn farbe(self) -> (r: EFarbe)
        ensures
            r == self.efarbe,
    {
        self.efarbe
    }

    pub fn schlag(self) -> (r: ESchlag)
        ensures
            r == self.eschlag,
    {
        self.eschlag
    }

    pub fn to_usize(self) -> (r: usize)
        ensures
            r == self.idx(),
            r < N_CARDS,
    {
        self.efarbe.to_usize() * 8 + self.eschlag.to_usize()
    }

    pub fn points(self) -> (r: u32)
        ensures
            r == self.spec_points(),
            r <= 11,
    {
        match self.eschlag {
            ESchlag::Ass => 11,
            ESchlag::Zehn => 10,
            ESchlag::Koenig => 4,
            ESchlag::Ober => 3,
            ESchlag::Unter => 2,
            _ => 0,
        }
    }

    /// The card at position `i` of the long deck.
    pub open spec fn of_idx(i: nat) -> SCard {
        SCard {
            efarbe: if i / 8 == 0 {
                EFarbe::Eichel
            } else if i / 8 == 1 {
                EFarbe::Gras
            } else if i / 8 == 2 {
                EFarbe::Herz
            } else {
                EFarbe::Schelln
            },
            eschlag: if i % 8 == 0 {
                ESchlag::Ass
            } else if i % 8 == 1 {
                ESchlag::Zehn
            } else if i % 8 == 2 {
                ESchlag::Koenig
            } else if i % 8 == 3 {
                ESchlag::Ober
            } else if i % 8 == 4 {
                ESchlag::Unter
            } else if i % 8 == 5 {
                ESchlag::S9
            } else if i % 8 == 6 {
                ESchlag::S8
            } else {
                ESchlag::S7
            },
        }
    }

    /// The cards of the deck, suit by suit, each suit from the ace down.
    pub open spec fn spec_values(ekurzlang: EKurzLang) -> Seq<SCard> {
        Seq::new(32, |i: int| SCard::of_idx(i as nat)).filter(
            |card: SCard| ekurzlang.spec_supports_card(card),
        )
    }

    /// All cards of the deck, suit by suit, each suit from the ace down.
    pub fn values(ekurzlang: EKurzLang) -> (r: Vec<SCard>)
        ensures
            r@ == SCard::spec_values(ekurzlang),
    {
        let afarbe = EFarbe::values();
        let aschlag = ESchlag::values();
        let ghost all = Seq::new(32, |i: int| SCard::of_idx(i as nat));
        let ghost pred = |card: SCard| ekurzlang.spec_supports_card(card);
        let mut r: Vec<SCard> = Vec::new();
        let mut i: usize = 0;
        while i < 32
            invariant
                i <= 32,
                afarbe@ == seq![EFarbe::Eichel, EFarbe::Gras, EFarbe::Herz, EFarbe::Schelln],
                aschlag@ == seq![
                    ESchlag::Ass,
                    ESchlag::Zehn,
                    ESchlag::Koenig,
                    ESchlag::Ober,
                    ESchlag::Unter,
                    ESchlag::S9,
                    ESchlag::S8,
                    ESchlag::S7,
                ],
                all == Seq::new(32, |i: int| SCard::of_idx(i as nat)),
                pred == (|card: SCard| ekurzlang.spec_supports_card(card)),
                r@ == all.take(i as int).filter(pred),
            decreases 32 - i,
        {
            let card = SCard::new(afarbe[i / 8], aschlag[i % 8]);
            assert(card == all[i as int]);
            assert(all.take(i as int + 1) =~= all.take(i as int).push(card));
            proof {
                all.take(i as int).lemma_filter_push(card, pred);
            }
            let b = ekurzlang.supports_card(card);
            if b {
                r.push(card);
            }
            i = i + 1;
        }
        assert(all.take(32) =~= all);
        r
    }
}

/// The input index of a card slot for a neural network: 0 for an empty slot,
/// otherwise the cards rank by rank from the aces down, suit by suit within a
/// rank, from 1 to 32.
pub open spec fn spec_neural_network_input(ocard: Option<SCard>) -> nat {
    match ocard {
        None => 0,
        Some(card) => 1 + card.eschlag.idx() * 4 + card.efarbe.idx(),
    }
}

pub fn card_to_neural_network_input(ocard: Option<SCard>) -> (r: usize)
    ensures
        r == spec_neural_network_input(ocard),
        r <= 32,
{
    match ocard {
        None => 0,
        Some(card) => 1 + card.schlag().to_usize() * 4 + card.farbe().to_usize(),
    }
}

/// An input index that stands for no card slot.
#[derive(Clone, Copy, Debug, PartialEq, Eq, Structural)]
pub struct SUnknownNeuralNetworkInput {
    pub n: usize,
}

/// The card slot that input index `n` stands for.
pub fn neural_network_input_to_card(n: usize) -> (r: Result<Option<SCard>, SUnknownNeuralNetworkInput>)
    ensures
        n <= 32 ==> (r matches Ok(ocard) && spec_neural_network_input(ocard) == n),
        n > 32 ==> r == Err::<Option<SCard>, SUnknownNeuralNetworkInput>(SUnknownNeuralNetworkInput { n }),
{
    if n == 0 {
        Ok(None)
    } else if n <= 32 {
        let i = n - 1;
        let efarbe = if i % 4 == 0 {
            EFarbe::Eichel
        } else if i % 4 == 1 {
            EFarbe::Gras
        } else if i % 4 == 2 {
            EFarbe::Herz
        } else {
            EFarbe::Schelln
        };
        let aeschlag = ESchlag::values();
        let eschlag = aeschlag[i / 4];
        let card = SCard::new(efarbe, eschlag);
        assert(1 + card.eschlag.idx() * 4 + card.efarbe.idx() == n);
        Ok(Some(card))
    } else {
        Err(SUnknownNeuralNetworkInput { n })
    }
}

/// Filtering keeps a sequence free of repeated cards.
pub proof fn lemma_filter_no_duplicates(s: Seq<SCard>, pred: spec_fn(SCard) -> bool)
    requires
        s.no_duplicates(),
    ensures
        s.filter(pred).no_duplicates(),
    decreases s.len(),
{
    reveal(Seq::filter);
    if s.len() > 0 {
        let rest = s.drop_last();
        assert(rest.no_duplicates());
        lemma_filter_no_duplicates(rest, pred);
        if pred(s.last()) {
            let f = rest.filter(pred);
            if f.contains(s.last()) {
                rest.lemma_filter_contains_rev(pred, s.last());
                let j = choose|j: int| 0 <= j < rest.len() && rest[j] == s.last();
                assert(s[j] == s[s.len() - 1]);
            }
            let g = f.push(s.last());
            assert forall|i: int, j: int| 0 <= i < g.len() && 0 <= j < g.len() && i != j implies g[i] != g[j] by {
                if j == g.len() - 1 {
                    assert(f.contains(f[i]));
                } else if i == g.len() - 1 {
                    assert(f.contains(f[j]));
                }
            }
        }
    }
}

/// No card appears twice in a deck.
pub proof fn lemma_values_no_duplicates(ekurzlang: EKurzLang)
    ensures
        SCard::spec_values(ekurzlang).no_duplicates(),
{
    let all = Seq::new(32, |i: int| SCard::of_idx(i as nat));
    assert forall|i: int, j: int| 0 <= i < 32 && 0 <= j < 32 && i != j implies all[i] != all[j] by {
        assert(SCard::of_idx(i as nat).idx() == i);
        assert(SCard::of_idx(j as nat).idx() == j);
    }
    lemma_filter_no_duplicates(all, |card: SCard| ekurzlang.spec_supports_card(card));
}

/// Swaps the two components when `b` holds.
pub fn tpl_flip_if<T>(b: bool, tpl: (T, T)) -> (r: (T, T))
    ensures
        b ==> r == (tpl.1, tpl.0),
        !b ==> r == tpl,
{
    let (t0, t1) = tpl;
    if b {
        (t1, t0)
    } else {
        (t0, t1)
    }
}

} // verus!
