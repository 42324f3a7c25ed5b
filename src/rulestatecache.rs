use crate::primitives::{EPlayerIndex, SCard, N_PLAYERS};
use crate::stich::{SStich, SStichView};
use crate::stichseq::{SStichSequence, SStichSequenceView};
use vstd::prelude::*;

verus! {

/// The points of `cards`, summed.
pub open spec fn stich_points(cards: Seq<SCard>) -> nat
    decreases cards.len(),
{
    if cards.len() == 0 {
        0
    } else {
        stich_points(cards.drop_last()) + cards.last().spec_points()
    }
}

pub proof fn lemma_stich_points_bound(cards: Seq<SCard>)
    ensures
        stich_points(cards) <= 11 * cards.len(),
    decreases cards.len(),
{
    if cards.len() > 0 {
        lemma_stich_points_bound(cards.drop_last());
    }
}

/// Tricks and points won per player over the first `k` tricks of `stichs`;
/// the winner of trick `i` is the leader of trick `i + 1`.
pub open spec fn counts_of(stichs: Seq<SStichView>, k: nat) -> Seq<(nat, nat)>
    decreases k,
{
    if k == 0 {
        seq![(0nat, 0nat), (0nat, 0nat), (0nat, 0nat), (0nat, 0nat)]
    } else {
        let prev = counts_of(stichs, (k - 1) as nat);
        let w = stichs[k as int].epi_first.idx() as int;
        prev.update(w, ((prev[w].0 + 1) as nat, prev[w].1 + stich_points(stichs[k - 1].cards)))
    }
}

/// Tricks and points won per player in the completed tricks of `s`.
pub open spec fn counts_of_sequence(s: SStichSequenceView) -> Seq<(nat, nat)> {
    counts_of(s.stichs, s.n_completed())
}

/// One player gains the trick `cards` and its points.
pub open spec fn counts_register(counts: Seq<(nat, nat)>, epi: EPlayerIndex, cards: Seq<SCard>) -> Seq<
    (nat, nat),
> {
    let w = epi.idx() as int;
    counts.update(w, ((counts[w].0 + 1) as nat, counts[w].1 + stich_points(cards)))
}

pub proof fn lemma_counts_bound(stichs: Seq<SStichView>, k: nat)
    requires
        k < stichs.len(),
        forall|i: int| 0 <= i < k ==> (#[trigger] stichs[i]).cards.len() <= 4,
    ensures
        counts_of(stichs, k).len() == 4,
        forall|p: int| 0 <= p < 4 ==> (#[trigger] counts_of(stichs, k)[p]).0 <= k,
        forall|p: int| 0 <= p < 4 ==> (#[trigger] counts_of(stichs, k)[p]).1 <= 44 * k,
    decreases k,
{
    if k > 0 {
        lemma_counts_bound(stichs, (k - 1) as nat);
        lemma_stich_points_bound(stichs[k - 1].cards);
        stichs[k as int].epi_first.lemma_idx_of_idx();
    }
}

/// Every completed trick is won by exactly one player: the tricks of all
/// players add up to `k`, their points to at most 44 per trick.
pub proof fn lemma_counts_total(stichs: Seq<SStichView>, k: nat)
    requires
        k < stichs.len(),
        forall|i: int| 0 <= i < k ==> (#[trigger] stichs[i]).cards.len() <= 4,
    ensures
        ({
            let c = counts_of(stichs, k);
            &&& c.len() == 4
            &&& c[0].0 + c[1].0 + c[2].0 + c[3].0 == k
            &&& c[0].1 + c[1].1 + c[2].1 + c[3].1 <= 44 * k
        }),
    decreases k,
{
    if k > 0 {
        lemma_counts_total(stichs, (k - 1) as nat);
        lemma_stich_points_bound(stichs[k - 1].cards);
        stichs[k as int].epi_first.lemma_idx_of_idx();
    }
}

/// The counts depend only on the tricks before `k` and on who leads trick `k`.
pub proof fn lemma_counts_prefix(a: Seq<SStichView>, b: Seq<SStichView>, k: nat)
    requires
        k < a.len(),
        k < b.len(),
        forall|i: int| 0 <= i < k ==> a[i] == b[i],
        a[k as int].epi_first == b[k as int].epi_first,
    ensures
        counts_of(a, k) == counts_of(b, k),
    decreases k,
{
    if k > 0 {
        lemma_counts_prefix(a, b, (k - 1) as nat);
    }
}

/// Playing a card changes the counts only when it completes a trick, and then
/// exactly by registering that trick for its winner.
pub proof fn lemma_counts_zugeben(s: SStichSequenceView, card: SCard, epi_winner: EPlayerIndex)
    requires
        s.wf(),
        !s.game_finished(),
    ensures
        s.current_after(card).is_full() ==> counts_of_sequence(s.zugeben(card, epi_winner))
            == counts_register(counts_of_sequence(s), epi_winner, s.current_after(card).cards),
        !s.current_after(card).is_full() ==> counts_of_sequence(s.zugeben(card, epi_winner))
            == counts_of_sequence(s),
{
    let t = s.zugeben(card, epi_winner);
    let k = s.n_completed();
    if s.current_after(card).is_full() {
        assert(t.n_completed() == k + 1);
        lemma_counts_prefix(s.stichs, t.stichs, k);
    } else {
        lemma_counts_prefix(s.stichs, t.stichs, k);
    }
}

/// Tricks won and points collected by one player.
#[derive(Clone, Copy, Debug, PartialEq, Eq, Structural)]
pub struct SPointStichCount {
    pub n_stich: u32,
    pub n_point: u32,
}

/// Per-player statistics derived from the completed tricks of a ledger, kept
/// in step with it by registering and unregistering tricks.
#[derive(Debug)]
pub struct SRuleStateCache {
    mapepipointstichcount: [SPointStichCount; 4],
}

/// What `register_stich` added, so that `unregister_stich` can take it back.
#[derive(Debug)]
pub struct SUnregisterStich {
    epi_winner: EPlayerIndex,
    n_points: u32,
}

impl View for SRuleStateCache {
    type V = Seq<(nat, nat)>;

    closed spec fn view(&self) -> Seq<(nat, nat)> {
        self.mapepipointstichcount@.map_values(
            |c: SPointStichCount| (c.n_stich as nat, c.n_point as nat),
        )
    }
}

impl SUnregisterStich {
    pub closed spec fn epi(&self) -> EPlayerIndex {
        self.epi_winner
    }

    pub closed spec fn points(&self) -> nat {
        self.n_points as nat
    }
}

impl SRuleStateCache {
    /// The number of players the statistics are kept for.
    pub fn n_players(&self) -> (r: usize)
        ensures
            r == 4,
            self@.len() == 4,
    {
        4
    }

    /// The statistics of the completed tricks of `stichseq`.
    pub fn new(stichseq: &SStichSequence) -> (r: SRuleStateCache)
        requires
            stichseq@.wf(),
        ensures
            r@ == counts_of_sequence(stichseq@),
    {
        let mut cache = SRuleStateCache {
            mapepipointstichcount: [
                SPointStichCount { n_stich: 0, n_point: 0 },
                SPointStichCount { n_stich: 0, n_point: 0 },
                SPointStichCount { n_stich: 0, n_point: 0 },
                SPointStichCount { n_stich: 0, n_point: 0 },
            ],
        };
        let vecstich_completed = stichseq.completed_stichs();
        let ghost stichs = stichseq@.stichs;
        let ghost k = stichseq@.n_completed();
        assert(cache@ =~= counts_of(stichs, 0));
        let n = vecstich_completed.len();
        assert(vecstich_completed@.map_values(|stich: SStich| stich@).len() == n);
        let mut i: usize = 0;
        while i < n
            invariant
                stichseq@.wf(),
                stichs == stichseq@.stichs,
                k == stichseq@.n_completed(),
                n == k,
                n == vecstich_completed@.len(),
                vecstich_completed@.map_values(|stich: SStich| stich@) == stichseq@.completed(),
                i <= n,
                cache@ == counts_of(stichs, i as nat),
            decreases n - i,
        {
            proof {
                lemma_counts_bound(stichs, i as nat);
                assert(vecstich_completed@.map_values(|stich: SStich| stich@)[i as int] == stichs[i as int]);
            }
            let epi_winner = if i + 1 < n {
                vecstich_completed[i + 1].first_playerindex()
            } else {
                stichseq.current_stich().first_playerindex()
            };
            proof {
                if i + 1 < n {
                    assert(vecstich_completed@.map_values(|stich: SStich| stich@)[i + 1] == stichs[i + 1]);
                }
            }
            let _ = cache.register_stich(&vecstich_completed[i], epi_winner);
            i = i + 1;
        }
        cache
    }

    /// The statistics of `epi`.
    pub fn point_stich_count(&self, epi: EPlayerIndex) -> (r: SPointStichCount)
        requires
            self@.len() == 4,
        ensures
            r.n_stich == self@[epi.idx() as int].0,
            r.n_point == self@[epi.idx() as int].1,
    {
        self.mapepipointstichcount[epi.to_usize()]
    }

    /// Credits the trick `stich` to `epi_winner`.
    pub fn register_stich(&mut self, stich: &SStich, epi_winner: EPlayerIndex) -> (r: SUnregisterStich)
        requires
            old(self)@.len() == 4,
            stich@.wf(),
            old(self)@[epi_winner.idx() as int].0 < 1000,
            old(self)@[epi_winner.idx() as int].1 < 100000,
        ensures
            final(self)@ == counts_register(old(self)@, epi_winner, stich@.cards),
            r.epi() == epi_winner,
            r.points() == stich_points(stich@.cards),
    {
        let mut n_points: u32 = 0;
        let mut i: usize = 0;
        let n = stich.size();
        while i < n
            invariant
                n == stich@.cards.len() <= 4,
                i <= n,
                n_points == stich_points(stich@.cards.take(i as int)),
                n_points <= 11 * i,
            decreases n - i,
        {
            assert(stich@.cards.take(i as int + 1).drop_last() =~= stich@.cards.take(i as int));
            n_points = n_points + stich.card_at(i).points();
            i = i + 1;
        }
        assert(stich@.cards.take(n as int) =~= stich@.cards);
        let i_epi = epi_winner.to_usize();
        let c = self.mapepipointstichcount[i_epi];
        self.mapepipointstichcount[i_epi] = SPointStichCount {
            n_stich: c.n_stich + 1,
            n_point: c.n_point + n_points,
        };
        assert(self@ =~= counts_register(old(self)@, epi_winner, stich@.cards));
        SUnregisterStich { epi_winner, n_points }
    }

    /// Takes back what `register_stich` credited.
    pub fn unregister_stich(&mut self, unregisterstich: SUnregisterStich)
        requires
            old(self)@.len() == 4,
            old(self)@[unregisterstich.epi().idx() as int].0 >= 1,
            old(self)@[unregisterstich.epi().idx() as int].1 >= unregisterstich.points(),
        ensures
            final(self)@ == old(self)@.update(
                unregisterstich.epi().idx() as int,
                (
                    (old(self)@[unregisterstich.epi().idx() as int].0 - 1) as nat,
                    (old(self)@[unregisterstich.epi().idx() as int].1
                        - unregisterstich.points()) as nat,
                ),
            ),
    {
        let i_epi = unregisterstich.epi_winner.to_usize();
        let c = self.mapepipointstichcount[i_epi];
        self.mapepipointstichcount[i_epi] = SPointStichCount {
            n_stich: c.n_stich - 1,
            n_point: c.n_point - unregisterstich.n_points,
        };
        assert(self@ =~= old(self)@.update(
            unregisterstich.epi().idx() as int,
            (
                (old(self)@[unregisterstich.epi().idx() as int].0 - 1) as nat,
                (old(self)@[unregisterstich.epi().idx() as int].1 - unregisterstich.points()) as nat,
            ),
        ));
    }
}

/// Registering a trick and then unregistering it leaves the statistics as they were.
pub proof fn lemma_register_unregister(counts: Seq<(nat, nat)>, epi: EPlayerIndex, cards: Seq<SCard>)
    requires
        counts.len() == 4,
    ensures
        ({
            let r = counts_register(counts, epi, cards);
            let w = epi.idx() as int;
            r.update(w, ((r[w].0 - 1) as nat, (r[w].1 - stich_points(cards)) as nat))
        }) == counts,
{
    let r = counts_register(counts, epi, cards);
    let w = epi.idx() as int;
    epi.lemma_idx_of_idx();
    assert(r.update(w, ((r[w].0 - 1) as nat, (r[w].1 - stich_points(cards)) as nat)) =~= counts);
}

} // verus!
