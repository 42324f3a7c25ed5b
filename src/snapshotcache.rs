use crate::hand::SHand;
use crate::primitives::{EPlayerIndex, SCard};
use crate::rules::hands_view;
use crate::rulesrufspiel::{spec_side_counts, SRulesRufspiel};
use crate::rulestatecache::{counts_of_sequence, SRuleStateCache};
use crate::stich::{SStich, SStichView};
use crate::stichseq::{SStichSequence, SStichSequenceView};
use crate::suspicion::{lemma_counts_of_sequence_bound, SMinMax};
use std::collections::HashMap;
use vstd::prelude::*;

verus! {

broadcast use vstd::std_specs::hash::group_hash_axioms;

/// What a position at a trick boundary reduces to when two fixed parties
/// play against each other: the points and tricks of each party, who leads
/// next, and which cards are gone.
pub struct SSnapshotEquivalenceClass {
    pub n_point_primary: nat,
    pub n_stich_primary: nat,
    pub n_point_secondary: nat,
    pub n_stich_secondary: nat,
    pub epi_next_stich: nat,
    pub setcard_played: nat,
}

impl SSnapshotEquivalenceClass {
    /// Each field fits its place in the packed key.
    pub open spec fn wf(self) -> bool {
        &&& self.n_point_primary < 1024
        &&& self.n_stich_primary < 32
        &&& self.n_point_secondary < 1024
        &&& self.n_stich_secondary < 32
        &&& self.epi_next_stich < 4
        &&& self.setcard_played < 0x1_0000_0000
    }

    /// The fields packed into one integer, the first field lowest.
    pub open spec fn key(self) -> int {
        (self.n_point_primary + 1024 * (self.n_stich_primary + 32 * (self.n_point_secondary + 1024 * (
        self.n_stich_secondary + 32 * (self.epi_next_stich + 4 * self.setcard_played))))) as int
    }
}

proof fn lemma_digit(x: int, d: int, r: int, q: int)
    requires
        d > 0,
        0 <= r < d,
        x == r + d * q,
    ensures
        x % d == r,
        x / d == q,
{
    assert(x == q * d + r) by (nonlinear_arith)
        requires
            x == r + d * q,
    ;
    vstd::arithmetic::div_mod::lemma_fundamental_div_mod_converse(x, d, q, r);
}

/// Two well-formed classes with the same key are the same class.
pub proof fn lemma_key_injective(a: SSnapshotEquivalenceClass, b: SSnapshotEquivalenceClass)
    requires
        a.wf(),
        b.wf(),
        a.key() == b.key(),
    ensures
        a == b,
{
    let ta1: int = a.epi_next_stich + 4 * a.setcard_played as int;
    let ta2: int = a.n_stich_secondary + 32 * ta1;
    let ta3: int = a.n_point_secondary + 1024 * ta2;
    let ta4: int = a.n_stich_primary + 32 * ta3;
    let tb1: int = b.epi_next_stich + 4 * b.setcard_played as int;
    let tb2: int = b.n_stich_secondary + 32 * tb1;
    let tb3: int = b.n_point_secondary + 1024 * tb2;
    let tb4: int = b.n_stich_primary + 32 * tb3;
    lemma_digit(a.key(), 1024, a.n_point_primary as int, ta4);
    lemma_digit(b.key(), 1024, b.n_point_primary as int, tb4);
    lemma_digit(ta4, 32, a.n_stich_primary as int, ta3);
    lemma_digit(tb4, 32, b.n_stich_primary as int, tb3);
    lemma_digit(ta3, 1024, a.n_point_secondary as int, ta2);
    lemma_digit(tb3, 1024, b.n_point_secondary as int, tb2);
    lemma_digit(ta2, 32, a.n_stich_secondary as int, ta1);
    lemma_digit(tb2, 32, b.n_stich_secondary as int, tb1);
    lemma_digit(ta1, 4, a.epi_next_stich as int, a.setcard_played as int);
    lemma_digit(tb1, 4, b.epi_next_stich as int, b.setcard_played as int);
}

/// The played cards among `cards`, one bit per card.
pub open spec fn spec_setcard_of_cards(cards: Seq<SCard>) -> u32
    decreases cards.len(),
{
    if cards.len() == 0 {
        0
    } else {
        spec_setcard_of_cards(cards.drop_last()) | (1u32 << (cards.last().idx() as u32))
    }
}

/// The cards played in `stichs`, one bit per card.
pub open spec fn spec_setcard_played(stichs: Seq<SStichView>) -> u32
    decreases stichs.len(),
{
    if stichs.len() == 0 {
        0
    } else {
        spec_setcard_played(stichs.drop_last()) | spec_setcard_of_cards(stichs.last().cards)
    }
}

/// The class of the position `s` when `epi` and `epi_co` form the primary party.
pub open spec fn spec_equivalence_class(s: SStichSequenceView, epi: EPlayerIndex, epi_co: EPlayerIndex) -> SSnapshotEquivalenceClass {
    let primary = spec_side_counts(counts_of_sequence(s), epi, epi_co, true);
    let secondary = spec_side_counts(counts_of_sequence(s), epi, epi_co, false);
    SSnapshotEquivalenceClass {
        n_point_primary: primary.1,
        n_stich_primary: primary.0,
        n_point_secondary: secondary.1,
        n_stich_secondary: secondary.0,
        epi_next_stich: s.current().epi_first.idx(),
        setcard_played: spec_setcard_played(s.stichs) as nat,
    }
}

fn setcard_of_cards(stich: &SStich) -> (r: u32)
    ensures
        r == spec_setcard_of_cards(stich@.cards),
{
    let mut r: u32 = 0;
    let mut i: usize = 0;
    while i < stich.size()
        invariant
            i <= stich@.cards.len(),
            r == spec_setcard_of_cards(stich@.cards.take(i as int)),
        decreases stich@.cards.len() - i,
    {
        assert(stich@.cards.take(i as int + 1).drop_last() =~= stich@.cards.take(i as int));
        let card = stich.card_at(i);
        r = r | (1u32 << (card.to_usize() as u32));
        i = i + 1;
    }
    assert(stich@.cards.take(i as int) =~= stich@.cards);
    r
}

fn setcard_played(stichseq: &SStichSequence) -> (r: u32)
    ensures
        r == spec_setcard_played(stichseq@.stichs),
{
    let vecstich = stichseq.stichs();
    let ghost stichs = stichseq@.stichs;
    assert(vecstich@.map_values(|stich: SStich| stich@).len() == vecstich@.len());
    let mut r: u32 = 0;
    let mut i: usize = 0;
    while i < vecstich.len()
        invariant
            vecstich@.map_values(|stich: SStich| stich@) == stichs,
            vecstich@.len() == stichs.len(),
            i <= stichs.len(),
            r == spec_setcard_played(stichs.take(i as int)),
        decreases stichs.len() - i,
    {
        assert(stichs.take(i as int + 1).drop_last() =~= stichs.take(i as int));
        assert(vecstich[i as int]@ == stichs[i as int]);
        r = r | setcard_of_cards(&vecstich[i]);
        i = i + 1;
    }
    assert(stichs.take(i as int) =~= stichs);
    r
}

/// Outcomes remembered per equivalence class of positions, for a game of
/// two fixed parties.
#[derive(Debug)]
pub struct SSnapshotCacheRufspiel {
    epi: EPlayerIndex,
    epi_coplayer: EPlayerIndex,
    mapsnapequivpayoutstats: HashMap<u64, SMinMax>,
}

impl SSnapshotCacheRufspiel {
    /// The primary party: the declarer and the co-player.
    pub closed spec fn spec_party(&self) -> (EPlayerIndex, EPlayerIndex) {
        (self.epi, self.epi_coplayer)
    }

    /// The remembered outcomes, by key.
    pub closed spec fn spec_map(&self) -> Map<u64, SMinMax> {
        self.mapsnapequivpayoutstats@
    }

    /// An empty cache for the parties `{epi, epi_coplayer}` and the other two.
    pub fn new(epi: EPlayerIndex, epi_coplayer: EPlayerIndex) -> (r: SSnapshotCacheRufspiel)
        ensures
            r.spec_party() == (epi, epi_coplayer),
            r.spec_map() == Map::<u64, SMinMax>::empty(),
    {
        SSnapshotCacheRufspiel { epi, epi_coplayer, mapsnapequivpayoutstats: HashMap::new() }
    }

    /// The key of the class of the position `stichseq`.
    pub fn snap_equiv(&self, stichseq: &SStichSequence, rulestatecache: &SRuleStateCache) -> (r: u64)
        requires
            stichseq@.wf(),
            rulestatecache@ == counts_of_sequence(stichseq@),
        ensures
            spec_equivalence_class(stichseq@, self.spec_party().0, self.spec_party().1).wf(),
            r == spec_equivalence_class(stichseq@, self.spec_party().0, self.spec_party().1).key(),
    {
        proof {
            lemma_counts_of_sequence_bound(stichseq@);
            crate::rulestatecache::lemma_counts_total(stichseq@.stichs, stichseq@.n_completed());
            stichseq@.current().epi_first.lemma_idx_of_idx();
        }
        let primary = crate::rulesrufspiel::side_counts(rulestatecache, self.epi, self.epi_coplayer, true);
        let secondary = crate::rulesrufspiel::side_counts(rulestatecache, self.epi, self.epi_coplayer, false);
        let epi_next_stich = stichseq.current_stich().first_playerindex().to_usize() as u64;
        let setcard = setcard_played(stichseq) as u64;
        let ghost c = spec_equivalence_class(stichseq@, self.epi, self.epi_coplayer);
        assert(c.wf());
        let t1 = epi_next_stich + 4 * setcard;
        assert(t1 < 0x4_0000_0000);
        let t2 = secondary.0 + 32 * t1;
        assert(t2 < 0x80_0000_0000) by (nonlinear_arith)
            requires
                t2 == secondary.0 + 32 * t1,
                secondary.0 < 32,
                t1 < 0x4_0000_0000,
        ;
        let t3 = secondary.1 + 1024 * t2;
        assert(t3 < 0x2_0000_0000_0000) by (nonlinear_arith)
            requires
                t3 == secondary.1 + 1024 * t2,
                secondary.1 < 1024,
                t2 < 0x80_0000_0000,
        ;
        let t4 = primary.0 + 32 * t3;
        assert(t4 < 0x40_0000_0000_0000) by (nonlinear_arith)
            requires
                t4 == primary.0 + 32 * t3,
                primary.0 < 32,
                t3 < 0x2_0000_0000_0000,
        ;
        assert(primary.1 + 1024 * t4 <= 0xffff_ffff_ffff_ffff) by (nonlinear_arith)
            requires
                primary.1 < 1024,
                t4 < 0x40_0000_0000_0000,
        ;
        primary.1 + 1024 * t4
    }

    /// The outcome remembered for the class of `stichseq`, if any.
    pub fn get(&self, stichseq: &SStichSequence, rulestatecache: &SRuleStateCache) -> (r: Option<SMinMax>)
        requires
            stichseq@.wf(),
            rulestatecache@ == counts_of_sequence(stichseq@),
        ensures
            ({
                let k = spec_equivalence_class(stichseq@, self.spec_party().0, self.spec_party().1).key() as u64;
                &&& self.spec_map().contains_key(k) ==> r == Some(self.spec_map()[k])
                &&& !self.spec_map().contains_key(k) ==> r is None
            }),
    {
        let k = self.snap_equiv(stichseq, rulestatecache);
        match self.mapsnapequivpayoutstats.get(&k) {
            Some(minmax) => Some(*minmax),
            None => None,
        }
    }

    /// Remembers `payoutstats` for the class of `stichseq`.
    pub fn put(&mut self, stichseq: &SStichSequence, rulestatecache: &SRuleStateCache, payoutstats: &SMinMax)
        requires
            stichseq@.wf(),
            rulestatecache@ == counts_of_sequence(stichseq@),
        ensures
            final(self).spec_party() == old(self).spec_party(),
            final(self).spec_map() == old(self).spec_map().insert(
                spec_equivalence_class(stichseq@, old(self).spec_party().0, old(self).spec_party().1).key() as u64,
                *payoutstats,
            ),
    {
        let k = self.snap_equiv(stichseq, rulestatecache);
        self.mapsnapequivpayoutstats.insert(k, *payoutstats);
    }
}

impl SRulesRufspiel {
    /// A cache of outcomes for this game, whose parties are fixed once it is
    /// known who holds the called ace; `None` where nobody does.
    pub fn snapshot_cache(&self, stichseq: &SStichSequence, ahand: &Vec<SHand>) -> (r: Option<SSnapshotCacheRufspiel>)
        requires
            stichseq@.wf(),
            ahand@.len() == 4,
        ensures
            self.spec_coplayer(stichseq@, hands_view(ahand@)) matches Some(epi_co) ==> (r matches Some(cache)
                && cache.spec_party() == (self.spec_epi(), epi_co) && cache.spec_map() == Map::<u64, SMinMax>::empty()),
            self.spec_coplayer(stichseq@, hands_view(ahand@)) is None ==> r is None,
    {
        match self.coplayer(stichseq, ahand) {
            Some(epi_coplayer) => Some(SSnapshotCacheRufspiel::new(self.playerindex(), epi_coplayer)),
            None => None,
        }
    }
}

} // verus!
