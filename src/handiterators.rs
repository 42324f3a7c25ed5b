use crate::hand::SHand;
use crate::rules::hands_view;
use crate::primitives::{EKurzLang, EPlayerIndex, SCard};
use crate::stich::SStich;
use permutohedron::LexicalPermutation;
use rand::Rng;
use vstd::prelude::*;

verus! {

/// Whether `card` was played to one of `vecstich`.
pub open spec fn played_in(vecstich: Seq<SStich>, card: SCard) -> bool {
    exists|i: int| 0 <= i < vecstich.len() && (#[trigger] vecstich[i])@.cards.contains(card)
}

/// The cards of the deck that are neither in `hand` nor among the played ones.
pub open spec fn spec_unplayed_cards(ekurzlang: EKurzLang, vecstich: Seq<SStich>, hand: Seq<SCard>) -> Seq<SCard> {
    SCard::spec_values(ekurzlang).filter(|card: SCard| !hand.contains(card) && !played_in(vecstich, card))
}

fn played_in_exec(vecstich: &[SStich], card: SCard) -> (r: bool)
    ensures
        r == played_in(vecstich@, card),
{
    let mut i: usize = 0;
    while i < vecstich.len()
        invariant
            i <= vecstich@.len(),
            forall|j: int| 0 <= j < i ==> !(#[trigger] vecstich@[j])@.cards.contains(card),
        decreases vecstich@.len() - i,
    {
        let stich = &vecstich[i];
        let mut k: usize = 0;
        while k < stich.size()
            invariant
                k <= stich@.cards.len(),
                i < vecstich@.len(),
                *stich == vecstich@[i as int],
                forall|l: int| 0 <= l < k ==> stich@.cards[l] != card,
            decreases stich@.cards.len() - k,
        {
            if stich.card_at(k) == card {
                assert(vecstich@[i as int]@.cards[k as int] == card);
                assert(vecstich@[i as int]@.cards.contains(card));
                return true;
            }
            k = k + 1;
        }
        i = i + 1;
    }
    false
}

/// The cards whose owner is unknown to the holder of `hand_fixed`, given the
/// full tricks `vecstich` played so far, in deck order.
pub fn unplayed_cards(vecstich: &[SStich], hand_fixed: &SHand) -> (r: Vec<SCard>)
    requires
        vecstich@.len() + hand_fixed@.len() == 6 || vecstich@.len() + hand_fixed@.len() == 8,
    ensures
        r@ == spec_unplayed_cards(
            if vecstich@.len() + hand_fixed@.len() == 6 {
                EKurzLang::Kurz
            } else {
                EKurzLang::Lang
            },
            vecstich@,
            hand_fixed@,
        ),
{
    let ekurzlang = EKurzLang::from_cards_per_player(vecstich.len() + hand_fixed.len());
    let veccard = SCard::values(ekurzlang);
    let ghost pred = |card: SCard| !hand_fixed@.contains(card) && !played_in(vecstich@, card);
    let mut r: Vec<SCard> = Vec::new();
    let mut i: usize = 0;
    while i < veccard.len()
        invariant
            pred == (|card: SCard| !hand_fixed@.contains(card) && !played_in(vecstich@, card)),
            i <= veccard@.len(),
            r@ == veccard@.take(i as int).filter(pred),
        decreases veccard@.len() - i,
    {
        let card = veccard[i];
        assert(veccard@.take(i as int + 1) =~= veccard@.take(i as int).push(card));
        proof {
            veccard@.take(i as int).lemma_filter_push(card, pred);
        }
        if !hand_fixed.contains(card) && !played_in_exec(vecstich, card) {
            r.push(card);
        }
        i = i + 1;
    }
    assert(veccard@.take(i as int) =~= veccard@);
    r
}

/// How often `x` occurs in `s`.
pub open spec fn count_of(s: Seq<usize>, x: usize) -> nat
    decreases s.len(),
{
    if s.len() == 0 {
        0
    } else {
        count_of(s.drop_last(), x) + if s.last() == x {
            1nat
        } else {
            0nat
        }
    }
}

proof fn lemma_count_of_push(s: Seq<usize>, y: usize)
    ensures
        forall|x: usize| #[trigger] count_of(s.push(y), x) == count_of(s, x) + if x == y { 1nat } else { 0nat },
{
    assert(s.push(y).drop_last() =~= s);
}

proof fn lemma_count_of_positive(s: Seq<usize>, i: int)
    requires
        0 <= i < s.len(),
    ensures
        count_of(s, s[i]) >= 1,
    decreases s.len(),
{
    if i < s.len() - 1 {
        lemma_count_of_positive(s.drop_last(), i);
    }
}

proof fn lemma_count_of_zero(s: Seq<usize>, x: usize)
    requires
        forall|i: int| 0 <= i < s.len() ==> #[trigger] s[i] != x,
    ensures
        count_of(s, x) == 0,
    decreases s.len(),
{
    if s.len() > 0 {
        lemma_count_of_zero(s.drop_last(), x);
    }
}

/// Whether `a` and `b` hold the same elements, each as often.
pub open spec fn is_permutation_of(a: Seq<usize>, b: Seq<usize>) -> bool {
    &&& a.len() == b.len()
    &&& forall|x: usize| count_of(a, x) == count_of(b, x)
}

/// Whether `a` comes before `b` in lexical order.
pub open spec fn lex_less(a: Seq<usize>, b: Seq<usize>) -> bool {
    exists|k: int|
        0 <= k < a.len() && k < b.len() && a.take(k) == b.take(k) && #[trigger] a[k] < #[trigger] b[k]
}

/// Whether `w` is the least permutation of `v` that comes after `v` in
/// lexical order.
pub open spec fn is_next_permutation(v: Seq<usize>, w: Seq<usize>) -> bool {
    &&& is_permutation_of(w, v)
    &&& lex_less(v, w)
    &&& forall|u: Seq<usize>| is_permutation_of(u, v) && lex_less(v, u) ==> u == w || lex_less(w, u)
}

/// Whether no permutation of `v` comes after `v` in lexical order.
pub open spec fn is_last_permutation(v: Seq<usize>) -> bool {
    forall|u: Seq<usize>| is_permutation_of(u, v) ==> !lex_less(v, u)
}

/// Relies on `permutohedron::LexicalPermutation::next_permutation`: steps to
/// the next permutation in lexical order by swapping and reversing elements
/// and returns `true`; returns `false` and leaves the slice as it is when it
/// is the last one.
#[verifier::external_body]
fn next_permutation(v: &mut Vec<usize>) -> (r: bool)
    ensures
        r ==> is_next_permutation(old(v)@, final(v)@),
        !r ==> is_last_permutation(old(v)@),
        !r ==> final(v)@ == old(v)@,
        final(v)@.len() == old(v)@.len(),
        forall|x: usize| count_of(final(v)@, x) == count_of(old(v)@, x),
{
    v[..].next_permutation()
}

/// The cards of `veccard` whose position `vecepi` assigns to player `q`.
pub open spec fn cards_assigned(veccard: Seq<SCard>, vecepi: Seq<usize>, q: usize) -> Seq<SCard>
    decreases veccard.len(),
{
    if veccard.len() == 0 || vecepi.len() == 0 {
        Seq::empty()
    } else {
        let rest = cards_assigned(veccard.drop_last(), vecepi.drop_last(), q);
        if vecepi.last() == q {
            rest.push(veccard.last())
        } else {
            rest
        }
    }
}

/// Every unknown card goes to exactly one player: the four hands together
/// hold the unknown cards, each as often as it is unknown.
proof fn lemma_cards_assigned_len(veccard: Seq<SCard>, vecepi: Seq<usize>, q: usize)
    requires
        veccard.len() == vecepi.len(),
    ensures
        cards_assigned(veccard, vecepi, q).len() == count_of(vecepi, q),
    decreases veccard.len(),
{
    if veccard.len() > 0 {
        lemma_cards_assigned_len(veccard.drop_last(), vecepi.drop_last(), q);
    }
}

proof fn lemma_cards_assigned_contains(veccard: Seq<SCard>, vecepi: Seq<usize>, q: usize, card: SCard)
    requires
        veccard.len() == vecepi.len(),
    ensures
        cards_assigned(veccard, vecepi, q).contains(card) <==> exists|j: int|
            0 <= j < veccard.len() && veccard[j] == card && vecepi[j] == q,
    decreases veccard.len(),
{
    if veccard.len() > 0 {
        let v = veccard.drop_last();
        let e = vecepi.drop_last();
        lemma_cards_assigned_contains(v, e, q, card);
        let rest = cards_assigned(v, e, q);
        if vecepi.last() == q {
            assert(cards_assigned(veccard, vecepi, q) == rest.push(veccard.last()));
            if rest.push(veccard.last()).contains(card) && !rest.contains(card) {
                assert(veccard[veccard.len() - 1] == card);
            }
            if exists|j: int| 0 <= j < veccard.len() && veccard[j] == card && vecepi[j] == q {
                let j = choose|j: int| 0 <= j < veccard.len() && veccard[j] == card && vecepi[j] == q;
                if j < veccard.len() - 1 {
                    assert(v[j] == card && e[j] == q);
                    let k = choose|k: int| 0 <= k < rest.len() && rest[k] == card;
                    assert(rest.push(veccard.last())[k] == card);
                } else {
                    assert(rest.push(veccard.last())[rest.len() as int] == card);
                }
            }
        } else {
            if exists|j: int| 0 <= j < veccard.len() && veccard[j] == card && vecepi[j] == q {
                let j = choose|j: int| 0 <= j < veccard.len() && veccard[j] == card && vecepi[j] == q;
                assert(j < veccard.len() - 1);
                assert(v[j] == card && e[j] == q);
            }
            if rest.contains(card) {
                let j = choose|j: int| 0 <= j < v.len() && v[j] == card && e[j] == q;
                assert(veccard[j] == card && vecepi[j] == q);
            }
        }
    }
}

/// Two different assignments of distinct unknown cards give different
/// worlds: some player gets different cards.
pub proof fn lemma_distinct_assignments_distinct_worlds(veccard: Seq<SCard>, vecepi_a: Seq<usize>, vecepi_b: Seq<usize>)
    requires
        veccard.no_duplicates(),
        veccard.len() == vecepi_a.len(),
        veccard.len() == vecepi_b.len(),
        vecepi_a != vecepi_b,
    ensures
        exists|q: usize| cards_assigned(veccard, vecepi_a, q) != cards_assigned(veccard, vecepi_b, q),
{
    assert(!(vecepi_a =~= vecepi_b));
    let i = choose|i: int| 0 <= i < vecepi_a.len() && vecepi_a[i] != vecepi_b[i];
    let q = vecepi_a[i];
    let card = veccard[i];
    lemma_cards_assigned_contains(veccard, vecepi_a, q, card);
    lemma_cards_assigned_contains(veccard, vecepi_b, q, card);
    if cards_assigned(veccard, vecepi_b, q).contains(card) {
        let j = choose|j: int| 0 <= j < veccard.len() && veccard[j] == card && vecepi_b[j] == q;
        assert(j == i);
    }
    assert(cards_assigned(veccard, vecepi_a, q) != cards_assigned(veccard, vecepi_b, q));
}

pub proof fn lemma_cards_assigned_partition(veccard: Seq<SCard>, vecepi: Seq<usize>)
    requires
        veccard.len() == vecepi.len(),
        forall|i: int| 0 <= i < vecepi.len() ==> #[trigger] vecepi[i] < 4,
    ensures
        cards_assigned(veccard, vecepi, 0).to_multiset().add(cards_assigned(veccard, vecepi, 1).to_multiset()).add(
            cards_assigned(veccard, vecepi, 2).to_multiset(),
        ).add(cards_assigned(veccard, vecepi, 3).to_multiset()) == veccard.to_multiset(),
    decreases veccard.len(),
{
    let m = |v: Seq<SCard>, e: Seq<usize>|
        cards_assigned(v, e, 0).to_multiset().add(cards_assigned(v, e, 1).to_multiset()).add(
            cards_assigned(v, e, 2).to_multiset(),
        ).add(cards_assigned(v, e, 3).to_multiset());
    if veccard.len() == 0 {
        veccard.to_multiset_ensures();
        cards_assigned(veccard, vecepi, 0).to_multiset_ensures();
        cards_assigned(veccard, vecepi, 1).to_multiset_ensures();
        cards_assigned(veccard, vecepi, 2).to_multiset_ensures();
        cards_assigned(veccard, vecepi, 3).to_multiset_ensures();
        assert(veccard.to_multiset() =~= vstd::multiset::Multiset::empty());
        assert(m(veccard, vecepi) =~= vstd::multiset::Multiset::empty());
    } else {
        let v = veccard.drop_last();
        let e = vecepi.drop_last();
        lemma_cards_assigned_partition(v, e);
        let card = veccard.last();
        assert(veccard == v.push(card));
        v.to_multiset_ensures();
        let q = vecepi.last();
        assert(q < 4);
        cards_assigned(v, e, q).to_multiset_ensures();
        assert(m(veccard, vecepi) =~= m(v, e).insert(card));
    }
}

/// Enumerates every distribution of the unknown cards among the players
/// other than the fixed one, each receiving as many as the fixed player holds.
#[derive(Debug)]
pub struct SAllHands {
    epi_fixed: EPlayerIndex,
    veccard_unknown: Vec<SCard>,
    vecepi: Vec<usize>,
    hand_known: SHand,
    b_valid: bool,
}

impl SAllHands {
    /// Each non-fixed player is assigned as many cards as the fixed one holds,
    /// the fixed player none.
    pub open spec fn wf(&self) -> bool {
        &&& self.spec_assignment().len() == self.spec_unknown().len()
        &&& self.spec_hand_known().len() <= 8
        &&& forall|x: usize|
            x < 4 && x != self.spec_epi_fixed().idx() ==> count_of(self.spec_assignment(), x)
                == self.spec_hand_known().len()
        &&& count_of(self.spec_assignment(), self.spec_epi_fixed().idx() as usize) == 0
        &&& forall|i: int| 0 <= i < self.spec_assignment().len() ==> #[trigger] self.spec_assignment()[i] < 4
    }

    /// Whether another distribution is to come.
    pub closed spec fn spec_valid(&self) -> bool {
        self.b_valid
    }

    pub closed spec fn spec_epi_fixed(&self) -> EPlayerIndex {
        self.epi_fixed
    }

    pub closed spec fn spec_hand_known(&self) -> Seq<SCard> {
        self.hand_known@
    }

    pub closed spec fn spec_unknown(&self) -> Seq<SCard> {
        self.veccard_unknown@
    }

    /// Which player each unknown card goes to in the current distribution.
    pub closed spec fn spec_assignment(&self) -> Seq<usize> {
        self.vecepi@
    }

    /// The current distribution, then steps to the next one; `None` once all
    /// have been handed out.
    pub fn next(&mut self) -> (r: Option<Vec<SHand>>)
        requires
            old(self).wf(),
        ensures
            final(self).wf(),
            final(self).spec_epi_fixed() == old(self).spec_epi_fixed(),
            final(self).spec_hand_known() == old(self).spec_hand_known(),
            final(self).spec_unknown() == old(self).spec_unknown(),
            !old(self).spec_valid() ==> r is None && !final(self).spec_valid(),
            old(self).spec_valid() ==> (r matches Some(ahand) && (forall|q: int|
                0 <= q < 4 && q != old(self).spec_epi_fixed().idx() ==> (#[trigger] ahand@[q])@.len()
                    == old(self).spec_hand_known().len()) && hands_multiset(hands_view(ahand@))
                == old(self).spec_hand_known().to_multiset().add(old(self).spec_unknown().to_multiset())),
            old(self).spec_valid() ==> (r matches Some(ahand) && ahand@.len() == 4 && (forall|q: int|
                0 <= q < 4 ==> (#[trigger] ahand@[q])@ == if q == old(self).spec_epi_fixed().idx() {
                    old(self).spec_hand_known()
                } else {
                    cards_assigned(old(self).spec_unknown(), old(self).spec_assignment(), q as usize)
                })),
            old(self).spec_valid() && final(self).spec_valid() ==> is_next_permutation(
                old(self).spec_assignment(),
                final(self).spec_assignment(),
            ),
            old(self).spec_valid() && !final(self).spec_valid() ==> is_last_permutation(
                old(self).spec_assignment(),
            ),
    {
        if !self.b_valid {
            return None;
        }
        let ghost unknown = self.veccard_unknown@;
        let ghost vecepi = self.vecepi@;
        let mut avecard: Vec<Vec<SCard>> = vec![Vec::new(), Vec::new(), Vec::new(), Vec::new()];
        let mut i: usize = 0;
        while i < self.vecepi.len()
            invariant
                self.wf(),
                unknown == self.veccard_unknown@,
                vecepi == self.vecepi@,
                i <= vecepi.len(),
                avecard@.len() == 4,
                forall|q: int| 0 <= q < 4 ==> (#[trigger] avecard@[q])@ == cards_assigned(
                    unknown.take(i as int),
                    vecepi.take(i as int),
                    q as usize,
                ),
                forall|q: int| 0 <= q < 4 ==> (#[trigger] avecard@[q])@.len() == count_of(vecepi.take(i as int), q as usize),
            decreases vecepi.len() - i,
        {
            let q = self.vecepi[i];
            let card = self.veccard_unknown[i];
            proof {
                assert(unknown.take(i as int + 1).drop_last() =~= unknown.take(i as int));
                assert(vecepi.take(i as int + 1).drop_last() =~= vecepi.take(i as int));
            }
            avecard[q].push(card);
            i = i + 1;
        }
        proof {
            assert(unknown.take(i as int) =~= unknown);
            assert(vecepi.take(i as int) =~= vecepi);
        }
        let f = self.epi_fixed.to_usize();
        let mut ahand: Vec<SHand> = Vec::new();
        let mut q: usize = 0;
        while q < 4
            invariant
                self.wf(),
                unknown == self.veccard_unknown@,
                vecepi == self.vecepi@,
                f == self.epi_fixed.idx(),
                avecard@.len() == 4,
                forall|x: int| 0 <= x < 4 ==> (#[trigger] avecard@[x])@ == cards_assigned(unknown, vecepi, x as usize),
                forall|x: int| 0 <= x < 4 ==> (#[trigger] avecard@[x])@.len() == count_of(vecepi, x as usize),
                q <= 4,
                ahand@.len() == q,
                forall|x: int| 0 <= x < q ==> (#[trigger] ahand@[x])@ == if x == f {
                    self.hand_known@
                } else {
                    cards_assigned(unknown, vecepi, x as usize)
                },
            decreases 4 - q,
        {
            if q == f {
                ahand.push(self.hand_known.clone());
            } else {
                assert(count_of(vecepi, q) == self.hand_known@.len());
                ahand.push(SHand::new_from_iter(avecard[q].clone()));
            }
            q = q + 1;
        }
        proof {
            let hv = hands_view(ahand@);
            lemma_cards_assigned_partition(unknown, vecepi);
            lemma_cards_assigned_len(unknown, vecepi, f);
            cards_assigned(unknown, vecepi, f).to_multiset_ensures();
            assert(cards_assigned(unknown, vecepi, f).to_multiset() =~= vstd::multiset::Multiset::empty());
            assert forall|q: int| 0 <= q < 4 implies #[trigger] hv[q] == if q == f {
                self.hand_known@
            } else {
                cards_assigned(unknown, vecepi, q as usize)
            } by {}
            assert(hands_multiset(hv) =~= self.hand_known@.to_multiset().add(unknown.to_multiset()));
            assert forall|q: int| 0 <= q < 4 && q != f implies (#[trigger] ahand@[q])@.len()
                == self.hand_known@.len() by {
                lemma_cards_assigned_len(unknown, vecepi, q as usize);
                assert(hv[q] == ahand@[q]@);
            }
        }
        self.b_valid = next_permutation(&mut self.vecepi);
        proof {
            assert forall|i: int| 0 <= i < self.vecepi@.len() implies #[trigger] self.vecepi@[i] < 4 by {
                lemma_count_of_positive(self.vecepi@, i);
                if self.vecepi@[i] >= 4 {
                    lemma_count_of_zero(vecepi, self.vecepi@[i]);
                }
            }
        }
        Some(ahand)
    }
}

/// Every way to hand the cards not yet seen by `epi_fixed` to the other
/// players, given the full tricks `vecstich` and the fixed player's hand.
pub fn all_possible_hands(vecstich: &[SStich], hand_fixed: SHand, epi_fixed: EPlayerIndex) -> (r: SAllHands)
    requires
        vecstich@.len() + hand_fixed@.len() == 6 || vecstich@.len() + hand_fixed@.len() == 8,
        forall|i: int| 0 <= i < vecstich@.len() ==> (#[trigger] vecstich@[i])@.cards.len() == 4,
        spec_unplayed_cards(
            if vecstich@.len() + hand_fixed@.len() == 6 {
                EKurzLang::Kurz
            } else {
                EKurzLang::Lang
            },
            vecstich@,
            hand_fixed@,
        ).len() == 3 * hand_fixed@.len(),
    ensures
        r.wf(),
        r.spec_unknown().no_duplicates(),
        r.spec_valid(),
        forall|i: int, j: int|
            0 <= i < j < r.spec_assignment().len() ==> r.spec_assignment()[i] <= r.spec_assignment()[j],
        r.spec_epi_fixed() == epi_fixed,
        r.spec_hand_known() == hand_fixed@,
        r.spec_unknown() == spec_unplayed_cards(
            if vecstich@.len() + hand_fixed@.len() == 6 {
                EKurzLang::Kurz
            } else {
                EKurzLang::Lang
            },
            vecstich@,
            hand_fixed@,
        ),
{
    let veccard_unknown = unplayed_cards(vecstich, &hand_fixed);
    let n_cards_total = veccard_unknown.len();
    let n_cards_per_player = hand_fixed.len();
    let f = epi_fixed.to_usize();
    let mut vecepi: Vec<usize> = Vec::new();
    let mut n_done: usize = 0;
    let mut q: usize = 0;
    while q < 4
        invariant
            n_done == (if f < q { q - 1 } else { q as int }),
            q <= 4,
            n_cards_per_player <= 8,
            f < 4,
            forall|x: usize| x < q && x != f ==> count_of(vecepi@, x) == n_cards_per_player,
            forall|x: usize| x >= q ==> count_of(vecepi@, x) == 0,
            count_of(vecepi@, f) == 0,
            vecepi@.len() == n_done * n_cards_per_player,
            forall|i: int| 0 <= i < vecepi@.len() ==> #[trigger] vecepi@[i] < 4,
            forall|i: int| 0 <= i < vecepi@.len() ==> #[trigger] vecepi@[i] < q,
            forall|i: int, j: int| 0 <= i < j < vecepi@.len() ==> vecepi@[i] <= vecepi@[j],
        decreases 4 - q,
    {
        if q != f {
            let mut k: usize = 0;
            while k < n_cards_per_player
                invariant
                    q < 4,
                    q != f,
                    k <= n_cards_per_player <= 8,
                    f < 4,
                    forall|x: usize| x < q && x != f ==> count_of(vecepi@, x) == n_cards_per_player,
                    forall|x: usize| x > q ==> count_of(vecepi@, x) == 0,
                    count_of(vecepi@, q) == k,
                    count_of(vecepi@, f) == 0,
                    n_done < 3,
                    vecepi@.len() == n_done * n_cards_per_player + k,
                    forall|i: int| 0 <= i < vecepi@.len() ==> #[trigger] vecepi@[i] < 4,
                    forall|i: int| 0 <= i < vecepi@.len() ==> #[trigger] vecepi@[i] <= q,
                    forall|i: int, j: int| 0 <= i < j < vecepi@.len() ==> vecepi@[i] <= vecepi@[j],
                decreases n_cards_per_player - k,
            {
                let ghost before = vecepi@;
                vecepi.push(q);
                proof {
                    lemma_count_of_push(before, q);
                }
                k = k + 1;
            }
            assert((n_done + 1) * n_cards_per_player == n_done * n_cards_per_player + n_cards_per_player)
                by (nonlinear_arith);
            n_done = n_done + 1;
        }
        q = q + 1;
    }
    proof {
        let ekurzlang = if vecstich@.len() + hand_fixed@.len() == 6 {
            EKurzLang::Kurz
        } else {
            EKurzLang::Lang
        };
        crate::primitives::lemma_values_no_duplicates(ekurzlang);
        crate::primitives::lemma_filter_no_duplicates(
            SCard::spec_values(ekurzlang),
            |card: SCard| !hand_fixed@.contains(card) && !played_in(vecstich@, card),
        );
    }
    SAllHands { epi_fixed, veccard_unknown, vecepi, hand_known: hand_fixed, b_valid: true }
}

/// Relies on `rand::Rng::gen_range` on the thread's generator: a value of the
/// half-open range `0..n`; it panics only on an empty range.
#[verifier::external_body]
fn random_index(n: usize) -> (r: usize)
    requires
        n > 0,
    ensures
        r < n,
{
    rand::thread_rng().gen_range(0..n)
}

proof fn lemma_swap_remove_multiset(s: Seq<SCard>, i: int)
    requires
        0 <= i < s.len(),
    ensures
        s.update(i, s.last()).drop_last().to_multiset() == s.to_multiset().remove(s[i]),
{
    let t = s.update(i, s.last());
    s.to_multiset_ensures();
    assert(s.contains(s[i]));
    vstd::seq_lib::to_multiset_update(s, i, s.last());
    assert(t.drop_last().push(t.last()) =~= t);
    t.drop_last().to_multiset_ensures();
    assert(t.to_multiset() == t.drop_last().to_multiset().insert(t.last()));
    assert forall|y: SCard| #[trigger] t.drop_last().to_multiset().count(y) == s.to_multiset().remove(s[i]).count(y) by {
        assert(t.to_multiset().count(y) == t.drop_last().to_multiset().insert(t.last()).count(y));
        assert(t.to_multiset().count(y) == s.to_multiset().remove(s[i]).insert(s.last()).count(y));
    }
    assert(t.drop_last().to_multiset() =~= s.to_multiset().remove(s[i]));
}

/// A hand of `n_size` cards drawn at random from `veccard`, which keeps the rest.
pub fn random_hand(n_size: usize, veccard: &mut Vec<SCard>) -> (r: SHand)
    requires
        n_size <= old(veccard)@.len(),
        n_size <= 8,
    ensures
        r@.len() == n_size,
        final(veccard)@.len() == old(veccard)@.len() - n_size,
        r@.to_multiset().add(final(veccard)@.to_multiset()) == old(veccard)@.to_multiset(),
{
    let mut veccard_hand: Vec<SCard> = Vec::new();
    proof {
        veccard_hand@.to_multiset_ensures();
        assert(veccard_hand@.to_multiset() =~= vstd::multiset::Multiset::empty());
        assert(veccard_hand@.to_multiset().add(veccard@.to_multiset()) =~= old(veccard)@.to_multiset());
    }
    let mut i: usize = 0;
    while i < n_size
        invariant
            i <= n_size <= 8,
            n_size <= old(veccard)@.len(),
            veccard_hand@.len() == i,
            veccard@.len() == old(veccard)@.len() - i,
            veccard_hand@.to_multiset().add(veccard@.to_multiset()) == old(veccard)@.to_multiset(),
        decreases n_size - i,
    {
        let ghost before = veccard@;
        let ghost hand_before = veccard_hand@;
        let i_card = random_index(veccard.len());
        let card = veccard.swap_remove(i_card);
        veccard_hand.push(card);
        proof {
            lemma_swap_remove_multiset(before, i_card as int);
            hand_before.to_multiset_ensures();
            assert(veccard@ == before.update(i_card as int, before.last()).drop_last());
            assert(before.to_multiset().count(card) > 0) by {
                before.to_multiset_ensures();
                assert(before.contains(card));
            }
            assert(veccard_hand@.to_multiset().add(veccard@.to_multiset()) =~= old(veccard)@.to_multiset());
        }
        i = i + 1;
    }
    SHand::new_from_iter(veccard_hand)
}

/// All cards of the four hands together.
pub open spec fn hands_multiset(hands: Seq<Seq<SCard>>) -> vstd::multiset::Multiset<SCard> {
    hands[0].to_multiset().add(hands[1].to_multiset()).add(hands[2].to_multiset()).add(hands[3].to_multiset())
}

/// The hand and the position within it of the `i`-th card not held by the
/// fixed player `f`, the hands holding `n` cards each.
pub open spec fn spec_position(i: nat, f: nat, n: nat) -> (nat, nat) {
    let i_valid = if i < f * n {
        i
    } else {
        i + n
    };
    (i_valid / n, i_valid % n)
}

/// The hands with the card at `i_a` of hand `a` and the card at `i_b` of hand
/// `b` trading places.
pub open spec fn spec_swap(hands: Seq<Seq<SCard>>, a: nat, i_a: nat, b: nat, i_b: nat) -> Seq<Seq<SCard>> {
    let card_a = hands[a as int][i_a as int];
    let card_b = hands[b as int][i_b as int];
    let hands_mid = hands.update(a as int, hands[a as int].update(i_a as int, card_b));
    hands_mid.update(b as int, hands_mid[b as int].update(i_b as int, card_a))
}

/// Whether `draws` can drive a shuffle of `3 * n` cards: one draw per card,
/// the `k`-th below `3 * n - k`.
pub open spec fn draws_ok(draws: Seq<usize>, n: nat) -> bool {
    &&& draws.len() == 3 * n
    &&& forall|k: int| 0 <= k < 3 * n ==> #[trigger] draws[k] < 3 * n - k
}

/// The hands after the first `k` steps of the shuffle driven by `draws`: step
/// `j` swaps the `j`-th card not held by `f` with the `draws[j]`-th one.
pub open spec fn spec_shuffled(hands: Seq<Seq<SCard>>, f: nat, n: nat, draws: Seq<usize>, k: nat) -> Seq<Seq<SCard>>
    decreases k,
{
    if k == 0 {
        hands
    } else {
        let (a, i_a) = spec_position((k - 1) as nat, f, n);
        let (b, i_b) = spec_position(draws[k - 1] as nat, f, n);
        spec_swap(spec_shuffled(hands, f, n, draws, (k - 1) as nat), a, i_a, b, i_b)
    }
}

/// Deals the cards that the fixed player has not seen anew, at random, again
/// and again.
#[derive(Debug)]
pub struct SForeverRandHands {
    epi_fixed: EPlayerIndex,
    ahand: Vec<SHand>,
}

impl SForeverRandHands {
    /// Four hands of one size.
    pub open spec fn wf(&self) -> bool {
        &&& self.spec_hands().len() == 4
        &&& forall|q: int| 0 <= q < 4 ==> (#[trigger] self.spec_hands()[q]).len() == self.spec_n_len_hand()
    }

    pub closed spec fn spec_epi_fixed(&self) -> EPlayerIndex {
        self.epi_fixed
    }

    /// The current hands.
    pub closed spec fn spec_hands(&self) -> Seq<Seq<SCard>> {
        hands_view(self.ahand@)
    }

    /// The number of cards in each hand.
    pub open spec fn spec_n_len_hand(&self) -> nat {
        self.spec_hands()[0].len()
    }

    /// The current hands.
    pub fn hands(&self) -> (r: &Vec<SHand>)
        ensures
            hands_view(r@) == self.spec_hands(),
    {
        &self.ahand
    }

    /// Shuffles the cards not held by the fixed player as `vec_i_rand` says:
    /// the `k`-th of them trades places with the `vec_i_rand[k]`-th.
    pub fn shuffle_with(&mut self, vec_i_rand: &Vec<usize>)
        requires
            old(self).wf(),
            draws_ok(vec_i_rand@, old(self).spec_n_len_hand()),
        ensures
            final(self).wf(),
            final(self).spec_epi_fixed() == old(self).spec_epi_fixed(),
            final(self).spec_n_len_hand() == old(self).spec_n_len_hand(),
            final(self).spec_hands() == spec_shuffled(
                old(self).spec_hands(),
                old(self).spec_epi_fixed().idx(),
                old(self).spec_n_len_hand(),
                vec_i_rand@,
                3 * old(self).spec_n_len_hand(),
            ),
            final(self).spec_hands()[old(self).spec_epi_fixed().idx() as int] == old(self).spec_hands()[old(
                self,
            ).spec_epi_fixed().idx() as int],
            hands_multiset(final(self).spec_hands()) == hands_multiset(old(self).spec_hands()),
    {
        let n_len_hand = self.ahand[0].len();
        let f = self.epi_fixed.to_usize();
        let n_total = 3 * n_len_hand;
        assert forall|q: int| 0 <= q < 4 implies (#[trigger] self.ahand@[q])@.len() == n_len_hand by {
            assert(hands_view(self.ahand@)[q] == self.ahand@[q]@);
        }
        let mut i_card: usize = 0;
        while i_card < n_total
            invariant
                self.ahand@.len() == 4,
                n_len_hand <= 8,
                n_len_hand == old(self).spec_n_len_hand(),
                n_total == 3 * n_len_hand,
                f == self.epi_fixed.idx(),
                f < 4,
                self.epi_fixed == old(self).epi_fixed,
                draws_ok(vec_i_rand@, n_len_hand as nat),
                forall|q: int| 0 <= q < 4 ==> (#[trigger] self.ahand@[q])@.len() == n_len_hand,
                self.ahand@[f as int]@ == old(self).ahand@[f as int]@,
                hands_multiset(hands_view(self.ahand@)) == hands_multiset(old(self).spec_hands()),
                hands_view(self.ahand@) == spec_shuffled(
                    old(self).spec_hands(),
                    f as nat,
                    n_len_hand as nat,
                    vec_i_rand@,
                    i_card as nat,
                ),
                i_card <= n_total,
            decreases n_total - i_card,
        {
            let i_rand = vec_i_rand[i_card];
            let (epi_swap, i_hand_swap) = convert_to_idxs(i_card, f, n_len_hand);
            let (epi_rand, i_hand_rand) = convert_to_idxs(i_rand, f, n_len_hand);
            swap_cards(&mut self.ahand, epi_swap, i_hand_swap, epi_rand, i_hand_rand, Ghost(n_len_hand));
            i_card = i_card + 1;
        }
    }

    /// A new random distribution: the cards not held by the fixed player are
    /// shuffled by random draws, which keeps the fixed hand, the size of every
    /// hand and the cards handed out.
    pub fn next(&mut self) -> (r: Option<Vec<SHand>>)
        requires
            old(self).wf(),
        ensures
            final(self).wf(),
            final(self).spec_epi_fixed() == old(self).spec_epi_fixed(),
            final(self).spec_n_len_hand() == old(self).spec_n_len_hand(),
            exists|draws: Seq<usize>|
                draws_ok(draws, old(self).spec_n_len_hand()) && final(self).spec_hands() == spec_shuffled(
                    old(self).spec_hands(),
                    old(self).spec_epi_fixed().idx(),
                    old(self).spec_n_len_hand(),
                    draws,
                    3 * old(self).spec_n_len_hand(),
                ),
            r matches Some(ahand) && hands_view(ahand@) == final(self).spec_hands() && ahand@.len() == 4
                && forall|q: int| 0 <= q < 4 ==> (#[trigger] ahand@[q])@.len() == old(self).spec_n_len_hand(),
            final(self).spec_hands()[old(self).spec_epi_fixed().idx() as int] == old(self).spec_hands()[old(
                self,
            ).spec_epi_fixed().idx() as int],
            hands_multiset(final(self).spec_hands()) == hands_multiset(old(self).spec_hands()),
    {
        let n_len_hand = self.ahand[0].len();
        let n_total = 3 * n_len_hand;
        let mut vec_i_rand: Vec<usize> = Vec::new();
        let mut k: usize = 0;
        while k < n_total
            invariant
                n_total == 3 * n_len_hand,
                n_len_hand == old(self).spec_n_len_hand(),
                k <= n_total,
                vec_i_rand@.len() == k,
                forall|j: int| 0 <= j < k ==> #[trigger] vec_i_rand@[j] < n_total - j,
            decreases n_total - k,
        {
            vec_i_rand.push(random_index(n_total - k));
            k = k + 1;
        }
        let ghost hands_old = hands_view(self.ahand@);
        self.shuffle_with(&vec_i_rand);
        assert(draws_ok(vec_i_rand@, n_len_hand as nat) && hands_view(self.ahand@) == spec_shuffled(
            hands_old,
            self.epi_fixed.idx(),
            n_len_hand as nat,
            vec_i_rand@,
            3 * n_len_hand as nat,
        ));
        let mut ahand: Vec<SHand> = Vec::new();
        let mut q: usize = 0;
        while q < 4
            invariant
                self.ahand@.len() == 4,
                q <= 4,
                ahand@.len() == q,
                forall|x: int| 0 <= x < q ==> (#[trigger] ahand@[x])@ == self.ahand@[x]@,
            decreases 4 - q,
        {
            ahand.push(self.ahand[q].clone());
            q = q + 1;
        }
        assert(hands_view(ahand@) =~= hands_view(self.ahand@));
        assert forall|q: int| 0 <= q < 4 implies (#[trigger] ahand@[q])@.len() == n_len_hand by {
            assert(hands_view(ahand@)[q] == ahand@[q]@);
        }
        Some(ahand)
    }
}

/// The hand and the position within it of the `i`-th card not held by `f`.
fn convert_to_idxs(i: usize, f: usize, n_len_hand: usize) -> (r: (usize, usize))
    requires
        i < 3 * n_len_hand,
        n_len_hand <= 8,
        f < 4,
    ensures
        r.0 < 4,
        r.0 != f,
        r.1 < n_len_hand,
        (r.0 as nat, r.1 as nat) == spec_position(i as nat, f as nat, n_len_hand as nat),
{
    assert(f * n_len_hand <= 32) by (nonlinear_arith)
        requires
            f < 4,
            n_len_hand <= 8,
    ;
    let i_valid = if i < f * n_len_hand {
        i
    } else {
        i + n_len_hand
    };
    assert(i_valid < 4 * n_len_hand) by (nonlinear_arith)
        requires
            f < 4,
            i < 3 * n_len_hand,
            i_valid == (if i < f * n_len_hand { i as int } else { i + n_len_hand }),
    ;
    let epi = i_valid / n_len_hand;
    let i_hand = i_valid % n_len_hand;
    assert(epi < 4 && epi != f) by (nonlinear_arith)
        requires
            f < 4,
            n_len_hand > 0,
            i < 3 * n_len_hand,
            i_valid == (if i < f * n_len_hand { i as int } else { i + n_len_hand }),
            i_valid < 4 * n_len_hand,
            epi == i_valid / n_len_hand,
    ;
    (epi, i_hand)
}

/// Exchanges the card at `i_a` of hand `a` with the card at `i_b` of hand `b`.
fn swap_cards(ahand: &mut Vec<SHand>, a: usize, i_a: usize, b: usize, i_b: usize, Ghost(n): Ghost<usize>)
    requires
        old(ahand)@.len() == 4,
        a < 4,
        b < 4,
        i_a < n,
        i_b < n,
        forall|q: int| 0 <= q < 4 ==> (#[trigger] old(ahand)@[q])@.len() == n,
    ensures
        final(ahand)@.len() == 4,
        forall|q: int| 0 <= q < 4 ==> (#[trigger] final(ahand)@[q])@.len() == n,
        hands_view(final(ahand)@) == spec_swap(hands_view(old(ahand)@), a as nat, i_a as nat, b as nat, i_b as nat),
        hands_multiset(hands_view(final(ahand)@)) == hands_multiset(hands_view(old(ahand)@)),
{
    let ghost h = old(ahand)@;
    let card_a = ahand[a].card_at(i_a);
    let card_b = ahand[b].card_at(i_b);
    let _ = ahand[a].replace_card_at(i_a, card_b);
    let ghost mid = ahand@;
    let _ = ahand[b].replace_card_at(i_b, card_a);
    proof {
        vstd::seq_lib::to_multiset_update(h[a as int]@, i_a as int, card_b);
        vstd::seq_lib::to_multiset_update(mid[b as int]@, i_b as int, card_a);
        h[a as int]@.to_multiset_ensures();
        h[b as int]@.to_multiset_ensures();
        assert(h[a as int]@.contains(card_a));
        let hv = hands_view(h);
        assert(hands_view(mid) =~= hv.update(a as int, hv[a as int].update(i_a as int, card_b)));
        assert(hands_view(ahand@) =~= spec_swap(hv, a as nat, i_a as nat, b as nat, i_b as nat));
        assert(hands_multiset(hands_view(ahand@)) =~= hands_multiset(hv));
    }
}

/// Random distributions of the cards that `epi_fixed` has not seen, given
/// the full tricks `vecstich` and the fixed player's hand: the fixed player
/// keeps `hand_fixed`, the others get `hand_fixed@.len()` unplayed cards each.
pub fn forever_rand_hands(vecstich: &[SStich], hand_fixed: &SHand, epi_fixed: EPlayerIndex) -> (r: SForeverRandHands)
    requires
        vecstich@.len() + hand_fixed@.len() == 6 || vecstich@.len() + hand_fixed@.len() == 8,
        spec_unplayed_cards(
            if vecstich@.len() + hand_fixed@.len() == 6 {
                EKurzLang::Kurz
            } else {
                EKurzLang::Lang
            },
            vecstich@,
            hand_fixed@,
        ).len() >= 3 * hand_fixed@.len(),
    ensures
        r.wf(),
        r.spec_epi_fixed() == epi_fixed,
        r.spec_n_len_hand() == hand_fixed@.len(),
        forall|q: int| 0 <= q < 4 ==> (#[trigger] r.spec_hands()[q]).len() == hand_fixed@.len(),
        r.spec_hands()[epi_fixed.idx() as int] == hand_fixed@,
        hands_multiset(r.spec_hands()).sub(hand_fixed@.to_multiset()).subset_of(
            spec_unplayed_cards(
                if vecstich@.len() + hand_fixed@.len() == 6 {
                    EKurzLang::Kurz
                } else {
                    EKurzLang::Lang
                },
                vecstich@,
                hand_fixed@,
            ).to_multiset(),
        ),
{
    let mut veccard_unplayed = unplayed_cards(vecstich, hand_fixed);
    let ghost unplayed = veccard_unplayed@;
    let n_size = hand_fixed.len();
    let mut ahand: Vec<SHand> = Vec::new();
    let f = epi_fixed.to_usize();
    let mut n_dealt: usize = 0;
    let ghost mut dealt = vstd::multiset::Multiset::<SCard>::empty();
    proof {
        unplayed.to_multiset_ensures();
        assert(dealt.add(veccard_unplayed@.to_multiset()) =~= unplayed.to_multiset());
        assert(sum_multisets(hands_view(ahand@)) =~= vstd::multiset::Multiset::empty());
        assert(sum_multisets(hands_view(ahand@)) =~= dealt);
    }
    let mut q: usize = 0;
    while q < 4
        invariant
            q <= 4,
            f == epi_fixed.idx(),
            n_size == hand_fixed@.len() <= 8,
            ahand@.len() == q,
            n_dealt == q - (if f < q { 1int } else { 0int }),
            veccard_unplayed@.len() >= (3 - n_dealt) * n_size,
            forall|x: int| 0 <= x < q ==> (#[trigger] ahand@[x])@.len() == n_size,
            f < q ==> ahand@[f as int]@ == hand_fixed@,
            dealt.add(veccard_unplayed@.to_multiset()) == unplayed.to_multiset(),
            sum_multisets(hands_view(ahand@)) == (if f < q {
                hand_fixed@.to_multiset()
            } else {
                vstd::multiset::Multiset::empty()
            }).add(dealt),
        decreases 4 - q,
    {
        let ghost view_before = hands_view(ahand@);
        if q == f {
            ahand.push(hand_fixed.clone());
            proof {
                assert(hands_view(ahand@) =~= view_before.push(hand_fixed@));
                assert(hands_view(ahand@).drop_last() =~= view_before);
                assert(sum_multisets(hands_view(ahand@)) =~= hand_fixed@.to_multiset().add(dealt));
            }
        } else {
            assert(n_dealt < 3);
            assert(veccard_unplayed@.len() >= n_size && veccard_unplayed@.len() - n_size >= (3 - (n_dealt + 1)) * n_size)
                by (nonlinear_arith)
                requires
                    veccard_unplayed@.len() >= (3 - n_dealt) * n_size,
                    n_dealt < 3,
            ;
            let ghost rest_before = veccard_unplayed@;
            let hand = random_hand(n_size, &mut veccard_unplayed);
            ahand.push(hand);
            proof {
                assert(hands_view(ahand@) =~= view_before.push(hand@));
                assert(hands_view(ahand@).drop_last() =~= view_before);
                let dealt_new = dealt.add(hand@.to_multiset());
                assert(dealt_new.add(veccard_unplayed@.to_multiset()) =~= unplayed.to_multiset());
                assert(sum_multisets(hands_view(ahand@)) =~= (if f < q + 1 {
                    hand_fixed@.to_multiset()
                } else {
                    vstd::multiset::Multiset::empty()
                }).add(dealt_new));
                dealt = dealt_new;
            }
            n_dealt = n_dealt + 1;
        }
        q = q + 1;
    }
    proof {
        let hv = hands_view(ahand@);
        let h3 = hv.drop_last();
        let h2 = h3.drop_last();
        let h1 = h2.drop_last();
        let h0 = h1.drop_last();
        assert(h0.len() == 0);
        assert(sum_multisets(h0) =~= vstd::multiset::Multiset::empty());
        assert(h1.last() == hv[0] && h2.last() == hv[1] && h3.last() == hv[2] && hv.last() == hv[3]);
        assert(sum_multisets(h1) =~= hv[0].to_multiset());
        assert(sum_multisets(h2) =~= hv[0].to_multiset().add(hv[1].to_multiset()));
        assert(sum_multisets(h3) =~= hv[0].to_multiset().add(hv[1].to_multiset()).add(hv[2].to_multiset()));
        assert(sum_multisets(hv) =~= hands_multiset(hv));
        assert(hands_multiset(hv).sub(hand_fixed@.to_multiset()) =~= dealt);
        assert(dealt.subset_of(unplayed.to_multiset()));
        assert(hv[f as int] == hand_fixed@);
        assert forall|x: int| 0 <= x < 4 implies (#[trigger] ahand@[x])@.len() == ahand@[0]@.len() by {}
    }
    SForeverRandHands { epi_fixed, ahand }
}

/// The cards of all `hands` together.
pub open spec fn sum_multisets(hands: Seq<Seq<SCard>>) -> vstd::multiset::Multiset<SCard>
    decreases hands.len(),
{
    if hands.len() == 0 {
        vstd::multiset::Multiset::empty()
    } else {
        sum_multisets(hands.drop_last()).add(hands.last().to_multiset())
    }
}

} // verus!
