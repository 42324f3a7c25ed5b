use crate::primitives::SCard;
use arrayvec::ArrayVec;
use std::cmp::Ordering;
use vstd::prelude::*;

verus! {

#[verifier::external_type_specification]
#[verifier::external_body]
#[verifier::reject_recursive_types(T)]
pub struct ExArrayVec<T, const CAP: usize>(ArrayVec<T, CAP>);

/// The cards that a hand's fixed-capacity vector holds, in order.
pub uninterp spec fn hand_vector_cards(v: ArrayVec<SCard, 8>) -> Seq<SCard>;

/// The fixed-capacity vector in which a hand keeps its cards.
pub type SHandVector = ArrayVec<SCard, 8>;

/// Relies on `ArrayVec::new`: a new vector is empty.
#[verifier::external_body]
fn hand_vector_new() -> (r: SHandVector)
    ensures
        hand_vector_cards(r) == Seq::<SCard>::empty(),
{
    ArrayVec::new()
}

/// Relies on `ArrayVec::len`: the number of elements held, at most the capacity.
#[verifier::external_body]
fn hand_vector_len(v: &SHandVector) -> (r: usize)
    ensures
        r == hand_vector_cards(*v).len(),
        r <= 8,
{
    v.len()
}

/// Relies on indexing through `ArrayVec`'s slice: the element at `i`.
#[verifier::external_body]
fn hand_vector_get(v: &SHandVector, i: usize) -> (r: SCard)
    requires
        i < hand_vector_cards(*v).len(),
    ensures
        r == hand_vector_cards(*v)[i as int],
{
    v[i]
}

/// Relies on `ArrayVec::push`: appends at the end; panics only when full.
#[verifier::external_body]
fn hand_vector_push(v: &mut SHandVector, card: SCard)
    requires
        hand_vector_cards(*old(v)).len() < 8,
    ensures
        hand_vector_cards(*final(v)) == hand_vector_cards(*old(v)).push(card),
{
    v.push(card)
}

/// Relies on `ArrayVec::insert`: shifts up the elements from `i`; panics only
/// when full or when `i` exceeds the length.
#[verifier::external_body]
fn hand_vector_insert(v: &mut SHandVector, i: usize, card: SCard)
    requires
        i <= hand_vector_cards(*old(v)).len(),
        hand_vector_cards(*old(v)).len() < 8,
    ensures
        hand_vector_cards(*final(v)) == hand_vector_cards(*old(v)).insert(i as int, card),
{
    v.insert(i, card)
}

/// Relies on `ArrayVec::remove`: takes out the element at `i` and shifts down
/// the following ones; panics only when `i` is out of bounds.
#[verifier::external_body]
fn hand_vector_remove(v: &mut SHandVector, i: usize) -> (r: SCard)
    requires
        i < hand_vector_cards(*old(v)).len(),
    ensures
        r == hand_vector_cards(*old(v))[i as int],
        hand_vector_cards(*final(v)) == hand_vector_cards(*old(v)).remove(i as int),
{
    v.remove(i)
}

/// Relies on `ArrayVec`'s `Clone`: the copy holds the same elements in order.
#[verifier::external_body]
fn hand_vector_clone(v: &SHandVector) -> (r: SHandVector)
    ensures
        hand_vector_cards(r) == hand_vector_cards(*v),
{
    v.clone()
}

/// The position of the first copy of `card` in `cards`.
pub open spec fn first_index(cards: Seq<SCard>, card: SCard) -> int
    decreases cards.len(),
{
    if cards.len() == 0 {
        0
    } else if cards[0] == card {
        0
    } else {
        1 + first_index(cards.skip(1), card)
    }
}

pub proof fn lemma_first_index(cards: Seq<SCard>, card: SCard, i: int)
    requires
        0 <= i < cards.len(),
        cards[i] == card,
        forall|j: int| 0 <= j < i ==> cards[j] != card,
    ensures
        first_index(cards, card) == i,
    decreases i,
{
    if i > 0 {
        lemma_first_index(cards.skip(1), card, i - 1);
    }
}

pub proof fn lemma_first_index_in_range(cards: Seq<SCard>, card: SCard)
    requires
        cards.contains(card),
    ensures
        0 <= first_index(cards, card) < cards.len(),
        cards[first_index(cards, card)] == card,
    decreases cards.len(),
{
    if cards[0] != card {
        let i = choose|i: int| 0 <= i < cards.len() && cards[i] == card;
        assert(cards.skip(1)[i - 1] == card);
        lemma_first_index_in_range(cards.skip(1), card);
    }
}

/// The cards one player holds.
#[derive(Debug)]
pub struct SHand {
    veccard: SHandVector,
}

impl View for SHand {
    type V = Seq<SCard>;

    closed spec fn view(&self) -> Seq<SCard> {
        hand_vector_cards(self.veccard)
    }
}

impl Clone for SHand {
    fn clone(&self) -> (r: SHand)
        ensures
            r@ == self@,
    {
        SHand { veccard: hand_vector_clone(&self.veccard) }
    }
}

impl SHand {
    pub fn new_from_vec(veccard: SHandVector) -> (r: SHand)
        ensures
            r@ == hand_vector_cards(veccard),
    {
        SHand { veccard }
    }

    /// A hand holding `veccard`, in that order.
    pub fn new_from_iter(veccard: Vec<SCard>) -> (r: SHand)
        requires
            veccard@.len() <= 8,
        ensures
            r@ == veccard@,
    {
        let mut hand = SHand { veccard: hand_vector_new() };
        let mut i: usize = 0;
        while i < veccard.len()
            invariant
                i <= veccard@.len() <= 8,
                hand@ == veccard@.take(i as int),
            decreases veccard@.len() - i,
        {
            assert(veccard@.take(i as int + 1) =~= veccard@.take(i as int).push(veccard@[i as int]));
            hand_vector_push(&mut hand.veccard, veccard[i]);
            i = i + 1;
        }
        assert(veccard@.take(i as int) =~= veccard@);
        hand
    }

    pub fn len(&self) -> (r: usize)
        ensures
            r == self@.len(),
            r <= 8,
    {
        hand_vector_len(&self.veccard)
    }

    /// The card at position `i`.
    pub fn card_at(&self, i: usize) -> (r: SCard)
        requires
            i < self@.len(),
        ensures
            r == self@[i as int],
    {
        hand_vector_get(&self.veccard, i)
    }

    pub fn contains(&self, card_check: SCard) -> (r: bool)
        ensures
            r == self@.contains(card_check),
    {
        let n = self.len();
        let mut i: usize = 0;
        while i < n
            invariant
                n == self@.len(),
                i <= n,
                forall|j: int| 0 <= j < i ==> self@[j] != card_check,
            decreases n - i,
        {
            if self.card_at(i) == card_check {
                return true;
            }
            i = i + 1;
        }
        false
    }

    /// Whether some card of the hand satisfies `pred`.
    pub fn contains_pred(&self, pred: impl Fn(&SCard) -> bool) -> (r: bool)
        requires
            forall|card: SCard| pred.requires((&card,)),
        ensures
            r ==> exists|j: int| 0 <= j < self@.len() && pred.ensures((&self@[j],), true),
            !r ==> forall|j: int| 0 <= j < self@.len() ==> pred.ensures((&self@[j],), false),
    {
        let n = self.len();
        let mut i: usize = 0;
        while i < n
            invariant
                n == self@.len(),
                i <= n,
                forall|card: SCard| pred.requires((&card,)),
                forall|j: int| 0 <= j < i ==> pred.ensures((&self@[j],), false),
            decreases n - i,
        {
            let card = self.card_at(i);
            if pred(&card) {
                return true;
            }
            i = i + 1;
        }
        false
    }

    /// The position of the first copy of `card` in the hand.
    pub fn index_of(&self, card: SCard) -> (r: usize)
        requires
            self@.contains(card),
        ensures
            r == first_index(self@, card),
            r < self@.len(),
            self@[r as int] == card,
    {
        let n = self.len();
        let mut i: usize = 0;
        while i < n
            invariant
                n == self@.len(),
                self@.contains(card),
                i <= n,
                forall|j: int| 0 <= j < i ==> self@[j] != card,
            decreases n - i,
        {
            if self.card_at(i) == card {
                proof {
                    lemma_first_index(self@, card, i as int);
                }
                return i;
            }
            i = i + 1;
        }
        proof {
            let j = choose|j: int| 0 <= j < self@.len() && self@[j] == card;
        }
        0
    }

    /// Takes every copy of `card` out of the hand, keeping the others in order.
    pub fn play_card(&mut self, card: SCard)
        ensures
            final(self)@ == old(self)@.filter(|c: SCard| c != card),
    {
        let ghost pred = |c: SCard| c != card;
        let ghost orig = self@;
        let _ = self.len();
        let mut i: usize = 0;
        let mut n_seen: usize = 0;
        while i < self.len()
            invariant
                pred == (|c: SCard| c != card),
                n_seen <= orig.len() <= 8,
                i <= self@.len(),
                self@.take(i as int) == orig.take(n_seen as int).filter(pred),
                self@.skip(i as int) == orig.skip(n_seen as int),
                self@.len() - i == orig.len() - n_seen,
            decreases self@.len() - i,
        {
            let c = self.card_at(i);
            proof {
                assert(orig.skip(n_seen as int)[0] == c);
                assert(orig.take(n_seen as int + 1) =~= orig.take(n_seen as int).push(c));
                orig.take(n_seen as int).lemma_filter_push(c, pred);
            }
            if c == card {
                let ghost before = self@;
                hand_vector_remove(&mut self.veccard, i);
                assert(self@.take(i as int) =~= before.take(i as int));
                assert(self@.skip(i as int) =~= before.skip(i as int + 1));
                assert(orig.skip(n_seen as int + 1) =~= orig.skip(n_seen as int).skip(1));
            } else {
                assert(self@.take(i as int + 1) =~= self@.take(i as int).push(c));
                assert(self@.skip(i as int + 1) =~= self@.skip(i as int).skip(1));
                assert(orig.skip(n_seen as int + 1) =~= orig.skip(n_seen as int).skip(1));
                i = i + 1;
            }
            n_seen = n_seen + 1;
        }
        proof {
            assert(self@.skip(i as int).len() == 0);
            assert(orig.skip(n_seen as int).len() == 0);
            assert(orig.take(n_seen as int) =~= orig);
            assert(self@.take(i as int) =~= self@);
        }
    }

    /// Gives `card` back to the hand, at its end.
    pub fn add_card(&mut self, card: SCard)
        requires
            old(self)@.len() < 8,
        ensures
            final(self)@ == old(self)@.push(card),
    {
        hand_vector_push(&mut self.veccard, card)
    }

    /// Takes out the card at position `i`, keeping the others in order.
    pub fn play_card_at(&mut self, i: usize) -> (r: SCard)
        requires
            i < old(self)@.len(),
        ensures
            r == old(self)@[i as int],
            final(self)@ == old(self)@.remove(i as int),
    {
        hand_vector_remove(&mut self.veccard, i)
    }

    /// Puts `card` back at position `i`: undoes `play_card_at(i)`.
    pub fn add_card_at(&mut self, i: usize, card: SCard)
        requires
            i <= old(self)@.len(),
            old(self)@.len() < 8,
        ensures
            final(self)@ == old(self)@.insert(i as int, card),
    {
        hand_vector_insert(&mut self.veccard, i, card)
    }

    /// Puts `card` at position `i` in place of the card there, which is returned.
    pub fn replace_card_at(&mut self, i: usize, card: SCard) -> (r: SCard)
        requires
            i < old(self)@.len(),
        ensures
            r == old(self)@[i as int],
            final(self)@ == old(self)@.update(i as int, card),
    {
        let _ = self.len();
        let r = hand_vector_remove(&mut self.veccard, i);
        hand_vector_insert(&mut self.veccard, i, card);
        assert(self@ =~= old(self)@.update(i as int, card));
        r
    }

    pub fn cards(&self) -> (r: &SHandVector)
        ensures
            hand_vector_cards(*r) == self@,
    {
        &self.veccard
    }
}

/// Whether the comparator `f` never says that `a` is less than `b`.
pub open spec fn not_less<F: Fn(&SCard, &SCard) -> Ordering>(f: F, a: SCard, b: SCard) -> bool {
    forall|o: Ordering| f.ensures((&a, &b), o) ==> o != Ordering::Less
}

/// Whether the comparator `f` may say that `a` is less than `b`.
pub open spec fn may_be_less<F: Fn(&SCard, &SCard) -> Ordering>(f: F, a: SCard, b: SCard) -> bool {
    f.ensures((&a, &b), Ordering::Less)
}

/// What a sort needs of a comparator: it can be called on any cards, gives
/// one answer per pair, finds no card less than itself, and orders
/// transitively (a card not less than `a` is not less than a card less than
/// `a`, and a card less than `a` is less than any card not less than `a`).
pub open spec fn is_total_order<F: Fn(&SCard, &SCard) -> Ordering>(f: F) -> bool {
    &&& forall|a: SCard, b: SCard| f.requires((&a, &b))
    &&& forall|a: SCard, b: SCard, o1: Ordering, o2: Ordering|
        #[trigger] f.ensures((&a, &b), o1) && #[trigger] f.ensures((&a, &b), o2) ==> o1 == o2
    &&& forall|a: SCard| #[trigger] not_less(f, a, a)
    &&& forall|a: SCard, b: SCard, c: SCard|
        #[trigger] not_less(f, c, a) && #[trigger] may_be_less(f, b, a) ==> not_less(f, c, b)
            && may_be_less(f, b, c)
}

/// Whether the card at each position `i` of `sorted` is the card at position
/// `perm[i]` of `unsorted`, no position is taken twice, and cards that compare
/// equal under `f` stand in `sorted` in the order they stood in `unsorted`.
pub open spec fn keeps_equal_order<F: Fn(&SCard, &SCard) -> Ordering>(
    f: F,
    unsorted: Seq<SCard>,
    sorted: Seq<SCard>,
    perm: Seq<int>,
) -> bool {
    &&& perm.len() == sorted.len()
    &&& forall|i: int|
        0 <= i < perm.len() ==> 0 <= #[trigger] perm[i] < unsorted.len() && sorted[i] == unsorted[perm[i]]
    &&& forall|i: int, j: int| 0 <= i < j < perm.len() ==> perm[i] != perm[j]
    &&& forall|i: int, j: int| 0 <= i < j < perm.len() && not_less(f, sorted[i], sorted[j]) ==> perm[i] < perm[j]
}

/// A hand kept in a growable vector.
#[derive(Clone, Debug)]
pub struct CHand {
    m_veccard: Vec<SCard>,
}

impl View for CHand {
    type V = Seq<SCard>;

    closed spec fn view(&self) -> Seq<SCard> {
        self.m_veccard@
    }
}

impl CHand {
    /// This hand without `card_played`.
    pub fn new_from_hand(&self, card_played: SCard) -> (r: CHand)
        ensures
            r@ == self@.filter(|card: SCard| card != card_played),
    {
        let ghost pred = |card: SCard| card != card_played;
        let mut veccard: Vec<SCard> = Vec::new();
        let mut i: usize = 0;
        while i < self.m_veccard.len()
            invariant
                pred == (|card: SCard| card != card_played),
                i <= self@.len(),
                veccard@ == self@.take(i as int).filter(pred),
            decreases self@.len() - i,
        {
            let card = self.m_veccard[i];
            assert(self@.take(i as int + 1) =~= self@.take(i as int).push(card));
            proof {
                self@.take(i as int).lemma_filter_push(card, pred);
            }
            if card != card_played {
                veccard.push(card);
            }
            i = i + 1;
        }
        assert(self@.take(i as int) =~= self@);
        CHand { m_veccard: veccard }
    }

    pub fn new_from_vec(veccard: Vec<SCard>) -> (r: CHand)
        ensures
            r@ == veccard@,
    {
        CHand { m_veccard: veccard }
    }

    pub fn contains(&self, card_check: SCard) -> (r: bool)
        ensures
            r == self@.contains(card_check),
    {
        let mut i: usize = 0;
        while i < self.m_veccard.len()
            invariant
                i <= self@.len(),
                forall|j: int| 0 <= j < i ==> self@[j] != card_check,
            decreases self@.len() - i,
        {
            if self.m_veccard[i] == card_check {
                return true;
            }
            i = i + 1;
        }
        false
    }

    /// Takes every copy of `card_played` out of the hand.
    pub fn play_card(&mut self, card_played: SCard)
        ensures
            final(self)@ == old(self)@.filter(|card: SCard| card != card_played),
    {
        *self = self.new_from_hand(card_played);
    }

    /// Reorders the cards, the smallest under `cmpless` first: each card is
    /// not less than any card before it, and cards that compare equal keep
    /// their order (`perm` gives each card's former position).
    pub fn sort<F: Fn(&SCard, &SCard) -> Ordering>(&mut self, cmpless: F)
        requires
            is_total_order(cmpless),
        ensures
            final(self)@.to_multiset() == old(self)@.to_multiset(),
            forall|i: int, j: int|
                0 <= i < j < final(self)@.len() ==> not_less(cmpless, final(self)@[j], final(self)@[i]),
            exists|perm: Seq<int>| #[trigger] keeps_equal_order(cmpless, old(self)@, final(self)@, perm),
    {
        let mut rest = self.m_veccard.clone();
        assert(rest@ =~= old(self)@);
        let ghost orig = old(self)@;
        let ghost mut rest_idx: Seq<int> = Seq::new(orig.len(), |i: int| i);
        let ghost mut out_idx: Seq<int> = Seq::empty();
        let mut out: Vec<SCard> = Vec::new();
        proof {
            out@.to_multiset_ensures();
            assert(out@.to_multiset() =~= vstd::multiset::Multiset::empty());
            assert(out@.to_multiset().add(rest@.to_multiset()) =~= old(self)@.to_multiset());
        }
        while rest.len() > 0
            invariant
                is_total_order(cmpless),
                orig == old(self)@,
                out@.to_multiset().add(rest@.to_multiset()) == old(self)@.to_multiset(),
                forall|i: int, j: int| 0 <= i < j < out@.len() ==> not_less(cmpless, out@[j], out@[i]),
                forall|i: int, k: int|
                    0 <= i < out@.len() && 0 <= k < rest@.len() ==> not_less(cmpless, rest@[k], out@[i]),
                out_idx.len() == out@.len(),
                rest_idx.len() == rest@.len(),
                forall|i: int| 0 <= i < out_idx.len() ==> 0 <= #[trigger] out_idx[i] < orig.len() && out@[i] == orig[out_idx[i]],
                forall|k: int| 0 <= k < rest_idx.len() ==> 0 <= #[trigger] rest_idx[k] < orig.len() && rest@[k] == orig[rest_idx[k]],
                forall|k: int, l: int| 0 <= k < l < rest_idx.len() ==> rest_idx[k] < rest_idx[l],
                forall|i: int, j: int| 0 <= i < j < out_idx.len() ==> out_idx[i] != out_idx[j],
                forall|i: int, k: int| 0 <= i < out_idx.len() && 0 <= k < rest_idx.len() ==> out_idx[i] != rest_idx[k],
                forall|i: int, j: int|
                    0 <= i < j < out@.len() && not_less(cmpless, out@[i], out@[j]) ==> out_idx[i] < out_idx[j],
                forall|i: int, k: int|
                    0 <= i < out@.len() && 0 <= k < rest@.len() && not_less(cmpless, out@[i], rest@[k]) ==> out_idx[i]
                        < rest_idx[k],
            decreases rest@.len(),
        {
            let mut i_best: usize = 0;
            let mut i: usize = 1;
            proof {
                assert(not_less(cmpless, rest@[0], rest@[0]));
            }
            while i < rest.len()
                invariant
                    is_total_order(cmpless),
                    1 <= i <= rest@.len(),
                    i_best < i,
                    forall|k: int| 0 <= k < i ==> not_less(cmpless, #[trigger] rest@[k], rest@[i_best as int]),
                    forall|k: int| 0 <= k < i_best ==> may_be_less(cmpless, rest@[i_best as int], #[trigger] rest@[k]),
                decreases rest@.len() - i,
            {
                let ghost best_before = rest@[i_best as int];
                let o = cmpless(&rest[i], &rest[i_best]);
                match o {
                    Ordering::Less => {
                        proof {
                            assert(may_be_less(cmpless, rest@[i as int], best_before));
                            assert forall|k: int| 0 <= k < i + 1 implies not_less(
                                cmpless,
                                #[trigger] rest@[k],
                                rest@[i as int],
                            ) by {
                                if k < i {
                                    assert(not_less(cmpless, rest@[k], best_before));
                                } else {
                                    assert(not_less(cmpless, rest@[i as int], rest@[i as int]));
                                }
                            }
                            assert forall|k: int| 0 <= k < i implies may_be_less(
                                cmpless,
                                rest@[i as int],
                                #[trigger] rest@[k],
                            ) by {
                                assert(not_less(cmpless, rest@[k], best_before));
                            }
                        }
                        i_best = i;
                    },
                    _ => {
                        proof {
                            assert(cmpless.ensures((&rest@[i as int], &rest@[i_best as int]), o));
                            assert(not_less(cmpless, rest@[i as int], rest@[i_best as int]));
                        }
                    },
                }
                i = i + 1;
            }
            let ghost before = rest@;
            let ghost before_idx = rest_idx;
            let ghost out_before = out@;
            let ghost out_idx_before = out_idx;
            let card = rest.remove(i_best);
            out.push(card);
            proof {
                rest_idx = before_idx.remove(i_best as int);
                out_idx = out_idx_before.push(before_idx[i_best as int]);
                assert(before[i_best as int] == card);
                assert(before.contains(card));
                out_before.to_multiset_ensures();
                before.to_multiset_ensures();
                assert(out@ == out_before.push(card));
                assert(rest@ == before.remove(i_best as int));
                assert(out@.to_multiset() =~= out_before.to_multiset().insert(card));
                assert(rest@.to_multiset() =~= before.to_multiset().remove(card));
                assert(before.to_multiset().count(card) > 0);
                assert(out@.to_multiset().add(rest@.to_multiset()) =~= out_before.to_multiset().add(
                    before.to_multiset(),
                ));
                assert forall|i2: int, k: int|
                    0 <= i2 < out@.len() && 0 <= k < rest@.len() implies not_less(cmpless, rest@[k], out@[i2]) by {
                    let k2 = if k < i_best { k } else { k + 1 };
                    assert(before[k2] == rest@[k]);
                    if i2 < out_before.len() {
                        assert(out@[i2] == out_before[i2]);
                    } else {
                        assert(not_less(cmpless, before[k2], before[i_best as int]));
                    }
                }
                assert forall|i2: int, j2: int| 0 <= i2 < j2 < out@.len() implies not_less(cmpless, out@[j2], out@[i2]) by {
                    if j2 < out_before.len() {
                        assert(out@[j2] == out_before[j2] && out@[i2] == out_before[i2]);
                    } else {
                        assert(out@[j2] == before[i_best as int]);
                        assert(out@[i2] == out_before[i2]);
                    }
                }
                assert forall|k: int| 0 <= k < rest_idx.len() implies 0 <= #[trigger] rest_idx[k] < orig.len()
                    && rest@[k] == orig[rest_idx[k]] by {
                    let k2 = if k < i_best { k } else { k + 1 };
                    assert(rest_idx[k] == before_idx[k2]);
                    assert(before[k2] == rest@[k]);
                }
                assert forall|i2: int| 0 <= i2 < out_idx.len() implies 0 <= #[trigger] out_idx[i2] < orig.len()
                    && out@[i2] == orig[out_idx[i2]] by {
                    if i2 < out_idx_before.len() {
                        assert(out_idx[i2] == out_idx_before[i2]);
                        assert(out@[i2] == out_before[i2]);
                    }
                }
                assert forall|k: int, l: int| 0 <= k < l < rest_idx.len() implies rest_idx[k] < rest_idx[l] by {
                    let k2 = if k < i_best { k } else { k + 1 };
                    let l2 = if l < i_best { l } else { l + 1 };
                    assert(rest_idx[k] == before_idx[k2]);
                    assert(rest_idx[l] == before_idx[l2]);
                }
                assert forall|i2: int, j2: int| 0 <= i2 < j2 < out_idx.len() implies out_idx[i2] != out_idx[j2] by {
                    if j2 < out_idx_before.len() {
                        assert(out_idx[i2] == out_idx_before[i2] && out_idx[j2] == out_idx_before[j2]);
                    } else {
                        assert(out_idx[i2] == out_idx_before[i2]);
                    }
                }
                assert forall|i2: int, k: int| 0 <= i2 < out_idx.len() && 0 <= k < rest_idx.len() implies out_idx[i2]
                    != rest_idx[k] by {
                    let k2 = if k < i_best { k } else { k + 1 };
                    assert(rest_idx[k] == before_idx[k2]);
                    if i2 < out_idx_before.len() {
                        assert(out_idx[i2] == out_idx_before[i2]);
                    } else {
                        assert(out_idx[i2] == before_idx[i_best as int]);
                    }
                }
                assert forall|i2: int, j2: int|
                    0 <= i2 < j2 < out@.len() && not_less(cmpless, out@[i2], out@[j2]) implies out_idx[i2]
                    < out_idx[j2] by {
                    if j2 < out_before.len() {
                        assert(out@[j2] == out_before[j2] && out@[i2] == out_before[i2]);
                        assert(out_idx[i2] == out_idx_before[i2] && out_idx[j2] == out_idx_before[j2]);
                    } else {
                        assert(out@[j2] == before[i_best as int]);
                        assert(out@[i2] == out_before[i2]);
                        assert(out_idx[i2] == out_idx_before[i2]);
                    }
                }
                assert forall|i2: int, k: int|
                    0 <= i2 < out@.len() && 0 <= k < rest@.len() && not_less(cmpless, out@[i2], rest@[k])
                        implies out_idx[i2] < rest_idx[k] by {
                    let k2 = if k < i_best { k } else { k + 1 };
                    assert(before[k2] == rest@[k]);
                    assert(rest_idx[k] == before_idx[k2]);
                    if i2 < out_before.len() {
                        assert(out@[i2] == out_before[i2]);
                        assert(out_idx[i2] == out_idx_before[i2]);
                    } else {
                        assert(out@[i2] == before[i_best as int]);
                        assert(out_idx[i2] == before_idx[i_best as int]);
                        if k2 < i_best {
                            assert(may_be_less(cmpless, before[i_best as int], before[k2]));
                        }
                    }
                }
            }
        }
        proof {
            rest@.to_multiset_ensures();
        }
        assert(rest@.to_multiset() =~= vstd::multiset::Multiset::empty());
        assert(out@.to_multiset() =~= old(self)@.to_multiset());
        self.m_veccard = out;
        assert(keeps_equal_order(cmpless, orig, self@, out_idx));
    }

    pub fn cards(&self) -> (r: &Vec<SCard>)
        ensures
            r@ == self@,
    {
        &self.m_veccard
    }
}

} // verus!
