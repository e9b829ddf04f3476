use std::collections::VecDeque;

use rand::seq::SliceRandom;
use vstd::multiset::Multiset;
use vstd::prelude::*;

verus! {

/// The four suits of the Spanish deck, in deck order.
#[derive(Debug, PartialEq, Eq, Structural, Copy, Clone)]
pub enum Suit {
    Oros,
    Copas,
    Espadas,
    Bastos,
}

/// The ten ranks of the Spanish deck, in deck order.
#[derive(Debug, PartialEq, Eq, Structural, Copy, Clone)]
pub enum Rank {
    As,
    Dos,
    Tres,
    Cuatro,
    Cinco,
    Seis,
    Siete,
    Sota,
    Caballo,
    Rey,
}

/// A card: a suit paired with a rank. Two cards are equal when both fields are.
#[derive(Debug, PartialEq, Eq, Structural, Copy, Clone)]
pub struct Card {
    suit: Suit,
    rank: Rank,
}

impl Card {
    /// The card's suit.
    pub closed spec fn suit_spec(&self) -> Suit {
        self.suit
    }

    /// The card's rank.
    pub closed spec fn rank_spec(&self) -> Rank {
        self.rank
    }

    /// The card of the given suit and rank.
    pub fn new(suit: Suit, rank: Rank) -> (c: Self)
        ensures
            c.suit_spec() == suit,
            c.rank_spec() == rank,
            forall|d: Card| d.suit_spec() == suit && d.rank_spec() == rank ==> d == c,
    {
        Card { suit, rank }
    }
}

/// Card equality is structural: two cards are equal exactly when their suits
/// are equal and their ranks are equal.
pub proof fn lemma_card_eq(a: Card, b: Card)
    ensures
        (a == b) <==> (a.suit_spec() == b.suit_spec() && a.rank_spec() == b.rank_spec()),
{
}

/// The suit at position `i` of the declaration order.
pub open spec fn suit_of(i: int) -> Suit {
    if i == 0 {
        Suit::Oros
    } else if i == 1 {
        Suit::Copas
    } else if i == 2 {
        Suit::Espadas
    } else {
        Suit::Bastos
    }
}

/// The rank at position `i` of the declaration order.
pub open spec fn rank_of(i: int) -> Rank {
    if i == 0 {
        Rank::As
    } else if i == 1 {
        Rank::Dos
    } else if i == 2 {
        Rank::Tres
    } else if i == 3 {
        Rank::Cuatro
    } else if i == 4 {
        Rank::Cinco
    } else if i == 5 {
        Rank::Seis
    } else if i == 6 {
        Rank::Siete
    } else if i == 7 {
        Rank::Sota
    } else if i == 8 {
        Rank::Caballo
    } else {
        Rank::Rey
    }
}

/// Number of cards in a full deck: every suit paired with every rank.
pub const DECK_SIZE: usize = 40;

/// The card that an unshuffled deck holds at position `i`:
/// suits vary slowest, ranks fastest.
pub open spec fn is_unshuffled_card(c: Card, i: int) -> bool {
    c.suit_spec() == suit_of(i / 10) && c.rank_spec() == rank_of(i % 10)
}

/// Returned by a draw from a deck that holds no card.
#[derive(Debug)]
pub struct EmptyDeckError;

/// An ordered pile of cards; draws take from the front.
pub struct Deck {
    pub cards: VecDeque<Card>,
}

/// What one draw does to a pile: the front card comes off, or nothing
/// changes and the draw fails when the pile is empty.
pub open spec fn draw_spec(s: Seq<Card>) -> (Seq<Card>, Result<Card, EmptyDeckError>) {
    if s.len() == 0 {
        (s, Err(EmptyDeckError))
    } else {
        (s.drop_first(), Ok(s[0]))
    }
}

/// Relies on rand's `SliceRandom::shuffle` with `thread_rng`: it only swaps
/// elements of the slice, so the result is a permutation of the input.
#[verifier::external_body]
fn shuffle_cards(cards: &mut VecDeque<Card>)
    ensures
        final(cards)@.len() == old(cards)@.len(),
        final(cards)@.to_multiset() == old(cards)@.to_multiset(),
{
    let mut rng = rand::thread_rng();
    cards.make_contiguous().shuffle(&mut rng);
}

impl Deck {
    /// A full deck in declaration order: card `i` has suit `i / 10` and rank `i % 10`.
    pub fn new() -> (d: Self)
        ensures
            d.cards@.len() == DECK_SIZE,
            forall|i: int| 0 <= i < DECK_SIZE ==> is_unshuffled_card(#[trigger] d.cards@[i], i),
            forall|i: int, j: int|
                0 <= i < DECK_SIZE && 0 <= j < DECK_SIZE && i != j ==> d.cards@[i] != d.cards@[j],
    {
        let suits = [Suit::Oros, Suit::Copas, Suit::Espadas, Suit::Bastos];
        let ranks = [
            Rank::As,
            Rank::Dos,
            Rank::Tres,
            Rank::Cuatro,
            Rank::Cinco,
            Rank::Seis,
            Rank::Siete,
            Rank::Sota,
            Rank::Caballo,
            Rank::Rey,
        ];
        let mut cards: VecDeque<Card> = VecDeque::new();
        let mut s: usize = 0;
        while s < 4
            invariant
                s <= 4,
                forall|k: int| 0 <= k < 4 ==> suits@[k] == suit_of(k),
                forall|k: int| 0 <= k < 10 ==> ranks@[k] == rank_of(k),
                cards@.len() == 10 * s,
                forall|i: int| 0 <= i < cards@.len() ==> is_unshuffled_card(#[trigger] cards@[i], i),
            decreases 4 - s,
        {
            let mut r: usize = 0;
            while r < 10
                invariant
                    s < 4,
                    r <= 10,
                    forall|k: int| 0 <= k < 4 ==> suits@[k] == suit_of(k),
                    forall|k: int| 0 <= k < 10 ==> ranks@[k] == rank_of(k),
                    cards@.len() == 10 * s + r,
                    forall|i: int| 0 <= i < cards@.len() ==> is_unshuffled_card(#[trigger] cards@[i], i),
                decreases 10 - r,
            {
                let c = Card::new(suits[s], ranks[r]);
                let ghost n = cards@.len() as int;
                assert(n / 10 == s as int && n % 10 == r as int);
                cards.push_back(c);
                r = r + 1;
            }
            s = s + 1;
        }
        proof {
            lemma_unshuffled_distinct(cards@);
        }
        Deck { cards }
    }

    /// Puts the cards in a random order; the same cards stay in the deck.
    pub fn shuffle(&mut self)
        ensures
            final(self).cards@.len() == old(self).cards@.len(),
            final(self).cards@.to_multiset() == old(self).cards@.to_multiset(),
    {
        shuffle_cards(&mut self.cards);
    }

    /// Takes the front card off the deck, or fails when the deck is empty.
    pub fn draw_card(&mut self) -> (r: Result<Card, EmptyDeckError>)
        ensures
            (final(self).cards@, r) == draw_spec(old(self).cards@),
    {
        match self.cards.pop_front() {
            Some(c) => Ok(c),
            None => Err(EmptyDeckError),
        }
    }
}

/// A pile laid out in unshuffled order holds no card twice.
pub proof fn lemma_unshuffled_distinct(s: Seq<Card>)
    requires
        s.len() <= DECK_SIZE,
        forall|i: int| 0 <= i < s.len() ==> is_unshuffled_card(#[trigger] s[i], i),
    ensures
        forall|i: int, j: int| 0 <= i < s.len() && 0 <= j < s.len() && i != j ==> s[i] != s[j],
{
    assert forall|i: int, j: int| 0 <= i < s.len() && 0 <= j < s.len() && i != j implies s[i]
        != s[j] by {
        assert(is_unshuffled_card(s[i], i));
        assert(is_unshuffled_card(s[j], j));
        if s[i] == s[j] {
            assert(i / 10 == j / 10);
            assert(i % 10 == j % 10);
        }
    }
}

/// Why an operation on a hand failed.
#[derive(Debug, PartialEq, Eq, Structural, Copy, Clone)]
pub enum HandError {
    EmptyHandError,
    FullHandError,
    CardNotInHandError,
}

/// The most cards a hand can hold.
pub const MAX_CARDS_IN_HAND: usize = 4;

/// The cards one player holds, at most four, in the order they were added.
pub struct Hand {
    cards: Vec<Card>,
}

impl View for Hand {
    type V = Seq<Card>;

    closed spec fn view(&self) -> Seq<Card> {
        self.cards@
    }
}

/// Position `i` of `s` holds `c` and no earlier position does.
pub open spec fn is_first_index(s: Seq<Card>, c: Card, i: int) -> bool {
    0 <= i < s.len() && s[i] == c && forall|j: int| 0 <= j < i ==> s[j] != c
}

/// The position of the first card of `s` equal to `c`, where `s` holds one.
pub open spec fn first_index(s: Seq<Card>, c: Card) -> int {
    choose|i: int| is_first_index(s, c, i)
}

/// What one add does to a hand's cards: append, or fail when four are held.
pub open spec fn add_spec(h: Seq<Card>, c: Card) -> (Seq<Card>, Result<(), HandError>) {
    if h.len() >= MAX_CARDS_IN_HAND {
        (h, Err(HandError::FullHandError))
    } else {
        (h.push(c), Ok(()))
    }
}

/// What one removal does to a hand's cards: the first equal card goes and the
/// rest keep their order; an empty hand, or one without the card, is left as it is.
pub open spec fn remove_spec(h: Seq<Card>, c: Card) -> (Seq<Card>, Result<(), HandError>) {
    if h.len() == 0 {
        (h, Err(HandError::EmptyHandError))
    } else if !h.contains(c) {
        (h, Err(HandError::CardNotInHandError))
    } else {
        (h.remove(first_index(h, c)), Ok(()))
    }
}

/// Adds the cards of `cs` one by one and stops at the first failure; what was
/// added before it stays.
pub open spec fn add_all(h: Seq<Card>, cs: Seq<Card>) -> (Seq<Card>, Result<(), HandError>)
    decreases cs.len(),
{
    if cs.len() == 0 {
        (h, Ok(()))
    } else {
        let (h2, r) = add_spec(h, cs[0]);
        if r is Err {
            (h2, r)
        } else {
            add_all(h2, cs.drop_first())
        }
    }
}

/// Removes the cards of `cs` one by one and stops at the first failure; what was
/// removed before it stays removed.
pub open spec fn remove_all(h: Seq<Card>, cs: Seq<Card>) -> (Seq<Card>, Result<(), HandError>)
    decreases cs.len(),
{
    if cs.len() == 0 {
        (h, Ok(()))
    } else {
        let (h2, r) = remove_spec(h, cs[0]);
        if r is Err {
            (h2, r)
        } else {
            remove_all(h2, cs.drop_first())
        }
    }
}

impl Hand {
    /// A hand holds at most four cards.
    pub open spec fn wf(&self) -> bool {
        self@.len() <= MAX_CARDS_IN_HAND
    }

    /// An empty hand.
    pub fn new() -> (h: Self)
        ensures
            h.wf(),
            h@ == Seq::<Card>::empty(),
    {
        Hand { cards: Vec::new() }
    }

    /// Appends `card`, or fails with `FullHandError` when four cards are
    /// already held, leaving the hand as it was.
    pub fn add_card(&mut self, card: Card) -> (r: Result<(), HandError>)
        requires
            old(self).wf(),
        ensures
            final(self).wf(),
            (final(self)@, r) == add_spec(old(self)@, card),
            r is Ok ==> final(self)@[old(self)@.len() as int] == card,
    {
        if self.cards.len() >= MAX_CARDS_IN_HAND {
            return Err(HandError::FullHandError);
        }
        self.cards.push(card);
        Ok(())
    }

    /// Adds the cards in order and stops at the first failure; the cards
    /// added before it stay in the hand.
    pub fn add_cards(&mut self, cards: Vec<Card>) -> (r: Result<(), HandError>)
        requires
            old(self).wf(),
        ensures
            final(self).wf(),
            (final(self)@, r) == add_all(old(self)@, cards@),
            old(self)@.len() + cards@.len() <= MAX_CARDS_IN_HAND ==> r is Ok && final(self)@
                == old(self)@ + cards@,
            old(self)@.len() + cards@.len() > MAX_CARDS_IN_HAND ==> r == Err::<(), HandError>(
                HandError::FullHandError,
            ) && final(self)@ == old(self)@ + cards@.take(
                MAX_CARDS_IN_HAND - old(self)@.len(),
            ),
    {
        let mut i: usize = 0;
        assert(cards@.skip(0) =~= cards@);
        while i < cards.len()
            invariant
                i <= cards@.len(),
                self.wf(),
                add_all(self@, cards@.skip(i as int)) == add_all(old(self)@, cards@),
            decreases cards@.len() - i,
        {
            let ghost rest = cards@.skip(i as int);
            assert(rest.drop_first() =~= cards@.skip(i + 1));
            let res = self.add_card(cards[i]);
            if res.is_err() {
                proof {
                    lemma_add_all_fills(old(self)@, cards@);
                }
                return res;
            }
            i = i + 1;
        }
        assert(cards@.skip(i as int) =~= Seq::<Card>::empty());
        proof {
            lemma_add_all_fills(old(self)@, cards@);
        }
        Ok(())
    }

    /// Removes the first held card equal to `card`, keeping the order of the
    /// rest. Fails with `EmptyHandError` on an empty hand and with
    /// `CardNotInHandError` when no held card is equal; the hand is then unchanged.
    pub fn remove_card(&mut self, card: Card) -> (r: Result<(), HandError>)
        requires
            old(self).wf(),
        ensures
            final(self).wf(),
            (final(self)@, r) == remove_spec(old(self)@, card),
            r is Ok ==> is_first_index(old(self)@, card, first_index(old(self)@, card)),
            r is Ok ==> final(self)@.len() == old(self)@.len() - 1,
    {
        if self.cards.len() == 0 {
            return Err(HandError::EmptyHandError);
        }
        let mut i: usize = 0;
        while i < self.cards.len()
            invariant
                i <= self.cards@.len(),
                self.cards@ == old(self).cards@,
                self.cards@.len() <= MAX_CARDS_IN_HAND,
                forall|j: int| 0 <= j < i ==> self.cards@[j] != card,
            decreases self.cards@.len() - i,
        {
            if self.cards[i] == card {
                let ghost s = self.cards@;
                proof {
                    assert(is_first_index(s, card, i as int));
                    lemma_first_index(s, card);
                    let k = first_index(s, card);
                    if k < i {
                        assert(s[k] != card);
                    } else if k > i {
                        assert(s[i as int] != card);
                    }
                }
                self.cards.remove(i);
                return Ok(());
            }
            i = i + 1;
        }
        assert(!self.cards@.contains(card));
        Err(HandError::CardNotInHandError)
    }

    /// Removes the cards in order and stops at the first failure; the cards
    /// removed before it stay removed.
    pub fn remove_cards(&mut self, cards: Vec<Card>) -> (r: Result<(), HandError>)
        requires
            old(self).wf(),
        ensures
            final(self).wf(),
            (final(self)@, r) == remove_all(old(self)@, cards@),
    {
        let mut i: usize = 0;
        assert(cards@.skip(0) =~= cards@);
        while i < cards.len()
            invariant
                i <= cards@.len(),
                self.wf(),
                remove_all(self@, cards@.skip(i as int)) == remove_all(old(self)@, cards@),
            decreases cards@.len() - i,
        {
            let ghost rest = cards@.skip(i as int);
            assert(rest.drop_first() =~= cards@.skip(i + 1));
            let res = self.remove_card(cards[i]);
            if res.is_err() {
                return res;
            }
            i = i + 1;
        }
        assert(cards@.skip(i as int) =~= Seq::<Card>::empty());
        Ok(())
    }

    /// The cards held, in order.
    pub fn get_cards(&self) -> (r: &Vec<Card>)
        ensures
            r@ == self@,
    {
        &self.cards
    }
}

/// Drawing from a pile of `n` cards: after `k < n` draws the pile is its last
/// `n - k` cards, the next draw succeeds with card `k` and leaves one card fewer;
/// after `n` draws the pile is empty and the next draw fails.
pub proof fn lemma_draws_until_empty(s: Seq<Card>, k: int)
    requires
        0 <= k <= s.len(),
    ensures
        k < s.len() ==> draw_spec(s.skip(k)) == (s.skip(k + 1), Ok::<Card, EmptyDeckError>(s[k])),
        k < s.len() ==> s.skip(k + 1).len() == s.skip(k).len() - 1,
        k == s.len() ==> draw_spec(s.skip(k)) == (s.skip(k), Err::<Card, EmptyDeckError>(
            EmptyDeckError,
        )),
{
    if k < s.len() {
        assert(s.skip(k).drop_first() =~= s.skip(k + 1));
    }
}

/// An add never takes a hand past four cards.
pub proof fn lemma_add_keeps_capacity(h: Seq<Card>, c: Card)
    requires
        h.len() <= MAX_CARDS_IN_HAND,
    ensures
        add_spec(h, c).0.len() <= MAX_CARDS_IN_HAND,
{
}

/// An empty hand takes any four cards, in order, and then refuses a fifth as full.
pub proof fn lemma_hand_takes_four(cs: Seq<Card>, c: Card)
    requires
        cs.len() == MAX_CARDS_IN_HAND,
    ensures
        add_all(Seq::empty(), cs) == (cs, Ok::<(), HandError>(())),
        add_spec(cs, c) == (cs, Err::<(), HandError>(HandError::FullHandError)),
{
    let e = Seq::<Card>::empty();
    assert(e.push(cs[0]) =~= cs.take(1));
    assert(cs.take(1).push(cs[1]) =~= cs.take(2));
    assert(cs.take(2).push(cs[2]) =~= cs.take(3));
    assert(cs.take(3).push(cs[3]) =~= cs);
    let d1 = cs.drop_first();
    let d2 = d1.drop_first();
    let d3 = d2.drop_first();
    let d4 = d3.drop_first();
    assert(d4.len() == 0);
    assert(add_all(cs, d4) == (cs, Ok::<(), HandError>(())));
    assert(add_all(cs.take(3), d3) == add_all(cs, d4));
    assert(add_all(cs.take(2), d2) == add_all(cs.take(3), d3));
    assert(add_all(cs.take(1), d1) == add_all(cs.take(2), d2));
}

/// Removing from an empty hand fails as empty; removing a card that a
/// non-empty hand does not hold fails as absent and changes nothing.
pub proof fn lemma_remove_failures(h: Seq<Card>, c: Card)
    ensures
        remove_spec(Seq::empty(), c) == (Seq::<Card>::empty(), Err::<(), HandError>(
            HandError::EmptyHandError,
        )),
        h.len() > 0 && !h.contains(c) ==> remove_spec(h, c) == (h, Err::<(), HandError>(
            HandError::CardNotInHandError,
        )),
{
}

/// Where a hand holds `c`, `first_index` is the position of its first `c`.
pub proof fn lemma_first_index(s: Seq<Card>, c: Card)
    requires
        s.contains(c),
    ensures
        is_first_index(s, c, first_index(s, c)),
    decreases s.len(),
{
    if s[0] == c {
        assert(is_first_index(s, c, 0));
    } else {
        let t = s.drop_first();
        let w = choose|i: int| 0 <= i < s.len() && s[i] == c;
        assert(t[w - 1] == c);
        lemma_first_index(t, c);
        let k = first_index(t, c) + 1;
        assert forall|j: int| 0 <= j < k implies s[j] != c by {
            if j > 0 {
                assert(s[j] == t[j - 1]);
                assert(is_first_index(t, c, k - 1));
            }
        }
        assert(is_first_index(s, c, k));
    }
}

/// Adding a card to a hand that has room and then removing the same card
/// value gives back a hand of the same length; where the hand did not hold
/// that card before, it gives back the same hand, without the card.
pub proof fn lemma_add_then_remove(h: Seq<Card>, c: Card)
    requires
        h.len() < MAX_CARDS_IN_HAND,
    ensures
        add_spec(h, c).1 is Ok,
        remove_spec(add_spec(h, c).0, c).1 is Ok,
        remove_spec(add_spec(h, c).0, c).0.len() == h.len(),
        !h.contains(c) ==> remove_spec(add_spec(h, c).0, c).0 == h,
        !h.contains(c) ==> !remove_spec(add_spec(h, c).0, c).0.contains(c),
{
    let h2 = h.push(c);
    assert(h2[h.len() as int] == c);
    assert(h2.contains(c));
    lemma_first_index(h2, c);
    if !h.contains(c) {
        let k = first_index(h2, c);
        if k < h.len() {
            assert(h[k] == c);
        }
        assert(h2.remove(h.len() as int) =~= h);
    }
}

/// Removing, one by one, cards that the hand holds (counted with multiplicity)
/// succeeds and leaves exactly the other cards.
pub proof fn lemma_remove_all_held(h: Seq<Card>, cs: Seq<Card>, rest: Seq<Card>)
    requires
        h.to_multiset() == cs.to_multiset().add(rest.to_multiset()),
    ensures
        remove_all(h, cs).1 == Ok::<(), HandError>(()),
        remove_all(h, cs).0.to_multiset() == rest.to_multiset(),
    decreases cs.len(),
{
    broadcast use vstd::seq_lib::group_to_multiset_ensures;
    broadcast use vstd::multiset::group_multiset_axioms;

    if cs.len() == 0 {
        assert(cs.to_multiset() =~= Multiset::<Card>::empty());
        assert(h.to_multiset() =~= rest.to_multiset());
    } else {
        let c = cs[0];
        let tail = cs.drop_first();
        assert(cs =~= seq![c] + tail);
        vstd::seq_lib::lemma_multiset_commutative(seq![c], tail);
        assert(seq![c] =~= Seq::<Card>::empty().push(c));
        assert(Seq::<Card>::empty().to_multiset() =~= Multiset::<Card>::empty());
        assert(cs.to_multiset() =~= tail.to_multiset().insert(c));
        assert(h.to_multiset().count(c) > 0);
        assert(h.contains(c));
        lemma_first_index(h, c);
        let i = first_index(h, c);
        let h2 = h.remove(i);
        assert(h2.to_multiset() == h.to_multiset().remove(c));
        assert(h2.to_multiset() =~= tail.to_multiset().add(rest.to_multiset()));
        lemma_remove_all_held(h2, tail, rest);
    }
}

/// Adding a sequence of cards appends all of them where they fit; otherwise
/// it appends those that fit and fails as full.
pub proof fn lemma_add_all_fills(h: Seq<Card>, cs: Seq<Card>)
    requires
        h.len() <= MAX_CARDS_IN_HAND,
    ensures
        h.len() + cs.len() <= MAX_CARDS_IN_HAND ==> add_all(h, cs) == (h + cs, Ok::<(), HandError>(())),
        h.len() + cs.len() > MAX_CARDS_IN_HAND ==> add_all(h, cs) == (h + cs.take(
            MAX_CARDS_IN_HAND - h.len(),
        ), Err::<(), HandError>(HandError::FullHandError)),
    decreases cs.len(),
{
    if cs.len() == 0 {
        assert(h + cs =~= h);
    } else if h.len() == MAX_CARDS_IN_HAND {
        assert(h + cs.take(0) =~= h);
    } else {
        let t = cs.drop_first();
        lemma_add_all_fills(h.push(cs[0]), t);
        assert(h.push(cs[0]) + t =~= h + cs);
        if h.len() + cs.len() > MAX_CARDS_IN_HAND {
            assert(h.push(cs[0]) + t.take(MAX_CARDS_IN_HAND - h.len() - 1) =~= h + cs.take(
                MAX_CARDS_IN_HAND - h.len(),
            ));
        }
    }
}

/// Removing, one by one and in order, the cards that a hand starts with
/// succeeds and leaves the cards after them, in their order.
pub proof fn lemma_remove_leading(cs: Seq<Card>, rest: Seq<Card>)
    ensures
        remove_all(cs + rest, cs) == (rest, Ok::<(), HandError>(())),
    decreases cs.len(),
{
    if cs.len() == 0 {
        assert(cs + rest =~= rest);
    } else {
        let h = cs + rest;
        let c = cs[0];
        assert(is_first_index(h, c, 0));
        assert(h.contains(c));
        lemma_first_index(h, c);
        assert(first_index(h, c) == 0);
        assert(h.remove(0) =~= cs.drop_first() + rest);
        lemma_remove_leading(cs.drop_first(), rest);
    }
}

/// From a four-card hand that holds three given cards and one other,
/// removing the three leaves exactly the other one.
pub proof fn lemma_remove_three_of_four(h: Seq<Card>, cs: Seq<Card>, x: Card)
    requires
        cs.len() == 3,
        h.to_multiset() == cs.to_multiset().insert(x),
    ensures
        remove_all(h, cs) == (seq![x], Ok::<(), HandError>(())),
{
    broadcast use vstd::seq_lib::group_to_multiset_ensures;
    broadcast use vstd::multiset::group_multiset_axioms;

    let one = seq![x];
    assert(one =~= Seq::<Card>::empty().push(x));
    assert(Seq::<Card>::empty().to_multiset() =~= Multiset::<Card>::empty());
    assert(one.to_multiset() =~= Multiset::<Card>::empty().insert(x));
    assert(h.to_multiset() =~= cs.to_multiset().add(one.to_multiset()));
    lemma_remove_all_held(h, cs, one);
    let t = remove_all(h, cs).0;
    vstd::seq_lib::to_multiset_len(t);
    vstd::seq_lib::to_multiset_len(one);
    assert(t.len() == 1);
    assert(t.to_multiset().count(x) > 0);
    assert(t.contains(x));
    assert(t =~= one);
}

} // verus!
