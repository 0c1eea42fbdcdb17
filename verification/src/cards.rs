//! Blackjack: dealing cards that have not been played yet and valuing hands.
use vstd::prelude::*;
use vstd::multiset::Multiset;

verus! {

/// Draws a number from `0..bound` with the thread-local generator.
///
/// Trusted: calls `rand::random_range(0..bound)`. Its documentation promises a
/// value inside the range and a panic only on an empty range, which `requires`
/// rules out. Which value comes back rests on chance and is not stated.
#[verifier::external_body]
fn random_below(bound: u32) -> (r: u32)
    requires
        bound > 0,
    ensures
        r < bound,
{
    rand::random_range(0..bound)
}

/// The value of a freshly drawn card: a number from 1 to 10, each as likely.
pub fn custom_card_val() -> (v: u32)
    ensures
        1 <= v <= 10,
{
    random_below(10) + 1
}

#[derive(Clone, Copy, Debug, PartialEq, Eq, Structural)]
pub enum Suite {
    Hearts,
    Diamonds,
    Clubs,
    Cloves,
}

impl Suite {
    /// Position of the suite in declaration order.
    pub open spec fn index(self) -> int {
        match self {
            Suite::Hearts => 0,
            Suite::Diamonds => 1,
            Suite::Clubs => 2,
            Suite::Cloves => 3,
        }
    }

    /// The suite at position `i` in declaration order.
    pub fn from_index(i: u32) -> (s: Suite)
        requires
            i < 4,
        ensures
            s.index() == i,
            s == suite_at(i as int),
    {
        if i == 0 {
            Suite::Hearts
        } else if i == 1 {
            Suite::Diamonds
        } else if i == 2 {
            Suite::Clubs
        } else {
            Suite::Cloves
        }
    }

    /// A suite drawn at random, each of the four as likely.
    pub fn rand() -> (s: Suite)
        ensures
            0 <= s.index() < 4,
    {
        Suite::from_index(random_below(4))
    }
}

#[derive(Clone, Copy, Debug, PartialEq, Eq, Structural)]
pub struct Card {
    pub suite: Suite,
    pub value: u32,
}

/// A card of the deck that is dealt from: a value from 1 to 10 in any suite.
pub open spec fn is_standard(c: Card) -> bool {
    1 <= c.value <= 10
}

/// `c` may be dealt after the cards of `played`: it is in the deck and has not
/// been played yet.
pub open spec fn can_deal(played: Seq<Card>, c: Card) -> bool {
    is_standard(c) && !played.contains(c)
}

/// The suite at position `i` in declaration order.
pub open spec fn suite_at(i: int) -> Suite {
    if i == 0 {
        Suite::Hearts
    } else if i == 1 {
        Suite::Diamonds
    } else if i == 2 {
        Suite::Clubs
    } else {
        Suite::Cloves
    }
}

/// The deck that is dealt from, in order: suite by suite in declaration
/// order, and by value from 1 to 10 within a suite.
pub open spec fn deck() -> Seq<Card> {
    Seq::new(40, |i: int| Card { suite: suite_at(i / 10), value: (i % 10 + 1) as u32 })
}

/// The cards of the deck that are not in `played`, in deck order.
pub open spec fn free_cards(played: Seq<Card>) -> Seq<Card> {
    deck().filter(|c: Card| !played.contains(c))
}

/// The free cards are exactly the cards that may be dealt.
pub proof fn lemma_free_cards_contains(played: Seq<Card>, c: Card)
    ensures
        free_cards(played).contains(c) <==> can_deal(played, c),
{
    let p = |c: Card| !played.contains(c);
    if free_cards(played).contains(c) {
        let k = choose|k: int| 0 <= k < free_cards(played).len() && free_cards(played)[k] == c;
        deck().lemma_filter_pred(p, k);
        deck().lemma_filter_contains_rev(p, c);
        let j = choose|j: int| 0 <= j < deck().len() && deck()[j] == c;
        assert(1 <= deck()[j].value <= 10);
    }
    if can_deal(played, c) {
        let i = c.suite.index() * 10 + c.value - 1;
        assert(deck()[i] == c);
        deck().lemma_filter_contains(p, i);
    }
}

/// Sum of the card values of a hand.
pub open spec fn hand_total(hand: Seq<Card>) -> int
    decreases hand.len(),
{
    if hand.len() == 0 {
        0
    } else {
        hand_total(hand.drop_last()) + hand.last().value
    }
}

/// The hand holds an ace (a card of value 1).
pub open spec fn has_ace(hand: Seq<Card>) -> bool {
    exists|i: int| 0 <= i < hand.len() && #[trigger] hand[i].value == 1
}

/// The two values of a hand: the plain total, and the total with one ace
/// counted as 11 where the hand holds an ace and that stays at most 21
/// (else the plain total again).
pub open spec fn hand_value(hand: Seq<Card>) -> (int, int) {
    let t = hand_total(hand);
    if has_ace(hand) && t + 10 <= 21 {
        (t, t + 10)
    } else {
        (t, t)
    }
}

/// The total of a prefix is at most the total of the whole hand.
pub proof fn lemma_prefix_total(hand: Seq<Card>, i: int)
    requires
        0 <= i <= hand.len(),
    ensures
        hand_total(hand.take(i)) <= hand_total(hand),
        hand_total(hand.take(i)) >= 0,
    decreases hand.len(),
{
    if hand.len() == 0 {
        assert(hand.take(i) =~= hand);
    } else if i == hand.len() {
        assert(hand.take(i) =~= hand);
        lemma_prefix_total(hand.drop_last(), i - 1);
    } else {
        lemma_prefix_total(hand.drop_last(), i);
        assert(hand.drop_last().take(i) =~= hand.take(i));
    }
}

/// Dealing a card that may be dealt keeps the played pile free of repeats.
pub proof fn lemma_deal_keeps_pile_distinct(played: Seq<Card>, c: Card)
    requires
        played.no_duplicates(),
        can_deal(played, c),
    ensures
        played.push(c).no_duplicates(),
{
    assert forall|i: int, j: int|
        0 <= i < j < played.push(c).len() implies played.push(c)[i] != played.push(c)[j] by {
        if j == played.len() {
            assert(played.contains(played[i]));
        }
    }
}

/// No card occurs twice in the deck.
pub proof fn lemma_deck_distinct()
    ensures
        deck().no_duplicates(),
{
    assert forall|i: int, j: int| 0 <= i < j < deck().len() implies deck()[i] != deck()[j] by {
        if deck()[i] == deck()[j] {
            assert(suite_at(i / 10).index() == i / 10);
            assert(suite_at(j / 10).index() == j / 10);
        }
    }
}

/// Filtering a sequence without repeats by "not played" loses one more
/// element once `c` joins the played cards, when `c` is in it and was free.
proof fn lemma_filter_one_more_played(s: Seq<Card>, played: Seq<Card>, c: Card)
    requires
        s.no_duplicates(),
    ensures
        s.filter(|x: Card| !played.push(c).contains(x)).len() + (if s.contains(c)
            && !played.contains(c) {
            1int
        } else {
            0int
        }) == s.filter(|x: Card| !played.contains(x)).len(),
    decreases s.len(),
{
    let before = |x: Card| !played.contains(x);
    let after = |x: Card| !played.push(c).contains(x);
    if s.len() > 0 {
        let t = s.drop_last();
        let last = s.last();
        assert(t.no_duplicates());
        lemma_filter_one_more_played(t, played, c);
        assert(s =~= t.push(last));
        t.lemma_filter_push(last, before);
        t.lemma_filter_push(last, after);
        assert(played.push(c).contains(last) <==> (played.contains(last) || last == c)) by {
            if played.push(c).contains(last) && last != c {
                let k = choose|k: int| 0 <= k < played.push(c).len() && played.push(c)[k] == last;
                assert(played[k] == last);
            }
            if played.contains(last) {
                let k = choose|k: int| 0 <= k < played.len() && played[k] == last;
                assert(played.push(c)[k] == last);
            }
            if last == c {
                assert(played.push(c)[played.len() as int] == last);
            }
        }
        assert(s.contains(c) <==> (t.contains(c) || last == c)) by {
            if s.contains(c) && last != c {
                let k = choose|k: int| 0 <= k < s.len() && s[k] == c;
                assert(t[k] == c);
            }
            if t.contains(c) {
                let k = choose|k: int| 0 <= k < t.len() && t[k] == c;
                assert(s[k] == c);
            }
        }
        if last == c {
            assert(!t.contains(c)) by {
                if t.contains(c) {
                    let k = choose|k: int| 0 <= k < t.len() && t[k] == c;
                    assert(s[k] == s[s.len() - 1]);
                }
            }
        }
    }
}

/// Each deal uses up one card of the deck: one card fewer is free.
pub proof fn lemma_deal_uses_one_card(played: Seq<Card>, c: Card)
    requires
        can_deal(played, c),
    ensures
        free_cards(played.push(c)).len() + 1 == free_cards(played).len(),
{
    lemma_deck_distinct();
    lemma_filter_one_more_played(deck(), played, c);
    let i = c.suite.index() * 10 + c.value - 1;
    assert(deck()[i] == c);
    assert(free_cards(played.push(c)) == deck().filter(|x: Card| !played.push(c).contains(x)));
}

/// Adding a card to a hand adds its value to the total.
pub proof fn lemma_total_push(hand: Seq<Card>, c: Card)
    ensures
        hand_total(hand.push(c)) == hand_total(hand) + c.value,
{
    assert(hand.push(c).drop_last() =~= hand);
}

/// A hand without cards totals 0.
pub proof fn lemma_total_empty()
    ensures
        hand_total(Seq::<Card>::empty()) == 0,
{
}

/// The total of two hands put together is the sum of their totals, so the
/// total does not depend on the order in which the cards came.
pub proof fn lemma_total_concat(a: Seq<Card>, b: Seq<Card>)
    ensures
        hand_total(a + b) == hand_total(a) + hand_total(b),
        hand_total(a + b) == hand_total(b + a),
{
    lemma_total_concat_left(a, b);
    lemma_total_concat_left(b, a);
}

/// The first part of `lemma_total_concat`, by induction on `b`.
proof fn lemma_total_concat_left(a: Seq<Card>, b: Seq<Card>)
    ensures
        hand_total(a + b) == hand_total(a) + hand_total(b),
    decreases b.len(),
{
    if b.len() == 0 {
        assert(a + b =~= a);
    } else {
        lemma_total_concat_left(a, b.drop_last());
        assert((a + b).drop_last() =~= a + b.drop_last());
    }
}

/// A hand holding an ace anywhere has, as second value, its total plus 10
/// (the ace counted as 11) when that is at most 21.
pub proof fn lemma_hand_value_with_ace(hand: Seq<Card>, i: int)
    requires
        0 <= i < hand.len(),
        hand[i].value == 1,
        hand_total(hand) + 10 <= 21,
    ensures
        hand_value(hand) == (hand_total(hand), hand_total(hand) + 10),
{
}

/// A hand without an ace, or one that 11 for an ace would take past 21, has
/// its plain total as both values.
pub proof fn lemma_hand_value_plain(hand: Seq<Card>)
    requires
        (forall|i: int| 0 <= i < hand.len() ==> hand[i].value != 1) || hand_total(hand) + 10
            > 21,
    ensures
        hand_value(hand) == (hand_total(hand), hand_total(hand)),
{
}

impl Card {
    /// A card drawn at random: any suite, and a value from 1 to 10.
    pub fn rand() -> (c: Card)
        ensures
            is_standard(c),
    {
        let suite = Suite::rand();
        let value = custom_card_val();
        Card { suite, value }
    }
}

/// Whether `cards` holds `card`.
fn holds(cards: &Vec<Card>, card: &Card) -> (r: bool)
    ensures
        r == cards@.contains(*card),
{
    let mut i: usize = 0;
    while i < cards.len()
        invariant
            i <= cards.len(),
            forall|j: int| 0 <= j < i ==> cards@[j] != *card,
        decreases cards.len() - i,
    {
        if cards[i] == *card {
            assert(cards@[i as int] == *card);
            return true;
        }
        i = i + 1;
    }
    false
}

pub struct BlackJackGame {
    pub played_cards: Vec<Card>,
    pub hands: Vec<Vec<Card>>,
}

/// The cards of each hand.
pub open spec fn hand_seqs(hands: Seq<Vec<Card>>) -> Seq<Seq<Card>> {
    hands.map_values(|h: Vec<Card>| h@)
}

/// All the cards in the hands, hand after hand, as a multiset.
pub open spec fn cards_in_hands(hands: Seq<Seq<Card>>) -> Multiset<Card>
    decreases hands.len(),
{
    if hands.len() == 0 {
        Multiset::empty()
    } else {
        cards_in_hands(hands.drop_last()).add(hands.last().to_multiset())
    }
}

/// Every card of `cards` is a card of the deck.
pub open spec fn all_standard(cards: Seq<Card>) -> bool {
    forall|i: int| 0 <= i < cards.len() ==> is_standard(#[trigger] cards[i])
}

/// The played pile holds cards of the deck, each at most once, and exactly
/// the cards that sit in the hands.
pub open spec fn dealt_consistently(played: Seq<Card>, hands: Seq<Seq<Card>>) -> bool {
    &&& played.no_duplicates()
    &&& all_standard(played)
    &&& played.to_multiset() == cards_in_hands(hands)
}

/// A step of a game: a new hand is opened, or `card` is dealt to the hand
/// `hand`.
pub enum Move {
    OpenHand,
    Deal { hand: usize, card: Card },
}

/// The pile and the hands after the move `m`.
pub open spec fn after_move(played: Seq<Card>, hands: Seq<Seq<Card>>, m: Move) -> (
    Seq<Card>,
    Seq<Seq<Card>>,
) {
    match m {
        Move::OpenHand => (played, hands.push(Seq::empty())),
        Move::Deal { hand, card } => (
            played.push(card),
            hands.update(hand as int, hands[hand as int].push(card)),
        ),
    }
}

/// The move `m` may be made: a card is dealt only to an existing hand, and
/// only when it is a card of the deck that has not been played.
pub open spec fn move_allowed(played: Seq<Card>, hands: Seq<Seq<Card>>, m: Move) -> bool {
    match m {
        Move::OpenHand => true,
        Move::Deal { hand, card } => hand < hands.len() && can_deal(played, card),
    }
}

/// The pile and the hands of a new game after the moves `moves`.
pub open spec fn replay(moves: Seq<Move>) -> (Seq<Card>, Seq<Seq<Card>>)
    decreases moves.len(),
{
    if moves.len() == 0 {
        (Seq::empty(), Seq::empty())
    } else {
        let before = replay(moves.drop_last());
        after_move(before.0, before.1, moves.last())
    }
}

/// Each of the moves `moves`, made in turn on a new game, is allowed.
pub open spec fn playable(moves: Seq<Move>) -> bool
    decreases moves.len(),
{
    if moves.len() == 0 {
        true
    } else {
        let before = replay(moves.drop_last());
        playable(moves.drop_last()) && move_allowed(before.0, before.1, moves.last())
    }
}

/// Every game reached from a new one by allowed moves is consistent: no
/// card has been played twice, every played card is a card of the deck,
/// and the pile holds exactly the cards that sit in the hands.
pub proof fn lemma_played_games_are_consistent(moves: Seq<Move>)
    requires
        playable(moves),
    ensures
        dealt_consistently(replay(moves).0, replay(moves).1),
    decreases moves.len(),
{
    if moves.len() == 0 {
        let empty = Seq::<Card>::empty();
        empty.to_multiset_ensures();
        assert(empty.to_multiset() =~= Multiset::empty());
    } else {
        lemma_played_games_are_consistent(moves.drop_last());
        let before = replay(moves.drop_last());
        match moves.last() {
            Move::OpenHand => {
                lemma_cards_in_hands_push_empty(before.1);
            },
            Move::Deal { hand, card } => {
                lemma_deal_keeps_consistent(before.0, before.1, hand as int, card);
            },
        }
    }
}

/// Opening an empty hand adds no card to the hands.
proof fn lemma_cards_in_hands_push_empty(hands: Seq<Seq<Card>>)
    ensures
        cards_in_hands(hands.push(Seq::empty())) == cards_in_hands(hands),
{
    let empty = Seq::<Card>::empty();
    assert(hands.push(empty).drop_last() =~= hands);
    empty.to_multiset_ensures();
    assert(empty.to_multiset() =~= Multiset::empty());
    assert(cards_in_hands(hands).add(Multiset::empty()) =~= cards_in_hands(hands));
}

/// Adding card `c` to hand `i` adds `c` once to the cards in the hands.
proof fn lemma_cards_in_hands_deal(before: Seq<Seq<Card>>, i: int, c: Card)
    requires
        0 <= i < before.len(),
    ensures
        cards_in_hands(before.update(i, before[i].push(c))) == cards_in_hands(before).insert(c),
    decreases before.len(),
{
    let after = before.update(i, before[i].push(c));
    before[i].to_multiset_ensures();
    if i == before.len() - 1 {
        assert(after.drop_last() =~= before.drop_last());
        assert(cards_in_hands(after) =~= cards_in_hands(before).insert(c));
    } else {
        let rest = before.drop_last();
        lemma_cards_in_hands_deal(rest, i, c);
        assert(after.drop_last() =~= rest.update(i, rest[i].push(c)));
        assert(after.last() == before.last());
        assert(cards_in_hands(after) =~= cards_in_hands(before).insert(c));
    }
}

/// Dealing a free card keeps the pile and the hands consistent.
proof fn lemma_deal_keeps_consistent(played: Seq<Card>, before: Seq<Seq<Card>>, i: int, c: Card)
    requires
        dealt_consistently(played, before),
        can_deal(played, c),
        0 <= i < before.len(),
    ensures
        dealt_consistently(played.push(c), before.update(i, before[i].push(c))),
{
    lemma_deal_keeps_pile_distinct(played, c);
    lemma_cards_in_hands_deal(before, i, c);
    played.to_multiset_ensures();
    assert(all_standard(played.push(c))) by {
        assert forall|k: int| 0 <= k < played.push(c).len() implies is_standard(
            #[trigger] played.push(c)[k],
        ) by {
            if k < played.len() {
                assert(played.push(c)[k] == played[k]);
            }
        }
    }
}

/// A hand holds no more of any card, and no more cards, than all the hands
/// together.
proof fn lemma_hand_within_hands(hands: Seq<Seq<Card>>, i: int)
    requires
        0 <= i < hands.len(),
    ensures
        forall|x: Card| #[trigger] hands[i].to_multiset().count(x) <= cards_in_hands(hands).count(x),
        hands[i].len() <= cards_in_hands(hands).len(),
    decreases hands.len(),
{
    broadcast use vstd::multiset::group_multiset_axioms;

    let rest = hands.drop_last();
    hands.last().to_multiset_ensures();
    hands[i].to_multiset_ensures();
    if i == hands.len() - 1 {
        assert forall|x: Card| #[trigger] hands[i].to_multiset().count(x) <= cards_in_hands(
            hands,
        ).count(x) by {
            assert(cards_in_hands(hands).count(x) == cards_in_hands(rest).count(x)
                + hands.last().to_multiset().count(x));
        }
    } else {
        lemma_hand_within_hands(rest, i);
        assert(rest[i] == hands[i]);
        assert forall|x: Card| #[trigger] hands[i].to_multiset().count(x) <= cards_in_hands(
            hands,
        ).count(x) by {
            assert(cards_in_hands(hands).count(x) == cards_in_hands(rest).count(x)
                + hands.last().to_multiset().count(x));
            assert(rest[i].to_multiset().count(x) <= cards_in_hands(rest).count(x));
        }
    }
}

/// A hand of deck cards totals at most 10 per card.
proof fn lemma_standard_total(hand: Seq<Card>)
    requires
        all_standard(hand),
    ensures
        hand_total(hand) <= 10 * hand.len(),
    decreases hand.len(),
{
    if hand.len() > 0 {
        assert(all_standard(hand.drop_last())) by {
            assert forall|k: int| 0 <= k < hand.drop_last().len() implies is_standard(
                #[trigger] hand.drop_last()[k],
            ) by {
                assert(hand.drop_last()[k] == hand[k]);
            }
        }
        lemma_standard_total(hand.drop_last());
        assert(is_standard(hand[hand.len() - 1]));
    }
}

/// In a consistent game with fewer than 40 cards played, a card is left to
/// deal and no hand's total comes near the limit of `u32`: `hit_hand` may be
/// called on any hand. With all 40 cards played none is left to deal.
pub proof fn lemma_consistent_game_can_hit(played: Seq<Card>, hands: Seq<Seq<Card>>, i: int)
    requires
        dealt_consistently(played, hands),
        0 <= i < hands.len(),
        played.len() < 40,
    ensures
        exists|c: Card| can_deal(played, c),
        hand_total(hands[i]) + 20 <= u32::MAX,
{
    broadcast use vstd::multiset::group_multiset_axioms;

    if forall|c: Card| !can_deal(played, c) {
        lemma_deck_distinct();
        deck().unique_seq_to_set();
        assert(deck().to_set().subset_of(played.to_set())) by {
            assert forall|c: Card| deck().to_set().contains(c) implies played.to_set().contains(
                c,
            ) by {
                let k = choose|k: int| 0 <= k < deck().len() && deck()[k] == c;
                assert(is_standard(deck()[k]));
                assert(!can_deal(played, c));
            }
        }
        vstd::seq_lib::seq_to_set_is_finite(played);
        vstd::set_lib::lemma_len_subset(deck().to_set(), played.to_set());
        played.lemma_cardinality_of_set();
        assert(false);
    }
    let hand = hands[i];
    lemma_hand_within_hands(hands, i);
    played.to_multiset_ensures();
    hand.to_multiset_ensures();
    assert(all_standard(hand)) by {
        assert forall|k: int| 0 <= k < hand.len() implies is_standard(#[trigger] hand[k]) by {
            let x = hand[k];
            assert(hand.contains(x));
            assert(hand.to_multiset().count(x) > 0);
            assert(cards_in_hands(hands).count(x) > 0);
            assert(played.contains(x));
            let t = choose|t: int| 0 <= t < played.len() && played[t] == x;
            assert(is_standard(played[t]));
        }
    }
    lemma_standard_total(hand);
}

impl Default for BlackJackGame {
    fn default() -> (g: Self)
        ensures
            g.played_cards@.len() == 0,
            g.hands@.len() == 0,
            (g.played_cards@, hand_seqs(g.hands@)) == replay(Seq::empty()),
            g.is_consistent(),
    {
        let g = BlackJackGame { played_cards: Vec::new(), hands: Vec::new() };
        proof {
            g.played_cards@.to_multiset_ensures();
            assert(g.played_cards@.to_multiset() =~= Multiset::empty());
            assert(all_standard(g.played_cards@));
            assert(hand_seqs(g.hands@) =~= Seq::empty());
        }
        g
    }
}

impl BlackJackGame {
    /// The played pile holds each card at most once, and exactly the cards
    /// that sit in the hands. A new game is so, and adding hands and dealing
    /// keep it so.
    pub open spec fn is_consistent(&self) -> bool {
        dealt_consistently(self.played_cards@, hand_seqs(self.hands@))
    }

    /// Opens a new, empty hand after the existing ones.
    pub fn add_hand(&mut self)
        ensures
            final(self).played_cards == old(self).played_cards,
            final(self).hands@.len() == old(self).hands@.len() + 1,
            forall|j: int|
                0 <= j < old(self).hands@.len() ==> final(self).hands@[j] == old(self).hands@[j],
            final(self).hands@.last()@.len() == 0,
            (final(self).played_cards@, hand_seqs(final(self).hands@)) == after_move(
                old(self).played_cards@,
                hand_seqs(old(self).hands@),
                Move::OpenHand,
            ),
            old(self).is_consistent() ==> final(self).is_consistent(),
    {
        let empty: Vec<Card> = Vec::new();
        let ghost before = hand_seqs(self.hands@);
        self.hands.push(empty);
        proof {
            assert(hand_seqs(self.hands@) =~= before.push(Seq::empty()));
            lemma_cards_in_hands_push_empty(before);
        }
    }

    /// The cards of the deck that have not been played, in deck order.
    pub fn unplayed_cards(&self) -> (free: Vec<Card>)
        ensures
            free@ == free_cards(self.played_cards@),
    {
        let ghost unplayed = |c: Card| !self.played_cards@.contains(c);
        let mut free: Vec<Card> = Vec::new();
        let mut i: u32 = 0;
        while i < 40
            invariant
                i <= 40,
                unplayed == (|c: Card| !self.played_cards@.contains(c)),
                free@ == deck().take(i as int).filter(unplayed),
            decreases 40 - i,
        {
            let card = Card { suite: Suite::from_index(i / 10), value: i % 10 + 1 };
            assert(card == deck()[i as int]);
            assert(deck().take(i + 1) =~= deck().take(i as int).push(card));
            proof {
                deck().take(i as int).lemma_filter_push(card, unplayed);
            }
            if !holds(&self.played_cards, &card) {
                free.push(card);
            }
            i = i + 1;
        }
        assert(deck().take(40) =~= deck());
        free
    }

    /// Deals `card`, which has not been played yet, to the hand
    /// `hand_index`, and tells whether that hand is now bust (its total is
    /// over 21).
    pub fn deal(&mut self, hand_index: usize, card: Card) -> (busted: bool)
        requires
            hand_index < old(self).hands@.len(),
            can_deal(old(self).played_cards@, card),
            hand_total(old(self).hands@[hand_index as int]@) + card.value <= u32::MAX,
            has_ace(old(self).hands@[hand_index as int]@.push(card)) ==> hand_total(
                old(self).hands@[hand_index as int]@,
            ) + card.value + 10 <= u32::MAX,
        ensures
            final(self).played_cards@ == old(self).played_cards@.push(card),
            final(self).hands@.len() == old(self).hands@.len(),
            forall|j: int|
                0 <= j < old(self).hands@.len() && j != hand_index ==> final(self).hands@[j]
                    == old(self).hands@[j],
            final(self).hands@[hand_index as int]@ == old(self).hands@[hand_index as int]@.push(
                card,
            ),
            busted == (hand_total(final(self).hands@[hand_index as int]@) > 21),
            move_allowed(
                old(self).played_cards@,
                hand_seqs(old(self).hands@),
                (Move::Deal { hand: hand_index, card }),
            ),
            (final(self).played_cards@, hand_seqs(final(self).hands@)) == after_move(
                old(self).played_cards@,
                hand_seqs(old(self).hands@),
                (Move::Deal { hand: hand_index, card }),
            ),
            old(self).is_consistent() ==> final(self).is_consistent(),
    {
        let ghost old_hand = self.hands@[hand_index as int]@;
        let ghost old_game = (self.played_cards@, hand_seqs(self.hands@));
        self.played_cards.push(card);
        self.hands[hand_index].push(card);
        proof {
            lemma_total_push(old_hand, card);
            assert(hand_seqs(self.hands@) =~= old_game.1.update(
                hand_index as int,
                old_game.1[hand_index as int].push(card),
            ));
            if dealt_consistently(old_game.0, old_game.1) {
                lemma_deal_keeps_consistent(old_game.0, old_game.1, hand_index as int, card);
            }
        }
        let (total, _) = self.hand_val(hand_index);
        total > 21
    }

    /// The card to deal after a first draw `first`: `first` itself when it
    /// has not been played, else the free card at position `pick` in deck
    /// order.
    pub fn choose_card(&self, first: Card, pick: usize) -> (card: Card)
        requires
            self.played_cards@.contains(first) ==> pick < free_cards(self.played_cards@).len(),
        ensures
            card == if self.played_cards@.contains(first) {
                free_cards(self.played_cards@)[pick as int]
            } else {
                first
            },
    {
        if !holds(&self.played_cards, &first) {
            first
        } else {
            let free = self.unplayed_cards();
            free[pick]
        }
    }

    /// Deals a card to the hand `hand_index` and tells whether that hand is
    /// now bust (its total is over 21).
    ///
    /// A bust is reported by the result and does not stop the program, nor
    /// undo the deal: the card stays in the pile and in the hand. What
    /// happens after a bust is left to the caller.
    ///
    /// The card is drawn at random among those that have not been played: a
    /// first draw over the whole deck is kept when that card is free, and
    /// otherwise one of the free cards is picked, each as likely, which is how
    /// drawing again until a free card comes up would end.
    pub fn hit_hand(&mut self, hand_index: usize) -> (busted: bool)
        requires
            hand_index < old(self).hands@.len(),
            exists|c: Card| can_deal(old(self).played_cards@, c),
            hand_total(old(self).hands@[hand_index as int]@) + 20 <= u32::MAX,
        ensures
            can_deal(old(self).played_cards@, final(self).played_cards@.last()),
            final(self).played_cards@ == old(self).played_cards@.push(
                final(self).played_cards@.last(),
            ),
            final(self).hands@.len() == old(self).hands@.len(),
            forall|j: int|
                0 <= j < old(self).hands@.len() && j != hand_index ==> final(self).hands@[j]
                    == old(self).hands@[j],
            final(self).hands@[hand_index as int]@ == old(self).hands@[hand_index as int]@.push(
                final(self).played_cards@.last(),
            ),
            busted == (hand_total(final(self).hands@[hand_index as int]@) > 21),
            move_allowed(
                old(self).played_cards@,
                hand_seqs(old(self).hands@),
                (Move::Deal { hand: hand_index, card: final(self).played_cards@.last() }),
            ),
            (final(self).played_cards@, hand_seqs(final(self).hands@)) == after_move(
                old(self).played_cards@,
                hand_seqs(old(self).hands@),
                (Move::Deal { hand: hand_index, card: final(self).played_cards@.last() }),
            ),
            old(self).is_consistent() ==> final(self).is_consistent(),
    {
        let first = Card::rand();
        proof {
            let c = choose|c: Card| can_deal(self.played_cards@, c);
            lemma_free_cards_contains(self.played_cards@, c);
        }
        let pick = if holds(&self.played_cards, &first) {
            let count = self.unplayed_cards().len();
            random_below(count as u32) as usize
        } else {
            0
        };
        let card = self.choose_card(first, pick);
        proof {
            if self.played_cards@.contains(first) {
                lemma_free_cards_contains(self.played_cards@, card);
            }
        }
        self.deal(hand_index, card)
    }

    /// The plain total of the hand `hand_index`, and its total with one ace
    /// counted as 11 where that stays at most 21.
    pub fn hand_val(&self, hand_index: usize) -> (r: (u32, u32))
        requires
            hand_index < self.hands@.len(),
            hand_total(self.hands@[hand_index as int]@) <= u32::MAX,
            has_ace(self.hands@[hand_index as int]@) ==> hand_total(
                self.hands@[hand_index as int]@,
            ) + 10 <= u32::MAX,
        ensures
            r.0 == hand_value(self.hands@[hand_index as int]@).0,
            r.1 == hand_value(self.hands@[hand_index as int]@).1,
    {
        let hand = &self.hands[hand_index];
        let ghost h = hand@;
        let mut counter: u32 = 0;
        let mut ace_played = false;
        let mut i: usize = 0;
        while i < hand.len()
            invariant
                h == hand@,
                i <= h.len(),
                hand_total(h) <= u32::MAX,
                counter == hand_total(h.take(i as int)),
                ace_played == has_ace(h.take(i as int)),
            decreases h.len() - i,
        {
            let card = hand[i];
            proof {
                assert(h.take(i + 1).drop_last() =~= h.take(i as int));
                lemma_prefix_total(h, i + 1);
                if has_ace(h.take(i + 1)) && !has_ace(h.take(i as int)) {
                    let k = choose|k: int| 0 <= k < i + 1 && #[trigger] h.take(i + 1)[k].value == 1;
                    if k < i {
                        assert(h.take(i as int)[k].value == 1);
                    }
                }
                if has_ace(h.take(i as int)) {
                    let k = choose|k: int| 0 <= k < i && #[trigger] h.take(i as int)[k].value == 1;
                    assert(h.take(i + 1)[k].value == 1);
                }
                if card.value == 1 {
                    assert(h.take(i + 1)[i as int].value == 1);
                }
            }
            counter = counter + card.value;
            if card.value == 1 {
                ace_played = true;
            }
            i = i + 1;
        }
        proof {
            assert(h.take(h.len() as int) =~= h);
        }
        if ace_played && (counter + 10) <= 21 {
            (counter, counter + 10)
        } else {
            (counter, counter)
        }
    }
}

} // verus!
