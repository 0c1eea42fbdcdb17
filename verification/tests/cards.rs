use game::cards::{custom_card_val, BlackJackGame, Card, Suite};

fn card(suite: Suite, value: u32) -> Card {
    Card { suite, value }
}

fn game_with_hand(cards: Vec<Card>) -> BlackJackGame {
    let mut g = BlackJackGame::default();
    g.add_hand();
    g.hands[0] = cards;
    g
}

#[test]
fn default_game_is_empty() {
    let g = BlackJackGame::default();
    assert!(g.played_cards.is_empty());
    assert!(g.hands.is_empty());
}

#[test]
fn add_hand_opens_an_empty_hand() {
    let mut g = BlackJackGame::default();
    g.add_hand();
    g.add_hand();
    assert_eq!(g.hands.len(), 2);
    assert!(g.hands[1].is_empty());
}

#[test]
fn hand_val_without_ace() {
    let g = game_with_hand(vec![card(Suite::Hearts, 10), card(Suite::Clubs, 7)]);
    assert_eq!(g.hand_val(0), (17, 17));
}

#[test]
fn hand_val_counts_one_ace_as_eleven() {
    let g = game_with_hand(vec![card(Suite::Hearts, 5), card(Suite::Clubs, 1)]);
    assert_eq!(g.hand_val(0), (6, 16));
}

#[test]
fn hand_val_two_aces() {
    let g = game_with_hand(vec![card(Suite::Hearts, 1), card(Suite::Clubs, 1)]);
    assert_eq!(g.hand_val(0), (2, 12));
}

#[test]
fn hand_val_ace_not_counted_high_past_21() {
    let g = game_with_hand(vec![card(Suite::Hearts, 10), card(Suite::Clubs, 1), card(Suite::Cloves, 5)]);
    assert_eq!(g.hand_val(0), (16, 16));
    let g = game_with_hand(vec![card(Suite::Hearts, 10), card(Suite::Clubs, 1)]);
    assert_eq!(g.hand_val(0), (11, 21));
}

#[test]
fn hand_val_empty_hand() {
    let g = game_with_hand(vec![]);
    assert_eq!(g.hand_val(0), (0, 0));
}

#[test]
fn custom_card_val_stays_in_one_to_ten() {
    let mut seen = [false; 11];
    for _ in 0..2000 {
        let v = custom_card_val();
        assert!((1..=10).contains(&v));
        seen[v as usize] = true;
    }
    assert!(seen[1..].iter().all(|&s| s));
}

#[test]
fn suite_from_index_follows_declaration_order() {
    assert_eq!(Suite::from_index(0), Suite::Hearts);
    assert_eq!(Suite::from_index(1), Suite::Diamonds);
    assert_eq!(Suite::from_index(2), Suite::Clubs);
    assert_eq!(Suite::from_index(3), Suite::Cloves);
}

#[test]
fn random_cards_are_from_the_deck() {
    for _ in 0..500 {
        let c = Card::rand();
        assert!((1..=10).contains(&c.value));
    }
}

#[test]
fn unplayed_cards_lists_the_deck_in_order() {
    let g = BlackJackGame::default();
    let free = g.unplayed_cards();
    assert_eq!(free.len(), 40);
    assert_eq!(free[0], card(Suite::Hearts, 1));
    assert_eq!(free[9], card(Suite::Hearts, 10));
    assert_eq!(free[10], card(Suite::Diamonds, 1));
    assert_eq!(free[39], card(Suite::Cloves, 10));
}

#[test]
fn unplayed_cards_leaves_out_played_ones() {
    let mut g = BlackJackGame::default();
    g.played_cards = vec![card(Suite::Hearts, 1), card(Suite::Clubs, 4), card(Suite::Clubs, 42)];
    let free = g.unplayed_cards();
    assert_eq!(free.len(), 38);
    assert_eq!(free[0], card(Suite::Hearts, 2));
    assert!(!free.contains(&card(Suite::Clubs, 4)));
}

#[test]
fn choose_card_keeps_a_free_first_draw() {
    let mut g = BlackJackGame::default();
    g.played_cards = vec![card(Suite::Hearts, 1)];
    assert_eq!(g.choose_card(card(Suite::Clubs, 3), 7), card(Suite::Clubs, 3));
}

#[test]
fn choose_card_picks_among_free_cards_on_a_collision() {
    let mut g = BlackJackGame::default();
    g.played_cards = vec![card(Suite::Hearts, 1), card(Suite::Hearts, 2)];
    assert_eq!(g.choose_card(card(Suite::Hearts, 2), 0), card(Suite::Hearts, 3));
    assert_eq!(g.choose_card(card(Suite::Hearts, 1), 8), card(Suite::Diamonds, 1));
}

#[test]
fn deal_adds_the_card_to_pile_and_hand() {
    let mut g = game_with_hand(vec![card(Suite::Hearts, 10)]);
    g.add_hand();
    let busted = g.deal(0, card(Suite::Clubs, 9));
    assert!(!busted);
    assert_eq!(g.played_cards, vec![card(Suite::Clubs, 9)]);
    assert_eq!(g.hands[0], vec![card(Suite::Hearts, 10), card(Suite::Clubs, 9)]);
    assert!(g.hands[1].is_empty());
}

#[test]
fn deal_reports_bust_over_21() {
    let mut g = game_with_hand(vec![card(Suite::Hearts, 10), card(Suite::Clubs, 10)]);
    assert!(!g.deal(0, card(Suite::Hearts, 1)));
    assert!(g.deal(0, card(Suite::Cloves, 1)));
}

#[test]
fn hit_hand_deals_every_card_once() {
    let mut g = BlackJackGame::default();
    for _ in 0..4 {
        g.add_hand();
    }
    for k in 0..40 {
        let h = k % 4;
        let before = g.hands[h].len();
        let busted = g.hit_hand(h);
        let dealt = *g.played_cards.last().unwrap();
        assert_eq!(g.hands[h].len(), before + 1);
        assert_eq!(*g.hands[h].last().unwrap(), dealt);
        assert!((1..=10).contains(&dealt.value));
        assert_eq!(busted, g.hand_val(h).0 > 21);
    }
    assert_eq!(g.played_cards.len(), 40);
    for i in 0..40 {
        for j in 0..i {
            assert_ne!(g.played_cards[i], g.played_cards[j]);
        }
    }
    assert!(g.unplayed_cards().is_empty());
}

#[test]
fn played_pile_holds_exactly_the_cards_in_the_hands() {
    let mut g = BlackJackGame::default();
    g.add_hand();
    g.add_hand();
    g.add_hand();
    for k in 0..12 {
        g.hit_hand(k % 3);
    }
    let mut in_hands: Vec<(u32, u32)> = Vec::new();
    for hand in &g.hands {
        for c in hand {
            in_hands.push((c.value, c.suite as u32));
        }
    }
    let mut pile: Vec<(u32, u32)> = g.played_cards.iter().map(|c| (c.value, c.suite as u32)).collect();
    in_hands.sort();
    pile.sort();
    assert_eq!(pile, in_hands);
    let mut dedup = pile.clone();
    dedup.dedup();
    assert_eq!(dedup.len(), pile.len());
}
