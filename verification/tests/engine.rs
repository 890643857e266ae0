use uno_engine::card::{Card, Color, Deck};
use uno_engine::game::{Direction, GameState};

fn red5() -> Card {
    Card::Number { color: Color::Red, rank: 5 }
}

fn state(
    deck: Vec<Card>,
    discard: Vec<Card>,
    hands: Vec<Vec<Card>>,
    current_player: usize,
    direction: Direction,
    to_draw: u8,
) -> GameState {
    GameState { deck: Deck { cards: deck }, discard, hands, current_player, direction, to_draw }
}

#[test]
fn new_game_starts_clean() {
    let g = GameState::new(3);
    assert_eq!(g.deck.cards.len(), 108);
    assert_eq!(g.discard.len(), 0);
    assert_eq!(g.hands.len(), 3);
    assert!(g.hands.iter().all(|h| h.is_empty()));
    assert_eq!(g.current_player, 0);
    assert_eq!(g.direction, Direction::Clockwise);
    assert_eq!(g.to_draw, 0);
}

#[test]
fn next_player_rotates_clockwise_with_wraparound() {
    let mut g = state(vec![], vec![], vec![vec![], vec![], vec![]], 0, Direction::Clockwise, 0);
    assert_eq!(g.next_player(), 1);
    g.current_player = 2;
    assert_eq!(g.next_player(), 0);
}

#[test]
fn next_player_rotates_counter_clockwise_with_wraparound() {
    let mut g = state(
        vec![],
        vec![],
        vec![vec![], vec![], vec![]],
        2,
        Direction::CounterClockwise,
        0,
    );
    assert_eq!(g.next_player(), 1);
    g.current_player = 0;
    assert_eq!(g.next_player(), 2);
}

#[test]
fn playable_hand_uses_the_compatibility_rule() {
    let hand = vec![
        Card::Number { color: Color::Red, rank: 3 },
        Card::Number { color: Color::Blue, rank: 5 },
        Card::Number { color: Color::Blue, rank: 7 },
        Card::Skip { color: Color::Red },
        Card::Wild,
    ];
    let playable = GameState::get_playable_hand(&hand, &red5(), 0);
    assert_eq!(
        playable,
        vec![
            Card::Number { color: Color::Red, rank: 3 },
            Card::Number { color: Color::Blue, rank: 5 },
            Card::Skip { color: Color::Red },
            Card::Wild,
        ]
    );
}

#[test]
fn playable_hand_under_penalty_keeps_only_the_identical_stack_card() {
    let red_d2 = Card::DrawTwo { color: Color::Red };
    let blue_d2 = Card::DrawTwo { color: Color::Blue };
    let hand = vec![red5(), blue_d2, red_d2, Card::DrawFour];
    let playable = GameState::get_playable_hand(&hand, &red_d2, 2);
    assert_eq!(playable, vec![red_d2]);
    let none = GameState::get_playable_hand(&vec![red5(), blue_d2], &Card::DrawFour, 4);
    assert_eq!(none, Vec::<Card>::new());
}

#[test]
fn contains_special_card_checks_equality_with_the_top() {
    let red_d2 = Card::DrawTwo { color: Color::Red };
    let blue_d2 = Card::DrawTwo { color: Color::Blue };
    assert!(GameState::contains_special_card(&vec![red5(), red_d2], &red_d2));
    assert!(!GameState::contains_special_card(&vec![red5(), blue_d2], &red_d2));
}

#[test]
fn recycler_leaves_a_sufficient_pile_alone() {
    let mut deck = Deck { cards: vec![red5(), Card::Wild, Card::Wild] };
    let mut discard = vec![Card::DrawFour];
    GameState::ensure_drawable_deck(&mut deck, &mut discard, 3, 7);
    assert_eq!(deck.cards, vec![red5(), Card::Wild, Card::Wild]);
    assert_eq!(discard, vec![Card::DrawFour]);
}

#[test]
fn recycler_moves_the_whole_discard_pile_into_the_deck() {
    let a = Card::Number { color: Color::Green, rank: 1 };
    let b = Card::Number { color: Color::Green, rank: 2 };
    let c = Card::Number { color: Color::Green, rank: 3 };
    let mut deck = Deck { cards: vec![red5()] };
    let mut discard = vec![a, b, c];
    GameState::ensure_drawable_deck(&mut deck, &mut discard, 3, 99);
    assert_eq!(discard.len(), 0);
    assert_eq!(deck.cards.len(), 4);
    for card in [red5(), a, b, c] {
        assert!(deck.cards.contains(&card));
    }
}

#[test]
fn recycler_synthesizes_a_supplementary_deck_in_the_degenerate_case() {
    let mut deck = Deck { cards: vec![red5()] };
    let mut discard = vec![Card::Number { color: Color::Blue, rank: 9 }];
    GameState::ensure_drawable_deck(&mut deck, &mut discard, 3, 5);
    assert_eq!(discard.len(), 0);
    assert_eq!(deck.cards.len(), 109);
}
