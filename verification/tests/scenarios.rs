use uno_engine::card::{Card, Color, Deck};
use uno_engine::game::{Direction, GameState, SetupError, TurnPhase, TurnResult};

fn red5() -> Card {
    Card::Number { color: Color::Red, rank: 5 }
}

fn total(g: &GameState) -> usize {
    g.deck.cards.len() + g.discard.len() + g.hands.iter().map(|h| h.len()).sum::<usize>()
}

fn state(
    deck: Vec<Card>,
    discard: Vec<Card>,
    hands: Vec<Vec<Card>>,
    current_player: usize,
    direction: Direction,
    to_draw: u8,
) -> GameState {
    GameState { deck: Deck { cards: deck }, discard, hands, current_player, direction, to_draw }
}

#[test]
fn setup_deals_seven_cards_each_and_seeds_a_playable_opener() {
    let mut g = GameState::new(4);
    assert_eq!(g.setup(0x1234_5678), Ok(()));
    for h in g.hands.iter() {
        assert_eq!(h.len(), 7);
    }
    assert_eq!(g.discard.len(), 1);
    let top = g.discard[0];
    assert!(!matches!(top, Card::Wild | Card::DrawFour));
    assert_eq!(total(&g), 108);
    assert_eq!(g.to_draw, 0);
    assert_eq!(g.current_player, 0);
    assert_eq!(g.direction, Direction::Clockwise);
}

#[test]
fn setup_fails_when_the_pile_cannot_supply_seven_cards_per_player() {
    let mut g = GameState::new(16);
    assert_eq!(g.setup(3), Err(SetupError::NotEnoughCards));
    assert_eq!(g.deck.cards.len(), 108);
    assert_eq!(g.discard.len(), 0);
}

#[test]
fn setup_fails_when_no_opener_can_be_seeded() {
    let mut g = state(vec![Card::Wild; 15], vec![], vec![vec![]], 0, Direction::Clockwise, 0);
    assert_eq!(g.setup(42), Err(SetupError::NoOpener));
    assert_eq!(g.discard.len(), 0);
    assert_eq!(total(&g), 15);
}

#[test]
fn a_pending_penalty_without_a_counter_forces_the_exact_draw() {
    // A DrawTwo was just played: the next player holds no matching stack
    // card, so the engine must draw exactly 2 cards into that hand, reset
    // the penalty, and offer no decision.
    let red_d2 = Card::DrawTwo { color: Color::Red };
    let g1 = Card::Number { color: Color::Green, rank: 1 };
    let g2 = Card::Number { color: Color::Green, rank: 2 };
    let mut g = state(
        vec![g1, g2],
        vec![red_d2],
        vec![vec![red5()], vec![Card::Number { color: Color::Blue, rank: 9 }]],
        0,
        Direction::Clockwise,
        2,
    );
    let before = total(&g);
    match g.begin_turn(11) {
        TurnPhase::ForcedDraw { cards } => {
            assert_eq!(cards, vec![g2, g1]);
        },
        TurnPhase::Decision(_) => panic!("expected a forced draw"),
    }
    assert_eq!(g.to_draw, 0);
    assert_eq!(g.current_player, 1);
    assert_eq!(g.hands[1].len(), 3);
    assert_eq!(g.deck.cards.len(), 0);
    assert_eq!(total(&g), before);
}

#[test]
fn a_matching_stack_card_may_counter_and_the_penalty_accumulates() {
    // DrawTwo, then another DrawTwo on the next eligible turn: the pending
    // penalty reaches 4 before any draw is discharged.
    let red_d2 = Card::DrawTwo { color: Color::Red };
    let filler = Card::Number { color: Color::Green, rank: 1 };
    let mut g = state(
        vec![filler; 4],
        vec![red5()],
        vec![vec![red_d2, filler], vec![red_d2, filler]],
        1,
        Direction::Clockwise,
        0,
    );
    match g.begin_turn(1) {
        TurnPhase::Decision(turn) => {
            assert_eq!(turn.to_draw, 0);
            assert!(turn.hand.contains(&red_d2));
        },
        TurnPhase::ForcedDraw { .. } => panic!("no penalty is pending yet"),
    }
    let out = g.resolve_turn(TurnResult::Played(red_d2));
    assert_eq!(g.to_draw, 2);
    assert_eq!(out.winner, None);
    match g.begin_turn(2) {
        TurnPhase::Decision(turn) => {
            assert_eq!(turn.to_draw, 2);
            assert_eq!(turn.hand, vec![red_d2]);
        },
        TurnPhase::ForcedDraw { .. } => panic!("the second player can counter"),
    }
    g.resolve_turn(TurnResult::Played(red_d2));
    assert_eq!(g.to_draw, 4);
}

#[test]
fn two_consecutive_reverses_restore_the_direction() {
    let red_rev = Card::Reverse { color: Color::Red };
    let filler = Card::Number { color: Color::Green, rank: 1 };
    let mut g = state(
        vec![filler; 3],
        vec![red5()],
        vec![vec![red_rev, filler], vec![red_rev, filler], vec![filler; 2]],
        0,
        Direction::Clockwise,
        0,
    );
    let first_next = g.next_player();
    assert_eq!(first_next, 1);
    g.begin_turn(5);
    g.resolve_turn(TurnResult::Played(red_rev));
    assert_eq!(g.direction, Direction::CounterClockwise);
    // Counter-clockwise from player 1 leads back to player 0.
    g.begin_turn(6);
    assert_eq!(g.current_player, 0);
    g.resolve_turn(TurnResult::Played(red_rev));
    assert_eq!(g.direction, Direction::Clockwise);
    assert_eq!(g.next_player(), 1);
}

#[test]
fn drawing_without_a_penalty_takes_one_card() {
    let filler = Card::Number { color: Color::Green, rank: 1 };
    let top_card = Card::Number { color: Color::Blue, rank: 9 };
    let mut g = state(
        vec![filler; 2],
        vec![top_card],
        vec![vec![red5()], vec![red5()]],
        0,
        Direction::Clockwise,
        0,
    );
    let before = total(&g);
    match g.begin_turn(1) {
        TurnPhase::Decision(turn) => assert_eq!(turn.hand.len(), 0),
        TurnPhase::ForcedDraw { .. } => panic!("no penalty is pending"),
    }
    let out = g.resolve_turn(TurnResult::Drew);
    assert_eq!(out.drawn, vec![filler]);
    assert_eq!(out.winner, None);
    assert_eq!(g.hands[1].len(), 2);
    assert_eq!(g.to_draw, 0);
    assert_eq!(total(&g), before);
}

#[test]
fn skip_consumes_the_next_turn_and_the_winner_is_declared() {
    // Two players; player 0 holds [Red-5], player 1 holds [Blue-5,
    // Red-Skip]; the discard top is the Red-5 player 0 just played.
    // Player 1 plays Red-Skip, which flips no direction but consumes
    // player 0's turn; after player 1 declines and draws, player 0's
    // following play of Red-5 empties their hand and wins.
    let blue5 = Card::Number { color: Color::Blue, rank: 5 };
    let red_skip = Card::Skip { color: Color::Red };
    let g3 = Card::Number { color: Color::Green, rank: 3 };
    let mut g = state(
        vec![g3],
        vec![red5()],
        vec![vec![red5()], vec![blue5, red_skip]],
        0,
        Direction::Clockwise,
        0,
    );
    let before = total(&g);

    match g.begin_turn(1) {
        TurnPhase::Decision(turn) => {
            assert_eq!(turn.hand, vec![blue5, red_skip]);
        },
        TurnPhase::ForcedDraw { .. } => panic!("no penalty is pending"),
    }
    let out = g.resolve_turn(TurnResult::Played(red_skip));
    assert_eq!(out.skipped, Some(0));
    assert_eq!(out.winner, None);
    assert_eq!(g.direction, Direction::Clockwise);
    // Two rotation steps in total: the cursor came back around to player 0,
    // whose turn is consumed without a decision and whose hand is untouched.
    assert_eq!(g.current_player, 0);
    assert_eq!(g.hands[0], vec![red5()]);
    assert_eq!(total(&g), before);

    // Player 1 again: Blue-5 does not play on Red-Skip, so they draw.
    match g.begin_turn(2) {
        TurnPhase::Decision(turn) => assert_eq!(turn.hand.len(), 0),
        TurnPhase::ForcedDraw { .. } => panic!("no penalty is pending"),
    }
    let out = g.resolve_turn(TurnResult::Drew);
    assert_eq!(out.drawn, vec![g3]);
    assert_eq!(total(&g), before);

    // Player 0 plays the last Red-5 and wins.
    match g.begin_turn(3) {
        TurnPhase::Decision(turn) => assert_eq!(turn.hand, vec![red5()]),
        TurnPhase::ForcedDraw { .. } => panic!("no penalty is pending"),
    }
    let out = g.resolve_turn(TurnResult::Played(red5()));
    assert_eq!(out.winner, Some(0));
    assert!(g.hands[0].is_empty());
    assert_eq!(total(&g), before);
}

#[test]
fn conservation_holds_across_setup_and_ordinary_turns() {
    let mut g = GameState::new(2);
    assert_eq!(g.setup(0xfeed), Ok(()));
    assert_eq!(total(&g), 108);
    for seed in 0..6u64 {
        let phase = g.begin_turn(seed);
        match phase {
            TurnPhase::ForcedDraw { .. } => {},
            TurnPhase::Decision(turn) => {
                let decision = match turn.hand.first() {
                    Some(c) => TurnResult::Played(*c),
                    None => TurnResult::Drew,
                };
                let out = g.resolve_turn(decision);
                if out.winner.is_some() {
                    break;
                }
            },
        }
        assert_eq!(total(&g), 108);
    }
}
