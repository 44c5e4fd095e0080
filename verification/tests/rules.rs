use royal_ur::game::{possible_moves, GameState, Move, PossibleMovesIter, Roll, TeamState, GOAL_SCORE};
use royal_ur::strip::{Delta, DeltaResult, MoveSource, Square, StripIndex, StripState};

fn team(bits: u16, score: u8) -> TeamState {
    TeamState { strip: StripState(bits), score }
}

fn game(prot_bits: u16, prot_score: u8, opp_bits: u16, opp_score: u8) -> GameState {
    GameState { prot: team(prot_bits, prot_score), opp: team(opp_bits, opp_score) }
}

#[test]
fn strip_state_bit_operations() {
    let mut s = StripState::new();
    assert_eq!(s.0, 0);
    s.set(StripIndex(5), true);
    assert!(s.get(StripIndex(5)));
    assert!(!s.get(StripIndex(4)));
    s.set(StripIndex(13), true);
    assert_eq!(s.count_pieces(), 2);
    s.set(StripIndex(5), false);
    assert!(!s.get(StripIndex(5)));
    assert_eq!(s.count_pieces(), 1);
}

#[test]
fn strip_state_start_and_end_bits() {
    let s = StripState::from_start_and_end(0b1010, 0b01);
    assert_eq!(s.start_bits(), 0b1010);
    assert_eq!(s.end_bits(), 0b01);
    assert!(s.get(StripIndex(1)));
    assert!(s.get(StripIndex(3)));
    assert!(s.get(StripIndex(12)));
    assert!(!s.get(StripIndex(13)));
}

#[test]
fn delta_accepts_one_through_four() {
    assert!(Delta::new(0).is_none());
    assert_eq!(Delta::new(1).unwrap().get(), 1);
    assert_eq!(Delta::new(4).unwrap().get(), 4);
    assert!(Delta::new(5).is_none());
}

#[test]
fn strip_index_bounds_and_sharing() {
    assert!(StripIndex::new(13).is_some());
    assert!(StripIndex::new(14).is_none());
    assert!(!StripIndex(3).both_teams_accessible());
    assert!(StripIndex(4).both_teams_accessible());
    assert!(StripIndex(11).both_teams_accessible());
    assert!(!StripIndex(12).both_teams_accessible());
}

#[test]
fn flowers_are_squares_three_seven_thirteen() {
    for i in 0..14u8 {
        let is_flower = matches!(StripIndex(i).square(), Square::Flower);
        assert_eq!(is_flower, i == 3 || i == 7 || i == 13);
    }
}

#[test]
fn apply_delta_scores_exactly_at_fourteen() {
    assert!(matches!(StripIndex(13).apply_delta(Delta::new(1).unwrap()), DeltaResult::Score));
    assert!(matches!(
        StripIndex(12).apply_delta(Delta::new(1).unwrap()),
        DeltaResult::Index(StripIndex(13))
    ));
    assert!(matches!(StripIndex(12).apply_delta(Delta::new(3).unwrap()), DeltaResult::OutOfBounds));
    assert!(matches!(
        MoveSource::Launch.apply_delta(Delta::new(3).unwrap()),
        DeltaResult::Index(StripIndex(2))
    ));
}

#[test]
fn launch_keeps_turn_only_on_flowers() {
    let g = game(0, 0, 0, 0);
    // Delta 3 lands on square 2: a normal square, the turn passes.
    match g.move_piece(GOAL_SCORE, MoveSource::Launch, Delta::new(3).unwrap()) {
        Some(Move::Continue { game: g2, keep_turn }) => {
            assert!(g2.prot.strip.get(StripIndex(2)));
            assert!(!keep_turn);
        },
        _ => panic!("launch must be legal"),
    }
    // Delta 4 lands on square 3: a flower, the mover keeps the turn.
    match g.move_piece(GOAL_SCORE, MoveSource::Launch, Delta::new(4).unwrap()) {
        Some(Move::Continue { game: g2, keep_turn }) => {
            assert!(g2.prot.strip.get(StripIndex(3)));
            assert!(keep_turn);
        },
        _ => panic!("launch must be legal"),
    }
}

#[test]
fn launch_needs_a_piece_on_the_bench() {
    // Six scored, one piece on the board: nothing is left to launch.
    let g = game(1 << 0, 6, 0, 0);
    assert!(g.move_piece(GOAL_SCORE, MoveSource::Launch, Delta::new(2).unwrap()).is_none());
}

#[test]
fn stacking_on_ones_own_piece_is_rejected() {
    let g = game((1 << 4) | (1 << 6), 0, 0, 0);
    assert!(g.move_piece(GOAL_SCORE, MoveSource::Index(StripIndex(4)), Delta::new(2).unwrap()).is_none());
}

#[test]
fn capture_sends_the_opponent_home() {
    let g = game(1 << 4, 0, 1 << 6, 0);
    match g.move_piece(GOAL_SCORE, MoveSource::Index(StripIndex(4)), Delta::new(2).unwrap()) {
        Some(Move::Continue { game: g2, keep_turn }) => {
            assert!(g2.prot.strip.get(StripIndex(6)));
            assert!(!g2.opp.strip.get(StripIndex(6)));
            assert!(!keep_turn);
        },
        _ => panic!("capture must be legal"),
    }
}

#[test]
fn the_shared_flower_shelters_the_opponent() {
    let g = game(1 << 5, 0, 1 << 7, 0);
    assert!(g.move_piece(GOAL_SCORE, MoveSource::Index(StripIndex(5)), Delta::new(2).unwrap()).is_none());
}

#[test]
fn landing_on_an_empty_flower_keeps_the_turn() {
    let g = game(1 << 5, 0, 0, 0);
    match g.move_piece(GOAL_SCORE, MoveSource::Index(StripIndex(5)), Delta::new(2).unwrap()) {
        Some(Move::Continue { game: g2, keep_turn }) => {
            assert!(g2.prot.strip.get(StripIndex(7)));
            assert!(keep_turn);
        },
        _ => panic!("flower landing must be legal"),
    }
}

#[test]
fn a_move_past_the_board_is_rejected() {
    let g = game(1 << 12, 0, 0, 0);
    assert!(g.move_piece(GOAL_SCORE, MoveSource::Index(StripIndex(12)), Delta::new(3).unwrap()).is_none());
}

#[test]
fn scoring_increments_and_the_last_piece_wins() {
    let g = game(1 << 13, 5, 0, 0);
    match g.move_piece(GOAL_SCORE, MoveSource::Index(StripIndex(13)), Delta::new(1).unwrap()) {
        Some(Move::Continue { game: g2, keep_turn }) => {
            assert_eq!(g2.prot.score, 6);
            assert!(!g2.prot.strip.get(StripIndex(13)));
            assert!(!keep_turn);
        },
        _ => panic!("scoring must be legal"),
    }
    let near_win = game(1 << 13, 6, 0, 0);
    assert!(matches!(
        near_win.move_piece(GOAL_SCORE, MoveSource::Index(StripIndex(13)), Delta::new(1).unwrap()),
        Some(Move::End)
    ));
}

#[test]
fn zero_roll_passes_the_turn() {
    let g = game(1 << 5, 0, 1 << 8, 0);
    let moves = possible_moves(g, GOAL_SCORE, Roll::Zero);
    assert_eq!(moves.len(), 1);
    match moves[0] {
        Move::Continue { game: g2, keep_turn } => {
            assert_eq!(g2, g);
            assert!(!keep_turn);
        },
        _ => panic!("a blank roll never ends the game"),
    }
}

#[test]
fn a_roll_with_no_legal_move_passes() {
    // Goal 4: four pieces at 3,4,5,6, opponent safe on the shared flower.
    // Delta 1 can neither launch (bench empty) nor move any piece.
    let g = game((1 << 3) | (1 << 4) | (1 << 5) | (1 << 6), 0, 1 << 7, 0);
    let moves = possible_moves(g, 4, Roll::Delta(Delta::new(1).unwrap()));
    assert_eq!(moves.len(), 1);
    match moves[0] {
        Move::Continue { game: g2, keep_turn } => {
            assert_eq!(g2, g);
            assert!(!keep_turn);
        },
        _ => panic!("the fallback move passes the turn"),
    }
}

#[test]
fn iterator_yields_the_same_moves_as_the_vector() {
    let g = game((1 << 0) | (1 << 5), 1, (1 << 6) | (1 << 9), 0);
    for idx in 0..5usize {
        let roll = Roll::from_index(idx).unwrap();
        let expected = possible_moves(g, GOAL_SCORE, roll);
        let mut it = PossibleMovesIter::new(g, GOAL_SCORE, roll);
        let mut got = Vec::new();
        while let Some(m) = it.next() {
            got.push(m);
        }
        assert_eq!(got, expected);
    }
}

#[test]
fn roll_weights_are_binomial_and_sum_to_one() {
    let rolls = Roll::vals();
    assert_eq!(rolls.len(), 5);
    let weights: Vec<u8> = rolls.iter().map(|r| r.weight_sixteenths()).collect();
    assert_eq!(weights, vec![1, 4, 6, 4, 1]);
    let total: u32 = weights.iter().map(|w| *w as u32).sum();
    assert_eq!(total, 16);
    assert!(Roll::from_index(5).is_none());
}

#[test]
fn flipping_swaps_the_teams_and_is_an_involution() {
    let g = game(1 << 5, 2, 1 << 9, 1);
    let f = g.flipped();
    assert_eq!(f.prot, g.opp);
    assert_eq!(f.opp, g.prot);
    assert_eq!(f.flipped(), g);
}
