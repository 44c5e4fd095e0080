use royal_ur::compact::GameStateSmall;
use royal_ur::game::{GameState, TeamState, GOAL_SCORE};
use royal_ur::order::{
    create_order, dep_start_of, find_state, is_sorted_states, layer_ranges, sort_states,
    state_le, state_rank, successor_keys,
};
use royal_ur::perma::PermaKey;
use royal_ur::strip::StripState;

fn game(prot_bits: u16, prot_score: u8, opp_bits: u16, opp_score: u8) -> GameState {
    GameState {
        prot: TeamState { strip: StripState(prot_bits), score: prot_score },
        opp: TeamState { strip: StripState(opp_bits), score: opp_score },
    }
}

#[test]
fn compact_key_round_trips_hand_positions() {
    let samples = vec![
        game(0, 0, 0, 0),
        game((1 << 0) | (1 << 5), 1, (1 << 6) | (1 << 13), 2),
        game((1 << 3) | (1 << 7), 0, (1 << 4) | (1 << 12), 6),
        game(1 << 11, 6, 1 << 10, 6),
    ];
    for g in samples {
        let k = GameStateSmall::from_game(g);
        let back = k.to_game();
        assert_eq!(back, g);
        let k2 = GameStateSmall::from_game(back);
        assert_eq!(k2.raw(), k.raw());
        assert_eq!(GameStateSmall::from_raw(k.raw()), k);
    }
}

#[test]
fn compact_key_packs_the_documented_fields() {
    // Mover: score 3, pieces on 1 (start), 12 (end). Opponent: score 2,
    // pieces on 0 (start), 13 (end). Square 4 mover, square 11 opponent.
    let g = game((1 << 1) | (1 << 12) | (1 << 4), 3, (1 << 0) | (1 << 13) | (1 << 11), 2);
    let k = GameStateSmall::from_game(g).raw();
    assert_eq!((k >> 28) & 7, 3);
    assert_eq!((k >> 25) & 7, 2);
    assert_eq!((k >> 21) & 0xF, 0b0010);
    assert_eq!((k >> 19) & 3, 0b01);
    assert_eq!((k >> 15) & 0xF, 0b0001);
    assert_eq!((k >> 13) & 3, 0b10);
    // Shared region in base 3, square 4 most significant: digit 1 at square
    // 4, digit 2 at square 11.
    assert_eq!(k & 0x1FFF, 3u32.pow(7) + 2);
}

#[test]
fn perma_key_ignores_which_team_moves() {
    let g = game((1 << 5) | (1 << 0), 2, (1 << 9) | (1 << 13), 1);
    assert_eq!(PermaKey::new(g), PermaKey::new(g.flipped()));
}

#[test]
fn perma_key_names_scores_ends_and_focus() {
    // Same sorted summaries, same focus token, different launch squares:
    // the key only sees launch squares when the shared region decides, and
    // here square 5 decides.
    let a = game(1 << 5, 0, 1 << 0, 0);
    let b = game(1 << 5, 0, 1 << 1, 0);
    assert_eq!(PermaKey::new(a), PermaKey::new(b));
    // A different highest shared square gives a different key.
    let c = game(1 << 6, 0, 1 << 0, 0);
    assert_ne!(PermaKey::new(a), PermaKey::new(c));
    // With the shared region empty, the launch squares do decide.
    let d = game(1 << 0, 0, 0, 0);
    let e = game(1 << 1, 0, 0, 0);
    assert_ne!(PermaKey::new(d), PermaKey::new(e));
}

#[test]
fn the_shared_flower_defers_to_the_next_square() {
    // Highest occupied is the shared flower; the second-highest breaks the
    // tie, and the key differs from a plain Shared(7)-like position only
    // through that fallback.
    let a = game((1 << 7) | (1 << 5), 0, 0, 0);
    let b = game((1 << 7) | (1 << 6), 0, 0, 0);
    assert_ne!(PermaKey::new(a), PermaKey::new(b));
    let c = game((1 << 7) | (1 << 5), 0, 0, 0);
    assert_eq!(PermaKey::new(a), PermaKey::new(c));
}

#[test]
fn layer_reachability_allows_one_point_on_one_team() {
    let base = PermaKey::new(game(0, 2, 0, 1));
    let same = PermaKey::new(game(0, 1, 0, 2));
    let gt_up = PermaKey::new(game(0, 3, 0, 1));
    let lt_up = PermaKey::new(game(0, 2, 0, 2));
    let both_up = PermaKey::new(game(0, 3, 0, 2));
    assert!(same.reachable_in_one_move_from(base));
    assert!(gt_up.reachable_in_one_move_from(base));
    assert!(lt_up.reachable_in_one_move_from(base));
    assert!(!both_up.reachable_in_one_move_from(base));
    assert!(!base.reachable_in_one_move_from(gt_up));
}

#[test]
fn successors_stay_within_one_move_of_the_layer() {
    // Every stored successor of a position lands in a layer reachable in
    // one move from the position's own layer.
    let g = game((1 << 13) | (1 << 5), 5, 1 << 8, 6);
    let key = PermaKey::new(g);
    for s in successor_keys(g, GOAL_SCORE) {
        let succ_key = PermaKey::new(s.to_game());
        assert!(succ_key.reachable_in_one_move_from(key));
    }
}

#[test]
fn successors_sort_no_later_than_their_source() {
    // The layer rank never sinks across a move: over the whole reachable
    // space of a small goal, every successor's layer weighs at least as
    // much as its source's, so layers can be frozen in sort order.
    let goal = 1;
    let states = create_order(goal).unwrap();
    for s in &states {
        let own = state_rank(*s);
        for succ in successor_keys(s.to_game(), goal) {
            assert!(state_rank(succ) >= own);
        }
    }
}

#[test]
fn sorting_orders_keys_and_search_finds_them() {
    let mut keys = Vec::new();
    for g in [
        game(0, 0, 0, 0),
        game(1 << 5, 0, 0, 0),
        game(1 << 0, 1, 0, 0),
        game(1 << 9, 2, 1 << 4, 1),
        game(1 << 13, 3, 1 << 6, 3),
    ] {
        keys.push(GameStateSmall::from_game(g));
    }
    let sorted = sort_states(&keys);
    assert!(is_sorted_states(&sorted));
    assert_eq!(sorted.len(), keys.len());
    for k in &keys {
        let at = find_state(&sorted, 0, sorted.len(), *k);
        assert_eq!(sorted[at.unwrap()], *k);
    }
    let absent = GameStateSmall::from_game(game(1 << 10, 6, 0, 6));
    assert!(find_state(&sorted, 0, sorted.len(), absent).is_none());
    // Adjacent pairs respect the executable comparison.
    for w in sorted.windows(2) {
        assert!(state_le(w[0], w[1]));
    }
}

#[test]
fn enumeration_is_sorted_unique_and_closed() {
    let goal = 1;
    let states = create_order(goal).unwrap();
    assert!(is_sorted_states(&states));
    assert!(states.len() > 1);
    // The opening position is enumerated.
    let init = GameStateSmall::from_game(game(0, 0, 0, 0));
    assert!(find_state(&states, 0, states.len(), init).is_some());
    // No duplicates, every key re-encodes to itself, and every successor of
    // every state is enumerated too.
    for w in states.windows(2) {
        assert_ne!(w[0].raw(), w[1].raw());
    }
    for s in &states {
        let g = s.to_game();
        assert_eq!(GameStateSmall::from_game(g).raw(), s.raw());
        for succ in successor_keys(g, goal) {
            assert!(find_state(&states, 0, states.len(), succ).is_some());
        }
    }
}

#[test]
fn layers_partition_the_sorted_states() {
    let goal = 1;
    let states = create_order(goal).unwrap();
    let layers = layer_ranges(&states);
    assert!(layers.len() > 1);
    assert_eq!(layers[0].start, 0);
    assert_eq!(layers[layers.len() - 1].end, states.len());
    for w in layers.windows(2) {
        assert_eq!(w[0].end, w[1].start);
        assert_ne!(w[0].key, w[1].key);
    }
    for l in &layers {
        assert!(l.start < l.end);
        for i in l.start..l.end {
            assert_eq!(PermaKey::new(states[i].to_game()), l.key);
        }
    }
    // Each layer's dependency window starts at or before the layer itself,
    // at a layer whose key is reachable in one move.
    for i in 0..layers.len() {
        let dep = dep_start_of(&layers, i);
        assert!(dep <= layers[i].start);
        let mut found = false;
        for l in &layers {
            if l.start == dep {
                assert!(l.key.reachable_in_one_move_from(layers[i].key));
                found = true;
            }
        }
        assert!(found);
    }
}
