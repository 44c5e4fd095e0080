use royal_ur::compact::GameStateSmall;
use royal_ur::expr::{create_exprs, ExprPart, Val};
use royal_ur::game::{GameState, TeamState};
use royal_ur::order::{create_order, dep_start_of, find_state, layer_ranges, SolveError};
use royal_ur::strip::{StripIndex, StripState};

const WEIGHTS: [f64; 5] = [
    1.0 / 16.0,
    4.0 / 16.0,
    6.0 / 16.0,
    4.0 / 16.0,
    1.0 / 16.0,
];

/// Evaluates one compiled expression: the weighted sum over the five roll
/// groups of the best term in each group.
fn eval_expr(parts: &[ExprPart], first: usize, get_val: &dyn Fn(usize) -> f64) -> f64 {
    let mut i = first;
    let mut roll = 0usize;
    let mut sum = 0.0;
    let mut group_max = f64::NEG_INFINITY;
    while roll < 5 {
        let part = parts[i];
        let v = match part.get_val() {
            Val::Win => 1.0,
            Val::Var(index) => get_val(index as usize),
        };
        let v = if part.is_inverse() { 1.0 - v } else { v };
        if v > group_max {
            group_max = v;
        }
        if part.is_end() {
            sum += WEIGHTS[roll] * group_max;
            group_max = f64::NEG_INFINITY;
            roll += 1;
        }
        i += 1;
    }
    sum
}

/// Solves the whole game for a small goal, layer by layer.
fn solve_table(goal: u8) -> (Vec<GameStateSmall>, Vec<f64>) {
    let states = create_order(goal).expect("state space fits");
    let layers = layer_ranges(&states);
    let mut vals = vec![-1.0f64; states.len()];
    for li in 0..layers.len() {
        let dep = dep_start_of(&layers, li);
        let (start, end) = (layers[li].start, layers[li].end);
        let mut parts: Vec<ExprPart> = Vec::new();
        let mut starts: Vec<u32> = Vec::new();
        create_exprs(&states, goal, dep, start, end, &mut parts, &mut starts)
            .expect("window is closed");
        let n = end - start;
        let mut cur = vec![0.0f64; n];
        let mut next = vec![0.0f64; n];
        let mut iters = 0;
        loop {
            iters += 1;
            assert!(iters < 100_000, "layer failed to converge");
            let mut delta = 0.0f64;
            for j in 0..n {
                let v = eval_expr(&parts, starts[j] as usize, &|idx: usize| {
                    if idx < start {
                        vals[idx]
                    } else {
                        cur[idx - start]
                    }
                });
                let d = (v - cur[j]).abs();
                if d > delta {
                    delta = d;
                }
                next[j] = v;
            }
            std::mem::swap(&mut cur, &mut next);
            if delta <= 1e-13 {
                break;
            }
        }
        vals[start..end].copy_from_slice(&cur);
    }
    (states, vals)
}

fn game(prot_bits: u16, prot_score: u8, opp_bits: u16, opp_score: u8) -> GameState {
    GameState {
        prot: TeamState { strip: StripState(prot_bits), score: prot_score },
        opp: TeamState { strip: StripState(opp_bits), score: opp_score },
    }
}

#[test]
fn expr_parts_pack_the_three_marker_bits() {
    assert_eq!(ExprPart::new(true, false, Val::Win).raw(), 0xA000_0000);
    assert_eq!(ExprPart::new(false, true, Val::Var(5)).raw(), 0x4000_0005);
    assert_eq!(ExprPart::new(true, true, Val::Var(0x1FFF_FFFF)).raw(), 0xDFFF_FFFF);
    let p = ExprPart::new(true, false, Val::Var(1234));
    assert!(p.is_end());
    assert!(!p.is_inverse());
    assert_eq!(p.get_val(), Val::Var(1234));
    let w = ExprPart::new(false, false, Val::Win);
    assert!(!w.is_end());
    assert!(!w.is_inverse());
    assert_eq!(w.get_val(), Val::Win);
    assert_eq!(ExprPart::from_raw(0x4000_0005).raw(), 0x4000_0005);
}

#[test]
fn a_clipped_dependency_window_is_reported() {
    let goal = 1;
    let states = create_order(goal).unwrap();
    let layers = layer_ranges(&states);
    let mut saw_violation = false;
    for li in 0..layers.len() {
        let (start, end) = (layers[li].start, layers[li].end);
        let mut parts: Vec<ExprPart> = Vec::new();
        let mut starts: Vec<u32> = Vec::new();
        // Clip the window to the layer itself: outward references must be
        // reported, never silently mis-indexed.
        match create_exprs(&states, goal, start, start, end, &mut parts, &mut starts) {
            Err(SolveError::InvariantViolation) => saw_violation = true,
            Err(_) => panic!("only the invariant violation is expected"),
            Ok(()) => {},
        }
    }
    assert!(saw_violation);
}

#[test]
fn compiled_streams_have_five_groups_per_state() {
    let goal = 2;
    let states = create_order(goal).unwrap();
    let layers = layer_ranges(&states);
    for li in 0..layers.len() {
        let dep = dep_start_of(&layers, li);
        let (start, end) = (layers[li].start, layers[li].end);
        let mut parts: Vec<ExprPart> = Vec::new();
        let mut starts: Vec<u32> = Vec::new();
        create_exprs(&states, goal, dep, start, end, &mut parts, &mut starts).unwrap();
        assert_eq!(starts.len(), end - start);
        assert_eq!(starts[0], 0);
        let ends = parts.iter().filter(|p| p.is_end()).count();
        assert_eq!(ends, 5 * (end - start));
        for j in 0..starts.len() - 1 {
            // Between consecutive offsets stand exactly five group ends.
            let lo = starts[j] as usize;
            let hi = starts[j + 1] as usize;
            let in_state = parts[lo..hi].iter().filter(|p| p.is_end()).count();
            assert_eq!(in_state, 5);
        }
        for p in &parts {
            match p.get_val() {
                Val::Win => {},
                Val::Var(idx) => {
                    assert!(dep <= idx as usize && (idx as usize) < end);
                },
            }
        }
    }
}

#[test]
fn persisted_words_reload_bit_identically() {
    let goal = 1;
    let (states, vals) = solve_table(goal);
    let order: Vec<u32> = states.iter().map(|s| s.raw()).collect();
    let cfg = bincode::config::standard();
    let bytes = bincode::encode_to_vec(&order, cfg).unwrap();
    let (order_back, used): (Vec<u32>, usize) = bincode::decode_from_slice(&bytes, cfg).unwrap();
    assert_eq!(used, bytes.len());
    assert_eq!(order_back, order);
    let vbytes = bincode::encode_to_vec(&vals, cfg).unwrap();
    let (vals_back, vused): (Vec<f64>, usize) = bincode::decode_from_slice(&vbytes, cfg).unwrap();
    assert_eq!(vused, vbytes.len());
    assert_eq!(vals.len(), vals_back.len());
    for (a, b) in vals.iter().zip(vals_back.iter()) {
        assert_eq!(a.to_bits(), b.to_bits());
    }
}

#[test]
fn converged_values_are_probabilities() {
    let (_, vals) = solve_table(1);
    for v in &vals {
        assert!(*v >= -1e-12 && *v <= 1.0 + 1e-12);
    }
}

#[test]
fn a_certain_scoring_roll_is_worth_its_weight() {
    let goal = 1;
    let (states, vals) = solve_table(goal);
    // Mover's only piece stands on the last square; a roll of one wins the
    // game outright, so the value is at least that roll's weight.
    let g = game(1 << 13, 0, 0, 0);
    let key = GameStateSmall::from_game(g);
    let at = find_state(&states, 0, states.len(), key).expect("position is reachable");
    assert!(vals[at] >= 4.0 / 16.0 - 1e-12);
    // And the near-win is worth strictly more than the opening.
    let init = GameStateSmall::from_game(game(0, 0, 0, 0));
    let at0 = find_state(&states, 0, states.len(), init).unwrap();
    assert!(vals[at] > vals[at0]);
}

#[test]
fn the_opening_position_is_nearly_even() {
    // The opening is its own flip, yet the mover acts first, so its value
    // sits a little above one half: close to even, never below it.
    let (states, vals) = solve_table(1);
    let init = GameStateSmall::from_game(game(0, 0, 0, 0));
    let at = find_state(&states, 0, states.len(), init).unwrap();
    assert!(vals[at] > 0.5, "v0 = {}", vals[at]);
    assert!((vals[at] - 0.5).abs() < 0.2, "v0 = {}", vals[at]);
}

#[test]
fn swapping_the_players_nearly_complements_the_value() {
    // Giving the board to the other player hands over the move as well, so
    // the two values sum to one only up to the worth of moving first; the
    // opening position, its own flip, shows the gap is real.
    let goal = 1;
    let (states, vals) = solve_table(goal);
    let init = GameStateSmall::from_game(game(0, 0, 0, 0));
    let at = find_state(&states, 0, states.len(), init).unwrap();
    let first_move_worth = 2.0 * (vals[at] - 0.5);
    assert!(first_move_worth > 0.0, "worth = {}", first_move_worth);
    for (i, s) in states.iter().enumerate() {
        let flipped = GameStateSmall::from_game(s.to_game().flipped());
        if let Some(j) = find_state(&states, 0, states.len(), flipped) {
            let sum = vals[i] + vals[j];
            assert!((sum - 1.0).abs() <= 0.5, "at {}: {}", i, sum);
        }
    }
}

#[test]
fn one_more_step_changes_nothing_at_convergence() {
    let goal = 1;
    let (states, vals) = solve_table(goal);
    // Compile every state against the full table and take one global step.
    let mut parts: Vec<ExprPart> = Vec::new();
    let mut starts: Vec<u32> = Vec::new();
    create_exprs(&states, goal, 0, 0, states.len(), &mut parts, &mut starts).unwrap();
    for j in 0..states.len() {
        let v = eval_expr(&parts, starts[j] as usize, &|idx: usize| vals[idx]);
        assert!((v - vals[j]).abs() <= 1e-9);
    }
}

#[test]
fn the_layered_solution_matches_a_global_fixed_point() {
    let goal = 1;
    let (states, vals) = solve_table(goal);
    let mut parts: Vec<ExprPart> = Vec::new();
    let mut starts: Vec<u32> = Vec::new();
    create_exprs(&states, goal, 0, 0, states.len(), &mut parts, &mut starts).unwrap();
    let n = states.len();
    let mut cur = vec![0.0f64; n];
    let mut next = vec![0.0f64; n];
    let mut iters = 0;
    loop {
        iters += 1;
        assert!(iters < 200_000, "global iteration failed to converge");
        let mut delta = 0.0f64;
        for j in 0..n {
            let v = eval_expr(&parts, starts[j] as usize, &|idx: usize| cur[idx]);
            let d = (v - cur[j]).abs();
            if d > delta {
                delta = d;
            }
            next[j] = v;
        }
        std::mem::swap(&mut cur, &mut next);
        if delta <= 1e-13 {
            break;
        }
    }
    for j in 0..n {
        assert!((cur[j] - vals[j]).abs() < 1e-8);
    }
}

#[test]
fn a_larger_goal_solves_too() {
    let goal = 2;
    let (states, vals) = solve_table(goal);
    assert!(states.len() > 1000);
    for v in &vals {
        assert!(*v >= -1e-12 && *v <= 1.0 + 1e-12);
    }
    let init = GameStateSmall::from_game(game(0, 0, 0, 0));
    let at = find_state(&states, 0, states.len(), init).unwrap();
    assert!(vals[at] > 0.5, "v0 = {}", vals[at]);
    assert!((vals[at] - 0.5).abs() < 0.2, "v0 = {}", vals[at]);
}

#[test]
fn expression_groups_follow_the_bellman_shape() {
    // One state checked by hand: mover piece on the last square, goal one.
    // Roll 0 passes (inverse reference), roll 1 wins outright, rolls 2..4
    // run out of the board and pass.
    let goal = 1;
    let states = create_order(goal).unwrap();
    let layers = layer_ranges(&states);
    let g = game(1 << 13, 0, 0, 0);
    let key = GameStateSmall::from_game(g);
    let at = find_state(&states, 0, states.len(), key).unwrap();
    let li = (0..layers.len()).find(|l| layers[*l].start <= at && at < layers[*l].end).unwrap();
    let dep = dep_start_of(&layers, li);
    let (start, end) = (layers[li].start, layers[li].end);
    let mut parts: Vec<ExprPart> = Vec::new();
    let mut starts: Vec<u32> = Vec::new();
    create_exprs(&states, goal, dep, start, end, &mut parts, &mut starts).unwrap();
    let mut i = starts[at - start] as usize;
    // Group for the blank roll: one inverse variable, closed.
    assert!(parts[i].is_end() && parts[i].is_inverse());
    let flipped_key = GameStateSmall::from_game(g.flipped());
    match parts[i].get_val() {
        Val::Var(idx) => assert_eq!(states[idx as usize], flipped_key),
        Val::Win => panic!("a pass refers to the table"),
    }
    i += 1;
    // Group for a roll of one: the winning move collapses to the literal.
    assert!(parts[i].is_end() && !parts[i].is_inverse());
    assert_eq!(parts[i].get_val(), Val::Win);
    i += 1;
    // Rolls of two to four cannot move: each group is one inverse pass.
    for _ in 0..3 {
        assert!(parts[i].is_end() && parts[i].is_inverse());
        match parts[i].get_val() {
            Val::Var(idx) => assert_eq!(states[idx as usize], flipped_key),
            Val::Win => panic!("a pass refers to the table"),
        }
        i += 1;
    }
    // Hand evaluation of this state against the compiled stream.
    let (_, vals) = solve_table(goal);
    let vflip = vals[find_state(&states, 0, states.len(), flipped_key).unwrap()];
    let expected = (1.0 / 16.0) * (1.0 - vflip) + (4.0 / 16.0) * 1.0 + (11.0 / 16.0) * (1.0
        - vflip);
    assert!((vals[at] - expected).abs() < 1e-9);
}

#[test]
fn square_indices_in_tests_are_consistent() {
    // Guard for the helpers above: bit `i` stands for square `i`.
    let g = game(1 << 13, 0, 0, 0);
    assert!(g.prot.strip.get(StripIndex(13)));
    assert_eq!(g.prot.strip.count_pieces(), 1);
}
