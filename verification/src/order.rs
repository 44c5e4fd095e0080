use vstd::prelude::*;
use vstd::seq_lib::group_to_multiset_ensures;
use vstd::seq_lib::lemma_multiset_commutative;

use crate::compact::{
    lemma_decode_bounds, lemma_decode_encode, lemma_wf_fits, spec_decode, spec_encode,
    GameStateSmall,
};
use crate::game::{
    lemma_flip_wf, lemma_initial_reachable, lemma_possible_moves_ok, lemma_reachable_step,
    lemma_reachable_wf, move_ok, possible_moves, spec_initial, spec_possible_moves, spec_reach_n,
    spec_reachable_state, spec_step_rel, GameState, Move, Roll, GOAL_SCORE,
};
use std::collections::HashSet;
use crate::perma::{lemma_perma_key_wf, spec_perma_key, spec_perma_rank, spec_reachable, PermaKey};

verus! {

broadcast use group_to_multiset_ensures, vstd::std_specs::hash::group_hash_axioms;

/// The sort weight of a compact key: the rank of its layer.
pub open spec fn spec_state_rank(k: u32) -> int {
    spec_perma_rank(spec_perma_key(spec_decode(k)))
}

/// The solver's total order on compact keys: layers solved earlier come
/// first (larger rank first), ties broken by the raw key.
pub open spec fn spec_state_le(a: u32, b: u32) -> bool {
    spec_state_rank(a) > spec_state_rank(b) || (spec_state_rank(a) == spec_state_rank(b) && a <= b)
}

/// A run of keys in solver order.
pub open spec fn sorted_states(s: Seq<GameStateSmall>) -> bool {
    forall|i: int, j: int|
        #![trigger s[i], s[j]]
        0 <= i < j < s.len() ==> spec_state_le(s[i].0, s[j].0)
}

/// The layer rank of a key, executable.
pub fn state_rank(a: GameStateSmall) -> (r: u32)
    ensures
        r as int == spec_state_rank(a.0),
{
    proof {
        lemma_decode_bounds(a.0);
        lemma_perma_key_wf(spec_decode(a.0));
    }
    PermaKey::new(a.to_game()).rank()
}

/// Compares two keys in solver order.
pub fn state_le(a: GameStateSmall, b: GameStateSmall) -> (r: bool)
    ensures
        r == spec_state_le(a.0, b.0),
{
    let ra = state_rank(a);
    let rb = state_rank(b);
    ra > rb || (ra == rb && a.0 <= b.0)
}

/// Interleaves two sorted runs into one.
fn merge(a: Vec<GameStateSmall>, b: Vec<GameStateSmall>) -> (r: Vec<GameStateSmall>)
    requires
        sorted_states(a@),
        sorted_states(b@),
    ensures
        sorted_states(r@),
        r@.to_multiset() == a@.to_multiset().add(b@.to_multiset()),
        r@.len() == a@.len() + b@.len(),
{
    let mut r: Vec<GameStateSmall> = Vec::new();
    let mut i: usize = 0;
    let mut j: usize = 0;
    while i < a.len() || j < b.len()
        invariant
            i <= a@.len(),
            j <= b@.len(),
            sorted_states(a@),
            sorted_states(b@),
            r@.len() == i + j,
            sorted_states(r@),
            r@.to_multiset() == a@.take(i as int).to_multiset().add(
                b@.take(j as int).to_multiset(),
            ),
            forall|m: int, k: int|
                0 <= m < r@.len() && i <= k < a@.len() ==> spec_state_le(
                    (#[trigger] r@[m]).0,
                    (#[trigger] a@[k]).0,
                ),
            forall|m: int, k: int|
                0 <= m < r@.len() && j <= k < b@.len() ==> spec_state_le(
                    (#[trigger] r@[m]).0,
                    (#[trigger] b@[k]).0,
                ),
        decreases a@.len() - i + b@.len() - j,
    {
        let ghost rold = r@;
        let take_a = if i < a.len() {
            if j < b.len() {
                state_le(a[i], b[j])
            } else {
                true
            }
        } else {
            false
        };
        if take_a {
            let x = a[i];
            r.push(x);
            i = i + 1;
            proof {
                assert(a@.take(i as int) =~= a@.take(i as int - 1).push(x));
                assert(r@.to_multiset() =~= a@.take(i as int).to_multiset().add(
                    b@.take(j as int).to_multiset(),
                ));
            }
        } else {
            let x = b[j];
            r.push(x);
            j = j + 1;
            proof {
                assert(b@.take(j as int) =~= b@.take(j as int - 1).push(x));
                assert(r@.to_multiset() =~= a@.take(i as int).to_multiset().add(
                    b@.take(j as int).to_multiset(),
                ));
            }
        }
    }
    proof {
        assert(a@.take(a@.len() as int) =~= a@);
        assert(b@.take(b@.len() as int) =~= b@);
    }
    r
}

/// Sorts keys into solver order; the result holds exactly the same keys.
pub fn sort_states(v: &Vec<GameStateSmall>) -> (r: Vec<GameStateSmall>)
    ensures
        sorted_states(r@),
        r@.to_multiset() == v@.to_multiset(),
        r@.len() == v@.len(),
    decreases v@.len(),
{
    if v.len() <= 1 {
        let mut r: Vec<GameStateSmall> = Vec::new();
        if v.len() == 1 {
            r.push(v[0]);
            proof {
                assert(v@ =~= Seq::<GameStateSmall>::empty().push(v@[0]));
            }
        } else {
            proof {
                assert(v@ =~= Seq::<GameStateSmall>::empty());
                assert(r@.to_multiset() =~= v@.to_multiset());
            }
        }
        return r;
    }
    let mid = v.len() / 2;
    let mut left: Vec<GameStateSmall> = Vec::new();
    let mut k: usize = 0;
    while k < mid
        invariant
            mid <= v@.len(),
            k <= mid,
            left@ == v@.subrange(0, k as int),
        decreases mid - k,
    {
        left.push(v[k]);
        proof {
            assert(v@.subrange(0, k as int + 1) =~= v@.subrange(0, k as int).push(v@[k as int]));
        }
        k = k + 1;
    }
    let mut right: Vec<GameStateSmall> = Vec::new();
    let mut k2: usize = mid;
    while k2 < v.len()
        invariant
            mid <= k2 <= v@.len(),
            right@ == v@.subrange(mid as int, k2 as int),
        decreases v@.len() - k2,
    {
        right.push(v[k2]);
        proof {
            assert(v@.subrange(mid as int, k2 as int + 1) =~= v@.subrange(
                mid as int,
                k2 as int,
            ).push(v@[k2 as int]));
        }
        k2 = k2 + 1;
    }
    let ls = sort_states(&left);
    let rs = sort_states(&right);
    let merged = merge(ls, rs);
    proof {
        assert(v@.subrange(0, mid as int) + v@.subrange(mid as int, v@.len() as int) =~= v@);
        lemma_multiset_commutative(
            v@.subrange(0, mid as int),
            v@.subrange(mid as int, v@.len() as int),
        );
    }
    merged
}

/// True exactly when the keys stand in solver order.
pub fn is_sorted_states(v: &Vec<GameStateSmall>) -> (r: bool)
    ensures
        r == sorted_states(v@),
{
    let mut k: usize = 1;
    if v.len() == 0 {
        return true;
    }
    while k < v.len()
        invariant
            1 <= k <= v@.len(),
            forall|i: int, j: int|
                #![trigger v@[i], v@[j]]
                0 <= i < j < k ==> spec_state_le(v@[i].0, v@[j].0),
        decreases v@.len() - k,
    {
        if !state_le(v[k - 1], v[k]) {
            assert(!sorted_states(v@));
            return false;
        }
        k = k + 1;
    }
    true
}

/// What can go fatally wrong while solving.
#[derive(Debug, Clone, Copy, PartialEq, Eq, Structural)]
pub enum SolveError {
    /// More states than an expression word can index.
    EncodingOverflow,
    /// A successor was missing from its dependency window.
    InvariantViolation,
    /// A layer failed to converge within the iteration cap.
    DivergentLayer,
    /// A cache file could not be read or written.
    PersistenceError,
    /// A cache file was absent.
    NotFound,
}

/// A key the enumerator may hand out: it decodes to a well-formed position,
/// re-encodes to itself, and that position is reachable from the opening.
pub open spec fn valid_state(goal: u8, k: u32) -> bool {
    &&& spec_decode(k).wf(goal)
    &&& spec_encode(spec_decode(k)) == k as int
    &&& spec_reachable_state(goal, spec_decode(k))
}

/// A transition of `a` found while trying rolls before `r_lim`, or roll
/// `r_lim` at a move before `i_lim`.
spec fn spec_step_before(goal: u8, a: GameState, b: GameState, r_lim: int, i_lim: int) -> bool {
    exists|r: int, i: int|
        {
            &&& 0 <= r < 5
            &&& 0 <= i < spec_possible_moves(a, goal, Roll::spec_index(r)).len()
            &&& (r < r_lim || (r == r_lim && i < i_lim))
            &&& (#[trigger] spec_possible_moves(a, goal, Roll::spec_index(r))[i]) matches Move::Continue {
                game,
                keep_turn,
            } && b == (if keep_turn {
                game
            } else {
                game.spec_flip()
            })
        }
}

/// The compact keys of every stored successor of `game`: each continuation
/// of each roll, flipped when the turn passes.
pub fn successor_keys(game: GameState, goal: u8) -> (r: Vec<GameStateSmall>)
    requires
        game.wf(goal),
        goal <= GOAL_SCORE,
    ensures
        forall|t: int|
            0 <= t < r@.len() ==> {
                &&& spec_decode((#[trigger] r@[t]).0).wf(goal)
                &&& spec_encode(spec_decode(r@[t].0)) == r@[t].0 as int
                &&& spec_step_rel(goal, game, spec_decode(r@[t].0))
            },
        forall|b: GameState|
            #[trigger] spec_step_rel(goal, game, b) ==> r@.contains(
                GameStateSmall((spec_encode(b) as u32)),
            ),
{
    let mut r: Vec<GameStateSmall> = Vec::new();
    let mut ri: usize = 0;
    while ri < 5
        invariant
            game.wf(goal),
            goal <= GOAL_SCORE,
            ri <= 5,
            forall|t: int|
                0 <= t < r@.len() ==> {
                    &&& spec_decode((#[trigger] r@[t]).0).wf(goal)
                    &&& spec_encode(spec_decode(r@[t].0)) == r@[t].0 as int
                    &&& spec_step_rel(goal, game, spec_decode(r@[t].0))
                },
            forall|b: GameState|
                spec_step_before(goal, game, b, ri as int, 0) ==> r@.contains(
                    GameStateSmall((spec_encode(b) as u32)),
                ),
        decreases 5 - ri,
    {
        let roll = match Roll::from_index(ri) {
            Some(roll) => roll,
            None => {
                proof {
                    assert(false);
                }
                Roll::Zero
            },
        };
        assert(roll == Roll::spec_index(ri as int));
        assert(roll.wf());
        let moves = possible_moves(game, goal, roll);
        let mut mi: usize = 0;
        while mi < moves.len()
            invariant
                game.wf(goal),
                goal <= GOAL_SCORE,
                ri < 5,
                mi <= moves@.len(),
                moves@ == spec_possible_moves(game, goal, Roll::spec_index(ri as int)),
                forall|t: int|
                    0 <= t < r@.len() ==> {
                        &&& spec_decode((#[trigger] r@[t]).0).wf(goal)
                        &&& spec_encode(spec_decode(r@[t].0)) == r@[t].0 as int
                        &&& spec_step_rel(goal, game, spec_decode(r@[t].0))
                    },
                forall|b: GameState|
                    spec_step_before(goal, game, b, ri as int, mi as int) ==> r@.contains(
                        GameStateSmall((spec_encode(b) as u32)),
                    ),
            decreases moves@.len() - mi,
        {
            let ghost rprev = r@;
            match moves[mi] {
                Move::Continue { game: g2, keep_turn } => {
                    let stored = if keep_turn {
                        g2
                    } else {
                        g2.flipped()
                    };
                    proof {
                        lemma_possible_moves_ok(game, goal, Roll::spec_index(ri as int));
                        assert(move_ok(game, goal, moves@[mi as int]));
                        lemma_flip_wf(g2, goal);
                        lemma_wf_fits(stored, goal);
                    }
                    let key = GameStateSmall::from_game(stored);
                    proof {
                        lemma_decode_encode(stored);
                        assert(spec_step_rel(goal, game, stored));
                    }
                    r.push(key);
                    proof {
                        assert(spec_decode(key.0) == stored);
                        assert forall|b: GameState|
                            spec_step_before(
                                goal,
                                game,
                                b,
                                ri as int,
                                mi as int + 1,
                            ) implies r@.contains(GameStateSmall((spec_encode(b) as u32))) by {
                            if spec_step_before(goal, game, b, ri as int, mi as int) {
                                assert(rprev.contains(GameStateSmall((spec_encode(b) as u32))));
                                let w = choose|w: int|
                                    0 <= w < rprev.len() && rprev[w] == GameStateSmall(
                                        (spec_encode(b) as u32),
                                    );
                                assert(r@[w] == GameStateSmall((spec_encode(b) as u32)));
                            } else {
                                assert(b == stored);
                                assert(r@[r@.len() - 1] == GameStateSmall(
                                    (spec_encode(b) as u32),
                                ));
                            }
                        }
                    }
                },
                Move::End => {
                    proof {
                        assert forall|b: GameState|
                            spec_step_before(
                                goal,
                                game,
                                b,
                                ri as int,
                                mi as int + 1,
                            ) implies r@.contains(GameStateSmall((spec_encode(b) as u32))) by {
                            assert(spec_step_before(goal, game, b, ri as int, mi as int));
                        }
                    }
                },
            }
            mi = mi + 1;
        }
        proof {
            assert forall|b: GameState|
                spec_step_before(goal, game, b, ri as int + 1, 0) implies r@.contains(
                GameStateSmall((spec_encode(b) as u32)),
            ) by {
                assert(spec_step_before(goal, game, b, ri as int, moves@.len() as int));
            }
        }
        ri = ri + 1;
    }
    proof {
        assert forall|b: GameState| #[trigger]
            spec_step_rel(goal, game, b) implies r@.contains(
            GameStateSmall((spec_encode(b) as u32)),
        ) by {
            assert(spec_step_before(goal, game, b, 5, 0));
        }
    }
    r
}


/// Everything the enumerator promises of its output: a sorted, duplicate-free
/// vector of valid keys that covers every reachable position.
pub open spec fn enumeration_ok(goal: u8, states: Seq<GameStateSmall>) -> bool {
    &&& states.len() <= 0x20000000
    &&& sorted_states(states)
    &&& states.no_duplicates()
    &&& forall|i: int| 0 <= i < states.len() ==> valid_state(goal, (#[trigger] states[i]).0)
    &&& forall|g: GameState|
        #[trigger] spec_reachable_state(goal, g) ==> states.contains(
            GameStateSmall((spec_encode(g) as u32)),
        )
}

/// Everything the layer table promises: the ranges partition the state
/// vector into nonempty runs, each run carries exactly one layer key, and
/// adjacent runs carry different keys.
pub open spec fn layer_table_wf(states: Seq<GameStateSmall>, layers: Seq<Layer>) -> bool {
    &&& (layers.len() == 0) == (states.len() == 0)
    &&& layers.len() > 0 ==> layers[0].start == 0 && layers[layers.len() - 1].end == states.len()
    &&& forall|l: int|
        0 <= l < layers.len() ==> (#[trigger] layers[l]).start < layers[l].end <= states.len()
    &&& forall|l: int| 0 <= l < layers.len() - 1 ==> (#[trigger] layers[l]).end == layers[l + 1].start
    &&& forall|l: int, t: int|
        #![trigger layers[l], states[t]]
        0 <= l < layers.len() && layers[l].start <= t < layers[l].end ==> spec_perma_key(
            spec_decode(states[t].0),
        ) == layers[l].key
    &&& forall|l: int| 0 <= l < layers.len() - 1 ==> (#[trigger] layers[l]).key != layers[l + 1].key
}

/// One value-iteration layer: the states sharing one layer key, as a range
/// of the sorted state vector.
#[derive(Debug, Clone, Copy, PartialEq, Eq, Structural)]
pub struct Layer {
    pub key: PermaKey,
    pub start: usize,
    pub end: usize,
}

/// Groups a sorted state vector into its layers: consecutive maximal runs
/// of equal layer keys, in order, covering the whole vector.
pub fn layer_ranges(states: &Vec<GameStateSmall>) -> (r: Vec<Layer>)
    requires
        sorted_states(states@),
    ensures
        (r@.len() == 0) == (states@.len() == 0),
        r@.len() > 0 ==> r@[0].start == 0 && r@[r@.len() - 1].end == states@.len(),
        forall|l: int| 0 <= l < r@.len() ==> (#[trigger] r@[l]).start < r@[l].end <= states@.len(),
        forall|l: int| 0 <= l < r@.len() - 1 ==> (#[trigger] r@[l]).end == r@[l + 1].start,
        forall|l: int, t: int|
            #![trigger r@[l], states@[t]]
            0 <= l < r@.len() && r@[l].start <= t < r@[l].end ==> spec_perma_key(
                spec_decode(states@[t].0),
            ) == r@[l].key,
        forall|l: int| 0 <= l < r@.len() - 1 ==> (#[trigger] r@[l]).key != r@[l + 1].key,
        layer_table_wf(states@, r@),
{
    let mut r: Vec<Layer> = Vec::new();
    if states.len() == 0 {
        return r;
    }
    let mut start: usize = 0;
    let mut cur_key = PermaKey::new(states[0].to_game());
    let mut i: usize = 1;
    while i < states.len()
        invariant
            1 <= i <= states@.len(),
            start < i,
            states@.len() >= 1,
            forall|t: int|
                start <= t < i ==> spec_perma_key(spec_decode((#[trigger] states@[t]).0))
                    == cur_key,
            r@.len() == 0 ==> start == 0,
            r@.len() > 0 ==> r@[0].start == 0 && r@[r@.len() - 1].end == start,
            forall|l: int| 0 <= l < r@.len() ==> (#[trigger] r@[l]).start < r@[l].end <= start,
            forall|l: int| 0 <= l < r@.len() - 1 ==> (#[trigger] r@[l]).end == r@[l + 1].start,
            forall|l: int, t: int|
                #![trigger r@[l], states@[t]]
                0 <= l < r@.len() && r@[l].start <= t < r@[l].end ==> spec_perma_key(
                    spec_decode(states@[t].0),
                ) == r@[l].key,
            forall|l: int| 0 <= l < r@.len() - 1 ==> (#[trigger] r@[l]).key != r@[l + 1].key,
            r@.len() > 0 ==> r@[r@.len() - 1].key != cur_key,
        decreases states@.len() - i,
    {
        let k2 = PermaKey::new(states[i].to_game());
        if !(k2 == cur_key) {
            r.push(Layer { key: cur_key, start, end: i });
            start = i;
            cur_key = k2;
        }
        i = i + 1;
    }
    r.push(Layer { key: cur_key, start, end: states.len() });
    r
}

/// The start of the dependency window of layer `i`: the start of the
/// earliest layer whose key a single move can reach from layer `i`'s key.
/// The window always exists, because a key reaches itself.
pub fn dep_start_of(layers: &Vec<Layer>, i: usize) -> (r: usize)
    requires
        i < layers@.len(),
    ensures
        exists|j: int|
            {
                &&& 0 <= j <= i
                &&& r == (#[trigger] layers@[j]).start
                &&& spec_reachable(layers@[j].key, layers@[i as int].key)
                &&& forall|j2: int|
                    0 <= j2 < j ==> !spec_reachable(
                        (#[trigger] layers@[j2]).key,
                        layers@[i as int].key,
                    )
            },
{
    let mut j: usize = 0;
    while j < i
        invariant
            j <= i < layers@.len(),
            forall|j2: int|
                0 <= j2 < j ==> !spec_reachable(
                    (#[trigger] layers@[j2]).key,
                    layers@[i as int].key,
                ),
        decreases i - j,
    {
        let hit = layers[j].key.reachable_in_one_move_from(layers[i].key);
        if hit {
            let r = layers[j].start;
            proof {
                let jw = j as int;
                assert(0 <= jw <= i && r == layers@[jw].start && spec_reachable(
                    layers@[jw].key,
                    layers@[i as int].key,
                ) && (forall|j2: int|
                    0 <= j2 < jw ==> !spec_reachable(
                        (#[trigger] layers@[j2]).key,
                        layers@[i as int].key,
                    )));
            }
            return r;
        }
        j = j + 1;
    }
    proof {
        assert(spec_reachable(layers@[i as int].key, layers@[i as int].key));
        let jw = i as int;
        assert(0 <= jw <= i && layers@[i as int].start == (#[trigger] layers@[jw]).start
            && spec_reachable(layers@[jw].key, layers@[i as int].key) && (forall|j2: int|
            0 <= j2 < jw ==> !spec_reachable(
                (#[trigger] layers@[j2]).key,
                layers@[i as int].key,
            )));
    }
    layers[i].start
}

/// Pushing onto a run keeps everything it held, and adds the new key.
proof fn lemma_contains_push(s: Seq<GameStateSmall>, x: GameStateSmall, y: GameStateSmall)
    ensures
        s.contains(y) ==> s.push(x).contains(y),
        s.push(x).contains(x),
{
    if s.contains(y) {
        let w = choose|w: int| 0 <= w < s.len() && s[w] == y;
        assert(s.push(x)[w] == y);
    }
    assert(s.push(x)[s.len() as int] == x);
}

/// A family of keys that holds the opening key, holds only valid keys, and
/// holds the successors of everything it holds, holds every reachable
/// position's key.
proof fn lemma_closed_complete(goal: u8, states: Seq<GameStateSmall>, b: GameState, n: nat)
    requires
        goal <= GOAL_SCORE,
        states.contains(GameStateSmall((spec_encode(spec_initial()) as u32))),
        forall|i: int| 0 <= i < states.len() ==> valid_state(goal, (#[trigger] states[i]).0),
        forall|i: int, b2: GameState|
            0 <= i < states.len() && #[trigger] spec_step_rel(goal, spec_decode(states[i].0), b2)
                ==> states.contains(GameStateSmall((spec_encode(b2) as u32))),
        spec_reach_n(goal, spec_initial(), b, n),
    ensures
        states.contains(GameStateSmall((spec_encode(b) as u32))),
    decreases n,
{
    if n != 0 {
        let c = choose|c: GameState|
            spec_reach_n(goal, spec_initial(), c, (n - 1) as nat) && #[trigger] spec_step_rel(
                goal,
                c,
                b,
            );
        lemma_closed_complete(goal, states, c, (n - 1) as nat);
        lemma_reachable_wf(goal, c, (n - 1) as nat);
        lemma_wf_fits(c, goal);
        lemma_decode_encode(c);
        let i = choose|i: int|
            0 <= i < states.len() && states[i] == GameStateSmall((spec_encode(c) as u32));
        assert(valid_state(goal, states[i].0));
        assert(spec_decode(states[i].0) == c);
        assert(spec_step_rel(goal, spec_decode(states[i].0), b));
    }
}

/// Enumerates the reachable positions: the breadth-first closure from the
/// opening position, deduplicated and sorted into solver order. Fails only
/// when the reachable space outgrows what an expression word can index, and
/// then more than `0x20000000` distinct reachable positions exist.
pub fn create_order(goal: u8) -> (r: Result<Vec<GameStateSmall>, SolveError>)
    requires
        goal <= GOAL_SCORE,
    ensures
        match r {
            Ok(states) => enumeration_ok(goal, states@),
            Err(e) => {
                &&& e == SolveError::EncodingOverflow
                &&& exists|s: Seq<u32>|
                    {
                        &&& s.len() > 0x20000000
                        &&& s.no_duplicates()
                        &&& forall|i: int| 0 <= i < s.len() ==> valid_state(goal, #[trigger] s[i])
                    }
            },
        },
{
    let initial = GameState::new();
    proof {
        assert(initial == spec_initial());
        lemma_wf_fits(initial, goal);
    }
    let init_key = GameStateSmall::from_game(initial);
    proof {
        lemma_decode_encode(spec_initial());
        lemma_initial_reachable(goal);
        assert(valid_state(goal, init_key.0));
    }
    let mut visited: HashSet<u32> = HashSet::new();
    let mut vec: Vec<GameStateSmall> = Vec::new();
    let mut queue: Vec<GameStateSmall> = Vec::new();
    queue.push(init_key);
    let ghost init_small = GameStateSmall((spec_encode(spec_initial()) as u32));
    proof {
        assert(init_key == init_small);
        assert(queue@[0] == init_key);
        assert(queue@.contains(init_small));
    }
    while queue.len() > 0
        invariant
            goal <= GOAL_SCORE,
            vec@.len() <= 0x20000000,
            vec@.no_duplicates(),
            forall|k: u32| visited@.contains(k) <==> vec@.contains(GameStateSmall(k)),
            forall|i: int| 0 <= i < vec@.len() ==> valid_state(goal, (#[trigger] vec@[i]).0),
            forall|i: int| 0 <= i < queue@.len() ==> valid_state(goal, (#[trigger] queue@[i]).0),
            forall|i: int, b: GameState|
                0 <= i < vec@.len() && #[trigger] spec_step_rel(goal, spec_decode(vec@[i].0), b)
                    ==> vec@.contains(GameStateSmall((spec_encode(b) as u32)))
                    || queue@.contains(GameStateSmall((spec_encode(b) as u32))),
            vec@.contains(init_small) || queue@.contains(init_small),
            init_small == GameStateSmall((spec_encode(spec_initial()) as u32)),
        decreases 0x20000000 - vec@.len(), queue@.len(),
    {
        let ghost queue_old = queue@;
        let popped = queue.pop();
        let g_small = match popped {
            Some(x) => x,
            None => {
                proof {
                    assert(false);
                }
                GameStateSmall(0)
            },
        };
        assert(g_small == queue_old.last());
        assert(valid_state(goal, g_small.0));
        if visited.contains(&g_small.0) {
            proof {
                assert(vec@.contains(GameStateSmall(g_small.0)));
                assert(GameStateSmall(g_small.0) == g_small);
                assert forall|i: int, b: GameState|
                    0 <= i < vec@.len() && #[trigger] spec_step_rel(
                        goal,
                        spec_decode(vec@[i].0),
                        b,
                    ) implies vec@.contains(GameStateSmall((spec_encode(b) as u32)))
                    || queue@.contains(GameStateSmall((spec_encode(b) as u32))) by {
                    let kk = GameStateSmall((spec_encode(b) as u32));
                    if !vec@.contains(kk) {
                        let w = choose|w: int| 0 <= w < queue_old.len() && queue_old[w] == kk;
                        if w == queue_old.len() - 1 {
                            assert(vec@.contains(kk));
                        } else {
                            assert(queue@[w] == kk);
                        }
                    }
                }
                if !vec@.contains(init_small) {
                    let w = choose|w: int| 0 <= w < queue_old.len() && queue_old[w] == init_small;
                    if w == queue_old.len() - 1 {
                        assert(vec@.contains(init_small));
                    } else {
                        assert(queue@[w] == init_small);
                    }
                }
            }
        } else {
            if vec.len() >= 0x20000000 {
                proof {
                    let f = |x: GameStateSmall| x.0;
                    let m = vec@.map_values(f);
                    vec@.lemma_no_duplicates_injective(f);
                    let s = m.push(g_small.0);
                    assert(!m.contains(g_small.0)) by {
                        if m.contains(g_small.0) {
                            let w = choose|w: int| 0 <= w < m.len() && m[w] == g_small.0;
                            assert(vec@[w] == GameStateSmall(g_small.0));
                            assert(vec@.contains(GameStateSmall(g_small.0)));
                        }
                    }
                    assert(s.no_duplicates()) by {
                        assert forall|i: int, j: int|
                            0 <= i < s.len() && 0 <= j < s.len() && i != j implies s[i] != s[j] by {
                            if i < m.len() && j < m.len() {
                                assert(m[i] != m[j]);
                            } else {
                                let other = if i < m.len() {
                                    i
                                } else {
                                    j
                                };
                                if s[other] == g_small.0 {
                                    assert(m.contains(g_small.0));
                                }
                            }
                        }
                    }
                    assert forall|i: int| 0 <= i < s.len() implies valid_state(
                        goal,
                        #[trigger] s[i],
                    ) by {
                        if i < m.len() {
                            assert(s[i] == (#[trigger] vec@[i]).0);
                        }
                    }
                    assert(s.len() > 0x20000000);
                }
                return Err(SolveError::EncodingOverflow);
            }
            let ghost vec_prev = vec@;
            visited.insert(g_small.0);
            vec.push(g_small);
            proof {
                lemma_contains_push(vec_prev, g_small, g_small);
                assert(vec@ == vec_prev.push(g_small));
                assert(vec@.no_duplicates()) by {
                    assert forall|i: int, j: int|
                        0 <= i < vec@.len() && 0 <= j < vec@.len() && i != j implies vec@[i]
                        != vec@[j] by {
                        if i < vec_prev.len() && j < vec_prev.len() {
                            assert(vec_prev[i] != vec_prev[j]);
                        } else {
                            let other = if i < vec_prev.len() {
                                i
                            } else {
                                j
                            };
                            if vec@[other] == g_small {
                                assert(vec_prev.contains(GameStateSmall(g_small.0)));
                            }
                        }
                    }
                }
                assert forall|k: u32| visited@.contains(k) <==> vec@.contains(
                    GameStateSmall(k),
                ) by {
                    if k == g_small.0 {
                        assert(GameStateSmall(k) == g_small);
                        assert(vec@[vec@.len() - 1] == g_small);
                        assert(vec@.contains(GameStateSmall(k)));
                    } else {
                        if vec_prev.contains(GameStateSmall(k)) {
                            lemma_contains_push(vec_prev, g_small, GameStateSmall(k));
                        }
                        if vec@.contains(GameStateSmall(k)) {
                            let w = choose|w: int|
                                0 <= w < vec@.len() && vec@[w] == GameStateSmall(k);
                            assert(w < vec_prev.len());
                            assert(vec_prev[w] == GameStateSmall(k));
                            assert(vec_prev.contains(GameStateSmall(k)));
                        }
                    }
                }
                assert forall|i: int, b: GameState|
                    0 <= i < vec@.len() - 1 && #[trigger] spec_step_rel(
                        goal,
                        spec_decode(vec@[i].0),
                        b,
                    ) implies vec@.contains(GameStateSmall((spec_encode(b) as u32)))
                    || queue@.contains(GameStateSmall((spec_encode(b) as u32))) by {
                    let kk = GameStateSmall((spec_encode(b) as u32));
                    assert(vec_prev[i] == vec@[i]);
                    assert(spec_step_rel(goal, spec_decode(vec_prev[i].0), b));
                    if vec_prev.contains(kk) {
                        lemma_contains_push(vec_prev, g_small, kk);
                    } else {
                        let w = choose|w: int| 0 <= w < queue_old.len() && queue_old[w] == kk;
                        if w == queue_old.len() - 1 {
                            assert(kk == g_small);
                            lemma_contains_push(vec_prev, g_small, g_small);
                        } else {
                            assert(queue@[w] == kk);
                        }
                    }
                }
                if vec_prev.contains(init_small) {
                    lemma_contains_push(vec_prev, g_small, init_small);
                } else {
                    let w = choose|w: int|
                        0 <= w < queue_old.len() && queue_old[w] == init_small;
                    if w == queue_old.len() - 1 {
                        assert(init_small == g_small);
                        lemma_contains_push(vec_prev, g_small, g_small);
                    } else {
                        assert(queue@[w] == init_small);
                    }
                }
            }
            let game = g_small.to_game();
            assert(game == spec_decode(g_small.0));
            assert(game.wf(goal));
            let succs = successor_keys(game, goal);
            let mut t: usize = 0;
            while t < succs.len()
                invariant
                    goal <= GOAL_SCORE,
                    t <= succs@.len(),
                    game == spec_decode(g_small.0),
                    game.wf(goal),
                    spec_reachable_state(goal, game),
                    forall|u: int|
                        0 <= u < succs@.len() ==> {
                            &&& spec_decode((#[trigger] succs@[u]).0).wf(goal)
                            &&& spec_encode(spec_decode(succs@[u].0)) == succs@[u].0 as int
                            &&& spec_step_rel(goal, game, spec_decode(succs@[u].0))
                        },
                    forall|b: GameState|
                        #[trigger] spec_step_rel(goal, game, b) ==> succs@.contains(
                            GameStateSmall((spec_encode(b) as u32)),
                        ),
                    vec@.len() <= 0x20000000,
                    vec@.no_duplicates(),
                    forall|k: u32| visited@.contains(k) <==> vec@.contains(GameStateSmall(k)),
                    forall|i: int|
                        0 <= i < vec@.len() ==> valid_state(goal, (#[trigger] vec@[i]).0),
                    forall|i: int|
                        0 <= i < queue@.len() ==> valid_state(goal, (#[trigger] queue@[i]).0),
                    forall|i: int, b: GameState|
                        0 <= i < vec@.len() - 1 && #[trigger] spec_step_rel(
                            goal,
                            spec_decode(vec@[i].0),
                            b,
                        ) ==> vec@.contains(GameStateSmall((spec_encode(b) as u32)))
                            || queue@.contains(GameStateSmall((spec_encode(b) as u32))),
                    forall|u: int|
                        0 <= u < t ==> vec@.contains(#[trigger] succs@[u]) || queue@.contains(
                            succs@[u],
                        ),
                    vec@.contains(init_small) || queue@.contains(init_small),
                    init_small == GameStateSmall((spec_encode(spec_initial()) as u32)),
                    vec@[vec@.len() - 1] == g_small,
                decreases succs@.len() - t,
            {
                let ghost queue_prev = queue@;
                let key = succs[t];
                if !visited.contains(&key.0) {
                    proof {
                        lemma_reachable_step(goal, game, spec_decode(key.0));
                        assert(valid_state(goal, key.0));
                    }
                    queue.push(key);
                    proof {
                        assert forall|u: int|
                            0 <= u < t + 1 implies vec@.contains(#[trigger] succs@[u])
                            || queue@.contains(succs@[u]) by {
                            if u < t {
                                if queue_prev.contains(succs@[u]) {
                                    lemma_contains_push(queue_prev, key, succs@[u]);
                                }
                            } else {
                                lemma_contains_push(queue_prev, key, key);
                            }
                        }
                        assert forall|i: int, b: GameState|
                            0 <= i < vec@.len() - 1 && #[trigger] spec_step_rel(
                                goal,
                                spec_decode(vec@[i].0),
                                b,
                            ) implies vec@.contains(GameStateSmall((spec_encode(b) as u32)))
                            || queue@.contains(GameStateSmall((spec_encode(b) as u32))) by {
                            let kk = GameStateSmall((spec_encode(b) as u32));
                            if queue_prev.contains(kk) {
                                lemma_contains_push(queue_prev, key, kk);
                            }
                        }
                        if queue_prev.contains(init_small) {
                            lemma_contains_push(queue_prev, key, init_small);
                        }
                    }
                } else {
                    proof {
                        assert(vec@.contains(GameStateSmall(key.0)));
                        assert(GameStateSmall(key.0) == key);
                    }
                }
                t = t + 1;
            }
            proof {
                // The new entry's successors are all covered now.
                assert forall|i: int, b: GameState|
                    0 <= i < vec@.len() && #[trigger] spec_step_rel(
                        goal,
                        spec_decode(vec@[i].0),
                        b,
                    ) implies vec@.contains(GameStateSmall((spec_encode(b) as u32)))
                    || queue@.contains(GameStateSmall((spec_encode(b) as u32))) by {
                    if i == vec@.len() - 1 {
                        let kk = GameStateSmall((spec_encode(b) as u32));
                        assert(succs@.contains(kk));
                        let u = choose|u: int| 0 <= u < succs@.len() && succs@[u] == kk;
                        assert(vec@.contains(succs@[u]) || queue@.contains(succs@[u]));
                    }
                }
            }
        }
    }
    proof {
        assert(queue@.len() == 0);
        assert(vec@.contains(init_small));
        assert forall|i: int, b: GameState|
            0 <= i < vec@.len() && #[trigger] spec_step_rel(
                goal,
                spec_decode(vec@[i].0),
                b,
            ) implies vec@.contains(GameStateSmall((spec_encode(b) as u32))) by {
            let kk = GameStateSmall((spec_encode(b) as u32));
            if queue@.contains(kk) {
                let w = choose|w: int| 0 <= w < queue@.len() && queue@[w] == kk;
            }
        }
        assert forall|g: GameState| #[trigger]
            spec_reachable_state(goal, g) implies vec@.contains(
            GameStateSmall((spec_encode(g) as u32)),
        ) by {
            let n = choose|n: nat| #[trigger] spec_reach_n(goal, spec_initial(), g, n);
            lemma_closed_complete(goal, vec@, g, n);
        }
    }
    let sorted = sort_states(&vec);
    proof {
        vec@.lemma_multiset_has_no_duplicates();
        assert forall|x: GameStateSmall| vec@.contains(x) == sorted@.contains(x) by {
            assert(vec@.to_multiset().count(x) == sorted@.to_multiset().count(x));
            assert(vec@.contains(x) <==> vec@.to_multiset().count(x) > 0);
            assert(sorted@.contains(x) <==> sorted@.to_multiset().count(x) > 0);
        }
        assert forall|x: GameStateSmall|
            sorted@.to_multiset().contains(x) implies sorted@.to_multiset().count(x) == 1 by {
            assert(vec@.to_multiset().count(x) == sorted@.to_multiset().count(x));
            assert(vec@.to_multiset().contains(x) ==> vec@.to_multiset().count(x) == 1);
        }
        sorted@.lemma_multiset_has_no_duplicates_conv();
        assert forall|i: int| 0 <= i < sorted@.len() implies valid_state(
            goal,
            (#[trigger] sorted@[i]).0,
        ) by {
            assert(sorted@.contains(sorted@[i]));
            assert(vec@.contains(sorted@[i]));
            let w = choose|w: int| 0 <= w < vec@.len() && vec@[w] == sorted@[i];
        }
    }
    Ok(sorted)
}

/// Finds `target` between `lo` and `hi` in a sorted run of keys.
pub fn find_state(
    states: &Vec<GameStateSmall>,
    lo: usize,
    hi: usize,
    target: GameStateSmall,
) -> (r: Option<usize>)
    requires
        lo <= hi <= states@.len(),
        sorted_states(states@),
    ensures
        match r {
            Some(idx) => lo <= idx < hi && states@[idx as int] == target,
            None => forall|k: int| lo <= k < hi ==> (#[trigger] states@[k]) != target,
        },
{
    let mut lo2 = lo;
    let mut hi2 = hi;
    while lo2 < hi2
        invariant
            lo <= lo2 <= hi2 <= hi <= states@.len(),
            sorted_states(states@),
            forall|k: int| lo <= k < lo2 ==> (#[trigger] states@[k]) != target,
            forall|k: int| hi2 <= k < hi ==> (#[trigger] states@[k]) != target,
        decreases hi2 - lo2,
    {
        let mid = lo2 + (hi2 - lo2) / 2;
        let s = states[mid];
        if s == target {
            return Some(mid);
        } else if state_le(s, target) {
            assert forall|k: int| lo2 <= k <= mid implies (#[trigger] states@[k]) != target by {
                if states@[k] == target {
                    assert(spec_state_le(states@[k].0, s.0) || k == mid);
                }
            }
            lo2 = mid + 1;
        } else {
            assert forall|k: int| mid <= k < hi2 implies (#[trigger] states@[k]) != target by {
                if states@[k] == target {
                    assert(spec_state_le(s.0, states@[k].0) || k == mid);
                }
            }
            hi2 = mid;
        }
    }
    None
}

} // verus!
