use vstd::prelude::*;

use crate::compact::{lemma_decode_bounds, lemma_decode_encode, lemma_wf_fits, spec_decode,
    spec_encode, GameStateSmall};
use crate::game::{
    lemma_flip_wf, lemma_possible_moves_ok, lemma_reachable_step, lemma_reachable_wf, move_ok,
    possible_moves, spec_initial, spec_possible_moves, spec_reach_n, spec_reachable_state,
    spec_step_rel, GameState, Move, Roll, GOAL_SCORE,
};
use crate::order::{enumeration_ok, find_state, layer_table_wf, sorted_states, spec_state_le,
    spec_state_rank, valid_state, Layer, SolveError};
use crate::perma::{
    lemma_perma_flip, lemma_perma_key_wf, lemma_perma_rank_injective, lemma_step_sorts_no_later,
    lemma_successor_layer_order, spec_perma_key, spec_perma_rank, spec_reachable,
};

verus! {

/// What a term refers to: the sure win, or the table entry at an index.
#[derive(Debug, Clone, Copy, PartialEq, Eq, Structural)]
pub enum Val {
    Win,
    Var(u32),
}

/// The packed form of a term: bit 31 closes a roll group, bit 30 takes the
/// complement of the referenced value, bit 29 is the literal win, and the
/// low 29 bits hold a variable index otherwise.
pub open spec fn spec_part(end: bool, inverse: bool, val: Val) -> u32 {
    (if end {
        0x80000000u32
    } else {
        0u32
    }) | (if inverse {
        0x40000000u32
    } else {
        0u32
    }) | (match val {
        Val::Win => 0x20000000u32,
        Val::Var(index) => 0x1FFFFFFF & index,
    })
}

pub open spec fn spec_is_end(b: u32) -> bool {
    b & 0x80000000 != 0
}

pub open spec fn spec_is_inverse(b: u32) -> bool {
    b & 0x40000000 != 0
}

pub open spec fn spec_get_val(b: u32) -> Val {
    if b & 0x20000000 != 0 {
        Val::Win
    } else {
        Val::Var(b & 0x1FFFFFFF)
    }
}

/// One 32-bit word of the expression stream.
#[derive(Debug, Clone, Copy, PartialEq, Eq, Structural)]
pub struct ExprPart(pub u32);

impl ExprPart {
    /// Packs one term. An index at or above `0x20000000` would collide with
    /// the marker bits, so the stream never carries one.
    pub fn new(end: bool, inverse: bool, val: Val) -> (r: Self)
        ensures
            r.0 == spec_part(end, inverse, val),
            spec_is_end(r.0) == end,
            spec_is_inverse(r.0) == inverse,
            (val matches Val::Var(i) && i < 0x20000000 ==> spec_get_val(r.0) == val),
            (val is Win ==> spec_get_val(r.0) == Val::Win),
    {
        let e: u32 = if end {
            0x80000000
        } else {
            0
        };
        let iv: u32 = if inverse {
            0x40000000
        } else {
            0
        };
        let vv: u32 = match val {
            Val::Win => 0x20000000,
            Val::Var(index) => 0x1FFFFFFF & index,
        };
        let bits = e | iv | vv;
        proof {
            match val {
                Val::Win => {
                    assert((e == 0x80000000 || e == 0) && (iv == 0x40000000 || iv == 0) && vv
                        == 0x20000000 ==> ((e | iv | vv) & 0x80000000 != 0) == (e == 0x80000000)
                        && ((e | iv | vv) & 0x40000000 != 0) == (iv == 0x40000000) && ((e | iv
                        | vv) & 0x20000000 != 0)) by (bit_vector);
                },
                Val::Var(index) => {
                    assert((e == 0x80000000 || e == 0) && (iv == 0x40000000 || iv == 0) && vv == (
                    0x1FFFFFFF & index) ==> ((e | iv | vv) & 0x80000000 != 0) == (e == 0x80000000)
                        && ((e | iv | vv) & 0x40000000 != 0) == (iv == 0x40000000) && ((e | iv
                        | vv) & 0x20000000 == 0) && ((e | iv | vv) & 0x1FFFFFFF) == (0x1FFFFFFF
                        & index) && (index < 0x20000000 ==> (0x1FFFFFFF & index) == index))
                        by (bit_vector);
                },
            }
        }
        ExprPart(bits)
    }

    pub fn is_end(&self) -> (r: bool)
        ensures
            r == spec_is_end(self.0),
    {
        (self.0 & 0x80000000) != 0
    }

    pub fn is_inverse(&self) -> (r: bool)
        ensures
            r == spec_is_inverse(self.0),
    {
        (self.0 & 0x40000000) != 0
    }

    pub fn get_val(&self) -> (r: Val)
        ensures
            r == spec_get_val(self.0),
    {
        let is_win = (self.0 & 0x20000000) != 0;
        if is_win {
            Val::Win
        } else {
            Val::Var(self.0 & 0x1FFFFFFF)
        }
    }

    /// The raw word, as the GPU pipeline uploads it.
    pub fn raw(self) -> (r: u32)
        ensures
            r == self.0,
    {
        self.0
    }

    pub fn from_raw(v: u32) -> (r: ExprPart)
        ensures
            r.0 == v,
    {
        ExprPart(v)
    }
}

/// The position a continuation leaves on the table: flipped when the turn
/// passes, so the table always holds the player to move.
pub open spec fn spec_stored_game(m: Move) -> GameState {
    match m {
        Move::Continue { game, keep_turn } => if keep_turn {
            game
        } else {
            game.spec_flip()
        },
        Move::End => spec_initial(),
    }
}

/// Where key `k` stands in the state vector.
pub open spec fn spec_index_of(states: Seq<GameStateSmall>, k: GameStateSmall) -> int {
    choose|j: int| 0 <= j < states.len() && states[j] == k
}

pub open spec fn spec_group_has_end(moves: Seq<Move>) -> bool {
    exists|i: int| 0 <= i < moves.len() && moves[i] is End
}

/// The packed word of one continuation: an inverse reference to the stored
/// successor, direct when the mover keeps the turn.
pub open spec fn spec_move_word(states: Seq<GameStateSmall>, m: Move, is_last: bool) -> ExprPart {
    match m {
        Move::Continue { game, keep_turn } => ExprPart(
            spec_part(
                is_last,
                !keep_turn,
                Val::Var(
                    spec_index_of(
                        states,
                        GameStateSmall((spec_encode(spec_stored_game(m)) as u32)),
                    ) as u32,
                ),
            ),
        ),
        Move::End => ExprPart(0),
    }
}

/// One roll group: a single win term when some move wins outright, else one
/// term per legal move with the last term closing the group.
pub open spec fn spec_group_parts(
    states: Seq<GameStateSmall>,
    g: GameState,
    goal: u8,
    r: int,
) -> Seq<ExprPart> {
    let moves = spec_possible_moves(g, goal, Roll::spec_index(r));
    if spec_group_has_end(moves) {
        seq![ExprPart(spec_part(true, false, Val::Win))]
    } else {
        Seq::new(moves.len(), |i: int| spec_move_word(states, moves[i], i == moves.len() - 1))
    }
}

/// The first `r_lim` roll groups of one state, in roll order.
pub open spec fn spec_groups_upto(
    states: Seq<GameStateSmall>,
    g: GameState,
    goal: u8,
    r_lim: int,
) -> Seq<ExprPart>
    decreases r_lim,
{
    if r_lim <= 0 {
        Seq::empty()
    } else {
        spec_groups_upto(states, g, goal, r_lim - 1) + spec_group_parts(states, g, goal, r_lim - 1)
    }
}

/// The whole Bellman expression of one state: its five roll groups.
pub open spec fn spec_state_parts(states: Seq<GameStateSmall>, g: GameState, goal: u8) -> Seq<
    ExprPart,
> {
    spec_groups_upto(states, g, goal, 5)
}

/// The stream of a layer: each state's expression, in state order.
pub open spec fn spec_layer_parts(
    states: Seq<GameStateSmall>,
    goal: u8,
    lo: int,
    hi: int,
) -> Seq<ExprPart>
    decreases hi - lo,
{
    if lo >= hi {
        Seq::empty()
    } else {
        spec_state_parts(states, spec_decode(states[lo].0), goal) + spec_layer_parts(
            states,
            goal,
            lo + 1,
            hi,
        )
    }
}

/// The offsets at which each state's expression begins, `base` first.
pub open spec fn spec_layer_starts(
    states: Seq<GameStateSmall>,
    goal: u8,
    lo: int,
    hi: int,
    base: int,
) -> Seq<u32>
    decreases hi - lo,
{
    if lo >= hi {
        Seq::empty()
    } else {
        seq![base as u32] + spec_layer_starts(
            states,
            goal,
            lo + 1,
            hi,
            base + spec_state_parts(states, spec_decode(states[lo].0), goal).len(),
        )
    }
}

/// Every stored successor of every state of the window `[start, end)` has
/// its key inside `[dep_start, end)`: the dependency window is closed.
pub open spec fn window_closed(
    states: Seq<GameStateSmall>,
    goal: u8,
    dep_start: int,
    start: int,
    end: int,
) -> bool {
    forall|j: int, b: GameState|
        start <= j < end && #[trigger] spec_step_rel(goal, spec_decode(states[j].0), b)
            ==> exists|w: int| dep_start <= w < end && states[w].0 == spec_encode(b) as u32
}

proof fn lemma_layer_parts_snoc(states: Seq<GameStateSmall>, goal: u8, lo: int, hi: int)
    requires
        lo <= hi,
    ensures
        spec_layer_parts(states, goal, lo, hi + 1) == spec_layer_parts(states, goal, lo, hi)
            + spec_state_parts(states, spec_decode(states[hi].0), goal),
    decreases hi - lo,
{
    if lo == hi {
        assert(spec_layer_parts(states, goal, hi + 1, hi + 1) =~= Seq::<ExprPart>::empty());
        assert(spec_layer_parts(states, goal, lo, hi) =~= Seq::<ExprPart>::empty());
        assert(spec_layer_parts(states, goal, lo, hi + 1) =~= spec_state_parts(
            states,
            spec_decode(states[hi].0),
            goal,
        ));
    } else {
        lemma_layer_parts_snoc(states, goal, lo + 1, hi);
        assert(spec_layer_parts(states, goal, lo, hi + 1) =~= spec_layer_parts(states, goal, lo, hi)
            + spec_state_parts(states, spec_decode(states[hi].0), goal));
    }
}

proof fn lemma_layer_starts_snoc(states: Seq<GameStateSmall>, goal: u8, lo: int, hi: int, base: int)
    requires
        lo <= hi,
    ensures
        spec_layer_starts(states, goal, lo, hi + 1, base) == spec_layer_starts(
            states,
            goal,
            lo,
            hi,
            base,
        ) + seq![(base + spec_layer_parts(states, goal, lo, hi).len()) as u32],
    decreases hi - lo,
{
    if lo == hi {
        assert(spec_layer_parts(states, goal, lo, hi).len() == 0);
        assert(spec_layer_starts(states, goal, lo, hi, base) =~= Seq::<u32>::empty());
        assert(spec_layer_starts(
            states,
            goal,
            lo + 1,
            hi + 1,
            base + spec_state_parts(states, spec_decode(states[lo].0), goal).len(),
        ) =~= Seq::<u32>::empty());
        assert(spec_layer_starts(states, goal, lo, hi + 1, base) =~= spec_layer_starts(
            states,
            goal,
            lo,
            hi,
            base,
        ) + seq![(base + spec_layer_parts(states, goal, lo, hi).len()) as u32]);
    } else {
        lemma_layer_starts_snoc(
            states,
            goal,
            lo + 1,
            hi,
            base + spec_state_parts(states, spec_decode(states[lo].0), goal).len(),
        );
        assert(spec_layer_starts(states, goal, lo, hi + 1, base) =~= spec_layer_starts(
            states,
            goal,
            lo,
            hi,
            base,
        ) + seq![(base + spec_layer_parts(states, goal, lo, hi).len()) as u32]);
    }
}

/// Compiles the Bellman expressions of the states in `[start, end)` against
/// the dependency window `[dep_start, end)`, as the flat word stream and the
/// per-state offsets. Succeeds exactly on closed windows of streamable size;
/// a missing successor reports the invariant violation instead of producing
/// a wrong stream.
pub fn create_exprs(
    states: &Vec<GameStateSmall>,
    goal: u8,
    dep_start: usize,
    start: usize,
    end: usize,
    expr_parts: &mut Vec<ExprPart>,
    expr_starts: &mut Vec<u32>,
) -> (r: Result<(), SolveError>)
    requires
        old(expr_parts)@.len() == 0,
        old(expr_starts)@.len() == 0,
        sorted_states(states@),
        states@.no_duplicates(),
        states@.len() <= 0x20000000,
        dep_start <= start <= end <= states@.len(),
        goal <= GOAL_SCORE,
        forall|i: int| start <= i < end ==> spec_decode((#[trigger] states@[i]).0).wf(goal),
    ensures
        r is Ok ==> final(expr_parts)@ == spec_layer_parts(
            states@,
            goal,
            start as int,
            end as int,
        ) && final(expr_starts)@ == spec_layer_starts(
            states@,
            goal,
            start as int,
            end as int,
            0,
        ),
        r matches Err(e) ==> (e == SolveError::InvariantViolation && !window_closed(
            states@,
            goal,
            dep_start as int,
            start as int,
            end as int,
        )) || e == SolveError::EncodingOverflow,
        window_closed(states@, goal, dep_start as int, start as int, end as int)
            && spec_layer_parts(states@, goal, start as int, end as int).len() <= 0xFFFFFFFF
            ==> r is Ok,
{
    let ghost total = spec_layer_parts(states@, goal, start as int, end as int);
    let mut j: usize = start;
    while j < end
        invariant
            start <= j <= end <= states@.len(),
            states@.len() <= 0x20000000,
            sorted_states(states@),
            states@.no_duplicates(),
            goal <= GOAL_SCORE,
            dep_start <= start,
            forall|i: int| start <= i < end ==> spec_decode((#[trigger] states@[i]).0).wf(goal),
            expr_parts@ == spec_layer_parts(states@, goal, start as int, j as int),
            expr_starts@ == spec_layer_starts(states@, goal, start as int, j as int, 0),
            total == spec_layer_parts(states@, goal, start as int, end as int),
            window_closed(states@, goal, dep_start as int, start as int, end as int) && total.len()
                <= 0xFFFFFFFF ==> expr_parts@.len() <= total.len(),
        decreases end - j,
    {
        let ghost parts_base = expr_parts@;
        let g_small = states[j];
        let game = g_small.to_game();
        assert(game == spec_decode(states@[j as int].0));
        assert(game.wf(goal));
        if expr_parts.len() as u64 > 0xFFFFFFFFu64 {
            return Err(SolveError::EncodingOverflow);
        }
        expr_starts.push(expr_parts.len() as u32);
        let mut ri: usize = 0;
        while ri < 5
            invariant
                ri <= 5,
                start <= j < end <= states@.len(),
                states@.len() <= 0x20000000,
                sorted_states(states@),
                states@.no_duplicates(),
                goal <= GOAL_SCORE,
                dep_start <= start,
                game == spec_decode(states@[j as int].0),
                game.wf(goal),
                expr_parts@ == parts_base + spec_groups_upto(states@, game, goal, ri as int),
                parts_base == spec_layer_parts(states@, goal, start as int, j as int),
            decreases 5 - ri,
        {
            let ghost group_base = expr_parts@;
            let roll = match Roll::from_index(ri) {
                Some(roll) => roll,
                None => {
                    proof {
                        assert(false);
                    }
                    Roll::Zero
                },
            };
            assert(roll == Roll::spec_index(ri as int));
            assert(roll.wf());
            let moves = possible_moves(game, goal, roll);
            let mut has_end = false;
            let mut mi: usize = 0;
            while mi < moves.len()
                invariant
                    mi <= moves@.len(),
                    has_end == (exists|x: int| 0 <= x < mi && moves@[x] is End),
                decreases moves@.len() - mi,
            {
                if matches!(moves[mi], Move::End) {
                    has_end = true;
                }
                proof {
                    if has_end && !(exists|x: int| 0 <= x < mi && moves@[x] is End) {
                        assert(moves@[mi as int] is End);
                    }
                }
                mi = mi + 1;
            }
            assert(has_end == spec_group_has_end(moves@));
            if has_end {
                expr_parts.push(ExprPart::new(true, false, Val::Win));
                proof {
                    assert(spec_group_parts(states@, game, goal, ri as int) =~= seq![
                        ExprPart(spec_part(true, false, Val::Win)),
                    ]);
                    assert(expr_parts@ =~= parts_base + spec_groups_upto(
                        states@,
                        game,
                        goal,
                        ri as int + 1,
                    ));
                }
            } else {
                let ghost words = Seq::new(
                    moves@.len(),
                    |x: int| spec_move_word(states@, moves@[x], x == moves@.len() - 1),
                );
                let mut mi2: usize = 0;
                while mi2 < moves.len()
                    invariant
                        mi2 <= moves@.len(),
                        moves@.len() >= 1,
                        start <= j < end <= states@.len(),
                        states@.len() <= 0x20000000,
                        sorted_states(states@),
                        states@.no_duplicates(),
                        goal <= GOAL_SCORE,
                        dep_start <= start,
                        game == spec_decode(states@[j as int].0),
                        game.wf(goal),
                        moves@ == spec_possible_moves(game, goal, Roll::spec_index(ri as int)),
                        ri < 5,
                        !spec_group_has_end(moves@),
                        words == Seq::new(
                            moves@.len(),
                            |x: int| spec_move_word(states@, moves@[x], x == moves@.len() - 1),
                        ),
                        expr_parts@ == group_base + words.take(mi2 as int),
                        group_base == parts_base + spec_groups_upto(states@, game, goal, ri as int),
                    decreases moves@.len() - mi2,
                {
                    match moves[mi2] {
                        Move::Continue { game: g2, keep_turn } => {
                            let stored = if keep_turn {
                                g2
                            } else {
                                g2.flipped()
                            };
                            proof {
                                lemma_possible_moves_ok(game, goal, Roll::spec_index(ri as int));
                                assert(move_ok(game, goal, moves@[mi2 as int]));
                                lemma_flip_wf(g2, goal);
                                lemma_wf_fits(stored, goal);
                            }
                            let key = GameStateSmall::from_game(stored);
                            match find_state(states, dep_start, end, key) {
                                Some(idx) => {
                                    let is_last = mi2 == moves.len() - 1;
                                    let part = ExprPart::new(
                                        is_last,
                                        !keep_turn,
                                        Val::Var(idx as u32),
                                    );
                                    proof {
                                        // The found index is the unique one.
                                        let widx = spec_index_of(states@, key);
                                        assert(states@[idx as int] == key);
                                        assert(0 <= widx < states@.len() && states@[widx] == key);
                                        if widx != idx as int {
                                            assert(states@[widx] == states@[idx as int]);
                                            assert(false);
                                        }
                                        assert(spec_stored_game(moves@[mi2 as int]) == stored);
                                        assert(part == spec_move_word(
                                            states@,
                                            moves@[mi2 as int],
                                            is_last,
                                        ));
                                        assert(words[mi2 as int] == part);
                                    }
                                    expr_parts.push(part);
                                    proof {
                                        assert(words.take(mi2 as int + 1) =~= words.take(
                                            mi2 as int,
                                        ).push(part));
                                    }
                                },
                                None => {
                                    proof {
                                        assert(spec_step_rel(goal, game, stored));
                                        assert(!window_closed(
                                            states@,
                                            goal,
                                            dep_start as int,
                                            start as int,
                                            end as int,
                                        )) by {
                                            if window_closed(
                                                states@,
                                                goal,
                                                dep_start as int,
                                                start as int,
                                                end as int,
                                            ) {
                                                let w = choose|w: int|
                                                    dep_start <= w < end && states@[w].0
                                                        == spec_encode(stored) as u32;
                                                assert(states@[w] == key);
                                            }
                                        }
                                    }
                                    return Err(SolveError::InvariantViolation);
                                },
                            }
                        },
                        Move::End => {
                            proof {
                                assert(moves@[mi2 as int] is End);
                                assert(false);
                            }
                        },
                    }
                    mi2 = mi2 + 1;
                }
                proof {
                    assert(words.take(moves@.len() as int) =~= words);
                    assert(spec_group_parts(states@, game, goal, ri as int) == words);
                    assert(expr_parts@ =~= parts_base + spec_groups_upto(
                        states@,
                        game,
                        goal,
                        ri as int + 1,
                    ));
                }
            }
            ri = ri + 1;
        }
        proof {
            lemma_layer_parts_snoc(states@, goal, start as int, j as int);
            lemma_layer_starts_snoc(states@, goal, start as int, j as int, 0);
            assert(expr_parts@ =~= spec_layer_parts(states@, goal, start as int, j as int + 1));
            assert(expr_starts@ =~= spec_layer_starts(
                states@,
                goal,
                start as int,
                j as int + 1,
                0,
            ));
            if window_closed(states@, goal, dep_start as int, start as int, end as int)
                && total.len() <= 0xFFFFFFFF {
                lemma_layer_parts_prefix(states@, goal, start as int, j as int + 1, end as int);
            }
        }
        j = j + 1;
    }
    Ok(())
}


/// A layer never begins before an earlier layer.
proof fn lemma_layers_ordered(states: Seq<GameStateSmall>, layers: Seq<Layer>, a: int, b: int)
    requires
        layer_table_wf(states, layers),
        0 <= a <= b < layers.len(),
    ensures
        layers[a].start <= layers[b].start,
    decreases b - a,
{
    if a < b {
        lemma_layers_ordered(states, layers, a, b - 1);
    }
}

/// Every index below a layer's end belongs to that layer or an earlier one.
proof fn lemma_layer_covering(
    states: Seq<GameStateSmall>,
    layers: Seq<Layer>,
    l: int,
    w: int,
) -> (l2: int)
    requires
        layer_table_wf(states, layers),
        0 <= l < layers.len(),
        0 <= w < layers[l].end,
    ensures
        0 <= l2 <= l,
        layers[l2].start <= w < layers[l2].end,
    decreases l,
{
    if w >= layers[l].start {
        l
    } else {
        lemma_layer_covering(states, layers, l - 1, w)
    }
}

/// The driver's dependency window is always closed: with the enumerator's
/// output, its layer table, and the window starting at the earliest layer a
/// single move can reach, every stored successor of every state of layer
/// `i` has its key inside the window. Compiling a layer therefore always
/// succeeds in the driver.
pub proof fn lemma_dep_window_closed(
    goal: u8,
    states: Seq<GameStateSmall>,
    layers: Seq<Layer>,
    i: int,
    j: int,
)
    requires
        goal <= GOAL_SCORE,
        enumeration_ok(goal, states),
        layer_table_wf(states, layers),
        0 <= i < layers.len(),
        0 <= j <= i,
        spec_reachable(layers[j].key, layers[i].key),
        forall|j2: int|
            0 <= j2 < j ==> !spec_reachable((#[trigger] layers[j2]).key, layers[i].key),
    ensures
        window_closed(
            states,
            goal,
            layers[j].start as int,
            layers[i].start as int,
            layers[i].end as int,
        ),
{
    let start = layers[i].start as int;
    let end = layers[i].end as int;
    let dep = layers[j].start as int;
    assert forall|t: int, b: GameState|
        start <= t < end && #[trigger] spec_step_rel(goal, spec_decode(states[t].0), b) implies
        exists|w: int| dep <= w < end && states[w].0 == spec_encode(b) as u32 by {
        let s = spec_decode(states[t].0);
        assert(valid_state(goal, states[t].0));
        lemma_reachable_step(goal, s, b);
        let kb = GameStateSmall((spec_encode(b) as u32));
        assert(states.contains(kb));
        let w = choose|w: int| 0 <= w < states.len() && states[w] == kb;
        let n = choose|n: nat| #[trigger] spec_reach_n(goal, spec_initial(), b, n);
        lemma_reachable_wf(goal, b, n);
        lemma_wf_fits(b, goal);
        lemma_decode_encode(b);
        assert(spec_decode(states[w].0) == b);
        lemma_step_sorts_no_later(goal, s, b);
        assert(spec_perma_key(s) == layers[i].key);
        // The successor's layer key is one move away from this layer's key.
        let (r, mi) = choose|r: int, mi: int|
            {
                &&& 0 <= r < 5
                &&& 0 <= mi < spec_possible_moves(s, goal, Roll::spec_index(r)).len()
                &&& (#[trigger] spec_possible_moves(s, goal, Roll::spec_index(r))[mi]) matches Move::Continue {
                    game,
                    keep_turn,
                } && b == (if keep_turn {
                    game
                } else {
                    game.spec_flip()
                })
            };
        assert(Roll::spec_index(r).wf());
        lemma_successor_layer_order(s, goal, Roll::spec_index(r), mi);
        match spec_possible_moves(s, goal, Roll::spec_index(r))[mi] {
            Move::Continue { game: g2, keep_turn } => {
                lemma_perma_flip(g2);
            },
            Move::End => {
                assert(false);
            },
        }
        assert(spec_reachable(spec_perma_key(b), layers[i].key));
        // The successor never lands beyond this layer's end.
        assert(w < end) by {
            if w >= end {
                if i == layers.len() - 1 {
                    assert(end == states.len());
                    assert(false);
                } else {
                    let key_next = layers[i + 1].key;
                    assert(layers[i + 1].start == end);
                    assert(end < layers[i + 1].end);
                    assert(spec_perma_key(spec_decode(states[end].0)) == key_next);
                    assert(spec_state_le(states[t].0, states[end].0));
                    lemma_decode_bounds(states[end].0);
                    lemma_decode_bounds(states[t].0);
                    lemma_perma_key_wf(spec_decode(states[end].0));
                    lemma_perma_key_wf(spec_decode(states[t].0));
                    if spec_perma_rank(key_next) == spec_perma_rank(layers[i].key) {
                        lemma_perma_rank_injective(key_next, layers[i].key);
                        assert(false);
                    }
                    if w > end {
                        assert(spec_state_le(states[end].0, states[w].0));
                    }
                    assert(spec_state_rank(states[w].0) == spec_perma_rank(spec_perma_key(b)));
                    assert(false);
                }
            }
        }
        // Nor before the dependency window opens.
        assert(dep <= w) by {
            if w < dep {
                assert(w < layers[i].end);
                let lw = lemma_layer_covering(states, layers, i, w);
                assert(lw < j) by {
                    if lw >= j {
                        lemma_layers_ordered(states, layers, j, lw);
                        assert(false);
                    }
                }
                assert(layers[lw].key == spec_perma_key(b));
                assert(!spec_reachable(layers[lw].key, layers[i].key));
                assert(false);
            }
        }
        assert(dep <= w < end && states[w].0 == spec_encode(b) as u32);
    }
}

/// A prefix of a layer's stream is never longer than the whole stream.
proof fn lemma_layer_parts_prefix(states: Seq<GameStateSmall>, goal: u8, lo: int, mid: int, hi: int)
    requires
        lo <= mid <= hi,
    ensures
        spec_layer_parts(states, goal, lo, mid).len() <= spec_layer_parts(states, goal, lo, hi).len(),
    decreases hi - mid,
{
    if mid < hi {
        lemma_layer_parts_snoc(states, goal, lo, mid);
        lemma_layer_parts_prefix(states, goal, lo, mid + 1, hi);
        lemma_layer_parts_snoc(states, goal, lo, mid);
        assert(spec_layer_parts(states, goal, lo, mid + 1).len() >= spec_layer_parts(
            states,
            goal,
            lo,
            mid,
        ).len());
    }
}

} // verus!
