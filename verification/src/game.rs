use vstd::prelude::*;

use crate::strip::{
    bit_set, count_bits, lemma_bit_clear, lemma_bit_or, lemma_count_bits_bounds,
    lemma_count_bits_clear, lemma_count_bits_or, spec_apply_delta_source, spec_square, Delta,
    DeltaResult, MoveSource, Square, StripIndex, StripState,
};
use crate::successor::Succ;

verus! {

/// How many pieces each team races to bring home.
pub const GOAL_SCORE: u8 = 7;

/// One team's pieces on the strip, plus how many it has already scored.
#[derive(Debug, Clone, Hash, PartialEq, Eq, Copy, Structural)]
pub struct TeamState {
    pub strip: StripState,
    pub score: u8,
}

proof fn lemma_count_bits_zero(n: int)
    requires
        0 <= n,
    ensures
        count_bits(0u16, n) == 0,
    decreases n,
{
    if n > 0 {
        lemma_count_bits_zero(n - 1);
        let j = (n - 1) as u8;
        assert(!bit_set(0u16, j)) by (bit_vector);
    }
}

impl TeamState {
    /// Pieces on the board plus scored pieces never exceed the goal, and only
    /// the fourteen square bits may be used.
    pub open spec fn wf(self, goal: u8) -> bool {
        self.strip.wf() && self.strip.spec_count() + self.score <= goal
    }

    pub fn new() -> (r: Self)
        ensures
            r == (TeamState { strip: StripState(0), score: 0u8 }),
            forall|goal: u8| #[trigger] r.wf(goal),
    {
        let r = TeamState { strip: StripState::new(), score: 0 };
        proof {
            lemma_count_bits_zero(14);
        }
        r
    }

    /// Pieces still waiting on the bench.
    pub fn remaining(&self, goal: u8) -> (r: u8)
        requires
            self.wf(goal),
        ensures
            r as int == goal - self.strip.spec_count() - self.score,
    {
        proof {
            lemma_count_bits_bounds(self.strip.0, 14);
        }
        goal - self.strip.count_pieces() - self.score
    }
}

/// The team after taking a piece away from `source`, if a piece is there.
pub open spec fn spec_remove_move_source(t: TeamState, goal: u8, source: MoveSource) -> Option<
    TeamState,
> {
    match source {
        MoveSource::Index(i) => if bit_set(t.strip.0, i.0) {
            Some(TeamState { strip: StripState(t.strip.0 & !(1u16 << i.0)), score: t.score })
        } else {
            None
        },
        MoveSource::Launch => if t.strip.spec_count() + t.score == goal {
            None
        } else {
            Some(t)
        },
    }
}

impl TeamState {
    pub fn remove_move_source(&self, goal: u8, source: MoveSource) -> (r: Option<TeamState>)
        requires
            self.wf(goal),
            source.wf(),
        ensures
            r == spec_remove_move_source(*self, goal, source),
    {
        match source {
            MoveSource::Index(i) => {
                if self.strip.get(i) {
                    let mut state = self.clone();
                    state.strip.set(i, false);
                    Some(state)
                } else {
                    None
                }
            },
            MoveSource::Launch => {
                if self.remaining(goal) == 0 {
                    None
                } else {
                    Some(self.clone())
                }
            },
        }
    }
}

/// Which team stands on a square, from the mover's point of view.
#[derive(Debug, Clone, Copy, PartialEq, Eq, Structural)]
pub enum Player {
    Prot,
    Opp,
}

/// The full position: the mover (`prot`) and the opponent (`opp`).
#[derive(Debug, Clone, Hash, PartialEq, Eq, Copy, Structural)]
pub struct GameState {
    pub prot: TeamState,
    pub opp: TeamState,
}

/// Who stands on square `i`: the opponent counts only on shared squares.
pub open spec fn spec_player_at(g: GameState, i: StripIndex) -> Option<Player> {
    if 4 <= i.0 <= 11 {
        if bit_set(g.prot.strip.0, i.0) {
            Some(Player::Prot)
        } else if bit_set(g.opp.strip.0, i.0) {
            Some(Player::Opp)
        } else {
            None
        }
    } else {
        if bit_set(g.prot.strip.0, i.0) {
            Some(Player::Prot)
        } else {
            None
        }
    }
}

impl GameState {
    /// Both teams are well formed and no shared square holds both teams.
    pub open spec fn wf(self, goal: u8) -> bool {
        self.prot.wf(goal) && self.opp.wf(goal) && (forall|j: u8|
            4 <= j <= 11 ==> !(#[trigger] bit_set(self.prot.strip.0, j) && bit_set(
                self.opp.strip.0,
                j,
            )))
    }

    /// The same position seen by the other player.
    pub open spec fn spec_flip(self) -> GameState {
        GameState { prot: self.opp, opp: self.prot }
    }

    pub fn new() -> (r: Self)
        ensures
            r == (GameState { prot: TeamState { strip: StripState(0), score: 0u8 }, opp: TeamState { strip: StripState(0), score: 0u8 } }),
            forall|goal: u8| #[trigger] r.wf(goal),
    {
        let r = GameState { prot: TeamState::new(), opp: TeamState::new() };
        proof {
            assert forall|goal: u8| #[trigger] r.wf(goal) by {
                assert forall|j: u8| 4 <= j <= 11 implies !(bit_set(r.prot.strip.0, j) && bit_set(
                    r.opp.strip.0,
                    j,
                )) by {
                    assert(!bit_set(0u16, j)) by (bit_vector);
                }
            }
        }
        r
    }

    pub fn flipped(self) -> (r: GameState)
        ensures
            r == self.spec_flip(),
    {
        GameState { prot: self.opp, opp: self.prot }
    }

    pub fn player_at_i(&self, i: StripIndex) -> (r: Option<Player>)
        requires
            i.wf(),
        ensures
            r == spec_player_at(*self, i),
    {
        if i.both_teams_accessible() {
            if self.prot.strip.get(i) {
                Some(Player::Prot)
            } else if self.opp.strip.get(i) {
                Some(Player::Opp)
            } else {
                None
            }
        } else {
            if self.prot.strip.get(i) {
                Some(Player::Prot)
            } else {
                None
            }
        }
    }
}

/// Flipping a position keeps it well formed.
pub proof fn lemma_flip_wf(g: GameState, goal: u8)
    ensures
        g.spec_flip().wf(goal) == g.wf(goal),
{
}

/// One legal continuation: either the game goes on, or the mover just won.
#[derive(Debug, Clone, Copy, PartialEq, Eq, Structural)]
pub enum Move {
    Continue { game: GameState, keep_turn: bool },
    End,
}

/// The outcome of moving the piece at `source` by `d`, exactly as the strip
/// rules state it: a missing piece, stacking on one's own piece, or running
/// past the board rejects the move; landing on the opponent's flower is
/// barred; landing on any other opponent piece sends it back to the bench;
/// landing on a flower keeps the turn; reaching the end scores, and scoring
/// the `goal`th piece wins outright.
pub open spec fn spec_move_piece(g: GameState, goal: u8, source: MoveSource, d: Delta) -> Option<
    Move,
> {
    match spec_remove_move_source(g.prot, goal, source) {
        None => None,
        Some(prot1) => match spec_apply_delta_source(source, d) {
            DeltaResult::OutOfBounds => None,
            DeltaResult::Score => {
                if prot1.score + 1 == goal {
                    Some(Move::End)
                } else {
                    Some(
                        Move::Continue {
                            game: GameState {
                                prot: TeamState {
                                    strip: prot1.strip,
                                    score: (prot1.score + 1) as u8,
                                },
                                opp: g.opp,
                            },
                            keep_turn: false,
                        },
                    )
                }
            },
            DeltaResult::Index(ni) => {
                if spec_player_at(g, ni) == Some(Player::Prot) {
                    None
                } else if spec_player_at(g, ni) == Some(Player::Opp) && spec_square(ni)
                    == Square::Flower {
                    None
                } else {
                    let opp2 = if spec_player_at(g, ni) == Some(Player::Opp) {
                        TeamState {
                            strip: StripState(g.opp.strip.0 & !(1u16 << ni.0)),
                            score: g.opp.score,
                        }
                    } else {
                        g.opp
                    };
                    let prot2 = TeamState {
                        strip: StripState(prot1.strip.0 | (1u16 << ni.0)),
                        score: prot1.score,
                    };
                    Some(
                        Move::Continue {
                            game: GameState { prot: prot2, opp: opp2 },
                            keep_turn: spec_square(ni) == Square::Flower,
                        },
                    )
                }
            },
        },
    }
}

impl GameState {
    pub fn move_piece(&self, goal: u8, source: MoveSource, delta: Delta) -> (r: Option<Move>)
        requires
            self.wf(goal),
            source.wf(),
            delta.wf(),
            goal <= GOAL_SCORE,
        ensures
            r == spec_move_piece(*self, goal, source, delta),
    {
        let mut game = self.clone();
        game.prot = match game.prot.remove_move_source(goal, source) {
            Some(p) => p,
            None => {
                return None;
            },
        };
        match source.apply_delta(delta) {
            DeltaResult::OutOfBounds => None,
            DeltaResult::Score => {
                proof {
                    lemma_count_bits_bounds(self.prot.strip.0, 14);
                }
                game.prot.score = game.prot.score + 1;
                Some(
                    if game.prot.score == goal {
                        Move::End
                    } else {
                        Move::Continue { game, keep_turn: false }
                    },
                )
            },
            DeltaResult::Index(new_i) => {
                let at = self.player_at_i(new_i);
                if matches!(at, Some(Player::Prot)) {
                    None
                } else {
                    let is_flower = matches!(new_i.square(), Square::Flower);
                    let caused_deletion = matches!(at, Some(Player::Opp));
                    if caused_deletion && is_flower {
                        None
                    } else {
                        if caused_deletion {
                            game.opp.strip.set(new_i, false);
                        }
                        game.prot.strip.set(new_i, true);
                        Some(Move::Continue { game, keep_turn: is_flower })
                    }
                }
            },
        }
    }
}

/// What a continuation preserves: the result is well formed, the opponent's
/// score is untouched, and the mover's score rises by at most one.
pub open spec fn move_ok(g: GameState, goal: u8, m: Move) -> bool {
    m matches Move::Continue { game: g2, keep_turn } ==> g2.wf(goal) && g2.opp.score == g.opp.score
        && (g2.prot.score == g.prot.score || g2.prot.score == g.prot.score + 1)
}

/// Every move produced by `spec_move_piece` preserves well-formedness and
/// moves the scores as `move_ok` states.
pub proof fn lemma_move_piece_ok(g: GameState, goal: u8, source: MoveSource, d: Delta)
    requires
        g.wf(goal),
        source.wf(),
        d.wf(),
        goal <= GOAL_SCORE,
    ensures
        spec_move_piece(g, goal, source, d) matches Some(m) ==> move_ok(g, goal, m),
{
    lemma_count_bits_bounds(g.prot.strip.0, 14);
    lemma_count_bits_bounds(g.opp.strip.0, 14);
    match spec_remove_move_source(g.prot, goal, source) {
        None => {},
        Some(prot1) => {
            // Removing the moved piece leaves a well-formed team whose occupancy
            // occupies a subset of the squares it occupied before.
            let p0 = g.prot.strip.0;
            assert(prot1.wf(goal) && prot1.score == g.prot.score && (forall|j: u8|
                j < 16 && #[trigger] bit_set(prot1.strip.0, j) ==> bit_set(p0, j))) by {
                match source {
                    MoveSource::Launch => {},
                    MoveSource::Index(i) => {
                        let ii = i.0;
                        let p1 = prot1.strip.0;
                        lemma_count_bits_clear(p0, ii, 14);
                        assert forall|j: u8| j < 16 && #[trigger] bit_set(p1, j) implies bit_set(
                            p0,
                            j,
                        ) by {
                            lemma_bit_clear(p0, ii, j);
                        }
                        assert((p0 & !(1u16 << ii)) <= p0) by (bit_vector);
                    },
                }
            }
            // And it frees at least the moved piece when launching is barred.
            match spec_apply_delta_source(source, d) {
                DeltaResult::OutOfBounds => {},
                DeltaResult::Score => {
                    match source {
                        MoveSource::Launch => {},
                        MoveSource::Index(i) => {
                            lemma_count_bits_clear(g.prot.strip.0, i.0, 14);
                        },
                    }
                },
                DeltaResult::Index(ni) => {
                    if spec_player_at(g, ni) == Some(Player::Prot) {
                    } else if spec_player_at(g, ni) == Some(Player::Opp) && spec_square(ni)
                        == Square::Flower {
                    } else {
                        let captured = spec_player_at(g, ni) == Some(Player::Opp);
                        let opp2 = if captured {
                            TeamState {
                                strip: StripState(g.opp.strip.0 & !(1u16 << ni.0)),
                                score: g.opp.score,
                            }
                        } else {
                            g.opp
                        };
                        let prot2 = TeamState {
                            strip: StripState(prot1.strip.0 | (1u16 << ni.0)),
                            score: prot1.score,
                        };
                        assert(ni.0 <= 13);
                        assert(!bit_set(prot1.strip.0, ni.0));
                        lemma_count_bits_or(prot1.strip.0, ni.0, 14);
                        match source {
                            MoveSource::Launch => {},
                            MoveSource::Index(i) => {
                                lemma_count_bits_clear(g.prot.strip.0, i.0, 14);
                            },
                        }
                        assert(prot2.strip.wf()) by {
                            let p1 = prot1.strip.0;
                            let nn = ni.0;
                            assert(p1 < 0x4000 && nn <= 13 ==> (p1 | (1u16 << nn)) < 0x4000)
                                by (bit_vector);
                        }
                        if captured {
                            lemma_count_bits_clear(g.opp.strip.0, ni.0, 14);
                            assert(opp2.strip.wf()) by {
                                let o0 = g.opp.strip.0;
                                let nn = ni.0;
                                assert((o0 & !(1u16 << nn)) <= o0) by (bit_vector);
                            }
                        }
                        // No shared square ends up doubly occupied.
                        assert forall|j: u8| 4 <= j <= 11 implies !(#[trigger] bit_set(
                            prot2.strip.0,
                            j,
                        ) && bit_set(opp2.strip.0, j)) by {
                            lemma_bit_or(prot1.strip.0, ni.0, j);
                            if captured {
                                lemma_bit_clear(g.opp.strip.0, ni.0, j);
                            }
                        }
                    }
                },
            }
        },
    }
}

/// A die roll: either all dice blank (no move) or a delta of 1 to 4.
#[derive(Debug, Clone, Copy, PartialEq, Eq, Structural)]
pub enum Roll {
    Zero,
    Delta(Delta),
}

/// The weight of a roll, in sixteenths: the binomial weights 1,4,6,4,1.
pub open spec fn spec_weight_16(r: Roll) -> int {
    match r {
        Roll::Zero => 1,
        Roll::Delta(d) => if d.0 == 1 {
            4
        } else if d.0 == 2 {
            6
        } else if d.0 == 3 {
            4
        } else {
            1
        },
    }
}

impl Roll {
    pub open spec fn wf(self) -> bool {
        match self {
            Roll::Zero => true,
            Roll::Delta(d) => d.wf(),
        }
    }

    /// The roll at position `i` of `Roll::vals()`.
    pub open spec fn spec_index(i: int) -> Roll {
        if i == 0 {
            Roll::Zero
        } else {
            Roll::Delta(Delta(i as u8))
        }
    }

    /// The five possible rolls, in evaluation order.
    pub fn vals() -> (r: [Roll; 5])
        ensures
            r@ =~= seq![
                Roll::Zero,
                Roll::Delta(Delta(1)),
                Roll::Delta(Delta(2)),
                Roll::Delta(Delta(3)),
                Roll::Delta(Delta(4)),
            ],
    {
        [
            Roll::Zero,
            Roll::Delta(Delta(1)),
            Roll::Delta(Delta(2)),
            Roll::Delta(Delta(3)),
            Roll::Delta(Delta(4)),
        ]
    }

    pub fn from_index(index: usize) -> (r: Option<Self>)
        ensures
            r == (if index < 5 {
                Some(Roll::spec_index(index as int))
            } else {
                None::<Roll>
            }),
    {
        if index == 0 {
            Some(Roll::Zero)
        } else if index <= 4 {
            Some(Roll::Delta(Delta(index as u8)))
        } else {
            None
        }
    }

    /// The roll's probability, in sixteenths.
    pub fn weight_sixteenths(&self) -> (r: u8)
        ensures
            r as int == spec_weight_16(*self),
    {
        match self {
            Roll::Zero => 1,
            Roll::Delta(d) => {
                let v = d.get();
                if v == 1 {
                    4
                } else if v == 2 {
                    6
                } else if v == 3 {
                    4
                } else {
                    1
                }
            },
        }
    }
}

/// The five roll weights sum to a full sixteen sixteenths: the chance
/// distribution over rolls is a probability distribution.
pub proof fn lemma_weights_sum_to_one()
    ensures
        spec_weight_16(Roll::spec_index(0)) + spec_weight_16(Roll::spec_index(1)) + spec_weight_16(
            Roll::spec_index(2),
        ) + spec_weight_16(Roll::spec_index(3)) + spec_weight_16(Roll::spec_index(4)) == 16,
{
}

impl Succ for Roll {
    fn first() -> Self {
        Roll::Zero
    }

    fn succ(&self) -> Option<Self> {
        match self {
            Roll::Zero => Some(Roll::Delta(Delta(1))),
            Roll::Delta(d) => match d.succ() {
                Some(next) => Some(Roll::Delta(next)),
                None => None,
            },
        }
    }
}

/// The move source tried at step `k`: the bench first, then each square.
pub open spec fn spec_source(k: int) -> MoveSource {
    if k == 0 {
        MoveSource::Launch
    } else {
        MoveSource::Index(StripIndex((k - 1) as u8))
    }
}

/// The legal moves from sources `k` onward, in source order.
pub open spec fn rest_moves(g: GameState, goal: u8, d: Delta, k: int) -> Seq<Move>
    decreases 15 - k,
{
    if k < 0 || k >= 15 {
        Seq::empty()
    } else {
        match spec_move_piece(g, goal, spec_source(k), d) {
            None => rest_moves(g, goal, d, k + 1),
            Some(m) => seq![m] + rest_moves(g, goal, d, k + 1),
        }
    }
}

/// The move that passes the turn without touching the board.
pub open spec fn spec_pass(g: GameState) -> Move {
    Move::Continue { game: g, keep_turn: false }
}

/// Every roll offers at least one continuation: the legal moves if there are
/// any, else a single pass; a blank roll only ever passes.
pub open spec fn spec_possible_moves(g: GameState, goal: u8, roll: Roll) -> Seq<Move> {
    match roll {
        Roll::Zero => seq![spec_pass(g)],
        Roll::Delta(d) => {
            let ms = rest_moves(g, goal, d, 0);
            if ms.len() == 0 {
                seq![spec_pass(g)]
            } else {
                ms
            }
        },
    }
}

/// Each entry of `rest_moves` satisfies `move_ok`.
pub proof fn lemma_rest_moves_ok(g: GameState, goal: u8, d: Delta, k: int)
    requires
        g.wf(goal),
        d.wf(),
        goal <= GOAL_SCORE,
    ensures
        forall|i: int|
            0 <= i < rest_moves(g, goal, d, k).len() ==> move_ok(
                g,
                goal,
                #[trigger] rest_moves(g, goal, d, k)[i],
            ),
    decreases 15 - k,
{
    if 0 <= k < 15 {
        lemma_rest_moves_ok(g, goal, d, k + 1);
        assert(spec_source(k).wf());
        lemma_move_piece_ok(g, goal, spec_source(k), d);
        let rk = rest_moves(g, goal, d, k);
        let rk1 = rest_moves(g, goal, d, k + 1);
        assert forall|i: int| 0 <= i < rk.len() implies move_ok(g, goal, #[trigger] rk[i]) by {
            match spec_move_piece(g, goal, spec_source(k), d) {
                None => {
                    assert(rk[i] == rk1[i]);
                },
                Some(m) => {
                    if i == 0 {
                        assert(rk[i] == m);
                    } else {
                        assert(rk[i] == rk1[i - 1]);
                    }
                },
            }
        }
    }
}

/// Each entry of `spec_possible_moves` satisfies `move_ok`.
pub proof fn lemma_possible_moves_ok(g: GameState, goal: u8, roll: Roll)
    requires
        g.wf(goal),
        roll.wf(),
        goal <= GOAL_SCORE,
    ensures
        forall|i: int|
            0 <= i < spec_possible_moves(g, goal, roll).len() ==> move_ok(
                g,
                goal,
                #[trigger] spec_possible_moves(g, goal, roll)[i],
            ),
{
    match roll {
        Roll::Zero => {},
        Roll::Delta(d) => {
            lemma_rest_moves_ok(g, goal, d, 0);
        },
    }
}

/// All legal continuations of `game` under `roll`, in source order, with a
/// single turn-pass when nothing may move.
pub fn possible_moves(game: GameState, goal: u8, roll: Roll) -> (r: Vec<Move>)
    requires
        game.wf(goal),
        roll.wf(),
        goal <= GOAL_SCORE,
    ensures
        r@ == spec_possible_moves(game, goal, roll),
        r@.len() >= 1,
{
    match roll {
        Roll::Zero => {
            let mut v: Vec<Move> = Vec::new();
            v.push(Move::Continue { game, keep_turn: false });
            proof {
                assert(v@ =~= spec_possible_moves(game, goal, roll));
            }
            v
        },
        Roll::Delta(delta) => {
            let mut v: Vec<Move> = Vec::new();
            let mut k: u8 = 0;
            while k < 15
                invariant
                    game.wf(goal),
                    delta.wf(),
                    goal <= GOAL_SCORE,
                    k <= 15,
                    v@ + rest_moves(game, goal, delta, k as int) == rest_moves(
                        game,
                        goal,
                        delta,
                        0,
                    ),
                decreases 15 - k,
            {
                let source = if k == 0 {
                    MoveSource::Launch
                } else {
                    MoveSource::Index(StripIndex(k - 1))
                };
                assert(source == spec_source(k as int));
                let ghost prev = v@;
                match game.move_piece(goal, source, delta) {
                    Some(m) => {
                        v.push(m);
                        proof {
                            assert(v@ + rest_moves(game, goal, delta, k as int + 1) =~= prev + (
                            seq![m] + rest_moves(game, goal, delta, k as int + 1)));
                        }
                    },
                    None => {},
                }
                k = k + 1;
            }
            proof {
                assert(rest_moves(game, goal, delta, 15) =~= Seq::<Move>::empty());
                assert(v@ =~= rest_moves(game, goal, delta, 0));
            }
            if v.len() == 0 {
                v.push(Move::Continue { game, keep_turn: false });
                proof {
                    assert(v@ =~= spec_possible_moves(game, goal, roll));
                }
            }
            v
        },
    }
}

/// The opening position: every piece on the bench, both scores zero.
pub open spec fn spec_initial() -> GameState {
    GameState {
        prot: TeamState { strip: StripState(0), score: 0u8 },
        opp: TeamState { strip: StripState(0), score: 0u8 },
    }
}

/// The opening position is well formed for every goal.
pub proof fn lemma_initial_wf(goal: u8)
    ensures
        spec_initial().wf(goal),
{
    lemma_count_bits_zero(14);
    assert forall|j: u8| 4 <= j <= 11 implies !(bit_set(spec_initial().prot.strip.0, j) && bit_set(
        spec_initial().opp.strip.0,
        j,
    )) by {
        assert(!bit_set(0u16, j)) by (bit_vector);
    }
}

/// One stored transition: some roll and some legal move take position `a` to
/// position `b` as the solver stores it, flipped when the turn passes.
pub open spec fn spec_step_rel(goal: u8, a: GameState, b: GameState) -> bool {
    exists|r: int, i: int|
        {
            &&& 0 <= r < 5
            &&& 0 <= i < spec_possible_moves(a, goal, Roll::spec_index(r)).len()
            &&& (#[trigger] spec_possible_moves(a, goal, Roll::spec_index(r))[i]) matches Move::Continue {
                game,
                keep_turn,
            } && b == (if keep_turn {
                game
            } else {
                game.spec_flip()
            })
        }
}

/// `b` arises from `a` after exactly `n` stored transitions.
pub open spec fn spec_reach_n(goal: u8, a: GameState, b: GameState, n: nat) -> bool
    decreases n,
{
    if n == 0 {
        a == b
    } else {
        exists|c: GameState|
            spec_reach_n(goal, a, c, (n - 1) as nat) && #[trigger] spec_step_rel(goal, c, b)
    }
}

/// `b` is reachable from the opening position by some sequence of moves.
pub open spec fn spec_reachable_state(goal: u8, b: GameState) -> bool {
    exists|n: nat| #[trigger] spec_reach_n(goal, spec_initial(), b, n)
}

pub proof fn lemma_initial_reachable(goal: u8)
    ensures
        spec_reachable_state(goal, spec_initial()),
{
    assert(spec_reach_n(goal, spec_initial(), spec_initial(), 0));
}

/// A single stored transition keeps well-formedness.
pub proof fn lemma_step_wf(goal: u8, a: GameState, b: GameState)
    requires
        a.wf(goal),
        goal <= GOAL_SCORE,
        spec_step_rel(goal, a, b),
    ensures
        b.wf(goal),
{
    let (r, i) = choose|r: int, i: int|
        {
            &&& 0 <= r < 5
            &&& 0 <= i < spec_possible_moves(a, goal, Roll::spec_index(r)).len()
            &&& (#[trigger] spec_possible_moves(a, goal, Roll::spec_index(r))[i]) matches Move::Continue {
                game,
                keep_turn,
            } && b == (if keep_turn {
                game
            } else {
                game.spec_flip()
            })
        };
    assert(Roll::spec_index(r).wf());
    lemma_possible_moves_ok(a, goal, Roll::spec_index(r));
    match spec_possible_moves(a, goal, Roll::spec_index(r))[i] {
        Move::Continue { game, keep_turn } => {
            lemma_flip_wf(game, goal);
        },
        Move::End => {},
    }
}

/// Every reachable position is well formed.
pub proof fn lemma_reachable_wf(goal: u8, b: GameState, n: nat)
    requires
        goal <= GOAL_SCORE,
        spec_reach_n(goal, spec_initial(), b, n),
    ensures
        b.wf(goal),
    decreases n,
{
    if n == 0 {
        lemma_initial_wf(goal);
    } else {
        let c = choose|c: GameState|
            spec_reach_n(goal, spec_initial(), c, (n - 1) as nat) && #[trigger] spec_step_rel(
                goal,
                c,
                b,
            );
        lemma_reachable_wf(goal, c, (n - 1) as nat);
        lemma_step_wf(goal, c, b);
    }
}

/// The board invariants hold of every reachable position: each team's
/// pieces on the strip plus its scored pieces stay within the goal, and no
/// shared square carries both teams at once.
pub proof fn lemma_reachable_invariants(goal: u8, s: GameState, n: nat)
    requires
        goal <= GOAL_SCORE,
        spec_reach_n(goal, spec_initial(), s, n),
    ensures
        count_bits(s.prot.strip.0, 14) + s.prot.score <= goal,
        count_bits(s.opp.strip.0, 14) + s.opp.score <= goal,
        forall|j: u8|
            4 <= j <= 11 ==> !(#[trigger] bit_set(s.prot.strip.0, j) && bit_set(
                s.opp.strip.0,
                j,
            )),
{
    lemma_reachable_wf(goal, s, n);
}

/// A stored transition out of a reachable position reaches a reachable one.
pub proof fn lemma_reachable_step(goal: u8, a: GameState, b: GameState)
    requires
        spec_reachable_state(goal, a),
        spec_step_rel(goal, a, b),
    ensures
        spec_reachable_state(goal, b),
{
    let n = choose|n: nat| #[trigger] spec_reach_n(goal, spec_initial(), a, n);
    assert(spec_reach_n(goal, spec_initial(), b, n + 1));
}

/// Walks the legal continuations of one position under one roll, lazily.
#[derive(Debug, Clone, Copy)]
pub enum PossibleMovesRoll {
    Zero(bool),
    Delta { delta: Delta, next_source: u8, provided_one_move: bool },
}

/// The lazy counterpart of `possible_moves`: yields the same moves one at a
/// time.
#[derive(Debug, Clone, Copy)]
pub struct PossibleMovesIter {
    pub game: GameState,
    pub goal: u8,
    pub roll: PossibleMovesRoll,
}

impl PossibleMovesIter {
    pub open spec fn wf(self) -> bool {
        self.game.wf(self.goal) && self.goal <= GOAL_SCORE && match self.roll {
            PossibleMovesRoll::Zero(_) => true,
            PossibleMovesRoll::Delta { delta, next_source, provided_one_move } => delta.wf()
                && next_source <= 15,
        }
    }

    /// The moves this iterator has yet to yield.
    pub open spec fn yields(self) -> Seq<Move> {
        match self.roll {
            PossibleMovesRoll::Zero(done) => if done {
                Seq::empty()
            } else {
                seq![spec_pass(self.game)]
            },
            PossibleMovesRoll::Delta { delta, next_source, provided_one_move } => {
                let rest = rest_moves(self.game, self.goal, delta, next_source as int);
                if rest.len() > 0 {
                    rest
                } else if !provided_one_move {
                    seq![spec_pass(self.game)]
                } else {
                    Seq::empty()
                }
            },
        }
    }

    pub fn new(game: GameState, goal: u8, roll: Roll) -> (r: Self)
        requires
            game.wf(goal),
            roll.wf(),
            goal <= GOAL_SCORE,
        ensures
            r.wf(),
            r.yields() == spec_possible_moves(game, goal, roll),
            r.game == game,
            r.goal == goal,
    {
        Self {
            game,
            goal,
            roll: match roll {
                Roll::Zero => PossibleMovesRoll::Zero(false),
                Roll::Delta(delta) => PossibleMovesRoll::Delta {
                    delta,
                    next_source: 0,
                    provided_one_move: false,
                },
            },
        }
    }

    /// Yields the next legal move, or nothing once all are out.
    pub fn next(&mut self) -> (r: Option<Move>)
        requires
            old(self).wf(),
        ensures
            final(self).wf(),
            final(self).game == old(self).game,
            final(self).goal == old(self).goal,
            old(self).yields().len() == 0 ==> r is None && final(self).yields().len() == 0,
            old(self).yields().len() > 0 ==> r == Some(old(self).yields()[0]) && final(self).yields() == old(self).yields().skip(1),
    {
        match self.roll {
            PossibleMovesRoll::Zero(done) => {
                if done {
                    None
                } else {
                    self.roll = PossibleMovesRoll::Zero(true);
                    proof {
                        assert(old(self).yields().skip(1) =~= Seq::<Move>::empty());
                    }
                    Some(Move::Continue { game: self.game, keep_turn: false })
                }
            },
            PossibleMovesRoll::Delta { delta, next_source, provided_one_move } => {
                let mut k: u8 = next_source;
                while k < 15
                    invariant
                        *self == *old(self),
                        self.wf(),
                        self.roll == (PossibleMovesRoll::Delta {
                            delta,
                            next_source,
                            provided_one_move,
                        }),
                        next_source <= k <= 15,
                        rest_moves(self.game, self.goal, delta, k as int) == rest_moves(
                            self.game,
                            self.goal,
                            delta,
                            next_source as int,
                        ),
                    decreases 15 - k,
                {
                    let source = if k == 0 {
                        MoveSource::Launch
                    } else {
                        MoveSource::Index(StripIndex(k - 1))
                    };
                    assert(source == spec_source(k as int));
                    match self.game.move_piece(self.goal, source, delta) {
                        Some(m) => {
                            self.roll = PossibleMovesRoll::Delta {
                                delta,
                                next_source: k + 1,
                                provided_one_move: true,
                            };
                            proof {
                                assert(rest_moves(self.game, self.goal, delta, k as int) == seq![m]
                                    + rest_moves(self.game, self.goal, delta, k as int + 1));
                                assert(old(self).yields().skip(1) =~= rest_moves(
                                    self.game,
                                    self.goal,
                                    delta,
                                    k as int + 1,
                                ));
                            }
                            return Some(m);
                        },
                        None => {},
                    }
                    k = k + 1;
                }
                assert(rest_moves(self.game, self.goal, delta, next_source as int) =~= Seq::<
                    Move,
                >::empty());
                self.roll = PossibleMovesRoll::Delta {
                    delta,
                    next_source: 15,
                    provided_one_move: true,
                };
                if provided_one_move {
                    None
                } else {
                    proof {
                        assert(old(self).yields().skip(1) =~= Seq::<Move>::empty());
                    }
                    Some(Move::Continue { game: self.game, keep_turn: false })
                }
            },
        }
    }
}

} // verus!
